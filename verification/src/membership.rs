//! The cluster as one node sees it: who is in it, who is alive, who is done.
//!
//! Nodes are known by rank, that is by their position in the cluster's list.

use crate::types::NodeId;
use std::collections::{HashMap, HashSet};
use vstd::prelude::*;

verus! {

/// A peer whose last Pong is older than this is taken for dead, in nanoseconds.
pub const HEARTBEAT_TIMEOUT: u64 = 500_000_000;

/// What a node knows of its cluster.
#[verifier::ext_equal]
pub struct MembershipView {
    /// The identifiers of all nodes, by rank.
    pub nodes: Seq<(Seq<char>, usize)>,
    /// The rank of the node itself.
    pub me: usize,
    /// The nodes not known to have crashed.
    pub alive: Set<usize>,
    /// When each peer last answered a Ping, in nanoseconds.
    pub pongs: Map<usize, u64>,
    /// The nodes that have finished or crashed.
    pub done: Set<usize>,
}

/// The ranks below `n` other than `me`, in ascending order.
pub open spec fn others(n: nat, me: usize) -> Seq<usize>
    decreases n,
{
    if n == 0 {
        Seq::empty()
    } else {
        let rest = others((n - 1) as nat, me);
        if n - 1 != me {
            rest.push((n - 1) as usize)
        } else {
            rest
        }
    }
}

/// Those of `ranks` that are alive, in their given order.
pub open spec fn alive_of(ranks: Seq<usize>, alive: Set<usize>) -> Seq<usize>
    decreases ranks.len(),
{
    if ranks.len() == 0 {
        Seq::empty()
    } else {
        let rest = alive_of(ranks.drop_last(), alive);
        if alive.contains(ranks.last()) {
            rest.push(ranks.last())
        } else {
            rest
        }
    }
}

/// The last Pong of `rank` is older at time `now` than the timeout allows.
pub open spec fn timed_out(pongs: Map<usize, u64>, rank: usize, now: u64) -> bool {
    pongs.contains_key(rank) && now - pongs[rank] > HEARTBEAT_TIMEOUT
}

/// Those of `ranks` that have timed out, in their given order.
pub open spec fn timed_out_of(ranks: Seq<usize>, pongs: Map<usize, u64>, now: u64) -> Seq<usize>
    decreases ranks.len(),
{
    if ranks.len() == 0 {
        Seq::empty()
    } else {
        let rest = timed_out_of(ranks.drop_last(), pongs, now);
        if timed_out(pongs, ranks.last(), now) {
            rest.push(ranks.last())
        } else {
            rest
        }
    }
}

impl MembershipView {
    /// The size of the cluster.
    pub open spec fn len(self) -> nat {
        self.nodes.len()
    }

    /// The ranks of all other nodes.
    pub open spec fn others(self) -> Seq<usize> {
        others(self.len(), self.me)
    }

    /// The ranks of all other nodes that are alive.
    pub open spec fn alive_others(self) -> Seq<usize> {
        alive_of(self.others(), self.alive)
    }

    /// The node is in its own cluster, no node is in it twice, and only
    /// nodes of the cluster are alive or done.
    pub open spec fn valid(self) -> bool {
        &&& self.me < self.nodes.len() <= usize::MAX
        &&& self.nodes.no_duplicates()
        &&& self.done.finite()
        &&& forall|r: usize| #[trigger] self.alive.contains(r) ==> r < self.nodes.len()
        &&& forall|r: usize| #[trigger] self.done.contains(r) ==> r < self.nodes.len()
    }

    /// `rank` has finished.
    pub open spec fn with_done(self, rank: usize) -> Self {
        MembershipView { done: self.done.insert(rank), ..self }
    }

    /// `rank` has crashed: it is no longer alive and counts as done.
    pub open spec fn with_dead(self, rank: usize) -> Self {
        MembershipView { alive: self.alive.remove(rank), done: self.done.insert(rank), ..self }
    }

    /// The peers that have timed out at time `now`.
    pub open spec fn expired(self, now: u64) -> Seq<usize> {
        timed_out_of(self.alive_others(), self.pongs, now)
    }

    /// Where `dead` have crashed, all nodes are done, and one of `dead` was not
    /// before.
    pub open spec fn shut_down_by(self, dead: Seq<usize>) -> bool {
        &&& exists|i: int| 0 <= i < dead.len() && !self.done.contains(#[trigger] dead[i])
        &&& self.with_all_dead(dead).done.len() >= self.len()
    }

    /// All of `ranks` have crashed.
    pub open spec fn with_all_dead(self, ranks: Seq<usize>) -> Self {
        MembershipView {
            alive: self.alive.difference(ranks.to_set()),
            done: self.done.union(ranks.to_set()),
            ..self
        }
    }
}

pub struct Membership {
    cluster: Vec<NodeId>,
    me: usize,
    alive: HashSet<usize>,
    last_pong: HashMap<usize, u64>,
    done: HashSet<usize>,
}

/// The outcome of one round of crash detection.
pub struct Heartbeat {
    /// The peers to send a Ping to.
    pub pings: Vec<usize>,
    /// The peers found dead in this round.
    pub dead: Vec<usize>,
    /// Every node is done now.
    pub shutdown: bool,
}

/// The identifiers of a list of nodes.
pub open spec fn node_names(cluster: Seq<NodeId>) -> Seq<(Seq<char>, usize)> {
    cluster.map_values(|node: NodeId| node@)
}

impl View for Membership {
    type V = MembershipView;

    closed spec fn view(&self) -> MembershipView {
        MembershipView {
            nodes: node_names(self.cluster@),
            me: self.me,
            alive: self.alive@,
            pongs: self.last_pong@,
            done: self.done@,
        }
    }
}

/// The position of `node` in a list of nodes.
pub fn position_of(cluster: &Vec<NodeId>, node: &NodeId) -> (position: Option<usize>)
    ensures
        match position {
            Some(p) => {
                &&& p < cluster@.len()
                &&& node_names(cluster@)[p as int] == node@
                &&& forall|i: int| 0 <= i < p ==> (#[trigger] node_names(cluster@)[i]) != node@
            },
            None => !node_names(cluster@).contains(node@),
        },
{
    let mut i: usize = 0;
    while i < cluster.len()
        invariant
            i <= cluster@.len(),
            forall|j: int| 0 <= j < i ==> (#[trigger] node_names(cluster@)[j]) != node@,
        decreases cluster@.len() - i,
    {
        assert(node_names(cluster@)[i as int] == cluster@[i as int]@);
        if cluster[i] == *node {
            return Some(i);
        }
        i += 1;
    }
    None
}

/// No node is in the list twice.
pub fn all_distinct(cluster: &Vec<NodeId>) -> (distinct: bool)
    ensures
        distinct == node_names(cluster@).no_duplicates(),
{
    let mut i: usize = 0;
    while i < cluster.len()
        invariant
            i <= cluster@.len(),
            forall|a: int, b: int|
                0 <= a < i && a < b < cluster@.len() ==> (#[trigger] node_names(cluster@)[a]) != (
                #[trigger] node_names(cluster@)[b]),
        decreases cluster@.len() - i,
    {
        let mut j: usize = i + 1;
        while j < cluster.len()
            invariant
                i < j <= cluster@.len(),
                forall|b: int|
                    i < b < j ==> (#[trigger] node_names(cluster@)[b]) != node_names(
                        cluster@,
                    )[i as int],
            decreases cluster@.len() - j,
        {
            assert(node_names(cluster@)[i as int] == cluster@[i as int]@);
            assert(node_names(cluster@)[j as int] == cluster@[j as int]@);
            if cluster[i] == cluster[j] {
                return false;
            }
            j += 1;
        }
        i += 1;
    }
    true
}

impl Membership {
    /// A cluster in which every node is alive, none is done, and every peer
    /// counts as heard from at time `now`. There is none if a node is in the
    /// list twice or the node itself is not in it.
    pub fn new(cluster: Vec<NodeId>, my_node_id: &NodeId, now: u64) -> (members: Option<Membership>)
        ensures
            members is Some <==> node_names(cluster@).no_duplicates() && node_names(
                cluster@,
            ).contains(my_node_id@),
            members matches Some(m) ==> {
                &&& m@.valid()
                &&& m@.nodes == node_names(cluster@)
                &&& m@.nodes[m@.me as int] == my_node_id@
                &&& forall|r: usize| #[trigger] m@.alive.contains(r) <==> r < m@.nodes.len()
                &&& m@.done == Set::<usize>::empty()
                &&& forall|r: usize| #[trigger]
                    m@.pongs.contains_key(r) <==> r < m@.nodes.len() && r != m@.me
                &&& forall|r: usize| #[trigger] m@.pongs.contains_key(r) ==> m@.pongs[r] == now
            },
    {
        if !all_distinct(&cluster) {
            return None;
        }
        match position_of(&cluster, my_node_id) {
            None => None,
            Some(me) => {
                let mut alive: HashSet<usize> = HashSet::new();
                let mut last_pong: HashMap<usize, u64> = HashMap::new();
                let mut r: usize = 0;
                while r < cluster.len()
                    invariant
                        r <= cluster@.len(),
                        forall|x: usize| #[trigger] alive@.contains(x) <==> x < r,
                        forall|x: usize| #[trigger]
                            last_pong@.contains_key(x) <==> x < r && x != me,
                        forall|x: usize| #[trigger]
                            last_pong@.contains_key(x) ==> last_pong@[x] == now,
                    decreases cluster@.len() - r,
                {
                    alive.insert(r);
                    if r != me {
                        last_pong.insert(r, now);
                    }
                    r += 1;
                }
                proof {
                    assert(node_names(cluster@)[me as int] == my_node_id@);
                    assert(node_names(cluster@).contains(my_node_id@));
                }
                Some(Membership { cluster, me, alive, last_pong, done: HashSet::new() })
            },
        }
    }

    /// The size of the cluster.
    pub fn len(&self) -> (len: usize)
        ensures
            len == self@.len(),
    {
        self.cluster.len()
    }

    /// The rank of the node itself.
    pub fn me(&self) -> (me: usize)
        ensures
            me == self@.me,
    {
        self.me
    }

    /// The node at `rank`.
    pub fn node(&self, rank: usize) -> (node: &NodeId)
        requires
            rank < self@.len(),
        ensures
            node@ == self@.nodes[rank as int],
    {
        &self.cluster[rank]
    }

    /// All nodes of the cluster, by rank.
    pub fn cluster(&self) -> (cluster: &Vec<NodeId>)
        ensures
            node_names(cluster@) == self@.nodes,
    {
        &self.cluster
    }

    /// The rank of a node, if it is in the cluster.
    pub fn rank_of(&self, node: &NodeId) -> (rank: Option<usize>)
        requires
            self@.valid(),
        ensures
            match rank {
                Some(r) => r < self@.len() && self@.nodes[r as int] == node@,
                None => !self@.nodes.contains(node@),
            },
    {
        position_of(&self.cluster, node)
    }

    /// The nodes not known to have crashed.
    pub fn alive(&self) -> (alive: &HashSet<usize>)
        ensures
            alive@ == self@.alive,
    {
        &self.alive
    }

    /// Those of `ranks` that are alive, in their given order.
    pub fn alive_among(&self, ranks: &Vec<usize>) -> (living: Vec<usize>)
        ensures
            living@ == alive_of(ranks@, self@.alive),
    {
        let mut living: Vec<usize> = Vec::new();
        let mut i: usize = 0;
        while i < ranks.len()
            invariant
                i <= ranks@.len(),
                living@ == alive_of(ranks@.take(i as int), self@.alive),
            decreases ranks@.len() - i,
        {
            proof {
                assert(ranks@.take(i + 1).drop_last() =~= ranks@.take(i as int));
                assert(ranks@.take(i + 1).last() == ranks@[i as int]);
            }
            if self.alive.contains(&ranks[i]) {
                living.push(ranks[i]);
            }
            i += 1;
        }
        assert(ranks@.take(i as int) =~= ranks@);
        living
    }

    /// The ranks of all other nodes, in ascending order.
    pub fn others(&self) -> (ranks: Vec<usize>)
        ensures
            ranks@ == self@.others(),
    {
        let mut ranks: Vec<usize> = Vec::new();
        let mut r: usize = 0;
        while r < self.cluster.len()
            invariant
                r <= self.cluster@.len(),
                ranks@ == others(r as nat, self.me),
            decreases self.cluster@.len() - r,
        {
            if r != self.me {
                ranks.push(r);
            }
            r += 1;
        }
        ranks
    }

    /// The ranks of all other nodes that are alive, in ascending order.
    pub fn alive_others(&self) -> (ranks: Vec<usize>)
        ensures
            ranks@ == self@.alive_others(),
    {
        let others = self.others();
        self.alive_among(&others)
    }

    /// Mark a node as done (finished tests). Node stays alive to serve replicas.
    /// Returns whether this was the last node to be done.
    pub fn mark_node_done(&mut self, rank: usize) -> (shutdown: bool)
        requires
            old(self)@.valid(),
            rank < old(self)@.len(),
        ensures
            final(self)@ == old(self)@.with_done(rank),
            final(self)@.valid(),
            shutdown == (!old(self)@.done.contains(rank) && old(self)@.with_done(rank).done.len()
                >= old(self)@.len()),
    {
        let ghost before = self@;
        let added = self.done.insert(rank);
        assert(self@ =~= before.with_done(rank));
        added && self.done.len() >= self.cluster.len()
    }

    /// Mark a node as dead (crashed). Removes it from the alive nodes AND
    /// counts it as done. Returns whether this was the last node to be done.
    pub fn mark_node_dead(&mut self, rank: usize) -> (shutdown: bool)
        requires
            old(self)@.valid(),
            rank < old(self)@.len(),
        ensures
            final(self)@ == old(self)@.with_dead(rank),
            final(self)@.valid(),
            shutdown == (!old(self)@.done.contains(rank) && old(self)@.with_done(rank).done.len()
                >= old(self)@.len()),
    {
        let ghost before = self@;
        self.alive.remove(&rank);
        assert(self@ =~= MembershipView { alive: before.alive.remove(rank), ..before });
        let shutdown = self.mark_node_done(rank);
        assert(self@ =~= before.with_dead(rank));
        shutdown
    }

    /// A peer has answered a Ping at time `now`.
    pub fn record_pong(&mut self, rank: usize, now: u64)
        requires
            old(self)@.valid(),
        ensures
            final(self)@ == (MembershipView {
                pongs: old(self)@.pongs.insert(rank, now),
                ..old(self)@
            }),
            final(self)@.valid(),
    {
        let ghost before = self@;
        self.last_pong.insert(rank, now);
        assert(self@ =~= MembershipView { pongs: before.pongs.insert(rank, now), ..before });
    }
}

impl Membership {
    /// The peers among `ranks` whose last Pong is too old at time `now`.
    fn timed_out_among(&self, ranks: &Vec<usize>, now: u64) -> (dead: Vec<usize>)
        ensures
            dead@ == timed_out_of(ranks@, self@.pongs, now),
    {
        let mut dead: Vec<usize> = Vec::new();
        let mut i: usize = 0;
        while i < ranks.len()
            invariant
                i <= ranks@.len(),
                dead@ == timed_out_of(ranks@.take(i as int), self@.pongs, now),
            decreases ranks@.len() - i,
        {
            proof {
                assert(ranks@.take(i + 1).drop_last() =~= ranks@.take(i as int));
                assert(ranks@.take(i + 1).last() == ranks@[i as int]);
            }
            if let Some(last) = self.last_pong.get(&ranks[i]) {
                if now >= *last && now - *last > HEARTBEAT_TIMEOUT {
                    dead.push(ranks[i]);
                }
            }
            i += 1;
        }
        assert(ranks@.take(i as int) =~= ranks@);
        dead
    }

    /// One round of crash detection at time `now`: whom to ping, and which
    /// peers have timed out. Those are marked as dead.
    pub fn heartbeat(&mut self, now: u64) -> (round: Heartbeat)
        requires
            old(self)@.valid(),
        ensures
            round.pings@ == old(self)@.alive_others(),
            round.dead@ == old(self)@.expired(now),
            final(self)@ == old(self)@.with_all_dead(round.dead@),
            final(self)@.valid(),
            round.shutdown == ({
                &&& exists|i: int|
                    0 <= i < round.dead@.len() && !old(self)@.done.contains(
                        #[trigger] round.dead@[i],
                    )
                &&& old(self)@.with_all_dead(round.dead@).done.len() >= old(self)@.len()
            }),
            round.shutdown == old(self)@.shut_down_by(round.dead@),
    {
        let ghost before = self@;
        let pings = self.alive_others();
        let dead = self.timed_out_among(&pings, now);
        proof {
            lemma_others(before.len(), before.me);
            lemma_alive_of(before.others(), before.alive);
            lemma_timed_out_of(before.alive_others(), before.pongs, now);
        }
        let mut shutdown = false;
        let mut i: usize = 0;
        assert(self@ =~= before.with_all_dead(dead@.take(0)));
        while i < dead.len()
            invariant
                i <= dead@.len(),
                before.valid(),
                self@ == before.with_all_dead(dead@.take(i as int)),
                self@.valid(),
                forall|j: int| 0 <= j < dead@.len() ==> (#[trigger] dead@[j]) < before.len(),
                shutdown == ({
                    &&& exists|j: int| 0 <= j < i && !before.done.contains(#[trigger] dead@[j])
                    &&& self@.done.len() >= before.len()
                }),
            decreases dead@.len() - i,
        {
            let ghost prev = self@;
            let last = self.mark_node_dead(dead[i]);
            proof {
                let seen = dead@.take(i as int);
                let next = dead@.take(i + 1);
                assert(next =~= seen.push(dead@[i as int]));
                assert(next.to_set() =~= seen.to_set().insert(dead@[i as int])) by {
                    assert forall|r: usize| #[trigger] next.to_set().contains(r) <==> seen.to_set()
                        .insert(dead@[i as int]).contains(r) by {
                        if seen.contains(r) {
                            let j = choose|j: int| 0 <= j < seen.len() && seen[j] == r;
                            assert(next[j] == r);
                        }
                        if r == dead@[i as int] {
                            assert(next[i as int] == r);
                        }
                        if next.contains(r) {
                            let j = choose|j: int| 0 <= j < next.len() && next[j] == r;
                            if j < i {
                                assert(seen[j] == r);
                            }
                        }
                    }
                }
                assert(self@ =~= before.with_all_dead(next));
                if last {
                    assert(!before.done.contains(dead@[i as int]));
                }
                if prev.done.contains(dead@[i as int]) {
                    assert(prev.done.insert(dead@[i as int]) =~= prev.done);
                    if !before.done.contains(dead@[i as int]) {
                        assert(seen.contains(dead@[i as int]));
                        let j = choose|j: int| 0 <= j < seen.len() && seen[j] == dead@[i as int];
                        assert(!before.done.contains(dead@[j]));
                    }
                } else {
                    assert(!before.done.contains(dead@[i as int]));
                }
                lemma_done_bound(prev);
            }
            shutdown = shutdown || last;
            i += 1;
        }
        assert(dead@.take(i as int) =~= dead@);
        Heartbeat { pings, dead, shutdown }
    }
}

/// The other ranks are those below `n` that are not `me`, each once.
pub proof fn lemma_others(n: nat, me: usize)
    requires
        n <= usize::MAX,
    ensures
        forall|r: usize| #[trigger] others(n, me).contains(r) <==> r < n && r != me,
        others(n, me).no_duplicates(),
        forall|i: int|
            0 <= i < others(n, me).len() ==> (#[trigger] others(n, me)[i]) < n && others(n, me)[i]
                != me,
    decreases n,
{
    if n > 0 {
        let rest = others((n - 1) as nat, me);
        lemma_others((n - 1) as nat, me);
        assert forall|r: usize| #[trigger] others(n, me).contains(r) <==> r < n && r != me by {
            if n - 1 != me {
                assert(others(n, me) == rest.push((n - 1) as usize));
                if rest.contains(r) {
                    let i = choose|i: int| 0 <= i < rest.len() && rest[i] == r;
                    assert(others(n, me)[i] == r);
                }
                if r == n - 1 {
                    assert(others(n, me)[rest.len() as int] == r);
                }
            }
            if r < n - 1 && r != me {
                assert(rest.contains(r));
            }
        }
    }
}

/// Filtering by liveness keeps exactly the ranks that are alive.
pub proof fn lemma_alive_of(ranks: Seq<usize>, alive: Set<usize>)
    ensures
        forall|r: usize| #[trigger]
            alive_of(ranks, alive).contains(r) <==> ranks.contains(r) && alive.contains(r),
        alive_of(ranks, alive).len() <= ranks.len(),
        ranks.no_duplicates() ==> alive_of(ranks, alive).no_duplicates(),
    decreases ranks.len(),
{
    if ranks.len() > 0 {
        let shorter = ranks.drop_last();
        let rest = alive_of(shorter, alive);
        lemma_alive_of(shorter, alive);
        assert(ranks =~= shorter.push(ranks.last()));
        assert forall|r: usize| #[trigger] alive_of(ranks, alive).contains(r) <==> ranks.contains(r)
            && alive.contains(r) by {
            lemma_push_contains(rest, ranks.last(), r);
            lemma_push_contains(shorter, ranks.last(), r);
        }
        if ranks.no_duplicates() {
            assert(!shorter.contains(ranks.last()));
            assert(!rest.contains(ranks.last()));
        }
    }
}

/// Filtering by timeout keeps exactly the ranks that have timed out.
pub proof fn lemma_timed_out_of(ranks: Seq<usize>, pongs: Map<usize, u64>, now: u64)
    ensures
        forall|r: usize| #[trigger]
            timed_out_of(ranks, pongs, now).contains(r) <==> ranks.contains(r) && timed_out(
                pongs,
                r,
                now,
            ),
        forall|i: int|
            0 <= i < timed_out_of(ranks, pongs, now).len() ==> ranks.contains(
                #[trigger] timed_out_of(ranks, pongs, now)[i],
            ),
    decreases ranks.len(),
{
    if ranks.len() > 0 {
        let shorter = ranks.drop_last();
        let rest = timed_out_of(shorter, pongs, now);
        lemma_timed_out_of(shorter, pongs, now);
        assert(ranks =~= shorter.push(ranks.last()));
        assert forall|r: usize| #[trigger]
            timed_out_of(ranks, pongs, now).contains(r) <==> ranks.contains(r) && timed_out(
                pongs,
                r,
                now,
            ) by {
            lemma_push_contains(rest, ranks.last(), r);
            lemma_push_contains(shorter, ranks.last(), r);
        }
        assert forall|i: int| 0 <= i < timed_out_of(ranks, pongs, now).len() implies ranks.contains(
            #[trigger] timed_out_of(ranks, pongs, now)[i],
        ) by {
            assert(timed_out_of(ranks, pongs, now).contains(timed_out_of(ranks, pongs, now)[i]));
        }
    }
}

/// What a sequence contains once an element has been pushed.
pub proof fn lemma_push_contains<A>(s: Seq<A>, pushed: A, x: A)
    ensures
        s.push(pushed).contains(x) <==> s.contains(x) || x == pushed,
{
    if s.contains(x) {
        let i = choose|i: int| 0 <= i < s.len() && s[i] == x;
        assert(s.push(pushed)[i] == x);
    }
    if x == pushed {
        assert(s.push(pushed)[s.len() as int] == x);
    }
}

proof fn lemma_done_bound(m: MembershipView)
    requires
        m.valid(),
    ensures
        m.done.len() <= m.len(),
        m.done.len() >= m.len() ==> forall|r: usize| r < m.len() ==> #[trigger] m.done.contains(r),
{
    let ranks = Set::new(|r: int| 0 <= r < m.len());
    vstd::set_lib::lemma_int_range(0, m.len() as int);
    assert(ranks =~= vstd::set_lib::set_int_range(0, m.len() as int));
    let done = m.done.map(|r: usize| r as int);
    vstd::set_lib::lemma_map_size(m.done, done, |r: usize| r as int);
    assert(done.subset_of(ranks));
    vstd::set_lib::lemma_len_subset(done, ranks);
    if m.done.len() >= m.len() {
        vstd::set_lib::lemma_subset_equality(done, ranks);
        assert forall|r: usize| r < m.len() implies #[trigger] m.done.contains(r) by {
            assert(ranks.contains(r as int));
            assert(done.contains(r as int));
        }
    }
}

/// The node that makes the last one done, and no other, brings the count of
/// done nodes to the size of the cluster.
pub proof fn law_shutdown_when_all_are_done(m: MembershipView, rank: usize)
    requires
        m.valid(),
        rank < m.len(),
    ensures
        m.with_done(rank).done.len() >= m.len() <==> forall|r: usize|
            r < m.len() ==> #[trigger] m.with_done(rank).done.contains(r),
{
    let after = m.with_done(rank);
    lemma_done_bound(after);
    if forall|r: usize| r < m.len() ==> #[trigger] after.done.contains(r) {
        let done = after.done.map(|r: usize| r as int);
        vstd::set_lib::lemma_map_size(after.done, done, |r: usize| r as int);
        vstd::set_lib::lemma_int_range(0, m.len() as int);
        assert forall|r: int| vstd::set_lib::set_int_range(0, m.len() as int).contains(
            r,
        ) implies done.contains(r) by {
            assert(after.done.contains(r as usize));
            assert((|x: usize| x as int)(r as usize) == r);
        }
        vstd::set_lib::lemma_len_subset(vstd::set_lib::set_int_range(0, m.len() as int), done);
    }
}

/// A crashed node is not alive and counts as done; what is known of the
/// other nodes does not change.
pub proof fn law_dead_node_is_done(m: MembershipView, rank: usize, other: usize)
    ensures
        !m.with_dead(rank).alive.contains(rank),
        m.with_dead(rank).done.contains(rank),
        other != rank ==> (m.with_dead(rank).alive.contains(other) <==> m.alive.contains(other))
            && (m.with_dead(rank).done.contains(other) <==> m.done.contains(other)),
        m.with_done(rank).alive == m.alive,
{
}

/// A round of crash detection finds exactly the peers that were thought
/// alive and whose last Pong is too old, and never the node itself.
pub proof fn law_heartbeat_finds_silent_peers(m: MembershipView, now: u64, rank: usize)
    requires
        m.valid(),
    ensures
        m.expired(now).contains(rank) <==> rank != m.me && m.alive.contains(rank) && timed_out(
            m.pongs,
            rank,
            now,
        ),
        m.alive_others().contains(rank) <==> rank != m.me && m.alive.contains(rank),
{
    lemma_others(m.len(), m.me);
    lemma_alive_of(m.others(), m.alive);
    lemma_timed_out_of(m.alive_others(), m.pongs, now);
}

/// The other nodes of a cluster: every rank below its size but the node's own,
/// in ascending order. Those alive are the ones among them that are alive, in
/// ascending order too.
pub proof fn law_others_are_all_but_me(m: MembershipView, rank: usize, i: int, j: int)
    requires
        m.nodes.len() <= usize::MAX,
    ensures
        m.len() == m.nodes.len(),
        m.others().contains(rank) <==> rank < m.nodes.len() && rank != m.me,
        m.alive_others().contains(rank) <==> rank < m.nodes.len() && rank != m.me
            && m.alive.contains(rank),
        0 <= i < j < m.others().len() ==> m.others()[i] < m.others()[j],
        0 <= i < j < m.alive_others().len() ==> m.alive_others()[i] < m.alive_others()[j],
{
    lemma_others(m.len(), m.me);
    lemma_alive_of(m.others(), m.alive);
    lemma_others_ascend(m.len(), m.me);
    lemma_alive_ascend(m.others(), m.alive);
}

proof fn lemma_others_ascend(n: nat, me: usize)
    requires
        n <= usize::MAX,
    ensures
        forall|i: int, j: int|
            0 <= i < j < others(n, me).len() ==> others(n, me)[i] < others(n, me)[j],
    decreases n,
{
    if n > 0 {
        lemma_others_ascend((n - 1) as nat, me);
        lemma_others((n - 1) as nat, me);
    }
}

proof fn lemma_alive_ascend(ranks: Seq<usize>, alive: Set<usize>)
    requires
        forall|i: int, j: int| 0 <= i < j < ranks.len() ==> ranks[i] < ranks[j],
    ensures
        forall|i: int, j: int|
            0 <= i < j < alive_of(ranks, alive).len() ==> alive_of(ranks, alive)[i] < alive_of(
                ranks,
                alive,
            )[j],
    decreases ranks.len(),
{
    if ranks.len() > 0 {
        let shorter = ranks.drop_last();
        let rest = alive_of(shorter, alive);
        lemma_alive_ascend(shorter, alive);
        lemma_alive_of(shorter, alive);
        assert forall|i: int| 0 <= i < rest.len() implies rest[i] < ranks.last() by {
            assert(rest.contains(rest[i]));
            let k = choose|k: int| 0 <= k < shorter.len() && shorter[k] == rest[i];
            assert(ranks[k] < ranks[ranks.len() - 1]);
        }
    }
}

/// Of some nodes, listed once each, as many are kept as are alive.
pub proof fn law_alive_are_counted(ranks: Seq<usize>, alive: Set<usize>)
    requires
        ranks.no_duplicates(),
    ensures
        alive_of(ranks, alive).no_duplicates(),
        alive_of(ranks, alive).len() == ranks.to_set().intersect(alive).len(),
{
    lemma_alive_of(ranks, alive);
    alive_of(ranks, alive).unique_seq_to_set();
    assert(alive_of(ranks, alive).to_set() =~= ranks.to_set().intersect(alive));
}

/// Crash detection in numbers: at time `now` a peer is found dead exactly where
/// it was taken for alive and its last Pong, at whatever time that came, is more
/// than 500 milliseconds ago. A peer is found once.
pub proof fn law_silence_of_half_a_second_is_death(m: MembershipView, now: u64, rank: usize)
    requires
        m.nodes.len() <= usize::MAX,
        forall|r: usize| #[trigger] m.alive.contains(r) ==> r < m.nodes.len(),
    ensures
        m.expired(now).contains(rank) <==> {
            &&& rank != m.me
            &&& m.alive.contains(rank)
            &&& m.pongs.contains_key(rank)
            &&& now - m.pongs[rank] > 500_000_000
        },
        m.expired(now).no_duplicates(),
{
    lemma_others(m.len(), m.me);
    lemma_alive_of(m.others(), m.alive);
    lemma_timed_out_of(m.alive_others(), m.pongs, now);
    lemma_timed_out_once(m.alive_others(), m.pongs, now);
}

proof fn lemma_timed_out_once(ranks: Seq<usize>, pongs: Map<usize, u64>, now: u64)
    requires
        ranks.no_duplicates(),
    ensures
        timed_out_of(ranks, pongs, now).no_duplicates(),
    decreases ranks.len(),
{
    if ranks.len() > 0 {
        let shorter = ranks.drop_last();
        lemma_timed_out_once(shorter, pongs, now);
        lemma_timed_out_of(shorter, pongs, now);
        assert(!shorter.contains(ranks.last())) by {
            if shorter.contains(ranks.last()) {
                let i = choose|i: int| 0 <= i < shorter.len() && shorter[i] == ranks.last();
                assert(ranks[i] == ranks[ranks.len() - 1]);
            }
        }
        assert(!timed_out_of(shorter, pongs, now).contains(ranks.last()));
    }
}

/// What is known of a node once it is marked, and of any other: a node done
/// stays alive; one dead, by itself or with others, is not alive and is done.
/// Names, ranks and Pongs stay.
pub proof fn law_marks(m: MembershipView, rank: usize, dead: Seq<usize>, other: usize)
    ensures
        m.with_done(rank).alive.contains(other) <==> m.alive.contains(other),
        m.with_done(rank).done.contains(other) <==> m.done.contains(other) || other == rank,
        m.with_dead(rank).alive.contains(other) <==> m.alive.contains(other) && other != rank,
        m.with_dead(rank).done.contains(other) <==> m.done.contains(other) || other == rank,
        m.with_all_dead(dead).alive.contains(other) <==> m.alive.contains(other)
            && !dead.contains(other),
        m.with_all_dead(dead).done.contains(other) <==> m.done.contains(other) || dead.contains(
            other,
        ),
        m.with_done(rank).nodes == m.nodes && m.with_dead(rank).nodes == m.nodes
            && m.with_all_dead(dead).nodes == m.nodes,
        m.with_done(rank).me == m.me && m.with_dead(rank).me == m.me && m.with_all_dead(dead).me
            == m.me,
        m.with_done(rank).pongs == m.pongs && m.with_dead(rank).pongs == m.pongs
            && m.with_all_dead(dead).pongs == m.pongs,
{
}

/// A list of nodes is known by the name and number of each.
pub proof fn law_names_of_a_cluster(cluster: Seq<NodeId>, i: int)
    ensures
        node_names(cluster).len() == cluster.len(),
        0 <= i < cluster.len() ==> node_names(cluster)[i] == cluster[i]@,
{
}

/// A round of crash detection shuts down exactly where it finds a node dead that
/// was not done, and every node is done or found dead.
pub proof fn law_crashes_shut_down_with_the_last(m: MembershipView, dead: Seq<usize>)
    requires
        m.valid(),
        forall|i: int| 0 <= i < dead.len() ==> (#[trigger] dead[i]) < m.nodes.len(),
    ensures
        m.shut_down_by(dead) <==> {
            &&& exists|i: int| 0 <= i < dead.len() && !m.done.contains(#[trigger] dead[i])
            &&& forall|r: usize|
                r < m.nodes.len() ==> #[trigger] m.done.contains(r) || dead.contains(r)
        },
{
    let after = m.with_all_dead(dead);
    vstd::seq_lib::seq_to_set_is_finite(dead);
    assert(after.valid());
    lemma_done_bound(after);
    if forall|r: usize| r < m.nodes.len() ==> #[trigger] m.done.contains(r) || dead.contains(r) {
        assert(after.with_done(m.me).done =~= after.done);
        assert forall|r: usize| r < m.len() implies #[trigger] after.with_done(
            m.me,
        ).done.contains(r) by {
            assert(m.done.contains(r) || dead.contains(r));
        }
        law_shutdown_when_all_are_done(after, m.me);
    }
    if after.done.len() >= m.len() {
        assert forall|r: usize| r < m.nodes.len() implies #[trigger] m.done.contains(r)
            || dead.contains(r) by {
            assert(after.done.contains(r));
        }
    }
}

} // verus!
