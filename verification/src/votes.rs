//! What a node keeps of the votes on a transaction: the confirmations it has
//! collected as a learner, and the votes it has accepted as an acceptor.

use crate::commit;
use crate::membership;
use crate::types::NodeId;
use std::collections::{HashMap, HashSet};
use vstd::prelude::*;

verus! {

/// The confirmations collected for a transaction: for each RM, the acceptors
/// that confirmed Prepared and those that confirmed Aborted.
pub type RmVotes = HashMap<usize, (HashSet<usize>, HashSet<usize>)>;

/// The confirmations of `rm`'s vote.
pub open spec fn votes_on<N>(votes: Map<N, (Set<usize>, Set<usize>)>, rm: N) -> (
    Set<usize>,
    Set<usize>,
) {
    if votes.contains_key(rm) {
        votes[rm]
    } else {
        (Set::empty(), Set::empty())
    }
}

/// The confirmations once `acceptor` has confirmed `rm`'s vote.
pub open spec fn after_confirmation<N>(
    votes: Map<N, (Set<usize>, Set<usize>)>,
    rm: N,
    acceptor: usize,
    vote: bool,
) -> Map<N, (Set<usize>, Set<usize>)> {
    let (prepared, aborted) = votes_on(votes, rm);
    if vote {
        votes.insert(rm, (prepared.insert(acceptor), aborted))
    } else {
        votes.insert(rm, (prepared, aborted.insert(acceptor)))
    }
}

/// Only finitely many acceptors have confirmed any vote.
pub open spec fn finitely_confirmed(votes: Map<usize, (Set<usize>, Set<usize>)>) -> bool {
    forall|rm: usize| #[trigger]
        votes.contains_key(rm) ==> votes[rm].0.finite() && votes[rm].1.finite()
}

/// Record that `acceptor` confirmed `rm`'s vote.
pub fn confirm(votes: &mut RmVotes, rm: usize, acceptor: usize, vote: bool)
    ensures
        commit::vote_sets(final(votes)@) == after_confirmation(
            commit::vote_sets(old(votes)@),
            rm,
            acceptor,
            vote,
        ),
{
    let ghost before = votes@;
    let (mut prepared, mut aborted) = match votes.remove(&rm) {
        Some(sets) => sets,
        None => (HashSet::new(), HashSet::new()),
    };
    if vote {
        prepared.insert(acceptor);
    } else {
        aborted.insert(acceptor);
    }
    votes.insert(rm, (prepared, aborted));
    proof {
        assert(commit::vote_sets(votes@) =~= after_confirmation(
            commit::vote_sets(before),
            rm,
            acceptor,
            vote,
        ));
    }
}

/// The confirmations in a list, the last entry for a node standing.
pub open spec fn listed_confirmations(
    list: Seq<(NodeId, (HashSet<usize>, HashSet<usize>))>,
) -> Map<(Seq<char>, usize), (Set<usize>, Set<usize>)>
    decreases list.len(),
{
    if list.len() == 0 {
        Map::empty()
    } else {
        let (node, sets) = list.last();
        listed_confirmations(list.drop_last()).insert(node@, (sets.0@, sets.1@))
    }
}

/// The confirmations collected of the votes of RMs outside the cluster.
pub struct StrangerVotes {
    list: Vec<(NodeId, (HashSet<usize>, HashSet<usize>))>,
}

impl View for StrangerVotes {
    type V = Map<(Seq<char>, usize), (Set<usize>, Set<usize>)>;

    closed spec fn view(&self) -> Map<(Seq<char>, usize), (Set<usize>, Set<usize>)> {
        listed_confirmations(self.list@)
    }
}

impl StrangerVotes {
    /// No confirmations.
    pub fn new() -> (votes: StrangerVotes)
        ensures
            votes@ == Map::<(Seq<char>, usize), (Set<usize>, Set<usize>)>::empty(),
    {
        StrangerVotes { list: Vec::new() }
    }

    /// The confirmations of `rm`'s vote, if there are any.
    pub fn get(&self, rm: &NodeId) -> (found: Option<&(HashSet<usize>, HashSet<usize>)>)
        ensures
            match found {
                Some(sets) => self@.contains_pair(rm@, (sets.0@, sets.1@)),
                None => !self@.contains_key(rm@),
            },
    {
        let mut i: usize = self.list.len();
        assert(self.list@.take(i as int) =~= self.list@);
        while i > 0
            invariant
                i <= self.list@.len(),
                self@.contains_key(rm@) <==> listed_confirmations(
                    self.list@.take(i as int),
                ).contains_key(rm@),
                self@.contains_key(rm@) ==> self@[rm@] == listed_confirmations(
                    self.list@.take(i as int),
                )[rm@],
            decreases i,
        {
            i -= 1;
            proof {
                assert(self.list@.take(i + 1).drop_last() =~= self.list@.take(i as int));
                assert(self.list@.take(i + 1).last() == self.list@[i as int]);
            }
            if self.list[i].0 == *rm {
                return Some(&self.list[i].1);
            }
        }
        None
    }

    /// Take out the confirmations of `rm`'s vote.
    fn take(&mut self, rm: &NodeId) -> (sets: (HashSet<usize>, HashSet<usize>))
        ensures
            (sets.0@, sets.1@) == votes_on(old(self)@, rm@),
            final(self)@ == old(self)@.remove(rm@),
    {
        let mut list: Vec<(NodeId, (HashSet<usize>, HashSet<usize>))> = Vec::new();
        std::mem::swap(&mut list, &mut self.list);
        let ghost all = list@;
        let mut kept: Vec<(NodeId, (HashSet<usize>, HashSet<usize>))> = Vec::new();
        let mut found: (HashSet<usize>, HashSet<usize>) = (HashSet::new(), HashSet::new());
        assert(listed_confirmations(kept@) =~= listed_confirmations(all.take(0)).remove(rm@));
        for item in it: list
            invariant
                it.seq() == all,
                listed_confirmations(kept@) == listed_confirmations(
                    all.take(it.index() as int),
                ).remove(rm@),
                (found.0@, found.1@) == votes_on(
                    listed_confirmations(all.take(it.index() as int)),
                    rm@,
                ),
        {
            let ghost i = it.index() as int;
            let ghost before = kept@;
            proof {
                assert(all.take(i + 1).drop_last() =~= all.take(i));
                assert(all.take(i + 1).last() == item);
            }
            if item.0 == *rm {
                found = item.1;
                assert(listed_confirmations(all.take(i + 1)).remove(rm@) =~= listed_confirmations(
                    all.take(i),
                ).remove(rm@));
            } else {
                kept.push(item);
                proof {
                    assert(kept@.drop_last() =~= before);
                    assert(listed_confirmations(kept@) =~= listed_confirmations(
                        all.take(i + 1),
                    ).remove(rm@));
                }
            }
        }
        assert(all.take(all.len() as int) =~= all);
        self.list = kept;
        found
    }

    /// Set the confirmations of `rm`'s vote.
    fn put(&mut self, rm: NodeId, sets: (HashSet<usize>, HashSet<usize>))
        ensures
            final(self)@ == old(self)@.insert(rm@, (sets.0@, sets.1@)),
    {
        let ghost before = self.list@;
        self.list.push((rm, sets));
        assert(self.list@.drop_last() =~= before);
    }

    /// Record that `acceptor` confirmed `rm`'s vote.
    pub fn confirm(&mut self, rm: &NodeId, acceptor: usize, vote: bool)
        ensures
            final(self)@ == after_confirmation(old(self)@, rm@, acceptor, vote),
    {
        let ghost before = self@;
        let (mut prepared, mut aborted) = self.take(rm);
        if vote {
            prepared.insert(acceptor);
        } else {
            aborted.insert(acceptor);
        }
        self.put(rm.clone(), (prepared, aborted));
        assert(self@ =~= after_confirmation(before, rm@, acceptor, vote));
    }
}

/// A vote that `me` alone has confirmed.
pub open spec fn confirmed_by(me: usize, vote: bool) -> (Set<usize>, Set<usize>) {
    if vote {
        (Set::<usize>::empty().insert(me), Set::<usize>::empty())
    } else {
        (Set::<usize>::empty(), Set::<usize>::empty().insert(me))
    }
}

/// The votes in a list, the last one for a node standing.
pub open spec fn listed_votes(list: Seq<(NodeId, bool)>) -> Map<(Seq<char>, usize), bool>
    decreases list.len(),
{
    if list.len() == 0 {
        Map::empty()
    } else {
        listed_votes(list.drop_last()).insert(list.last().0@, list.last().1)
    }
}

/// The votes a node has accepted, by transaction and RM.
pub struct AcceptorLog {
    entries: HashMap<u64, Vec<(NodeId, bool)>>,
}

/// The votes that are left once a transaction is forgotten.
pub open spec fn without_tx(
    log: Map<(u64, (Seq<char>, usize)), bool>,
    tx: u64,
) -> Map<(u64, (Seq<char>, usize)), bool> {
    Map::new(
        |k: (u64, (Seq<char>, usize))| log.contains_key(k) && k.0 != tx,
        |k: (u64, (Seq<char>, usize))| log[k],
    )
}

impl View for AcceptorLog {
    type V = Map<(u64, (Seq<char>, usize)), bool>;

    closed spec fn view(&self) -> Map<(u64, (Seq<char>, usize)), bool> {
        Map::new(
            |k: (u64, (Seq<char>, usize))|
                self.entries@.contains_key(k.0) && listed_votes(
                    self.entries@[k.0]@,
                ).contains_key(k.1),
            |k: (u64, (Seq<char>, usize))| listed_votes(self.entries@[k.0]@)[k.1],
        )
    }
}

impl AcceptorLog {
    /// A log without any vote.
    pub fn new() -> (log: AcceptorLog)
        ensures
            log@ == Map::<(u64, (Seq<char>, usize)), bool>::empty(),
    {
        let log = AcceptorLog { entries: HashMap::new() };
        assert(log@ =~= Map::<(u64, (Seq<char>, usize)), bool>::empty());
        log
    }

    /// The vote accepted for a transaction from an RM, if any.
    pub fn get(&self, tx: u64, rm: &NodeId) -> (vote: Option<bool>)
        ensures
            vote == (if self@.contains_key((tx, rm@)) {
                Some(self@[(tx, rm@)])
            } else {
                None
            }),
    {
        match self.entries.get(&tx) {
            None => None,
            Some(list) => {
                let mut i: usize = list.len();
                assert(list@.take(i as int) =~= list@);
                while i > 0
                    invariant
                        i <= list@.len(),
                        listed_votes(list@).contains_key(rm@) <==> listed_votes(
                            list@.take(i as int),
                        ).contains_key(rm@),
                        listed_votes(list@).contains_key(rm@) ==> listed_votes(list@)[rm@]
                            == listed_votes(list@.take(i as int))[rm@],
                        self.entries@.contains_key(tx),
                        self.entries@[tx] == *list,
                    decreases i,
                {
                    i -= 1;
                    proof {
                        assert(list@.take(i + 1).drop_last() =~= list@.take(i as int));
                        assert(list@.take(i + 1).last() == list@[i as int]);
                    }
                    if list[i].0 == *rm {
                        return Some(list[i].1);
                    }
                }
                None
            },
        }
    }

    /// Accept an RM's vote on a transaction.
    pub fn insert(&mut self, tx: u64, rm: NodeId, vote: bool)
        ensures
            final(self)@ == old(self)@.insert((tx, rm@), vote),
    {
        let ghost before = *self;
        let mut list = match self.entries.remove(&tx) {
            Some(list) => list,
            None => Vec::new(),
        };
        let ghost old_list = list@;
        let ghost name = rm@;
        list.push((rm, vote));
        self.entries.insert(tx, list);
        proof {
            assert(list@.drop_last() =~= old_list);
            assert(listed_votes(list@) == listed_votes(old_list).insert(name, vote));
            assert(self@ =~= before@.insert((tx, name), vote));
        }
    }

    /// Forget all votes on a transaction.
    pub fn forget(&mut self, tx: u64)
        ensures
            final(self)@ == without_tx(old(self)@, tx),
    {
        let ghost before = *self;
        self.entries.remove(&tx);
        assert(self@ =~= without_tx(before@, tx));
    }
}

/// The confirmations that a node can make from its own log when it first
/// hears of a transaction: of each of the first `n` nodes whose vote it has
/// accepted, that vote, confirmed by `me`.
pub open spec fn recovered_votes(
    log: Map<(u64, (Seq<char>, usize)), bool>,
    tx: u64,
    nodes: Seq<(Seq<char>, usize)>,
    me: usize,
    n: nat,
) -> Map<usize, (Set<usize>, Set<usize>)> {
    Map::new(
        |r: usize| r < n && log.contains_key((tx, nodes[r as int])),
        |r: usize| confirmed_by(me, log[(tx, nodes[r as int])]),
    )
}

/// The same of the RMs outside the cluster whose vote the node has accepted.
pub open spec fn recovered_strangers(
    log: Map<(u64, (Seq<char>, usize)), bool>,
    tx: u64,
    nodes: Seq<(Seq<char>, usize)>,
    me: usize,
) -> Map<(Seq<char>, usize), (Set<usize>, Set<usize>)> {
    Map::new(
        |rm: (Seq<char>, usize)| log.contains_key((tx, rm)) && !nodes.contains(rm),
        |rm: (Seq<char>, usize)| confirmed_by(me, log[(tx, rm)]),
    )
}

/// Of some votes those of RMs outside the cluster, each confirmed by `me`.
pub open spec fn strangers_among(
    votes: Map<(Seq<char>, usize), bool>,
    nodes: Seq<(Seq<char>, usize)>,
    me: usize,
) -> Map<(Seq<char>, usize), (Set<usize>, Set<usize>)> {
    Map::new(
        |rm: (Seq<char>, usize)| votes.contains_key(rm) && !nodes.contains(rm),
        |rm: (Seq<char>, usize)| confirmed_by(me, votes[rm]),
    )
}

/// Recover the confirmations that a node can make from its own log.
pub fn recover(log: &AcceptorLog, tx: u64, cluster: &Vec<NodeId>, me: usize) -> (found: RmVotes)
    requires
        me < cluster@.len(),
    ensures
        commit::vote_sets(found@) == recovered_votes(
            log@,
            tx,
            membership::node_names(cluster@),
            me,
            cluster@.len(),
        ),
{
    let ghost nodes = membership::node_names(cluster@);
    let mut found: RmVotes = HashMap::new();
    let mut r: usize = 0;
    assert(commit::vote_sets(found@) =~= recovered_votes(log@, tx, nodes, me, 0));
    while r < cluster.len()
        invariant
            r <= cluster@.len(),
            nodes == membership::node_names(cluster@),
            commit::vote_sets(found@) == recovered_votes(log@, tx, nodes, me, r as nat),
        decreases cluster@.len() - r,
    {
        match log.get(tx, &cluster[r]) {
            Some(vote) => {
                confirm(&mut found, r, me, vote);
                assert(commit::vote_sets(found@) =~= recovered_votes(
                    log@,
                    tx,
                    nodes,
                    me,
                    (r + 1) as nat,
                ));
            },
            None => {
                assert(recovered_votes(log@, tx, nodes, me, (r + 1) as nat) =~= recovered_votes(
                    log@,
                    tx,
                    nodes,
                    me,
                    r as nat,
                ));
            },
        }
        r += 1;
    }
    found
}

/// Recover the confirmations of the votes of RMs outside the cluster.
pub fn recover_strangers(
    log: &AcceptorLog,
    tx: u64,
    cluster: &Vec<NodeId>,
    me: usize,
) -> (found: StrangerVotes)
    ensures
        found@ == recovered_strangers(log@, tx, membership::node_names(cluster@), me),
{
    let ghost nodes = membership::node_names(cluster@);
    let mut found = StrangerVotes::new();
    match log.entries.get(&tx) {
        None => {},
        Some(list) => {
            let mut i: usize = 0;
            assert(found@ =~= strangers_among(listed_votes(list@.take(0)), nodes, me));
            while i < list.len()
                invariant
                    i <= list@.len(),
                    nodes == membership::node_names(cluster@),
                    found@ == strangers_among(listed_votes(list@.take(i as int)), nodes, me),
                decreases list@.len() - i,
            {
                let ghost before = found@;
                let rm = &list[i].0;
                let vote = list[i].1;
                proof {
                    assert(list@.take(i + 1).drop_last() =~= list@.take(i as int));
                    assert(list@.take(i + 1).last() == list@[i as int]);
                }
                match membership::position_of(cluster, rm) {
                    Some(p) => {
                        assert(nodes[p as int] == rm@);
                    },
                    None => {
                        let mut prepared: HashSet<usize> = HashSet::new();
                        let mut aborted: HashSet<usize> = HashSet::new();
                        if vote {
                            prepared.insert(me);
                        } else {
                            aborted.insert(me);
                        }
                        found.take(rm);
                        found.put(rm.clone(), (prepared, aborted));
                    },
                }
                assert(found@ =~= strangers_among(
                    listed_votes(list@.take(i + 1)),
                    nodes,
                    me,
                ));
                i += 1;
            }
            assert(list@.take(i as int) =~= list@);
        },
    }
    assert(found@ =~= recovered_strangers(log@, tx, nodes, me));
    found
}

/// A confirmation adds its acceptor to those that confirmed that vote of that
/// RM, and changes nothing else.
pub proof fn law_confirmation_adds_one<N>(
    votes: Map<N, (Set<usize>, Set<usize>)>,
    rm: N,
    acceptor: usize,
    vote: bool,
    other: N,
    a: usize,
)
    ensures
        ({
            let after = after_confirmation(votes, rm, acceptor, vote);
            let was_prepared = votes.contains_key(rm) && votes[rm].0.contains(a);
            let was_aborted = votes.contains_key(rm) && votes[rm].1.contains(a);
            &&& after.contains_key(rm)
            &&& after[rm].0.contains(a) <==> was_prepared || (vote && a == acceptor)
            &&& after[rm].1.contains(a) <==> was_aborted || (!vote && a == acceptor)
            &&& other != rm ==> (after.contains_key(other) <==> votes.contains_key(other))
            &&& other != rm && votes.contains_key(other) ==> after[other] == votes[other]
            &&& votes_on(votes, rm).0.contains(a) <==> was_prepared
            &&& votes_on(votes, rm).1.contains(a) <==> was_aborted
        }),
{
}

/// What a node recovers from its log when it first hears of a transaction: of
/// each RM whose vote on it was accepted, that vote, confirmed by the node and
/// by no one else.
pub proof fn law_recovery_is_from_the_log(
    log: Map<(u64, (Seq<char>, usize)), bool>,
    tx: u64,
    nodes: Seq<(Seq<char>, usize)>,
    me: usize,
    r: usize,
    rm: (Seq<char>, usize),
    a: usize,
)
    ensures
        ({
            let found = recovered_votes(log, tx, nodes, me, nodes.len());
            &&& found.contains_key(r) <==> r < nodes.len() && log.contains_key(
                (tx, nodes[r as int]),
            )
            &&& found.contains_key(r) ==> {
                &&& found[r].0.contains(a) <==> log[(tx, nodes[r as int])] && a == me
                &&& found[r].1.contains(a) <==> !log[(tx, nodes[r as int])] && a == me
            }
        }),
        ({
            let found = recovered_strangers(log, tx, nodes, me);
            &&& found.contains_key(rm) <==> log.contains_key((tx, rm)) && !nodes.contains(rm)
            &&& found.contains_key(rm) ==> {
                &&& found[rm].0.contains(a) <==> log[(tx, rm)] && a == me
                &&& found[rm].1.contains(a) <==> !log[(tx, rm)] && a == me
            }
        }),
{
}

/// Forgetting a transaction drops the votes on it and keeps all others.
pub proof fn law_forgetting_is_of_one_transaction(
    log: Map<(u64, (Seq<char>, usize)), bool>,
    tx: u64,
    k: (u64, (Seq<char>, usize)),
)
    ensures
        without_tx(log, tx).contains_key(k) <==> log.contains_key(k) && k.0 != tx,
        without_tx(log, tx).contains_key(k) ==> without_tx(log, tx)[k] == log[k],
{
}

} // verus!
