//! The striped store of a node: versioned values, spread over stripes by the
//! hash of their keys, and for each stripe the transaction that has locked it.

use crate::ring;
use crate::types::KVPair;
use std::collections::HashMap;
use vstd::prelude::*;

verus! {

/// A pair that a transaction writes, with the stripe of its key.
pub type Entry<V> = (KVPair<u64, V>, usize);

/// One stripe: its values with their versions, and the transaction that
/// holds its lock.
pub struct Stripe<V> {
    entries: HashMap<u64, (V, u64)>,
    holder: Option<u64>,
}

impl<V> Stripe<V> {
    /// The values of this stripe with their versions, by key.
    pub closed spec fn entries(self) -> Map<u64, (V, u64)> {
        self.entries@
    }

    /// The transaction that has locked this stripe.
    pub closed spec fn holder(self) -> Option<u64> {
        self.holder
    }
}

pub struct StripedDb<V> {
    stripes: Vec<Stripe<V>>,
}

/// The value and version that a lookup of `key` finds.
pub open spec fn lookup<V>(contents: Map<u64, (V, u64)>, key: u64) -> Option<(V, u64)> {
    if contents.contains_key(key) {
        Some(contents[key])
    } else {
        None
    }
}

/// `found` is a clone of what a lookup finds.
pub open spec fn lookup_cloned<V: Clone>(
    stored: Option<(V, u64)>,
    found: Option<(V, u64)>,
) -> bool {
    match (stored, found) {
        (Some(s), Some(f)) => cloned(s.0, f.0) && f.1 == s.1,
        (None, None) => true,
        _ => false,
    }
}

/// A put at `version` is accepted unless a later version is stored.
pub open spec fn put_accepted<V>(contents: Map<u64, (V, u64)>, key: u64, version: u64) -> bool {
    contents.contains_key(key) ==> contents[key].1 <= version
}

/// What a put leaves: the new value where it is accepted, else no change.
pub open spec fn after_put<V>(
    contents: Map<u64, (V, u64)>,
    key: u64,
    value: V,
    version: u64,
) -> Map<u64, (V, u64)> {
    if put_accepted(contents, key, version) {
        contents.insert(key, (value, version))
    } else {
        contents
    }
}

/// Each entry carries the stripe of its key.
pub open spec fn entries_placed<V: Clone>(entries: Seq<Entry<V>>, stripes: usize) -> bool {
    forall|i: int|
        0 <= i < entries.len() ==> (#[trigger] entries[i]).1 == ring::slot_of(
            entries[i].0.key,
            stripes,
        )
}

/// Some entry lies in stripe `s`.
pub open spec fn touches<V: Clone>(entries: Seq<Entry<V>>, s: int) -> bool {
    exists|i: int| 0 <= i < entries.len() && (#[trigger] entries[i]).1 == s
}

/// Every stripe that the entries touch is free.
pub open spec fn stripes_free<V: Clone>(
    holders: Seq<Option<u64>>,
    entries: Seq<Entry<V>>,
) -> bool {
    forall|i: int| 0 <= i < entries.len() ==> holders[(#[trigger] entries[i]).1 as int] is None
}

/// The holders once `tx` has locked every stripe that the entries touch.
pub open spec fn after_lock<V: Clone>(
    holders: Seq<Option<u64>>,
    entries: Seq<Entry<V>>,
    tx: u64,
) -> Seq<Option<u64>> {
    Seq::new(
        holders.len(),
        |s: int|
            if touches(entries, s) {
                Some(tx)
            } else {
                holders[s]
            },
    )
}

/// The holders once every stripe that the entries touch is free.
pub open spec fn after_unlock<V: Clone>(
    holders: Seq<Option<u64>>,
    entries: Seq<Entry<V>>,
) -> Seq<Option<u64>> {
    Seq::new(
        holders.len(),
        |s: int|
            if touches(entries, s) {
                None
            } else {
                holders[s]
            },
    )
}

/// What is stored once the entries have been written in order, each over
/// whatever version was there before.
pub open spec fn after_writes<V: Clone>(
    contents: Map<u64, (V, u64)>,
    entries: Seq<Entry<V>>,
    version: u64,
) -> Map<u64, (V, u64)>
    decreases entries.len(),
{
    if entries.len() == 0 {
        contents
    } else {
        let last = entries.last();
        after_writes(contents, entries.drop_last(), version).insert(
            last.0.key,
            (last.0.val, version),
        )
    }
}

/// `entry` put into `sorted`, behind every entry whose stripe is not greater.
pub open spec fn insert_by_stripe<V: Clone>(sorted: Seq<Entry<V>>, entry: Entry<V>) -> Seq<
    Entry<V>,
>
    decreases sorted.len(),
{
    if sorted.len() == 0 || sorted.last().1 <= entry.1 {
        sorted.push(entry)
    } else {
        insert_by_stripe(sorted.drop_last(), entry).push(sorted.last())
    }
}

/// The entries sorted by stripe, those of one stripe in their given order.
pub open spec fn sorted_by_stripe<V: Clone>(entries: Seq<Entry<V>>) -> Seq<Entry<V>>
    decreases entries.len(),
{
    if entries.len() == 0 {
        entries
    } else {
        insert_by_stripe(sorted_by_stripe(entries.drop_last()), entries.last())
    }
}

impl<V> StripedDb<V> {
    /// The number of stripes.
    pub closed spec fn stripe_count(self) -> usize {
        self.stripes.len()
    }

    /// The values of stripe `s`.
    pub closed spec fn stripe(self, s: int) -> Map<u64, (V, u64)> {
        self.stripes@[s].entries()
    }

    /// All values stored, with their versions, by key.
    pub open spec fn contents(self) -> Map<u64, (V, u64)> {
        Map::new(
            |key: u64| self.stripe(ring::slot_of(key, self.stripe_count()) as int).contains_key(key),
            |key: u64| self.stripe(ring::slot_of(key, self.stripe_count()) as int)[key],
        )
    }

    /// For each stripe, the transaction that has locked it.
    pub closed spec fn holders(self) -> Seq<Option<u64>> {
        self.stripes@.map_values(|stripe: Stripe<V>| stripe.holder())
    }

    /// One holder per stripe.
    pub broadcast proof fn lemma_one_holder_per_stripe(self)
        ensures
            #[trigger] self.holders().len() == self.stripe_count(),
    {
    }

    /// A store with `num_stripes` empty, unlocked stripes.
    pub fn new(num_stripes: usize) -> (db: Self)
        ensures
            db.stripe_count() == num_stripes,
            num_stripes > 0 ==> db.contents() == Map::<u64, (V, u64)>::empty(),
            forall|s: int| 0 <= s < num_stripes ==> (#[trigger] db.holders()[s]) is None,
    {
        let mut stripes: Vec<Stripe<V>> = Vec::new();
        let mut i: usize = 0;
        while i < num_stripes
            invariant
                i <= num_stripes,
                stripes@.len() == i,
                forall|s: int|
                    0 <= s < i ==> (#[trigger] stripes@[s]).holder is None
                        && stripes@[s].entries@ == Map::<u64, (V, u64)>::empty(),
            decreases num_stripes - i,
        {
            stripes.push(Stripe { entries: HashMap::new(), holder: None });
            i += 1;
        }
        let db = StripedDb { stripes };
        assert(num_stripes > 0 ==> db.contents() =~= Map::<u64, (V, u64)>::empty());
        db
    }

    /// The number of stripes.
    pub fn num_stripes(&self) -> (count: usize)
        ensures
            count == self.stripe_count(),
    {
        self.stripes.len()
    }

    /// The stripe of a key, which is the same on all nodes.
    pub fn stripe_index(&self, key: &u64) -> (index: usize)
        requires
            self.stripe_count() > 0,
        ensures
            index == ring::slot_of(*key, self.stripe_count()),
            index < self.stripe_count(),
    {
        ring::hash_slot(*key, self.stripes.len())
    }

    /// The stripe at `idx`.
    pub fn get_stripe_by_index(&self, idx: usize) -> (stripe: &Stripe<V>)
        requires
            idx < self.stripe_count(),
        ensures
            stripe.entries() == self.stripe(idx as int),
            stripe.holder() == self.holders()[idx as int],
    {
        &self.stripes[idx]
    }

    /// The transaction that has locked stripe `idx`.
    pub fn holder(&self, idx: usize) -> (holder: Option<u64>)
        requires
            idx < self.stripe_count(),
        ensures
            holder == self.holders()[idx as int],
    {
        self.stripes[idx].holder
    }

    /// Set a key's value and version, whatever was there before.
    pub fn write(&mut self, key: u64, value: V, version: u64)
        requires
            old(self).stripe_count() > 0,
        ensures
            final(self).stripe_count() == old(self).stripe_count(),
            final(self).holders() == old(self).holders(),
            final(self).contents() == old(self).contents().insert(key, (value, version)),
    {
        let index = self.stripe_index(&key);
        let ghost before = *self;
        self.stripes[index].entries.insert(key, (value, version));
        proof {
            assert(self.holders() =~= before.holders());
            assert(self.contents() =~= before.contents().insert(key, (value, version)));
        }
    }

    fn set_holder(&mut self, idx: usize, holder: Option<u64>)
        requires
            idx < old(self).stripe_count(),
        ensures
            final(self).stripe_count() == old(self).stripe_count(),
            final(self).contents() == old(self).contents(),
            final(self).holders() == old(self).holders().update(idx as int, holder),
    {
        let ghost before = *self;
        self.stripes[idx].holder = holder;
        proof {
            assert(self.holders() =~= before.holders().update(idx as int, holder));
            assert forall|s: int| 0 <= s < self.stripes@.len() implies self.stripe(s)
                == before.stripe(s) by {}
            assert(self.contents() =~= before.contents());
        }
    }
}

impl<V: Clone> StripedDb<V> {
    /// Get a value and its version.
    pub fn get(&self, key: &u64) -> (found: Option<(V, u64)>)
        requires
            self.stripe_count() > 0,
        ensures
            lookup_cloned(lookup(self.contents(), *key), found),
    {
        let index = self.stripe_index(key);
        match self.stripes[index].entries.get(key) {
            Some(stored) => Some((stored.0.clone(), stored.1)),
            None => None,
        }
    }

    /// Stores the value only if version >= stored version.
    pub fn put(&mut self, key: u64, value: V, version: u64) -> (accepted: bool)
        requires
            old(self).stripe_count() > 0,
        ensures
            accepted == put_accepted(old(self).contents(), key, version),
            final(self).contents() == after_put(old(self).contents(), key, value, version),
            final(self).stripe_count() == old(self).stripe_count(),
            final(self).holders() == old(self).holders(),
    {
        let index = self.stripe_index(&key);
        let newer = match self.stripes[index].entries.get(&key) {
            Some(stored) => stored.1 > version,
            None => false,
        };
        if newer {
            false
        } else {
            self.write(key, value, version);
            true
        }
    }

    /// Lock every stripe that the entries touch, all of them or none.
    pub fn try_lock(&mut self, entries: &Vec<Entry<V>>, tx: u64) -> (locked: bool)
        requires
            forall|i: int|
                0 <= i < entries@.len() ==> (#[trigger] entries@[i]).1 < old(self).stripe_count(),
            forall|s: int|
                0 <= s < old(self).stripe_count() ==> (#[trigger] old(self).holders()[s]) != Some(
                    tx,
                ),
        ensures
            locked == stripes_free(old(self).holders(), entries@),
            locked ==> final(self).holders() == after_lock(old(self).holders(), entries@, tx),
            !locked ==> final(self).holders() == old(self).holders(),
            final(self).contents() == old(self).contents(),
            final(self).stripe_count() == old(self).stripe_count(),
    {
        broadcast use StripedDb::lemma_one_holder_per_stripe;

        let ghost before = *self;
        let mut i: usize = 0;
        while i < entries.len()
            invariant
                i <= entries@.len(),
                before == *old(self),
                self.stripe_count() == before.stripe_count(),
                self.contents() == before.contents(),
                forall|j: int|
                    0 <= j < entries@.len() ==> (#[trigger] entries@[j]).1 < before.stripe_count(),
                forall|s: int|
                    0 <= s < before.stripe_count() ==> (#[trigger] before.holders()[s]) != Some(tx),
                stripes_free(before.holders(), entries@.take(i as int)),
                self.holders() == after_lock(before.holders(), entries@.take(i as int), tx),
            decreases entries@.len() - i,
        {
            broadcast use StripedDb::lemma_one_holder_per_stripe;

            let index = entries[i].1;
            let ghost seen = entries@.take(i as int);
            let ghost next = entries@.take(i + 1);
            assert(seen.push(entries@[i as int]) =~= next);
            assert(forall|s: int| #[trigger] touches(next, s) <==> touches(seen, s) || s == index)
                by {
                assert forall|s: int| #[trigger] touches(next, s) <==> touches(seen, s) || s
                    == index by {
                    if touches(seen, s) {
                        let j = choose|j: int| 0 <= j < seen.len() && (#[trigger] seen[j]).1 == s;
                        assert(next[j].1 == s);
                    }
                    if s == index {
                        assert(next[i as int].1 == s);
                    }
                    if touches(next, s) {
                        let j = choose|j: int| 0 <= j < next.len() && (#[trigger] next[j]).1 == s;
                        if j < i {
                            assert(seen[j].1 == s);
                        }
                    }
                }
            }
            let mine = match self.holder(index) {
                Some(holder) => {
                    if holder != tx {
                        proof {
                            assert(!touches(seen, index as int));
                            assert(before.holders()[index as int] == Some(holder));
                            assert(!stripes_free(before.holders(), entries@)) by {
                                assert(entries@[i as int].1 == index);
                            }
                        }
                        self.unlock_first(entries, i);
                        proof {
                            assert forall|s: int| 0 <= s < before.holders().len() implies
                                self.holders()[s] == before.holders()[s] by {
                                if touches(seen, s) {
                                    let j = choose|j: int|
                                        0 <= j < seen.len() && (#[trigger] seen[j]).1 == s;
                                    assert(before.holders()[seen[j].1 as int] is None);
                                }
                            }
                            assert(self.holders() =~= before.holders());
                        }
                        return false;
                    }
                    true
                },
                None => false,
            };
            if !mine {
                self.set_holder(index, Some(tx));
            }
            proof {
                if mine {
                    assert(touches(seen, index as int));
                    let j = choose|j: int|
                        0 <= j < seen.len() && (#[trigger] seen[j]).1 == index;
                    assert(before.holders()[seen[j].1 as int] is None);
                } else {
                    assert(!touches(seen, index as int));
                }
                assert forall|j: int| 0 <= j < next.len() implies before.holders()[(
                #[trigger] next[j]).1 as int] is None by {
                    if j < i {
                        assert(seen[j] == next[j]);
                    }
                }
                assert(self.holders() =~= after_lock(before.holders(), next, tx));
            }
            i += 1;
        }
        assert(entries@.take(i as int) =~= entries@);
        true
    }

    fn unlock_first(&mut self, entries: &Vec<Entry<V>>, count: usize)
        requires
            count <= entries@.len(),
            forall|i: int|
                0 <= i < entries@.len() ==> (#[trigger] entries@[i]).1 < old(self).stripe_count(),
        ensures
            final(self).holders() == after_unlock(
                old(self).holders(),
                entries@.take(count as int),
            ),
            final(self).contents() == old(self).contents(),
            final(self).stripe_count() == old(self).stripe_count(),
    {
        broadcast use StripedDb::lemma_one_holder_per_stripe;

        let ghost before = *self;
        let mut i: usize = 0;
        assert(self.holders() =~= after_unlock(before.holders(), entries@.take(0)));
        while i < count
            invariant
                i <= count <= entries@.len(),
                self.stripe_count() == before.stripe_count(),
                self.contents() == before.contents(),
                forall|j: int|
                    0 <= j < entries@.len() ==> (#[trigger] entries@[j]).1 < before.stripe_count(),
                self.holders() == after_unlock(before.holders(), entries@.take(i as int)),
            decreases count - i,
        {
            broadcast use StripedDb::lemma_one_holder_per_stripe;

            let index = entries[i].1;
            self.set_holder(index, None);
            proof {
                let seen = entries@.take(i as int);
                let next = entries@.take(i + 1);
                assert forall|s: int| #[trigger] touches(next, s) <==> touches(seen, s) || s
                    == index by {
                    if touches(seen, s) {
                        let j = choose|j: int| 0 <= j < seen.len() && (#[trigger] seen[j]).1 == s;
                        assert(next[j].1 == s);
                    }
                    if s == index {
                        assert(next[i as int].1 == s);
                    }
                    if touches(next, s) {
                        let j = choose|j: int| 0 <= j < next.len() && (#[trigger] next[j]).1 == s;
                        if j < i {
                            assert(seen[j].1 == s);
                        }
                    }
                }
                assert(self.holders() =~= after_unlock(before.holders(), next));
            }
            i += 1;
        }
    }

    /// Free every stripe that the entries touch.
    pub fn unlock(&mut self, entries: &Vec<Entry<V>>)
        requires
            forall|i: int|
                0 <= i < entries@.len() ==> (#[trigger] entries@[i]).1 < old(self).stripe_count(),
        ensures
            final(self).holders() == after_unlock(old(self).holders(), entries@),
            final(self).contents() == old(self).contents(),
            final(self).stripe_count() == old(self).stripe_count(),
    {
        self.unlock_first(entries, entries.len());
        assert(entries@.take(entries@.len() as int) =~= entries@);
    }

    /// Write the entries in order, each over whatever was there before.
    pub fn write_all(&mut self, entries: Vec<Entry<V>>, version: u64)
        requires
            old(self).stripe_count() > 0,
        ensures
            final(self).contents() == after_writes(old(self).contents(), entries@, version),
            final(self).holders() == old(self).holders(),
            final(self).stripe_count() == old(self).stripe_count(),
    {
        let ghost before = *self;
        let ghost all = entries@;
        for entry in it: entries
            invariant
                it.seq() == all,
                self.stripe_count() == before.stripe_count(),
                before.stripe_count() > 0,
                self.holders() == before.holders(),
                self.contents() == after_writes(
                    before.contents(),
                    all.take(it.index() as int),
                    version,
                ),
        {
            let ghost i = it.index() as int;
            assert(entry == all[i]);
            self.write(entry.0.key, entry.0.val, version);
            proof {
                assert(all.take(i + 1).drop_last() =~= all.take(i));
                assert(all.take(i + 1).last() == all[i]);
            }
        }
        assert(all.take(all.len() as int) =~= all);
    }
}

/// Sort entries by stripe, keeping the order of those in one stripe.
pub fn sort_entries<V: Clone>(entries: Vec<Entry<V>>) -> (sorted: Vec<Entry<V>>)
    ensures
        sorted@ == sorted_by_stripe(entries@),
{
    let ghost all = entries@;
    let mut sorted: Vec<Entry<V>> = Vec::new();
    for entry in it: entries
        invariant
            it.seq() == all,
            sorted@ == sorted_by_stripe(all.take(it.index() as int)),
    {
        let ghost done = it.index() as int;
        let ghost before = sorted@;
        let mut at: usize = sorted.len();
        proof {
            assert(before.take(at as int) =~= before);
            assert(insert_by_stripe(before, entry) + before.skip(at as int) =~= insert_by_stripe(
                before,
                entry,
            ));
        }
        while at > 0 && sorted[at - 1].1 > entry.1
            invariant
                at <= sorted@.len(),
                sorted@ == before,
                insert_by_stripe(before, entry) == insert_by_stripe(
                    before.take(at as int),
                    entry,
                ) + before.skip(at as int),
            decreases at,
        {
            proof {
                let head = before.take(at as int);
                assert(head.last() == before[at - 1]);
                assert(head.drop_last() =~= before.take(at - 1));
                assert(insert_by_stripe(head, entry) + before.skip(at as int) =~= insert_by_stripe(
                    before.take(at - 1),
                    entry,
                ) + before.skip(at - 1));
            }
            at -= 1;
        }
        proof {
            let head = before.take(at as int);
            if at > 0 {
                assert(head.last() == before[at - 1]);
            }
            assert(insert_by_stripe(head, entry) == head.push(entry));
            assert(head.push(entry) + before.skip(at as int) =~= before.insert(at as int, entry));
            assert(all.take(done + 1).drop_last() =~= all.take(done));
            assert(all.take(done + 1).last() == all[done]);
            assert(entry == all[done]);
        }
        sorted.insert(at, entry);
    }
    assert(all.take(all.len() as int) =~= all);
    sorted
}

/// A read of a key after a put gives back the put value and version where
/// the put was accepted, and what was stored before where it was not.
pub proof fn law_get_gives_back_put<V>(
    contents: Map<u64, (V, u64)>,
    key: u64,
    value: V,
    version: u64,
)
    ensures
        put_accepted(contents, key, version) ==> lookup(
            after_put(contents, key, value, version),
            key,
        ) == Some((value, version)),
        !put_accepted(contents, key, version) ==> after_put(contents, key, value, version)
            == contents,
        forall|other: u64|
            other != key ==> #[trigger] lookup(after_put(contents, key, value, version), other)
                == lookup(contents, other),
{
}

/// A put is accepted exactly when its version is the stored one or a later
/// one, or nothing is stored; it never lowers a stored version.
pub proof fn law_put_never_lowers_a_version<V>(
    contents: Map<u64, (V, u64)>,
    key: u64,
    value: V,
    version: u64,
    any: u64,
)
    ensures
        put_accepted(contents, key, version) <==> !contents.contains_key(key) || version
            >= contents[key].1,
        contents.contains_key(any) ==> after_put(contents, key, value, version).contains_key(any)
            && after_put(contents, key, value, version)[any].1 >= contents[any].1,
{
}

/// Freeing the stripes that a transaction locked leaves every stripe as it
/// was before the lock.
pub proof fn law_unlock_undoes_lock<V: Clone>(
    holders: Seq<Option<u64>>,
    entries: Seq<Entry<V>>,
    tx: u64,
)
    requires
        stripes_free(holders, entries),
    ensures
        after_unlock(after_lock(holders, entries, tx), entries) == holders,
{
    assert forall|s: int| 0 <= s < holders.len() && touches(entries, s) implies holders[s] is None by {
        let i = choose|i: int| 0 <= i < entries.len() && (#[trigger] entries[i]).1 == s;
        assert(holders[entries[i].1 as int] is None);
    }
    assert(after_unlock(after_lock(holders, entries, tx), entries) =~= holders);
}

/// Of the entries for one key the last one is what a transaction leaves
/// stored, at the transaction's version; keys without an entry keep what
/// they had.
pub proof fn law_last_write_wins<V: Clone>(
    contents: Map<u64, (V, u64)>,
    entries: Seq<Entry<V>>,
    version: u64,
)
    ensures
        forall|i: int|
            #![trigger entries[i]]
            0 <= i < entries.len() && (forall|j: int|
                i < j < entries.len() ==> (#[trigger] entries[j]).0.key != entries[i].0.key)
                ==> after_writes(contents, entries, version).contains_pair(
                entries[i].0.key,
                (entries[i].0.val, version),
            ),
        forall|key: u64|
            (forall|i: int| 0 <= i < entries.len() ==> (#[trigger] entries[i]).0.key != key)
                ==> #[trigger] lookup(after_writes(contents, entries, version), key) == lookup(
                contents,
                key,
            ),
    decreases entries.len(),
{
    if entries.len() > 0 {
        let rest = entries.drop_last();
        let last = entries.len() - 1;
        law_last_write_wins(contents, rest, version);
        assert(forall|j: int| 0 <= j < last ==> rest[j] == entries[j]);
        assert forall|i: int|
            #![trigger entries[i]]
            0 <= i < entries.len() && (forall|j: int|
                i < j < entries.len() ==> (#[trigger] entries[j]).0.key
                    != entries[i].0.key) implies after_writes(
            contents,
            entries,
            version,
        ).contains_pair(entries[i].0.key, (entries[i].0.val, version)) by {
            if i < last {
                assert(rest[i] == entries[i]);
                assert forall|j: int| i < j < rest.len() implies (#[trigger] rest[j]).0.key
                    != rest[i].0.key by {
                    assert(entries[j].0.key != entries[i].0.key);
                }
                assert(entries[last].0.key != entries[i].0.key);
            }
        }
        assert forall|key: u64|
            (forall|i: int| 0 <= i < entries.len() ==> (#[trigger] entries[i]).0.key
                != key) implies #[trigger] lookup(after_writes(contents, entries, version), key)
            == lookup(contents, key) by {
            assert forall|i: int| 0 <= i < rest.len() implies (#[trigger] rest[i]).0.key != key by {
                assert(entries[i].0.key != key);
            }
            assert(entries[last].0.key != key);
            assert(lookup(after_writes(contents, rest, version), key) == lookup(contents, key));
        }
    }
}

/// The entries are in ascending order of their stripes.
pub open spec fn stripes_ascend<V: Clone>(entries: Seq<Entry<V>>) -> bool {
    forall|i: int, j: int| 0 <= i <= j < entries.len() ==> entries[i].1 <= entries[j].1
}

proof fn lemma_insert_keeps_order<V: Clone>(sorted: Seq<Entry<V>>, entry: Entry<V>)
    requires
        stripes_ascend(sorted),
    ensures
        stripes_ascend(insert_by_stripe(sorted, entry)),
        insert_by_stripe(sorted, entry).len() == sorted.len() + 1,
        insert_by_stripe(sorted, entry).to_multiset() == sorted.to_multiset().insert(entry),
        forall|i: int|
            0 <= i <= sorted.len() ==> {
                ||| (#[trigger] insert_by_stripe(sorted, entry)[i]).1 <= entry.1
                ||| sorted.len() > 0 && insert_by_stripe(sorted, entry)[i].1 <= sorted.last().1
            },
    decreases sorted.len(),
{
    broadcast use vstd::seq_lib::group_to_multiset_ensures;

    if !(sorted.len() == 0 || sorted.last().1 <= entry.1) {
        let rest = sorted.drop_last();
        let inner = insert_by_stripe(rest, entry);
        lemma_insert_keeps_order(rest, entry);
        let out = insert_by_stripe(sorted, entry);
        assert(out == inner.push(sorted.last()));
        assert forall|i: int| 0 <= i < inner.len() implies (#[trigger] inner[i]).1
            <= sorted.last().1 by {
            if rest.len() > 0 {
                assert(rest.last() == sorted[rest.len() - 1]);
            }
        }
        assert(sorted =~= rest.push(sorted.last()));
        assert(out.to_multiset() =~= sorted.to_multiset().insert(entry));
    } else {
        assert(insert_by_stripe(sorted, entry) == sorted.push(entry));
    }
}

/// Sorting by stripe gives the same entries in ascending order of stripes.
pub proof fn law_sort_orders_entries<V: Clone>(entries: Seq<Entry<V>>)
    ensures
        stripes_ascend(sorted_by_stripe(entries)),
        sorted_by_stripe(entries).to_multiset() == entries.to_multiset(),
        sorted_by_stripe(entries).len() == entries.len(),
    decreases entries.len(),
{
    broadcast use vstd::seq_lib::group_to_multiset_ensures;

    if entries.len() > 0 {
        law_sort_orders_entries(entries.drop_last());
        lemma_insert_keeps_order(sorted_by_stripe(entries.drop_last()), entries.last());
        assert(entries =~= entries.drop_last().push(entries.last()));
    }
}

/// Sorting by stripe touches the same stripes and keeps entries placed.
pub proof fn lemma_sort_keeps_entries<V: Clone>(entries: Seq<Entry<V>>)
    ensures
        forall|e: Entry<V>| #[trigger] sorted_by_stripe(entries).contains(e) <==> entries.contains(e),
        sorted_by_stripe(entries).len() == entries.len(),
{
    broadcast use vstd::seq_lib::group_to_multiset_ensures;

    law_sort_orders_entries(entries);
    assert forall|e: Entry<V>| #[trigger]
        sorted_by_stripe(entries).contains(e) <==> entries.contains(e) by {
        assert(sorted_by_stripe(entries).contains(e) <==> sorted_by_stripe(entries).to_multiset()
            .count(e) > 0);
        assert(entries.contains(e) <==> entries.to_multiset().count(e) > 0);
    }
}

proof fn lemma_insert_keeps_writes<V: Clone>(
    contents: Map<u64, (V, u64)>,
    sorted: Seq<Entry<V>>,
    entry: Entry<V>,
    version: u64,
    stripes: usize,
)
    requires
        entries_placed(sorted, stripes),
        entry.1 == ring::slot_of(entry.0.key, stripes),
    ensures
        after_writes(contents, insert_by_stripe(sorted, entry), version) == after_writes(
            contents,
            sorted,
            version,
        ).insert(entry.0.key, (entry.0.val, version)),
        entries_placed(insert_by_stripe(sorted, entry), stripes),
    decreases sorted.len(),
{
    if sorted.len() == 0 || sorted.last().1 <= entry.1 {
        assert(sorted.push(entry).drop_last() =~= sorted);
    } else {
        let rest = sorted.drop_last();
        let last = sorted.last();
        assert(forall|i: int| 0 <= i < rest.len() ==> rest[i] == sorted[i]);
        lemma_insert_keeps_writes(contents, rest, entry, version, stripes);
        let inner = insert_by_stripe(rest, entry);
        assert(inner.push(last).drop_last() =~= inner);
        assert(last == sorted[sorted.len() - 1]);
        assert(last.0.key != entry.0.key);
        assert(after_writes(contents, inner.push(last), version) =~= after_writes(
            contents,
            sorted,
            version,
        ).insert(entry.0.key, (entry.0.val, version)));
    }
}

/// Sorting by stripe does not change what a transaction writes.
pub proof fn law_sort_keeps_writes<V: Clone>(
    contents: Map<u64, (V, u64)>,
    entries: Seq<Entry<V>>,
    version: u64,
    stripes: usize,
)
    requires
        entries_placed(entries, stripes),
    ensures
        after_writes(contents, sorted_by_stripe(entries), version) == after_writes(
            contents,
            entries,
            version,
        ),
        entries_placed(sorted_by_stripe(entries), stripes),
    decreases entries.len(),
{
    if entries.len() > 0 {
        let rest = entries.drop_last();
        assert(forall|i: int| 0 <= i < rest.len() ==> rest[i] == entries[i]);
        law_sort_keeps_writes(contents, rest, version, stripes);
        assert(entries.last() == entries[entries.len() - 1]);
        lemma_insert_keeps_writes(
            contents,
            sorted_by_stripe(rest),
            entries.last(),
            version,
            stripes,
        );
    }
}

/// A put goes by the version stored: it is refused, and changes nothing, exactly
/// where a later version is stored; otherwise the key has the new value at the
/// new version. No other key changes.
pub proof fn law_put_goes_by_version<V>(
    contents: Map<u64, (V, u64)>,
    key: u64,
    value: V,
    version: u64,
    other: u64,
)
    ensures
        put_accepted(contents, key, version) <==> !(contents.contains_key(key) && contents[key].1
            > version),
        contents.contains_key(key) && contents[key].1 > version ==> after_put(
            contents,
            key,
            value,
            version,
        ) == contents,
        !(contents.contains_key(key) && contents[key].1 > version) ==> after_put(
            contents,
            key,
            value,
            version,
        ).contains_pair(key, (value, version)),
        other != key ==> (after_put(contents, key, value, version).contains_key(other)
            <==> contents.contains_key(other)),
        other != key && contents.contains_key(other) ==> after_put(contents, key, value, version)[other]
            == contents[other],
{
}

/// What is found under a key is what is stored there, and a clone of it keeps
/// the version.
pub proof fn law_lookup_finds_what_is_stored<V: Clone>(
    contents: Map<u64, (V, u64)>,
    key: u64,
    found: Option<(V, u64)>,
)
    ensures
        lookup(contents, key) is Some <==> contents.contains_key(key),
        contents.contains_key(key) ==> lookup(contents, key) == Some(contents[key]),
        lookup_cloned(lookup(contents, key), found) <==> {
            &&& found is Some <==> contents.contains_key(key)
            &&& found matches Some((value, version)) ==> cloned(contents[key].0, value) && version
                == contents[key].1
        },
{
}

/// Locking takes, and unlocking frees, exactly the stripes that some entry lies
/// in; it is possible where each of them is free.
pub proof fn law_locks_cover_the_entries<V: Clone>(
    holders: Seq<Option<u64>>,
    entries: Seq<Entry<V>>,
    tx: u64,
    s: int,
)
    ensures
        stripes_free(holders, entries) <==> forall|i: int|
            0 <= i < entries.len() ==> holders[(#[trigger] entries[i]).1 as int] is None,
        after_lock(holders, entries, tx).len() == holders.len(),
        after_unlock(holders, entries).len() == holders.len(),
        0 <= s < holders.len() && (exists|i: int|
            0 <= i < entries.len() && (#[trigger] entries[i]).1 == s) ==> after_lock(
            holders,
            entries,
            tx,
        )[s] == Some(tx) && after_unlock(holders, entries)[s] == None::<u64>,
        0 <= s < holders.len() && (forall|i: int|
            0 <= i < entries.len() ==> (#[trigger] entries[i]).1 != s) ==> after_lock(
            holders,
            entries,
            tx,
        )[s] == holders[s] && after_unlock(holders, entries)[s] == holders[s],
        touches(entries, s) <==> exists|i: int|
            0 <= i < entries.len() && (#[trigger] entries[i]).1 == s,
{
}

/// An entry that is placed carries its key's stripe.
pub proof fn law_placed_entries_carry_their_stripe<V: Clone>(
    entries: Seq<Entry<V>>,
    stripes: usize,
)
    ensures
        entries_placed(entries, stripes) <==> forall|i: int|
            0 <= i < entries.len() ==> (#[trigger] entries[i]).1 == ring::slot_of(
                entries[i].0.key,
                stripes,
            ),
{
}

/// The writes of a transaction one after the other: nothing written changes
/// nothing, and one more entry sets its key to its value at the version.
pub proof fn law_writes_add_up<V: Clone>(
    contents: Map<u64, (V, u64)>,
    entries: Seq<Entry<V>>,
    entry: Entry<V>,
    version: u64,
)
    ensures
        after_writes(contents, Seq::<Entry<V>>::empty(), version) == contents,
        after_writes(contents, entries.push(entry), version) == after_writes(
            contents,
            entries,
            version,
        ).insert(entry.0.key, (entry.0.val, version)),
{
    assert(entries.push(entry).drop_last() =~= entries);
}

/// Sorting is by stripe, ascending, and stable: it is a rearrangement, and of
/// two entries the one that was first stays first unless its stripe is greater.
pub proof fn law_sort_is_stable<V: Clone>(entries: Seq<Entry<V>>, entry: Entry<V>, i: int, j: int)
    ensures
        sorted_by_stripe(entries).to_multiset() == entries.to_multiset(),
        0 <= i <= j < sorted_by_stripe(entries).len() ==> sorted_by_stripe(entries)[i].1
            <= sorted_by_stripe(entries)[j].1,
        exists|at: int| #[trigger] inserted_at(entries, entry, at),
{
    law_sort_orders_entries(entries);
    lemma_insert_position(sorted_by_stripe(entries), entry);
    let at = choose|at: int|
        0 <= at <= sorted_by_stripe(entries).len() && insert_by_stripe(
            sorted_by_stripe(entries),
            entry,
        ) == sorted_by_stripe(entries).insert(at, entry) && (forall|k: int|
            at <= k < sorted_by_stripe(entries).len() ==> #[trigger] sorted_by_stripe(
                entries,
            )[k].1 > entry.1);
    assert(entries.push(entry).drop_last() =~= entries);
    assert(inserted_at(entries, entry, at));
}

/// One more entry goes into the sorted ones at position `at`, behind all that do
/// not belong to a greater stripe, and the others keep their order.
pub open spec fn inserted_at<V: Clone>(entries: Seq<Entry<V>>, entry: Entry<V>, at: int) -> bool {
    let sorted = sorted_by_stripe(entries);
    &&& 0 <= at <= sorted.len()
    &&& sorted_by_stripe(entries.push(entry)) == sorted.insert(at, entry)
    &&& forall|k: int| at <= k < sorted.len() ==> (#[trigger] sorted[k]).1 > entry.1
}

proof fn lemma_insert_position<V: Clone>(sorted: Seq<Entry<V>>, entry: Entry<V>)
    requires
        stripes_ascend(sorted),
    ensures
        exists|at: int|
            0 <= at <= sorted.len() && insert_by_stripe(sorted, entry) == sorted.insert(at, entry)
                && (forall|k: int| at <= k < sorted.len() ==> #[trigger] sorted[k].1 > entry.1),
    decreases sorted.len(),
{
    if sorted.len() == 0 || sorted.last().1 <= entry.1 {
        let at = sorted.len() as int;
        assert(insert_by_stripe(sorted, entry) =~= sorted.insert(at, entry));
    } else {
        let rest = sorted.drop_last();
        lemma_insert_position(rest, entry);
        let at = choose|at: int|
            0 <= at <= rest.len() && insert_by_stripe(rest, entry) == rest.insert(at, entry) && (
            forall|k: int| at <= k < rest.len() ==> #[trigger] rest[k].1 > entry.1);
        assert(insert_by_stripe(sorted, entry) =~= sorted.insert(at, entry));
        assert forall|k: int| at <= k < sorted.len() implies #[trigger] sorted[k].1 > entry.1 by {
            if k < rest.len() {
                assert(rest[k].1 > entry.1);
            }
        }
    }
}

} // verus!
