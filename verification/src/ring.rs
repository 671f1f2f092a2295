//! Where a key lives: its hash, its stripe and its window of replicas on the
//! ring of cluster nodes.

use std::collections::hash_map::DefaultHasher;
use std::hash::Hasher;
use vstd::prelude::*;

verus! {

/// The 64-bit hash of a key: what a fresh `DefaultHasher` makes of the key's
/// eight bytes, least significant first.
pub open spec fn key_hash(key: u64) -> u64 {
    <DefaultHasher as vstd::std_specs::hash::DefaultHasherAdditionalSpecFns>::spec_finish(
        seq![vstd::bytes::spec_u64_to_le_bytes(key)],
    )
}

/// The slot that `key` hashes to among `slots` of them.
pub open spec fn slot_of(key: u64, slots: usize) -> usize {
    (key_hash(key) as usize) % slots
}

/// `count` consecutive positions on a ring of `len`, from `start` on.
pub open spec fn ring_window(start: int, len: int, count: nat) -> Seq<usize> {
    Seq::new(count, |i: int| ((start + i) % len) as usize)
}

/// The ring positions of the nodes that own `key`.
pub open spec fn replica_window(
    key: u64,
    cluster_len: usize,
    replication_degree: usize,
) -> Seq<usize> {
    ring_window(
        slot_of(key, cluster_len) as int,
        cluster_len as int,
        vstd::math::min(replication_degree as int, cluster_len as int) as nat,
    )
}

/// Hash a key. Every node computes the same hash for the same key. Which hash
/// that is comes from std's hasher, so how evenly keys spread over the nodes is
/// not stated.
pub fn hash_key(key: u64) -> (hash: u64)
    ensures
        hash == key_hash(key),
{
    let mut hasher = DefaultHasher::new();
    let bytes = vstd::bytes::u64_to_le_bytes(key);
    hasher.write(bytes.as_slice());
    assert(hasher@ =~= seq![vstd::bytes::spec_u64_to_le_bytes(key)]);
    hasher.finish()
}

/// The slot of a key among `slots`: its hash modulo their number.
pub fn hash_slot(key: u64, slots: usize) -> (slot: usize)
    requires
        slots > 0,
    ensures
        slot == slot_of(key, slots),
        slot < slots,
{
    (hash_key(key) as usize) % slots
}

/// Positions `start`, `start + 1`, ... on a ring of `len`, `count` in all.
pub fn ring_positions(start: usize, len: usize, count: usize) -> (positions: Vec<usize>)
    requires
        start < len,
        count <= len,
    ensures
        positions@ == ring_window(start as int, len as int, count as nat),
{
    let mut positions: Vec<usize> = Vec::new();
    let mut i: usize = 0;
    while i < count
        invariant
            start < len,
            i <= count <= len,
            positions@ == ring_window(start as int, len as int, i as nat),
        decreases count - i,
    {
        let position: usize = if i < len - start {
            start + i
        } else {
            i - (len - start)
        };
        proof {
            if i < len - start {
                vstd::arithmetic::div_mod::lemma_small_mod((start + i) as nat, len as nat);
            } else {
                vstd::arithmetic::div_mod::lemma_small_mod(position as nat, len as nat);
                vstd::arithmetic::div_mod::lemma_mod_add_multiples_vanish(
                    position as int,
                    len as int,
                );
            }
        }
        positions.push(position);
        assert(positions@ =~= ring_window(start as int, len as int, (i + 1) as nat));
        i += 1;
    }
    positions
}

/// Given a cluster's size and the replication degree, return the indices of
/// the nodes that own this key: a window of the ring that starts at the key's
/// hash. The degree is capped at the cluster's size.
pub fn key_replica_indices(
    key: &u64,
    cluster_len: usize,
    replication_degree: usize,
) -> (indices: Vec<usize>)
    requires
        cluster_len > 0,
    ensures
        indices@ == replica_window(*key, cluster_len, replication_degree),
{
    let start = hash_slot(*key, cluster_len);
    let degree = if replication_degree <= cluster_len {
        replication_degree
    } else {
        cluster_len
    };
    ring_positions(start, cluster_len, degree)
}

/// A window starts at `start` and goes on with consecutive positions of the
/// ring, the position after the last being the first.
pub proof fn law_window_is_contiguous(start: int, len: int, count: nat)
    requires
        0 <= start < len <= usize::MAX,
        count <= len,
    ensures
        ring_window(start, len, count).len() == count,
        count > 0 ==> ring_window(start, len, count)[0] == start,
        forall|i: int|
            0 <= i < count ==> 0 <= (#[trigger] ring_window(start, len, count)[i]) < len,
        forall|i: int|
            0 < i < count ==> (#[trigger] ring_window(start, len, count)[i]) == (ring_window(
                start,
                len,
                count,
            )[i - 1] + 1) % len,
{
    vstd::arithmetic::div_mod::lemma_small_mod(start as nat, len as nat);
    assert forall|i: int| 0 <= i < count implies 0 <= (#[trigger] ring_window(start, len, count)[i])
        < len by {
        vstd::arithmetic::div_mod::lemma_mod_bound(start + i, len);
    }
    assert forall|i: int| 0 < i < count implies (#[trigger] ring_window(start, len, count)[i]) == (
    ring_window(start, len, count)[i - 1] + 1) % len by {
        vstd::arithmetic::div_mod::lemma_mod_bound(start + i, len);
        vstd::arithmetic::div_mod::lemma_mod_bound(start + i - 1, len);
        vstd::arithmetic::div_mod::lemma_add_mod_noop_right(1, start + i - 1, len);
    }
}

/// No position occurs twice in a window that is no longer than the ring.
pub proof fn law_window_has_no_duplicates(start: int, len: int, count: nat)
    requires
        0 <= start < len <= usize::MAX,
        count <= len,
    ensures
        ring_window(start, len, count).no_duplicates(),
{
    let window = ring_window(start, len, count);
    assert forall|i: int, j: int|
        0 <= i < window.len() && 0 <= j < window.len() && i != j implies window[i] != window[j] by {
        vstd::arithmetic::div_mod::lemma_mod_bound(start + i, len);
        vstd::arithmetic::div_mod::lemma_mod_bound(start + j, len);
        let (lo, hi) = if i < j {
            (i, j)
        } else {
            (j, i)
        };
        if (start + lo) % len == (start + hi) % len {
            vstd::arithmetic::div_mod::lemma_fundamental_div_mod(start + lo, len);
            vstd::arithmetic::div_mod::lemma_fundamental_div_mod(start + hi, len);
            let a = (start + lo) / len;
            let b = (start + hi) / len;
            assert(hi - lo == len * b - len * a);
            assert(hi - lo == len * (b - a)) by (nonlinear_arith)
                requires
                    hi - lo == len * b - len * a,
            ;
            assert(false) by (nonlinear_arith)
                requires
                    0 < hi - lo < len,
                    hi - lo == len * (b - a),
            ;
        }
    }
}

/// The replicas of a key: as many as the degree asks for or the cluster has,
/// each a node of the cluster, none twice, consecutive on the ring.
pub proof fn law_replicas_of_a_key(key: u64, cluster_len: usize, replication_degree: usize)
    requires
        cluster_len > 0,
    ensures
        ({
            let replicas = replica_window(key, cluster_len, replication_degree);
            &&& replicas.len() == vstd::math::min(replication_degree as int, cluster_len as int)
            &&& replicas.no_duplicates()
            &&& forall|i: int| 0 <= i < replicas.len() ==> (#[trigger] replicas[i]) < cluster_len
            &&& forall|i: int|
                0 < i < replicas.len() ==> (#[trigger] replicas[i]) == (replicas[i - 1] + 1)
                    % cluster_len as int
        }),
{
    let start = slot_of(key, cluster_len) as int;
    let count = vstd::math::min(replication_degree as int, cluster_len as int) as nat;
    law_window_is_contiguous(start, cluster_len as int, count);
    law_window_has_no_duplicates(start, cluster_len as int, count);
}

/// A higher replication degree adds replicas behind those of a lower one.
pub proof fn law_windows_start_alike(key: u64, cluster_len: usize, lower: usize, higher: usize)
    requires
        cluster_len > 0,
        lower <= higher,
    ensures
        replica_window(key, cluster_len, lower).is_prefix_of(
            replica_window(key, cluster_len, higher),
        ),
{
}

/// Where the last node of the ring is a key's first replica, the next ones are
/// the first two nodes.
pub proof fn law_window_wraps_around(key: u64, cluster_len: usize)
    requires
        cluster_len >= 3,
        replica_window(key, cluster_len, 1) == seq![(cluster_len - 1) as usize],
    ensures
        replica_window(key, cluster_len, 3) == seq![(cluster_len - 1) as usize, 0usize, 1usize],
{
    let three = replica_window(key, cluster_len, 3);
    law_replicas_of_a_key(key, cluster_len, 3);
    law_windows_start_alike(key, cluster_len, 1, 3);
    assert(replica_window(key, cluster_len, 1)[0] == cluster_len - 1);
    assert(three[1] == (three[0] + 1) % cluster_len as int);
    assert(three[2] == (three[1] + 1) % cluster_len as int);
    vstd::arithmetic::div_mod::lemma_mod_self_0(cluster_len as int);
    vstd::arithmetic::div_mod::lemma_small_mod(1, cluster_len as nat);
    assert(three =~= seq![(cluster_len - 1) as usize, 0usize, 1usize]);
}

/// Where a key lies: std's hash of its eight bytes, least significant first,
/// modulo the number of nodes, is the first of its replicas, and each further
/// one stands one rank on, behind the last rank the first. There are as many as
/// the degree says, or all nodes where there are fewer.
pub proof fn law_replica_ranks(key: u64, cluster_len: usize, replication_degree: usize, i: int)
    requires
        cluster_len > 0,
    ensures
        ({
            let hash = <DefaultHasher as vstd::std_specs::hash::DefaultHasherAdditionalSpecFns>::spec_finish(
                seq![vstd::bytes::spec_u64_to_le_bytes(key)],
            );
            let first = (hash as usize) as int % cluster_len as int;
            let replicas = replica_window(key, cluster_len, replication_degree);
            &&& slot_of(key, cluster_len) == first
            &&& replication_degree <= cluster_len ==> replicas.len() == replication_degree
            &&& replication_degree >= cluster_len ==> replicas.len() == cluster_len
            &&& 0 <= i < replicas.len() && first + i < cluster_len ==> replicas[i] == first + i
            &&& 0 <= i < replicas.len() && first + i >= cluster_len ==> replicas[i] == first + i
                - cluster_len
        }),
{
    let n = cluster_len as int;
    let first = slot_of(key, cluster_len) as int;
    let replicas = replica_window(key, cluster_len, replication_degree);
    if 0 <= i < replicas.len() {
        if first + i < n {
            vstd::arithmetic::div_mod::lemma_small_mod((first + i) as nat, n as nat);
        } else {
            vstd::arithmetic::div_mod::lemma_mod_sub_multiples_vanish(first + i, n);
            vstd::arithmetic::div_mod::lemma_small_mod((first + i - n) as nat, n as nat);
        }
    }
}

/// A node owns a key exactly where it stands fewer ranks ahead of the key's
/// first replica, going round the ring, than the replication degree.
pub proof fn law_owners_stand_close(
    key: u64,
    cluster_len: usize,
    replication_degree: usize,
    rank: usize,
)
    requires
        rank < cluster_len,
    ensures
        ({
            let first = slot_of(key, cluster_len) as int;
            let ahead = if rank >= first {
                rank - first
            } else {
                rank - first + cluster_len
            };
            replica_window(key, cluster_len, replication_degree).contains(rank) <==> ahead
                < replication_degree
        }),
{
    let first = slot_of(key, cluster_len) as int;
    let ahead = if rank >= first {
        rank - first
    } else {
        rank - first + cluster_len
    };
    let replicas = replica_window(key, cluster_len, replication_degree);
    law_replica_ranks(key, cluster_len, replication_degree, ahead);
    if ahead < replication_degree {
        assert(replicas[ahead] == rank);
    }
    if replicas.contains(rank) {
        let i = choose|i: int| 0 <= i < replicas.len() && replicas[i] == rank;
        law_replica_ranks(key, cluster_len, replication_degree, i);
    }
}

} // verus!
