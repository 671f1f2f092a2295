//! The operations that a client runs against the store.

use crate::random;
use crate::types::KVPair;
use vstd::prelude::*;

verus! {

/// How many of a hundred operations are Puts.
pub const PUT_FREQUENCY: u64 = 20;

/// How many of a hundred operations are TriPuts.
pub const TRI_PUT_FREQUENCY: u64 = 20;

/// An operation on the store.
#[derive(Clone, Copy, Debug)]
pub enum Operation {
    Get { key: u64 },
    Put { pair: KVPair<u64, u8> },
    TriPut { pairs: [KVPair<u64, u8>; 3] },
}

/// The kinds of operations.
#[derive(Clone, Copy, Debug, PartialEq, Eq, Structural)]
pub enum OperationKind {
    Get,
    Put,
    TriPut,
}

impl Operation {
    /// The kind of an operation.
    pub open spec fn kind(self) -> OperationKind {
        match self {
            Operation::Get { .. } => OperationKind::Get,
            Operation::Put { .. } => OperationKind::Put,
            Operation::TriPut { .. } => OperationKind::TriPut,
        }
    }

    /// Every key lies below `key_range`, and no key is written twice.
    pub open spec fn in_range(self, key_range: u64) -> bool {
        match self {
            Operation::Get { key } => key < key_range,
            Operation::Put { pair } => pair.key < key_range,
            Operation::TriPut { pairs } => {
                &&& forall|i: int| 0 <= i < 3 ==> (#[trigger] pairs@[i]).key < key_range
                &&& forall|i: int, j: int|
                    0 <= i < j < 3 ==> (#[trigger] pairs@[i]).key != (#[trigger] pairs@[j]).key
            },
        }
    }
}

/// The kind of operation that a roll of a hundred-sided die stands for.
pub open spec fn rolled_kind(roll: u64) -> OperationKind {
    if roll < PUT_FREQUENCY {
        OperationKind::Put
    } else if roll < PUT_FREQUENCY + TRI_PUT_FREQUENCY {
        OperationKind::TriPut
    } else {
        OperationKind::Get
    }
}

/// The kind of operation that a roll stands for.
pub fn kind_of_roll(roll: u64) -> (kind: OperationKind)
    ensures
        kind == rolled_kind(roll),
{
    if roll < PUT_FREQUENCY {
        OperationKind::Put
    } else if roll < PUT_FREQUENCY + TRI_PUT_FREQUENCY {
        OperationKind::TriPut
    } else {
        OperationKind::Get
    }
}

/// A key may stand beside `k1` and `k2`.
pub open spec fn unused(key: u64, k1: u64, k2: u64) -> bool {
    key != k1 && key != k2
}

/// Some key below `key_range` may stand beside `k1` and `k2`.
pub open spec fn has_unused(k1: u64, k2: u64, key_range: u64) -> bool {
    exists|key: u64| #[trigger] unused(key, k1, k2) && key < key_range
}

/// Whether a drawn key may stand beside `k1` and `k2`.
pub fn is_unused(drawn: u64, k1: u64, k2: u64) -> (free: bool)
    ensures
        free == unused(drawn, k1, k2),
{
    drawn != k1 && drawn != k2
}

/// The least key that is neither `k1` nor `k2`.
pub fn least_unused(k1: u64, k2: u64) -> (key: u64)
    ensures
        key == if k1 != 0 && k2 != 0 {
            0u64
        } else if k1 != 1 && k2 != 1 {
            1u64
        } else {
            2u64
        },
        unused(key, k1, k2),
        forall|other: u64| #[trigger] unused(other, k1, k2) ==> key <= other,
{
    if is_unused(0, k1, k2) {
        0
    } else if is_unused(1, k1, k2) {
        1
    } else {
        2
    }
}

/// A random key below `key_range` that is neither `k1` nor `k2`: keys are drawn
/// until one of them will do. Should none of 2^64 - 1 draws do, the least such
/// key is taken.
pub fn unique_random(k1: u64, k2: u64, key_range: u64) -> (key: u64)
    requires
        has_unused(k1, k2, key_range),
    ensures
        key < key_range,
        unused(key, k1, k2),
{
    let mut draws_left: u64 = u64::MAX;
    while draws_left > 0
        invariant
            has_unused(k1, k2, key_range),
        decreases draws_left,
    {
        let drawn = random::random_below(key_range);
        if is_unused(drawn, k1, k2) {
            return drawn;
        }
        draws_left -= 1;
    }
    least_unused(k1, k2)
}

/// Of three keys or more, one is neither `k1` nor `k2`.
proof fn lemma_three_keys_suffice(k1: u64, k2: u64, key_range: u64)
    requires
        key_range >= 3,
    ensures
        has_unused(k1, k2, key_range),
{
    assert(unused(0, k1, k2) || unused(1, k1, k2) || unused(2, k1, k2));
}

/// The TriPut of three keys with their values.
pub fn tri_put(keys: (u64, u64, u64), vals: (u8, u8, u8)) -> (operation: Operation)
    ensures
        operation matches Operation::TriPut { pairs } && pairs@ == seq![
            KVPair { key: keys.0, val: vals.0 },
            KVPair { key: keys.1, val: vals.1 },
            KVPair { key: keys.2, val: vals.2 },
        ],
{
    let pairs = [
        KVPair { key: keys.0, val: vals.0 },
        KVPair { key: keys.1, val: vals.1 },
        KVPair { key: keys.2, val: vals.2 },
    ];
    assert(pairs@ =~= seq![
        KVPair { key: keys.0, val: vals.0 },
        KVPair { key: keys.1, val: vals.1 },
        KVPair { key: keys.2, val: vals.2 },
    ]);
    Operation::TriPut { pairs }
}

/// A random operation of a given kind.
pub fn random_operation(kind: OperationKind, key_range: u64) -> (operation: Operation)
    requires
        key_range > 0,
        kind is TriPut ==> key_range >= 3,
    ensures
        operation.kind() == kind,
        operation.in_range(key_range),
{
    match kind {
        OperationKind::Put => {
            let key = random::random_below(key_range);
            Operation::Put { pair: KVPair { key, val: random::random_u8() } }
        },
        OperationKind::TriPut => {
            let k1 = random::random_below(key_range);
            proof {
                lemma_three_keys_suffice(k1, k1, key_range);
            }
            let k2 = unique_random(k1, k1, key_range);
            proof {
                lemma_three_keys_suffice(k1, k2, key_range);
            }
            let k3 = unique_random(k1, k2, key_range);
            let vals = (random::random_u8(), random::random_u8(), random::random_u8());
            tri_put((k1, k2, k3), vals)
        },
        OperationKind::Get => Operation::Get { key: random::random_below(key_range) },
    }
}

/// A random operation of the kind that a roll stands for.
pub fn operation_for_roll(roll: u64, key_range: u64) -> (operation: Operation)
    requires
        key_range > 0,
        rolled_kind(roll) is TriPut ==> key_range >= 3,
    ensures
        operation.kind() == rolled_kind(roll),
        operation.in_range(key_range),
{
    random_operation(kind_of_roll(roll), key_range)
}

/// A random list of operations on keys below `key_range`: 20 in 100 are Puts
/// and 20 in 100 TriPuts, which take three different keys.
pub fn generate_test_operations(num_operations: usize, key_range: u64) -> (operations: Vec<
    Operation,
>)
    requires
        num_operations > 0 ==> key_range >= 3,
    ensures
        operations@.len() == num_operations,
        forall|i: int| 0 <= i < num_operations ==> (#[trigger] operations@[i]).in_range(key_range),
{
    let mut operations: Vec<Operation> = Vec::new();
    while operations.len() < num_operations
        invariant
            num_operations > 0 ==> key_range >= 3,
            operations@.len() <= num_operations,
            forall|i: int|
                0 <= i < operations@.len() ==> (#[trigger] operations@[i]).in_range(key_range),
        decreases num_operations - operations@.len(),
    {
        let roll = random::random_below(100);
        operations.push(operation_for_roll(roll, key_range));
    }
    operations
}

/// How far a run has come, in percent: told at every tenth of `total`.
pub open spec fn progress(i: usize, total: usize) -> Option<usize> {
    if total / 10 > 0 && i as int % (total / 10) as int == 0 {
        Some((i * 100 / total as int) as usize)
    } else {
        None
    }
}

/// The progress to tell before operation `i` of `total`, if any.
pub fn print_progress(i: usize, total: usize) -> (percent: Option<usize>)
    requires
        i * 100 <= usize::MAX,
    ensures
        percent == progress(i, total),
{
    let step = total / 10;
    if step > 0 && i % step == 0 {
        Some((i * 100) / total)
    } else {
        None
    }
}

/// Of a hundred rolls the first twenty stand for Puts, the next twenty for
/// TriPuts and the rest for Gets.
pub proof fn law_rolls_in_numbers(roll: u64)
    ensures
        rolled_kind(roll) == OperationKind::Put <==> roll < 20,
        rolled_kind(roll) == OperationKind::TriPut <==> 20 <= roll < 40,
        rolled_kind(roll) == OperationKind::Get <==> 40 <= roll,
{
}

/// What an operation is, and which keys it may have: below the range, and three
/// different ones for a TriPut.
pub proof fn law_operations_in_range(
    key: u64,
    pair: KVPair<u64, u8>,
    pairs: [KVPair<u64, u8>; 3],
    key_range: u64,
)
    ensures
        (Operation::Get { key }).kind() == OperationKind::Get,
        (Operation::Put { pair }).kind() == OperationKind::Put,
        (Operation::TriPut { pairs }).kind() == OperationKind::TriPut,
        (Operation::Get { key }).in_range(key_range) <==> key < key_range,
        (Operation::Put { pair }).in_range(key_range) <==> pair.key < key_range,
        (Operation::TriPut { pairs }).in_range(key_range) <==> {
            &&& pairs@[0].key < key_range && pairs@[1].key < key_range && pairs@[2].key < key_range
            &&& pairs@[0].key != pairs@[1].key
            &&& pairs@[0].key != pairs@[2].key
            &&& pairs@[1].key != pairs@[2].key
        },
{
    let operation = Operation::TriPut { pairs };
    let s = pairs@;
    if operation.in_range(key_range) {
        let held = operation->pairs;
        assert(held@[0].key < key_range && held@[1].key < key_range && held@[2].key < key_range);
        assert(held@[0].key != held@[1].key && held@[0].key != held@[2].key);
        assert(held@[1].key != held@[2].key);
        assert(s[0].key < key_range && s[1].key < key_range && s[2].key < key_range);
        assert(s[0].key != s[1].key && s[0].key != s[2].key && s[1].key != s[2].key);
    }
    if s[0].key < key_range && s[1].key < key_range && s[2].key < key_range && s[0].key != s[1].key
        && s[0].key != s[2].key && s[1].key != s[2].key {
        assert forall|i: int| 0 <= i < 3 implies (#[trigger] pairs@[i]).key < key_range by {
            assert(i == 0 || i == 1 || i == 2);
        }
        assert forall|i: int, j: int| 0 <= i < j < 3 implies (#[trigger] pairs@[i]).key != (
        #[trigger] pairs@[j]).key by {
            assert((i == 0 && (j == 1 || j == 2)) || (i == 1 && j == 2));
        }
        assert(operation.in_range(key_range));
    }
}

/// A key is unused where it is neither of the two, and there is one below the
/// range exactly where 0, 1 or 2 is one.
pub proof fn law_unused_keys(key: u64, k1: u64, k2: u64, key_range: u64)
    ensures
        unused(key, k1, k2) <==> key != k1 && key != k2,
        unused(key, k1, k2) && key < key_range ==> has_unused(k1, k2, key_range),
        has_unused(k1, k2, key_range) ==> exists|small: u64|
            small <= 2 && small < key_range && #[trigger] unused(small, k1, k2),
{
    if has_unused(k1, k2, key_range) {
        assert(unused(0, k1, k2) || unused(1, k1, k2) || unused(2, k1, k2));
        let key = choose|key: u64| #[trigger] unused(key, k1, k2) && key < key_range;
        if !(unused(0, k1, k2)) && !(unused(1, k1, k2)) {
            assert(key >= 2);
        }
        if !unused(0, k1, k2) {
            assert(key >= 1);
        }
    }
}

/// Progress is told exactly at the multiples of a tenth of the total, as the
/// percentage done, rounded down.
pub proof fn law_progress_in_percent(i: usize, total: usize)
    requires
        i * 100 <= usize::MAX,
    ensures
        total < 10 ==> progress(i, total) is None,
        total >= 10 ==> (progress(i, total) is Some <==> i as int % (total as int / 10) == 0),
        progress(i, total) matches Some(percent) ==> percent == i * 100 / total as int,
{
    if total >= 10 {
        assert(0 <= i * 100 / total as int <= i * 100) by (nonlinear_arith)
            requires
                total >= 10,
        ;
    }
}

} // verus!
