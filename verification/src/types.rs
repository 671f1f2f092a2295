//! Key-value pairs and node identifiers.

use vstd::prelude::*;
use vstd::string::*;

verus! {

/// A key with the value to store under it.
#[derive(Debug)]
pub struct KVPair<K, V> where V: Clone, K: Clone {
    pub key: K,
    pub val: V,
}

impl<K: Clone, V: Clone> KVPair<K, V> {
    /// `other` holds clones of this pair's key and value.
    pub open spec fn cloned_into(self, other: Self) -> bool {
        cloned(self.key, other.key) && cloned(self.val, other.val)
    }
}

impl<K: Clone, V: Clone> Clone for KVPair<K, V> {
    fn clone(&self) -> (copy: Self)
        ensures
            self.cloned_into(copy),
    {
        KVPair { key: self.key.clone(), val: self.val.clone() }
    }
}

impl<K: Copy, V: Copy> Copy for KVPair<K, V> {

}

/// `copies` holds clones of `pairs`, in the same order.
pub open spec fn pairs_cloned<V: Clone>(
    pairs: Seq<KVPair<u64, V>>,
    copies: Seq<KVPair<u64, V>>,
) -> bool {
    &&& copies.len() == pairs.len()
    &&& forall|i: int|
        #![trigger copies[i]]
        #![trigger pairs[i]]
        0 <= i < pairs.len() ==> copies[i].key == pairs[i].key && cloned(
            pairs[i].val,
            copies[i].val,
        )
}

/// Clone a list of pairs.
pub fn clone_pairs<V: Clone>(pairs: &Vec<KVPair<u64, V>>) -> (copies: Vec<KVPair<u64, V>>)
    ensures
        pairs_cloned(pairs@, copies@),
{
    let mut copies: Vec<KVPair<u64, V>> = Vec::new();
    let mut i: usize = 0;
    while i < pairs.len()
        invariant
            i <= pairs@.len(),
            pairs_cloned(pairs@.take(i as int), copies@),
        decreases pairs@.len() - i,
    {
        copies.push(KVPair { key: pairs[i].key, val: pairs[i].val.clone() });
        assert(forall|j: int| 0 <= j < i ==> pairs@.take(i as int)[j] == pairs@[j]);
        i += 1;
    }
    assert(pairs@.take(i as int) =~= pairs@);
    copies
}

/// Identifies a node: the machine it runs on and a number.
#[derive(Debug, Eq, PartialOrd, Hash)]
pub struct NodeId {
    sunlab_name: String,
    id: usize,
}

impl View for NodeId {
    type V = (Seq<char>, usize);

    closed spec fn view(&self) -> (Seq<char>, usize) {
        (self.sunlab_name@, self.id)
    }
}

impl PartialEq for NodeId {
    fn eq(&self, other: &Self) -> (equal: bool) {
        self.sunlab_name == other.sunlab_name && self.id == other.id
    }
}

impl vstd::std_specs::cmp::PartialEqSpecImpl for NodeId {
    open spec fn obeys_eq_spec() -> bool {
        true
    }

    open spec fn eq_spec(&self, other: &Self) -> bool {
        self@ == other@
    }
}

impl Clone for NodeId {
    fn clone(&self) -> (copy: Self)
        ensures
            copy@ == self@,
    {
        NodeId { sunlab_name: self.sunlab_name.clone(), id: self.id }
    }
}

/// The character of a decimal digit.
pub open spec fn digit_char(d: nat) -> char {
    (48 + d) as char
}

/// A number's decimal digits, most significant first, without leading zeros.
pub open spec fn decimal(n: nat) -> Seq<char>
    decreases n,
{
    if n < 10 {
        seq![digit_char(n)]
    } else {
        decimal(n / 10).push(digit_char(n % 10))
    }
}

fn digit_str(d: usize) -> (s: &'static str)
    requires
        d < 10,
    ensures
        s@ == seq![digit_char(d as nat)],
{
    proof {
        reveal_strlit("0");
        reveal_strlit("1");
        reveal_strlit("2");
        reveal_strlit("3");
        reveal_strlit("4");
        reveal_strlit("5");
        reveal_strlit("6");
        reveal_strlit("7");
        reveal_strlit("8");
        reveal_strlit("9");
    }
    let s = match d {
        0 => "0",
        1 => "1",
        2 => "2",
        3 => "3",
        4 => "4",
        5 => "5",
        6 => "6",
        7 => "7",
        8 => "8",
        _ => "9",
    };
    assert(s@ =~= seq![digit_char(d as nat)]);
    s
}

/// Write a number in decimal.
pub fn decimal_string(n: usize) -> (s: String)
    ensures
        s@ == decimal(n as nat),
    decreases n,
{
    if n < 10 {
        digit_str(n).to_owned()
    } else {
        let mut s = decimal_string(n / 10);
        s.append(digit_str(n % 10));
        assert(s@ =~= decimal(n as nat));
        s
    }
}

/// How a node is written down: the machine's name, an underscore, its number.
pub open spec fn written(name: (Seq<char>, usize)) -> Seq<char> {
    name.0 + seq!['_'] + decimal(name.1 as nat)
}

impl NodeId {
    pub fn new(sunlab_name: String, id: usize) -> (node: NodeId)
        ensures
            node@ == (sunlab_name@, id),
    {
        NodeId { sunlab_name, id }
    }

    /// The name of the machine.
    pub fn sunlab_name(&self) -> (name: &String)
        ensures
            name@ == self@.0,
    {
        &self.sunlab_name
    }

    /// The node's number.
    pub fn id(&self) -> (id: usize)
        ensures
            id == self@.1,
    {
        self.id
    }

    /// The machine's name, an underscore, and the node's number in decimal.
    pub fn to_string(&self) -> (text: String)
        ensures
            text@ == self@.0 + seq!['_'] + decimal(self@.1 as nat),
            text@ == written(self@),
    {
        let mut text = self.sunlab_name.clone();
        text.append("_");
        let number = decimal_string(self.id);
        text.append(number.as_str());
        proof {
            reveal_strlit("_");
            assert("_"@ =~= seq!['_']);
        }
        text
    }
}

/// The number that decimal digits stand for.
pub open spec fn digits_value(digits: Seq<char>) -> int
    decreases digits.len(),
{
    if digits.len() == 0 {
        0
    } else {
        10 * digits_value(digits.drop_last()) + (digits.last() as int - '0' as int)
    }
}

/// A number is written with the digits 0 to 9, without a leading zero unless it
/// is zero, and reading them gives it back.
pub proof fn law_decimal_reads_back(n: nat, i: int)
    ensures
        digits_value(decimal(n)) == n,
        decimal(n).len() >= 1,
        0 <= i < decimal(n).len() ==> '0' <= decimal(n)[i] <= '9',
        n > 0 ==> decimal(n)[0] != '0',
    decreases n,
{
    reveal_with_fuel(digits_value, 2);
    if n < 10 {
        assert(decimal(n).drop_last() =~= Seq::empty());
    } else {
        let rest = decimal(n / 10);
        law_decimal_reads_back(n / 10, i);
        law_decimal_reads_back(n / 10, 0);
        assert(decimal(n).drop_last() =~= rest);
    }
}

/// A clone of a pair, and of a list of pairs, has the same key, or a clone of
/// it, and a clone of the value, in the same place.
pub proof fn law_clones_of_pairs<V: Clone>(
    pair: KVPair<u64, V>,
    copy: KVPair<u64, V>,
    pairs: Seq<KVPair<u64, V>>,
    copies: Seq<KVPair<u64, V>>,
    i: int,
)
    ensures
        pair.cloned_into(copy) <==> cloned(pair.key, copy.key) && cloned(pair.val, copy.val),
        pairs_cloned(pairs, copies) ==> copies.len() == pairs.len(),
        pairs_cloned(pairs, copies) && 0 <= i < pairs.len() ==> copies[i].key == pairs[i].key
            && cloned(pairs[i].val, copies[i].val),
{
}

/// What is written down of a node starts with the machine's name, goes on with an
/// underscore, and ends with digits that stand for its number.
pub proof fn law_written_names_read_back(name: (Seq<char>, usize))
    ensures
        written(name).len() > name.0.len() + 1,
        written(name).take(name.0.len() as int) == name.0,
        written(name)[name.0.len() as int] == '_',
        digits_value(written(name).skip(name.0.len() as int + 1)) == name.1,
{
    law_decimal_reads_back(name.1 as nat, 0);
    assert(written(name).take(name.0.len() as int) =~= name.0);
    assert(written(name).skip(name.0.len() as int + 1) =~= decimal(name.1 as nat));
}

} // verus!
