//! Orders items by score, highest first.
//!
//! Scores are IEEE-754 single-precision values. They reach this module as
//! their bit patterns and are compared through an order key: an unsigned
//! integer that sorts the way the scores do (negative zero counts as zero).
//! Items with equal keys keep their relative order from the input.

use vstd::prelude::*;

verus! {

/// The order key of a score given by its IEEE-754 single-precision bit
/// pattern. Non-negative scores (sign bit clear) map above every negative
/// one, and within each sign the key grows with the score's value; negative
/// zero maps to the key of positive zero.
pub open spec fn score_key(bits: u32) -> u32 {
    if bits == 0x8000_0000u32 {
        0x8000_0000u32
    } else if bits >= 0x8000_0000u32 {
        (0xFFFF_FFFFu32 - bits) as u32
    } else {
        (bits + 0x8000_0000u32) as u32
    }
}

/// Computes [`score_key`].
pub fn score_key_of(bits: u32) -> (k: u32)
    ensures
        k == score_key(bits),
{
    if bits == 0x8000_0000u32 {
        0x8000_0000u32
    } else if bits >= 0x8000_0000u32 {
        0xFFFF_FFFFu32 - bits
    } else {
        bits + 0x8000_0000u32
    }
}

/// Item `a` comes before item `b` when its key is larger, or when the keys
/// are equal and `a` came first.
pub open spec fn ranks_before(keys: Seq<u32>, a: int, b: int) -> bool {
    keys[a] > keys[b] || (keys[a] == keys[b] && a < b)
}

/// `order` lists every index of `keys` exactly once, highest key first,
/// equal keys in their input order.
pub open spec fn is_descending_order(keys: Seq<u32>, order: Seq<usize>) -> bool {
    &&& order.len() == keys.len()
    &&& forall|i: int| 0 <= i < order.len() ==> (#[trigger] order[i]) < keys.len()
    &&& forall|i: int, j: int|
        0 <= i < j < order.len() ==> ranks_before(keys, #[trigger] order[i] as int, #[trigger] order[j] as int)
}

/// The keys of a list of score bit patterns.
pub open spec fn keys_of(score_bits: Seq<u32>) -> Seq<u32> {
    score_bits.map_values(|b: u32| score_key(b))
}

/// The order of `keys`' indices by key, highest first; equal keys keep
/// their input order (a stable descending sort).
pub fn order_by_key_desc(keys: &Vec<u32>) -> (order: Vec<usize>)
    ensures
        is_descending_order(keys@, order@),
{
    let n: usize = keys.len();
    let mut order: Vec<usize> = Vec::with_capacity(n);
    let mut i: usize = 0;
    while i < n
        invariant
            i <= n,
            n == keys@.len(),
            order@.len() == i,
            forall|x: int| 0 <= x < order@.len() ==> (#[trigger] order@[x]) < i,
            forall|x: int, y: int|
                0 <= x < y < order@.len() ==> ranks_before(keys@, #[trigger] order@[x] as int, #[trigger] order@[y] as int),
        decreases n - i,
    {
        let key: u32 = keys[i];
        let mut p: usize = 0;
        while p < order.len() && keys[order[p]] >= key
            invariant
                p <= order@.len(),
                order@.len() == i,
                i < n,
                n == keys@.len(),
                key == keys@[i as int],
                forall|x: int| 0 <= x < order@.len() ==> (#[trigger] order@[x]) < i,
                forall|x: int| 0 <= x < p ==> keys@[(#[trigger] order@[x]) as int] >= key,
            decreases order@.len() - p,
        {
            p = p + 1;
        }
        proof {
            if p < order@.len() {
                assert(keys@[order@[p as int] as int] < key);
                assert forall|x: int| p <= x < order@.len() implies keys@[(#[trigger] order@[x]) as int] < key by {
                    if x > p {
                        assert(ranks_before(keys@, order@[p as int] as int, order@[x] as int));
                    }
                }
            }
        }
        let ghost old_order = order@;
        order.insert(p, i);
        proof {
            assert forall|x: int| 0 <= x < order@.len() implies (#[trigger] order@[x]) < i + 1 by {
                if x < p {
                    assert(order@[x] == old_order[x]);
                } else if x > p {
                    assert(order@[x] == old_order[x - 1]);
                }
            }
            assert forall|x: int, y: int|
                0 <= x < y < order@.len() implies ranks_before(keys@, #[trigger] order@[x] as int, #[trigger] order@[y] as int) by {
                if x < p && y < p {
                    assert(order@[x] == old_order[x] && order@[y] == old_order[y]);
                } else if x < p && y == p {
                    assert(order@[x] == old_order[x]);
                    assert(keys@[old_order[x] as int] >= key);
                } else if x < p && y > p {
                    assert(order@[x] == old_order[x] && order@[y] == old_order[y - 1]);
                } else if x == p {
                    assert(order@[y] == old_order[y - 1]);
                    assert(keys@[old_order[y - 1] as int] < key);
                } else {
                    assert(order@[x] == old_order[x - 1] && order@[y] == old_order[y - 1]);
                }
            }
        }
        i = i + 1;
    }
    order
}

/// The order of a list of scores, given by their bit patterns: highest score
/// first, equal scores in their input order.
pub fn order_by_score_desc(score_bits: &Vec<u32>) -> (order: Vec<usize>)
    ensures
        is_descending_order(keys_of(score_bits@), order@),
{
    let mut keys: Vec<u32> = Vec::with_capacity(score_bits.len());
    let mut i: usize = 0;
    while i < score_bits.len()
        invariant
            i <= score_bits@.len(),
            keys@ =~= keys_of(score_bits@.take(i as int)),
        decreases score_bits@.len() - i,
    {
        let k: u32 = score_key_of(score_bits[i]);
        keys.push(k);
        i = i + 1;
        assert(keys@ =~= keys_of(score_bits@.take(i as int)));
    }
    assert(score_bits@.take(i as int) =~= score_bits@);
    order_by_key_desc(&keys)
}

/// Distinct positions of a descending order hold distinct indices.
proof fn lemma_order_distinct(keys: Seq<u32>, order: Seq<usize>, i: int, j: int)
    requires
        is_descending_order(keys, order),
        0 <= i < order.len(),
        0 <= j < order.len(),
        i != j,
    ensures
        order[i] != order[j],
{
    if i < j {
        assert(ranks_before(keys, order[i] as int, order[j] as int));
    } else {
        assert(ranks_before(keys, order[j] as int, order[i] as int));
    }
}

/// A descending order is a permutation: every index of `keys` appears in it
/// exactly once.
pub proof fn law_descending_order_is_permutation(keys: Seq<u32>, order: Seq<usize>)
    requires
        is_descending_order(keys, order),
    ensures
        forall|k: usize| k < keys.len() ==> #[trigger] order.contains(k),
        order.no_duplicates(),
{
    let n = keys.len() as int;
    let oi = order.map_values(|x: usize| x as int);
    assert forall|i: int, j: int| 0 <= i < oi.len() && 0 <= j < oi.len() && i != j implies oi[i] != oi[j] by {
        lemma_order_distinct(keys, order, i, j);
    }
    assert(oi.no_duplicates());
    oi.unique_seq_to_set();
    vstd::set_lib::lemma_int_range(0, n);
    assert forall|x: int| oi.to_set().contains(x) implies vstd::set_lib::set_int_range(0, n).contains(x) by {
        let i = choose|i: int| 0 <= i < oi.len() && oi[i] == x;
        assert(order[i] < keys.len());
    }
    assert(oi.to_set().subset_of(vstd::set_lib::set_int_range(0, n)));
    vstd::set_lib::lemma_subset_equality(oi.to_set(), vstd::set_lib::set_int_range(0, n));
    assert forall|k: usize| k < keys.len() implies #[trigger] order.contains(k) by {
        assert(vstd::set_lib::set_int_range(0, n).contains(k as int));
        assert(oi.to_set().contains(k as int));
        let i = choose|i: int| 0 <= i < oi.len() && oi[i] == k as int;
        assert(order[i] == k);
    }
    assert forall|i: int, j: int| 0 <= i < order.len() && 0 <= j < order.len() && i != j implies order[i] != order[j] by {
        lemma_order_distinct(keys, order, i, j);
    }
}

proof fn lemma_orders_agree_up_to(keys: Seq<u32>, o1: Seq<usize>, o2: Seq<usize>, i: int)
    requires
        is_descending_order(keys, o1),
        is_descending_order(keys, o2),
        0 <= i < o1.len(),
    ensures
        forall|k: int| 0 <= k <= i ==> o1[k] == o2[k],
    decreases i,
{
    if i > 0 {
        lemma_orders_agree_up_to(keys, o1, o2, i - 1);
    }
    law_descending_order_is_permutation(keys, o1);
    law_descending_order_is_permutation(keys, o2);
    let a = o1[i];
    let b = o2[i];
    if a != b {
        assert(b < keys.len() && a < keys.len());
        assert(o1.contains(b));
        assert(o2.contains(a));
        let j = choose|j: int| 0 <= j < o1.len() && o1[j] == b;
        let m = choose|m: int| 0 <= m < o2.len() && o2[m] == a;
        if j < i {
            assert(o2[j] == b);
            lemma_order_distinct(keys, o2, j, i);
        }
        if m < i {
            assert(o1[m] == a);
            lemma_order_distinct(keys, o1, m, i);
        }
        assert(j > i && m > i);
        assert(ranks_before(keys, a as int, b as int));
        assert(ranks_before(keys, b as int, a as int));
    }
}

/// The descending order of a list of keys is unique: any two orders that
/// both list every index once, highest key first and equal keys in their
/// input order, are the same order. The ranking is deterministic.
pub proof fn law_descending_order_is_unique(keys: Seq<u32>, o1: Seq<usize>, o2: Seq<usize>)
    requires
        is_descending_order(keys, o1),
        is_descending_order(keys, o2),
    ensures
        o1 == o2,
{
    if o1.len() > 0 {
        lemma_orders_agree_up_to(keys, o1, o2, o1.len() - 1);
    }
    assert(o1 =~= o2);
}

/// Scores and their keys order alike: a larger key means a larger score,
/// both zeros share one key, and each non-zero pattern has a key of its own.
pub proof fn law_score_key_is_injective_but_for_zero(a: u32, b: u32)
    ensures
        score_key(0x8000_0000u32) == score_key(0u32),
        (score_key(a) == score_key(b) && a != b) ==> (a == 0 && b == 0x8000_0000u32) || (a == 0x8000_0000u32 && b == 0),
        (a < 0x8000_0000u32 && b < 0x8000_0000u32) ==> (score_key(a) < score_key(b) <==> a < b),
        (a > 0x8000_0000u32 && b > 0x8000_0000u32) ==> (score_key(a) < score_key(b) <==> a > b),
        (a < 0x8000_0000u32 && b >= 0x8000_0000u32 && b != 0x8000_0000u32) ==> score_key(b) < score_key(a),
{
}

} // verus!
