//! The order in which the tree keeps its data: by value, and among equal
//! values the one that was inserted later first.

use crate::order::is_lt;
use crate::order::is_same;
use crate::order::le;
use crate::order::lemma_le_transitive;
use crate::order::lemma_lt_transitive;
use crate::order::lemma_trichotomy;
use crate::order::lt;
use crate::order::total_order;
use vstd::multiset::Multiset;
use vstd::prelude::*;

verus! {

/// The datum with index `a` comes before the datum with index `b`: it is
/// smaller, or it is the same value and has the larger index.
pub open spec fn key_lt<D: Ord>(data: Seq<D>, a: usize, b: usize) -> bool {
    lt(data[a as int], data[b as int]) || (data[a as int] == data[b as int] && a > b)
}

/// `keys` are indices into `data`, each strictly before the next in the order
/// of keys.
pub open spec fn ordered<D: Ord>(data: Seq<D>, keys: Seq<usize>) -> bool {
    &&& forall|i: int| 0 <= i < keys.len() ==> (#[trigger] keys[i]) < data.len()
    &&& forall|i: int, j: int| 0 <= i < j < keys.len() ==> key_lt(data, keys[i], keys[j])
}

/// The data that `keys` index, in the same order.
pub open spec fn values<D>(data: Seq<D>, keys: Seq<usize>) -> Seq<D> {
    Seq::new(keys.len(), |i: int| data[keys[i] as int])
}

/// The order of keys is strict and total.
pub proof fn lemma_key_order<D: Ord>(data: Seq<D>, a: usize, b: usize)
    requires
        total_order::<D>(),
    ensures
        !(key_lt(data, a, b) && key_lt(data, b, a)),
        a != b ==> key_lt(data, a, b) || key_lt(data, b, a),
        !key_lt(data, a, a),
        key_lt(data, a, b) ==> le(data[a as int], data[b as int]),
{
    lemma_trichotomy(data[a as int], data[b as int]);
    lemma_trichotomy(data[a as int], data[a as int]);
}

/// The order of keys is transitive.
pub proof fn lemma_key_lt_transitive<D: Ord>(data: Seq<D>, a: usize, b: usize, c: usize)
    requires
        total_order::<D>(),
        key_lt(data, a, b),
        key_lt(data, b, c),
    ensures
        key_lt(data, a, c),
{
    let (x, y, z) = (data[a as int], data[b as int], data[c as int]);
    if lt(x, y) && lt(y, z) {
        lemma_lt_transitive(x, y, z);
    }
}

/// No key occurs twice in an ordered sequence.
pub proof fn lemma_ordered_distinct<D: Ord>(data: Seq<D>, keys: Seq<usize>)
    requires
        total_order::<D>(),
        ordered(data, keys),
    ensures
        keys.no_duplicates(),
{
    assert forall|i: int, j: int| 0 <= i < keys.len() && 0 <= j < keys.len() && i != j implies keys[i]
        != keys[j] by {
        lemma_key_order(data, keys[i], keys[j]);
        if i < j {
            assert(key_lt(data, keys[i], keys[j]));
        } else {
            assert(key_lt(data, keys[j], keys[i]));
        }
    }
}

/// A stretch of an ordered sequence is ordered.
pub proof fn lemma_ordered_part<D: Ord>(data: Seq<D>, a: Seq<usize>, m: Seq<usize>, b: Seq<usize>)
    requires
        ordered(data, a + m + b),
    ensures
        ordered(data, m),
        ordered(data, a + b),
{
    let all = a + m + b;
    let n = a.len() as int;
    assert forall|i: int| 0 <= i < m.len() implies (#[trigger] m[i]) < data.len() by {
        assert(all[n + i] == m[i]);
    }
    assert forall|i: int, j: int| 0 <= i < j < m.len() implies key_lt(data, m[i], m[j]) by {
        assert(all[n + i] == m[i] && all[n + j] == m[j]);
    }
    let rest = a + b;
    assert forall|i: int| 0 <= i < rest.len() implies (#[trigger] rest[i]) < data.len() by {
        if i < n {
            assert(all[i] == rest[i]);
        } else {
            assert(all[i + m.len()] == rest[i]);
        }
    }
    assert forall|i: int, j: int| 0 <= i < j < rest.len() implies key_lt(data, rest[i], rest[j]) by {
        let p = if i < n {
            i
        } else {
            i + m.len()
        };
        let q = if j < n {
            j
        } else {
            j + m.len()
        };
        assert(all[p] == rest[i] && all[q] == rest[j]);
    }
}

/// An ordered sequence stays ordered when data are added at the end.
pub proof fn lemma_ordered_extend<D: Ord>(data: Seq<D>, more: Seq<D>, keys: Seq<usize>)
    requires
        ordered(data, keys),
        data.len() <= more.len(),
        forall|i: int| 0 <= i < data.len() ==> more[i] == data[i],
    ensures
        ordered(more, keys),
        values(more, keys) =~= values(data, keys),
{
    assert forall|i: int, j: int| 0 <= i < j < keys.len() implies key_lt(more, keys[i], keys[j]) by {
        assert(key_lt(data, keys[i], keys[j]));
    }
}

/// The data of an ordered sequence of keys never decrease.
pub proof fn lemma_ordered_values<D: Ord>(data: Seq<D>, keys: Seq<usize>)
    requires
        total_order::<D>(),
        ordered(data, keys),
    ensures
        forall|i: int, j: int|
            0 <= i <= j < keys.len() ==> le(
                #[trigger] values(data, keys)[i],
                #[trigger] values(data, keys)[j],
            ),
{
    assert forall|i: int, j: int| 0 <= i <= j < keys.len() implies le(
        #[trigger] values(data, keys)[i],
        #[trigger] values(data, keys)[j],
    ) by {
        if i < j {
            lemma_key_order(data, keys[i], keys[j]);
        }
    }
}

/// Distinct indices below `bound` are at most `bound` many.
pub proof fn lemma_distinct_count(keys: Seq<usize>, bound: nat)
    requires
        keys.no_duplicates(),
        forall|i: int| 0 <= i < keys.len() ==> (#[trigger] keys[i]) < bound,
    ensures
        keys.len() <= bound,
    decreases bound,
{
    if keys.len() > 0 {
        if bound == 0 {
            assert(keys[0] < bound);
        } else {
            let top = (bound - 1) as usize;
            if keys.contains(top) {
                let i = choose|i: int| 0 <= i < keys.len() && keys[i] == top;
                let rest = keys.remove(i);
                assert forall|j: int| 0 <= j < rest.len() implies (#[trigger] rest[j]) < bound
                    - 1 by {
                    let q = if j < i {
                        j
                    } else {
                        j + 1
                    };
                    assert(rest[j] == keys[q]);
                    assert(keys[q] < bound);
                }
                assert forall|a: int, b: int|
                    0 <= a < rest.len() && 0 <= b < rest.len() && a != b implies rest[a]
                    != rest[b] by {
                    let p = if a < i {
                        a
                    } else {
                        a + 1
                    };
                    let q = if b < i {
                        b
                    } else {
                        b + 1
                    };
                    assert(rest[a] == keys[p] && rest[b] == keys[q]);
                }
                lemma_distinct_count(rest, (bound - 1) as nat);
            } else {
                assert forall|j: int| 0 <= j < keys.len() implies (#[trigger] keys[j]) < bound
                    - 1 by {
                    assert(keys[j] < bound);
                    assert(keys.contains(keys[j]));
                }
                lemma_distinct_count(keys, (bound - 1) as nat);
            }
        }
    }
}

/// Whether the datum with index `a` comes before the datum with index `b` in
/// the order of keys.
pub fn key_before<D: Ord>(data: &Vec<D>, a: usize, b: usize) -> (r: bool)
    requires
        total_order::<D>(),
        a < data@.len(),
        b < data@.len(),
    ensures
        r == key_lt(data@, a, b),
{
    if is_lt(&data[a], &data[b]) {
        true
    } else if is_same(&data[a], &data[b]) {
        a > b
    } else {
        proof {
            lemma_trichotomy(data@[a as int], data@[b as int]);
        }
        false
    }
}

/// A key that is put where it belongs leaves the sequence ordered, and its
/// datum is added to the data at the same place.
pub proof fn lemma_ordered_insert<D: Ord>(data: Seq<D>, keys: Seq<usize>, pos: int, key: usize)
    requires
        ordered(data, keys),
        0 <= pos <= keys.len(),
        key < data.len(),
        forall|j: int| 0 <= j < pos ==> key_lt(data, #[trigger] keys[j], key),
        forall|j: int| pos <= j < keys.len() ==> key_lt(data, key, #[trigger] keys[j]),
    ensures
        ordered(data, keys.insert(pos, key)),
        values(data, keys.insert(pos, key)) =~= values(data, keys).insert(pos, data[key as int]),
{
    let more = keys.insert(pos, key);
    assert forall|i: int| 0 <= i < more.len() implies (#[trigger] more[i]) < data.len() by {
        if i < pos {
            assert(more[i] == keys[i]);
        } else if i > pos {
            assert(more[i] == keys[i - 1]);
        }
    }
    assert forall|i: int, j: int| 0 <= i < j < more.len() implies key_lt(data, more[i], more[j]) by {
        let a = if i < pos {
            i
        } else {
            i - 1
        };
        let b = if j < pos {
            j
        } else {
            j - 1
        };
        if i != pos && j != pos {
            assert(more[i] == keys[a] && more[j] == keys[b]);
        } else if i == pos {
            assert(more[j] == keys[b]);
        } else {
            assert(more[i] == keys[a]);
        }
    }
}

/// A sequence from which a key is taken stays ordered, and the key's datum
/// is taken from the data at the same place.
pub proof fn lemma_ordered_remove<D: Ord>(data: Seq<D>, keys: Seq<usize>, pos: int)
    requires
        ordered(data, keys),
        0 <= pos < keys.len(),
    ensures
        ordered(data, keys.remove(pos)),
        values(data, keys.remove(pos)) =~= values(data, keys).remove(pos),
{
    let less = keys.remove(pos);
    assert forall|i: int| 0 <= i < less.len() implies (#[trigger] less[i]) < data.len() by {
        if i < pos {
            assert(less[i] == keys[i]);
        } else {
            assert(less[i] == keys[i + 1]);
        }
    }
    assert forall|i: int, j: int| 0 <= i < j < less.len() implies key_lt(data, less[i], less[j]) by {
        let a = if i < pos {
            i
        } else {
            i + 1
        };
        let b = if j < pos {
            j
        } else {
            j + 1
        };
        assert(less[i] == keys[a] && less[j] == keys[b]);
    }
}

/// The data at a sequence of keys with one key put in are the data at the
/// sequence with the key's datum put in at the same place.
pub proof fn lemma_values_insert<D>(data: Seq<D>, keys: Seq<usize>, pos: int, key: usize)
    requires
        0 <= pos <= keys.len(),
    ensures
        values(data, keys.insert(pos, key)) =~= values(data, keys).insert(pos, data[key as int]),
{
}

/// The data at a sequence of keys with one key taken out are the data at the
/// sequence with the datum at that place taken out.
pub proof fn lemma_values_remove<D>(data: Seq<D>, keys: Seq<usize>, pos: int)
    requires
        0 <= pos < keys.len(),
    ensures
        values(data, keys.remove(pos)) =~= values(data, keys).remove(pos),
{
}

/// Without keys there are no data.
pub proof fn lemma_empty_contents<D>(data: Seq<D>, keys: Seq<usize>)
    requires
        keys.len() == 0,
    ensures
        values(data, keys).to_multiset() =~= Multiset::<D>::empty(),
{
    vstd::seq_lib::to_multiset_len(values(data, keys));
    vstd::multiset::lemma_multiset_empty_len(values(data, keys).to_multiset());
}

/// The data of a version are the values at its keys.
pub proof fn lemma_contents<D: Ord>(data: Seq<D>, keys: Seq<usize>)
    ensures
        forall|e: D| #[trigger]
            values(data, keys).to_multiset().contains(e) <==> exists|j: int|
                0 <= j < keys.len() && values(data, keys)[j] == e,
{
    broadcast use vstd::seq_lib::to_multiset_contains;

    assert forall|e: D| #[trigger]
        values(data, keys).to_multiset().contains(e) <==> exists|j: int|
            0 <= j < keys.len() && values(data, keys)[j] == e by {
        assert(values(data, keys).to_multiset().contains(e) <==> values(data, keys).contains(e));
    }
}

/// In an ordered sequence of keys, the datum of an earlier key is at most the
/// datum of a later one.
pub proof fn lemma_ordered_at<D: Ord>(data: Seq<D>, keys: Seq<usize>, i: int, j: int)
    requires
        total_order::<D>(),
        ordered(data, keys),
        0 <= i <= j < keys.len(),
    ensures
        le(data[keys[i] as int], data[keys[j] as int]),
{
    lemma_ordered_values(data, keys);
    assert(values(data, keys)[i] == data[keys[i] as int]);
    assert(values(data, keys)[j] == data[keys[j] as int]);
}

/// What is greater than `item` at one key of an ordered sequence is greater
/// at every later key.
pub proof fn lemma_key_after<D: Ord>(data: Seq<D>, keys: Seq<usize>, p: int, j: int, item: D)
    requires
        total_order::<D>(),
        ordered(data, keys),
        0 <= p <= j < keys.len(),
        lt(item, data[keys[p] as int]),
    ensures
        lt(item, data[keys[j] as int]),
{
    lemma_ordered_at(data, keys, p, j);
    if lt(data[keys[p] as int], data[keys[j] as int]) {
        lemma_lt_transitive(item, data[keys[p] as int], data[keys[j] as int]);
    }
}

/// What is at most `item` at one key of an ordered sequence is at most `item`
/// at every earlier key.
pub proof fn lemma_key_before<D: Ord>(data: Seq<D>, keys: Seq<usize>, j: int, p: int, item: D)
    requires
        total_order::<D>(),
        ordered(data, keys),
        0 <= j <= p < keys.len(),
        le(data[keys[p] as int], item),
    ensures
        le(data[keys[j] as int], item),
{
    lemma_ordered_at(data, keys, j, p);
    lemma_le_transitive(data[keys[j] as int], data[keys[p] as int], item);
}

} // verus!
