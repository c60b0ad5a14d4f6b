//! The mathematical model of the bucket array: which abstract keys it holds,
//! the map it denotes, how many entries it stores, and the bucket-major
//! sequence of its entries (the order in which an iterator walks them).

use vstd::prelude::*;
use vstd::seq_lib::group_seq_properties;

verus! {

/// The entry stored at bucket `b`, position `i`.
pub open spec fn entry_at<K, V>(bs: Seq<Vec<(K, V)>>, b: int, i: int) -> (K, V) {
    bs[b]@[i]
}

/// `(b, i)` addresses an entry of the bucket array.
pub open spec fn valid_pos<K, V>(bs: Seq<Vec<(K, V)>>, b: int, i: int) -> bool {
    0 <= b < bs.len() && 0 <= i < bs[b]@.len()
}

/// Some bucket holds an entry whose key has abstract value `k`.
pub open spec fn has_key<K: View, V>(bs: Seq<Vec<(K, V)>>, k: <K as View>::V) -> bool {
    exists|b: int, i: int| valid_pos(bs, b, i) && (#[trigger] entry_at(bs, b, i)).0@ == k
}

/// The value stored under abstract key `k` (meaningful when `has_key` holds
/// and no key occurs twice).
pub open spec fn value_of<K: View, V>(bs: Seq<Vec<(K, V)>>, k: <K as View>::V) -> V {
    let (b, i) = choose|b: int, i: int|
        valid_pos(bs, b, i) && (#[trigger] entry_at(bs, b, i)).0@ == k;
    entry_at(bs, b, i).1
}

/// The bucket array as a mathematical map from abstract keys to values.
pub open spec fn map_of<K: View, V>(bs: Seq<Vec<(K, V)>>) -> Map<<K as View>::V, V> {
    Map::new(|k: <K as View>::V| has_key(bs, k), |k: <K as View>::V| value_of(bs, k))
}

/// No abstract key occurs at two distinct positions of the bucket array.
pub open spec fn keys_distinct<K: View, V>(bs: Seq<Vec<(K, V)>>) -> bool {
    forall|b1: int, i1: int, b2: int, i2: int|
        valid_pos(bs, b1, i1) && valid_pos(bs, b2, i2)
            && (#[trigger] entry_at(bs, b1, i1)).0@ == (#[trigger] entry_at(bs, b2, i2)).0@
            ==> b1 == b2 && i1 == i2
}

/// The number of entries stored across all buckets.
pub open spec fn total_len<K, V>(bs: Seq<Vec<(K, V)>>) -> nat
    decreases bs.len(),
{
    if bs.len() == 0 {
        0
    } else {
        total_len(bs.drop_last()) + bs.last()@.len()
    }
}

/// All entries in bucket-major order, insertion order within each bucket.
pub open spec fn flat<K, V>(bs: Seq<Vec<(K, V)>>) -> Seq<(K, V)>
    decreases bs.len(),
{
    if bs.len() == 0 {
        Seq::empty()
    } else {
        flat(bs.drop_last()) + bs.last()@
    }
}

/// The number of entries stored in buckets `0 .. b`.
pub open spec fn flat_prefix_len<K, V>(bs: Seq<Vec<(K, V)>>, b: int) -> int
    decreases b,
{
    if b <= 0 {
        0
    } else {
        flat_prefix_len(bs, b - 1) + bs[b - 1]@.len()
    }
}

/// Replacing one bucket changes the entry count by the difference of the two
/// bucket lengths.
pub proof fn lemma_total_len_update<K, V>(bs: Seq<Vec<(K, V)>>, b: int, nv: Vec<(K, V)>)
    requires
        0 <= b < bs.len(),
    ensures
        total_len(bs.update(b, nv)) + bs[b]@.len() == total_len(bs) + nv@.len(),
    decreases bs.len(),
{
    let bs2 = bs.update(b, nv);
    if b == bs.len() - 1 {
        assert(bs2.drop_last() =~= bs.drop_last());
    } else {
        assert(bs2.drop_last() =~= bs.drop_last().update(b, nv));
        lemma_total_len_update(bs.drop_last(), b, nv);
    }
}

/// The bucket-major sequence holds exactly as many entries as the buckets do.
pub proof fn lemma_flat_len<K, V>(bs: Seq<Vec<(K, V)>>)
    ensures
        flat(bs).len() == total_len(bs),
    decreases bs.len(),
{
    if bs.len() > 0 {
        lemma_flat_len(bs.drop_last());
    }
}

/// Counting the entries of every bucket counts all entries.
pub proof fn lemma_flat_prefix_total<K, V>(bs: Seq<Vec<(K, V)>>)
    ensures
        flat_prefix_len(bs, bs.len() as int) == flat(bs).len(),
    decreases bs.len(),
{
    if bs.len() > 0 {
        lemma_flat_prefix_total(bs.drop_last());
        lemma_flat_prefix_len_agree(bs.drop_last(), bs, bs.len() - 1);
    }
}

/// Prefix counts agree on two arrays that agree on the first `b` buckets.
pub proof fn lemma_flat_prefix_len_agree<K, V>(
    bs1: Seq<Vec<(K, V)>>,
    bs2: Seq<Vec<(K, V)>>,
    b: int,
)
    requires
        b <= bs1.len(),
        b <= bs2.len(),
        forall|j: int| 0 <= j < b ==> bs1[j] == bs2[j],
    ensures
        flat_prefix_len(bs1, b) == flat_prefix_len(bs2, b),
    decreases b,
{
    if b > 0 {
        lemma_flat_prefix_len_agree(bs1, bs2, b - 1);
    }
}

/// Prefix counts grow with the prefix, by the length of each bucket added.
pub proof fn lemma_flat_prefix_len_mono<K, V>(bs: Seq<Vec<(K, V)>>, b1: int, b2: int)
    requires
        0 <= b1 <= b2 <= bs.len(),
    ensures
        flat_prefix_len(bs, b1) <= flat_prefix_len(bs, b2),
    decreases b2 - b1,
{
    if b1 < b2 {
        lemma_flat_prefix_len_mono(bs, b1, b2 - 1);
    }
}

/// The entry at `(b, i)` stands at position `flat_prefix_len(bs, b) + i` of
/// the bucket-major sequence.
pub proof fn lemma_flat_index<K, V>(bs: Seq<Vec<(K, V)>>, b: int, i: int)
    requires
        valid_pos(bs, b, i),
    ensures
        0 <= flat_prefix_len(bs, b) + i < flat(bs).len(),
        flat(bs)[flat_prefix_len(bs, b) + i] == entry_at(bs, b, i),
    decreases bs.len(),
{
    lemma_flat_prefix_len_mono(bs, 0, b);
    lemma_flat_prefix_total(bs);
    lemma_flat_prefix_len_mono(bs, b + 1, bs.len() as int);
    if b == bs.len() - 1 {
        lemma_flat_prefix_total(bs.drop_last());
        lemma_flat_prefix_len_agree(bs.drop_last(), bs, b);
    } else {
        lemma_flat_index(bs.drop_last(), b, i);
        lemma_flat_prefix_len_agree(bs.drop_last(), bs, b);
    }
}

/// Every position of the bucket-major sequence comes from an entry of some
/// bucket.
pub proof fn lemma_flat_inverse<K, V>(bs: Seq<Vec<(K, V)>>, j: int)
    requires
        0 <= j < flat(bs).len(),
    ensures
        exists|b: int, i: int|
            valid_pos(bs, b, i) && j == flat_prefix_len(bs, b) + i && flat(bs)[j] == (
            #[trigger] entry_at(bs, b, i)),
    decreases bs.len(),
{
    lemma_flat_prefix_total(bs.drop_last());
    if j < flat(bs.drop_last()).len() {
        lemma_flat_inverse(bs.drop_last(), j);
        let (b, i) = choose|b: int, i: int|
            valid_pos(bs.drop_last(), b, i) && j == flat_prefix_len(bs.drop_last(), b) + i
                && flat(bs.drop_last())[j] == (#[trigger] entry_at(bs.drop_last(), b, i));
        lemma_flat_prefix_len_agree(bs.drop_last(), bs, b);
        assert(valid_pos(bs, b, i) && j == flat_prefix_len(bs, b) + i && flat(bs)[j] == entry_at(
            bs,
            b,
            i,
        ));
    } else {
        let b = bs.len() - 1;
        let i = j - flat(bs.drop_last()).len();
        lemma_flat_prefix_len_agree(bs.drop_last(), bs, b);
        assert(valid_pos(bs, b, i) && j == flat_prefix_len(bs, b) + i && flat(bs)[j] == entry_at(
            bs,
            b,
            i,
        ));
    }
}

/// An entry of the bucket array is an entry of the map it denotes: the key is
/// present and maps to that entry's value.
pub proof fn lemma_found<K: View, V>(bs: Seq<Vec<(K, V)>>, b: int, i: int)
    requires
        keys_distinct(bs),
        valid_pos(bs, b, i),
    ensures
        has_key(bs, entry_at(bs, b, i).0@),
        map_of(bs).contains_key(entry_at(bs, b, i).0@),
        map_of(bs)[entry_at(bs, b, i).0@] == entry_at(bs, b, i).1,
{
    let k = entry_at(bs, b, i).0@;
    assert(valid_pos(bs, b, i) && entry_at(bs, b, i).0@ == k);
    let (b2, i2) = choose|b2: int, i2: int|
        valid_pos(bs, b2, i2) && (#[trigger] entry_at(bs, b2, i2)).0@ == k;
    assert(b2 == b && i2 == i);
}

/// A bucket array whose keys are distinct denotes a map with one entry per
/// stored pair: its domain is finite and its size is the entry count.
pub proof fn lemma_map_of_len<K: View, V>(bs: Seq<Vec<(K, V)>>)
    requires
        keys_distinct(bs),
    ensures
        map_of(bs).dom().finite(),
        map_of(bs).len() == total_len(bs),
{
    broadcast use group_seq_properties;
    broadcast use vstd::seq_lib::seq_to_set_is_finite;

    let keys = flat(bs).map_values(|e: (K, V)| e.0@);
    lemma_flat_len(bs);
    assert(keys.no_duplicates()) by {
        assert forall|j1: int, j2: int|
            0 <= j1 < keys.len() && 0 <= j2 < keys.len() && j1 != j2 implies keys[j1]
            != keys[j2] by {
            lemma_flat_inverse(bs, j1);
            lemma_flat_inverse(bs, j2);
            let (b1, i1) = choose|b: int, i: int|
                valid_pos(bs, b, i) && j1 == flat_prefix_len(bs, b) + i && flat(bs)[j1] == (
                #[trigger] entry_at(bs, b, i));
            let (b2, i2) = choose|b: int, i: int|
                valid_pos(bs, b, i) && j2 == flat_prefix_len(bs, b) + i && flat(bs)[j2] == (
                #[trigger] entry_at(bs, b, i));
            assert((b1, i1) != (b2, i2));
            assert(entry_at(bs, b1, i1).0@ != entry_at(bs, b2, i2).0@);
        }
    }
    assert(map_of(bs).dom() =~= keys.to_set()) by {
        assert forall|k: <K as View>::V| map_of(bs).dom().contains(k) implies keys.to_set()
            .contains(k) by {
            let (b, i) = choose|b: int, i: int|
                valid_pos(bs, b, i) && (#[trigger] entry_at(bs, b, i)).0@ == k;
            lemma_flat_index(bs, b, i);
            assert(keys[flat_prefix_len(bs, b) + i] == k);
        }
        assert forall|k: <K as View>::V| keys.to_set().contains(k) implies map_of(bs)
            .dom()
            .contains(k) by {
            let j = choose|j: int| 0 <= j < keys.len() && keys[j] == k;
            lemma_flat_inverse(bs, j);
        }
    }
    keys.unique_seq_to_set();
}

} // verus!
