//! The table: a bucketed open-hashing map. A key's bucket is recomputed from
//! its hash and the current bucket count at every access; collisions chain
//! within a bucket; the bucket array grows during insertion when the load
//! threshold is crossed.

use vstd::prelude::*;
use crate::buckets::{
    entry_at, flat, flat_prefix_len, has_key, keys_distinct, lemma_flat_index,
    lemma_flat_inverse, lemma_flat_len, lemma_flat_prefix_len_mono, lemma_flat_prefix_total,
    lemma_found, lemma_map_of_len, lemma_total_len_update, map_of, total_len, valid_pos,
};
use crate::key::TableKey;

verus! {

/// The bucket count established by the first growth of an empty table.
pub const INITIAL_SIZE: usize = 1;

/// Every entry sits in the bucket selected by its key's hash modulo the
/// bucket count.
spec fn entries_placed<K: TableKey, V>(bs: Seq<Vec<(K, V)>>) -> bool {
    forall|b: int, i: int|
        valid_pos(bs, b, i) ==> ((#[trigger] entry_at(bs, b, i)).0.key_hash() as int % bs.len()
            as int) == b
}

/// A key whose bucket holds no entry with its abstract value is absent from
/// the whole table.
proof fn lemma_absent<K: TableKey, V>(bs: Seq<Vec<(K, V)>>, key: K, idx: int)
    requires
        entries_placed(bs),
        bs.len() > 0,
        idx == key.key_hash() as int % bs.len() as int,
        forall|i: int| 0 <= i < bs[idx]@.len() ==> (#[trigger] bs[idx]@[i]).0@ != key@,
    ensures
        !has_key(bs, key@),
        !map_of(bs).contains_key(key@),
{
    if has_key(bs, key@) {
        let (b, i) = choose|b: int, i: int|
            valid_pos(bs, b, i) && (#[trigger] entry_at(bs, b, i)).0@ == key@;
        K::lemma_key_hash_congruent(entry_at(bs, b, i).0, key);
        assert(b == idx);
        assert(bs[idx]@[i] == entry_at(bs, idx, i));
        assert(false);
    }
}

/// A hash table with per-bucket chaining.
pub struct HashMap<K: TableKey, V> {
    buckets: Vec<Vec<(K, V)>>,
    num_items: usize,
}

impl<K: TableKey, V> View for HashMap<K, V> {
    type V = Map<<K as View>::V, V>;

    /// The table as a mathematical map from abstract keys to values.
    closed spec fn view(&self) -> Map<<K as View>::V, V> {
        map_of(self.buckets@)
    }
}

impl<K: TableKey, V> HashMap<K, V> {
    #[verifier::type_invariant]
    spec fn wf(self) -> bool {
        &&& keys_distinct(self.buckets@)
        &&& entries_placed(self.buckets@)
        &&& self.num_items == total_len(self.buckets@)
    }

    /// The current number of buckets. Zero until the first insertion.
    pub closed spec fn capacity(self) -> nat {
        self.buckets@.len()
    }

    /// Creates an empty table with zero buckets; no allocation happens until
    /// the first insertion.
    pub fn new() -> (table: Self)
        ensures
            table@ == Map::<<K as View>::V, V>::empty(),
            table.capacity() == 0,
    {
        let table = HashMap { buckets: Vec::new(), num_items: 0 };
        proof {
            assert(table@ =~= Map::<<K as View>::V, V>::empty());
        }
        table
    }

    /// The number of entries stored.
    pub fn len(&self) -> (n: usize)
        ensures
            n == self@.len(),
    {
        proof {
            use_type_invariant(self);
            lemma_map_of_len(self.buckets@);
        }
        self.num_items
    }

    /// Whether the table stores no entry.
    pub fn is_empty(&self) -> (e: bool)
        ensures
            e == (self@.len() == 0),
    {
        proof {
            use_type_invariant(self);
            lemma_map_of_len(self.buckets@);
        }
        match self.num_items {
            0 => true,
            _ => false,
        }
    }

    /// The bucket a key belongs to: its hash modulo the current bucket count.
    fn bucket_idx(&self, key: &K) -> (idx: usize)
        requires
            self.capacity() > 0,
        ensures
            idx as int == key.key_hash() as int % self.capacity() as int,
            idx < self.capacity(),
    {
        let h = key.hash_code();
        let n = self.buckets.len();
        (h % (n as u64)) as usize
    }

    /// Scans the bucket `idx` for an entry whose key equals `key`.
    fn find_in_bucket(&self, idx: usize, key: &K) -> (found: Option<usize>)
        requires
            idx < self.buckets@.len(),
        ensures
            match found {
                Some(j) => j < self.buckets@[idx as int]@.len() && self.buckets@[idx as int]@[
                    j as int].0@ == key@,
                None => forall|i: int|
                    0 <= i < self.buckets@[idx as int]@.len() ==> (#[trigger] self.buckets@[
                        idx as int]@[i]).0@ != key@,
            },
    {
        let n = self.buckets[idx].len();
        let mut j: usize = 0;
        while j < n
            invariant
                idx < self.buckets@.len(),
                n == self.buckets@[idx as int]@.len(),
                j <= n,
                forall|i: int|
                    0 <= i < j ==> (#[trigger] self.buckets@[idx as int]@[i]).0@ != key@,
            decreases n - j,
        {
            let pair = &self.buckets[idx][j];
            if pair.0.key_eq(key) {
                return Some(j);
            }
            j += 1;
        }
        None
    }

    /// Looks the key up: returns a reference to its value, or nothing when it
    /// is absent. On a table with zero buckets it returns nothing.
    pub fn get(&self, key: &K) -> (result: Option<&V>)
        ensures
            match result {
                Some(v) => self@.contains_key(key@) && *v == self@[key@],
                None => !self@.contains_key(key@),
            },
    {
        proof {
            use_type_invariant(self);
        }
        if self.buckets.len() == 0 {
            proof {
                assert(!has_key(self.buckets@, key@));
            }
            return None;
        }
        let idx = self.bucket_idx(key);
        match self.find_in_bucket(idx, key) {
            Some(j) => {
                proof {
                    lemma_found(self.buckets@, idx as int, j as int);
                }
                Some(&self.buckets[idx][j].1)
            },
            None => {
                proof {
                    lemma_absent(self.buckets@, *key, idx as int);
                }
                None
            },
        }
    }

    /// Whether the table holds an entry for the key.
    pub fn contains_key(&self, key: &K) -> (present: bool)
        ensures
            present == self@.contains_key(key@),
    {
        self.get(key).is_some()
    }

    /// Grows the bucket array — to one bucket from zero, otherwise to twice
    /// the current count (left unchanged only when doubling would exceed the
    /// machine word) — and rehashes every entry against the new count. No
    /// entry is lost, duplicated, or changed in value, and the entry count is
    /// unchanged.
    pub fn resize(&mut self)
        ensures
            final(self)@ == old(self)@,
            final(self).capacity() == (if old(self).capacity() == 0 {
                INITIAL_SIZE as nat
            } else if old(self).capacity() <= (usize::MAX / 2) as nat {
                2 * old(self).capacity()
            } else {
                old(self).capacity()
            }),
    {
        proof {
            use_type_invariant(&*self);
        }
        let n = self.buckets.len();
        if n > usize::MAX / 2 {
            return ;
        }
        let target: usize = if n == 0 {
            INITIAL_SIZE
        } else {
            n * 2
        };
        let mut tmp = HashMap { buckets: Vec::new(), num_items: 0 };
        core::mem::swap(self, &mut tmp);
        let HashMap { buckets: mut old_buckets, num_items } = tmp;
        let ghost orig = old_buckets@;

        let mut new_buckets: Vec<Vec<(K, V)>> = Vec::new();
        let mut c: usize = 0;
        while c < target
            invariant
                c <= target,
                new_buckets@.len() == c,
                total_len(new_buckets@) == 0,
                forall|b: int| 0 <= b < c ==> (#[trigger] new_buckets@[b])@.len() == 0,
            decreases target - c,
        {
            let ghost prev = new_buckets@;
            new_buckets.push(Vec::new());
            proof {
                assert(new_buckets@.drop_last() =~= prev);
            }
            c += 1;
        }
        proof {
            assert(old_buckets@ =~= orig.subrange(0, old_buckets@.len() as int));
        }
        while old_buckets.len() > 0
            invariant
                target > 0,
                new_buckets@.len() == target,
                keys_distinct(new_buckets@),
                entries_placed(new_buckets@),
                keys_distinct(orig),
                old_buckets@.len() <= orig.len(),
                old_buckets@ == orig.subrange(0, old_buckets@.len() as int),
                total_len(new_buckets@) + total_len(old_buckets@) == total_len(orig),
                forall|b: int, i: int|
                    #![trigger valid_pos(orig, b, i)]
                    valid_pos(orig, b, i) && b >= old_buckets@.len() ==> exists|b2: int, i2: int|
                        valid_pos(new_buckets@, b2, i2) && entry_at(new_buckets@, b2, i2)
                            == entry_at(orig, b, i),
                forall|b2: int, i2: int|
                    #![trigger valid_pos(new_buckets@, b2, i2)]
                    valid_pos(new_buckets@, b2, i2) ==> exists|b: int, i: int|
                        valid_pos(orig, b, i) && b >= old_buckets@.len() && entry_at(
                            new_buckets@,
                            b2,
                            i2,
                        ) == entry_at(orig, b, i),
            decreases old_buckets@.len(),
        {
            let ghost pre_old = old_buckets@;
            let mut bucket = old_buckets.pop().unwrap();
            let ghost bcur = old_buckets@.len() as int;
            proof {
                lemma_total_len_last(pre_old);
                assert(old_buckets@ =~= orig.subrange(0, bcur));
                assert(bucket == orig[bcur]);
                assert(bucket@ =~= orig[bcur]@.subrange(0, bucket@.len() as int));
                assert forall|b2: int, i2: int|
                    #![trigger valid_pos(new_buckets@, b2, i2)]
                    valid_pos(new_buckets@, b2, i2) implies exists|b: int, i: int|
                    valid_pos(orig, b, i) && (b > bcur || (b == bcur && i >= bucket@.len()))
                        && entry_at(new_buckets@, b2, i2) == entry_at(orig, b, i) by {
                    let (b, i) = choose|b: int, i: int|
                        valid_pos(orig, b, i) && b >= pre_old.len() && entry_at(
                            new_buckets@,
                            b2,
                            i2,
                        ) == entry_at(orig, b, i);
                    assert(valid_pos(orig, b, i) && (b > bcur || (b == bcur && i
                        >= bucket@.len())) && entry_at(new_buckets@, b2, i2) == entry_at(
                        orig,
                        b,
                        i,
                    ));
                }
                assert forall|b: int, i: int|
                    #![trigger valid_pos(orig, b, i)]
                    valid_pos(orig, b, i) && (b > bcur || (b == bcur && i >= bucket@.len()))
                        implies exists|b2: int, i2: int|
                    valid_pos(new_buckets@, b2, i2) && entry_at(new_buckets@, b2, i2) == entry_at(
                        orig,
                        b,
                        i,
                    ) by {
                    assert(b >= pre_old.len());
                    let (b2, i2) = choose|b2: int, i2: int|
                        valid_pos(new_buckets@, b2, i2) && entry_at(new_buckets@, b2, i2)
                            == entry_at(orig, b, i);
                    assert(valid_pos(new_buckets@, b2, i2) && entry_at(new_buckets@, b2, i2)
                        == entry_at(orig, b, i));
                }
            }
            while bucket.len() > 0
                invariant
                    target > 0,
                    new_buckets@.len() == target,
                    keys_distinct(new_buckets@),
                    entries_placed(new_buckets@),
                    keys_distinct(orig),
                    bcur == old_buckets@.len(),
                    0 <= bcur < orig.len(),
                    old_buckets@ == orig.subrange(0, bcur),
                    bucket@.len() <= orig[bcur]@.len(),
                    bucket@ == orig[bcur]@.subrange(0, bucket@.len() as int),
                    total_len(new_buckets@) + total_len(old_buckets@) + bucket@.len()
                        == total_len(orig),
                    forall|b: int, i: int|
                        #![trigger valid_pos(orig, b, i)]
                        valid_pos(orig, b, i) && (b > bcur || (b == bcur && i >= bucket@.len()))
                            ==> exists|b2: int, i2: int|
                            valid_pos(new_buckets@, b2, i2) && entry_at(new_buckets@, b2, i2)
                                == entry_at(orig, b, i),
                    forall|b2: int, i2: int|
                        #![trigger valid_pos(new_buckets@, b2, i2)]
                        valid_pos(new_buckets@, b2, i2) ==> exists|b: int, i: int|
                            valid_pos(orig, b, i) && (b > bcur || (b == bcur && i >= bucket@.len()))
                                && entry_at(new_buckets@, b2, i2) == entry_at(orig, b, i),
                decreases bucket@.len(),
            {
                let ghost pre_b = bucket@;
                let ghost pre_new = new_buckets@;
                let pair = bucket.pop().unwrap();
                let ghost icur = bucket@.len() as int;
                proof {
                    assert(bucket@ =~= orig[bcur]@.subrange(0, icur));
                    assert(pair == entry_at(orig, bcur, icur));
                    assert(valid_pos(orig, bcur, icur));
                }
                let h = pair.0.hash_code();
                let idx = (h % (target as u64)) as usize;
                new_buckets[idx].push(pair);
                proof {
                    let nb = new_buckets@;
                    let newpos = pre_new[idx as int]@.len() as int;
                    assert(nb[idx as int]@ == pre_new[idx as int]@.push(pair));
                    assert(entry_at(nb, idx as int, newpos) == pair);
                    assert(forall|b2: int, i2: int|
                        #![trigger valid_pos(pre_new, b2, i2)]
                        valid_pos(pre_new, b2, i2) ==> valid_pos(nb, b2, i2) && entry_at(
                            nb,
                            b2,
                            i2,
                        ) == entry_at(pre_new, b2, i2));
                    assert(forall|b2: int, i2: int|
                        #![trigger valid_pos(nb, b2, i2)]
                        valid_pos(nb, b2, i2) && !(b2 == idx && i2 == newpos) ==> valid_pos(
                            pre_new,
                            b2,
                            i2,
                        ) && entry_at(nb, b2, i2) == entry_at(pre_new, b2, i2));
                    assert forall|b2: int, i2: int|
                        #![trigger valid_pos(nb, b2, i2)]
                        valid_pos(nb, b2, i2) implies exists|b: int, i: int|
                        valid_pos(orig, b, i) && (b > bcur || (b == bcur && i >= icur))
                            && entry_at(nb, b2, i2) == entry_at(orig, b, i) by {
                        if b2 == idx && i2 == newpos {
                            assert(valid_pos(orig, bcur, icur) && (bcur > bcur || (bcur == bcur
                                && icur >= icur)) && entry_at(nb, b2, i2) == entry_at(
                                orig,
                                bcur,
                                icur,
                            ));
                        } else {
                            assert(valid_pos(pre_new, b2, i2));
                            let (b, i) = choose|b: int, i: int|
                                valid_pos(orig, b, i) && (b > bcur || (b == bcur && i
                                    >= pre_b.len())) && entry_at(pre_new, b2, i2) == entry_at(
                                    orig,
                                    b,
                                    i,
                                );
                            assert(valid_pos(orig, b, i) && (b > bcur || (b == bcur && i >= icur))
                                && entry_at(nb, b2, i2) == entry_at(orig, b, i));
                        }
                    }
                    assert forall|b: int, i: int|
                        #![trigger valid_pos(orig, b, i)]
                        valid_pos(orig, b, i) && (b > bcur || (b == bcur && i >= icur)) implies
                        exists|b2: int, i2: int|
                        valid_pos(nb, b2, i2) && entry_at(nb, b2, i2) == entry_at(orig, b, i) by {
                        if b == bcur && i == icur {
                            assert(valid_pos(nb, idx as int, newpos) && entry_at(
                                nb,
                                idx as int,
                                newpos,
                            ) == entry_at(orig, b, i));
                        } else {
                            assert(b > bcur || (b == bcur && i >= pre_b.len()));
                            let (b2, i2) = choose|b2: int, i2: int|
                                valid_pos(pre_new, b2, i2) && entry_at(pre_new, b2, i2)
                                    == entry_at(orig, b, i);
                            assert(valid_pos(nb, b2, i2) && entry_at(nb, b2, i2) == entry_at(
                                orig,
                                b,
                                i,
                            ));
                        }
                    }
                    assert forall|b1: int, i1: int, b2: int, i2: int|
                        valid_pos(nb, b1, i1) && valid_pos(nb, b2, i2) && (#[trigger] entry_at(
                            nb,
                            b1,
                            i1,
                        )).0@ == (#[trigger] entry_at(nb, b2, i2)).0@ implies b1 == b2 && i1
                        == i2 by {
                        if b1 == idx && i1 == newpos && !(b2 == idx && i2 == newpos) {
                            assert(valid_pos(pre_new, b2, i2));
                            let (b, i) = choose|b: int, i: int|
                                valid_pos(orig, b, i) && (b > bcur || (b == bcur && i
                                    >= pre_b.len())) && entry_at(pre_new, b2, i2) == entry_at(
                                    orig,
                                    b,
                                    i,
                                );
                            assert(entry_at(orig, b, i).0@ == entry_at(orig, bcur, icur).0@);
                            assert(false);
                        } else if b2 == idx && i2 == newpos && !(b1 == idx && i1 == newpos) {
                            assert(valid_pos(pre_new, b1, i1));
                            let (b, i) = choose|b: int, i: int|
                                valid_pos(orig, b, i) && (b > bcur || (b == bcur && i
                                    >= pre_b.len())) && entry_at(pre_new, b1, i1) == entry_at(
                                    orig,
                                    b,
                                    i,
                                );
                            assert(entry_at(orig, b, i).0@ == entry_at(orig, bcur, icur).0@);
                            assert(false);
                        }
                    }
                    assert(nb =~= pre_new.update(idx as int, nb[idx as int]));
                    lemma_total_len_update(pre_new, idx as int, nb[idx as int]);
                }
            }
        }
        proof {
            let nb = new_buckets@;
            assert(map_of(nb) =~= map_of(orig)) by {
                assert forall|k: <K as View>::V| map_of(nb).dom().contains(k) implies map_of(
                    orig,
                ).dom().contains(k) && map_of(nb)[k] == map_of(orig)[k] by {
                    let (b2, i2) = choose|b2: int, i2: int|
                        valid_pos(nb, b2, i2) && (#[trigger] entry_at(nb, b2, i2)).0@ == k;
                    assert(valid_pos(new_buckets@, b2, i2));
                    let (b, i) = choose|b: int, i: int|
                        valid_pos(orig, b, i) && b >= old_buckets@.len() && entry_at(
                            nb,
                            b2,
                            i2,
                        ) == entry_at(orig, b, i);
                    lemma_found(nb, b2, i2);
                    lemma_found(orig, b, i);
                }
                assert forall|k: <K as View>::V| map_of(orig).dom().contains(k) implies map_of(
                    nb,
                ).dom().contains(k) by {
                    let (b, i) = choose|b: int, i: int|
                        valid_pos(orig, b, i) && (#[trigger] entry_at(orig, b, i)).0@ == k;
                    let (b2, i2) = choose|b2: int, i2: int|
                        valid_pos(nb, b2, i2) && entry_at(nb, b2, i2) == entry_at(orig, b, i);
                    assert(entry_at(nb, b2, i2).0@ == k);
                }
            }
        }
        *self = HashMap { buckets: new_buckets, num_items };
    }

    /// Inserts the key with the value. Returns the previous value when the
    /// key was already present (the entry count is then unchanged), or
    /// nothing when it was absent (the entry count then grows by one). The
    /// table grows first when the bucket array is empty or when the incoming
    /// entry count would exceed three quarters of the bucket count.
    #[verifier::rlimit(100)]
    pub fn insert(&mut self, key: K, value: V) -> (prev: Option<V>)
        requires
            old(self)@.len() < usize::MAX,
        ensures
            final(self)@ == old(self)@.insert(key@, value),
            prev == (if old(self)@.contains_key(key@) {
                Some(old(self)@[key@])
            } else {
                None::<V>
            }),
            final(self)@.len() == old(self)@.len() + (if old(self)@.contains_key(key@) {
                0int
            } else {
                1int
            }),
    {
        proof {
            use_type_invariant(&*self);
            lemma_map_of_len(self.buckets@);
        }
        if self.buckets.len() == 0 || self.num_items + 1 > self.buckets.len() / 4 * 3 {
            self.resize();
        }
        proof {
            use_type_invariant(&*self);
            lemma_map_of_len(self.buckets@);
        }
        let idx = self.bucket_idx(&key);
        let found = self.find_in_bucket(idx, &key);
        let ghost pre = self.buckets@;
        let mut tmp = HashMap { buckets: Vec::new(), num_items: 0 };
        core::mem::swap(self, &mut tmp);
        let HashMap { buckets: mut bs, num_items } = tmp;
        match found {
            None => {
                proof {
                    lemma_absent(pre, key, idx as int);
                }
                bs[idx].push((key, value));
                let result_count = num_items + 1;
                proof {
                    let bs2 = bs@;
                    let newpos = pre[idx as int]@.len() as int;
                    assert(bs2[idx as int]@ == pre[idx as int]@.push((key, value)));
                    assert(entry_at(bs2, idx as int, newpos) == (key, value));
                    assert(forall|b: int, i: int|
                        #![trigger valid_pos(pre, b, i)]
                        valid_pos(pre, b, i) ==> valid_pos(bs2, b, i) && entry_at(bs2, b, i)
                            == entry_at(pre, b, i));
                    assert(forall|b: int, i: int|
                        #![trigger valid_pos(bs2, b, i)]
                        valid_pos(bs2, b, i) && !(b == idx && i == newpos) ==> valid_pos(pre, b, i)
                            && entry_at(bs2, b, i) == entry_at(pre, b, i));
                    assert forall|b1: int, i1: int, b2: int, i2: int|
                        valid_pos(bs2, b1, i1) && valid_pos(bs2, b2, i2) && (#[trigger] entry_at(
                            bs2,
                            b1,
                            i1,
                        )).0@ == (#[trigger] entry_at(bs2, b2, i2)).0@ implies b1 == b2 && i1
                        == i2 by {
                        if b1 == idx && i1 == newpos && !(b2 == idx && i2 == newpos) {
                            assert(valid_pos(pre, b2, i2) && entry_at(pre, b2, i2).0@ == key@);
                            assert(false);
                        } else if b2 == idx && i2 == newpos && !(b1 == idx && i1 == newpos) {
                            assert(valid_pos(pre, b1, i1) && entry_at(pre, b1, i1).0@ == key@);
                            assert(false);
                        }
                    }
                    assert forall|b: int, i: int| valid_pos(bs2, b, i) implies ((
                    #[trigger] entry_at(bs2, b, i)).0.key_hash() as int % bs2.len() as int)
                        == b by {
                        if !(b == idx && i == newpos) {
                            assert(valid_pos(pre, b, i));
                        }
                    }
                    assert(map_of(bs2) =~= map_of(pre).insert(key@, value)) by {
                        assert forall|k: <K as View>::V|
                        #![trigger map_of(bs2).dom().contains(k)]
                        map_of(bs2).dom().contains(k) implies
                            map_of(pre).insert(key@, value).dom().contains(k) && map_of(bs2)[k]
                            == map_of(pre).insert(key@, value)[k] by {
                            let (b, i) = choose|b: int, i: int|
                                valid_pos(bs2, b, i) && (#[trigger] entry_at(bs2, b, i)).0@ == k;
                            lemma_found(bs2, b, i);
                            if b == idx && i == newpos {
                                assert(k == key@);
                            } else {
                                lemma_found(pre, b, i);
                                assert(k != key@);
                            }
                        }
                        assert forall|k: <K as View>::V|
                            #![trigger map_of(pre).insert(key@, value).dom().contains(k)]
                            map_of(pre).insert(key@, value).dom().contains(k) implies map_of(
                            bs2,
                        ).dom().contains(k) by {
                            if k == key@ {
                                assert(valid_pos(bs2, idx as int, newpos) && entry_at(
                                    bs2,
                                    idx as int,
                                    newpos,
                                ).0@ == k);
                            } else {
                                let (b, i) = choose|b: int, i: int|
                                    valid_pos(pre, b, i) && (#[trigger] entry_at(pre, b, i)).0@
                                        == k;
                                assert(valid_pos(bs2, b, i) && entry_at(bs2, b, i).0@ == k);
                            }
                        }
                    }
                    assert(bs2 =~= pre.update(idx as int, bs2[idx as int]));
                    lemma_total_len_update(pre, idx as int, bs2[idx as int]);
                    lemma_map_of_len(bs2);
                }
                *self = HashMap { buckets: bs, num_items: result_count };
                None
            },
            Some(j) => {
                proof {
                    lemma_found(pre, idx as int, j as int);
                }
                let prev_pair = bs[idx].swap_remove(j);
                bs[idx].push((key, value));
                proof {
                    let bs2 = bs@;
                    let s = pre[idx as int]@;
                    let s2 = bs2[idx as int]@;
                    let len = s.len() as int;
                    assert(s2 == s.update(j as int, s.last()).drop_last().push((key, value)));
                    assert(s2.len() == len);
                    assert(s2[len - 1] == (key, value));
                    assert(forall|i2: int| 0 <= i2 < len - 1 && i2 != j ==> s2[i2] == s[i2]);
                    assert(j < len - 1 ==> s2[j as int] == s[len - 1]);
                    assert(forall|b: int, i: int|
                        #![trigger valid_pos(bs2, b, i)]
                        valid_pos(bs2, b, i) && b != idx ==> valid_pos(pre, b, i) && entry_at(
                            bs2,
                            b,
                            i,
                        ) == entry_at(pre, b, i));
                    assert(forall|b: int, i: int|
                        #![trigger valid_pos(pre, b, i)]
                        valid_pos(pre, b, i) && b != idx ==> valid_pos(bs2, b, i) && entry_at(
                            bs2,
                            b,
                            i,
                        ) == entry_at(pre, b, i));
                    assert forall|b1: int, i1: int, b2: int, i2: int|
                        valid_pos(bs2, b1, i1) && valid_pos(bs2, b2, i2) && (#[trigger] entry_at(
                            bs2,
                            b1,
                            i1,
                        )).0@ == (#[trigger] entry_at(bs2, b2, i2)).0@ implies b1 == b2 && i1
                        == i2 by {
                        let (c1, d1) = (if b1 == idx && i1 == len - 1 {
                            (idx as int, j as int)
                        } else if b1 == idx && i1 == j {
                            (idx as int, len - 1)
                        } else {
                            (b1, i1)
                        });
                        let (c2, d2) = (if b2 == idx && i2 == len - 1 {
                            (idx as int, j as int)
                        } else if b2 == idx && i2 == j {
                            (idx as int, len - 1)
                        } else {
                            (b2, i2)
                        });
                        assert(valid_pos(pre, c1, d1) && entry_at(pre, c1, d1).0@ == entry_at(
                            bs2,
                            b1,
                            i1,
                        ).0@);
                        assert(valid_pos(pre, c2, d2) && entry_at(pre, c2, d2).0@ == entry_at(
                            bs2,
                            b2,
                            i2,
                        ).0@);
                        assert(c1 == c2 && d1 == d2);
                    }
                    assert forall|b: int, i: int| valid_pos(bs2, b, i) implies ((
                    #[trigger] entry_at(bs2, b, i)).0.key_hash() as int % bs2.len() as int)
                        == b by {
                        if b == idx && i == len - 1 {
                            assert(entry_at(bs2, b, i).0 == key);
                        } else if b == idx && i == j {
                            assert(s2[i] == s[len - 1]);
                            assert(valid_pos(pre, idx as int, len - 1));
                            assert(entry_at(bs2, b, i) == entry_at(pre, idx as int, len - 1));
                        } else if b == idx {
                            assert(s2[i] == s[i]);
                            assert(valid_pos(pre, b, i));
                            assert(entry_at(bs2, b, i) == entry_at(pre, b, i));
                        }
                    }
                    assert forall|k: <K as View>::V|
                        #![trigger map_of(bs2).dom().contains(k)]
                        map_of(bs2).dom().contains(k) implies
                            map_of(pre).insert(key@, value).dom().contains(k) && map_of(bs2)[k]
                            == map_of(pre).insert(key@, value)[k] by {
                            let (b, i) = choose|b: int, i: int|
                                valid_pos(bs2, b, i) && (#[trigger] entry_at(bs2, b, i)).0@ == k;
                            lemma_found(bs2, b, i);
                            if b == idx && i == len - 1 {
                                assert(k == key@);
                            } else if b == idx && i == j {
                                assert(entry_at(bs2, b, i) == entry_at(pre, idx as int, len - 1));
                                lemma_found(pre, idx as int, len - 1);
                                assert(k != key@);
                            } else {
                                if b == idx {
                                    assert(valid_pos(pre, b, i) && entry_at(bs2, b, i) == entry_at(
                                        pre,
                                        b,
                                        i,
                                    ));
                                }
                                lemma_found(pre, b, i);
                                assert(k != key@);
                            }
                        }
                    assert forall|k: <K as View>::V|
                            #![trigger map_of(pre).insert(key@, value).dom().contains(k)]
                            map_of(pre).insert(key@, value).dom().contains(k) implies map_of(
                            bs2,
                        ).dom().contains(k) by {
                            if k == key@ {
                                assert(valid_pos(bs2, idx as int, len - 1) && entry_at(
                                    bs2,
                                    idx as int,
                                    len - 1,
                                ).0@ == k);
                            } else {
                                let (b, i) = choose|b: int, i: int|
                                    valid_pos(pre, b, i) && (#[trigger] entry_at(pre, b, i)).0@
                                        == k;
                                if b == idx && i == len - 1 {
                                    assert(j < len - 1);
                                    assert(valid_pos(bs2, idx as int, j as int) && entry_at(
                                        bs2,
                                        idx as int,
                                        j as int,
                                    ).0@ == k);
                                } else {
                                    assert(valid_pos(bs2, b, i) && entry_at(bs2, b, i).0@ == k);
                                }
                            }
                        }
                    assert(map_of(bs2).dom() =~= map_of(pre).insert(key@, value).dom());
                    assert(forall|k: <K as View>::V| #![auto]
                        map_of(bs2).dom().contains(k) ==> map_of(bs2)[k] == map_of(pre).insert(
                            key@,
                            value,
                        )[k]);
                    assert(map_of(bs2) =~= map_of(pre).insert(key@, value));
                    assert(bs2 =~= pre.update(idx as int, bs2[idx as int]));
                    lemma_total_len_update(pre, idx as int, bs2[idx as int]);
                    lemma_map_of_len(bs2);
                }
                *self = HashMap { buckets: bs, num_items };
                Some(prev_pair.1)
            },
        }
    }

    /// Removes the key's entry, returning its value, or nothing when the key
    /// is absent (the table is then unchanged). Removal within the bucket
    /// swaps the found entry with the bucket's last entry and shortens the
    /// bucket by one, disturbing the bucket's internal order.
    #[verifier::rlimit(100)]
    pub fn delete(&mut self, key: &K) -> (removed: Option<V>)
        ensures
            final(self)@ == old(self)@.remove(key@),
            removed == (if old(self)@.contains_key(key@) {
                Some(old(self)@[key@])
            } else {
                None::<V>
            }),
            final(self)@.len() == old(self)@.len() - (if old(self)@.contains_key(key@) {
                1int
            } else {
                0int
            }),
            !old(self)@.contains_key(key@) ==> final(self)@ == old(self)@,
    {
        proof {
            use_type_invariant(&*self);
            lemma_map_of_len(self.buckets@);
        }
        if self.buckets.len() == 0 {
            proof {
                assert(!has_key(self.buckets@, key@));
                assert(self@ =~= self@.remove(key@));
            }
            return None;
        }
        let idx = self.bucket_idx(key);
        match self.find_in_bucket(idx, key) {
            None => {
                proof {
                    lemma_absent(self.buckets@, *key, idx as int);
                    assert(self@ =~= self@.remove(key@));
                }
                None
            },
            Some(j) => {
                proof {
                    lemma_found(self.buckets@, idx as int, j as int);
                    lemma_flat_index(self.buckets@, idx as int, j as int);
                    lemma_flat_len(self.buckets@);
                }
                let ghost pre = self.buckets@;
                let mut tmp = HashMap { buckets: Vec::new(), num_items: 0 };
                core::mem::swap(self, &mut tmp);
                let HashMap { buckets: mut bs, num_items } = tmp;
                let removed_pair = bs[idx].swap_remove(j);
                let result_count = num_items - 1;
                proof {
                    let bs2 = bs@;
                    let s = pre[idx as int]@;
                    let s2 = bs2[idx as int]@;
                    let len = s.len() as int;
                    assert(s2 == s.update(j as int, s.last()).drop_last());
                    assert(s2.len() == len - 1);
                    assert(forall|i2: int| 0 <= i2 < len - 1 && i2 != j ==> s2[i2] == s[i2]);
                    assert(j < len - 1 ==> s2[j as int] == s[len - 1]);
                    assert(forall|b: int, i: int|
                        #![trigger valid_pos(bs2, b, i)]
                        valid_pos(bs2, b, i) && b != idx ==> valid_pos(pre, b, i) && entry_at(
                            bs2,
                            b,
                            i,
                        ) == entry_at(pre, b, i));
                    assert(forall|b: int, i: int|
                        #![trigger valid_pos(pre, b, i)]
                        valid_pos(pre, b, i) && b != idx ==> valid_pos(bs2, b, i) && entry_at(
                            bs2,
                            b,
                            i,
                        ) == entry_at(pre, b, i));
                    assert forall|b1: int, i1: int, b2: int, i2: int|
                        valid_pos(bs2, b1, i1) && valid_pos(bs2, b2, i2) && (#[trigger] entry_at(
                            bs2,
                            b1,
                            i1,
                        )).0@ == (#[trigger] entry_at(bs2, b2, i2)).0@ implies b1 == b2 && i1
                        == i2 by {
                        let (c1, d1) = (if b1 == idx && i1 == j {
                            (idx as int, len - 1)
                        } else {
                            (b1, i1)
                        });
                        let (c2, d2) = (if b2 == idx && i2 == j {
                            (idx as int, len - 1)
                        } else {
                            (b2, i2)
                        });
                        assert(valid_pos(pre, c1, d1) && entry_at(pre, c1, d1) == entry_at(
                            bs2,
                            b1,
                            i1,
                        ));
                        assert(valid_pos(pre, c2, d2) && entry_at(pre, c2, d2) == entry_at(
                            bs2,
                            b2,
                            i2,
                        ));
                        assert(c1 == c2 && d1 == d2);
                    }
                    assert forall|b: int, i: int| valid_pos(bs2, b, i) implies ((
                    #[trigger] entry_at(bs2, b, i)).0.key_hash() as int % bs2.len() as int)
                        == b by {
                        if b == idx && i == j {
                            assert(entry_at(bs2, b, i) == entry_at(pre, idx as int, len - 1));
                        } else if b == idx {
                            assert(entry_at(bs2, b, i) == entry_at(pre, b, i));
                            assert(valid_pos(pre, b, i));
                        }
                    }
                    assert forall|k: <K as View>::V|
                        #![trigger map_of(bs2).dom().contains(k)]
                        map_of(bs2).dom().contains(k) implies
                            map_of(pre).remove(key@).dom().contains(k) && map_of(bs2)[k] == map_of(
                            pre,
                        ).remove(key@)[k] by {
                            let (b, i) = choose|b: int, i: int|
                                valid_pos(bs2, b, i) && (#[trigger] entry_at(bs2, b, i)).0@ == k;
                            lemma_found(bs2, b, i);
                            let (c, d) = (if b == idx && i == j {
                                (idx as int, len - 1)
                            } else {
                                (b, i)
                            });
                            if b == idx && i == j {
                                assert(s2[i] == s[len - 1]);
                            } else if b == idx {
                                assert(s2[i] == s[i]);
                            }
                            assert(valid_pos(pre, c, d) && entry_at(pre, c, d) == entry_at(
                                bs2,
                                b,
                                i,
                            ));
                            lemma_found(pre, c, d);
                            assert(k != key@);
                        }
                    assert forall|k: <K as View>::V|
                            #![trigger map_of(pre).remove(key@).dom().contains(k)]
                            map_of(pre).remove(key@).dom().contains(k) implies map_of(
                            bs2,
                        ).dom().contains(k) by {
                            let (b, i) = choose|b: int, i: int|
                                valid_pos(pre, b, i) && (#[trigger] entry_at(pre, b, i)).0@ == k;
                            if b == idx && i == len - 1 {
                                assert(i != j);
                                assert(valid_pos(bs2, idx as int, j as int) && entry_at(
                                    bs2,
                                    idx as int,
                                    j as int,
                                ).0@ == k);
                            } else {
                                assert(i != j || b != idx);
                                assert(valid_pos(bs2, b, i) && entry_at(bs2, b, i).0@ == k);
                            }
                        }
                    assert(map_of(bs2).dom() =~= map_of(pre).remove(key@).dom());
                    assert(forall|k: <K as View>::V| #![auto]
                        map_of(bs2).dom().contains(k) ==> map_of(bs2)[k] == map_of(pre).remove(
                            key@,
                        )[k]);
                    assert(map_of(bs2) =~= map_of(pre).remove(key@));
                    assert(bs2 =~= pre.update(idx as int, bs2[idx as int]));
                    lemma_total_len_update(pre, idx as int, bs2[idx as int]);
                    lemma_map_of_len(bs2);
                }
                *self = HashMap { buckets: bs, num_items: result_count };
                Some(removed_pair.1)
            },
        }
    }

    /// A fresh cursor positioned before the first entry. Its entry sequence
    /// lists every stored pair exactly once — one entry per key of the table,
    /// with that key's value, and as many entries as the table's size — in
    /// bucket-major order. The cursor borrows the table: no mutation is
    /// possible while it lives.
    pub fn iter<'a>(&'a self) -> (it: Iter<'a, K, V>)
        ensures
            it.pos() == 0,
            it.entries().len() == self@.len(),
            forall|e: int|
                0 <= e < it.entries().len() ==> self@.contains_key(
                    (#[trigger] it.entries()[e]).0@,
                ) && self@[it.entries()[e].0@] == it.entries()[e].1,
            forall|e1: int, e2: int|
                0 <= e1 < e2 < it.entries().len() ==> (#[trigger] it.entries()[e1]).0@ != (
                #[trigger] it.entries()[e2]).0@,
            forall|k: <K as View>::V|
                #[trigger] self@.contains_key(k) ==> exists|e: int|
                    0 <= e < it.entries().len() && (#[trigger] it.entries()[e]).0@ == k,
    {
        proof {
            use_type_invariant(self);
        }
        let it = Iter { table: self, bucket: 0, i: 0 };
        proof {
            let bs = self.buckets@;
            lemma_flat_len(bs);
            lemma_map_of_len(bs);
            assert forall|e: int| 0 <= e < flat(bs).len() implies self@.contains_key(
                (#[trigger] flat(bs)[e]).0@,
            ) && self@[flat(bs)[e].0@] == flat(bs)[e].1 by {
                lemma_flat_inverse(bs, e);
                let (b, i) = choose|b: int, i: int|
                    valid_pos(bs, b, i) && e == flat_prefix_len(bs, b) + i && flat(bs)[e]
                        == entry_at(bs, b, i);
                lemma_found(bs, b, i);
            }
            assert forall|e1: int, e2: int| 0 <= e1 < e2 < flat(bs).len() implies (
            #[trigger] flat(bs)[e1]).0@ != (#[trigger] flat(bs)[e2]).0@ by {
                lemma_flat_inverse(bs, e1);
                lemma_flat_inverse(bs, e2);
                let (b1, i1) = choose|b: int, i: int|
                    valid_pos(bs, b, i) && e1 == flat_prefix_len(bs, b) + i && flat(bs)[e1]
                        == entry_at(bs, b, i);
                let (b2, i2) = choose|b: int, i: int|
                    valid_pos(bs, b, i) && e2 == flat_prefix_len(bs, b) + i && flat(bs)[e2]
                        == entry_at(bs, b, i);
                assert(!(b1 == b2 && i1 == i2));
                assert(entry_at(bs, b1, i1).0@ != entry_at(bs, b2, i2).0@);
            }
            assert forall|k: <K as View>::V| self@.contains_key(k) implies exists|e: int|
                0 <= e < flat(bs).len() && (#[trigger] flat(bs)[e]).0@ == k by {
                let (b, i) = choose|b: int, i: int|
                    valid_pos(bs, b, i) && (#[trigger] entry_at(bs, b, i)).0@ == k;
                lemma_flat_index(bs, b, i);
                assert(0 <= flat_prefix_len(bs, b) + i < flat(bs).len() && (#[trigger] flat(
                    bs,
                )[flat_prefix_len(bs, b) + i]).0@ == k);
            }
        }
        it
    }
}

/// A cursor over a table's entries: a bucket index and a position within the
/// bucket. It yields each stored entry once, bucket-major, in insertion order
/// within a bucket, then yields nothing forever. It is not restartable: a
/// fresh cursor must be made to traverse again.
pub struct Iter<'a, K: TableKey, V> {
    table: &'a HashMap<K, V>,
    bucket: usize,
    i: usize,
}

impl<'a, K: TableKey, V> Iter<'a, K, V> {
    #[verifier::type_invariant]
    spec fn iter_wf(self) -> bool {
        &&& self.bucket <= self.table.buckets@.len()
        &&& (self.bucket < self.table.buckets@.len() ==> self.i <= self.table.buckets@[
            self.bucket as int]@.len())
        &&& (self.bucket == self.table.buckets@.len() ==> self.i == 0)
    }

    /// All entries of the borrowed table in the order this cursor walks them.
    pub closed spec fn entries(self) -> Seq<(K, V)> {
        flat(self.table.buckets@)
    }

    /// How many entries the cursor has yielded so far.
    pub closed spec fn pos(self) -> int {
        flat_prefix_len(self.table.buckets@, self.bucket as int) + self.i
    }

    /// Yields the entry at the cursor and advances, or yields nothing once
    /// every entry has been yielded.
    pub fn next(&mut self) -> (entry: Option<(&'a K, &'a V)>)
        ensures
            final(self).entries() == old(self).entries(),
            0 <= old(self).pos() <= old(self).entries().len(),
            old(self).pos() < old(self).entries().len() ==> {
                &&& final(self).pos() == old(self).pos() + 1
                &&& entry matches Some(e) && *e.0 == old(self).entries()[old(self).pos()].0
                    && *e.1 == old(self).entries()[old(self).pos()].1
            },
            old(self).pos() == old(self).entries().len() ==> entry is None && final(self).pos()
                == old(self).pos(),
    {
        proof {
            use_type_invariant(&*self);
            use_type_invariant(self.table);
        }
        let t: &'a HashMap<K, V> = self.table;
        let ghost bs = t.buckets@;
        let ghost p0 = self.pos();
        proof {
            lemma_flat_prefix_len_mono(bs, 0, self.bucket as int);
            lemma_flat_prefix_total(bs);
            if (self.bucket as int) < bs.len() {
                assert(flat_prefix_len(bs, self.bucket as int + 1) == flat_prefix_len(
                    bs,
                    self.bucket as int,
                ) + bs[self.bucket as int]@.len());
                lemma_flat_prefix_len_mono(bs, self.bucket as int + 1, bs.len() as int);
            }
        }
        loop
            invariant
                self.table == t,
                bs == t.buckets@,
                old(self).table == t,
                p0 == old(self).pos(),
                self.bucket <= bs.len(),
                self.pos() == p0,
                0 <= p0 <= flat(bs).len(),
            decreases bs.len() - self.bucket,
        {
            proof {
                use_type_invariant(&*self);
            }
            if self.bucket >= t.buckets.len() {
                proof {
                    lemma_flat_prefix_total(bs);
                }
                return None;
            }
            let blen = t.buckets[self.bucket].len();
            if self.i < blen {
                let pair: &'a (K, V) = &t.buckets[self.bucket][self.i];
                proof {
                    lemma_flat_index(bs, self.bucket as int, self.i as int);
                }
                self.i = self.i + 1;
                return Some((&pair.0, &pair.1));
            } else {
                let ghost bprev = self.bucket as int;
                self.i = 0;
                self.bucket = self.bucket + 1;
                proof {
                    assert(flat_prefix_len(bs, bprev + 1) == flat_prefix_len(bs, bprev)
                        + bs[bprev]@.len());
                }
            }
        }
    }
}


/// The last bucket's entries are part of the total count.
proof fn lemma_total_len_last<K, V>(bs: Seq<Vec<(K, V)>>)
    requires
        bs.len() > 0,
    ensures
        total_len(bs) == total_len(bs.drop_last()) + bs.last()@.len(),
{
}



} // verus!
