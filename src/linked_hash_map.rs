//! A hash map with separate chaining: a growable array of buckets, each an
//! unordered group of key/value entries whose keys hash to that bucket.
use crate::hash_key::HashKey;
use vstd::prelude::*;

verus! {

/// The entries whose keys hash to one slot.
struct Bucket<K, V> {
    items: Vec<(K, V)>,
}

impl<K, V> Bucket<K, V> {
    fn new() -> (r: Self)
        ensures
            r.items@.len() == 0,
    {
        Bucket { items: Vec::new() }
    }
}

/// The bucket that a key with view `k` belongs to among `n` buckets.
pub open spec fn bucket_of<K: HashKey>(k: K::V, n: int) -> int {
    (K::spec_hash(k) as int) % n
}

/// Every entry sits in the bucket its key hashes to, and no bucket holds a key twice.
spec fn placed<K: HashKey, V>(t: Seq<Bucket<K, V>>) -> bool {
    &&& forall|b: int, j: int|
        0 <= b < t.len() && 0 <= j < t[b].items@.len() ==> bucket_of::<K>(
            (#[trigger] t[b].items@[j]).0@,
            t.len() as int,
        ) == b
    &&& forall|b: int, i: int, j: int|
        0 <= b < t.len() && 0 <= i < t[b].items@.len() && 0 <= j < t[b].items@.len() && i != j
            ==> (#[trigger] t[b].items@[i]).0@ != (#[trigger] t[b].items@[j]).0@
}

/// Bucket `b` of `t` holds an entry whose key has view `k`.
spec fn in_bucket<K: HashKey, V>(t: Seq<Bucket<K, V>>, b: int, k: K::V) -> bool {
    exists|j: int| 0 <= j < t[b].items@.len() && (#[trigger] t[b].items@[j]).0@ == k
}

/// The entries of `t` are exactly the pairs of `m`.
spec fn holds<K: HashKey, V>(t: Seq<Bucket<K, V>>, m: Map<K::V, V>) -> bool {
    &&& forall|b: int, j: int|
        0 <= b < t.len() && 0 <= j < t[b].items@.len() ==> m.contains_key(
            (#[trigger] t[b].items@[j]).0@,
        ) && m[t[b].items@[j].0@] == t[b].items@[j].1
    &&& forall|k: K::V|
        #[trigger] m.contains_key(k) ==> t.len() > 0 && in_bucket(t, bucket_of::<K>(k, t.len() as int), k)
}

/// The number of entries over all buckets of `t`.
spec fn total_entries<K, V>(t: Seq<Bucket<K, V>>) -> nat
    decreases t.len(),
{
    if t.len() == 0 {
        0
    } else {
        total_entries(t.drop_last()) + t.last().items@.len()
    }
}

/// Replacing bucket `i` changes the total by the difference of the two sizes.
proof fn lemma_total_update<K, V>(t: Seq<Bucket<K, V>>, i: int, b: Bucket<K, V>)
    requires
        0 <= i < t.len(),
    ensures
        total_entries(t.update(i, b)) + t[i].items@.len() == total_entries(t) + b.items@.len(),
    decreases t.len(),
{
    if i == t.len() - 1 {
        assert(t.update(i, b).drop_last() =~= t.drop_last());
    } else {
        lemma_total_update(t.drop_last(), i, b);
        assert(t.update(i, b).drop_last() =~= t.drop_last().update(i, b));
    }
}

/// A table whose buckets are all empty has no entry.
proof fn lemma_total_empty<K, V>(t: Seq<Bucket<K, V>>)
    requires
        forall|b: int| 0 <= b < t.len() ==> (#[trigger] t[b]).items@.len() == 0,
    ensures
        total_entries(t) == 0,
    decreases t.len(),
{
    if t.len() > 0 {
        lemma_total_empty(t.drop_last());
    }
}

/// A hash map with separate chaining.
///
/// The map starts with no buckets. Before an insertion it grows when it has no
/// bucket or when its entries outnumber three quarters of its buckets; each
/// growth doubles the buckets and moves every entry to its new bucket.
pub struct LinkedHashMap<K: HashKey, V> {
    buckets: Vec<Bucket<K, V>>,
    entries_count: usize,
    contents: Ghost<Map<K::V, V>>,
}

impl<K: HashKey, V> View for LinkedHashMap<K, V> {
    type V = Map<K::V, V>;

    /// The map from each key's view to its value.
    closed spec fn view(&self) -> Map<K::V, V> {
        self.contents@
    }
}

impl<K: HashKey, V> Default for LinkedHashMap<K, V> {
    fn default() -> (r: Self)
        ensures
            r.wf(),
            r@ == Map::<K::V, V>::empty(),
            r.bucket_count() == 0,
    {
        LinkedHashMap { buckets: Vec::new(), entries_count: 0, contents: Ghost(Map::empty()) }
    }
}

impl<K: HashKey, V> LinkedHashMap<K, V> {
    /// The map's internal invariant.
    pub closed spec fn wf(&self) -> bool {
        &&& placed(self.buckets@)
        &&& holds(self.buckets@, self.contents@)
        &&& self.contents@.dom().finite()
        &&& self.entries_count == self.contents@.len()
        &&& self.entries_count == total_entries(self.buckets@)
    }

    /// How many buckets the map has.
    pub closed spec fn bucket_count(&self) -> nat {
        self.buckets@.len()
    }

    /// Creates an empty map; it allocates no bucket until the first insertion.
    pub fn new() -> (r: Self)
        ensures
            r.wf(),
            r@ == Map::<K::V, V>::empty(),
            r.bucket_count() == 0,
    {
        Self::default()
    }

    /// Returns the number of entries.
    pub fn len(&self) -> (r: usize)
        requires
            self.wf(),
        ensures
            r == self@.len(),
    {
        self.entries_count
    }

    /// Returns true if the map holds no entry.
    pub fn is_empty(&self) -> (r: bool)
        requires
            self.wf(),
        ensures
            r == (self@.len() == 0),
    {
        self.entries_count == 0
    }

    /// The bucket of `key` among `n_buckets` buckets: its hash modulo the count.
    fn key_to_idx(key: &K, n_buckets: usize) -> (r: usize)
        requires
            n_buckets > 0,
        ensures
            r == bucket_of::<K>(key@, n_buckets as int),
    {
        (key.hash_code() % n_buckets as u64) as usize
    }

    /// The bucket of `key` in this map.
    fn index(&self, key: &K) -> (r: usize)
        requires
            self.buckets@.len() > 0,
        ensures
            r == bucket_of::<K>(key@, self.buckets@.len() as int),
            r < self.buckets@.len(),
    {
        Self::key_to_idx(key, self.buckets.len())
    }

    /// Returns the value of `key`, or `None` if the map has no such key.
    pub fn get(&self, key: &K) -> (r: Option<&V>)
        requires
            self.wf(),
        ensures
            r == (if self@.contains_key(key@) { Some(&self@[key@]) } else { None }),
    {
        if self.buckets.len() == 0 {
            return None;
        }
        let idx = self.index(key);
        match position(&self.buckets[idx].items, key) {
            Some(j) => Some(&self.buckets[idx].items[j].1),
            None => {
                proof {
                    if self@.contains_key(key@) {
                        let t = self.buckets@;
                        assert(in_bucket(t, idx as int, key@));
                    }
                }
                None
            },
        }
    }

    /// Returns true if the map holds `key`.
    pub fn contains_key(&self, key: &K) -> (r: bool)
        requires
            self.wf(),
        ensures
            r == self@.contains_key(key@),
    {
        if self.buckets.len() == 0 {
            return false;
        }
        let idx = self.index(key);
        match position(&self.buckets[idx].items, key) {
            Some(_) => true,
            None => {
                proof {
                    if self@.contains_key(key@) {
                        assert(in_bucket(self.buckets@, idx as int, key@));
                    }
                }
                false
            },
        }
    }
}

/// The position of the entry with `key` in `items`, if there is one.
fn position<K: HashKey, V>(items: &Vec<(K, V)>, key: &K) -> (r: Option<usize>)
    ensures
        r matches Some(j) ==> j < items@.len() && items@[j as int].0@ == key@,
        r is None ==> forall|j: int| 0 <= j < items@.len() ==> (#[trigger] items@[j]).0@ != key@,
{
    let mut j: usize = 0;
    while j < items.len()
        invariant
            0 <= j <= items@.len(),
            forall|i: int| 0 <= i < j ==> (#[trigger] items@[i]).0@ != key@,
        decreases items@.len() - j,
    {
        if items[j].0.key_eq(key) {
            return Some(j);
        }
        j = j + 1;
    }
    None
}


/// Adding an entry for a key that `m` lacks to the key's bucket keeps the table
/// well placed, and the table then holds `m` with that pair.
proof fn lemma_push_new<K: HashKey, V>(t: Seq<Bucket<K, V>>, m: Map<K::V, V>, t2: Seq<Bucket<K, V>>, e: (K, V))
    requires
        placed(t),
        holds(t, m),
        !m.contains_key(e.0@),
        t.len() > 0,
        t2.len() == t.len(),
        forall|b: int| 0 <= b < t.len() && b != bucket_of::<K>(e.0@, t.len() as int) ==> t2[b] == t[b],
        t2[bucket_of::<K>(e.0@, t.len() as int)].items@ == t[bucket_of::<K>(e.0@, t.len() as int)].items@.push(e),
    ensures
        placed(t2),
        holds(t2, m.insert(e.0@, e.1)),
{
    let n = t.len() as int;
    let idx = bucket_of::<K>(e.0@, n);
    let m2 = m.insert(e.0@, e.1);
    let old_len = t[idx].items@.len() as int;
    assert forall|b: int, j: int| 0 <= b < n && 0 <= j < t2[b].items@.len() implies
        (b != idx || j < old_len ==> t2[b].items@[j] == t[b].items@[j])
        && (b == idx && j == old_len ==> t2[b].items@[j] == e) by {}
    assert forall|b: int, j: int| 0 <= b < t2.len() && 0 <= j < t2[b].items@.len() implies bucket_of::<K>(
        (#[trigger] t2[b].items@[j]).0@, t2.len() as int) == b
        && m2.contains_key(t2[b].items@[j].0@) && m2[t2[b].items@[j].0@] == t2[b].items@[j].1 by {
        if b != idx || j < old_len {
            assert(t2[b].items@[j] == t[b].items@[j]);
            assert(m.contains_key(t[b].items@[j].0@));
        }
    }
    assert forall|b: int, i: int, j: int|
        0 <= b < t2.len() && 0 <= i < t2[b].items@.len() && 0 <= j < t2[b].items@.len() && i != j
        implies (#[trigger] t2[b].items@[i]).0@ != (#[trigger] t2[b].items@[j]).0@ by {
        if b == idx && (i == old_len || j == old_len) {
            if i == old_len {
                assert(m.contains_key(t[b].items@[j].0@));
            } else {
                assert(m.contains_key(t[b].items@[i].0@));
            }
        } else {
            assert(t2[b].items@[i] == t[b].items@[i]);
            assert(t2[b].items@[j] == t[b].items@[j]);
        }
    }
    assert forall|k: K::V| #[trigger] m2.contains_key(k) implies t2.len() > 0 && in_bucket(t2, bucket_of::<K>(k, t2.len() as int), k) by {
        if k == e.0@ {
            assert(t2[idx].items@[old_len] == e);
        } else {
            let bk = bucket_of::<K>(k, n);
            assert(m.contains_key(k));
            assert(in_bucket(t, bk, k));
            let j = choose|j: int| 0 <= j < t[bk].items@.len() && (#[trigger] t[bk].items@[j]).0@ == k;
            assert(t2[bk].items@[j] == t[bk].items@[j]);
        }
    }
}

/// Taking entry `j` out of bucket `b` the way `swap_remove` does keeps the table
/// well placed, and the table then holds `m` without that entry's key.
proof fn lemma_take_entry<K: HashKey, V>(t: Seq<Bucket<K, V>>, m: Map<K::V, V>, t2: Seq<Bucket<K, V>>, b: int, j: int)
    requires
        placed(t),
        holds(t, m),
        0 <= b < t.len(),
        0 <= j < t[b].items@.len(),
        t2.len() == t.len(),
        forall|c: int| 0 <= c < t.len() && c != b ==> t2[c] == t[c],
        t2[b].items@ == t[b].items@.update(j, t[b].items@.last()).drop_last(),
    ensures
        placed(t2),
        holds(t2, m.remove(t[b].items@[j].0@)),
{
    let n = t.len() as int;
    let gone = t[b].items@[j].0@;
    let m2 = m.remove(gone);
    let last = t[b].items@.len() - 1;
    // Where each remaining entry of t2 came from in t.
    assert forall|c: int, i: int| 0 <= c < n && 0 <= i < t2[c].items@.len() implies
        t2[c].items@[i] == t[c].items@[if c == b && i == j { last } else { i }]
        && (c == b ==> (if i == j { last } else { i }) != j) by {}
    assert forall|c: int, i: int| 0 <= c < t2.len() && 0 <= i < t2[c].items@.len() implies bucket_of::<K>(
        (#[trigger] t2[c].items@[i]).0@, t2.len() as int) == c
        && m2.contains_key(t2[c].items@[i].0@) && m2[t2[c].items@[i].0@] == t2[c].items@[i].1 by {
        let src = if c == b && i == j { last } else { i };
        assert(t2[c].items@[i] == t[c].items@[src]);
        assert(m.contains_key(t[c].items@[src].0@));
        if c == b {
            assert(src != j);
            assert(t[b].items@[src].0@ != t[b].items@[j].0@);
        } else {
            assert(bucket_of::<K>(t[c].items@[src].0@, n) == c);
            assert(bucket_of::<K>(t[b].items@[j].0@, n) == b);
        }
    }
    assert forall|c: int, i1: int, i2: int|
        0 <= c < t2.len() && 0 <= i1 < t2[c].items@.len() && 0 <= i2 < t2[c].items@.len() && i1 != i2
        implies (#[trigger] t2[c].items@[i1]).0@ != (#[trigger] t2[c].items@[i2]).0@ by {
        let s1 = if c == b && i1 == j { last } else { i1 };
        let s2 = if c == b && i2 == j { last } else { i2 };
        assert(t2[c].items@[i1] == t[c].items@[s1]);
        assert(t2[c].items@[i2] == t[c].items@[s2]);
        assert(s1 != s2);
    }
    assert forall|k: K::V| #[trigger] m2.contains_key(k) implies t2.len() > 0 && in_bucket(t2, bucket_of::<K>(k, t2.len() as int), k) by {
        let bk = bucket_of::<K>(k, n);
        assert(m.contains_key(k));
        assert(in_bucket(t, bk, k));
        let w = choose|w: int| 0 <= w < t[bk].items@.len() && (#[trigger] t[bk].items@[w]).0@ == k;
        if bk == b {
            assert(w != j);
            if w == last {
                assert(t2[b].items@[j] == t[b].items@[last]);
            } else {
                assert(t2[b].items@[w] == t[b].items@[w]);
            }
        } else {
            assert(t2[bk].items@[w] == t[bk].items@[w]);
        }
    }
}


/// The bucket count after one growth from `n`: one bucket at first, then twice
/// as many, as far as `usize` reaches.
pub open spec fn grown(n: nat) -> nat {
    if n == 0 {
        1
    } else if 2 * n <= usize::MAX {
        2 * n
    } else {
        n
    }
}

/// Whether a map with `n` buckets and `len` entries grows before an insertion:
/// when it has no bucket, or when `len` exceeds three quarters of `n`.
pub open spec fn needs_growth(n: nat, len: nat) -> bool {
    n == 0 || len > (3 * n) / 4
}

impl<K: HashKey, V> LinkedHashMap<K, V> {
    /// Replaces the buckets with `grown` as many and moves every entry to the
    /// bucket its key hashes to among them. The new array is filled completely
    /// before it takes the old one's place.
    fn grow(&mut self)
        requires
            old(self).wf(),
        ensures
            final(self).wf(),
            final(self)@ == old(self)@,
            final(self).bucket_count() == grown(old(self).bucket_count()),
    {
        let n = self.buckets.len();
        let target: usize = if n == 0 {
            1
        } else if n <= usize::MAX / 2 {
            2 * n
        } else {
            n
        };
        let mut buckets: Vec<Bucket<K, V>> = Vec::with_capacity(target);
        let mut i: usize = 0;
        while i < target
            invariant
                buckets@.len() == i,
                i <= target,
                forall|b: int| 0 <= b < i ==> (#[trigger] buckets@[b]).items@.len() == 0,
            decreases target - i,
        {
            buckets.push(Bucket::new());
            i = i + 1;
        }
        let ghost m = self.contents@;
        let ghost mut moved = Map::<K::V, V>::empty();
        let ghost mut rest = m;
        proof {
            assert forall|k: K::V| #[trigger] moved.contains_key(k) implies buckets@.len() > 0
                && in_bucket(buckets@, bucket_of::<K>(k, buckets@.len() as int), k) by {}
        }
        proof {
            lemma_total_empty(buckets@);
        }
        let count = self.entries_count;
        let mut old_buckets: Vec<Bucket<K, V>> = Vec::new();
        std::mem::swap(&mut self.buckets, &mut old_buckets);
        let mut b: usize = 0;
        while b < n
            invariant
                old_buckets@.len() == n,
                buckets@.len() == target,
                target > 0,
                b <= n,
                placed(old_buckets@),
                holds(old_buckets@, rest),
                placed(buckets@),
                holds(buckets@, moved),
                forall|c: int| 0 <= c < b ==> (#[trigger] old_buckets@[c]).items@.len() == 0,
                forall|k: K::V| !(#[trigger] rest.contains_key(k) && moved.contains_key(k)),
                forall|k: K::V| #[trigger] m.contains_key(k) <==> rest.contains_key(k) || moved.contains_key(k),
                forall|k: K::V| #[trigger] rest.contains_key(k) ==> rest[k] == m[k],
                forall|k: K::V| #[trigger] moved.contains_key(k) ==> moved[k] == m[k],
                moved.dom().finite(),
                total_entries(old_buckets@) + total_entries(buckets@) == count,
            decreases n - b,
        {
            while old_buckets[b].items.len() > 0
                invariant
                    old_buckets@.len() == n,
                    buckets@.len() == target,
                    target > 0,
                    b < n,
                    placed(old_buckets@),
                    holds(old_buckets@, rest),
                    placed(buckets@),
                    holds(buckets@, moved),
                    forall|c: int| 0 <= c < b ==> (#[trigger] old_buckets@[c]).items@.len() == 0,
                    forall|k: K::V| !(#[trigger] rest.contains_key(k) && moved.contains_key(k)),
                    forall|k: K::V| #[trigger] m.contains_key(k) <==> rest.contains_key(k) || moved.contains_key(k),
                    forall|k: K::V| #[trigger] rest.contains_key(k) ==> rest[k] == m[k],
                    forall|k: K::V| #[trigger] moved.contains_key(k) ==> moved[k] == m[k],
                    moved.dom().finite(),
                    total_entries(old_buckets@) + total_entries(buckets@) == count,
                decreases old_buckets@[b as int].items@.len(),
            {
                let ghost t = old_buckets@;
                let ghost nb = buckets@;
                let ghost last = t[b as int].items@.len() - 1;
                let entry = old_buckets[b].items.pop().unwrap();
                proof {
                    assert(entry == t[b as int].items@[last]);
                    assert(t[b as int].items@.update(last, t[b as int].items@.last()).drop_last()
                        =~= t[b as int].items@.drop_last());
                    lemma_take_entry(t, rest, old_buckets@, b as int, last);
                    assert(old_buckets@ =~= t.update(b as int, old_buckets@[b as int]));
                    lemma_total_update(t, b as int, old_buckets@[b as int]);
                    assert(rest.contains_key(entry.0@));
                }
                let idx = Self::key_to_idx(&entry.0, target);
                let ghost e = entry;
                buckets[idx].items.push(entry);
                proof {
                    lemma_push_new(nb, moved, buckets@, e);
                    assert(buckets@ =~= nb.update(idx as int, buckets@[idx as int]));
                    lemma_total_update(nb, idx as int, buckets@[idx as int]);
                    rest = rest.remove(e.0@);
                    moved = moved.insert(e.0@, e.1);
                }
            }
            b = b + 1;
        }
        proof {
            assert forall|k: K::V| #[trigger] m.contains_key(k) implies moved.contains_key(k) by {
                if rest.contains_key(k) {
                    let c = bucket_of::<K>(k, n as int);
                    assert(in_bucket(old_buckets@, c, k));
                    assert(old_buckets@[c].items@.len() == 0);
                }
            }
            assert(moved =~= m);
            lemma_total_empty(old_buckets@);
        }
        self.buckets = buckets;
    }

    /// Inserts a key/value pair and returns the key's previous value, or `None`
    /// if the key was absent. An existing entry keeps its key; only its value
    /// changes. Grows the buckets first when `needs_growth` says so.
    pub fn insert(&mut self, key: K, value: V) -> (r: Option<V>)
        requires
            old(self).wf(),
            old(self)@.len() < usize::MAX,
        ensures
            final(self).wf(),
            final(self)@ == old(self)@.insert(key@, value),
            r == (if old(self)@.contains_key(key@) { Some(old(self)@[key@]) } else { None }),
            final(self)@.len() == old(self)@.len() + (if old(self)@.contains_key(key@) { 0int } else { 1int }),
            final(self).bucket_count() == (if needs_growth(old(self).bucket_count(), old(self)@.len()) {
                grown(old(self).bucket_count())
            } else {
                old(self).bucket_count()
            }),
    {
        let n = self.buckets.len();
        if n == 0 || self.entries_count as u128 > (3 * (n as u128)) / 4 {
            self.grow();
        }
        let ghost m = self.contents@;
        let ghost t = self.buckets@;
        let idx = self.index(&key);
        match position(&self.buckets[idx].items, &key) {
            Some(j) => {
                let mut v = value;
                std::mem::swap(&mut self.buckets[idx].items[j].1, &mut v);
                proof {
                    let t2 = self.buckets@;
                    let k0 = t[idx as int].items@[j as int].0;
                    assert(t2[idx as int].items@ == t[idx as int].items@.update(j as int, (k0, value)));
                    self.contents = Ghost(m.insert(key@, value));
                    let m2 = self.contents@;
                    assert forall|b: int, i: int| 0 <= b < t2.len() && 0 <= i < t2[b].items@.len() implies
                        t2[b].items@[i].0 == t[b].items@[i].0
                        && (b == idx && i == j ==> t2[b].items@[i].1 == value)
                        && (b != idx || i != j ==> t2[b].items@[i] == t[b].items@[i]) by {}
                    assert forall|b: int, i: int| 0 <= b < t2.len() && 0 <= i < t2[b].items@.len() implies
                        bucket_of::<K>((#[trigger] t2[b].items@[i]).0@, t2.len() as int) == b
                        && m2.contains_key(t2[b].items@[i].0@) && m2[t2[b].items@[i].0@] == t2[b].items@[i].1 by {
                        assert(t[b].items@[i].0 == t2[b].items@[i].0);
                        if b == idx && i != j {
                            assert(t[b].items@[i].0@ != t[b].items@[j as int].0@);
                        }
                        if b != idx {
                            assert(bucket_of::<K>(t[b].items@[i].0@, t.len() as int) == b);
                        }
                    }
                    assert forall|b: int, i1: int, i2: int|
                        0 <= b < t2.len() && 0 <= i1 < t2[b].items@.len() && 0 <= i2 < t2[b].items@.len() && i1 != i2
                        implies (#[trigger] t2[b].items@[i1]).0@ != (#[trigger] t2[b].items@[i2]).0@ by {
                        assert(t[b].items@[i1].0 == t2[b].items@[i1].0);
                        assert(t[b].items@[i2].0 == t2[b].items@[i2].0);
                    }
                    assert forall|k: K::V| #[trigger] m2.contains_key(k) implies t2.len() > 0
                        && in_bucket(t2, bucket_of::<K>(k, t2.len() as int), k) by {
                        let bk = bucket_of::<K>(k, t.len() as int);
                        assert(m.contains_key(k));
                        assert(in_bucket(t, bk, k));
                        let w = choose|w: int| 0 <= w < t[bk].items@.len() && (#[trigger] t[bk].items@[w]).0@ == k;
                        assert(t2[bk].items@[w].0 == t[bk].items@[w].0);
                    }
                    assert(m2.dom() =~= m.dom());
                    assert(t2 =~= t.update(idx as int, t2[idx as int]));
                    lemma_total_update(t, idx as int, t2[idx as int]);
                }
                Some(v)
            },
            None => {
                proof {
                    if m.contains_key(key@) {
                        assert(in_bucket(t, idx as int, key@));
                    }
                }
                let ghost e = (key, value);
                self.buckets[idx].items.push((key, value));
                self.entries_count = self.entries_count + 1;
                proof {
                    lemma_push_new(t, m, self.buckets@, e);
                    assert(self.buckets@ =~= t.update(idx as int, self.buckets@[idx as int]));
                    lemma_total_update(t, idx as int, self.buckets@[idx as int]);
                    self.contents = Ghost(m.insert(e.0@, e.1));
                }
                None
            },
        }
    }

    /// Removes `key` and returns its value, or `None` if the map has no such key.
    pub fn remove(&mut self, key: &K) -> (r: Option<V>)
        requires
            old(self).wf(),
        ensures
            final(self).wf(),
            final(self)@ == old(self)@.remove(key@),
            r == (if old(self)@.contains_key(key@) { Some(old(self)@[key@]) } else { None }),
    {
        if self.buckets.len() == 0 {
            assert(self@ =~= self@.remove(key@));
            return None;
        }
        let ghost m = self.contents@;
        let ghost t = self.buckets@;
        let idx = self.index(key);
        match position(&self.buckets[idx].items, key) {
            Some(j) => {
                let entry = self.buckets[idx].items.swap_remove(j);
                self.entries_count = self.entries_count - 1;
                proof {
                    lemma_take_entry(t, m, self.buckets@, idx as int, j as int);
                    assert(self.buckets@ =~= t.update(idx as int, self.buckets@[idx as int]));
                    lemma_total_update(t, idx as int, self.buckets@[idx as int]);
                    self.contents = Ghost(m.remove(key@));
                }
                Some(entry.1)
            },
            None => {
                proof {
                    if m.contains_key(key@) {
                        assert(in_bucket(t, idx as int, key@));
                    }
                    assert(m =~= m.remove(key@));
                }
                None
            },
        }
    }
}


/// The map reached from the empty map by `ops`, in order: `(k, Some(v))`
/// inserts `v` under `k`, `(k, None)` removes `k`.
pub open spec fn replay<KV, V>(ops: Seq<(KV, Option<V>)>) -> Map<KV, V>
    decreases ops.len(),
{
    if ops.len() == 0 {
        Map::empty()
    } else {
        let prev = replay(ops.drop_last());
        match ops.last().1 {
            Some(v) => prev.insert(ops.last().0, v),
            None => prev.remove(ops.last().0),
        }
    }
}

/// The value most recently inserted under `k` by `ops` and not removed since.
pub open spec fn latest<KV, V>(ops: Seq<(KV, Option<V>)>, k: KV) -> Option<V>
    decreases ops.len(),
{
    if ops.len() == 0 {
        None
    } else if ops.last().0 == k {
        ops.last().1
    } else {
        latest(ops.drop_last(), k)
    }
}

/// After any sequence of insertions and removals, a key maps to the value most
/// recently inserted under it and not removed since, and is absent otherwise.
pub proof fn lemma_latest_write_wins<KV, V>(ops: Seq<(KV, Option<V>)>, k: KV)
    ensures
        replay(ops).contains_key(k) == latest(ops, k) is Some,
        replay(ops).contains_key(k) ==> latest(ops, k) == Some(replay(ops)[k]),
    decreases ops.len(),
{
    if ops.len() > 0 {
        lemma_latest_write_wins(ops.drop_last(), k);
    }
}

} // verus!
