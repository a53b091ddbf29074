//! The bucketed map: a fixed vector of buckets, each a chain of entries.
use crate::key::{Equatable, Hashable};
use vstd::prelude::*;

verus! {

/// What a lookup of key `k` in mapping `m` finds.
pub open spec fn lookup<K, V>(m: Map<K, V>, k: K) -> Option<V> {
    if m.contains_key(k) {
        Some(m[k])
    } else {
        None
    }
}

/// The mapping after a put of `v` under `k`: a key that is already present
/// keeps its value.
pub open spec fn after_put<K, V>(m: Map<K, V>, k: K, v: V) -> Map<K, V> {
    if m.contains_key(k) {
        m
    } else {
        m.insert(k, v)
    }
}

/// The bucket, out of `n`, in which a key with view `k` belongs.
pub open spec fn slot<K: Hashable>(k: K::V, n: nat) -> int {
    (K::hash_spec(k) as int) % (n as int)
}

/// Whether bucket chain `s` has an entry whose key has view `k`.
pub open spec fn chain_has<K: View, V>(s: Seq<(K, V)>, k: K::V) -> bool {
    exists|i: int| 0 <= i < s.len() && (#[trigger] s[i]).0@ == k
}

/// The position in chain `s` of an entry with key view `k`, if there is one.
pub open spec fn chain_index<K: View, V>(s: Seq<(K, V)>, k: K::V) -> int {
    choose|i: int| 0 <= i < s.len() && (#[trigger] s[i]).0@ == k
}

/// A table of `n` buckets in which every entry sits in its key's bucket and
/// no key occurs twice.
pub open spec fn table_wf<K: Hashable, V>(t: Seq<Seq<(K, V)>>, n: nat) -> bool {
    &&& n >= 1
    &&& t.len() == n
    &&& forall|b: int, i: int|
        0 <= b < t.len() && 0 <= i < t[b].len() ==> slot::<K>((#[trigger] t[b][i]).0@, n) == b
    &&& forall|b: int, i: int, j: int|
        0 <= b < t.len() && 0 <= i < t[b].len() && 0 <= j < t[b].len() && i != j
            ==> (#[trigger] t[b][i]).0@ != (#[trigger] t[b][j]).0@
}

/// The key-value mapping that a table of `n` buckets holds.
pub open spec fn table_view<K: Hashable, V>(t: Seq<Seq<(K, V)>>, n: nat) -> Map<K::V, V> {
    Map::new(
        |k: K::V| chain_has(t[slot::<K>(k, n)], k),
        |k: K::V| t[slot::<K>(k, n)][chain_index(t[slot::<K>(k, n)], k)].1,
    )
}

/// In a well-formed table every entry is in the mapping, with its value.
proof fn lemma_entry_in_view<K: Hashable, V>(t: Seq<Seq<(K, V)>>, n: nat, b: int, i: int)
    requires
        table_wf(t, n),
        0 <= b < t.len(),
        0 <= i < t[b].len(),
    ensures
        table_view(t, n).contains_key(t[b][i].0@),
        table_view(t, n)[t[b][i].0@] == t[b][i].1,
{
    let k = t[b][i].0@;
    assert(slot::<K>(k, n) == b);
    assert(chain_has(t[b], k));
    let j = chain_index(t[b], k);
    assert(t[b][j].0@ == k);
}

/// Appending an entry for a key that its bucket lacks adds that key to the
/// mapping and keeps the table well formed.
proof fn lemma_push<K: Hashable, V>(t: Seq<Seq<(K, V)>>, n: nat, b: int, e: (K, V))
    requires
        table_wf(t, n),
        0 <= b < t.len(),
        slot::<K>(e.0@, n) == b,
        !chain_has(t[b], e.0@),
    ensures
        table_wf(t.update(b, t[b].push(e)), n),
        table_view(t.update(b, t[b].push(e)), n) == table_view(t, n).insert(e.0@, e.1),
{
    let t2 = t.update(b, t[b].push(e));
    let last = t[b].len() as int;
    assert forall|c: int, i: int| 0 <= c < t2.len() && 0 <= i < t2[c].len() implies slot::<K>(
        (#[trigger] t2[c][i]).0@,
        n,
    ) == c by {
        if c != b || i != last {
            assert(t2[c][i] == t[c][i]);
        }
    }
    assert forall|c: int, i: int, j: int|
        0 <= c < t2.len() && 0 <= i < t2[c].len() && 0 <= j < t2[c].len() && i != j implies (
    #[trigger] t2[c][i]).0@ != (#[trigger] t2[c][j]).0@ by {
        if c == b && i == last {
            assert(t2[c][j] == t[c][j]);
        } else if c == b && j == last {
            assert(t2[c][i] == t[c][i]);
        } else {
            assert(t2[c][i] == t[c][i]);
            assert(t2[c][j] == t[c][j]);
        }
    }
    let m1 = table_view(t, n);
    let m2 = table_view(t2, n);
    let m = m1.insert(e.0@, e.1);
    assert forall|k: K::V| #[trigger] m2.contains_key(k) implies m.contains_key(k) && m2[k] == m[k] by {
        let c = slot::<K>(k, n);
        let i = chain_index(t2[c], k);
        lemma_entry_in_view(t2, n, c, i);
        if c != b || i != last {
            assert(t2[c][i] == t[c][i]);
            lemma_entry_in_view(t, n, c, i);
        }
    }
    assert forall|k: K::V| #[trigger] m.contains_key(k) implies m2.contains_key(k) by {
        if k == e.0@ {
            lemma_entry_in_view(t2, n, b, last);
        } else {
            let c = slot::<K>(k, n);
            let i = chain_index(t[c], k);
            assert(t2[c][i] == t[c][i]);
            lemma_entry_in_view(t2, n, c, i);
        }
    }
    assert(m2 =~= m);
}

/// Taking out the entry at position `i` of bucket `b` removes its key from the
/// mapping and keeps the table well formed.
proof fn lemma_remove<K: Hashable, V>(t: Seq<Seq<(K, V)>>, n: nat, b: int, i: int)
    requires
        table_wf(t, n),
        0 <= b < t.len(),
        0 <= i < t[b].len(),
    ensures
        table_wf(t.update(b, t[b].remove(i)), n),
        table_view(t.update(b, t[b].remove(i)), n) == table_view(t, n).remove(t[b][i].0@),
{
    let t2 = t.update(b, t[b].remove(i));
    t[b].remove_ensures(i);
    let gone = t[b][i].0@;
    // where an entry of the new table sat in the old one
    let src = |c: int, j: int| if c == b && j >= i { j + 1 } else { j };
    assert forall|c: int, j: int| 0 <= c < t2.len() && 0 <= j < t2[c].len() implies #[trigger] t2[c][j]
        == t[c][src(c, j)] && 0 <= src(c, j) < t[c].len() by {}
    assert forall|c: int, j: int| 0 <= c < t2.len() && 0 <= j < t2[c].len() implies slot::<K>(
        (#[trigger] t2[c][j]).0@,
        n,
    ) == c by {
        assert(t2[c][j] == t[c][src(c, j)]);
    }
    assert forall|c: int, j: int, l: int|
        0 <= c < t2.len() && 0 <= j < t2[c].len() && 0 <= l < t2[c].len() && j != l implies (
    #[trigger] t2[c][j]).0@ != (#[trigger] t2[c][l]).0@ by {
        assert(t2[c][j] == t[c][src(c, j)]);
        assert(t2[c][l] == t[c][src(c, l)]);
    }
    let m1 = table_view(t, n);
    let m2 = table_view(t2, n);
    let m = m1.remove(gone);
    assert forall|k: K::V| #[trigger] m2.contains_key(k) implies m.contains_key(k) && m2[k] == m[k] by {
        let c = slot::<K>(k, n);
        let j = chain_index(t2[c], k);
        lemma_entry_in_view(t2, n, c, j);
        assert(t2[c][j] == t[c][src(c, j)]);
        lemma_entry_in_view(t, n, c, src(c, j));
        if c == b {
            assert(src(c, j) != i);
        }
    }
    assert forall|k: K::V| #[trigger] m.contains_key(k) implies m2.contains_key(k) by {
        let c = slot::<K>(k, n);
        let j = chain_index(t[c], k);
        if c == b {
            assert(j != i);
            let j2 = if j > i { j - 1 } else { j };
            assert(t2[c][j2] == t[c][j]);
            lemma_entry_in_view(t2, n, c, j2);
        } else {
            assert(t2[c][j] == t[c][j]);
            lemma_entry_in_view(t2, n, c, j);
        }
    }
    assert(m2 =~= m);
}

/// Giving the entry at position `i` of bucket `b` a new value gives its key
/// that value in the mapping and keeps the table well formed.
proof fn lemma_replace<K: Hashable, V>(t: Seq<Seq<(K, V)>>, n: nat, b: int, i: int, v: V)
    requires
        table_wf(t, n),
        0 <= b < t.len(),
        0 <= i < t[b].len(),
    ensures
        table_wf(t.update(b, t[b].update(i, (t[b][i].0, v))), n),
        table_view(t.update(b, t[b].update(i, (t[b][i].0, v))), n) == table_view(t, n).insert(
            t[b][i].0@,
            v,
        ),
{
    let t2 = t.update(b, t[b].update(i, (t[b][i].0, v)));
    let key = t[b][i].0@;
    assert forall|c: int, j: int| 0 <= c < t2.len() && 0 <= j < t2[c].len() implies (
    #[trigger] t2[c][j]).0 == t[c][j].0 && (c != b || j != i ==> t2[c][j] == t[c][j]) by {}
    let m1 = table_view(t, n);
    let m2 = table_view(t2, n);
    let m = m1.insert(key, v);
    assert forall|k: K::V| #[trigger] m2.contains_key(k) implies m.contains_key(k) && m2[k] == m[k] by {
        let c = slot::<K>(k, n);
        let j = chain_index(t2[c], k);
        lemma_entry_in_view(t2, n, c, j);
        lemma_entry_in_view(t, n, c, j);
    }
    assert forall|k: K::V| #[trigger] m.contains_key(k) implies m2.contains_key(k) by {
        if k == key {
            lemma_entry_in_view(t2, n, b, i);
        } else {
            let c = slot::<K>(k, n);
            let j = chain_index(t[c], k);
            lemma_entry_in_view(t2, n, c, j);
        }
    }
    assert(m2 =~= m);
}

/// Bucket vectors seen as sequences of entries.
pub open spec fn rows_of<T>(bins: Seq<Vec<T>>) -> Seq<Seq<T>> {
    bins.map_values(|b: Vec<T>| b@)
}

/// Replacing one bucket vector replaces one row.
broadcast proof fn lemma_rows_of_update<T>(bins: Seq<Vec<T>>, b: int, row: Vec<T>)
    requires
        0 <= b < bins.len(),
    ensures
        #[trigger] rows_of(bins.update(b, row)) == rows_of(bins).update(b, row@),
{
    assert(rows_of(bins.update(b, row)) =~= rows_of(bins).update(b, row@));
}

/// Why a map could not be built.
#[derive(Debug, PartialEq, Eq, Structural)]
pub enum ConstructError {
    /// A bucket count of zero leaves no bucket for a key to go to.
    ZeroBuckets,
}

/// A map from keys to values over a fixed number of buckets. A key's bucket
/// is its hash code modulo the bucket count; within a bucket, entries are
/// found by a linear scan.
pub struct LinkedHashmap<K: Hashable + Equatable, V> {
    bins: Vec<Vec<(K, V)>>,
    num_bins: u32,
}

impl<K: Hashable + Equatable, V> View for LinkedHashmap<K, V> {
    type V = Map<K::V, V>;

    closed spec fn view(&self) -> Map<K::V, V> {
        table_view(self.table(), self.num_bins as nat)
    }
}

impl<K: Hashable + Equatable, V> LinkedHashmap<K, V> {
    /// The buckets, each as the sequence of its entries.
    closed spec fn table(&self) -> Seq<Seq<(K, V)>> {
        rows_of(self.bins@)
    }

    /// The number of buckets, fixed when the map is built.
    pub closed spec fn bucket_count(&self) -> nat {
        self.num_bins as nat
    }

    /// The map's invariant: at least one bucket, the bucket count fixed, each
    /// entry in its key's bucket, and no key twice.
    pub closed spec fn wf(&self) -> bool {
        table_wf(self.table(), self.num_bins as nat)
    }

    /// Builds a map with `bins` empty buckets; a count of zero is refused.
    pub fn new(bins: u32) -> (r: Result<Self, ConstructError>)
        ensures
            match r {
                Ok(m) => bins > 0 && m.wf() && m@ == Map::<K::V, V>::empty()
                    && m.bucket_count() == bins,
                Err(e) => bins == 0 && e == ConstructError::ZeroBuckets,
            },
    {
        if bins == 0 {
            return Err(ConstructError::ZeroBuckets);
        }
        let mut table: Vec<Vec<(K, V)>> = Vec::with_capacity(bins as usize);
        let mut i: u32 = 0;
        while i < bins
            invariant
                i <= bins,
                table@.len() == i,
                forall|b: int| 0 <= b < i ==> (#[trigger] table@[b])@.len() == 0,
            decreases bins - i,
        {
            table.push(Vec::new());
            i = i + 1;
        }
        let map = LinkedHashmap { bins: table, num_bins: bins };
        assert(map@ =~= Map::<K::V, V>::empty());
        Ok(map)
    }

    /// The bucket in which `key` belongs.
    pub fn bin_key(&self, key: &K) -> (r: u32)
        requires
            self.wf(),
        ensures
            r as int == slot::<K>(key@, self.bucket_count()),
            r < self.bucket_count(),
    {
        key.to_hash() % self.num_bins
    }

    /// Scans bucket `b` for an entry whose key equals `key`.
    fn position(&self, b: usize, key: &K) -> (r: Option<usize>)
        requires
            b < self.bins@.len(),
        ensures
            match r {
                Some(i) => i < self.bins@[b as int]@.len() && self.bins@[b as int]@[i as int].0@
                    == key@,
                None => !chain_has(self.bins@[b as int]@, key@),
            },
    {
        let bin = &self.bins[b];
        let mut i: usize = 0;
        while i < bin.len()
            invariant
                i <= bin@.len(),
                bin == self.bins@[b as int],
                forall|j: int| 0 <= j < i ==> (#[trigger] bin@[j]).0@ != key@,
            decreases bin@.len() - i,
        {
            if bin[i].0.equals(key) {
                return Some(i);
            }
            i = i + 1;
        }
        None
    }

    /// The value stored under `key`, if any.
    pub fn get(&self, key: K) -> (r: Option<&V>)
        requires
            self.wf(),
        ensures
            match r {
                Some(v) => lookup(self@, key@) == Some(*v),
                None => lookup(self@, key@) == None::<V>,
            },
    {
        let b = self.bin_key(&key) as usize;
        match self.position(b, &key) {
            Some(i) => {
                proof {
                    lemma_entry_in_view(self.table(), self.num_bins as nat, b as int, i as int);
                }
                Some(&self.bins[b][i].1)
            },
            None => None,
        }
    }
    /// Stores `val` under `key` when `key` is absent. A key that is already
    /// present keeps its value and `val` is dropped. Returns whether the entry
    /// was added.
    pub fn put(&mut self, key: K, val: V) -> (inserted: bool)
        requires
            old(self).wf(),
        ensures
            final(self).wf(),
            final(self).bucket_count() == old(self).bucket_count(),
            inserted == !old(self)@.contains_key(key@),
            final(self)@ == after_put(old(self)@, key@, val),
    {
        let b = self.bin_key(&key) as usize;
        match self.position(b, &key) {
            Some(i) => {
                proof {
                    lemma_entry_in_view(self.table(), self.num_bins as nat, b as int, i as int);
                }
                false
            },
            None => {
                proof {
                    lemma_push(self.table(), self.num_bins as nat, b as int, (key, val));
                }
                self.bins[b].push((key, val));
                assert(self.table() =~= old(self).table().update(
                    b as int,
                    old(self).table()[b as int].push((key, val)),
                ));
                true
            },
        }
    }

    /// The value stored under `key`, if any, lent out for changing in place.
    pub fn get_mut(&mut self, key: K) -> (r: Option<&mut V>)
        requires
            old(self).wf(),
        ensures
            match r {
                Some(v) => {
                    &&& lookup(old(self)@, key@) == Some(*v)
                    &&& final(self).wf()
                    &&& final(self).bucket_count() == old(self).bucket_count()
                    &&& final(self)@ == old(self)@.insert(key@, *final(v))
                },
                None => lookup(old(self)@, key@) == None::<V> && *final(self) == *old(self),
            },
    {
        let b = self.bin_key(&key) as usize;
        match self.position(b, &key) {
            Some(i) => {
                let ghost t = self.table();
                let ghost n = self.num_bins as nat;
                proof {
                    lemma_entry_in_view(t, self.num_bins as nat, b as int, i as int);
                }
                let entry = &mut self.bins[b][i];
                let v = &mut entry.1;
                proof {
                    broadcast use lemma_rows_of_update;
                    lemma_replace(t, n, b as int, i as int, *final(v));
                }
                Some(v)
            },
            None => None,
        }
    }

    /// Takes the entry for `key` out of the map and returns its value.
    pub fn remove(&mut self, key: K) -> (r: Option<V>)
        requires
            old(self).wf(),
        ensures
            final(self).wf(),
            final(self).bucket_count() == old(self).bucket_count(),
            final(self)@ == old(self)@.remove(key@),
            r == lookup(old(self)@, key@),
    {
        let b = self.bin_key(&key) as usize;
        match self.position(b, &key) {
            Some(i) => {
                proof {
                    lemma_entry_in_view(self.table(), self.num_bins as nat, b as int, i as int);
                    lemma_remove(self.table(), self.num_bins as nat, b as int, i as int);
                }
                let (_, v) = self.bins[b].remove(i);
                assert(self.table() =~= old(self).table().update(
                    b as int,
                    old(self).table()[b as int].remove(i as int),
                ));
                Some(v)
            },
            None => {
                assert(old(self)@.remove(key@) =~= old(self)@);
                None
            },
        }
    }
}

} // verus!
