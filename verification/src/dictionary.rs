//! The insertion-ordered dictionary itself, modelled as a sequence of
//! key/value entries with pairwise distinct keys.

use vstd::prelude::*;
use vstd::laws_eq::obeys_concrete_eq;
use vstd::std_specs::cmp::PartialEqSpec;

verus! {

/// Whether some entry of `s` carries the key `k`.
pub open spec fn has_key<K, V>(s: Seq<(K, V)>, k: K) -> bool {
    exists|i: int| 0 <= i < s.len() && s[i].0 == k
}

/// The position of the entry carrying `k`; meaningful when `has_key(s, k)`
/// and the keys of `s` are distinct.
pub open spec fn key_index<K, V>(s: Seq<(K, V)>, k: K) -> int {
    choose|i: int| 0 <= i < s.len() && s[i].0 == k
}

/// The value paired with `k`; meaningful when `has_key(s, k)`.
pub open spec fn value_of<K, V>(s: Seq<(K, V)>, k: K) -> V {
    s[key_index(s, k)].1
}

/// The whole entry carrying `k`; meaningful when `has_key(s, k)`.
pub open spec fn entry_of<K, V>(s: Seq<(K, V)>, k: K) -> (K, V) {
    s[key_index(s, k)]
}

/// No two entries of `s` carry the same key.
pub open spec fn distinct_keys<K, V>(s: Seq<(K, V)>) -> bool {
    forall|i: int, j: int| 0 <= i < j < s.len() ==> s[i].0 != s[j].0
}

/// What one insert does to the entries: replace the value in place when the
/// key is already present, append a fresh entry otherwise.
pub open spec fn insert_pair<K, V>(s: Seq<(K, V)>, k: K, v: V) -> Seq<(K, V)> {
    if has_key(s, k) {
        s.update(key_index(s, k), (k, v))
    } else {
        s.push((k, v))
    }
}

/// What removing a key does to the entries: take the entry out, keeping the
/// relative order of the rest, or leave everything as it was.
pub open spec fn remove_key<K, V>(s: Seq<(K, V)>, k: K) -> Seq<(K, V)> {
    if has_key(s, k) {
        s.remove(key_index(s, k))
    } else {
        s
    }
}

/// The entries after inserting every pair of `pairs`, in order, into a
/// dictionary whose entries are `s`.
pub open spec fn built_from<K, V>(s: Seq<(K, V)>, pairs: Seq<(K, V)>) -> Seq<(K, V)>
    decreases pairs.len(),
{
    if pairs.len() == 0 {
        s
    } else {
        insert_pair(built_from(s, pairs.drop_last()), pairs.last().0, pairs.last().1)
    }
}

/// The entries after inserting every pair of `pairs`, in order, into an
/// empty dictionary.
pub open spec fn built<K, V>(pairs: Seq<(K, V)>) -> Seq<(K, V)> {
    built_from(Seq::empty(), pairs)
}

/// `keys` and `vals` paired up position by position.
pub open spec fn zipped<K, V>(keys: Seq<K>, vals: Seq<V>) -> Seq<(K, V)> {
    Seq::new(keys.len(), |i: int| (keys[i], vals[i]))
}

/// For a key type whose `==` is genuine equality, what the executable
/// comparison returns is the equality of the compared values.
pub proof fn lemma_eq_agrees<T: PartialEq>(x: T, y: T)
    requires
        obeys_concrete_eq::<T>(),
    ensures
        T::obeys_eq_spec(),
        x.eq_spec(&y) <==> x == y,
{
    reveal(vstd::laws_eq::obeys_concrete_eq);
}

/// A map from unique keys to values that remembers the order in which the
/// currently present keys were first inserted.
#[derive(Debug)]
pub struct Dictionary<K, V> {
    entries: Vec<(K, V)>,
}

impl<K, V> View for Dictionary<K, V> {
    type V = Seq<(K, V)>;

    closed spec fn view(&self) -> Seq<(K, V)> {
        self.entries@
    }
}

impl<K, V> Dictionary<K, V> {
    /// Well-formedness: the keys of the entries are pairwise distinct.
    pub open spec fn wf(&self) -> bool {
        distinct_keys(self@)
    }
}

impl<K: Copy + PartialEq, V: Copy> Dictionary<K, V> {
    /// An empty dictionary.
    pub fn new() -> (r: Dictionary<K, V>)
        ensures
            r@ == Seq::<(K, V)>::empty(),
            r.wf(),
    {
        Dictionary { entries: Vec::new() }
    }

    /// An empty dictionary pre-sized for `size` entries. A zero capacity is
    /// a usage fault, so callers must ask for at least one slot; the
    /// capacity is advisory and never affects the contents.
    pub fn with_capacity(size: usize) -> (r: Dictionary<K, V>)
        requires
            size > 0,
        ensures
            r@ == Seq::<(K, V)>::empty(),
            r.wf(),
    {
        Dictionary { entries: Vec::with_capacity(size) }
    }

    /// The number of entries.
    pub fn len(&self) -> (r: usize)
        ensures
            r == self@.len(),
    {
        self.entries.len()
    }

    /// Whether the dictionary holds no entry.
    pub fn is_empty(&self) -> (r: bool)
        ensures
            r == (self@.len() == 0),
    {
        self.entries.is_empty()
    }

    /// Removes every entry, keeping the underlying capacity for reuse.
    /// Whatever the state before, the dictionary is empty afterwards, so a
    /// repeated call leaves it empty again, without a fault.
    pub fn clear(&mut self)
        ensures
            final(self)@ == Seq::<(K, V)>::empty(),
            final(self).wf(),
    {
        self.entries.clear()
    }

    /// The position of the entry carrying `*key`, scanning from the front,
    /// or `None` when no entry carries it.
    fn index_of(&self, key: &K) -> (r: Option<usize>)
        requires
            obeys_concrete_eq::<K>(),
        ensures
            match r {
                Some(i) => i < self@.len() && self@[i as int].0 == *key,
                None => !has_key(self@, *key),
            },
    {
        let mut i: usize = 0;
        while i < self.entries.len()
            invariant
                obeys_concrete_eq::<K>(),
                i <= self@.len(),
                forall|m: int| 0 <= m < i ==> self@[m].0 != *key,
            decreases self@.len() - i,
        {
            let hit = self.entries[i].0 == *key;
            proof {
                lemma_eq_agrees(self@[i as int].0, *key);
            }
            if hit {
                return Some(i);
            }
            i += 1;
        }
        None
    }

    /// Whether some entry carries `*key`.
    pub fn contains_key(&self, key: &K) -> (r: bool)
        requires
            obeys_concrete_eq::<K>(),
        ensures
            r == has_key(self@, *key),
    {
        match self.index_of(key) {
            Some(_) => true,
            None => false,
        }
    }

    /// The value paired with `*key`, or `None` when the key is absent.
    pub fn get(&self, key: &K) -> (r: Option<V>)
        requires
            self.wf(),
            obeys_concrete_eq::<K>(),
        ensures
            r == if has_key(self@, *key) {
                Some(value_of(self@, *key))
            } else {
                None::<V>
            },
    {
        match self.index_of(key) {
            Some(i) => {
                proof {
                    lemma_key_index_agrees(self@, *key, i as int);
                }
                Some(self.entries[i].1)
            },
            None => None,
        }
    }

    /// The position, key and value of the entry carrying `*key`, or `None`
    /// when the key is absent.
    pub fn get_full(&self, key: &K) -> (r: Option<(usize, K, V)>)
        requires
            self.wf(),
            obeys_concrete_eq::<K>(),
        ensures
            r == if has_key(self@, *key) {
                Some(
                    (
                        key_index(self@, *key) as usize,
                        entry_of(self@, *key).0,
                        entry_of(self@, *key).1,
                    ),
                )
            } else {
                None::<(usize, K, V)>
            },
    {
        match self.index_of(key) {
            Some(i) => {
                proof {
                    lemma_key_index_agrees(self@, *key, i as int);
                }
                let entry = self.entries[i];
                Some((i, entry.0, entry.1))
            },
            None => None,
        }
    }

    /// The position of the entry carrying `*key`, or `None` when the key is
    /// absent.
    pub fn get_index_of(&self, key: &K) -> (r: Option<usize>)
        requires
            self.wf(),
            obeys_concrete_eq::<K>(),
        ensures
            r == if has_key(self@, *key) {
                Some(key_index(self@, *key) as usize)
            } else {
                None::<usize>
            },
    {
        match self.index_of(key) {
            Some(i) => {
                proof {
                    lemma_key_index_agrees(self@, *key, i as int);
                }
                Some(i)
            },
            None => None,
        }
    }

    /// The key and value of the entry carrying `*key`, or `None` when the
    /// key is absent.
    pub fn get_key_value(&self, key: &K) -> (r: Option<(K, V)>)
        requires
            self.wf(),
            obeys_concrete_eq::<K>(),
        ensures
            r == if has_key(self@, *key) {
                Some(entry_of(self@, *key))
            } else {
                None::<(K, V)>
            },
    {
        match self.index_of(key) {
            Some(i) => {
                proof {
                    lemma_key_index_agrees(self@, *key, i as int);
                }
                let entry = self.entries[i];
                Some(entry)
            },
            None => None,
        }
    }

    /// Inserts `key` with `value`. An already present key keeps its
    /// position and has its value replaced, and the prior value comes back;
    /// a fresh key is appended at the end of the iteration order.
    pub fn insert(&mut self, key: K, value: V) -> (prior: Option<V>)
        requires
            old(self).wf(),
            obeys_concrete_eq::<K>(),
        ensures
            final(self)@ == insert_pair(old(self)@, key, value),
            final(self).wf(),
            prior == if has_key(old(self)@, key) {
                Some(value_of(old(self)@, key))
            } else {
                None::<V>
            },
    {
        match self.index_of(&key) {
            Some(i) => {
                proof {
                    lemma_key_index_agrees(self@, key, i as int);
                }
                let prior = self.entries[i].1;
                self.entries[i] = (key, value);
                proof {
                    lemma_distinct_update(old(self)@, i as int, key, value);
                }
                Some(prior)
            },
            None => {
                self.entries.push((key, value));
                proof {
                    lemma_distinct_push(old(self)@, key, value);
                }
                None
            },
        }
    }

    /// Removes the entry carrying `*key`, keeping the relative order of the
    /// remaining entries, and returns the removed value. An absent key is a
    /// no-op, not an error, and yields `None`.
    pub fn remove(&mut self, key: &K) -> (removed: Option<V>)
        requires
            old(self).wf(),
            obeys_concrete_eq::<K>(),
        ensures
            final(self)@ == remove_key(old(self)@, *key),
            final(self).wf(),
            removed == if has_key(old(self)@, *key) {
                Some(value_of(old(self)@, *key))
            } else {
                None::<V>
            },
    {
        match self.remove_entry(key) {
            Some(entry) => Some(entry.1),
            None => None,
        }
    }

    /// Removes the entry carrying `*key` as `remove` does, returning both
    /// the stored key and the value, or `None` when the key is absent.
    pub fn remove_entry(&mut self, key: &K) -> (removed: Option<(K, V)>)
        requires
            old(self).wf(),
            obeys_concrete_eq::<K>(),
        ensures
            final(self)@ == remove_key(old(self)@, *key),
            final(self).wf(),
            removed == if has_key(old(self)@, *key) {
                Some(entry_of(old(self)@, *key))
            } else {
                None::<(K, V)>
            },
    {
        match self.index_of(key) {
            Some(i) => {
                proof {
                    lemma_key_index_agrees(self@, *key, i as int);
                }
                let entry = self.entries.remove(i);
                proof {
                    lemma_distinct_remove(old(self)@, i as int);
                }
                Some(entry)
            },
            None => None,
        }
    }

    /// Every entry, in iteration order, copied out into a vector of
    /// key/value pairs.
    pub fn iter(&self) -> (r: Vec<(K, V)>)
        ensures
            r@ == self@,
    {
        let mut r: Vec<(K, V)> = Vec::with_capacity(self.entries.len());
        let mut i: usize = 0;
        while i < self.entries.len()
            invariant
                i <= self@.len(),
                r@ =~= self@.subrange(0, i as int),
            decreases self@.len() - i,
        {
            r.push(self.entries[i]);
            i += 1;
        }
        proof {
            assert(r@ =~= self@);
        }
        r
    }

    /// Inserts every pair of `pairs`, in order, as `insert` does.
    fn insert_all(&mut self, pairs: &Vec<(K, V)>)
        requires
            old(self).wf(),
            obeys_concrete_eq::<K>(),
        ensures
            final(self)@ == built_from(old(self)@, pairs@),
            final(self).wf(),
    {
        let mut i: usize = 0;
        while i < pairs.len()
            invariant
                obeys_concrete_eq::<K>(),
                i <= pairs@.len(),
                self.wf(),
                self@ == built_from(old(self)@, pairs@.take(i as int)),
            decreases pairs@.len() - i,
        {
            let pair = pairs[i];
            self.insert(pair.0, pair.1);
            proof {
                let taken = pairs@.take(i + 1 as int);
                assert(taken.drop_last() =~= pairs@.take(i as int));
                assert(taken.last() == pairs@[i as int]);
            }
            i += 1;
        }
        proof {
            assert(pairs@.take(pairs@.len() as int) =~= pairs@);
        }
    }

    /// A dictionary holding every pair of `tuples`, inserted in order.
    /// An empty sequence of pairs is a usage fault here, so callers must
    /// hand over at least one pair.
    pub fn from_tuples(tuples: Vec<(K, V)>) -> (r: Dictionary<K, V>)
        requires
            obeys_concrete_eq::<K>(),
            tuples@.len() > 0,
        ensures
            r@ == built(tuples@),
            r.wf(),
    {
        let mut dict: Dictionary<K, V> = Dictionary::with_capacity(tuples.len());
        dict.insert_all(&tuples);
        dict
    }

    /// A dictionary holding every pair of `pairs`, inserted in order. More
    /// permissive than `from_tuples`: an empty sequence of pairs simply
    /// yields an empty dictionary.
    pub fn from_iter(pairs: Vec<(K, V)>) -> (r: Dictionary<K, V>)
        requires
            obeys_concrete_eq::<K>(),
        ensures
            r@ == built(pairs@),
            r.wf(),
    {
        let mut dict: Dictionary<K, V> = Dictionary::new();
        dict.insert_all(&pairs);
        dict
    }

    /// A dictionary pairing `key_vec[i]` with `value_vec[i]`, the pairs
    /// inserted in forward order. Sequences of different lengths, or two
    /// empty sequences, are a usage fault, so callers must hand over
    /// sequences of one equal, positive length.
    pub fn from_vecs(key_vec: Vec<K>, value_vec: Vec<V>) -> (r: Dictionary<K, V>)
        requires
            obeys_concrete_eq::<K>(),
            key_vec@.len() == value_vec@.len(),
            key_vec@.len() > 0,
        ensures
            r@ == built(zipped(key_vec@, value_vec@)),
            r.wf(),
    {
        let mut dict: Dictionary<K, V> = Dictionary::with_capacity(key_vec.len());
        let mut i: usize = 0;
        while i < key_vec.len()
            invariant
                obeys_concrete_eq::<K>(),
                i <= key_vec@.len(),
                key_vec@.len() == value_vec@.len(),
                dict.wf(),
                dict@ == built(zipped(key_vec@, value_vec@).take(i as int)),
            decreases key_vec@.len() - i,
        {
            dict.insert(key_vec[i], value_vec[i]);
            proof {
                let z = zipped(key_vec@, value_vec@);
                let taken = z.take(i + 1 as int);
                assert(taken.drop_last() =~= z.take(i as int));
                assert(taken.last() == z[i as int]);
            }
            i += 1;
        }
        proof {
            let z = zipped(key_vec@, value_vec@);
            assert(z.take(z.len() as int) =~= z);
        }
        dict
    }
}

/// Replacing the value at a position, keeping its key, keeps the keys
/// distinct.
proof fn lemma_distinct_update<K, V>(s: Seq<(K, V)>, i: int, k: K, v: V)
    requires
        distinct_keys(s),
        0 <= i < s.len(),
        s[i].0 == k,
    ensures
        distinct_keys(s.update(i, (k, v))),
{
    let s2 = s.update(i, (k, v));
    assert forall|a: int, b: int| 0 <= a < b < s2.len() implies s2[a].0 != s2[b].0 by {
        assert(s2[a].0 == s[a].0);
        assert(s2[b].0 == s[b].0);
        assert(s[a].0 != s[b].0);
    }
}

/// Appending an entry whose key is fresh keeps the keys distinct.
proof fn lemma_distinct_push<K, V>(s: Seq<(K, V)>, k: K, v: V)
    requires
        distinct_keys(s),
        !has_key(s, k),
    ensures
        distinct_keys(s.push((k, v))),
{
    let s2 = s.push((k, v));
    assert forall|a: int, b: int| 0 <= a < b < s2.len() implies s2[a].0 != s2[b].0 by {
        if b == s.len() {
            assert(s2[b].0 == k);
            assert(s[a].0 != k);
        } else {
            assert(s[a].0 != s[b].0);
        }
    }
}

/// Taking one entry out keeps the keys distinct.
proof fn lemma_distinct_remove<K, V>(s: Seq<(K, V)>, i: int)
    requires
        distinct_keys(s),
        0 <= i < s.len(),
    ensures
        distinct_keys(s.remove(i)),
{
    let s2 = s.remove(i);
    assert forall|a: int, b: int| 0 <= a < b < s2.len() implies s2[a].0 != s2[b].0 by {
        let a0: int = if a < i { a } else { a + 1 };
        let b0: int = if b < i { b } else { b + 1 };
        assert(s2[a] == s[a0]);
        assert(s2[b] == s[b0]);
        assert(s[a0].0 != s[b0].0);
    }
}

/// When the keys of `s` are distinct and position `i` carries `k`, the
/// chosen index of `k` is exactly `i`.
pub proof fn lemma_key_index_agrees<K, V>(s: Seq<(K, V)>, k: K, i: int)
    requires
        distinct_keys(s),
        0 <= i < s.len(),
        s[i].0 == k,
    ensures
        has_key(s, k),
        key_index(s, k) == i,
{
    assert(has_key(s, k));
    let j = key_index(s, k);
    if j < i {
        assert(false);
    } else if j > i {
        assert(false);
    }
}

/// Whether every entry of `a` also stands somewhere in `b`.
pub open spec fn entries_subset<K, V>(a: Seq<(K, V)>, b: Seq<(K, V)>) -> bool {
    forall|i: int| 0 <= i < a.len() ==> b.contains(a[i])
}

/// Content equality of two entry sequences: the same set of key/value
/// pairs, in whatever order.
pub open spec fn same_entries<K, V>(a: Seq<(K, V)>, b: Seq<(K, V)>) -> bool {
    entries_subset(a, b) && entries_subset(b, a)
}

/// Whether the entry `pair` stands somewhere in `b`.
fn entry_in<K: Copy + PartialEq, V: Copy + PartialEq>(b: &Vec<(K, V)>, pair: (K, V)) -> (r:
    bool)
    ensures
        obeys_concrete_eq::<K>() && obeys_concrete_eq::<V>() ==> r == b@.contains(pair),
{
    let mut j: usize = 0;
    while j < b.len()
        invariant
            obeys_concrete_eq::<K>() && obeys_concrete_eq::<V>() ==> forall|m: int|
                0 <= m < j ==> b@[m] != pair,
            j <= b@.len(),
        decreases b@.len() - j,
    {
        let candidate = b[j];
        let key_hit = candidate.0 == pair.0;
        let value_hit = candidate.1 == pair.1;
        proof {
            if obeys_concrete_eq::<K>() && obeys_concrete_eq::<V>() {
                lemma_eq_agrees(b@[j as int].0, pair.0);
                lemma_eq_agrees(b@[j as int].1, pair.1);
            }
        }
        if key_hit && value_hit {
            return true;
        }
        j += 1;
    }
    false
}

/// Whether every entry of `a` also stands somewhere in `b`.
fn subset_check<K: Copy + PartialEq, V: Copy + PartialEq>(
    a: &Vec<(K, V)>,
    b: &Vec<(K, V)>,
) -> (r: bool)
    ensures
        obeys_concrete_eq::<K>() && obeys_concrete_eq::<V>() ==> r == entries_subset(a@, b@),
{
    let mut i: usize = 0;
    while i < a.len()
        invariant
            obeys_concrete_eq::<K>() && obeys_concrete_eq::<V>() ==> forall|m: int|
                0 <= m < i ==> b@.contains(a@[m]),
            i <= a@.len(),
        decreases a@.len() - i,
    {
        if !entry_in(b, a[i]) {
            return false;
        }
        i += 1;
    }
    true
}

impl<K: Copy + PartialEq, V: Copy + PartialEq> PartialEq for Dictionary<K, V> {
    /// Two dictionaries are equal exactly when they hold the same set of
    /// key/value pairs; iteration order plays no part in equality.
    fn eq(&self, other: &Dictionary<K, V>) -> (r: bool) {
        let forward = subset_check(&self.entries, &other.entries);
        let backward = subset_check(&other.entries, &self.entries);
        forward && backward
    }
}

impl<K: Copy + PartialEq, V: Copy + PartialEq> vstd::std_specs::cmp::PartialEqSpecImpl for Dictionary<K, V> {
    open spec fn obeys_eq_spec() -> bool {
        obeys_concrete_eq::<K>() && obeys_concrete_eq::<V>()
    }

    open spec fn eq_spec(&self, other: &Dictionary<K, V>) -> bool {
        same_entries(self@, other@)
    }
}

/// After inserting a key it is present and carries the value just inserted;
/// inserting over a present key keeps the number of entries, inserting a
/// fresh key grows it by exactly one, and either way the keys stay
/// distinct. Every other key stays present, or absent, exactly as it was,
/// with its value unchanged.
pub proof fn lemma_insert_then_get<K, V>(s: Seq<(K, V)>, k: K, v: V)
    requires
        distinct_keys(s),
    ensures
        distinct_keys(insert_pair(s, k, v)),
        has_key(insert_pair(s, k, v), k),
        value_of(insert_pair(s, k, v), k) == v,
        insert_pair(s, k, v).len() == if has_key(s, k) {
            s.len()
        } else {
            s.len() + 1
        },
        forall|k2: K| k2 != k ==> (has_key(insert_pair(s, k, v), k2) == has_key(s, k2)),
        forall|k2: K| k2 != k && has_key(s, k2) ==> value_of(insert_pair(s, k, v), k2)
            == value_of(s, k2),
{
    let s2 = insert_pair(s, k, v);
    if has_key(s, k) {
        let i = key_index(s, k);
        lemma_distinct_update(s, i, k, v);
        lemma_key_index_agrees(s2, k, i);
        assert forall|k2: K| k2 != k implies (has_key(s2, k2) == has_key(s, k2)) by {
            assert forall|m: int| 0 <= m < s.len() implies s2[m].0 == s[m].0 by {}
            if has_key(s, k2) {
                let j = key_index(s, k2);
                assert(s2[j].0 == k2);
            } else {
                if has_key(s2, k2) {
                    let m = key_index(s2, k2);
                    assert(s[m].0 == k2);
                }
            }
        }
        assert forall|k2: K| k2 != k && has_key(s, k2) implies value_of(s2, k2) == value_of(
            s,
            k2,
        ) by {
            let j = key_index(s, k2);
            assert(j != i);
            assert(s2[j] == s[j]);
            lemma_key_index_agrees(s2, k2, j);
        }
    } else {
        lemma_distinct_push(s, k, v);
        lemma_key_index_agrees(s2, k, s.len() as int);
        assert forall|k2: K| k2 != k implies (has_key(s2, k2) == has_key(s, k2)) by {
            if has_key(s, k2) {
                let j = key_index(s, k2);
                assert(s2[j].0 == k2);
            } else {
                if has_key(s2, k2) {
                    let m = key_index(s2, k2);
                    assert(m < s.len());
                    assert(s[m].0 == k2);
                }
            }
        }
        assert forall|k2: K| k2 != k && has_key(s, k2) implies value_of(s2, k2) == value_of(
            s,
            k2,
        ) by {
            let j = key_index(s, k2);
            assert(s2[j] == s[j]);
            lemma_key_index_agrees(s2, k2, j);
        }
    }
}

/// Removing a present key takes it out and shrinks the dictionary by
/// exactly one entry; removing an absent key changes nothing. Every other
/// key stays present, or absent, exactly as it was, with its value
/// unchanged, and the keys stay distinct.
pub proof fn lemma_remove_then_absent<K, V>(s: Seq<(K, V)>, k: K)
    requires
        distinct_keys(s),
    ensures
        distinct_keys(remove_key(s, k)),
        !has_key(remove_key(s, k), k),
        remove_key(s, k).len() == if has_key(s, k) {
            s.len() - 1
        } else {
            s.len() as int
        },
        forall|k2: K| k2 != k ==> (has_key(remove_key(s, k), k2) == has_key(s, k2)),
        forall|k2: K| k2 != k && has_key(s, k2) ==> value_of(remove_key(s, k), k2)
            == value_of(s, k2),
{
    if has_key(s, k) {
        let i = key_index(s, k);
        let s2 = remove_key(s, k);
        lemma_distinct_remove(s, i);
        assert forall|m: int| 0 <= m < s2.len() implies s2[m] == s[if m < i {
            m
        } else {
            m + 1
        }] by {}
        assert forall|m: int| 0 <= m < s2.len() implies s2[m].0 != k by {
            let m0: int = if m < i { m } else { m + 1 };
            assert(s2[m] == s[m0]);
            assert(s[m0].0 != s[i].0);
        }
        assert(!has_key(s2, k));
        assert forall|k2: K| k2 != k implies (has_key(s2, k2) == has_key(s, k2)) by {
            if has_key(s, k2) {
                let j = key_index(s, k2);
                let j2: int = if j < i { j } else { j - 1 };
                assert(j != i);
                assert(s2[j2] == s[j]);
                assert(has_key(s2, k2));
            } else {
                if has_key(s2, k2) {
                    let m = key_index(s2, k2);
                    let m0: int = if m < i { m } else { m + 1 };
                    assert(s2[m] == s[m0]);
                    assert(false);
                }
            }
        }
        assert forall|k2: K| k2 != k && has_key(s, k2) implies value_of(s2, k2)
            == value_of(s, k2) by {
            let j = key_index(s, k2);
            let j2: int = if j < i { j } else { j - 1 };
            assert(j != i);
            assert(s2[j2] == s[j]);
            lemma_key_index_agrees(s2, k2, j2);
        }
    }
}

/// Building a dictionary from pairs whose keys are pairwise distinct keeps
/// every pair, in order, with no duplicates and no omissions: iterating it
/// yields exactly the pairs that went in.
pub proof fn lemma_built_round_trip<K, V>(pairs: Seq<(K, V)>)
    requires
        distinct_keys(pairs),
    ensures
        built(pairs) == pairs,
    decreases pairs.len(),
{
    if pairs.len() == 0 {
        assert(built(pairs) =~= pairs);
    } else {
        let front = pairs.drop_last();
        assert(distinct_keys(front));
        lemma_built_round_trip(front);
        if has_key(front, pairs.last().0) {
            let j = key_index(front, pairs.last().0);
            assert(front[j] == pairs[j]);
            assert(pairs[j].0 != pairs[pairs.len() - 1].0);
            assert(false);
        }
        assert(built(pairs) == front.push(pairs.last()));
        assert(front.push(pairs.last()) =~= pairs);
    }
}

/// From parallel key and value sequences of one equal, positive length,
/// with pairwise distinct keys, the built dictionary holds exactly one
/// entry per position, and every key carries the value it was paired with.
pub proof fn lemma_from_parallel_sequences<K, V>(keys: Seq<K>, vals: Seq<V>)
    requires
        keys.len() == vals.len(),
        keys.len() > 0,
        forall|i: int, j: int| 0 <= i < j < keys.len() ==> keys[i] != keys[j],
    ensures
        built(zipped(keys, vals)).len() == keys.len(),
        forall|i: int| 0 <= i < keys.len() ==> has_key(built(zipped(keys, vals)), keys[i]),
        forall|i: int| 0 <= i < keys.len() ==> value_of(built(zipped(keys, vals)), keys[i])
            == vals[i],
{
    let z = zipped(keys, vals);
    assert(distinct_keys(z));
    lemma_built_round_trip(z);
    assert forall|i: int| 0 <= i < keys.len() implies #[trigger] has_key(
        built(zipped(keys, vals)),
        keys[i],
    ) by {
        assert(built(zipped(keys, vals)) == z);
        lemma_key_index_agrees(z, keys[i], i);
    }
    assert forall|i: int| 0 <= i < keys.len() implies #[trigger] value_of(
        built(zipped(keys, vals)),
        keys[i],
    ) == vals[i] by {
        assert(built(zipped(keys, vals)) == z);
        lemma_key_index_agrees(z, keys[i], i);
    }
}

} // verus!
