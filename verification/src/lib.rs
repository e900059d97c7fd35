//! A minimal chained hash table.
//!
//! [`HashMap`] stores key-value pairs in an array of buckets; each bucket
//! holds a chain of entries in insertion order.  Keys are never
//! deduplicated: inserting an existing key appends a second entry, and a
//! lookup or removal always finds the first-inserted entry whose key
//! compares equal.  The bucket array is allocated lazily on the first
//! insertion (to a single bucket) and is never resized afterwards, so the
//! table behaves like an association list kept in one chain.
//!
//! The abstract model of a table is the sequence of its entries in
//! insertion order, given by [`View`]; the meaning of lookup and removal
//! over that sequence is given by [`spec_get`] and [`spec_remove`].

use std::collections::hash_map::DefaultHasher;
use std::hash::{Hash, Hasher};
use vstd::prelude::*;
use vstd::std_specs::cmp::PartialEqSpec;

verus! {

/// The value a lookup for `k` finds in the entry sequence `s`: the value of
/// the first entry whose key compares equal to `k` (by the key type's `==`),
/// or `None` when no entry matches.
pub open spec fn spec_get<K: PartialEq, V>(s: Seq<(K, V)>, k: K) -> Option<V>
    decreases s.len(),
{
    if s.len() == 0 {
        None
    } else if k.eq_spec(&s[0].0) {
        Some(s[0].1)
    } else {
        spec_get(s.drop_first(), k)
    }
}

/// The entry sequence left after removing the first entry of `s` whose key
/// compares equal to `k`; `s` itself when no entry matches.
pub open spec fn spec_remove<K: PartialEq, V>(s: Seq<(K, V)>, k: K) -> Seq<(K, V)>
    decreases s.len(),
{
    if s.len() == 0 {
        s
    } else if k.eq_spec(&s[0].0) {
        s.drop_first()
    } else {
        seq![s[0]] + spec_remove(s.drop_first(), k)
    }
}

/// A lookup on an empty table finds nothing and a removal changes nothing,
/// whatever the key.
pub proof fn lemma_empty_finds_nothing<K: PartialEq, V>(k: K)
    ensures
        spec_get(Seq::<(K, V)>::empty(), k) is None,
        spec_remove(Seq::<(K, V)>::empty(), k) == Seq::<(K, V)>::empty(),
{
}

/// A removal takes away exactly one entry when a lookup for the same key
/// would succeed, and none otherwise.  Together with an insertion always
/// adding one entry, the entry count therefore always equals the number of
/// insertions made minus the number of removals that returned a value.
pub proof fn lemma_remove_len<K: PartialEq, V>(s: Seq<(K, V)>, k: K)
    ensures
        spec_remove(s, k).len() == s.len() - (if spec_get(s, k) is Some { 1int } else { 0int }),
    decreases s.len(),
{
    if s.len() > 0 && !k.eq_spec(&s[0].0) {
        lemma_remove_len(s.drop_first(), k);
    }
}

/// What a lookup finds right after an insertion: the newly inserted value
/// when the key was absent, and the first-inserted matching value — not
/// the new one — when the key was already present.  Holds for any key that
/// compares equal to itself, as every faithful `Eq` implementation
/// provides.
pub proof fn lemma_get_after_insert<K: PartialEq, V>(s: Seq<(K, V)>, k: K, v: V)
    requires
        k.eq_spec(&k),
    ensures
        spec_get(s.push((k, v)), k) == (if spec_get(s, k) is Some {
            spec_get(s, k)
        } else {
            Some(v)
        }),
    decreases s.len(),
{
    if s.len() > 0 {
        assert(s.push((k, v))[0] == s[0]);
        if !k.eq_spec(&s[0].0) {
            assert(s.push((k, v)).drop_first() =~= s.drop_first().push((k, v)));
            lemma_get_after_insert(s.drop_first(), k, v);
        }
    }
}

/// Round trip: removing a key right after inserting it takes away exactly
/// one entry, so the entry count returns to what it was before the
/// insertion; when the key was absent, the removal takes away precisely
/// the new entry and restores the table as it stood.  Holds for any key
/// that compares equal to itself.
pub proof fn lemma_remove_after_insert<K: PartialEq, V>(s: Seq<(K, V)>, k: K, v: V)
    requires
        k.eq_spec(&k),
    ensures
        spec_remove(s.push((k, v)), k) == (if spec_get(s, k) is Some {
            spec_remove(s, k).push((k, v))
        } else {
            s
        }),
        spec_remove(s.push((k, v)), k).len() == s.len(),
    decreases s.len(),
{
    lemma_remove_len(s, k);
    if s.len() == 0 {
        assert(s.push((k, v)).drop_first() =~= s);
    } else {
        assert(s.push((k, v))[0] == s[0]);
        if k.eq_spec(&s[0].0) {
            assert(s.push((k, v)).drop_first() =~= s.drop_first().push((k, v)));
        } else {
            assert(s.push((k, v)).drop_first() =~= s.drop_first().push((k, v)));
            lemma_remove_after_insert(s.drop_first(), k, v);
            if spec_get(s.drop_first(), k) is Some {
                assert(seq![s[0]] + spec_remove(s.drop_first(), k).push((k, v)) =~= (seq![s[0]]
                    + spec_remove(s.drop_first(), k)).push((k, v)));
            } else {
                assert(seq![s[0]] + s.drop_first() =~= s);
            }
        }
    }
}

/// Inserting the same key twice and then removing it once leaves an entry
/// for that key still retrievable, with exactly one entry fewer than right
/// after the two insertions.  Starting from a table where the key was
/// absent, the removal returns the first of the two values and a lookup
/// then finds the second.  Holds for any key that compares equal to
/// itself.
pub proof fn lemma_insert_twice_remove_once<K: PartialEq, V>(s: Seq<(K, V)>, k: K, v1: V, v2: V)
    requires
        k.eq_spec(&k),
    ensures
        spec_get(spec_remove(s.push((k, v1)).push((k, v2)), k), k) is Some,
        spec_remove(s.push((k, v1)).push((k, v2)), k).len() == s.len() + 1,
        spec_get(s, k) is None ==> spec_remove(s.push((k, v1)).push((k, v2)), k) == s.push(
            (k, v2),
        ) && spec_get(s.push((k, v1)).push((k, v2)), k) == Some(v1) && spec_get(
            spec_remove(s.push((k, v1)).push((k, v2)), k),
            k,
        ) == Some(v2),
{
    let s1 = s.push((k, v1));
    lemma_get_after_insert(s, k, v1);
    lemma_get_after_insert(s1, k, v2);
    lemma_remove_after_insert(s1, k, v2);
    lemma_remove_after_insert(s, k, v1);
    lemma_get_after_insert(s, k, v2);
    lemma_get_after_insert(spec_remove(s1, k), k, v2);
}

/// A scan that first matches at index `i` finds exactly what [`spec_get`]
/// and [`spec_remove`] describe: the value at `i`, and the sequence with
/// the entry at `i` taken out.
proof fn lemma_first_match<K: PartialEq, V>(s: Seq<(K, V)>, k: K, i: int)
    requires
        0 <= i < s.len(),
        k.eq_spec(&s[i].0),
        forall|j: int| 0 <= j < i ==> !k.eq_spec(&s[j].0),
    ensures
        spec_get(s, k) == Some(s[i].1),
        spec_remove(s, k) == s.remove(i),
    decreases i,
{
    if i == 0 {
        assert(s.drop_first() =~= s.remove(0));
    } else {
        assert(forall|j: int| 0 <= j < i - 1 ==> !k.eq_spec(&s.drop_first()[j].0));
        lemma_first_match(s.drop_first(), k, i - 1);
        assert(seq![s[0]] + s.drop_first().remove(i - 1) =~= s.remove(i));
    }
}

/// A scan that matches nowhere finds nothing, and removal leaves the
/// sequence as it was.
proof fn lemma_no_match<K: PartialEq, V>(s: Seq<(K, V)>, k: K)
    requires
        forall|j: int| 0 <= j < s.len() ==> !k.eq_spec(&s[j].0),
    ensures
        spec_get(s, k) is None,
        spec_remove(s, k) == s,
    decreases s.len(),
{
    if s.len() > 0 {
        assert(forall|j: int| 0 <= j < s.drop_first().len() ==> !k.eq_spec(&s.drop_first()[j].0));
        lemma_no_match(s.drop_first(), k);
        assert(seq![s[0]] + s.drop_first() =~= s);
    }
}

/// Relies on `core::hash::Hash::hash`: feeds the key's representation into
/// the hasher.  Nothing is assumed about the bytes written, so nothing is
/// known about the digest either; no contract of this crate depends on the
/// hash value, only on the bucket index it is reduced to staying in range.
#[verifier::external_body]
fn hash_key_into<K: Hash>(key: &K, state: &mut DefaultHasher) {
    key.hash(state)
}

/// An associative container keyed by any hashable, equality-comparable
/// type.  Entries live in bucket chains; within a chain, insertion order is
/// preserved, equal keys are kept side by side, and the first match wins.
pub struct HashMap<K, V> {
    buckets: Vec<Vec<(K, V)>>,
    len: usize,
}

impl<K, V> View for HashMap<K, V> {
    type V = Seq<(K, V)>;

    /// All stored entries, in insertion order.
    closed spec fn view(&self) -> Seq<(K, V)> {
        if self.buckets@.len() == 0 {
            Seq::empty()
        } else {
            self.buckets@[0]@
        }
    }
}

impl<K, V> HashMap<K, V> where K: Hash + Eq {
    /// Internal consistency: the bucket array is grown exactly once, from
    /// zero buckets to one, so it never holds more than one bucket; the
    /// entry counter always equals the number of stored entries.
    pub closed spec fn wf(&self) -> bool {
        &&& self.buckets@.len() <= 1
        &&& self.len == self@.len()
    }

    /// Hashes `k` and reduces the digest modulo the bucket count to a
    /// bucket index; with no buckets allocated yet there is nowhere to
    /// resolve to, which callers treat as "no such key".
    fn get_bucket(&self, k: &K) -> (r: Option<usize>)
        ensures
            match r {
                Some(i) => self.buckets@.len() > 0 && i < self.buckets@.len(),
                None => self.buckets@.len() == 0,
            },
    {
        if self.buckets.is_empty() {
            return None;
        }

        let mut hasher = DefaultHasher::new();
        hash_key_into(k, &mut hasher);
        let n: u64 = self.buckets.len() as u64;
        Some((hasher.finish() % n) as usize)
    }

    /// Reallocates the bucket array to its next size (one bucket when there
    /// is none yet, twice as many otherwise) and rehashes every stored
    /// entry into the new array.  [`HashMap::insert`] invokes this only as
    /// a guard before the very first insertion, so the table is grown
    /// exactly once and the precondition restricts this operation to that
    /// state.
    fn grow_buckets(&mut self)
        requires
            old(self).buckets@.len() == 0,
        ensures
            final(self).buckets@.len() == 1,
            final(self)@ == old(self)@,
            final(self).len == old(self).len,
    {
        let new_size: usize = if self.buckets.is_empty() {
            1
        } else {
            self.buckets.len() * 2
        };
        let mut new_buckets: Vec<Vec<(K, V)>> = Vec::with_capacity(new_size);
        while new_buckets.len() < new_size
            invariant
                new_buckets@.len() <= new_size,
                forall|j: int| 0 <= j < new_buckets@.len() ==> new_buckets@[j]@.len() == 0,
            decreases new_size - new_buckets@.len(),
        {
            new_buckets.push(Vec::new());
        }

        let mut b: usize = 0;
        while b < self.buckets.len()
            invariant
                self.buckets@.len() == 0,
                self.len == old(self).len,
                new_buckets@.len() == new_size,
                forall|j: int| 0 <= j < new_buckets@.len() ==> new_buckets@[j]@.len() == 0,
            decreases self.buckets@.len() - b,
        {
            while self.buckets[b].len() > 0
                invariant
                    self.buckets@.len() == 0,
                    self.len == old(self).len,
                    b < self.buckets@.len(),
                    new_buckets@.len() == new_size,
                    new_size >= 1,
                decreases self.buckets@[b as int]@.len(),
            {
                let (key, value) = self.buckets[b].remove(0);
                let mut hasher = DefaultHasher::new();
                hash_key_into(&key, &mut hasher);
                let target: usize = (hasher.finish() % (new_size as u64)) as usize;
                new_buckets[target].push((key, value));
            }
            b = b + 1;
        }

        self.buckets = new_buckets;
    }

    /// Creates a table with no entries and no buckets yet.
    pub fn new() -> (r: Self)
        ensures
            r.wf(),
            r@ == Seq::<(K, V)>::empty(),
    {
        Self { buckets: Vec::new(), len: 0 }
    }

    /// Linear scan of one bucket chain: the index of the first entry whose
    /// key compares equal to `k`, if any.  What `==` decides is only known
    /// when the key type's equality obeys its specification.
    fn find_index(chain: &Vec<(K, V)>, k: &K) -> (r: Option<usize>)
        ensures
            match r {
                Some(i) => i < chain@.len() && (K::obeys_eq_spec()
                    ==> (*k).eq_spec(&chain@[i as int].0) && (forall|j: int|
                        0 <= j < i ==> !(*k).eq_spec(&chain@[j].0))),
                None => K::obeys_eq_spec() ==> (forall|j: int|
                    0 <= j < chain@.len() ==> !(*k).eq_spec(&chain@[j].0)),
            },
    {
        let mut i: usize = 0;
        while i < chain.len()
            invariant
                i <= chain@.len(),
                K::obeys_eq_spec() ==> (forall|j: int|
                    0 <= j < i ==> !(*k).eq_spec(&chain@[j].0)),
            decreases chain@.len() - i,
        {
            if *k == chain[i].0 {
                return Some(i);
            }
            i = i + 1;
        }
        None
    }

    /// Appends the entry `(k, v)` to the chain of the bucket `k` hashes
    /// to, allocating the bucket array first if this is the table's very
    /// first insertion.  No check is made for an existing equal key: the
    /// new entry is stored alongside any older ones, after them in
    /// insertion order.
    pub fn insert(&mut self, k: K, v: V)
        requires
            old(self).wf(),
            old(self)@.len() < usize::MAX,
        ensures
            final(self).wf(),
            final(self)@ == old(self)@.push((k, v)),
            final(self)@.len() == old(self)@.len() + 1,
    {
        if self.buckets.is_empty() {
            self.grow_buckets();
        }

        let bucket = self.get_bucket(&k).unwrap();
        self.buckets[bucket].push((k, v));
        self.len = self.len + 1;
    }

    /// True iff the table holds no entries.
    pub fn empty(&self) -> (r: bool)
        requires
            self.wf(),
        ensures
            r <==> self@.len() == 0,
    {
        self.len == 0
    }

    /// The number of stored entries: every insertion adds one, whether or
    /// not its key was already present, and every successful removal takes
    /// one away.
    pub fn len(&self) -> (r: usize)
        requires
            self.wf(),
        ensures
            r == self@.len(),
    {
        self.len
    }

    /// Looks `k` up: a reference to the value of the first-inserted entry
    /// whose key compares equal to `k`, or `None` when no entry matches —
    /// in particular, always `None` on an empty table.
    pub fn get(&self, k: &K) -> (r: Option<&V>)
        requires
            self.wf(),
        ensures
            self@.len() == 0 ==> r is None,
            K::obeys_eq_spec() ==> match r {
                Some(v) => spec_get(self@, *k) == Some(*v),
                None => spec_get(self@, *k) is None,
            },
    {
        if self.empty() {
            return None;
        }

        let bucket = self.get_bucket(k)?;
        match Self::find_index(&self.buckets[bucket], k) {
            Some(i) => {
                proof {
                    if K::obeys_eq_spec() {
                        lemma_first_match(self@, *k, i as int);
                    }
                }
                Some(&self.buckets[bucket][i].1)
            },
            None => {
                proof {
                    if K::obeys_eq_spec() {
                        lemma_no_match(self@, *k);
                    }
                }
                None
            },
        }
    }

    /// Removes the first-inserted entry whose key compares equal to `k`
    /// and returns its value; later entries in the chain keep their
    /// relative order, and further entries with an equal key stay in the
    /// table.  Returns `None`, leaving the table unchanged, when no entry
    /// matches — in particular, always on an empty table.
    pub fn remove(&mut self, k: &K) -> (r: Option<V>)
        requires
            old(self).wf(),
        ensures
            final(self).wf(),
            old(self)@.len() == 0 ==> r is None,
            r is Some ==> final(self)@.len() == old(self)@.len() - 1,
            r is None ==> final(self)@ == old(self)@,
            K::obeys_eq_spec() ==> r == spec_get(old(self)@, *k)
                && final(self)@ == spec_remove(old(self)@, *k),
    {
        if self.empty() {
            return None;
        }

        let bucket = self.get_bucket(k)?;
        match Self::find_index(&self.buckets[bucket], k) {
            Some(i) => {
                proof {
                    if K::obeys_eq_spec() {
                        lemma_first_match(self@, *k, i as int);
                    }
                }
                let entry = self.buckets[bucket].remove(i);
                self.len = self.len - 1;
                Some(entry.1)
            },
            None => {
                proof {
                    if K::obeys_eq_spec() {
                        lemma_no_match(self@, *k);
                    }
                }
                None
            },
        }
    }
}

impl<K, V> Default for HashMap<K, V> where K: Hash + Eq {
    /// An empty table, as [`HashMap::new`] builds it.
    fn default() -> (r: Self)
        ensures
            r.wf(),
            r@ == Seq::<(K, V)>::empty(),
    {
        Self::new()
    }
}

} // verus!

