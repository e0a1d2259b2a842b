//! An append-only association list held as two parallel vectors.

use vstd::laws_eq::obeys_concrete_eq;
use vstd::prelude::*;

verus! {

/// A list of `(key, value)` entries in the order in which they were added.
///
/// Entry `i` is `(self.keys()[i], self.values()[i])`. The list never looks
/// for duplicates on its own: whoever appends is expected to ask
/// [`VecMap::position`] first.
#[derive(Debug, Clone)]
pub struct VecMap<K, V> {
    keys: Vec<K>,
    values: Vec<V>,
}

/// Appending a key leaves every earlier first occurrence where it was, and
/// makes the new position the first occurrence of a key that was not there.
pub proof fn lemma_index_of_first_push<K>(keys: Seq<K>, added: K, key: K)
    ensures
        keys.push(added).index_of_first(key) == if keys.contains(key) {
            keys.index_of_first(key)
        } else if key == added {
            Some(keys.len() as int)
        } else {
            None
        },
{
    let longer = keys.push(added);
    keys.index_of_first_ensures(key);
    longer.index_of_first_ensures(key);
    if keys.contains(key) {
        let i = keys.index_of_first(key).unwrap();
        assert(longer[i] == key);
        let j = longer.index_of_first(key).unwrap();
        if j < i {
            assert(keys[j] == longer[j]);
        } else if i < j {
            assert(longer[i] == key);
        }
    } else if key == added {
        assert(longer[keys.len() as int] == key);
        let j = longer.index_of_first(key).unwrap();
        if j < keys.len() {
            assert(keys[j] == longer[j]);
        }
    } else {
        if longer.contains(key) {
            let j = longer.index_of_first(key).unwrap();
            if j < keys.len() {
                assert(keys[j] == longer[j]);
            }
        }
    }
}

/// Reads how many elements `v` has room for, by `Vec::capacity`.
///
/// The standard library promises only that a vector's capacity is never
/// below its length; the figure itself is up to the allocator.
#[verifier::external_body]
fn vec_capacity<T>(v: &Vec<T>) -> (c: usize)
    ensures
        c >= v@.len(),
{
    v.capacity()
}

impl<K, V> VecMap<K, V> {
    /// The keys, in insertion order.
    pub closed spec fn keys(&self) -> Seq<K> {
        self.keys@
    }

    /// The values, in insertion order.
    pub closed spec fn values(&self) -> Seq<V> {
        self.values@
    }

    /// Every key has its value: the two sequences are of one length.
    pub open spec fn wf(&self) -> bool {
        self.keys().len() == self.values().len()
    }

    /// The value of the first entry whose key is `key`, if there is one.
    pub open spec fn lookup(&self, key: K) -> Option<V> {
        match self.keys().index_of_first(key) {
            Some(i) => Some(self.values()[i]),
            None => None,
        }
    }
}

impl<K, V> Default for VecMap<K, V> {
    /// An empty list.
    fn default() -> (m: Self)
        ensures
            m.wf(),
            m.keys() == Seq::<K>::empty(),
            m.values() == Seq::<V>::empty(),
    {
        VecMap { keys: Vec::new(), values: Vec::new() }
    }
}

impl<K: PartialEq, V> VecMap<K, V> {
    /// An empty list.
    pub fn new() -> (m: Self)
        ensures
            m.wf(),
            m.keys() == Seq::<K>::empty(),
            m.values() == Seq::<V>::empty(),
    {
        Self::with_capacity(0)
    }

    /// An empty list with room reserved for `capacity` entries.
    ///
    /// The reservation spares later reallocation and changes nothing that
    /// the list holds: as a list, the result is that of [`VecMap::new`].
    /// How much room there is lies with the allocator, so it is not part of
    /// what is promised here.
    pub fn with_capacity(capacity: usize) -> (m: Self)
        ensures
            m.wf(),
            m.keys() == Seq::<K>::empty(),
            m.values() == Seq::<V>::empty(),
    {
        VecMap { keys: Vec::with_capacity(capacity), values: Vec::with_capacity(capacity) }
    }

    /// The number of entries.
    pub fn len(&self) -> (n: usize)
        ensures
            n == self.keys().len(),
    {
        self.keys.len()
    }

    /// Whether the list has no entry.
    pub fn is_empty(&self) -> (b: bool)
        ensures
            b == (self.keys().len() == 0),
    {
        self.len() == 0
    }

    /// How many entries fit before either vector has to grow.
    ///
    /// The figure depends on the allocator, so all that is promised is that
    /// the entries already held fit.
    pub fn capacity(&self) -> (c: usize)
        requires
            self.wf(),
        ensures
            c >= self.keys().len(),
    {
        let a: usize = vec_capacity(&self.keys);
        let b: usize = vec_capacity(&self.values);
        if a <= b {
            a
        } else {
            b
        }
    }

    /// The position of the first entry whose key equals `key`, scanning in
    /// insertion order.
    pub fn position(&self, key: &K) -> (r: Option<usize>)
        requires
            obeys_concrete_eq::<K>(),
        ensures
            match r {
                Some(i) => i < self.keys().len() && self.keys().index_of_first(*key) == Some(
                    i as int,
                ),
                None => self.keys().index_of_first(*key) is None,
            },
    {
        proof {
            self.keys@.index_of_first_ensures(*key);
        }
        let mut i: usize = 0;
        while i < self.keys.len()
            invariant
                obeys_concrete_eq::<K>(),
                i <= self.keys@.len(),
                forall|j: int| 0 <= j < i ==> self.keys@[j] != *key,
            decreases self.keys@.len() - i,
        {
            proof {
                reveal(obeys_concrete_eq);
            }
            if self.keys[i] == *key {
                proof {
                    assert(self.keys@[i as int] == *key);
                    self.keys@.index_of_first_ensures(*key);
                }
                return Some(i);
            }
            i += 1;
        }
        None
    }

    /// The value of the entry at position `i`.
    pub fn value_at(&self, i: usize) -> (v: &V)
        requires
            i < self.values().len(),
        ensures
            *v == self.values()[i as int],
    {
        &self.values[i]
    }

    /// Appends the entry `(key, value)` after all others.
    pub(crate) fn push(&mut self, key: K, value: V)
        requires
            old(self).wf(),
        ensures
            final(self).wf(),
            final(self).keys() == old(self).keys().push(key),
            final(self).values() == old(self).values().push(value),
    {
        self.keys.push(key);
        self.values.push(value);
    }
}

} // verus!
