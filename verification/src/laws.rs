//! What holds of the trie's operations taken together, stated on the map
//! that a trie stands for.

use crate::model::inserted;
use crate::model::lemma_longest_prefix_within;
use crate::model::longest_prefix;
use vstd::prelude::*;

verus! {

/// A value that was stored for a sequence is the value read back for it.
pub proof fn lemma_insert_then_get<T, V>(m: Map<Seq<T>, V>, s: Seq<T>, v: V)
    ensures
        inserted(m, s, Some(v)).get(s) == Some(v),
{
}

/// Storing twice for one sequence is storing the second value alone: the
/// first value is gone, and nothing else differs.
pub proof fn lemma_insert_overwrites<T, V>(m: Map<Seq<T>, V>, s: Seq<T>, first: V, second: V)
    ensures
        inserted(inserted(m, s, Some(first)), s, Some(second)) == inserted(m, s, Some(second)),
        inserted(inserted(m, s, Some(first)), s, Some(second)).get(s) == Some(second),
{
    assert(m.insert(s, first).insert(s, second) =~= m.insert(s, second));
}

/// Storing `None` for a sequence erases the value that it had.
pub proof fn lemma_insert_none_erases<T, V>(m: Map<Seq<T>, V>, s: Seq<T>, v: V)
    ensures
        inserted(inserted(m, s, Some(v)), s, None).get(s) is None,
        inserted(inserted(m, s, Some(v)), s, None) == m.remove(s),
{
    assert(m.insert(s, v).remove(s) =~= m.remove(s));
}

/// Storing for one sequence changes what is read for no other, be it a
/// prefix, an extension or unrelated.
pub proof fn lemma_insert_keeps_others<T, V>(
    m: Map<Seq<T>, V>,
    s1: Seq<T>,
    val: Option<V>,
    s2: Seq<T>,
)
    requires
        s2 != s1,
    ensures
        inserted(m, s1, val).get(s2) == m.get(s2),
{
}

/// Where `s` starts with a non-empty `p` that has a value, and no longer
/// prefix of `s` has one, the longest prefix found for `s` is `p`: the
/// position of the last symbol of `p`, with the value of `p`.
pub proof fn lemma_longest_prefix_is<T, V>(m: Map<Seq<T>, V>, s: Seq<T>, p: Seq<T>, rest: Seq<T>)
    requires
        s == p + rest,
        p.len() > 0,
        m.contains_key(p),
        forall|k: int| p.len() < k <= s.len() ==> !m.contains_key(#[trigger] s.take(k)),
    ensures
        longest_prefix(m, s) == Some((p.len() - 1, m[p])),
{
    assert(s.take(p.len() as int) =~= p);
    lemma_longest_prefix_within(m, s, p.len() as int);
}

/// What is found is a prefix with a value and the longest such, and where
/// nothing is found no prefix but the empty one has a value.
pub proof fn lemma_longest_prefix_means<T, V>(m: Map<Seq<T>, V>, s: Seq<T>)
    ensures
        match longest_prefix(m, s) {
            Some((i, v)) => {
                &&& 0 <= i < s.len()
                &&& m.contains_key(s.take(i + 1))
                &&& v == m[s.take(i + 1)]
                &&& forall|k: int| i + 1 < k <= s.len() ==> !m.contains_key(#[trigger] s.take(k))
            },
            None => forall|k: int| 1 <= k <= s.len() ==> !m.contains_key(#[trigger] s.take(k)),
        },
    decreases s.len(),
{
    if s.len() > 0 {
        assert(s.take(s.len() as int) =~= s);
        if !m.contains_key(s) {
            let front = s.drop_last();
            lemma_longest_prefix_means(m, front);
            assert forall|k: int| 0 <= k <= front.len() implies #[trigger] s.take(k) == front.take(
                k,
            ) by {
                assert(s.take(k) =~= front.take(k));
            }
        }
    }
}

/// A sequence whose first symbol begins no stored sequence has no value,
/// and no prefix of it is found.
pub proof fn lemma_no_match<T, V>(m: Map<Seq<T>, V>, s: Seq<T>)
    requires
        s.len() > 0,
        forall|key: Seq<T>| #[trigger] m.contains_key(key) && key.len() > 0 ==> key[0] != s[0],
    ensures
        m.get(s) is None,
        longest_prefix(m, s) is None,
{
    assert forall|k: int| 0 < k <= s.len() implies !m.contains_key(#[trigger] s.take(k)) by {
        assert(s.take(k)[0] == s[0]);
    }
    lemma_longest_prefix_within(m, s, 0);
}

/// The empty sequence can hold a value like any other, yet it is never
/// found as a prefix, not even of itself.
pub proof fn lemma_empty_sequence<T, V>(m: Map<Seq<T>, V>, v: V)
    ensures
        inserted(m, Seq::<T>::empty(), Some(v)).get(Seq::<T>::empty()) == Some(v),
        longest_prefix(inserted(m, Seq::<T>::empty(), Some(v)), Seq::<T>::empty()) is None,
        longest_prefix(m, Seq::<T>::empty()) is None,
{
}

} // verus!
