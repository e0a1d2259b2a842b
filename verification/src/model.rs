//! The trie as a map from sequences of symbols to values, and what its
//! operations mean on that map.

use vstd::prelude::*;

verus! {

/// The map after `val` was stored for `s`: `Some(v)` puts `v` in place of
/// whatever `s` had, `None` erases the entry of `s`.
pub open spec fn inserted<T, V>(m: Map<Seq<T>, V>, s: Seq<T>, val: Option<V>) -> Map<Seq<T>, V> {
    match val {
        Some(v) => m.insert(s, v),
        None => m.remove(s),
    }
}

/// The longest prefix of `s` that is not empty and has an entry in `m`,
/// given as the position in `s` of its last symbol, with its value.
pub open spec fn longest_prefix<T, V>(m: Map<Seq<T>, V>, s: Seq<T>) -> Option<(int, V)>
    decreases s.len(),
{
    if s.len() == 0 {
        None
    } else if m.contains_key(s) {
        Some((s.len() - 1, m[s]))
    } else {
        longest_prefix(m, s.drop_last())
    }
}

/// Prefixes of `s` longer than `k` that have no entry do not count: the
/// longest prefix of `s` is that of its first `k` symbols.
pub proof fn lemma_longest_prefix_within<T, V>(m: Map<Seq<T>, V>, s: Seq<T>, k: int)
    requires
        0 <= k <= s.len(),
        forall|j: int| k < j <= s.len() ==> !m.contains_key(#[trigger] s.take(j)),
    ensures
        longest_prefix(m, s) == longest_prefix(m, s.take(k)),
    decreases s.len(),
{
    if k == s.len() {
        assert(s.take(k) =~= s);
    } else {
        assert(s.take(s.len() as int) =~= s);
        let front = s.drop_last();
        assert forall|j: int| k < j <= front.len() implies !m.contains_key(
            #[trigger] front.take(j),
        ) by {
            assert(front.take(j) =~= s.take(j));
        }
        lemma_longest_prefix_within(m, front, k);
        assert(front.take(k) =~= s.take(k));
    }
}

/// What a scan of the prefixes of `s` has found once those of up to `k`
/// symbols are behind it: the last one that had an entry, or that none had.
pub open spec fn best_so_far<T, V>(
    m: Map<Seq<T>, V>,
    s: Seq<T>,
    k: int,
    found: Option<(usize, &V)>,
) -> bool {
    match found {
        Some((j, v)) => {
            &&& j < k
            &&& m.contains_key(s.take(j + 1))
            &&& *v == m[s.take(j + 1)]
            &&& forall|l: int| j + 1 < l <= k ==> !m.contains_key(#[trigger] s.take(l))
        },
        None => forall|l: int| 1 <= l <= k ==> !m.contains_key(#[trigger] s.take(l)),
    }
}

/// Where no prefix of more than `k` symbols has an entry, what the scan has
/// found after `k` symbols is the longest prefix of all.
pub proof fn lemma_longest_prefix_found<T, V>(
    m: Map<Seq<T>, V>,
    s: Seq<T>,
    k: int,
    found: Option<(usize, &V)>,
)
    requires
        0 <= k <= s.len(),
        best_so_far(m, s, k, found),
        forall|l: int| k < l <= s.len() ==> !m.contains_key(#[trigger] s.take(l)),
    ensures
        match found {
            Some((j, v)) => longest_prefix(m, s) == Some((j as int, *v)),
            None => longest_prefix(m, s) is None,
        },
{
    match found {
        Some((j, v)) => {
            lemma_longest_prefix_within(m, s, j + 1);
        },
        None => {
            lemma_longest_prefix_within(m, s, 0);
        },
    }
}

} // verus!
