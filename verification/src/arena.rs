//! The arena as a tree: its edges, the paths that lead through it, the map
//! that it stands for, and how these change as the arena grows.

use crate::trie::Node;
use crate::vec_map::lemma_index_of_first_push;
use vstd::prelude::*;

verus! {

/// Whether `j` is the position of an edge of node `n`.
pub open spec fn is_edge<T, V>(nodes: Seq<Node<T, V>>, n: int, j: int) -> bool {
    0 <= n < nodes.len() && 0 <= j < nodes[n].edges().values().len()
}

/// The node that edge `j` of node `n` leads to.
pub open spec fn target<T, V>(nodes: Seq<Node<T, V>>, n: int, j: int) -> int {
    nodes[n].edges().values()[j] as int
}

/// The arena is a tree rooted at node 0.
///
/// Every node's edge list is well formed and names no symbol twice. Every
/// edge leads to a node of the arena that lies after the node it leaves, so
/// there is no cycle and no edge into the root. No two edges lead to the
/// same node, and every node but the root has an edge that leads to it.
pub open spec fn is_tree<T, V>(nodes: Seq<Node<T, V>>) -> bool {
    &&& nodes.len() > 0
    &&& forall|n: int|
        0 <= n < nodes.len() ==> (#[trigger] nodes[n]).edges().wf()
            && nodes[n].edges().keys().no_duplicates()
    &&& forall|n: int, j: int|
        is_edge(nodes, n, j) ==> n < #[trigger] target(nodes, n, j) < nodes.len()
    &&& forall|n1: int, j1: int, n2: int, j2: int|
        is_edge(nodes, n1, j1) && is_edge(nodes, n2, j2) && #[trigger] target(nodes, n1, j1)
            == #[trigger] target(nodes, n2, j2) ==> n1 == n2 && j1 == j2
    &&& forall|c: int| 0 < c < nodes.len() ==> #[trigger] has_parent(nodes, c)
}

/// Some edge of the arena leads to node `c`.
pub open spec fn has_parent<T, V>(nodes: Seq<Node<T, V>>, c: int) -> bool {
    exists|n: int, j: int| is_edge(nodes, n, j) && #[trigger] target(nodes, n, j) == c
}

/// The node reached from the root by following the symbols of `s` in order,
/// or `None` where an edge is missing on the way.
pub open spec fn walk<T, V>(nodes: Seq<Node<T, V>>, s: Seq<T>) -> Option<int>
    decreases s.len(),
{
    if s.len() == 0 {
        Some(0)
    } else {
        match walk(nodes, s.drop_last()) {
            Some(p) => if 0 <= p < nodes.len() {
                nodes[p].child(s.last())
            } else {
                None
            },
            None => None,
        }
    }
}

/// The map that an arena stands for: a sequence is a key where the walk
/// along it ends at a node that holds a value, and that value is its entry.
pub open spec fn contents<T, V>(nodes: Seq<Node<T, V>>) -> Map<Seq<T>, V> {
    Map::new(
        |s: Seq<T>|
            match walk(nodes, s) {
                Some(n) => 0 <= n < nodes.len() && nodes[n].value() is Some,
                None => false,
            },
        |s: Seq<T>| nodes[walk(nodes, s).unwrap()].value().unwrap(),
    )
}

/// A walk that succeeds ends inside the arena.
pub proof fn lemma_walk_in_arena<T, V>(nodes: Seq<Node<T, V>>, s: Seq<T>)
    requires
        is_tree(nodes),
    ensures
        match walk(nodes, s) {
            Some(n) => 0 <= n < nodes.len(),
            None => true,
        },
    decreases s.len(),
{
    if s.len() > 0 {
        lemma_walk_in_arena(nodes, s.drop_last());
        match walk(nodes, s.drop_last()) {
            Some(p) => {
                lemma_child_is_edge(nodes, p, s.last());
            },
            None => {},
        }
    }
}

/// Where node `n` has an edge labelled `sym`, it is the edge at the first
/// position that holds `sym`.
pub proof fn lemma_child_is_edge<T, V>(nodes: Seq<Node<T, V>>, n: int, sym: T)
    requires
        is_tree(nodes),
        0 <= n < nodes.len(),
    ensures
        match nodes[n].child(sym) {
            Some(c) => exists|j: int|
                is_edge(nodes, n, j) && nodes[n].edges().keys()[j] == sym && c == #[trigger] target(
                    nodes,
                    n,
                    j,
                ),
            None => !nodes[n].edges().keys().contains(sym),
        },
{
    let keys = nodes[n].edges().keys();
    keys.index_of_first_ensures(sym);
    match keys.index_of_first(sym) {
        Some(j) => {
            assert(is_edge(nodes, n, j));
            assert(nodes[n].child(sym) == Some(target(nodes, n, j)));
        },
        None => {},
    }
}

/// A walk that fails on a prefix of `s` fails on `s`.
pub proof fn lemma_walk_fails_on<T, V>(nodes: Seq<Node<T, V>>, s: Seq<T>, k: int)
    requires
        0 <= k <= s.len(),
        walk(nodes, s.take(k)) is None,
    ensures
        walk(nodes, s) is None,
    decreases s.len(),
{
    if k == s.len() {
        assert(s.take(k) =~= s);
    } else {
        assert(s.drop_last().take(k) =~= s.take(k));
        lemma_walk_fails_on(nodes, s.drop_last(), k);
    }
}

/// How many leading symbols of `s` have a path from the root: the length of
/// the longest prefix of `s` along which the walk succeeds.
pub open spec fn path_len<T, V>(nodes: Seq<Node<T, V>>, s: Seq<T>) -> nat
    decreases s.len(),
{
    if s.len() == 0 || walk(nodes, s) is Some {
        s.len()
    } else {
        path_len(nodes, s.drop_last())
    }
}

/// The walk succeeds along the first `k` symbols of `s` and no further.
pub open spec fn path_ends_at<T, V>(nodes: Seq<Node<T, V>>, s: Seq<T>, k: int) -> bool {
    &&& 0 <= k <= s.len()
    &&& walk(nodes, s.take(k)) is Some
    &&& k < s.len() ==> walk(nodes, s.take(k + 1)) is None
}

/// Where the walk succeeds along `k` symbols and no further, `k` is the
/// length of the path.
pub proof fn lemma_path_len<T, V>(nodes: Seq<Node<T, V>>, s: Seq<T>, k: int)
    requires
        path_ends_at(nodes, s, k),
    ensures
        path_len(nodes, s) == k,
    decreases s.len(),
{
    if k == s.len() {
        assert(s.take(k) =~= s);
    } else {
        lemma_walk_fails_on(nodes, s, k + 1);
        let front = s.drop_last();
        assert(front.take(k) =~= s.take(k));
        if k < front.len() {
            assert(front.take(k + 1) =~= s.take(k + 1));
        }
        lemma_path_len(nodes, front, k);
    }
}

/// The part of `s` that had no path in `before` has one in `after`, through
/// the nodes that follow those of `before`, in the order of its symbols.
pub open spec fn path_appended<T, V>(
    after: Seq<Node<T, V>>,
    before: Seq<Node<T, V>>,
    s: Seq<T>,
) -> bool {
    forall|k: int|
        path_len(before, s) < k <= s.len() ==> walk(after, #[trigger] s.take(k)) == Some(
            before.len() + k - path_len(before, s) - 1,
        )
}

/// Every sequence that had a path has it still, to the same node.
pub open spec fn keeps_paths<T, V>(after: Seq<Node<T, V>>, before: Seq<Node<T, V>>) -> bool {
    forall|s: Seq<T>| #[trigger] walk(before, s) is Some ==> walk(after, s) == walk(before, s)
}

/// One more symbol: the walk along the first `k + 1` symbols of `s` is the
/// walk along the first `k`, then the edge labelled `s[k]`.
pub proof fn lemma_walk_next<T, V>(nodes: Seq<Node<T, V>>, s: Seq<T>, k: int)
    requires
        0 <= k < s.len(),
    ensures
        walk(nodes, s.take(k + 1)) == match walk(nodes, s.take(k)) {
            Some(p) => if 0 <= p < nodes.len() {
                nodes[p].child(s[k])
            } else {
                None
            },
            None => None,
        },
{
    assert(s.take(k + 1).drop_last() =~= s.take(k));
    assert(s.take(k + 1).last() == s[k]);
}

/// No two sequences lead to the same node.
pub proof fn lemma_walk_injective<T, V>(nodes: Seq<Node<T, V>>, s1: Seq<T>, s2: Seq<T>)
    requires
        is_tree(nodes),
        walk(nodes, s1) is Some,
        walk(nodes, s1) == walk(nodes, s2),
    ensures
        s1 == s2,
    decreases s1.len(),
{
    if s1.len() == 0 {
        if s2.len() > 0 {
            lemma_walk_in_arena(nodes, s2.drop_last());
            let p2 = walk(nodes, s2.drop_last()).unwrap();
            lemma_child_is_edge(nodes, p2, s2.last());
        }
        assert(s1 =~= s2);
    } else {
        lemma_walk_in_arena(nodes, s1.drop_last());
        let p1 = walk(nodes, s1.drop_last()).unwrap();
        lemma_child_is_edge(nodes, p1, s1.last());
        if s2.len() > 0 {
            lemma_walk_in_arena(nodes, s2.drop_last());
            let p2 = walk(nodes, s2.drop_last()).unwrap();
            lemma_child_is_edge(nodes, p2, s2.last());
            assert(p1 == p2);
            lemma_walk_injective(nodes, s1.drop_last(), s2.drop_last());
            assert(s1.last() == s2.last());
            assert(s1 =~= s1.drop_last().push(s1.last()));
            assert(s2 =~= s2.drop_last().push(s2.last()));
        }
    }
}

/// How an arena relates to an earlier state of itself in which the same
/// sequences had values: it may hold more nodes, but the values of the old
/// nodes are as they were and the new nodes hold none; every walk that
/// succeeded still ends at the same node, and a walk that failed either
/// still fails or ends at a new node.
pub open spec fn grown_from<T, V>(after: Seq<Node<T, V>>, before: Seq<Node<T, V>>) -> bool {
    &&& before.len() <= after.len()
    &&& forall|n: int| 0 <= n < before.len() ==> (#[trigger] after[n]).value() == before[n].value()
    &&& forall|n: int| before.len() <= n < after.len() ==> (#[trigger] after[n]).value() is None
    &&& forall|s: Seq<T>|
        match #[trigger] walk(before, s) {
            Some(n) => walk(after, s) == Some(n),
            None => match walk(after, s) {
                Some(n) => before.len() <= n,
                None => true,
            },
        }
}

/// An arena grown from another stands for the same map.
pub proof fn lemma_grown_same_contents<T, V>(after: Seq<Node<T, V>>, before: Seq<Node<T, V>>)
    requires
        is_tree(before),
        is_tree(after),
        grown_from(after, before),
    ensures
        contents(after) == contents(before),
{
    assert forall|s: Seq<T>|
        contents(after).contains_key(s) == contents(before).contains_key(s) && (contents(
            before,
        ).contains_key(s) ==> contents(after)[s] == contents(before)[s]) by {
        lemma_walk_in_arena(before, s);
        lemma_walk_in_arena(after, s);
        assert(walk(before, s) is Some ==> walk(after, s) == walk(before, s));
    }
    assert(contents(after) =~= contents(before));
}

/// Growing twice is growing.
pub proof fn lemma_grown_twice<T, V>(
    last: Seq<Node<T, V>>,
    mid: Seq<Node<T, V>>,
    first: Seq<Node<T, V>>,
)
    requires
        grown_from(mid, first),
        grown_from(last, mid),
    ensures
        grown_from(last, first),
{
    assert forall|s: Seq<T>|
        match #[trigger] walk(first, s) {
            Some(n) => walk(last, s) == Some(n),
            None => match walk(last, s) {
                Some(n) => first.len() <= n,
                None => true,
            },
        } by {
        assert(walk(mid, s) is Some ==> walk(last, s) == walk(mid, s));
    }
}

/// What one step of an insertion does where the edge is missing: a blank
/// node is put at the end of the arena, and node `p` gets an edge labelled
/// `sym` that leads to it.
pub open spec fn edge_added<T, V>(
    after: Seq<Node<T, V>>,
    before: Seq<Node<T, V>>,
    p: int,
    sym: T,
) -> bool {
    &&& 0 <= p < before.len() <= u32::MAX
    &&& after.len() == before.len() + 1
    &&& after[before.len() as int].is_blank()
    &&& after[before.len() as int].edges().wf()
    &&& forall|n: int| 0 <= n < before.len() && n != p ==> #[trigger] after[n] == before[n]
    &&& after[p].value() == before[p].value()
    &&& after[p].edges().wf()
    &&& after[p].edges().keys() == before[p].edges().keys().push(sym)
    &&& after[p].edges().values() == before[p].edges().values().push(before.len() as u32)
}

/// After an edge was added, a walk ends where it ended before; one that
/// failed before fails still or ends at the new node.
pub proof fn lemma_walk_after_edge<T, V>(
    after: Seq<Node<T, V>>,
    before: Seq<Node<T, V>>,
    p: int,
    sym: T,
    s: Seq<T>,
)
    requires
        is_tree(before),
        edge_added(after, before, p, sym),
        before[p].child(sym) is None,
    ensures
        match walk(before, s) {
            Some(n) => walk(after, s) == Some(n),
            None => walk(after, s) is None || walk(after, s) == Some(before.len() as int),
        },
    decreases s.len(),
{
    if s.len() > 0 {
        let front = s.drop_last();
        lemma_walk_after_edge(after, before, p, sym, front);
        lemma_walk_in_arena(before, front);
        match walk(after, front) {
            Some(q) => {
                if q == p {
                    lemma_child_is_edge(before, p, sym);
                    lemma_index_of_first_push(before[p].edges().keys(), sym, s.last());
                    before[p].edges().keys().index_of_first_ensures(s.last());
                } else if q == before.len() {
                    after[q].edges().keys().index_of_first_ensures(s.last());
                } else {
                    assert(after[q] == before[q]);
                }
            },
            None => {},
        }
    }
}

/// Adding an edge for a symbol that had none keeps the arena a tree and
/// changes no entry of the map.
pub proof fn lemma_edge_added<T, V>(
    after: Seq<Node<T, V>>,
    before: Seq<Node<T, V>>,
    p: int,
    sym: T,
)
    requires
        is_tree(before),
        edge_added(after, before, p, sym),
        before[p].child(sym) is None,
    ensures
        is_tree(after),
        grown_from(after, before),
        after[p].child(sym) == Some(before.len() as int),
{
    let len = before.len() as int;
    lemma_child_is_edge(before, p, sym);
    lemma_index_of_first_push(before[p].edges().keys(), sym, sym);
    assert forall|n: int| 0 <= n < after.len() implies (#[trigger] after[n]).edges().wf()
        && after[n].edges().keys().no_duplicates() by {
        if n != p && n < len {
            assert(after[n] == before[n]);
        }
    }
    assert forall|n: int, j: int| is_edge(after, n, j) implies n < #[trigger] target(after, n, j)
        < after.len() by {
        lemma_edge_kept(after, before, p, sym, n, j);
    }
    assert forall|n1: int, j1: int, n2: int, j2: int|
        is_edge(after, n1, j1) && is_edge(after, n2, j2) && #[trigger] target(after, n1, j1)
            == #[trigger] target(after, n2, j2) implies n1 == n2 && j1 == j2 by {
        lemma_edge_kept(after, before, p, sym, n1, j1);
        lemma_edge_kept(after, before, p, sym, n2, j2);
    }
    assert forall|c: int| 0 < c < after.len() implies #[trigger] has_parent(after, c) by {
        if c < len {
            assert(has_parent(before, c));
            let (n, j) = choose|n: int, j: int|
                is_edge(before, n, j) && #[trigger] target(before, n, j) == c;
            if n != p {
                assert(after[n] == before[n]);
            }
            assert(is_edge(after, n, j) && target(after, n, j) == c);
        } else {
            let j = before[p].edges().values().len() as int;
            assert(is_edge(after, p, j) && target(after, p, j) == c);
        }
    }
    assert forall|s: Seq<T>|
        match #[trigger] walk(before, s) {
            Some(n) => walk(after, s) == Some(n),
            None => match walk(after, s) {
                Some(n) => before.len() <= n,
                None => true,
            },
        } by {
        lemma_walk_after_edge(after, before, p, sym, s);
    }
    assert forall|n: int| 0 <= n < before.len() implies (#[trigger] after[n]).value()
        == before[n].value() by {
        if n != p {
            assert(after[n] == before[n]);
        }
    }
}

/// After an edge was added, each edge of the arena is either the new one,
/// the last of node `p`, or an edge that was there before with the same
/// target.
pub proof fn lemma_edge_kept<T, V>(
    after: Seq<Node<T, V>>,
    before: Seq<Node<T, V>>,
    p: int,
    sym: T,
    n: int,
    j: int,
)
    requires
        is_tree(before),
        edge_added(after, before, p, sym),
        is_edge(after, n, j),
    ensures
        if n == p && j == before[p].edges().values().len() {
            target(after, n, j) == before.len()
        } else {
            is_edge(before, n, j) && target(after, n, j) == target(before, n, j) && target(
                before,
                n,
                j,
            ) < before.len()
        },
{
    if n == p {
    } else if n < before.len() {
        assert(after[n] == before[n]);
    }
}

/// What the last step of an insertion does: the value of node `p` is
/// replaced, and nothing else changes.
pub open spec fn value_set<T, V>(after: Seq<Node<T, V>>, before: Seq<Node<T, V>>, p: int) -> bool {
    &&& 0 <= p < before.len()
    &&& after.len() == before.len()
    &&& forall|n: int| 0 <= n < before.len() && n != p ==> #[trigger] after[n] == before[n]
    &&& after[p].edges() == before[p].edges()
}

/// With the same edges, every walk ends where it ended.
pub proof fn lemma_walk_after_value<T, V>(
    after: Seq<Node<T, V>>,
    before: Seq<Node<T, V>>,
    p: int,
    s: Seq<T>,
)
    requires
        value_set(after, before, p),
    ensures
        walk(after, s) == walk(before, s),
    decreases s.len(),
{
    if s.len() > 0 {
        lemma_walk_after_value(after, before, p, s.drop_last());
        match walk(before, s.drop_last()) {
            Some(q) => {
                if 0 <= q < before.len() && q != p {
                    assert(after[q] == before[q]);
                }
            },
            None => {},
        }
    }
}

/// Replacing the value of the node that `s` leads to replaces the entry of
/// `s` in the map, or removes it where the new value is `None`, and leaves
/// every other entry alone.
pub proof fn lemma_value_set<T, V>(
    after: Seq<Node<T, V>>,
    before: Seq<Node<T, V>>,
    p: int,
    s: Seq<T>,
)
    requires
        is_tree(before),
        value_set(after, before, p),
        walk(before, s) == Some(p),
    ensures
        is_tree(after),
        contents(after) == match after[p].value() {
            Some(v) => contents(before).insert(s, v),
            None => contents(before).remove(s),
        },
{
    assert forall|n: int| 0 <= n < after.len() implies (#[trigger] after[n]).edges()
        == before[n].edges() by {
        if n != p {
            assert(after[n] == before[n]);
        }
    }
    assert forall|n: int, j: int| is_edge(after, n, j) implies is_edge(before, n, j) && target(
        after,
        n,
        j,
    ) == target(before, n, j) by {
        assert(after[n].edges() == before[n].edges());
    }
    assert(is_tree(after)) by {
        assert forall|n: int, j: int| is_edge(after, n, j) implies n < #[trigger] target(
            after,
            n,
            j,
        ) < after.len() by {
            assert(target(after, n, j) == target(before, n, j));
        }
        assert forall|n1: int, j1: int, n2: int, j2: int|
            is_edge(after, n1, j1) && is_edge(after, n2, j2) && #[trigger] target(after, n1, j1)
                == #[trigger] target(after, n2, j2) implies n1 == n2 && j1 == j2 by {
            assert(target(after, n1, j1) == target(before, n1, j1));
            assert(target(after, n2, j2) == target(before, n2, j2));
        }
        assert forall|c: int| 0 < c < after.len() implies #[trigger] has_parent(after, c) by {
            assert(has_parent(before, c));
            let (n, j) = choose|n: int, j: int|
                is_edge(before, n, j) && #[trigger] target(before, n, j) == c;
            assert(after[n].edges() == before[n].edges());
            assert(is_edge(after, n, j) && target(after, n, j) == c);
        }
    }
    let expected = match after[p].value() {
        Some(v) => contents(before).insert(s, v),
        None => contents(before).remove(s),
    };
    assert forall|x: Seq<T>|
        #[trigger] contents(after).dom().contains(x) == expected.dom().contains(x) && (
        expected.dom().contains(x) ==> contents(after)[x] == expected[x]) by {
        lemma_walk_after_value(after, before, p, x);
        lemma_walk_in_arena(before, x);
        if x != s && walk(before, x) is Some {
            if walk(before, x) == Some(p) {
                lemma_walk_injective(before, x, s);
            }
            assert(after[walk(before, x).unwrap()] == before[walk(before, x).unwrap()]);
        }
    }
    assert(contents(after) =~= expected);
}

} // verus!
