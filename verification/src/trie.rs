//! The trie: an arena of nodes, each with its edges and an optional value.
//!
//! Nodes refer to their children by index, so the whole tree lives in one
//! vector that only ever grows. What a trie means is the map given by its
//! view; the contracts of the operations are stated on that map, and on the
//! paths through the arena where they say how the arena grows.
//!
//! Symbols are compared with `==`. The operations that compare ask that
//! `==` on the symbol type is equality, which `obeys_concrete_eq` states.

use crate::arena::contents;
use crate::arena::edge_added;
use crate::arena::grown_from;
use crate::arena::is_edge;
use crate::arena::is_tree;
use crate::arena::keeps_paths;
use crate::arena::lemma_child_is_edge;
use crate::arena::lemma_edge_added;
use crate::arena::lemma_grown_same_contents;
use crate::arena::lemma_grown_twice;
use crate::arena::lemma_path_len;
use crate::arena::lemma_value_set;
use crate::arena::lemma_walk_after_value;
use crate::arena::lemma_walk_fails_on;
use crate::arena::lemma_walk_in_arena;
use crate::arena::lemma_walk_next;
use crate::arena::path_appended;
use crate::arena::path_len;
use crate::arena::target;
use crate::arena::walk;
use crate::model::best_so_far;
use crate::model::inserted;
use crate::model::lemma_longest_prefix_found;
use crate::model::longest_prefix;
use crate::vec_map::VecMap;
use vstd::laws_eq::obeys_concrete_eq;
use vstd::prelude::*;

verus! {

/// One node of the arena: the edges that leave it, each a symbol with the
/// index of the child it leads to, and the value stored here, if any.
#[derive(Debug, Clone)]
pub struct Node<T, V> {
    pub children: VecMap<T, u32>,
    val: Option<V>,
}

/// A map from sequences of symbols to values. Node 0 is the root.
pub struct Trie<T, V> {
    pub nodes: Vec<Node<T, V>>,
}

impl<T, V> Node<T, V> {
    /// The value stored at this node.
    pub closed spec fn value(&self) -> Option<V> {
        self.val
    }

    /// The edges that leave this node.
    pub closed spec fn edges(&self) -> VecMap<T, u32> {
        self.children
    }

    /// The index of the child that the edge labelled `sym` leads to.
    pub open spec fn child(&self, sym: T) -> Option<int> {
        match self.edges().lookup(sym) {
            Some(c) => Some(c as int),
            None => None,
        }
    }

    /// A node as it is when first allocated: no edge, no value.
    pub open spec fn is_blank(&self) -> bool {
        &&& self.edges().keys() == Seq::<T>::empty()
        &&& self.edges().values() == Seq::<u32>::empty()
        &&& self.value() is None
    }
}

impl<T, V> View for Trie<T, V> {
    type V = Map<Seq<T>, V>;

    open spec fn view(&self) -> Map<Seq<T>, V> {
        contents(self.nodes@)
    }
}

impl<T, V> Trie<T, V> {
    /// The arena is a tree rooted at node 0.
    pub open spec fn wf(&self) -> bool {
        is_tree(self.nodes@)
    }
}

impl<T: PartialEq, V> Node<T, V> {
    /// A node with no edge and no value.
    pub fn new() -> (n: Self)
        ensures
            n.is_blank(),
            n.edges().wf(),
    {
        Node { children: VecMap::new(), val: None }
    }
}

impl<T: PartialEq, V> Trie<T, V> {
    /// A trie that holds the root alone, and so maps nothing.
    pub fn new() -> (t: Self)
        ensures
            t.wf(),
            t.nodes@.len() == 1,
            t.nodes@[0].is_blank(),
            t@ == Map::<Seq<T>, V>::empty(),
    {
        let mut nodes: Vec<Node<T, V>> = Vec::new();
        nodes.push(Node::new());
        let t = Trie { nodes };
        proof {
            assert forall|s: Seq<T>| !t@.contains_key(s) by {
                lemma_walk_in_arena(t.nodes@, s);
            }
            assert(t@ =~= Map::<Seq<T>, V>::empty());
        }
        t
    }

    /// Follows the edge labelled `step_to` out of node `node_pos`.
    fn transition(&self, node_pos: usize, step_to: &T) -> (r: Option<usize>)
        requires
            self.wf(),
            obeys_concrete_eq::<T>(),
            node_pos < self.nodes@.len(),
        ensures
            match r {
                Some(c) => c < self.nodes@.len() && self.nodes@[node_pos as int].child(*step_to)
                    == Some(c as int),
                None => self.nodes@[node_pos as int].child(*step_to) is None,
            },
    {
        let children = &self.nodes[node_pos].children;
        proof {
            lemma_child_is_edge(self.nodes@, node_pos as int, *step_to);
            children.keys().index_of_first_ensures(*step_to);
        }
        match children.position(step_to) {
            Some(p) => {
                let c: u32 = *children.value_at(p);
                assert(is_edge(self.nodes@, node_pos as int, p as int));
                assert(c == target(self.nodes@, node_pos as int, p as int));
                Some(c as usize)
            },
            None => None,
        }
    }

    /// Stores `val` for `input`, in place of whatever was stored for it.
    ///
    /// With `val` at `None` the entry of `input` is erased. The nodes that
    /// the path of `input` lacks are put at the end of the arena, one for
    /// each symbol after the longest prefix that already has a path; the
    /// nodes that were there stay where they are. Child indices are 32 bits
    /// wide, so the arena must have room left for the new nodes.
    pub fn insert(&mut self, input: Vec<T>, val: Option<V>)
        requires
            old(self).wf(),
            obeys_concrete_eq::<T>(),
            old(self).nodes@.len() + input@.len() - path_len(old(self).nodes@, input@)
                <= 0x1_0000_0000,
        ensures
            final(self).wf(),
            final(self)@ == inserted(old(self)@, input@, val),
            old(self).nodes@.len() <= final(self).nodes@.len() <= old(self).nodes@.len()
                + input@.len(),
            final(self).nodes@.len() == old(self).nodes@.len() + input@.len() - path_len(
                old(self).nodes@,
                input@,
            ),
            keeps_paths(final(self).nodes@, old(self).nodes@),
            path_appended(final(self).nodes@, old(self).nodes@, input@),
            walk(final(self).nodes@, input@) is Some,
    {
        let ghost syms = input@;
        let ghost start = self.nodes@;
        let ghost mut matched: int = 0;
        let mut node_pos: usize = 0;
        assert(syms.take(0) =~= Seq::<T>::empty());
        for ele in it: input.into_iter()
            invariant
                it.seq() == syms,
                is_tree(start),
                is_tree(self.nodes@),
                grown_from(self.nodes@, start),
                obeys_concrete_eq::<T>(),
                start.len() + syms.len() - path_len(start, syms) <= 0x1_0000_0000,
                node_pos < self.nodes@.len(),
                walk(self.nodes@, syms.take(it.index() as int)) == Some(node_pos as int),
                0 <= matched <= it.index(),
                self.nodes@.len() == start.len() + it.index() - matched,
                walk(start, syms.take(matched)) is Some,
                matched == it.index() ==> self.nodes@ == start,
                matched < it.index() ==> walk(start, syms.take(matched + 1)) is None
                    && self.nodes@[node_pos as int].is_blank(),
                forall|k: int|
                    matched < k <= it.index() ==> walk(self.nodes@, #[trigger] syms.take(k))
                        == Some(start.len() + k - matched - 1),
        {
            let ghost before = self.nodes@;
            proof {
                lemma_walk_next(before, syms, it.index() as int);
                before[node_pos as int].edges().keys().index_of_first_ensures(ele);
            }
            match self.transition(node_pos, &ele) {
                None => {
                    proof {
                        lemma_path_len(start, syms, matched);
                    }
                    let new_pos: usize = self.nodes.len();
                    self.nodes.push(Node::new());
                    self.nodes[node_pos].children.push(ele, new_pos as u32);
                    proof {
                        assert(edge_added(self.nodes@, before, node_pos as int, ele));
                        lemma_edge_added(self.nodes@, before, node_pos as int, ele);
                        lemma_grown_twice(self.nodes@, before, start);
                        lemma_walk_next(self.nodes@, syms, it.index() as int);
                        assert forall|k: int| matched < k <= it.index() + 1 implies walk(
                            self.nodes@,
                            #[trigger] syms.take(k),
                        ) == Some(start.len() + k - matched - 1) by {
                            if k <= it.index() {
                                assert(walk(before, syms.take(k)) is Some);
                            }
                        }
                    }
                    node_pos = new_pos;
                },
                Some(pos) => {
                    node_pos = pos;
                    proof {
                        matched = matched + 1;
                    }
                },
            }
        }
        let ghost before = self.nodes@;
        self.nodes[node_pos].val = val;
        proof {
            assert(syms.take(syms.len() as int) =~= syms);
            lemma_grown_same_contents(before, start);
            lemma_value_set(self.nodes@, before, node_pos as int, syms);
            lemma_path_len(start, syms, matched);
            assert forall|s: Seq<T>| #[trigger] walk(start, s) is Some implies walk(self.nodes@, s)
                == walk(start, s) by {
                lemma_walk_after_value(self.nodes@, before, node_pos as int, s);
            }
            lemma_walk_after_value(self.nodes@, before, node_pos as int, syms);
            assert forall|k: int| matched < k <= syms.len() implies walk(
                self.nodes@,
                #[trigger] syms.take(k),
            ) == Some(start.len() + k - matched - 1) by {
                lemma_walk_after_value(self.nodes@, before, node_pos as int, syms.take(k));
            }
        }
    }

    /// The value stored for exactly `input`.
    pub fn get(&self, input: &Vec<T>) -> (r: Option<&V>)
        requires
            self.wf(),
            obeys_concrete_eq::<T>(),
        ensures
            match r {
                Some(v) => self@.get(input@) == Some(*v),
                None => self@.get(input@) is None,
            },
    {
        let mut node_pos: usize = 0;
        let mut i: usize = 0;
        assert(input@.take(0) =~= Seq::<T>::empty());
        while i < input.len()
            invariant
                self.wf(),
                obeys_concrete_eq::<T>(),
                i <= input@.len(),
                node_pos < self.nodes@.len(),
                walk(self.nodes@, input@.take(i as int)) == Some(node_pos as int),
            decreases input@.len() - i,
        {
            proof {
                lemma_walk_next(self.nodes@, input@, i as int);
            }
            match self.transition(node_pos, &input[i]) {
                None => {
                    proof {
                        lemma_walk_fails_on(self.nodes@, input@, i + 1);
                    }
                    return None;
                },
                Some(index) => {
                    node_pos = index;
                },
            }
            i += 1;
        }
        assert(input@.take(i as int) =~= input@);
        self.nodes[node_pos].val.as_ref()
    }

    /// The longest non-empty prefix of `input` that has a value.
    ///
    /// The result gives the position in `input` of that prefix's last
    /// symbol, one less than the prefix's length, with the value. The empty
    /// prefix is never reported, whether or not the root holds a value.
    pub fn longest_common_prefix(&self, input: &Vec<T>) -> (r: Option<(usize, &V)>)
        requires
            self.wf(),
            obeys_concrete_eq::<T>(),
        ensures
            match r {
                Some((i, v)) => longest_prefix(self@, input@) == Some((i as int, *v)),
                None => longest_prefix(self@, input@) is None,
            },
    {
        let mut node_pos: usize = 0;
        let mut value: Option<(usize, &V)> = None;
        let mut i: usize = 0;
        assert(input@.take(0) =~= Seq::<T>::empty());
        while i < input.len()
            invariant
                self.wf(),
                obeys_concrete_eq::<T>(),
                i <= input@.len(),
                node_pos < self.nodes@.len(),
                walk(self.nodes@, input@.take(i as int)) == Some(node_pos as int),
                best_so_far(self@, input@, i as int, value),
            decreases input@.len() - i,
        {
            proof {
                lemma_walk_next(self.nodes@, input@, i as int);
            }
            match self.transition(node_pos, &input[i]) {
                None => {
                    proof {
                        assert forall|k: int| i < k <= input@.len() implies !self@.contains_key(
                            #[trigger] input@.take(k),
                        ) by {
                            assert(input@.take(k).take(i + 1) =~= input@.take(i + 1));
                            lemma_walk_fails_on(self.nodes@, input@.take(k), i + 1);
                        }
                        lemma_longest_prefix_found(self@, input@, i as int, value);
                    }
                    return value;
                },
                Some(index) => {
                    node_pos = index;
                    match &self.nodes[node_pos].val {
                        Some(v) => {
                            value = Some((i, v));
                        },
                        None => {},
                    }
                },
            }
            i += 1;
        }
        proof {
            lemma_longest_prefix_found(self@, input@, i as int, value);
        }
        value
    }
}

} // verus!
