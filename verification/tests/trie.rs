use arena_trie::Node;
use arena_trie::Trie;

fn syms(s: &str) -> Vec<char> {
    s.chars().collect()
}

fn cars() -> Trie<char, i32> {
    let mut t: Trie<char, i32> = Trie::new();
    t.insert(syms("car"), Some(1));
    t.insert(syms("cart"), Some(2));
    t.insert(syms("care"), Some(3));
    t
}

#[test]
fn new_trie_holds_the_root_alone() {
    let t: Trie<char, i32> = Trie::new();
    assert_eq!(t.nodes.len(), 1);
    assert!(t.nodes[0].children.is_empty());
    assert_eq!(t.get(&syms("")), None);
    assert_eq!(t.get(&syms("a")), None);
    assert_eq!(t.longest_common_prefix(&syms("a")), None);
}

#[test]
fn new_node_has_no_edges() {
    let n: Node<char, i32> = Node::new();
    assert_eq!(n.children.len(), 0);
    assert!(n.children.is_empty());
    assert_eq!(n.children.position(&'a'), None);
}

#[test]
fn get_returns_what_was_inserted() {
    let mut t: Trie<char, i32> = Trie::new();
    t.insert(syms("hello"), Some(42));
    assert_eq!(t.get(&syms("hello")), Some(&42));
}

#[test]
fn get_works_with_byte_and_string_symbols() {
    let mut bytes: Trie<u8, &str> = Trie::new();
    bytes.insert(vec![0, 255, 7], Some("x"));
    assert_eq!(bytes.get(&vec![0, 255, 7]), Some(&"x"));
    assert_eq!(bytes.get(&vec![0, 255]), None);

    let mut words: Trie<String, u64> = Trie::new();
    words.insert(vec!["usr".to_string(), "bin".to_string()], Some(9));
    assert_eq!(words.get(&vec!["usr".to_string(), "bin".to_string()]), Some(&9));
    assert_eq!(
        words.longest_common_prefix(&vec!["usr".to_string(), "bin".to_string(), "ls".to_string()]),
        Some((1, &9))
    );
}

#[test]
fn second_insert_overwrites_the_first() {
    let mut t: Trie<char, i32> = Trie::new();
    t.insert(syms("key"), Some(1));
    t.insert(syms("key"), Some(2));
    assert_eq!(t.get(&syms("key")), Some(&2));
    assert_eq!(t.longest_common_prefix(&syms("keys")), Some((2, &2)));
    assert_eq!(t.nodes.len(), 4);
}

#[test]
fn insert_of_none_erases_the_value() {
    let mut t: Trie<char, i32> = Trie::new();
    t.insert(syms("key"), Some(1));
    t.insert(syms("key"), None);
    assert_eq!(t.get(&syms("key")), None);
    assert_eq!(t.longest_common_prefix(&syms("key")), None);
    assert_eq!(t.nodes.len(), 4);
}

#[test]
fn insert_of_none_on_a_new_path_adds_nodes_without_a_value() {
    let mut t: Trie<char, i32> = Trie::new();
    t.insert(syms("ab"), None);
    assert_eq!(t.nodes.len(), 3);
    assert_eq!(t.get(&syms("ab")), None);
    assert_eq!(t.get(&syms("a")), None);
}

#[test]
fn insert_leaves_other_sequences_alone() {
    let mut t: Trie<char, i32> = Trie::new();
    t.insert(syms("ab"), Some(1));
    t.insert(syms("abcd"), Some(2));
    t.insert(syms("x"), Some(3));
    t.insert(syms("abc"), Some(4));
    assert_eq!(t.get(&syms("ab")), Some(&1));
    assert_eq!(t.get(&syms("abcd")), Some(&2));
    assert_eq!(t.get(&syms("x")), Some(&3));
    assert_eq!(t.get(&syms("abc")), Some(&4));
    assert_eq!(t.get(&syms("a")), None);
    t.insert(syms("abc"), None);
    assert_eq!(t.get(&syms("ab")), Some(&1));
    assert_eq!(t.get(&syms("abcd")), Some(&2));
    assert_eq!(t.get(&syms("abc")), None);
}

#[test]
fn longest_common_prefix_gives_position_of_last_symbol() {
    let mut t: Trie<char, i32> = Trie::new();
    t.insert(syms("a"), Some(10));
    t.insert(syms("abcd"), Some(20));
    assert_eq!(t.longest_common_prefix(&syms("a")), Some((0, &10)));
    assert_eq!(t.longest_common_prefix(&syms("ab")), Some((0, &10)));
    assert_eq!(t.longest_common_prefix(&syms("abcd")), Some((3, &20)));
    assert_eq!(t.longest_common_prefix(&syms("abcdefg")), Some((3, &20)));
}

#[test]
fn longest_common_prefix_keeps_match_across_nodes_without_value() {
    let mut t: Trie<char, i32> = Trie::new();
    t.insert(syms("a"), Some(1));
    t.insert(syms("abc"), Some(2));
    assert_eq!(t.longest_common_prefix(&syms("abd")), Some((0, &1)));
    assert_eq!(t.longest_common_prefix(&syms("ab")), Some((0, &1)));
    assert_eq!(t.longest_common_prefix(&syms("abc")), Some((2, &2)));
}

#[test]
fn nothing_is_found_for_an_unrelated_sequence() {
    let t = cars();
    assert_eq!(t.get(&syms("dog")), None);
    assert_eq!(t.longest_common_prefix(&syms("dog")), None);
    assert_eq!(t.get(&syms("d")), None);
    assert_eq!(t.longest_common_prefix(&syms("d")), None);
}

#[test]
fn nothing_is_found_below_the_shortest_entry() {
    let t = cars();
    assert_eq!(t.longest_common_prefix(&syms("c")), None);
    assert_eq!(t.longest_common_prefix(&syms("ca")), None);
    assert_eq!(t.longest_common_prefix(&syms("cb")), None);
}

#[test]
fn empty_sequence_holds_a_value_at_the_root() {
    let mut t: Trie<char, i32> = Trie::new();
    t.insert(syms(""), Some(5));
    assert_eq!(t.nodes.len(), 1);
    assert_eq!(t.get(&syms("")), Some(&5));
}

#[test]
fn empty_sequence_is_never_a_longest_prefix() {
    let mut t: Trie<char, i32> = Trie::new();
    t.insert(syms(""), Some(5));
    assert_eq!(t.longest_common_prefix(&syms("")), None);
    assert_eq!(t.longest_common_prefix(&syms("x")), None);
    t.insert(syms("x"), Some(6));
    assert_eq!(t.longest_common_prefix(&syms("xy")), Some((0, &6)));
    assert_eq!(t.get(&syms("")), Some(&5));
}

#[test]
fn car_cart_care() {
    let t = cars();
    assert_eq!(t.get(&syms("car")), Some(&1));
    assert_eq!(t.get(&syms("cart")), Some(&2));
    assert_eq!(t.get(&syms("care")), Some(&3));
    assert_eq!(t.get(&syms("ca")), None);
    assert_eq!(t.get(&syms("card")), None);
    assert_eq!(t.longest_common_prefix(&syms("care")), Some((3, &3)));
    assert_eq!(t.longest_common_prefix(&syms("card")), Some((2, &1)));
    assert_eq!(t.longest_common_prefix(&syms("cart")), Some((3, &2)));
    assert_eq!(t.longest_common_prefix(&syms("carts")), Some((3, &2)));
}

#[test]
fn insert_adds_one_node_for_each_symbol_without_a_path() {
    let mut t: Trie<char, i32> = Trie::new();
    t.insert(syms("car"), Some(1));
    assert_eq!(t.nodes.len(), 4);
    t.insert(syms("cart"), Some(2));
    assert_eq!(t.nodes.len(), 5);
    t.insert(syms("care"), Some(3));
    assert_eq!(t.nodes.len(), 6);
    t.insert(syms("car"), Some(7));
    assert_eq!(t.nodes.len(), 6);
    t.insert(syms("dog"), Some(8));
    assert_eq!(t.nodes.len(), 9);
    t.insert(syms(""), None);
    assert_eq!(t.nodes.len(), 9);
}

#[test]
fn edges_record_the_child_index_in_insertion_order() {
    let t = cars();
    let root = &t.nodes[0].children;
    assert_eq!(root.len(), 1);
    assert_eq!(root.position(&'c'), Some(0));
    assert_eq!(*root.value_at(0), 1);
    let r = &t.nodes[3].children;
    assert_eq!(r.len(), 2);
    assert_eq!(r.position(&'t'), Some(0));
    assert_eq!(r.position(&'e'), Some(1));
    assert_eq!(r.position(&'d'), None);
    assert_eq!(*r.value_at(0), 4);
    assert_eq!(*r.value_at(1), 5);
    assert!(t.nodes[4].children.is_empty());
    assert!(t.nodes[5].children.is_empty());
}

#[test]
fn cloned_node_keeps_its_edges() {
    let t = cars();
    let n = t.nodes[3].clone();
    assert_eq!(n.children.len(), 2);
    assert_eq!(n.children.position(&'e'), Some(1));
}
