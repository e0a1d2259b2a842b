use arena_trie::Trie;
use arena_trie::VecMap;

#[test]
fn new_map_is_empty() {
    let m: VecMap<char, u32> = VecMap::new();
    assert_eq!(m.len(), 0);
    assert!(m.is_empty());
    assert_eq!(m.position(&'a'), None);
}

#[test]
fn with_capacity_reserves_room_and_holds_nothing() {
    let m: VecMap<u8, u32> = VecMap::with_capacity(16);
    assert_eq!(m.len(), 0);
    assert!(m.is_empty());
    assert!(m.capacity() >= 16);
    assert_eq!(m.position(&0), None);
}

#[test]
fn capacity_is_never_below_len() {
    let empty: VecMap<u8, u32> = VecMap::new();
    assert!(empty.capacity() >= empty.len());
    let mut t: Trie<u8, ()> = Trie::new();
    let mut b: u8 = 0;
    while b < 40 {
        t.insert(vec![b], Some(()));
        b += 1;
    }
    let root = &t.nodes[0].children;
    assert_eq!(root.len(), 40);
    assert!(root.capacity() >= 40);
    assert!(!root.is_empty());
}

#[test]
fn position_finds_keys_in_insertion_order() {
    let mut t: Trie<char, ()> = Trie::new();
    t.insert(vec!['z'], None);
    t.insert(vec!['a'], None);
    t.insert(vec!['m'], None);
    let root = &t.nodes[0].children;
    assert_eq!(root.len(), 3);
    assert_eq!(root.position(&'z'), Some(0));
    assert_eq!(root.position(&'a'), Some(1));
    assert_eq!(root.position(&'m'), Some(2));
    assert_eq!(root.position(&'b'), None);
    assert_eq!(*root.value_at(0), 1);
    assert_eq!(*root.value_at(1), 2);
    assert_eq!(*root.value_at(2), 3);
}

#[test]
fn cloned_map_has_the_same_entries() {
    let mut t: Trie<char, ()> = Trie::new();
    t.insert(vec!['q'], None);
    let c = t.nodes[0].children.clone();
    assert_eq!(c.len(), 1);
    assert_eq!(c.position(&'q'), Some(0));
    assert_eq!(*c.value_at(0), 1);
}

#[test]
fn default_map_is_empty() {
    let m: VecMap<char, u32> = VecMap::default();
    assert_eq!(m.len(), 0);
    assert!(m.is_empty());
    assert_eq!(m.position(&'a'), None);
}
