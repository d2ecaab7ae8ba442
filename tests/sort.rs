use radish::key::byte_at_exec;
use radish::{sort, sort_by_keys, Tree};

fn ident(s: &&str) -> Vec<u8> {
    s.as_bytes().to_vec()
}

#[test]
fn it_works() {
    let result = 2 + 2;
    assert_eq!(result, 4);
}

#[test]
fn planets_sort_alphabetically() {
    let list = ["pluto", "earth", "saturn", "mars", "uranus"];
    let out: Vec<&str> = sort(&list, ident).into_iter().copied().collect();
    assert_eq!(out, vec!["earth", "mars", "pluto", "saturn", "uranus"]);
}

#[test]
fn prefix_sorts_first() {
    let list = ["ab", "a", "abc"];
    let out: Vec<&str> = sort(&list, ident).into_iter().copied().collect();
    assert_eq!(out, vec!["a", "ab", "abc"]);
}

#[test]
fn identical_keys_keep_input_order() {
    let list = [("x", 1u32), ("x", 2u32), ("x", 3u32)];
    let out: Vec<u32> = sort(&list, |e: &(&str, u32)| e.0.as_bytes().to_vec())
        .into_iter()
        .map(|e| e.1)
        .collect();
    assert_eq!(out, vec![1, 2, 3]);
}

#[test]
fn cyclic_keys_group_in_order() {
    let list: Vec<u32> = (0..300).collect();
    let out: Vec<u32> = sort(&list, |i: &u32| vec![(*i % 256) as u8]).into_iter().copied().collect();
    let mut expected: Vec<u32> = Vec::new();
    for k in 0..256u32 {
        expected.push(k);
        if k + 256 < 300 {
            expected.push(k + 256);
        }
    }
    assert_eq!(out.len(), 300);
    assert_eq!(out, expected);
}

#[test]
fn empty_input_gives_empty_output() {
    let list: [&str; 0] = [];
    assert!(sort(&list, ident).is_empty());
}

#[test]
fn single_element_is_returned() {
    let list = ["only"];
    let out: Vec<&str> = sort(&list, ident).into_iter().copied().collect();
    assert_eq!(out, vec!["only"]);
}

#[test]
fn sorting_sorted_input_is_identity() {
    let list = ["a", "ab", "b", "ba", "bb", "c"];
    let once: Vec<&str> = sort(&list, ident).into_iter().copied().collect();
    assert_eq!(once, list.to_vec());
    let twice: Vec<&str> = sort(&once, ident).into_iter().copied().collect();
    assert_eq!(twice, once);
}

#[test]
fn agrees_with_stable_sort() {
    let mut seed: u64 = 12345;
    let mut list: Vec<(Vec<u8>, usize)> = Vec::new();
    for i in 0..500 {
        seed = seed.wrapping_mul(6364136223846793005).wrapping_add(1442695040888963407);
        let len = ((seed >> 33) % 4) as usize;
        let mut k = Vec::new();
        for j in 0..len {
            k.push((((seed >> (8 * j + 3)) % 4) + 1) as u8);
        }
        list.push((k, i));
    }
    let out: Vec<usize> = sort(&list, |e: &(Vec<u8>, usize)| e.0.clone())
        .into_iter()
        .map(|e| e.1)
        .collect();
    let mut expected = list.clone();
    expected.sort_by(|a, b| a.0.cmp(&b.0));
    let expected: Vec<usize> = expected.into_iter().map(|e| e.1).collect();
    assert_eq!(out, expected);
}

#[test]
fn trailing_zero_bytes_compare_equal() {
    let list: Vec<Vec<u8>> = vec![vec![1, 0], vec![1], vec![0], vec![], vec![1, 0, 0]];
    let out: Vec<Vec<u8>> = sort(&list, |k: &Vec<u8>| k.clone()).into_iter().cloned().collect();
    assert_eq!(out, vec![vec![0], vec![], vec![1, 0], vec![1], vec![1, 0, 0]]);
}

#[test]
fn sort_by_given_keys() {
    let list = ['c', 'a', 'b', 'd'];
    let keys = vec![vec![3u8], vec![1u8], vec![2u8], vec![1u8]];
    let out: Vec<char> = sort_by_keys(&list, keys).into_iter().copied().collect();
    assert_eq!(out, vec!['a', 'd', 'b', 'c']);
}

#[test]
fn tree_yields_values_by_key() {
    let mut t: Tree<u32> = Tree::new();
    t.add(b"banana".to_vec(), 1);
    t.add(b"apple".to_vec(), 2);
    t.add(b"band".to_vec(), 3);
    t.add(b"ban".to_vec(), 4);
    t.add(b"apple".to_vec(), 5);
    t.add(vec![], 6);
    assert_eq!(t.traverse(), vec![6, 2, 5, 4, 1, 3]);
}

#[test]
fn empty_tree_yields_nothing() {
    let t: Tree<u8> = Tree::new();
    assert!(t.traverse().is_empty());
    let mut it = t.into_iter();
    assert_eq!(it.next(), None);
}

#[test]
fn iterator_hands_out_each_value_once() {
    let mut t: Tree<char> = Tree::new();
    t.add(vec![200, 1], 'c');
    t.add(vec![7], 'a');
    t.add(vec![200], 'b');
    let mut it = t.into_iter();
    assert_eq!(it.next(), Some('a'));
    assert_eq!(it.next(), Some('b'));
    assert_eq!(it.next(), Some('c'));
    assert_eq!(it.next(), None);
    assert_eq!(it.next(), None);
}

#[test]
fn byte_past_end_is_sentinel() {
    let k = vec![9u8, 8];
    assert_eq!(byte_at_exec(&k, 0), 9);
    assert_eq!(byte_at_exec(&k, 1), 8);
    assert_eq!(byte_at_exec(&k, 2), 0);
    assert_eq!(byte_at_exec(&k, 100), 0);
}
