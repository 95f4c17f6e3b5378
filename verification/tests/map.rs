use btree::map::BTreeMap;

#[test]
fn shuffled() {
    let mut m = BTreeMap::new();
    let shuffled = "iqgkzyrjexbalpcwtsvfmuhdon";

    for c in shuffled.chars() {
        assert_eq!(m.insert(c, c), None);
        assert!(m.contains(&c));
    }

    for (i, c) in shuffled.chars().enumerate() {
        assert_eq!(m.remove(&c), Some(c));

        for (_, d) in shuffled.chars().enumerate().filter(|(j, _)| j <= &i) {
            assert!(!m.contains(&d));
        }

        for (_, d) in shuffled.chars().enumerate().filter(|(j, _)| j > &i) {
            assert!(m.contains(&d));
        }
    }

    assert!(m.is_empty());
}

#[test]
fn inorder() {
    let mut m = BTreeMap::new();

    for i in 0..10 {
        assert_eq!(m.insert(i, i), None);
        assert_eq!(m.insert(i, i + 1), Some(i));
        assert!(m.contains(&i));
        assert!(m.len() == i + 1);
    }

    for i in 0..10 {
        assert_eq!(m.remove(&i), Some(i + 1));
        assert!(m.len() == 9 - i);
    }

    assert!(m.is_empty());
}

use btree::map::node::Node;
use std::collections::BTreeMap as Oracle;

/// The entries that a walk through the map yields.
fn walk<K: Ord + Copy, V: Copy>(m: &BTreeMap<K, V>) -> Vec<(K, V)> {
    let mut out = Vec::new();
    let mut it = m.iter();
    while let Some((k, v)) = it.next() {
        out.push((*k, *v));
    }
    out
}

/// The number of levels below the node.
fn height<K, V>(node: &Node<K, V>) -> usize {
    if node.is_leaf() {
        0
    } else {
        1 + height(&node.children[0])
    }
}

/// Checks the shape of the subtree below `node`, a node at `depth` of a
/// tree of `levels` levels below the root, and appends its keys in order.
fn audit<K: Ord + Copy, V>(
    node: &Node<K, V>,
    degree: usize,
    depth: usize,
    levels: usize,
    keys: &mut Vec<K>,
) {
    assert_eq!(node.keys.len(), node.vals.len());
    assert!(node.keys.len() <= 2 * degree - 1);
    if depth > 0 {
        assert!(node.keys.len() >= degree - 1);
    }
    if node.is_leaf() {
        assert_eq!(depth, levels);
        keys.extend(node.keys.iter().copied());
    } else {
        assert!(!node.keys.is_empty());
        assert_eq!(node.children.len(), node.keys.len() + 1);
        for i in 0..node.children.len() {
            audit(&node.children[i], degree, depth + 1, levels, keys);
            if i < node.keys.len() {
                keys.push(node.keys[i]);
            }
        }
    }
}

/// Checks that the map's tree is a B-tree of its degree with ascending keys
/// and that the map counts its entries.
fn audit_map<K: Ord + Copy, V>(m: &BTreeMap<K, V>) {
    let mut keys = Vec::new();
    let levels = height(m.root());
    audit(m.root(), m.degree(), 0, levels, &mut keys);
    assert_eq!(keys.len() as u64, m.len());
    if levels >= 1 {
        assert!(2 * (m.degree() as u64).pow(levels as u32) <= m.len() + 1);
    }
    for pair in keys.windows(2) {
        assert!(pair[0] < pair[1]);
    }
}

/// A row of numbers that looks random and is the same every time.
struct Numbers(u64);

impl Numbers {
    fn next(&mut self) -> u64 {
        self.0 = self.0.wrapping_mul(6364136223846793005).wrapping_add(1442695040888963407);
        self.0 >> 33
    }
}

#[test]
fn empty_map_has_nothing() {
    let m: BTreeMap<u32, u32> = BTreeMap::new();
    assert_eq!(m.len(), 0);
    assert!(m.is_empty());
    assert_eq!(m.degree(), 2);
    assert_eq!(m.get(&7), None);
    assert_eq!(m.get_key_value(&7), None);
    assert!(!m.contains(&7));
    assert_eq!(walk(&m), vec![]);
    assert!(m.root().is_leaf());
    assert!(m.root().is_empty());
}

#[test]
fn second_insert_after_a_full_root_grows_the_tree() {
    let mut m = BTreeMap::with_degree(2);
    for k in [10u32, 20, 30] {
        assert_eq!(m.insert(k, k + 1), None);
    }
    assert!(m.root().is_leaf());
    assert!(m.root().is_full(2));
    assert_eq!(m.insert(40, 41), None);
    assert_eq!(m.root().keys, vec![20]);
    assert_eq!(m.root().vals, vec![21]);
    assert_eq!(m.root().children.len(), 2);
    assert_eq!(m.root().children[0].keys, vec![10]);
    assert_eq!(m.root().children[1].keys, vec![30, 40]);
    assert_eq!(height(m.root()), 1);
    audit_map(&m);
}

#[test]
fn removal_that_empties_the_root_shrinks_the_tree() {
    let mut m = BTreeMap::with_degree(2);
    for k in [10u32, 20, 30, 40] {
        m.insert(k, k);
    }
    assert_eq!(m.remove(&40), Some(40));
    assert_eq!(height(m.root()), 1);
    assert_eq!(m.remove(&10), Some(10));
    assert_eq!(height(m.root()), 0);
    assert_eq!(m.root().keys, vec![20, 30]);
    audit_map(&m);
}

#[test]
fn lookup_returns_the_latest_value() {
    let mut m = BTreeMap::new();
    assert_eq!(m.insert(5u8, "a"), None);
    assert_eq!(m.insert(6u8, "b"), None);
    assert_eq!(m.insert(5u8, "c"), Some("a"));
    assert_eq!(m.get(&5), Some(&"c"));
    assert_eq!(m.get_key_value(&6), Some((&6, &"b")));
    assert_eq!(m.remove(&5), Some("c"));
    assert_eq!(m.get(&5), None);
    assert_eq!(m.insert(5u8, "d"), None);
    assert_eq!(m.get(&5), Some(&"d"));
    assert_eq!(m.len(), 2);
}

#[test]
fn insert_twice_keeps_the_second_value_and_the_count() {
    let mut m = BTreeMap::with_degree(3);
    for k in 0u32..50 {
        m.insert(k, 0u32);
    }
    let before = m.len();
    assert_eq!(m.insert(17, 1), Some(0));
    assert_eq!(m.insert(17, 2), Some(1));
    assert_eq!(m.get(&17), Some(&2));
    assert_eq!(m.len(), before);
    audit_map(&m);
}

#[test]
fn rebinding_a_key_that_sits_in_an_inner_node_replaces_its_value() {
    let mut m = BTreeMap::with_degree(2);
    for k in [1u32, 2, 3, 4] {
        m.insert(k, 10 * k);
    }
    assert_eq!(m.root().keys, vec![2]);
    assert_eq!(m.insert(2, 99), Some(20));
    assert_eq!(m.len(), 4);
    assert_eq!(walk(&m), vec![(1, 10), (2, 99), (3, 30), (4, 40)]);
    audit_map(&m);
}

#[test]
fn rebinding_a_key_that_a_split_moves_up_replaces_its_value() {
    let mut m = BTreeMap::with_degree(2);
    for k in [10u32, 20, 30, 40, 50] {
        m.insert(k, k);
    }
    assert_eq!(m.root().keys, vec![20]);
    assert_eq!(m.root().children[1].keys, vec![30, 40, 50]);
    assert_eq!(m.insert(40, 0), Some(40));
    assert_eq!(m.root().keys, vec![20, 40]);
    assert_eq!(m.len(), 5);
    assert_eq!(walk(&m), vec![(10, 10), (20, 20), (30, 30), (40, 0), (50, 50)]);
    audit_map(&m);
}

#[test]
fn insert_then_remove_restores_the_walk() {
    let mut m = BTreeMap::with_degree(2);
    for k in (0u32..40).step_by(2) {
        m.insert(k, k);
    }
    let before = walk(&m);
    let len = m.len();
    assert_eq!(m.insert(21, 21), None);
    assert_eq!(m.len(), len + 1);
    assert_eq!(m.remove(&21), Some(21));
    assert_eq!(m.len(), len);
    assert_eq!(walk(&m), before);
    audit_map(&m);
}

#[test]
fn removing_an_absent_key_changes_nothing() {
    let mut m = BTreeMap::with_degree(2);
    for k in [10u32, 20, 30, 40] {
        m.insert(k, k);
    }
    let before = walk(&m);
    assert_eq!(m.remove(&25), None);
    assert_eq!(m.remove_entry(&5), None);
    assert_eq!(m.len(), 4);
    assert_eq!(walk(&m), before);
    audit_map(&m);
}

#[test]
fn removing_an_absent_key_keeps_the_root_in_order() {
    let mut m = BTreeMap::with_degree(2);
    for k in [10u32, 20, 30, 40] {
        m.insert(k, k);
    }
    assert_eq!(m.remove(&40), Some(40));
    assert_eq!(m.root().keys, vec![20]);
    assert_eq!(m.remove(&15), None);
    assert_eq!(m.len(), 3);
    assert_eq!(walk(&m), vec![(10, 10), (20, 20), (30, 30)]);
    audit_map(&m);
    assert!(m.root().is_leaf());
}

#[test]
fn insertion_order_does_not_change_the_walk() {
    let orders: [[u32; 7]; 4] = [
        [1, 2, 3, 4, 5, 6, 7],
        [7, 6, 5, 4, 3, 2, 1],
        [4, 2, 6, 1, 3, 5, 7],
        [3, 7, 1, 5, 2, 6, 4],
    ];
    let mut walks = Vec::new();
    for order in orders {
        let mut m = BTreeMap::new();
        for k in order {
            m.insert(k, k * k);
        }
        audit_map(&m);
        walks.push(walk(&m));
    }
    assert_eq!(walks[0], vec![(1, 1), (2, 4), (3, 9), (4, 16), (5, 25), (6, 36), (7, 49)]);
    for w in &walks {
        assert_eq!(w, &walks[0]);
    }
}

#[test]
fn monotone_growth() {
    let mut m = BTreeMap::new();
    for k in 1u32..=1000 {
        assert_eq!(m.insert(k, k), None);
    }
    let expected: Vec<(u32, u32)> = (1..=1000).map(|k| (k, k)).collect();
    assert_eq!(walk(&m), expected);
    assert_eq!(m.len(), 1000);
    assert!(height(m.root()) <= 10);
    audit_map(&m);
}

#[test]
fn degree_variance() {
    let expected: Vec<(u32, u32)> = (1..=1000).map(|k| (k, k)).collect();
    for (degree, levels) in [(2usize, 10usize), (3, 7), (8, 4), (64, 2)] {
        let mut m = BTreeMap::with_degree(degree);
        for k in 1u32..=1000 {
            assert_eq!(m.insert(k, k), None);
        }
        assert_eq!(walk(&m), expected);
        assert!(height(m.root()) <= levels);
        audit_map(&m);
    }
}

#[test]
fn random_operations_match_an_ordered_map() {
    for degree in [2usize, 3, 5] {
        let mut numbers = Numbers(degree as u64);
        let mut m = BTreeMap::with_degree(degree);
        let mut oracle = Oracle::new();
        for step in 0..10_000u32 {
            let k = (numbers.next() % 200) as u32;
            match numbers.next() % 3 {
                0 => assert_eq!(m.insert(k, step), oracle.insert(k, step)),
                1 => assert_eq!(m.remove(&k), oracle.remove(&k)),
                _ => {
                    assert_eq!(m.get(&k), oracle.get(&k));
                    assert_eq!(m.contains(&k), oracle.contains_key(&k));
                },
            }
            assert_eq!(m.len(), oracle.len() as u64);
            if step % 97 == 0 {
                audit_map(&m);
                let expected: Vec<(u32, u32)> = oracle.iter().map(|(k, v)| (*k, *v)).collect();
                assert_eq!(walk(&m), expected);
            }
        }
        audit_map(&m);
    }
}

#[test]
fn get_mut_changes_the_value_in_place() {
    let mut m = BTreeMap::with_degree(2);
    for k in 0u32..20 {
        m.insert(k, k);
    }
    for k in 0u32..20 {
        match m.get_mut(&k) {
            Some(v) => {
                assert_eq!(*v, k);
                *v += 100;
            },
            None => panic!("key {k} is missing"),
        }
    }
    assert!(m.get_mut(&20).is_none());
    let expected: Vec<(u32, u32)> = (0..20).map(|k| (k, k + 100)).collect();
    assert_eq!(walk(&m), expected);
    assert_eq!(m.len(), 20);
    audit_map(&m);
}

#[test]
fn remove_entry_returns_the_key_and_the_value() {
    let mut m = BTreeMap::new();
    m.insert(3u32, 'c');
    m.insert(1u32, 'a');
    assert_eq!(m.remove_entry(&3), Some((3, 'c')));
    assert_eq!(m.remove_entry(&3), None);
    assert_eq!(m.len(), 1);
}

#[test]
fn clear_empties_the_map_and_keeps_the_degree() {
    let mut m = BTreeMap::with_degree(4);
    for k in 0u32..100 {
        m.insert(k, k);
    }
    m.clear();
    assert!(m.is_empty());
    assert_eq!(m.degree(), 4);
    assert_eq!(walk(&m), vec![]);
    assert_eq!(m.insert(1, 1), None);
    assert_eq!(m.len(), 1);
}

#[test]
fn keys_and_values_come_in_ascending_order_of_the_keys() {
    let mut m = BTreeMap::with_degree(2);
    for k in [5u32, 1, 4, 2, 3, 9, 7, 8, 6] {
        m.insert(k, 100 - k);
    }
    let mut keys = Vec::new();
    let mut it = m.keys();
    while let Some(k) = it.next() {
        keys.push(*k);
    }
    assert_eq!(keys, vec![1, 2, 3, 4, 5, 6, 7, 8, 9]);
    let mut values = Vec::new();
    let mut it = m.values();
    while let Some(v) = it.next() {
        values.push(*v);
    }
    assert_eq!(values, vec![99, 98, 97, 96, 95, 94, 93, 92, 91]);
    let mut it = m.iter();
    assert_eq!(it.next(), Some((&1, &99)));
    assert_eq!(it.next(), Some((&2, &98)));
}

#[test]
fn walk_can_be_taken_again() {
    let mut m = BTreeMap::new();
    for k in 0u32..30 {
        m.insert(k, k);
    }
    let first = walk(&m);
    let second = walk(&m);
    assert_eq!(first.len(), 30);
    assert_eq!(first, second);
    let mut it = m.iter();
    for _ in 0..30 {
        assert!(it.next().is_some());
    }
    assert_eq!(it.next(), None);
    assert_eq!(it.next(), None);
}

#[test]
fn least_and_greatest_key_of_a_subtree() {
    let mut m = BTreeMap::with_degree(2);
    for k in [50u32, 20, 80, 10, 30, 70, 90, 60, 40] {
        m.insert(k, k);
    }
    assert_eq!(*m.root().min_key(), 10);
    assert_eq!(*m.root().max_key(), 90);
    let last = m.root().children.len() - 1;
    assert!(*m.root().children[0].max_key() < m.root().keys[0]);
    assert!(*m.root().children[last].min_key() > m.root().keys[last - 1]);
}

#[test]
fn find_index_gives_the_place_of_a_key_or_of_the_next_above() {
    let mut node: Node<u32, u32> = Node::new();
    for k in [10u32, 20, 30, 40, 50] {
        node.keys.push(k);
        node.vals.push(k);
    }
    assert_eq!(node.find_index(&5), 0);
    assert_eq!(node.find_index(&10), 0);
    assert_eq!(node.find_index(&15), 1);
    assert_eq!(node.find_index(&30), 2);
    assert_eq!(node.find_index(&50), 4);
    assert_eq!(node.find_index(&55), 5);
    let empty: Node<u32, u32> = Node::new();
    assert_eq!(empty.find_index(&1), 0);
}

#[test]
fn lookup_in_a_subtree_names_the_node_and_the_position() {
    let mut m = BTreeMap::with_degree(2);
    for k in 1u32..=7 {
        m.insert(k, k * 2);
    }
    for k in 1u32..=7 {
        match m.root().get(&k) {
            Some((idx, node)) => {
                assert_eq!(node.keys[idx], k);
                assert_eq!(node.vals[idx], k * 2);
            },
            None => panic!("key {k} is missing"),
        }
    }
    assert!(m.root().get(&0).is_none());
    assert!(m.root().get(&8).is_none());
}
