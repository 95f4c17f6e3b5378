use btree::map::node::Node;
use btree::map::BTreeMap;

fn leaf(keys: &[u32]) -> Node<u32, u32> {
    let mut node = Node::new();
    for k in keys {
        node.keys.push(*k);
        node.vals.push(*k + 1000);
    }
    node
}

fn inner(keys: &[u32], children: Vec<Node<u32, u32>>) -> Node<u32, u32> {
    let mut node = leaf(keys);
    node.children = children;
    node
}

fn count(node: &Node<u32, u32>) -> u64 {
    node.keys.len() as u64 + node.children.iter().map(count).sum::<u64>()
}

fn tree(root: Node<u32, u32>) -> BTreeMap<u32, u32> {
    let len = count(&root);
    BTreeMap::from_parts(2, len, root)
}

/// The keys of each node, a node before its children.
fn shape(node: &Node<u32, u32>, out: &mut Vec<Vec<u32>>) {
    out.push(node.keys.clone());
    for child in node.children.iter() {
        shape(child, out);
    }
}

fn shape_of(m: &BTreeMap<u32, u32>) -> Vec<Vec<u32>> {
    let mut out = Vec::new();
    shape(m.root(), &mut out);
    out
}

#[test]
fn key_in_a_leaf_is_taken_out_of_it() {
    let mut m = tree(leaf(&[1, 2, 3]));
    assert_eq!(m.remove_entry(&2), Some((2, 1002)));
    assert_eq!(shape_of(&m), vec![vec![1, 3]]);
    assert_eq!(m.len(), 2);
}

#[test]
fn key_in_an_inner_node_gives_way_to_its_predecessor() {
    let mut m = tree(inner(&[20], vec![leaf(&[10, 15]), leaf(&[30, 35])]));
    assert_eq!(m.remove_entry(&20), Some((20, 1020)));
    assert_eq!(shape_of(&m), vec![vec![15], vec![10], vec![30, 35]]);
    assert_eq!(m.get(&15), Some(&1015));
}

#[test]
fn key_in_an_inner_node_gives_way_to_its_successor_if_the_predecessor_cannot_be_spared() {
    let mut m = tree(inner(&[20], vec![leaf(&[10]), leaf(&[30, 35])]));
    assert_eq!(m.remove_entry(&20), Some((20, 1020)));
    assert_eq!(shape_of(&m), vec![vec![30], vec![10], vec![35]]);
    assert_eq!(m.get(&30), Some(&1030));
}

#[test]
fn key_in_an_inner_node_goes_down_into_the_joined_children_if_neither_can_spare_a_key() {
    let mut m = tree(inner(&[20, 40], vec![leaf(&[10]), leaf(&[30]), leaf(&[50])]));
    assert_eq!(m.remove_entry(&20), Some((20, 1020)));
    assert_eq!(shape_of(&m), vec![vec![40], vec![10, 30], vec![50]]);
}

#[test]
fn child_takes_a_key_from_its_left_sibling_first() {
    let mut m = tree(inner(&[20, 40], vec![leaf(&[5, 10]), leaf(&[30]), leaf(&[50, 60])]));
    assert_eq!(m.remove_entry(&30), Some((30, 1030)));
    assert_eq!(shape_of(&m), vec![vec![10, 40], vec![5], vec![20], vec![50, 60]]);
    assert_eq!(m.get(&10), Some(&1010));
    assert_eq!(m.get(&20), Some(&1020));
}

#[test]
fn child_takes_a_key_from_its_right_sibling_if_the_left_one_cannot_spare_one() {
    let mut m = tree(inner(&[20, 40], vec![leaf(&[10]), leaf(&[30]), leaf(&[50, 60])]));
    assert_eq!(m.remove_entry(&30), Some((30, 1030)));
    assert_eq!(shape_of(&m), vec![vec![20, 50], vec![10], vec![40], vec![60]]);
    assert_eq!(m.get(&50), Some(&1050));
    assert_eq!(m.get(&40), Some(&1040));
}

#[test]
fn child_is_joined_to_its_left_sibling_if_no_sibling_can_spare_a_key() {
    let mut m = tree(inner(&[20, 40], vec![leaf(&[10]), leaf(&[30]), leaf(&[50])]));
    assert_eq!(m.remove_entry(&30), Some((30, 1030)));
    assert_eq!(shape_of(&m), vec![vec![40], vec![10, 20], vec![50]]);
}

#[test]
fn first_child_is_joined_to_its_right_sibling() {
    let mut m = tree(inner(&[20, 40], vec![leaf(&[10]), leaf(&[30]), leaf(&[50])]));
    assert_eq!(m.remove_entry(&10), Some((10, 1010)));
    assert_eq!(shape_of(&m), vec![vec![40], vec![20, 30], vec![50]]);
}

#[test]
fn children_that_are_moved_between_siblings_keep_their_subtrees() {
    let left = inner(&[10, 20], vec![leaf(&[5]), leaf(&[15]), leaf(&[25])]);
    let mid = inner(&[40], vec![leaf(&[35]), leaf(&[45])]);
    let right = inner(&[60, 70], vec![leaf(&[55]), leaf(&[65]), leaf(&[75])]);
    let mut m = tree(inner(&[30, 50], vec![left, mid, right]));
    // the child on the way has the least number of keys: it takes the last
    // key and the last child of its left sibling
    assert_eq!(m.remove_entry(&45), Some((45, 1045)));
    assert_eq!(
        shape_of(&m),
        vec![
            vec![20, 50],
            vec![10],
            vec![5],
            vec![15],
            vec![30],
            vec![25],
            vec![35, 40],
            vec![60, 70],
            vec![55],
            vec![65],
            vec![75],
        ]
    );
    assert_eq!(m.len(), 14);
}

#[test]
fn root_that_is_left_without_keys_gives_way_to_its_child() {
    let mut m = tree(inner(&[20], vec![leaf(&[10]), leaf(&[30])]));
    assert_eq!(m.remove_entry(&10), Some((10, 1010)));
    assert_eq!(shape_of(&m), vec![vec![20, 30]]);
    assert!(m.root().is_leaf());
    assert_eq!(m.len(), 2);
}

#[test]
fn first_and_last_entry_are_taken_out_of_a_subtree() {
    let mut root = inner(&[20, 40], vec![leaf(&[5, 10]), leaf(&[30]), leaf(&[50])]);
    assert_eq!(root.pop_first(2), (5, 1005));
    assert_eq!(root.pop_last(2), (50, 1050));
    let mut out = Vec::new();
    shape(&root, &mut out);
    assert_eq!(out, vec![vec![20], vec![10], vec![30, 40]]);
}

#[test]
fn fix_child_says_where_the_child_stands_afterwards() {
    let mut root = inner(&[20, 40], vec![leaf(&[10]), leaf(&[30]), leaf(&[50])]);
    assert_eq!(root.fix_child(2, 2), 1);
    let mut out = Vec::new();
    shape(&root, &mut out);
    assert_eq!(out, vec![vec![20], vec![10], vec![30, 40, 50]]);

    let mut root = inner(&[20, 40], vec![leaf(&[10, 15]), leaf(&[30]), leaf(&[50])]);
    assert_eq!(root.fix_child(0, 2), 0);
    assert_eq!(root.fix_child(1, 2), 1);
    let mut out = Vec::new();
    shape(&root, &mut out);
    assert_eq!(out, vec![vec![15, 40], vec![10], vec![20, 30], vec![50]]);
}
