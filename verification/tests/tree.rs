use btree::map::BTreeMap;
use btree::tree::error::Error;
use btree::tree::node::{Inner, Inserted, Lookup, Node, Plan, Removed};
use btree::tree::BTree;
use std::collections::BTreeMap as Oracle;
use std::collections::HashMap;

type Page = (Vec<u32>, Vec<u32>, Vec<u64>);

/// Nodes kept in memory under their identifiers, as a storage would keep
/// them.
struct Store {
    next: u64,
    pages: HashMap<u64, Page>,
    reads: usize,
    writes: usize,
}

impl Store {
    fn new() -> Self {
        Store { next: 1, pages: HashMap::new(), reads: 0, writes: 0 }
    }

    fn fresh(&mut self) -> u64 {
        self.next += 1;
        self.next - 1
    }

    fn read(&mut self, id: u64, degree: usize) -> Result<Node<u32, u32>, Error> {
        self.reads += 1;
        let (keys, vals, children) = self.pages.get(&id).ok_or(Error::Storage)?.clone();
        Node { id, keys, vals, children }.accept(id, degree)
    }

    fn write(&mut self, node: &Node<u32, u32>) {
        self.writes += 1;
        self.pages.insert(node.id, (node.keys.clone(), node.vals.clone(), node.children.clone()));
    }
}

/// A tree in a store, driven as the library's steps direct.
struct Stored {
    core: BTree,
    store: Store,
}

fn alike(a: &Node<u32, u32>, b: &Node<u32, u32>) -> Result<(), Error> {
    if a.is_leaf() == b.is_leaf() {
        Ok(())
    } else {
        Err(Error::Serde)
    }
}

impl Stored {
    fn with_degree(degree: usize) -> Self {
        let mut store = Store::new();
        let root = store.fresh();
        store.write(&Node::new(root));
        Stored { core: BTree::with_degree(root, degree), store }
    }

    fn read(&mut self, id: u64) -> Result<Node<u32, u32>, Error> {
        self.store.read(id, self.core.degree())
    }

    fn get(&mut self, k: &u32) -> Result<Option<u32>, Error> {
        let mut node = self.read(self.core.root())?;
        loop {
            match node.lookup(k) {
                Lookup::Found(idx) => return Ok(Some(node.vals[idx])),
                Lookup::Absent => return Ok(None),
                Lookup::Descend(child) => node = self.read(child)?,
            }
        }
    }

    fn insert(&mut self, k: u32, v: u32) -> Result<Option<u32>, Error> {
        let degree = self.core.degree();
        let mut node = self.read(self.core.root())?;
        if self.core.must_grow(&node) {
            let above = self.store.fresh();
            let beside = self.store.fresh();
            let mut root = Node::above(above, node.id);
            let right = root.split_child(0, &mut node, beside, degree);
            self.store.write(&root);
            self.store.write(&node);
            self.store.write(&right);
            self.core.grow(above);
            node = root;
        }
        let (mut k, mut v) = (k, v);
        loop {
            match node.insert_step(k, v) {
                Inserted::Replaced(prior) => {
                    self.store.write(&node);
                    let prior = Some(prior);
                    self.core.record_insert(&prior);
                    return Ok(prior);
                },
                Inserted::Added => {
                    self.store.write(&node);
                    let prior = None;
                    self.core.record_insert(&prior);
                    return Ok(prior);
                },
                Inserted::Descend(idx, key, val) => {
                    k = key;
                    v = val;
                    let mut child = self.read(node.children[idx])?;
                    if child.is_full(degree) {
                        let beside = self.store.fresh();
                        let right = node.split_child(idx, &mut child, beside, degree);
                        self.store.write(&node);
                        self.store.write(&child);
                        self.store.write(&right);
                    } else {
                        node = child;
                    }
                },
            }
        }
    }

    fn remove(&mut self, k: &u32) -> Result<Option<(u32, u32)>, Error> {
        let mut root = self.read(self.core.root())?;
        let entry = self.remove_from(&mut root, k)?;
        self.core.record_remove(&entry, &root);
        Ok(entry)
    }

    fn remove_from(&mut self, node: &mut Node<u32, u32>, k: &u32) -> Result<Option<(u32, u32)>, Error> {
        let degree = self.core.degree();
        match node.remove_step(k) {
            Removed::Taken(key, val) => {
                self.store.write(node);
                Ok(Some((key, val)))
            },
            Removed::Absent => Ok(None),
            Removed::Inner(idx) => {
                let mut pred = self.read(node.children[idx])?;
                let mut succ = None;
                loop {
                    match Node::plan_inner(&pred, succ.as_ref(), degree) {
                        Inner::Predecessor => {
                            let entry = self.pop_last(&mut pred)?;
                            let prior = node.replace_entry(idx, entry);
                            self.store.write(node);
                            return Ok(Some(prior));
                        },
                        Inner::ReadSuccessor => succ = Some(self.read(node.children[idx + 1])?),
                        Inner::Successor => {
                            let mut succ = succ.take().ok_or(Error::Serde)?;
                            let entry = self.pop_first(&mut succ)?;
                            let prior = node.replace_entry(idx, entry);
                            self.store.write(node);
                            return Ok(Some(prior));
                        },
                        Inner::Merge => {
                            let succ = succ.take().ok_or(Error::Serde)?;
                            alike(&pred, &succ)?;
                            node.merge_children(idx, &mut pred, succ);
                            self.store.write(node);
                            self.store.write(&pred);
                            return self.remove_from(&mut pred, k);
                        },
                    }
                }
            },
            Removed::Descend(idx) => {
                let mut child = self.fix(node, idx)?;
                self.remove_from(&mut child, k)
            },
        }
    }

    fn pop_last(&mut self, node: &mut Node<u32, u32>) -> Result<(u32, u32), Error> {
        if node.is_empty() {
            return Err(Error::Serde);
        }
        if node.is_leaf() {
            let entry = node.take_entry(node.len() - 1);
            self.store.write(node);
            return Ok(entry);
        }
        let mut child = self.fix(node, node.children.len() - 1)?;
        self.pop_last(&mut child)
    }

    fn pop_first(&mut self, node: &mut Node<u32, u32>) -> Result<(u32, u32), Error> {
        if node.is_empty() {
            return Err(Error::Serde);
        }
        if node.is_leaf() {
            let entry = node.take_entry(0);
            self.store.write(node);
            return Ok(entry);
        }
        let mut child = self.fix(node, 0)?;
        self.pop_first(&mut child)
    }

    fn fix(&mut self, node: &mut Node<u32, u32>, idx: usize) -> Result<Node<u32, u32>, Error> {
        let degree = self.core.degree();
        let mut mid = self.read(node.children[idx])?;
        let mut left = None;
        let mut right = None;
        loop {
            match node.plan_fix(idx, &mid, left.as_ref(), right.as_ref(), degree) {
                Plan::Keep => return Ok(mid),
                Plan::ReadLeft => left = Some(self.read(node.children[idx - 1])?),
                Plan::ReadRight => right = Some(self.read(node.children[idx + 1])?),
                Plan::RotateRight => {
                    let mut left = left.take().ok_or(Error::Serde)?;
                    alike(&left, &mid)?;
                    node.rotate_right(idx, &mut left, &mut mid);
                    self.store.write(node);
                    self.store.write(&left);
                    self.store.write(&mid);
                    return Ok(mid);
                },
                Plan::RotateLeft => {
                    let mut right = right.take().ok_or(Error::Serde)?;
                    alike(&mid, &right)?;
                    node.rotate_left(idx, &mut mid, &mut right);
                    self.store.write(node);
                    self.store.write(&right);
                    self.store.write(&mid);
                    return Ok(mid);
                },
                Plan::MergeLeft => {
                    let mut left = left.take().ok_or(Error::Serde)?;
                    alike(&left, &mid)?;
                    node.merge_children(idx - 1, &mut left, mid);
                    self.store.write(node);
                    self.store.write(&left);
                    return Ok(left);
                },
                Plan::MergeRight => {
                    let right = right.take().ok_or(Error::Serde)?;
                    alike(&mid, &right)?;
                    node.merge_children(idx, &mut mid, right);
                    self.store.write(node);
                    self.store.write(&mid);
                    return Ok(mid);
                },
            }
        }
    }

    /// The keys of each node of the tree, a node before its children.
    fn shape(&mut self) -> Vec<Vec<u32>> {
        let mut out = Vec::new();
        let root = self.core.root();
        self.shape_below(root, &mut out);
        out
    }

    fn shape_below(&mut self, id: u64, out: &mut Vec<Vec<u32>>) {
        let node = self.read(id).unwrap();
        out.push(node.keys.clone());
        for child in node.children.iter() {
            self.shape_below(*child, out);
        }
    }
}

/// The keys of each node of a tree in memory, a node before its children.
fn shape_of(node: &btree::map::node::Node<u32, u32>, out: &mut Vec<Vec<u32>>) {
    out.push(node.keys.clone());
    for child in node.children.iter() {
        shape_of(child, out);
    }
}

struct Numbers(u64);

impl Numbers {
    fn next(&mut self) -> u64 {
        self.0 = self.0.wrapping_mul(6364136223846793005).wrapping_add(1442695040888963407);
        self.0 >> 33
    }
}

fn node(id: u64, keys: &[u32], children: &[u64]) -> Node<u32, u32> {
    Node {
        id,
        keys: keys.to_vec(),
        vals: keys.iter().map(|k| k * 10).collect(),
        children: children.to_vec(),
    }
}

#[test]
fn stored_tree_starts_empty() {
    let mut t = Stored::with_degree(2);
    assert_eq!(t.core.len(), 0);
    assert!(t.core.is_empty());
    assert_eq!(t.core.degree(), 2);
    assert_eq!(t.get(&1), Ok(None));
    assert_eq!(t.remove(&1), Ok(None));
    assert_eq!(t.shape(), vec![Vec::<u32>::new()]);
    assert_eq!(BTree::new(7).degree(), 2);
    assert_eq!(BTree::new(7).root(), 7);
}

#[test]
fn stored_tree_does_what_the_map_does() {
    for degree in [2usize, 3, 4] {
        let mut numbers = Numbers(17 + degree as u64);
        let mut stored = Stored::with_degree(degree);
        let mut map = BTreeMap::with_degree(degree);
        let mut oracle = Oracle::new();
        for step in 0..4000u32 {
            let k = (numbers.next() % 150) as u32;
            match numbers.next() % 3 {
                0 => {
                    let expected = oracle.insert(k, step);
                    assert_eq!(stored.insert(k, step), Ok(expected));
                    assert_eq!(map.insert(k, step), expected);
                },
                1 => {
                    let expected = oracle.remove(&k);
                    assert_eq!(stored.remove(&k), Ok(expected.map(|v| (k, v))));
                    assert_eq!(map.remove(&k), expected);
                },
                _ => {
                    assert_eq!(stored.get(&k), Ok(oracle.get(&k).copied()));
                },
            }
            assert_eq!(stored.core.len(), oracle.len() as u64);
            assert_eq!(stored.core.is_empty(), oracle.is_empty());
            if step % 53 == 0 {
                let mut expected = Vec::new();
                shape_of(map.root(), &mut expected);
                assert_eq!(stored.shape(), expected);
            }
        }
    }
}

#[test]
fn stored_tree_reads_one_node_per_level_for_a_lookup() {
    let mut t = Stored::with_degree(2);
    for k in 0..100u32 {
        assert_eq!(t.insert(k, k), Ok(None));
    }
    let mut levels = 1;
    let mut node = t.read(t.core.root()).unwrap();
    while !node.is_leaf() {
        node = t.read(node.children[0]).unwrap();
        levels += 1;
    }
    let before = t.store.reads;
    assert_eq!(t.get(&99), Ok(Some(99)));
    assert!(t.store.reads - before <= levels);
    let written = t.store.writes;
    assert_eq!(t.get(&50), Ok(Some(50)));
    assert_eq!(t.store.writes, written);
}

#[test]
fn stored_tree_clears_to_a_new_root() {
    let mut t = Stored::with_degree(3);
    for k in 0..20u32 {
        t.insert(k, k).unwrap();
    }
    let root = t.store.fresh();
    t.store.write(&Node::new(root));
    t.core.clear(root);
    assert_eq!(t.core.len(), 0);
    assert_eq!(t.core.root(), root);
    assert_eq!(t.core.degree(), 3);
    assert_eq!(t.get(&5), Ok(None));
    assert_eq!(t.insert(5, 6), Ok(None));
    assert_eq!(t.get(&5), Ok(Some(6)));
}

#[test]
fn node_is_taken_in_only_if_it_can_be_part_of_the_tree() {
    assert!(node(1, &[1, 2, 3], &[]).accept(1, 2).is_ok());
    assert!(node(1, &[1, 2, 3], &[5, 6, 7, 8]).accept(1, 2).is_ok());
    assert!(node(1, &[], &[]).accept(1, 2).is_ok());
    // another identifier than the one it was read under
    assert_eq!(node(1, &[1, 2], &[]).accept(2, 2).err(), Some(Error::Serde));
    // more keys than a node of the degree may have
    assert_eq!(node(1, &[1, 2, 3, 4], &[]).accept(1, 2).err(), Some(Error::Serde));
    assert!(node(1, &[1, 2, 3, 4], &[]).accept(1, 3).is_ok());
    // keys that do not ascend
    assert_eq!(node(1, &[1, 3, 2], &[]).accept(1, 2).err(), Some(Error::Serde));
    assert_eq!(node(1, &[1, 1], &[]).accept(1, 2).err(), Some(Error::Serde));
    // a child too few
    assert_eq!(node(1, &[1, 2], &[5, 6]).accept(1, 2).err(), Some(Error::Serde));
    // a value too few
    let mut short = node(1, &[1, 2], &[]);
    short.vals.pop();
    assert!(!short.check(2));
    assert_eq!(short.accept(1, 2).err(), Some(Error::Serde));
}

#[test]
fn errors_say_what_they_are() {
    assert_eq!(Error::Allocator.message(), "allocator error");
    assert_eq!(Error::Storage.message(), "storage error");
    assert_eq!(Error::Io.message(), "input or output error");
    assert_eq!(Error::Serde.message(), "encoding error");
}

#[test]
fn lookup_finds_or_says_where_to_look_on() {
    let inner = node(1, &[10, 20, 30], &[5, 6, 7, 8]);
    assert!(matches!(inner.lookup(&20), Lookup::Found(1)));
    assert!(matches!(inner.lookup(&5), Lookup::Descend(5)));
    assert!(matches!(inner.lookup(&15), Lookup::Descend(6)));
    assert!(matches!(inner.lookup(&25), Lookup::Descend(7)));
    assert!(matches!(inner.lookup(&35), Lookup::Descend(8)));
    let leaf = node(2, &[10, 20, 30], &[]);
    assert!(matches!(leaf.lookup(&30), Lookup::Found(2)));
    assert!(matches!(leaf.lookup(&25), Lookup::Absent));
    assert_eq!(inner.find_index(&20), 1);
    assert_eq!(inner.find_index(&21), 2);
    assert_eq!(inner.find_index(&31), 3);
}

#[test]
fn insert_step_replaces_adds_or_hands_back() {
    let mut leaf = node(1, &[10, 30], &[]);
    assert!(matches!(leaf.insert_step(20, 7), Inserted::Added));
    assert_eq!(leaf.keys, vec![10, 20, 30]);
    assert_eq!(leaf.vals, vec![100, 7, 300]);
    assert!(matches!(leaf.insert_step(30, 8), Inserted::Replaced(300)));
    assert_eq!(leaf.vals, vec![100, 7, 8]);

    let mut inner = node(2, &[10, 30], &[5, 6, 7]);
    assert!(matches!(inner.insert_step(20, 7), Inserted::Descend(1, 20, 7)));
    assert!(matches!(inner.insert_step(40, 7), Inserted::Descend(2, 40, 7)));
    assert_eq!(inner.keys, vec![10, 30]);
    assert!(matches!(inner.insert_step(10, 9), Inserted::Replaced(100)));
    assert_eq!(inner.vals, vec![9, 300]);
    assert_eq!(inner.children, vec![5, 6, 7]);
}

#[test]
fn remove_step_takes_from_a_leaf_or_says_where_to_go_on() {
    let mut leaf = node(1, &[10, 20, 30], &[]);
    assert!(matches!(leaf.remove_step(&15), Removed::Absent));
    assert!(matches!(leaf.remove_step(&20), Removed::Taken(20, 200)));
    assert_eq!(leaf.keys, vec![10, 30]);
    assert_eq!(leaf.vals, vec![100, 300]);

    let mut inner = node(2, &[10, 30], &[5, 6, 7]);
    assert!(matches!(inner.remove_step(&30), Removed::Inner(1)));
    assert!(matches!(inner.remove_step(&5), Removed::Descend(0)));
    assert!(matches!(inner.remove_step(&31), Removed::Descend(2)));
    assert_eq!(inner.keys, vec![10, 30]);
}

#[test]
fn split_child_cuts_a_stored_node_around_its_median() {
    let mut parent = node(1, &[100], &[2, 3]);
    let mut child = node(2, &[10, 20, 30, 40, 50], &[11, 12, 13, 14, 15, 16]);
    let right = parent.split_child(0, &mut child, 9, 3);
    assert_eq!(parent.keys, vec![30, 100]);
    assert_eq!(parent.vals, vec![300, 1000]);
    assert_eq!(parent.children, vec![2, 9, 3]);
    assert_eq!(child.id, 2);
    assert_eq!(child.keys, vec![10, 20]);
    assert_eq!(child.vals, vec![100, 200]);
    assert_eq!(child.children, vec![11, 12, 13]);
    assert_eq!(right.id, 9);
    assert_eq!(right.keys, vec![40, 50]);
    assert_eq!(right.vals, vec![400, 500]);
    assert_eq!(right.children, vec![14, 15, 16]);

    let mut root = Node::above(7, 2);
    assert_eq!(root.id, 7);
    assert_eq!(root.children, vec![2]);
    let mut leaf = node(2, &[1, 2, 3], &[]);
    let right = root.split_child(0, &mut leaf, 8, 2);
    assert_eq!(root.keys, vec![2]);
    assert_eq!(root.children, vec![2, 8]);
    assert_eq!(leaf.keys, vec![1]);
    assert_eq!(right.keys, vec![3]);
    assert!(leaf.is_leaf() && right.is_leaf());
}

#[test]
fn rotations_move_one_entry_through_the_parent() {
    let mut parent = node(1, &[50], &[2, 3]);
    let mut left = node(2, &[10, 20, 30], &[21, 22, 23, 24]);
    let mut mid = node(3, &[60], &[31, 32]);
    parent.rotate_right(1, &mut left, &mut mid);
    assert_eq!(parent.keys, vec![30]);
    assert_eq!(parent.vals, vec![300]);
    assert_eq!(left.keys, vec![10, 20]);
    assert_eq!(left.children, vec![21, 22, 23]);
    assert_eq!(mid.keys, vec![50, 60]);
    assert_eq!(mid.vals, vec![500, 600]);
    assert_eq!(mid.children, vec![24, 31, 32]);

    parent.rotate_left(0, &mut left, &mut mid);
    assert_eq!(parent.keys, vec![50]);
    assert_eq!(left.keys, vec![10, 20, 30]);
    assert_eq!(left.vals, vec![100, 200, 300]);
    assert_eq!(left.children, vec![21, 22, 23, 24]);
    assert_eq!(mid.keys, vec![60]);
    assert_eq!(mid.children, vec![31, 32]);
    assert_eq!(parent.children, vec![2, 3]);
}

#[test]
fn merge_joins_two_children_around_the_entry_between_them() {
    let mut parent = node(1, &[50, 90], &[2, 3, 4]);
    let mut left = node(2, &[10], &[21, 22]);
    let right = node(3, &[60], &[31, 32]);
    parent.merge_children(0, &mut left, right);
    assert_eq!(parent.keys, vec![90]);
    assert_eq!(parent.vals, vec![900]);
    assert_eq!(parent.children, vec![2, 4]);
    assert_eq!(left.id, 2);
    assert_eq!(left.keys, vec![10, 50, 60]);
    assert_eq!(left.vals, vec![100, 500, 600]);
    assert_eq!(left.children, vec![21, 22, 31, 32]);
}

#[test]
fn entries_are_taken_and_replaced_by_position() {
    let mut leaf = node(1, &[10, 20, 30], &[]);
    assert_eq!(leaf.replace_entry(1, (25, 7)), (20, 200));
    assert_eq!(leaf.keys, vec![10, 25, 30]);
    assert_eq!(leaf.vals, vec![100, 7, 300]);
    assert_eq!(leaf.take_entry(0), (10, 100));
    assert_eq!(leaf.take_entry(1), (30, 300));
    assert_eq!(leaf.keys, vec![25]);
    assert_eq!(leaf.len(), 1);
    assert!(!leaf.is_empty());
    assert!(!leaf.is_full(2));
}

#[test]
fn plan_for_a_child_follows_the_order_left_before_right() {
    let parent = node(1, &[10, 20], &[2, 3, 4]);
    let small = node(3, &[15], &[]);
    let big = node(3, &[15, 16], &[]);
    let poor = node(9, &[1], &[]);
    let rich = node(9, &[1, 2], &[]);
    // a child with a key to spare is left alone
    assert_eq!(parent.plan_fix(1, &big, None, None, 2), Plan::Keep);
    // the left sibling is asked first
    assert_eq!(parent.plan_fix(1, &small, None, None, 2), Plan::ReadLeft);
    assert_eq!(parent.plan_fix(1, &small, Some(&rich), None, 2), Plan::RotateRight);
    assert_eq!(parent.plan_fix(1, &small, Some(&rich), Some(&rich), 2), Plan::RotateRight);
    // then the right one
    assert_eq!(parent.plan_fix(1, &small, Some(&poor), None, 2), Plan::ReadRight);
    assert_eq!(parent.plan_fix(1, &small, Some(&poor), Some(&rich), 2), Plan::RotateLeft);
    // neither can spare a key: join, with the left one if there is one
    assert_eq!(parent.plan_fix(1, &small, Some(&poor), Some(&poor), 2), Plan::MergeLeft);
    // the first child has no left sibling
    assert_eq!(parent.plan_fix(0, &small, None, None, 2), Plan::ReadRight);
    assert_eq!(parent.plan_fix(0, &small, None, Some(&rich), 2), Plan::RotateLeft);
    assert_eq!(parent.plan_fix(0, &small, None, Some(&poor), 2), Plan::MergeRight);
    // the last child has no right sibling
    assert_eq!(parent.plan_fix(2, &small, Some(&poor), None, 2), Plan::MergeLeft);
    assert_eq!(parent.plan_fix(2, &small, Some(&rich), None, 2), Plan::RotateRight);
}

#[test]
fn plan_for_an_inner_entry_prefers_the_predecessor() {
    let poor = node(2, &[1, 2], &[]);
    let rich = node(3, &[1, 2, 3], &[]);
    assert_eq!(Node::plan_inner(&rich, None, 3), Inner::Predecessor);
    assert_eq!(Node::plan_inner(&rich, Some(&rich), 3), Inner::Predecessor);
    assert_eq!(Node::plan_inner(&poor, None, 3), Inner::ReadSuccessor);
    assert_eq!(Node::plan_inner(&poor, Some(&rich), 3), Inner::Successor);
    assert_eq!(Node::plan_inner(&poor, Some(&poor), 3), Inner::Merge);
}

#[test]
fn counts_and_root_follow_the_operations() {
    let mut core = BTree::with_degree(1, 2);
    core.record_insert(&None::<u32>);
    core.record_insert(&Some(3u32));
    assert_eq!(core.len(), 1);
    let full = node(1, &[1, 2, 3], &[]);
    assert!(core.must_grow(&full));
    assert!(!core.must_grow(&node(1, &[1, 2], &[])));
    core.grow(5);
    assert_eq!(core.root(), 5);
    assert_eq!(core.len(), 1);
    // a root with keys stays
    core.record_remove(&None::<(u32, u32)>, &node(5, &[2], &[1, 6]));
    assert_eq!(core.root(), 5);
    assert_eq!(core.len(), 1);
    // a root without keys above one child gives way to it
    core.record_remove(&Some((1u32, 1u32)), &node(5, &[], &[1]));
    assert_eq!(core.root(), 1);
    assert_eq!(core.len(), 0);
    // an empty leaf stays the root
    core.record_remove(&None::<(u32, u32)>, &node(1, &[], &[]));
    assert_eq!(core.root(), 1);
}
