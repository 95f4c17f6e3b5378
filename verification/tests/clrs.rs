use btree::map::node::Node;
use btree::map::BTreeMap;
use std::fmt::{self, Debug, Formatter};

/// A tree shown one node per line, each below its parent.
struct Shown<'a>(&'a Node<char, char>);

fn fmt_tree(
    out: &mut String,
    node: &Node<char, char>,
    prefix: String,
    last: bool,
    root: bool,
) {
    if !root {
        out.push_str(&prefix);
        out.push_str(if last { "└─── " } else { "├─── " });
    }
    out.push_str(&format!("{:?}\n", node.keys));
    if !node.is_leaf() {
        for (i, c) in node.children.iter().enumerate() {
            let next_prefix = if root {
                format!("{prefix}")
            } else if last {
                format!("{prefix}     ")
            } else {
                format!("{prefix}│    ")
            };
            fmt_tree(out, c, next_prefix, i + 1 == node.children.len(), false);
        }
    }
}

impl<'a> Debug for Shown<'a> {
    fn fmt(&self, f: &mut Formatter<'_>) -> fmt::Result {
        let mut out = String::new();
        fmt_tree(&mut out, self.0, String::new(), true, true);
        f.write_str(&out)
    }
}

fn leaf(keys: &str, vals: &str) -> Node<char, char> {
    let mut node = Node::new();
    for c in keys.chars() {
        node.keys.push(c);
    }
    for c in vals.chars() {
        node.vals.push(c);
    }
    node
}

#[test]
fn clrs_example_18_8_extended() {
    let mut ab = Node::new();
    ab.keys.push('a');
    ab.keys.push('b');
    ab.vals.push('a');
    ab.vals.push('b');

    let mut def = Node::new();
    def.keys.push('d');
    def.keys.push('e');
    def.keys.push('f');
    def.vals.push('d');
    def.vals.push('e');
    def.vals.push('f');

    let mut jkl = Node::new();
    jkl.keys.push('j');
    jkl.keys.push('k');
    jkl.keys.push('l');
    jkl.vals.push('j');
    jkl.vals.push('k');
    jkl.vals.push('l');

    let mut no = Node::new();
    no.keys.push('n');
    no.keys.push('o');
    no.vals.push('o');
    no.vals.push('n');

    let mut qrs = Node::new();
    qrs.keys.push('q');
    qrs.keys.push('r');
    qrs.keys.push('s');
    qrs.vals.push('q');
    qrs.vals.push('r');
    qrs.vals.push('s');

    let mut uv = Node::new();
    uv.keys.push('u');
    uv.keys.push('v');
    uv.vals.push('u');
    uv.vals.push('v');

    let mut yz = Node::new();
    yz.keys.push('y');
    yz.keys.push('z');
    yz.vals.push('y');
    yz.vals.push('z');

    let mut cgm = Node::new();
    cgm.keys.push('c');
    cgm.keys.push('g');
    cgm.keys.push('m');
    cgm.vals.push('c');
    cgm.vals.push('g');
    cgm.vals.push('m');
    cgm.children.push(ab);
    cgm.children.push(def);
    cgm.children.push(jkl);
    cgm.children.push(no);

    let mut tx = Node::new();
    tx.keys.push('t');
    tx.keys.push('x');
    tx.vals.push('t');
    tx.vals.push('x');
    tx.children.push(qrs);
    tx.children.push(uv);
    tx.children.push(yz);

    let mut p = Node::new();
    p.keys.push('p');
    p.vals.push('p');
    p.children.push(cgm);
    p.children.push(tx);

    let mut tree = BTreeMap::from_parts(3, 23, p);

    assert_eq!(
        {
            let m = Shown(tree.root());
            format!("\n{m:?}")
        },
        r#"
['p']
├─── ['c', 'g', 'm']
│    ├─── ['a', 'b']
│    ├─── ['d', 'e', 'f']
│    ├─── ['j', 'k', 'l']
│    └─── ['n', 'o']
└─── ['t', 'x']
     ├─── ['q', 'r', 's']
     ├─── ['u', 'v']
     └─── ['y', 'z']
"#
    );

    tree.remove(&'f');
    assert_eq!(
        {
            let m = Shown(tree.root());
            format!("\n{m:?}")
        },
        r#"
['p']
├─── ['c', 'g', 'm']
│    ├─── ['a', 'b']
│    ├─── ['d', 'e']
│    ├─── ['j', 'k', 'l']
│    └─── ['n', 'o']
└─── ['t', 'x']
     ├─── ['q', 'r', 's']
     ├─── ['u', 'v']
     └─── ['y', 'z']
"#
    );

    tree.remove(&'m');
    assert_eq!(
        {
            let m = Shown(tree.root());
            format!("\n{m:?}")
        },
        r#"
['p']
├─── ['c', 'g', 'l']
│    ├─── ['a', 'b']
│    ├─── ['d', 'e']
│    ├─── ['j', 'k']
│    └─── ['n', 'o']
└─── ['t', 'x']
     ├─── ['q', 'r', 's']
     ├─── ['u', 'v']
     └─── ['y', 'z']
"#
    );

    tree.remove(&'g');
    assert_eq!(
        {
            let m = Shown(tree.root());
            format!("\n{m:?}")
        },
        r#"
['p']
├─── ['c', 'l']
│    ├─── ['a', 'b']
│    ├─── ['d', 'e', 'j', 'k']
│    └─── ['n', 'o']
└─── ['t', 'x']
     ├─── ['q', 'r', 's']
     ├─── ['u', 'v']
     └─── ['y', 'z']
"#
    );

    tree.remove(&'d');
    assert_eq!(
        {
            let m = Shown(tree.root());
            format!("\n{m:?}")
        },
        r#"
['c', 'l', 'p', 't', 'x']
├─── ['a', 'b']
├─── ['e', 'j', 'k']
├─── ['n', 'o']
├─── ['q', 'r', 's']
├─── ['u', 'v']
└─── ['y', 'z']
"#
    );

    tree.remove(&'b');
    assert_eq!(
        {
            let m = Shown(tree.root());
            format!("\n{m:?}")
        },
        r#"
['e', 'l', 'p', 't', 'x']
├─── ['a', 'c']
├─── ['j', 'k']
├─── ['n', 'o']
├─── ['q', 'r', 's']
├─── ['u', 'v']
└─── ['y', 'z']
"#
    );

    tree.remove(&'e');
    assert_eq!(
        {
            let m = Shown(tree.root());
            format!("\n{m:?}")
        },
        r#"
['l', 'p', 't', 'x']
├─── ['a', 'c', 'j', 'k']
├─── ['n', 'o']
├─── ['q', 'r', 's']
├─── ['u', 'v']
└─── ['y', 'z']
"#
    );

    tree.remove(&'l');
    assert_eq!(
        {
            let m = Shown(tree.root());
            format!("\n{m:?}")
        },
        r#"
['k', 'p', 't', 'x']
├─── ['a', 'c', 'j']
├─── ['n', 'o']
├─── ['q', 'r', 's']
├─── ['u', 'v']
└─── ['y', 'z']
"#
    );

    tree.remove(&'j');
    assert_eq!(
        {
            let m = Shown(tree.root());
            format!("\n{m:?}")
        },
        r#"
['k', 'p', 't', 'x']
├─── ['a', 'c']
├─── ['n', 'o']
├─── ['q', 'r', 's']
├─── ['u', 'v']
└─── ['y', 'z']
"#
    );

    tree.remove(&'c');
    assert_eq!(
        {
            let m = Shown(tree.root());
            format!("\n{m:?}")
        },
        r#"
['p', 't', 'x']
├─── ['a', 'k', 'n', 'o']
├─── ['q', 'r', 's']
├─── ['u', 'v']
└─── ['y', 'z']
"#
    );

    tree.remove(&'y');
    assert_eq!(
        {
            let m = Shown(tree.root());
            format!("\n{m:?}")
        },
        r#"
['p', 't']
├─── ['a', 'k', 'n', 'o']
├─── ['q', 'r', 's']
└─── ['u', 'v', 'x', 'z']
"#
    );

    tree.remove(&'q');
    assert_eq!(
        {
            let m = Shown(tree.root());
            format!("\n{m:?}")
        },
        r#"
['p', 't']
├─── ['a', 'k', 'n', 'o']
├─── ['r', 's']
└─── ['u', 'v', 'x', 'z']
"#
    );

    tree.remove(&'t');
    assert_eq!(
        {
            let m = Shown(tree.root());
            format!("\n{m:?}")
        },
        r#"
['p', 'u']
├─── ['a', 'k', 'n', 'o']
├─── ['r', 's']
└─── ['v', 'x', 'z']
"#
    );

    tree.remove(&'r');
    assert_eq!(
        {
            let m = Shown(tree.root());
            format!("\n{m:?}")
        },
        r#"
['o', 'u']
├─── ['a', 'k', 'n']
├─── ['p', 's']
└─── ['v', 'x', 'z']
"#
    );

    tree.remove(&'s');
    assert_eq!(
        {
            let m = Shown(tree.root());
            format!("\n{m:?}")
        },
        r#"
['n', 'u']
├─── ['a', 'k']
├─── ['o', 'p']
└─── ['v', 'x', 'z']
"#
    );

    tree.remove(&'o');
    assert_eq!(
        {
            let m = Shown(tree.root());
            format!("\n{m:?}")
        },
        r#"
['n', 'v']
├─── ['a', 'k']
├─── ['p', 'u']
└─── ['x', 'z']
"#
    );

    tree.remove(&'x');
    assert_eq!(
        {
            let m = Shown(tree.root());
            format!("\n{m:?}")
        },
        r#"
['n']
├─── ['a', 'k']
└─── ['p', 'u', 'v', 'z']
"#
    );

    tree.remove(&'a');
    assert_eq!(
        {
            let m = Shown(tree.root());
            format!("\n{m:?}")
        },
        r#"
['p']
├─── ['k', 'n']
└─── ['u', 'v', 'z']
"#
    );

    tree.remove(&'k');
    assert_eq!(
        {
            let m = Shown(tree.root());
            format!("\n{m:?}")
        },
        r#"
['u']
├─── ['n', 'p']
└─── ['v', 'z']
"#
    );

    tree.remove(&'u');
    assert_eq!(
        {
            let m = Shown(tree.root());
            format!("\n{m:?}")
        },
        r#"
['n', 'p', 'v', 'z']
"#
    );

    tree.remove(&'n');
    assert_eq!(
        {
            let m = Shown(tree.root());
            format!("\n{m:?}")
        },
        r#"
['p', 'v', 'z']
"#
    );

    tree.remove(&'p');
    assert_eq!(
        {
            let m = Shown(tree.root());
            format!("\n{m:?}")
        },
        r#"
['v', 'z']
"#
    );

    tree.remove(&'v');
    assert_eq!(
        {
            let m = Shown(tree.root());
            format!("\n{m:?}")
        },
        r#"
['z']
"#
    );

    tree.remove(&'z');
    assert_eq!(
        {
            let m = Shown(tree.root());
            format!("\n{m:?}")
        },
        r#"
[]
"#
    );
}

#[test]
fn split_child_cuts_a_full_leaf_around_its_median() {
    let mut parent: Node<char, char> = Node::new();
    parent.children.push(leaf("abc", "xyz"));
    parent.split_child(0, 2);
    assert_eq!(parent.keys, vec!['b']);
    assert_eq!(parent.vals, vec!['y']);
    assert_eq!(parent.children.len(), 2);
    assert_eq!(parent.children[0].keys, vec!['a']);
    assert_eq!(parent.children[0].vals, vec!['x']);
    assert_eq!(parent.children[1].keys, vec!['c']);
    assert_eq!(parent.children[1].vals, vec!['z']);
    assert!(parent.children[0].is_leaf() && parent.children[1].is_leaf());
}
