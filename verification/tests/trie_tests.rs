//! Tests of the persistent trie's structural sharing, snapshot
//! isolation and back-reference maintenance, and of the in-place trie.

use ime::input_context::ResultText;
use ime::persistent_trie::{PersistentNode, PersistentTrie};
use ime::trie::{Trie, TrieNode};

fn entry(text: &str, priority: u32) -> ResultText {
    ResultText { text: String::from(text), priority }
}

fn walk(trie: &PersistentTrie, root: usize, codes: &str) -> Option<usize> {
    let mut cur = root;
    for ch in codes.chars() {
        match trie.node(cur).child(ch) {
            Some(c) => cur = c,
            None => return None,
        }
    }
    Some(cur)
}

#[test]
fn structural_sharing_reuses_off_path_subtrees() {
    // build a trie with two branches, then insert along one of them:
    // the other branch's slots are identical (same arena indices)
    let mut trie = PersistentTrie::new();
    trie.insert(&vec!['a', 'b'], entry("ab", 1));
    trie.insert(&vec!['c', 'd'], entry("cd", 2));
    let old_root = trie.root();
    let old_cd = walk(&trie, old_root, "cd").expect("cd exists");
    let old_c = walk(&trie, old_root, "c").expect("c exists");
    trie.insert(&vec!['a', 'x'], entry("ax", 3));
    let new_root = trie.root();
    assert_ne!(old_root, new_root);
    // the subtree off the inserted path is reference-identical
    assert_eq!(walk(&trie, new_root, "c"), Some(old_c));
    assert_eq!(walk(&trie, new_root, "cd"), Some(old_cd));
    // the path itself was copied
    assert_ne!(walk(&trie, new_root, "a"), walk(&trie, old_root, "a"));
}

#[test]
fn old_snapshots_stay_intact() {
    // a root taken before an insert still sees exactly the old entries
    let mut trie = PersistentTrie::new();
    trie.insert(&vec!['a'], entry("one", 1));
    let snapshot = trie.root();
    trie.insert(&vec!['a'], entry("two", 2));
    let old_a = walk(&trie, snapshot, "a").expect("a existed before");
    assert_eq!(trie.node(old_a).values.len(), 1);
    assert_eq!(trie.node(old_a).values[0].text, "one");
    let new_a = walk(&trie, trie.root(), "a").expect("a exists now");
    assert_eq!(trie.node(new_a).values.len(), 2);
    assert_eq!(trie.node(new_a).values[1].text, "two");
}

#[test]
fn maintain_wires_every_father() {
    // after maintain, following any reachable node's father and then the
    // key that led to it lands back on the same node
    let mut trie = PersistentTrie::new();
    trie.insert(&vec!['a', 'b', 'c'], entry("abc", 1));
    trie.insert(&vec!['a', 'd'], entry("ad", 2));
    trie.insert(&vec!['x'], entry("x", 3));
    trie.maintain();
    let root = trie.root();
    assert_eq!(trie.father_of(root), None);
    let reachable = PersistentNode::flatten(&trie.nodes, root);
    for &i in reachable.iter() {
        for &(key, child) in trie.node(i).children.iter() {
            assert_eq!(trie.father_of(child), Some(i));
            assert_eq!(trie.node(i).child(key), Some(child));
        }
    }
}

#[test]
fn flatten_lists_the_whole_subtree() {
    let mut trie = PersistentTrie::new();
    trie.insert(&vec!['a', 'b'], entry("ab", 1));
    trie.insert(&vec!['c'], entry("c", 2));
    let all = PersistentNode::flatten(&trie.nodes, trie.root());
    assert_eq!(all.len(), 4);
    assert_eq!(all[0], trie.root());
}

#[test]
fn child_or_default_finds_or_creates() {
    let mut trie = PersistentTrie::new();
    trie.insert(&vec!['a'], entry("a", 1));
    let root = trie.root();
    let a = walk(&trie, root, "a").expect("a exists");
    let before = trie.nodes.len();
    // present key: no new slots
    let found = PersistentNode::child_or_default(&mut trie.nodes, root, 'a');
    assert_eq!(found, a);
    assert_eq!(trie.nodes.len(), before);
    // absent key: a fresh leaf and a fresh copy of the node
    let copy = PersistentNode::child_or_default(&mut trie.nodes, root, 'z');
    assert_eq!(trie.nodes.len(), before + 2);
    assert_eq!(copy, before + 1);
    assert_eq!(trie.nodes[copy].child('z'), Some(before));
    assert_eq!(trie.nodes[copy].child('a'), Some(a));
}

#[test]
fn node_push_leaves_original_alone() {
    let node = PersistentNode::new();
    let bigger = node.push(entry("v", 9));
    assert_eq!(node.values.len(), 0);
    assert_eq!(bigger.values.len(), 1);
    assert_eq!(bigger.values[0].text, "v");
    assert_eq!(bigger.values[0].priority, 9);
}

#[test]
fn inplace_trie_inserts_and_knows_fathers() {
    let mut t = Trie::new();
    t.insert(&vec!['a', 'b'], String::from("ab"));
    t.insert(&vec!['a'], String::from("a"));
    assert_eq!(t.root(), 0);
    // walk by hand through the public arena
    let a = TrieNode::child(&mut t.nodes, 0, 'a');
    assert_eq!(t.nodes[a].values, vec![String::from("a")]);
    assert_eq!(t.nodes[a].father, Some(0));
    let b = TrieNode::child(&mut t.nodes, a, 'b');
    assert_eq!(t.nodes[b].values, vec![String::from("ab")]);
    assert_eq!(t.nodes[b].father, Some(a));
}

#[test]
fn inplace_trie_bfs_is_level_order() {
    // paths "ab" and "c": slot 1 is the a-node, slot 2 its b-child,
    // slot 3 the c-node; level order visits both depth-one nodes before
    // the depth-two one
    let mut t = Trie::new();
    t.insert(&vec!['a', 'b'], String::from("ab"));
    t.insert(&vec!['c'], String::from("c"));
    let order = t.bfs(0);
    assert_eq!(order, vec![0, 1, 3, 2]);
}

#[test]
fn inplace_trie_prints_every_node() {
    let mut t = Trie::new();
    t.insert(&vec!['a', 'b'], String::from("ab"));
    t.insert(&vec!['c'], String::from("c"));
    t.insert(&vec!['a', 'b'], String::from("again"));
    let lines = t.print_tree();
    assert_eq!(lines.len(), 4);
    assert_eq!(lines[0], "- root -");
    assert!(lines.iter().any(|l| l.ends_with(" ab, values: [ab, again]")));
    assert!(lines.iter().any(|l| l.ends_with(" c, values: [c]")));
}
