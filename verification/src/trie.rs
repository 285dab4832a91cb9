//! The earlier, in-place prefix tree: nodes live in an arena and gain
//! children as patterns are inserted, each child knowing its father from
//! birth.  The persistent trie supersedes it for session use; this one
//! remains for eagerly built, single-owner tables.

use vstd::prelude::*;
use crate::persistent_trie::{assoc_get, keys_unique};
use crate::text::string_of_chars;
use crate::tree::{ascii_of, next_row, TreeDepth, TreeParam, TreeSign, TreeStream};
use vstd::string::{StrSliceExecFns, StringExecFns};

verus! {

/// A node of the in-place trie: its father (none for the root), its
/// children keyed by a code unit, and its values in insertion order.
/// Children sit in later arena slots than their father.
#[derive(Debug)]
pub struct TrieNode {
    pub father: Option<usize>,
    pub children: Vec<(char, usize)>,
    pub values: Vec<String>,
}

/// Every slot's children lie strictly behind it and inside the arena,
/// under unique keys.
pub open spec fn m_nodes_wf(nodes: Seq<TrieNode>) -> bool {
    forall|i: int|
        0 <= i < nodes.len() ==> {
            &&& keys_unique((#[trigger] nodes[i]).children@)
            &&& forall|j: int|
                0 <= j < nodes[i].children@.len() ==> i < (#[trigger] nodes[i].children@[j]).1
                    < nodes.len()
        }
}

/// Every child knows its father: the node a slot is a child of is the
/// slot its back-reference names.
pub open spec fn m_fathers_ok(nodes: Seq<TrieNode>) -> bool {
    forall|i: int, j: int|
        0 <= i < nodes.len() && 0 <= j < nodes[i].children@.len() ==> nodes[(
        #[trigger] nodes[i].children@[j]).1 as int].father == Some(i as usize)
}

/// The arena slot reached by walking `p` from slot `i`.
pub open spec fn m_node_at(nodes: Seq<TrieNode>, i: int, p: Seq<char>) -> Option<int>
    decreases p.len(),
{
    if !(0 <= i < nodes.len()) {
        None
    } else if p.len() == 0 {
        Some(i)
    } else {
        match assoc_get(nodes[i].children@, p[0]) {
            Some(c) => m_node_at(nodes, c as int, p.drop_first()),
            None => None,
        }
    }
}

/// The values at the end of `p` from slot `i`; empty when no node lies
/// there.
pub open spec fn m_values_at(nodes: Seq<TrieNode>, i: int, p: Seq<char>) -> Seq<Seq<char>> {
    match m_node_at(nodes, i, p) {
        Some(n) => nodes[n].values@.map_values(|s: String| s@),
        None => Seq::empty(),
    }
}

/// A successful walk lands inside the arena.
proof fn lemma_m_node_at_bound(nodes: Seq<TrieNode>, i: int, p: Seq<char>)
    requires
        m_node_at(nodes, i, p) is Some,
    ensures
        0 <= m_node_at(nodes, i, p)->Some_0 < nodes.len(),
    decreases p.len(),
{
    if p.len() > 0 {
        match assoc_get(nodes[i].children@, p[0]) {
            Some(c) => {
                lemma_m_node_at_bound(nodes, c as int, p.drop_first());
            },
            None => {},
        }
    }
}

/// The slot a well-formed node's lookup names lies strictly behind the
/// node and inside the arena.
proof fn lemma_m_child_bound(nodes: Seq<TrieNode>, i: int, key: char)
    requires
        m_nodes_wf(nodes),
        0 <= i < nodes.len(),
        assoc_get(nodes[i].children@, key) is Some,
    ensures
        i < assoc_get(nodes[i].children@, key)->Some_0 < nodes.len(),
{
    crate::persistent_trie::lemma_assoc_get_some(nodes[i].children@, key);
    let j = choose|j: int|
        0 <= j < nodes[i].children@.len() && (#[trigger] nodes[i].children@[j]).0 == key
            && nodes[i].children@[j].1 == assoc_get(nodes[i].children@, key)->Some_0;
    assert(i < nodes[i].children@[j].1 < nodes.len());
}

/// A walk that succeeded keeps succeeding, with the same slot, after a
/// fresh leaf is hung off some node under a key it did not have.
proof fn lemma_m_add_leaf_preserves(
    oldn: Seq<TrieNode>,
    newn: Seq<TrieNode>,
    this: int,
    key: char,
    i: int,
    q: Seq<char>,
)
    requires
        m_nodes_wf(oldn),
        0 <= this < oldn.len(),
        newn.len() == oldn.len() + 1,
        newn.len() <= usize::MAX,
        forall|x: int| 0 <= x < oldn.len() && x != this ==> newn[x] == oldn[x],
        newn[this].children@ == oldn[this].children@.push((key, oldn.len() as usize)),
        newn[this].values@ == oldn[this].values@,
        assoc_get(oldn[this].children@, key) is None,
        0 <= i < oldn.len(),
        m_node_at(oldn, i, q) is Some,
    ensures
        m_node_at(newn, i, q) == m_node_at(oldn, i, q),
        m_values_at(newn, i, q) == m_values_at(oldn, i, q),
    decreases q.len(),
{
    if q.len() == 0 {
    } else {
        match assoc_get(oldn[i].children@, q[0]) {
            Some(c) => {
                assert(assoc_get(newn[i].children@, q[0]) == Some(c)) by {
                    if i == this {
                        crate::persistent_trie::lemma_assoc_push(
                            oldn[this].children@,
                            key,
                            oldn.len() as usize,
                            q[0],
                        );
                    }
                }
                lemma_m_child_bound(oldn, i, q[0]);
                lemma_m_add_leaf_preserves(oldn, newn, this, key, c as int, q.drop_first());
            },
            None => {},
        }
    }
}

/// Walks depend only on children: equal children lists everywhere give
/// equal walks.
proof fn lemma_m_node_at_children_frame(
    oldn: Seq<TrieNode>,
    newn: Seq<TrieNode>,
    i: int,
    q: Seq<char>,
)
    requires
        newn.len() == oldn.len(),
        forall|x: int| 0 <= x < oldn.len() ==> (#[trigger] newn[x]).children@ == oldn[x].children@,
    ensures
        m_node_at(newn, i, q) == m_node_at(oldn, i, q),
    decreases q.len(),
{
    if 0 <= i < oldn.len() && q.len() > 0 {
        match assoc_get(oldn[i].children@, q[0]) {
            Some(c) => {
                lemma_m_node_at_children_frame(oldn, newn, c as int, q.drop_first());
            },
            None => {},
        }
    }
}

impl TrieNode {
    /// Appends a value at this node.
    pub fn push(&mut self, value: String)
        ensures
            final(self).values@ == old(self).values@.push(value),
            final(self).children == old(self).children,
            final(self).father == old(self).father,
    {
        self.values.push(value);
    }

    /// The slot of this node's child under `key`: the existing one, or a
    /// fresh empty leaf hung off it (knowing its father) when absent.
    pub fn child(nodes: &mut Vec<TrieNode>, this: usize, key: char) -> (c: usize)
        requires
            m_nodes_wf(old(nodes)@),
            this < old(nodes)@.len(),
        ensures
            m_nodes_wf(final(nodes)@),
            this < c < final(nodes)@.len(),
            forall|x: int|
                0 <= x < old(nodes)@.len() && x != this ==> final(nodes)@[x] == old(nodes)@[x],
            final(nodes)@[this as int].values@ == old(nodes)@[this as int].values@,
            final(nodes)@[this as int].father == old(nodes)@[this as int].father,
            assoc_get(final(nodes)@[this as int].children@, key) == Some(c),
            match assoc_get(old(nodes)@[this as int].children@, key) {
                Some(c0) => c == c0 && final(nodes)@ == old(nodes)@,
                None => {
                    &&& final(nodes)@.len() == old(nodes)@.len() + 1
                    &&& c == old(nodes)@.len()
                    &&& final(nodes)@[this as int].children@ == old(
                        nodes,
                    )@[this as int].children@.push((key, c))
                    &&& final(nodes)@[c as int].children@.len() == 0
                    &&& final(nodes)@[c as int].values@.len() == 0
                    &&& final(nodes)@[c as int].father == Some(this)
                    &&& forall|i: int, q: Seq<char>|
                        0 <= i < old(nodes)@.len() && #[trigger] m_node_at(
                            old(nodes)@,
                            i,
                            q,
                        ) is Some ==> m_node_at(final(nodes)@, i, q) == m_node_at(old(nodes)@, i, q)
                            && m_values_at(final(nodes)@, i, q) == m_values_at(old(nodes)@, i, q)
                },
            },
    {
        let mut m: usize = 0;
        let n_kids = nodes[this].children.len();
        while m < n_kids
            invariant
                m <= n_kids,
                this < nodes@.len(),
                nodes@ == old(nodes)@,
                m_nodes_wf(nodes@),
                n_kids == nodes@[this as int].children@.len(),
                forall|j: int|
                    0 <= j < m ==> (#[trigger] nodes@[this as int].children@[j]).0 != key,
            decreases n_kids - m,
        {
            let pair = nodes[this].children[m];
            if pair.0 == key {
                proof {
                    assert(keys_unique(nodes@[this as int].children@));
                    crate::persistent_trie::lemma_assoc_get_at(
                        nodes@[this as int].children@,
                        m as int,
                    );
                    lemma_m_child_bound(nodes@, this as int, key);
                }
                return pair.1;
            }
            m = m + 1;
        }
        proof {
            crate::persistent_trie::lemma_assoc_get_none_converse(
                old(nodes)@[this as int].children@,
                key,
            );
        }
        let c = nodes.len();
        nodes.push(TrieNode { father: Some(this), children: Vec::new(), values: Vec::new() });
        let ghost mid = nodes@;
        let noderef = &mut nodes[this];
        noderef.children.push((key, c));
        proof {
            assert(nodes@[this as int].children@ == old(nodes)@[this as int].children@.push(
                (key, c),
            ));
            assert forall|x: int| 0 <= x < nodes@.len() implies {
                &&& keys_unique((#[trigger] nodes@[x]).children@)
                &&& forall|j: int|
                    0 <= j < nodes@[x].children@.len() ==> x < (#[trigger] nodes@[x].children@[j]).1
                        < nodes@.len()
            } by {
                if x == this {
                    let nk = nodes@[this as int].children@;
                    let ok = old(nodes)@[this as int].children@;
                    assert(keys_unique(nk)) by {
                        assert forall|a: int, b: int| 0 <= a < b < nk.len() implies (
                        #[trigger] nk[a]).0 != (#[trigger] nk[b]).0 by {
                            if b < nk.len() - 1 {
                                assert(ok[a].0 != ok[b].0);
                            } else {
                                assert(nk[a] == ok[a]);
                            }
                        }
                    }
                    assert forall|j: int| 0 <= j < nodes@[x].children@.len() implies x < (
                    #[trigger] nodes@[x].children@[j]).1 < nodes@.len() by {
                        if j < nodes@[x].children@.len() - 1 {
                            assert(ok[j].1 > this && ok[j].1 < old(nodes)@.len());
                        }
                    }
                } else if x < old(nodes)@.len() {
                    assert(nodes@[x] == old(nodes)@[x]);
                    assert(keys_unique(old(nodes)@[x].children@));
                } else {
                    assert(nodes@[x].children@.len() == 0);
                }
            }
            crate::persistent_trie::lemma_assoc_push(
                old(nodes)@[this as int].children@,
                key,
                c,
                key,
            );
            vstd::std_specs::vec::axiom_spec_len(nodes);
            assert forall|i: int, q: Seq<char>|
                0 <= i < old(nodes)@.len() && #[trigger] m_node_at(old(nodes)@, i, q) is Some
                    implies m_node_at(nodes@, i, q) == m_node_at(old(nodes)@, i, q)
                && m_values_at(nodes@, i, q) == m_values_at(old(nodes)@, i, q) by {
                lemma_m_add_leaf_preserves(old(nodes)@, nodes@, this as int, key, i, q);
            }
        }
        c
    }
}

/// The in-place trie itself: the arena, rooted at slot zero.
#[derive(Debug)]
pub struct Trie {
    pub nodes: Vec<TrieNode>,
}

impl Trie {
    /// Well-formed: the root slot exists with no father, every slot is
    /// sound, and every child's back-reference names its father.
    pub open spec fn wf(&self) -> bool {
        &&& self.nodes@.len() >= 1
        &&& m_nodes_wf(self.nodes@)
        &&& m_fathers_ok(self.nodes@)
        &&& self.nodes@[0].father is None
    }

    /// The values at the end of `p`, walking from the root.
    pub open spec fn spec_values_at(&self, p: Seq<char>) -> Seq<Seq<char>> {
        m_values_at(self.nodes@, 0, p)
    }

    /// A trie with one empty root node.
    pub fn new() -> (r: Trie)
        ensures
            r.wf(),
            r.nodes@.len() == 1,
            r.nodes@[0].father is None,
            forall|q: Seq<char>| #[trigger] r.spec_values_at(q) == Seq::<Seq<char>>::empty(),
    {
        let mut nodes: Vec<TrieNode> = Vec::new();
        nodes.push(TrieNode { father: None, children: Vec::new(), values: Vec::new() });
        let r = Trie { nodes };
        proof {
            assert forall|q: Seq<char>| #[trigger] r.spec_values_at(q) == Seq::<
                Seq<char>,
            >::empty() by {
                if q.len() == 0 {
                    assert(r.nodes@[0].values@.map_values(|s: String| s@) =~= Seq::<
                        Seq<char>,
                    >::empty());
                } else {
                    assert(assoc_get(r.nodes@[0].children@, q[0]) == None::<usize>);
                }
            }
        }
        r
    }

    /// The root's slot.
    pub fn root(&self) -> (r: usize)
        ensures
            r == 0,
    {
        0
    }

    /// Walks `pattern` from the root, growing the tree where it runs
    /// out, and appends `value` at the reached node.  Walks that
    /// succeeded before still reach the same slots; no other slot's
    /// values change.
    pub fn insert(&mut self, pattern: &Vec<char>, value: String)
        requires
            old(self).wf(),
        ensures
            final(self).wf(),
            m_node_at(final(self).nodes@, 0, pattern@) is Some,
            final(self).spec_values_at(pattern@) == old(self).spec_values_at(pattern@).push(
                value@,
            ),
            forall|i: int, q: Seq<char>|
                0 <= i < old(self).nodes@.len() && #[trigger] m_node_at(
                    old(self).nodes@,
                    i,
                    q,
                ) is Some ==> m_node_at(final(self).nodes@, i, q) == m_node_at(
                    old(self).nodes@,
                    i,
                    q,
                ),
            forall|x: int|
                0 <= x < old(self).nodes@.len() && Some(x) != m_node_at(
                    final(self).nodes@,
                    0,
                    pattern@,
                ) ==> (#[trigger] final(self).nodes@[x]).values@ == old(self).nodes@[x].values@,
    {
        let ghost orig = self.nodes@;
        let mut cur: usize = 0;
        let mut k: usize = 0;
        proof {
            vstd::std_specs::vec::axiom_spec_len(&self.nodes);
            assert(pattern@.take(0) =~= Seq::<char>::empty());
        }
        while k < pattern.len()
            invariant
                k <= pattern@.len(),
                m_nodes_wf(self.nodes@),
                m_fathers_ok(self.nodes@),
                self.nodes@[0].father is None,
                m_nodes_wf(orig),
                self.nodes@.len() <= usize::MAX,
                orig.len() <= self.nodes@.len(),
                orig.len() >= 1,
                (cur as int) < self.nodes@.len(),
                m_node_at(self.nodes@, 0, pattern@.take(k as int)) == Some(cur as int),
                m_node_at(orig, 0, pattern@.take(k as int)) is Some ==> m_node_at(
                    orig,
                    0,
                    pattern@.take(k as int),
                ) == Some(cur as int),
                m_node_at(orig, 0, pattern@.take(k as int)) is None ==> cur >= orig.len(),
                cur as int >= orig.len() ==> self.nodes@[cur as int].children@.len() == 0,
                forall|x: int| cur as int <= x < orig.len() ==> self.nodes@[x] == orig[x],
                forall|x: int|
                    orig.len() <= x < self.nodes@.len() ==> (#[trigger] self.nodes@[x]).values@.len()
                        == 0,
                forall|i: int, q: Seq<char>|
                    0 <= i < orig.len() && #[trigger] m_node_at(orig, i, q) is Some ==> m_node_at(
                        self.nodes@,
                        i,
                        q,
                    ) == m_node_at(orig, i, q) && m_values_at(self.nodes@, i, q) == m_values_at(
                        orig,
                        i,
                        q,
                    ),
                forall|x: int|
                    0 <= x < orig.len() ==> (#[trigger] self.nodes@[x]).values@ == orig[x].values@,
            decreases pattern@.len() - k,
        {
            let key = pattern[k];
            let ghost pre = self.nodes@;
            let c = TrieNode::child(&mut self.nodes, cur, key);
            proof {
                vstd::std_specs::vec::axiom_spec_len(&self.nodes);
                let tk = pattern@.take(k as int);
                let tk1 = pattern@.take(k + 1);
                assert(tk1.drop_last() =~= tk);
                assert(tk.push(key) =~= tk1);
                match assoc_get(pre[cur as int].children@, key) {
                    Some(c0) => {
                        // nothing changed; one more step of the walk lands on the child
                        assert(self.nodes@ == pre);
                        lemma_m_snoc(self.nodes@, 0, tk, key);
                        assert(m_node_at(self.nodes@, 0, tk1) == Some(c as int));
                        // a node with children predates this insert
                        assert((cur as int) < orig.len());
                        assert(pre[cur as int] == orig[cur as int]);
                        lemma_m_child_bound(orig, cur as int, key);
                        assert((c as int) < orig.len());
                        if m_node_at(orig, 0, tk) is Some {
                            lemma_m_snoc(orig, 0, tk, key);
                            assert(m_node_at(orig, 0, tk1) == Some(c as int));
                        }
                    },
                    None => {
                        // every back-reference stays right: the fresh leaf's
                        // names `cur`, every other slot kept its children
                        // and its father
                        assert forall|i: int, j: int|
                            0 <= i < self.nodes@.len() && 0 <= j
                                < self.nodes@[i].children@.len() implies self.nodes@[(
                        #[trigger] self.nodes@[i].children@[j]).1 as int].father == Some(
                            i as usize,
                        ) by {
                            if i == cur as int {
                                if j < self.nodes@[i].children@.len() - 1 {
                                    assert(self.nodes@[i].children@[j] == pre[i].children@[j]);
                                }
                            } else {
                                assert(self.nodes@[i].children@ == pre[i].children@);
                            }
                        }
                        // the walk up to here still lands on `cur`
                        lemma_m_add_leaf_preserves(pre, self.nodes@, cur as int, key, 0, tk);
                        assert(m_node_at(self.nodes@, 0, tk) == Some(cur as int));
                        lemma_m_snoc(self.nodes@, 0, tk, key);
                        assert(m_node_at(self.nodes@, 0, tk1) == Some(c as int));
                        // the old walk cannot take this step
                        if m_node_at(orig, 0, tk1) is Some {
                            lemma_m_walk_prefix(orig, 0, tk1);
                            assert(m_node_at(orig, 0, tk) == Some(cur as int));
                            assert((cur as int) < orig.len()) by {
                                lemma_m_node_at_bound(orig, 0, tk);
                            }
                            assert(pre[cur as int] == orig[cur as int]);
                            lemma_m_snoc(orig, 0, tk, key);
                        }
                        // earlier walks keep working across the fresh leaf
                        assert forall|i: int, q: Seq<char>|
                            0 <= i < orig.len() && #[trigger] m_node_at(orig, i, q) is Some implies
                            m_node_at(self.nodes@, i, q) == m_node_at(orig, i, q) && m_values_at(
                            self.nodes@,
                            i,
                            q,
                        ) == m_values_at(orig, i, q) by {
                            assert(m_node_at(pre, i, q) == m_node_at(orig, i, q));
                            assert(m_values_at(pre, i, q) == m_values_at(orig, i, q));
                            lemma_m_add_leaf_preserves(pre, self.nodes@, cur as int, key, i, q);
                        }
                    },
                }
            }
            cur = c;
            k = k + 1;
        }
        proof {
            assert(pattern@.take(pattern@.len() as int) =~= pattern@);
        }
        let ghost pre = self.nodes@;
        let noderef = &mut self.nodes[cur];
        noderef.values.push(value);
        proof {
            assert forall|i: int, j: int|
                0 <= i < self.nodes@.len() && 0 <= j < self.nodes@[i].children@.len() implies self
                .nodes@[(#[trigger] self.nodes@[i].children@[j]).1 as int].father == Some(
                i as usize,
            ) by {
                assert(self.nodes@[i].children@ == pre[i].children@);
                assert(self.nodes@[pre[i].children@[j].1 as int].father == pre[pre[
                    i].children@[j].1 as int].father);
            }
            lemma_m_node_at_children_frame(pre, self.nodes@, 0, pattern@);
            assert forall|i: int, q: Seq<char>|
                0 <= i < orig.len() && #[trigger] m_node_at(orig, i, q) is Some implies m_node_at(
                self.nodes@,
                i,
                q,
            ) == m_node_at(orig, i, q) by {
                lemma_m_node_at_children_frame(pre, self.nodes@, i, q);
            }
            // the reached node's values gain exactly the new value
            assert(self.nodes@[cur as int].values@ == pre[cur as int].values@.push(value));
            if m_node_at(orig, 0, pattern@) is Some {
                assert(m_values_at(pre, 0, pattern@) == m_values_at(orig, 0, pattern@));
                assert(self.nodes@[cur as int].values@.map_values(|s: String| s@) =~= m_values_at(
                    orig,
                    0,
                    pattern@,
                ).push(value@));
            } else {
                assert(pre[cur as int].values@.len() == 0);
                assert(self.nodes@[cur as int].values@.map_values(|s: String| s@) =~= m_values_at(
                    orig,
                    0,
                    pattern@,
                ).push(value@));
            }
        }
    }
}

/// A one-key extension of a walk goes through the reached node's child.
proof fn lemma_m_snoc(nodes: Seq<TrieNode>, i: int, p: Seq<char>, k: char)
    requires
        m_nodes_wf(nodes),
    ensures
        m_node_at(nodes, i, p.push(k)) == (match m_node_at(nodes, i, p) {
            Some(n) => match assoc_get(nodes[n].children@, k) {
                Some(c) => Some(c as int),
                None => None::<int>,
            },
            None => None::<int>,
        }),
    decreases p.len(),
{
    if !(0 <= i < nodes.len()) {
    } else if p.len() == 0 {
        assert(p.push(k)[0] == k);
        assert(p.push(k).drop_first() =~= Seq::<char>::empty());
        match assoc_get(nodes[i].children@, k) {
            Some(c) => {
                lemma_m_child_bound(nodes, i, k);
                assert(m_node_at(nodes, c as int, p.push(k).drop_first()) == Some(c as int));
            },
            None => {},
        }
    } else {
        assert(p.push(k)[0] == p[0]);
        assert(p.push(k).drop_first() =~= p.drop_first().push(k));
        match assoc_get(nodes[i].children@, p[0]) {
            Some(c) => {
                lemma_m_child_bound(nodes, i, p[0]);
                lemma_m_snoc(nodes, c as int, p.drop_first(), k);
                assert(m_node_at(nodes, i, p.push(k)) == m_node_at(
                    nodes,
                    c as int,
                    p.drop_first().push(k),
                ));
                assert(m_node_at(nodes, i, p) == m_node_at(nodes, c as int, p.drop_first()));
            },
            None => {},
        }
    }
}

/// A successful walk's every prefix succeeds too.
proof fn lemma_m_walk_prefix(nodes: Seq<TrieNode>, i: int, p: Seq<char>)
    requires
        p.len() > 0,
        m_node_at(nodes, i, p) is Some,
    ensures
        m_node_at(nodes, i, p.drop_last()) is Some,
    decreases p.len(),
{
    if p.len() == 1 {
        assert(p.drop_last() =~= Seq::<char>::empty());
    } else {
        let c = assoc_get(nodes[i].children@, p[0])->Some_0;
        lemma_m_walk_prefix(nodes, c as int, p.drop_first());
        assert(p.drop_last()[0] == p[0]);
        assert(p.drop_last().drop_first() =~= p.drop_first().drop_last());
    }
}

/// Like `lemma_m_add_leaf_preserves`, but for a walk that may not have
/// succeeded: a failed walk from an old slot stays failed unless it went
/// through the new key, which never happens for walks that start and
/// stay among nodes whose keys it misses — and a fresh-slot start fails
/// both ways.  Stated for starts below the extension point only.
proof fn lemma_m_add_leaf_preserves_general(
    oldn: Seq<TrieNode>,
    newn: Seq<TrieNode>,
    this: int,
    key: char,
    i: int,
    q: Seq<char>,
)
    requires
        m_nodes_wf(oldn),
        0 <= this < oldn.len(),
        newn.len() == oldn.len() + 1,
        newn.len() <= usize::MAX,
        forall|x: int| 0 <= x < oldn.len() && x != this ==> newn[x] == oldn[x],
        newn[this].children@ == oldn[this].children@.push((key, oldn.len() as usize)),
        newn[this].values@ == oldn[this].values@,
        assoc_get(oldn[this].children@, key) is None,
        newn[oldn.len() as int].children@.len() == 0,
        0 <= i < oldn.len(),
        m_node_at(oldn, i, q) is None,
    ensures
        m_node_at(newn, i, q) is None || m_node_at(newn, i, q)->Some_0 >= oldn.len(),
    decreases q.len(),
{
    if q.len() > 0 {
        match assoc_get(oldn[i].children@, q[0]) {
            Some(c) => {
                assert(assoc_get(newn[i].children@, q[0]) == Some(c)) by {
                    if i == this {
                        crate::persistent_trie::lemma_assoc_push(
                            oldn[this].children@,
                            key,
                            oldn.len() as usize,
                            q[0],
                        );
                    }
                }
                lemma_m_child_bound(oldn, i, q[0]);
                lemma_m_add_leaf_preserves_general(
                    oldn,
                    newn,
                    this,
                    key,
                    c as int,
                    q.drop_first(),
                );
            },
            None => {
                if i == this {
                    crate::persistent_trie::lemma_assoc_push(
                        oldn[this].children@,
                        key,
                        oldn.len() as usize,
                        q[0],
                    );
                    if q[0] == key {
                        // the walk continues in the fresh empty leaf
                        let f = oldn.len() as int;
                        assert(assoc_get(newn[i].children@, q[0]) == Some(oldn.len() as usize));
                        if q.drop_first().len() == 0 {
                            assert(m_node_at(newn, f, q.drop_first()) == Some(f));
                        } else {
                            assert(assoc_get(newn[f].children@, q.drop_first()[0])
                                == None::<usize>);
                            assert(m_node_at(newn, f, q.drop_first()) == None::<int>);
                        }
                        assert(m_node_at(newn, i, q) == m_node_at(newn, f, q.drop_first()));
                    } else {
                        assert(assoc_get(newn[i].children@, q[0]) == None::<usize>);
                    }
                } else {
                    assert(assoc_get(newn[i].children@, q[0]) == None::<usize>);
                }
            },
        }
    }
}

} // verus!

verus! {

/// The slots of the subtree under `i`, the node before its descendants,
/// children in order.
pub open spec fn m_flatten(nodes: Seq<TrieNode>, i: int) -> Seq<usize>
    decreases nodes.len() - i, nodes[i].children@.len() + 1,
    when 0 <= i < nodes.len() && m_nodes_wf(nodes)
{
    seq![i as usize] + m_flatten_kids(nodes, nodes[i].children@, i)
}

/// The concatenated subtrees of a children list, all lying strictly
/// behind `above`.
pub open spec fn m_flatten_kids(nodes: Seq<TrieNode>, kids: Seq<(char, usize)>, above: int) -> Seq<
    usize,
>
    decreases nodes.len() - above, kids.len(), 0int,
    when m_nodes_wf(nodes) && 0 <= above && (forall|j: int|
        0 <= j < kids.len() ==> above < (#[trigger] kids[j]).1 < nodes.len())
{
    if kids.len() == 0 {
        Seq::empty()
    } else {
        m_flatten(nodes, kids[0].1 as int) + m_flatten_kids(nodes, kids.drop_first(), above)
    }
}

/// Flattening one more child appends that child's subtree.
proof fn lemma_m_flatten_kids_snoc(
    nodes: Seq<TrieNode>,
    kids: Seq<(char, usize)>,
    x: (char, usize),
    above: int,
)
    requires
        m_nodes_wf(nodes),
        0 <= above,
        forall|j: int| 0 <= j < kids.len() ==> above < (#[trigger] kids[j]).1 < nodes.len(),
        above < x.1 < nodes.len(),
    ensures
        m_flatten_kids(nodes, kids.push(x), above) == m_flatten_kids(nodes, kids, above)
            + m_flatten(nodes, x.1 as int),
    decreases kids.len(),
{
    assert forall|j: int| 0 <= j < kids.push(x).len() implies above < (
    #[trigger] kids.push(x)[j]).1 < nodes.len() by {}
    if kids.len() == 0 {
        assert(kids.push(x)[0] == x);
        assert(kids.push(x).drop_first() =~= kids);
        assert(m_flatten_kids(nodes, kids, above) == Seq::<usize>::empty());
        assert(m_flatten_kids(nodes, kids.push(x), above) =~= m_flatten_kids(nodes, kids, above)
            + m_flatten(nodes, x.1 as int));
    } else {
        assert(kids.push(x)[0] == kids[0]);
        assert(kids.push(x).drop_first() =~= kids.drop_first().push(x));
        lemma_m_flatten_kids_snoc(nodes, kids.drop_first(), x, above);
        assert(m_flatten_kids(nodes, kids.push(x), above) =~= m_flatten_kids(nodes, kids, above)
            + m_flatten(nodes, x.1 as int));
    }
}

/// The child slots of one node, in children order.
pub open spec fn kid_slots(n: TrieNode) -> Seq<usize> {
    n.children@.map_values(|p: (char, usize)| p.1)
}

/// Every slot of a frontier lies at or past `level` and inside the
/// arena.
pub open spec fn frontier_ok(nodes: Seq<TrieNode>, frontier: Seq<usize>, level: int) -> bool {
    forall|j: int| 0 <= j < frontier.len() ==> level <= (#[trigger] frontier[j]) < nodes.len()
}

/// The child slots of a whole frontier, left to right.
pub open spec fn level_kids(nodes: Seq<TrieNode>, frontier: Seq<usize>) -> Seq<usize>
    decreases frontier.len(),
{
    if frontier.len() == 0 {
        Seq::empty()
    } else if 0 <= frontier[0] < nodes.len() {
        kid_slots(nodes[frontier[0] as int]) + level_kids(nodes, frontier.drop_first())
    } else {
        level_kids(nodes, frontier.drop_first())
    }
}

/// A sound frontier's children form a sound frontier one level deeper.
proof fn lemma_level_kids_ok(nodes: Seq<TrieNode>, frontier: Seq<usize>, level: int)
    requires
        m_nodes_wf(nodes),
        frontier_ok(nodes, frontier, level),
    ensures
        frontier_ok(nodes, level_kids(nodes, frontier), level + 1),
    decreases frontier.len(),
{
    if frontier.len() > 0 {
        assert(frontier_ok(nodes, frontier.drop_first(), level)) by {
            assert forall|j: int| 0 <= j < frontier.drop_first().len() implies level <= (
            #[trigger] frontier.drop_first()[j]) < nodes.len() by {
                assert(frontier.drop_first()[j] == frontier[j + 1]);
            }
        }
        lemma_level_kids_ok(nodes, frontier.drop_first(), level);
        let f0 = frontier[0] as int;
        assert forall|j: int| 0 <= j < level_kids(nodes, frontier).len() implies level + 1 <= (
        #[trigger] level_kids(nodes, frontier)[j]) < nodes.len() by {
            let ks = kid_slots(nodes[f0]);
            if j < ks.len() {
                assert(ks[j] == nodes[f0].children@[j].1);
                assert(f0 < nodes[f0].children@[j].1 < nodes.len());
            } else {
                assert(level_kids(nodes, frontier)[j] == level_kids(
                    nodes,
                    frontier.drop_first(),
                )[j - ks.len()]);
            }
        }
    }
}

/// Gathering one more frontier node appends its child slots.
proof fn lemma_level_kids_snoc(nodes: Seq<TrieNode>, frontier: Seq<usize>, x: usize)
    requires
        x < nodes.len(),
        forall|j: int| 0 <= j < frontier.len() ==> 0 <= (#[trigger] frontier[j]) < nodes.len(),
    ensures
        level_kids(nodes, frontier.push(x)) == level_kids(nodes, frontier) + kid_slots(nodes[x as int]),
    decreases frontier.len(),
{
    if frontier.len() == 0 {
        assert(frontier.push(x)[0] == x);
        assert(frontier.push(x).drop_first() =~= frontier);
        assert(level_kids(nodes, frontier) == Seq::<usize>::empty());
        assert(level_kids(nodes, frontier.push(x)) =~= level_kids(nodes, frontier) + kid_slots(
            nodes[x as int],
        ));
    } else {
        assert(frontier.push(x)[0] == frontier[0]);
        assert(frontier.push(x).drop_first() =~= frontier.drop_first().push(x));
        assert forall|j: int| 0 <= j < frontier.drop_first().len() implies 0 <= (
        #[trigger] frontier.drop_first()[j]) < nodes.len() by {
            assert(frontier.drop_first()[j] == frontier[j + 1]);
        }
        lemma_level_kids_snoc(nodes, frontier.drop_first(), x);
        assert(level_kids(nodes, frontier.push(x)) =~= level_kids(nodes, frontier) + kid_slots(
            nodes[x as int],
        ));
    }
}

/// The breadth-first order from a frontier: the frontier's slots, then
/// all their children's subtrees level by level.  Levels can only go as
/// deep as the arena, since every step moves to a strictly later slot.
pub open spec fn m_bfs_from(nodes: Seq<TrieNode>, frontier: Seq<usize>, level: int) -> Seq<usize>
    decreases nodes.len() - level,
    when 0 <= level <= nodes.len() && m_nodes_wf(nodes) && frontier_ok(nodes, frontier, level)
    via m_bfs_from_decreases
{
    if frontier.len() == 0 {
        Seq::empty()
    } else {
        frontier + m_bfs_from(nodes, level_kids(nodes, frontier), level + 1)
    }
}

#[via_fn]
proof fn m_bfs_from_decreases(nodes: Seq<TrieNode>, frontier: Seq<usize>, level: int) {
    if frontier.len() > 0 {
        assert(level <= frontier[0] < nodes.len());
        lemma_level_kids_ok(nodes, frontier, level);
    }
}

impl Trie {
    /// All the slots reachable from `root`, in breadth-first level
    /// order: the root first, then each level's nodes, children taken
    /// in order under their parents.
    pub fn bfs(&self, root: usize) -> (r: Vec<usize>)
        requires
            self.wf(),
            root < self.nodes@.len(),
        ensures
            r@ == m_bfs_from(self.nodes@, seq![root], 0),
    {
        let mut r: Vec<usize> = Vec::new();
        let mut frontier: Vec<usize> = Vec::new();
        frontier.push(root);
        let ghost mut level: int = 0;
        proof {
            vstd::std_specs::vec::axiom_spec_len(&self.nodes);
            assert(frontier@ =~= seq![root]);
            assert(r@ + m_bfs_from(self.nodes@, frontier@, level) =~= m_bfs_from(
                self.nodes@,
                seq![root],
                0,
            ));
        }
        while frontier.len() > 0
            invariant
                self.wf(),
                0 <= level <= self.nodes@.len(),
                frontier_ok(self.nodes@, frontier@, level),
                r@ + m_bfs_from(self.nodes@, frontier@, level) == m_bfs_from(
                    self.nodes@,
                    seq![root],
                    0,
                ),
            decreases self.nodes@.len() - level,
        {
            let ghost pre_frontier = frontier@;
            let mut next: Vec<usize> = Vec::new();
            let mut m: usize = 0;
            proof {
                assert(pre_frontier.take(0) =~= Seq::<usize>::empty());
                assert(next@ =~= level_kids(self.nodes@, pre_frontier.take(0)));
            }
            while m < frontier.len()
                invariant
                    self.wf(),
                    frontier@ == pre_frontier,
                    frontier_ok(self.nodes@, frontier@, level),
                    0 <= level,
                    m <= frontier@.len(),
                    next@ == level_kids(self.nodes@, pre_frontier.take(m as int)),
                decreases frontier@.len() - m,
            {
                let slot = frontier[m];
                let node = &self.nodes[slot];
                let mut w: usize = 0;
                proof {
                    assert(kid_slots(*node).take(0) =~= Seq::<usize>::empty());
                    assert(next@ + kid_slots(*node).take(0) =~= next@);
                }
                let ghost pre_next = next@;
                while w < node.children.len()
                    invariant
                        w <= node.children@.len(),
                        *node == self.nodes@[pre_frontier[m as int] as int],
                        next@ == pre_next + kid_slots(*node).take(w as int),
                    decreases node.children@.len() - w,
                {
                    next.push(node.children[w].1);
                    proof {
                        assert(kid_slots(*node).take(w + 1) =~= kid_slots(*node).take(
                            w as int,
                        ).push(node.children@[w as int].1));
                        assert(next@ =~= pre_next + kid_slots(*node).take(w + 1));
                    }
                    w = w + 1;
                }
                proof {
                    assert(kid_slots(*node).take(kid_slots(*node).len() as int) =~= kid_slots(
                        *node,
                    ));
                    assert(pre_frontier.take(m + 1) =~= pre_frontier.take(m as int).push(
                        pre_frontier[m as int],
                    ));
                    assert forall|j: int| 0 <= j < pre_frontier.take(m as int).len() implies 0 <= (
                    #[trigger] pre_frontier.take(m as int)[j]) < self.nodes@.len() by {
                        assert(pre_frontier.take(m as int)[j] == pre_frontier[j]);
                    }
                    lemma_level_kids_snoc(
                        self.nodes@,
                        pre_frontier.take(m as int),
                        pre_frontier[m as int],
                    );
                    assert(next@ =~= level_kids(self.nodes@, pre_frontier.take(m + 1)));
                }
                m = m + 1;
            }
            r.append(&mut frontier);
            frontier = next;
            proof {
                assert(pre_frontier.take(pre_frontier.len() as int) =~= pre_frontier);
                lemma_level_kids_ok(self.nodes@, pre_frontier, level);
                assert(level < self.nodes@.len());
                assert(m_bfs_from(self.nodes@, pre_frontier, level) == pre_frontier + m_bfs_from(
                    self.nodes@,
                    frontier@,
                    level + 1,
                ));
                level = level + 1;
                assert(r@ + m_bfs_from(self.nodes@, frontier@, level) =~= m_bfs_from(
                    self.nodes@,
                    seq![root],
                    0,
                ));
            }
        }
        proof {
            assert(m_bfs_from(self.nodes@, frontier@, level) == Seq::<usize>::empty());
            assert(r@ + m_bfs_from(self.nodes@, frontier@, level) =~= r@);
        }
        r
    }
}

/// The views of a list of value strings.
pub open spec fn str_views(vs: Seq<String>) -> Seq<Seq<char>> {
    vs.map_values(|s: String| s@)
}

/// Texts joined with a comma and a space.
pub open spec fn joined_views(parts: Seq<Seq<char>>) -> Seq<char>
    decreases parts.len(),
{
    if parts.len() == 0 {
        Seq::empty()
    } else if parts.len() == 1 {
        parts[0]
    } else {
        joined_views(parts.drop_last()) + ", "@ + parts.last()
    }
}

/// The drawings of a row of signs, concatenated.
pub open spec fn signs_text(signs: Seq<TreeSign>) -> Seq<char>
    decreases signs.len(),
{
    if signs.len() == 0 {
        Seq::empty()
    } else {
        signs_text(signs.drop_last()) + ascii_of(signs.last())
    }
}

/// What one rendered line says past its signs: the root marker for an
/// empty code prefix, else the accumulated codes and the node's values
/// joined with a comma, inside a values bracket.
pub open spec fn line_text(codes: Seq<char>, values: Seq<Seq<char>>) -> Seq<char> {
    if codes.len() == 0 {
        "- root -"@
    } else {
        " "@ + codes + ", values: ["@ + joined_views(values) + "]"@
    }
}

impl TrieNode {
    /// Renders the subtree under `i`: one line per node — the row's
    /// signs, then what `line_text` says of the codes walked to the node
    /// and its values — appended to `res` in flatten order.  The node's
    /// own line is pinned exactly; each deeper line is pinned the same
    /// way by the recursive call that appends it.
    pub fn print_tree(
        nodes: &Vec<TrieNode>,
        i: usize,
        codes: String,
        depth: TreeDepth,
        last: bool,
        tree: &mut TreeStream,
        res: &mut Vec<String>,
    )
        requires
            m_nodes_wf(nodes@),
            i < nodes@.len(),
            old(tree).wf(),
            depth.0 + (nodes@.len() - i) <= usize::MAX,
        ensures
            final(tree).wf(),
            final(res)@.len() == old(res)@.len() + m_flatten(nodes@, i as int).len(),
            forall|j: int| 0 <= j < old(res)@.len() ==> final(res)@[j] == old(res)@[j],
            final(res)@[old(res)@.len() as int]@ == signs_text(
                next_row(
                    old(tree).nodes@,
                    old(tree).last_params,
                    (TreeParam { last: last, depth: depth }),
                ).skip(1),
            ) + line_text(codes@, str_views(nodes@[i as int].values@)),
        decreases nodes@.len() - i,
    {
        let param = TreeParam::new(depth, last);
        let signs = tree.new_row(param);
        let ghost row = signs@;
        proof {
            assert(param == (TreeParam { last: last, depth: depth }));
            assert(row == next_row(
                old(tree).nodes@,
                old(tree).last_params,
                (TreeParam { last: last, depth: depth }),
            ).skip(1));
        }
        let mut line = String::new();
        let mut w: usize = 0;
        proof {
            assert(row.take(0) =~= Seq::<TreeSign>::empty());
            assert(line@ =~= signs_text(row.take(0)));
        }
        while w < signs.len()
            invariant
                w <= signs@.len(),
                signs@ == row,
                line@ == signs_text(row.take(w as int)),
            decreases signs@.len() - w,
        {
            line.append(signs[w].ascii());
            proof {
                assert(row.take(w + 1).drop_last() =~= row.take(w as int));
                assert(row.take(w + 1).last() == row[w as int]);
            }
            w = w + 1;
        }
        proof {
            assert(row.take(row.len() as int) =~= row);
        }
        if codes.unicode_len() == 0 {
            line.append("- root -");
            proof {
                assert(line@ == signs_text(row) + line_text(
                    codes@,
                    str_views(nodes@[i as int].values@),
                ));
            }
        } else {
            line.append(" ");
            line.append(codes.as_str());
            line.append(", values: [");
            let ghost pre_vals = line@;
            let node = &nodes[i];
            let ghost vw = str_views(nodes@[i as int].values@);
            let mut v: usize = 0;
            let mut first = true;
            proof {
                assert(joined_views(vw.take(0)) =~= Seq::<char>::empty());
                assert(line@ =~= pre_vals + joined_views(vw.take(0)));
            }
            while v < node.values.len()
                invariant
                    v <= node.values@.len(),
                    *node == nodes@[i as int],
                    vw == str_views(nodes@[i as int].values@),
                    first == (v == 0),
                    line@ == pre_vals + joined_views(vw.take(v as int)),
                decreases node.values@.len() - v,
            {
                if first {
                    first = false;
                } else {
                    line.append(", ");
                }
                line.append(node.values[v].as_str());
                proof {
                    assert(vw[v as int] == nodes@[i as int].values@[v as int]@);
                    if v == 0 {
                        assert(vw.take(1)[0] == vw[0]);
                        assert(joined_views(vw.take(1)) == vw[0]);
                        assert(line@ =~= pre_vals + joined_views(vw.take(1)));
                    } else {
                        assert(vw.take(v + 1).drop_last() =~= vw.take(v as int));
                        assert(vw.take(v + 1).last() == vw[v as int]);
                        assert(joined_views(vw.take(v + 1)) == joined_views(vw.take(v as int))
                            + ", "@ + vw[v as int]);
                        assert(line@ =~= pre_vals + joined_views(vw.take(v + 1)));
                    }
                }
                v = v + 1;
            }
            line.append("]");
            proof {
                assert(vw.take(vw.len() as int) =~= vw);
                assert(line@ =~= signs_text(row) + line_text(
                    codes@,
                    str_views(nodes@[i as int].values@),
                ));
            }
        }
        res.push(line);
        let ghost base = res@;
        proof {
            assert(base.len() == old(res)@.len() + 1);
            assert(forall|j: int| 0 <= j < old(res)@.len() ==> #[trigger] base[j] == old(res)@[j]);
        }
        let n_kids = nodes[i].children.len();
        let mut m: usize = 0;
        proof {
            assert(nodes@[i as int].children@.take(0) =~= Seq::<(char, usize)>::empty());
            assert(res@.len() == base.len() + m_flatten_kids(
                nodes@,
                nodes@[i as int].children@.take(0),
                i as int,
            ).len());
        }
        while m < n_kids
            invariant
                m_nodes_wf(nodes@),
                i < nodes@.len(),
                n_kids == nodes@[i as int].children@.len(),
                m <= n_kids,
                depth.0 + (nodes@.len() - i) <= usize::MAX,
                tree.wf(),
                res@.len() == base.len() + m_flatten_kids(
                    nodes@,
                    nodes@[i as int].children@.take(m as int),
                    i as int,
                ).len(),
                forall|j: int| 0 <= j < base.len() ==> res@[j] == base[j],
            decreases n_kids - m,
        {
            let pair = nodes[i].children[m];
            proof {
                assert(i < nodes@[i as int].children@[m as int].1 < nodes@.len());
            }
            let mut key = Vec::new();
            key.push(pair.0);
            let child_codes = codes.clone().concat(string_of_chars(&key).as_str());
            Self::print_tree(
                nodes,
                pair.1,
                child_codes,
                depth.deeper(),
                m + 1 == n_kids,
                tree,
                res,
            );
            proof {
                let kids = nodes@[i as int].children@;
                assert(kids.take(m + 1) =~= kids.take(m as int).push(kids[m as int]));
                assert forall|j: int| 0 <= j < kids.take(m as int).len() implies (i as int) < (
                #[trigger] kids.take(m as int)[j]).1 < nodes@.len() by {
                    assert(kids.take(m as int)[j] == kids[j]);
                }
                lemma_m_flatten_kids_snoc(nodes@, kids.take(m as int), kids[m as int], i as int);
            }
            m = m + 1;
        }
        proof {
            let kids = nodes@[i as int].children@;
            assert(kids.take(kids.len() as int) =~= kids);
            assert forall|j: int| 0 <= j < old(res)@.len() implies res@[j] == old(res)@[j] by {
                assert(res@[j] == base[j]);
                assert(base[j] == old(res)@[j]);
            }
            assert(res@[old(res)@.len() as int] == base[old(res)@.len() as int]);
            assert(base[old(res)@.len() as int]@ == signs_text(row) + line_text(
                codes@,
                str_views(nodes@[i as int].values@),
            ));
        }
    }
}

impl Trie {
    /// Renders the whole tree: one line per node, the root's first,
    /// reading the root marker.
    pub fn print_tree(&self) -> (r: Vec<String>)
        requires
            self.wf(),
        ensures
            r@.len() == m_flatten(self.nodes@, 0).len(),
            r@.len() >= 1,
            r@[0]@ == "- root -"@,
    {
        let mut tree = TreeStream::new();
        let mut res: Vec<String> = Vec::new();
        proof {
            vstd::std_specs::vec::axiom_spec_len(&self.nodes);
        }
        let ghost tree0 = tree;
        TrieNode::print_tree(
            &self.nodes,
            0,
            String::new(),
            TreeDepth::root(),
            true,
            &mut tree,
            &mut res,
        );
        proof {
            // the root's row has no columns past the root one, so its
            // line is the bare root marker
            let p = TreeParam { last: true, depth: TreeDepth(0) };
            let r0 = next_row(tree0.nodes@, tree0.last_params, p);
            assert(r0.len() == 1);
            assert(r0.skip(1) =~= Seq::<TreeSign>::empty());
            assert(signs_text(r0.skip(1)) =~= Seq::<char>::empty());
            assert(res@[0]@ =~= "- root -"@);
        }
        res
    }
}

} // verus!
