//! A persistent (structurally shared) prefix tree over code sequences.
//!
//! Nodes live in an append-only arena; a tree is a root index into that
//! arena.  `insert` never mutates an existing node: it appends fresh
//! copies along the inserted path and returns by pointing the trie at a
//! fresh root, so every node of the previous tree — and therefore every
//! previous root index — keeps exactly the structure it had.  Parent
//! back-references live in a parallel table that `maintain` fills once
//! the tree is final, so finished nodes are never touched again.

use vstd::prelude::*;
use crate::input_context::ResultText;

verus! {

/// An immutable tree node: children keyed by a code unit (keys unique),
/// and the values attached at this node in insertion order.  Children
/// point at arena slots that were filled before this node, which keeps
/// every path acyclic.
#[derive(Debug)]
pub struct PersistentNode {
    pub children: Vec<(char, usize)>,
    pub values: Vec<ResultText>,
}

/// Looks a key up in a children list: the first pair with that key.
pub open spec fn assoc_get(kids: Seq<(char, usize)>, key: char) -> Option<usize>
    decreases kids.len(),
{
    if kids.len() == 0 {
        None
    } else if kids[0].0 == key {
        Some(kids[0].1)
    } else {
        assoc_get(kids.drop_first(), key)
    }
}

/// No two children of one node share a key.
pub open spec fn keys_unique(kids: Seq<(char, usize)>) -> bool {
    forall|a: int, b: int|
        0 <= a < b < kids.len() ==> (#[trigger] kids[a]).0 != (#[trigger] kids[b]).0
}

/// The node in slot `i` is well formed: unique keys, and every child
/// sits in an earlier arena slot.
pub open spec fn node_wf(nodes: Seq<PersistentNode>, i: int) -> bool {
    &&& keys_unique(nodes[i].children@)
    &&& forall|j: int|
        0 <= j < nodes[i].children@.len() ==> (#[trigger] nodes[i].children@[j]).1 < i
}

/// Every arena slot holds a well-formed node.
pub open spec fn nodes_wf(nodes: Seq<PersistentNode>) -> bool {
    forall|i: int| 0 <= i < nodes.len() ==> #[trigger] node_wf(nodes, i)
}

/// The arena slot reached by walking the path `p` from slot `i`.
pub open spec fn node_at(nodes: Seq<PersistentNode>, i: int, p: Seq<char>) -> Option<int>
    decreases p.len(),
{
    if !(0 <= i < nodes.len()) {
        None
    } else if p.len() == 0 {
        Some(i)
    } else {
        match assoc_get(nodes[i].children@, p[0]) {
            Some(c) => node_at(nodes, c as int, p.drop_first()),
            None => None,
        }
    }
}

/// The values attached at the end of path `p` from slot `i`; empty when
/// no node lies there.
pub open spec fn values_at(nodes: Seq<PersistentNode>, i: int, p: Seq<char>) -> Seq<ResultText> {
    match node_at(nodes, i, p) {
        Some(n) => nodes[n].values@,
        None => Seq::empty(),
    }
}

/// `q` is a prefix of `s`.
pub open spec fn is_prefix_of(q: Seq<char>, s: Seq<char>) -> bool {
    q.len() <= s.len() && q == s.take(q.len() as int)
}

/// No two distinct paths from `i` reach the same slot.
pub open spec fn inj_from(nodes: Seq<PersistentNode>, i: int) -> bool {
    forall|p1: Seq<char>, p2: Seq<char>|
        #[trigger] node_at(nodes, i, p1) is Some && node_at(nodes, i, p1) == #[trigger] node_at(
            nodes,
            i,
            p2,
        ) ==> p1 == p2
}

/// A successful lookup names the key's slot somewhere in the list.
pub proof fn lemma_assoc_get_some(kids: Seq<(char, usize)>, key: char)
    requires
        assoc_get(kids, key) is Some,
    ensures
        exists|j: int|
            0 <= j < kids.len() && (#[trigger] kids[j]).0 == key && kids[j].1 == assoc_get(
                kids,
                key,
            )->Some_0,
    decreases kids.len(),
{
    if kids.len() > 0 && kids[0].0 != key {
        lemma_assoc_get_some(kids.drop_first(), key);
        let j = choose|j: int|
            0 <= j < kids.drop_first().len() && (#[trigger] kids.drop_first()[j]).0 == key
                && kids.drop_first()[j].1 == assoc_get(kids.drop_first(), key)->Some_0;
        assert(kids[j + 1] == kids.drop_first()[j]);
    }
}

/// With unique keys, the pair at any position is what lookup returns.
pub proof fn lemma_assoc_get_at(kids: Seq<(char, usize)>, m: int)
    requires
        keys_unique(kids),
        0 <= m < kids.len(),
    ensures
        assoc_get(kids, kids[m].0) == Some(kids[m].1),
    decreases kids.len(),
{
    if m > 0 {
        assert(kids[0].0 != kids[m].0);
        lemma_assoc_get_at(kids.drop_first(), m - 1);
        assert(kids.drop_first()[m - 1] == kids[m]);
    }
}

/// A reached slot is inside the arena, no further out than the start,
/// and strictly earlier when the path is non-empty.
pub proof fn lemma_node_at_bound(nodes: Seq<PersistentNode>, i: int, p: Seq<char>)
    requires
        nodes_wf(nodes),
        node_at(nodes, i, p) is Some,
    ensures
        0 <= node_at(nodes, i, p)->Some_0 < nodes.len(),
        node_at(nodes, i, p)->Some_0 <= i,
        p.len() > 0 ==> node_at(nodes, i, p)->Some_0 < i,
    decreases p.len(),
{
    if p.len() > 0 {
        let c = assoc_get(nodes[i].children@, p[0])->Some_0;
        lemma_assoc_get_some(nodes[i].children@, p[0]);
        assert(node_wf(nodes, i));
        lemma_node_at_bound(nodes, c as int, p.drop_first());
    }
}

/// Lookups depend only on the slots at or before the start: any arena
/// that keeps those slots' structure gives the same walk and values.
proof fn lemma_node_at_frame(
    nodes1: Seq<PersistentNode>,
    nodes2: Seq<PersistentNode>,
    i: int,
    p: Seq<char>,
)
    requires
        nodes_wf(nodes1),
        nodes1.len() <= nodes2.len(),
        forall|j: int|
            0 <= j < nodes1.len() ==> (#[trigger] nodes2[j]).children@ == nodes1[j].children@
                && nodes2[j].values@ == nodes1[j].values@,
        0 <= i < nodes1.len(),
    ensures
        node_at(nodes2, i, p) == node_at(nodes1, i, p),
        values_at(nodes2, i, p) == values_at(nodes1, i, p),
    decreases p.len(),
{
    if p.len() > 0 {
        match assoc_get(nodes1[i].children@, p[0]) {
            Some(c) => {
                lemma_assoc_get_some(nodes1[i].children@, p[0]);
                assert(node_wf(nodes1, i));
                lemma_node_at_frame(nodes1, nodes2, c as int, p.drop_first());
            },
            None => {},
        }
    }
}

/// The children list with every slot stored under `key` redirected to `c2`.
pub open spec fn remap_children(kids: Seq<(char, usize)>, key: char, c2: usize) -> Seq<
    (char, usize),
> {
    Seq::new(kids.len(), |j: int| if kids[j].0 == key { (key, c2) } else { kids[j] })
}

/// What lookup finds after a redirect: the redirected slot under `key`
/// (when `key` was present), everything else unchanged.
proof fn lemma_assoc_remap(kids: Seq<(char, usize)>, key: char, c2: usize, k2: char)
    ensures
        assoc_get(remap_children(kids, key, c2), k2) == (if k2 == key {
            if assoc_get(kids, key) is Some {
                Some(c2)
            } else {
                None
            }
        } else {
            assoc_get(kids, k2)
        }),
    decreases kids.len(),
{
    if kids.len() > 0 {
        assert(remap_children(kids, key, c2).drop_first() =~= remap_children(
            kids.drop_first(),
            key,
            c2,
        ));
        lemma_assoc_remap(kids.drop_first(), key, c2, k2);
    }
}

/// What lookup finds after appending a pair: present keys win, the new
/// key answers where nothing else did.
pub proof fn lemma_assoc_push(kids: Seq<(char, usize)>, key: char, c2: usize, k2: char)
    ensures
        assoc_get(kids.push((key, c2)), k2) == (if assoc_get(kids, k2) is Some {
            assoc_get(kids, k2)
        } else if k2 == key {
            Some(c2)
        } else {
            None
        }),
    decreases kids.len(),
{
    let pushed = kids.push((key, c2));
    if kids.len() == 0 {
        assert(pushed[0] == (key, c2));
        assert(assoc_get(kids, k2) == None::<usize>);
        if k2 == key {
            assert(assoc_get(pushed, k2) == Some(c2));
        } else {
            assert(pushed.drop_first() =~= Seq::<(char, usize)>::empty());
            assert(assoc_get(pushed.drop_first(), k2) == None::<usize>);
            assert(assoc_get(pushed, k2) == None::<usize>);
        }
    } else {
        assert(pushed[0] == kids[0]);
        if kids[0].0 == k2 {
            assert(assoc_get(pushed, k2) == Some(kids[0].1));
            assert(assoc_get(kids, k2) == Some(kids[0].1));
        } else {
            assert(pushed.drop_first() =~= kids.drop_first().push((key, c2)));
            lemma_assoc_push(kids.drop_first(), key, c2, k2);
            assert(assoc_get(pushed, k2) == assoc_get(pushed.drop_first(), k2));
            assert(assoc_get(kids, k2) == assoc_get(kids.drop_first(), k2));
        }
    }
}

/// A key missing from every slot is not found.
pub proof fn lemma_assoc_get_none_converse(kids: Seq<(char, usize)>, key: char)
    requires
        forall|j: int| 0 <= j < kids.len() ==> (#[trigger] kids[j]).0 != key,
    ensures
        assoc_get(kids, key) is None,
    decreases kids.len(),
{
    if kids.len() > 0 {
        assert forall|j: int| 0 <= j < kids.drop_first().len() implies (
        #[trigger] kids.drop_first()[j]).0 != key by {
            assert(kids.drop_first()[j] == kids[j + 1]);
        }
        lemma_assoc_get_none_converse(kids.drop_first(), key);
    }
}

/// A failed lookup means the key is nowhere in the list.
proof fn lemma_assoc_get_none(kids: Seq<(char, usize)>, key: char)
    requires
        assoc_get(kids, key) is None,
    ensures
        forall|j: int| 0 <= j < kids.len() ==> (#[trigger] kids[j]).0 != key,
    decreases kids.len(),
{
    if kids.len() > 0 {
        lemma_assoc_get_none(kids.drop_first(), key);
        assert forall|j: int| 0 <= j < kids.len() implies (#[trigger] kids[j]).0 != key by {
            if j > 0 {
                assert(kids[j] == kids.drop_first()[j - 1]);
            }
        }
    }
}

/// A path whose head matches and whose tail is a prefix of the tail is
/// itself a prefix.
proof fn lemma_prefix_step(q: Seq<char>, s: Seq<char>)
    requires
        q.len() > 0,
        s.len() > 0,
        q[0] == s[0],
        is_prefix_of(q.drop_first(), s.drop_first()),
    ensures
        is_prefix_of(q, s),
{
    assert(q =~= s.take(q.len() as int)) by {
        assert forall|m: int| 0 <= m < q.len() implies q[m] == s.take(q.len() as int)[m] by {
            if m > 0 {
                assert(q.drop_first()[m - 1] == s.drop_first().take(
                    q.drop_first().len() as int,
                )[m - 1]);
            }
        }
    }
}

impl PersistentNode {
    /// An empty node: no children, no values.
    pub fn new() -> (r: PersistentNode)
        ensures
            r.children@ == Seq::<(char, usize)>::empty(),
            r.values@ == Seq::<ResultText>::empty(),
    {
        PersistentNode { children: Vec::new(), values: Vec::new() }
    }

    /// The arena slot of the child reached by `key`, if any.
    pub fn child(&self, key: char) -> (r: Option<usize>)
        ensures
            r == assoc_get(self.children@, key),
    {
        let mut m: usize = 0;
        proof {
            assert(self.children@.skip(0) =~= self.children@);
        }
        while m < self.children.len()
            invariant
                m <= self.children@.len(),
                assoc_get(self.children@, key) == assoc_get(self.children@.skip(m as int), key),
            decreases self.children@.len() - m,
        {
            if self.children[m].0 == key {
                assert(self.children@.skip(m as int)[0] == self.children@[m as int]);
                return Some(self.children[m].1);
            }
            proof {
                assert(self.children@.skip(m as int).drop_first() =~= self.children@.skip(
                    m as int + 1,
                ));
            }
            m = m + 1;
        }
        proof {
            assert(self.children@.skip(self.children@.len() as int) =~= Seq::<(
                char,
                usize,
            )>::empty());
        }
        None
    }

    /// A copy of this node with one more value appended; the node itself
    /// is left untouched.
    pub fn push(&self, v: ResultText) -> (r: PersistentNode)
        ensures
            r.children@ == self.children@,
            r.values@ == self.values@.push(v),
    {
        let children = copy_children(&self.children);
        let mut values = copy_values(&self.values);
        values.push(v);
        PersistentNode { children, values }
    }

    /// Appends a fresh chain of nodes spelling `pattern[pos..]`, with
    /// `value` attached at its end and nothing else in it.  Returns the
    /// chain's top slot; nothing already in the arena is changed.
    fn build_chain(
        nodes: &mut Vec<PersistentNode>,
        pattern: &Vec<char>,
        pos: usize,
        value: ResultText,
    ) -> (r: usize)
        requires
            nodes_wf(old(nodes)@),
            pos <= pattern@.len(),
        ensures
            nodes_wf(final(nodes)@),
            final(nodes)@.len() == old(nodes)@.len() + pattern@.len() - pos + 1,
            forall|j: int| 0 <= j < old(nodes)@.len() ==> final(nodes)@[j] == old(nodes)@[j],
            r == final(nodes)@.len() - 1,
            forall|k: int|
                0 <= k <= pattern@.len() - pos ==> node_at(
                    final(nodes)@,
                    r as int,
                    #[trigger] pattern@.skip(pos as int).take(k),
                ) == Some(r - k),
            forall|q: Seq<char>|
                !is_prefix_of(q, pattern@.skip(pos as int)) ==> node_at(final(nodes)@, r as int, q)
                    == None::<int>,
            values_at(final(nodes)@, r as int, pattern@.skip(pos as int)) == Seq::<
                ResultText,
            >::empty().push(value),
            forall|q: Seq<char>|
                q != pattern@.skip(pos as int) ==> values_at(final(nodes)@, r as int, q) == Seq::<
                    ResultText,
                >::empty(),
        decreases pattern@.len() - pos,
    {
        let ghost t = pattern@.skip(pos as int);
        if pos == pattern.len() {
            let mut values: Vec<ResultText> = Vec::new();
            values.push(value);
            nodes.push(PersistentNode { children: Vec::new(), values });
            let r = nodes.len() - 1;
            proof {
                assert(t =~= Seq::<char>::empty());
                assert forall|x: int| 0 <= x < nodes@.len() implies #[trigger] node_wf(
                    nodes@,
                    x,
                ) by {
                    if x < old(nodes)@.len() {
                        assert(node_wf(old(nodes)@, x));
                    }
                }
                assert forall|q: Seq<char>| !is_prefix_of(q, t) implies node_at(
                    nodes@,
                    r as int,
                    q,
                ) == None::<int> by {
                    if q.len() == 0 {
                        assert(q =~= t.take(0));
                    }
                    assert(q.len() > 0);
                    assert(assoc_get(nodes@[r as int].children@, q[0]) == None::<usize>);
                }
                assert(nodes@[r as int].values@ =~= Seq::<ResultText>::empty().push(value));
                assert forall|q: Seq<char>| q != t implies values_at(nodes@, r as int, q) == Seq::<
                    ResultText,
                >::empty() by {
                    if q.len() == 0 {
                        assert(q =~= t);
                    } else {
                        assert(assoc_get(nodes@[r as int].children@, q[0]) == None::<usize>);
                    }
                }
            }
            r
        } else {
            let k0 = pattern[pos];
            let rb = Self::build_chain(nodes, pattern, pos + 1, value);
            let ghost mid = nodes@;
            let ghost tt = pattern@.skip(pos as int + 1);
            let mut children: Vec<(char, usize)> = Vec::new();
            children.push((k0, rb));
            nodes.push(PersistentNode { children, values: Vec::new() });
            let r = nodes.len() - 1;
            proof {
                assert(t.drop_first() =~= tt);
                assert(t[0] == k0);
                let kids = nodes@[r as int].children@;
                assert(kids =~= Seq::<(char, usize)>::empty().push((k0, rb)));
                assert forall|k2: char| #[trigger]
                    assoc_get(kids, k2) == (if k2 == k0 {
                        Some(rb as usize)
                    } else {
                        None
                    }) by {
                    lemma_assoc_push(Seq::<(char, usize)>::empty(), k0, rb, k2);
                }
                // well-formedness of every slot in the grown arena
                assert forall|x: int| 0 <= x < nodes@.len() implies #[trigger] node_wf(
                    nodes@,
                    x,
                ) by {
                    if x < mid.len() {
                        assert(node_wf(mid, x));
                    }
                }
                // the chain clause
                assert forall|k: int| 0 <= k <= pattern@.len() - pos implies node_at(
                    nodes@,
                    r as int,
                    #[trigger] t.take(k),
                ) == Some(r - k) by {
                    if k == 0 {
                        assert(t.take(0) =~= Seq::<char>::empty());
                    } else {
                        assert(t.take(k)[0] == k0);
                        assert(t.take(k).drop_first() =~= tt.take(k - 1));
                        assert(node_at(mid, rb as int, tt.take(k - 1)) == Some(rb - (k - 1)));
                        lemma_node_at_frame(mid, nodes@, rb as int, tt.take(k - 1));
                    }
                }
                // everything off the chain is absent
                assert forall|q: Seq<char>| !is_prefix_of(q, t) implies node_at(
                    nodes@,
                    r as int,
                    q,
                ) == None::<int> by {
                    if q.len() == 0 {
                        assert(q =~= t.take(0));
                    }
                    assert(q.len() > 0);
                    if q[0] == k0 {
                        if is_prefix_of(q.drop_first(), tt) {
                            lemma_prefix_step(q, t);
                        }
                        assert(node_at(mid, rb as int, q.drop_first()) == None::<int>);
                        lemma_node_at_frame(mid, nodes@, rb as int, q.drop_first());
                    }
                }
                // values: only the chain's end holds the one value
                assert(t.take(pattern@.len() - pos) =~= t);
                assert(node_at(nodes@, r as int, t) == Some(r - (pattern@.len() - pos)));
                lemma_node_at_frame(mid, nodes@, rb as int, tt);
                assert(values_at(nodes@, r as int, t) == values_at(nodes@, rb as int, tt));
                assert forall|q: Seq<char>| q != t implies values_at(nodes@, r as int, q) == Seq::<
                    ResultText,
                >::empty() by {
                    if q.len() == 0 {
                        assert(nodes@[r as int].values@ =~= Seq::<ResultText>::empty());
                    } else if q[0] == k0 {
                        assert(q.drop_first() != tt) by {
                            if q.drop_first() == tt {
                                assert forall|m: int| 0 <= m < q.len() implies q[m] == t[m] by {
                                    if m > 0 {
                                        assert(q[m] == q.drop_first()[m - 1]);
                                        assert(t[m] == tt[m - 1]);
                                    }
                                }
                                assert(q =~= t);
                            }
                        }
                        lemma_node_at_frame(mid, nodes@, rb as int, q.drop_first());
                        assert(values_at(nodes@, r as int, q) == values_at(
                            nodes@,
                            rb as int,
                            q.drop_first(),
                        ));
                    }
                }
            }
            r
        }
    }

    /// The path-copying insert: appends fresh copies of the nodes along
    /// `pattern[pos..]` below slot `i` (fresh empty nodes where the old
    /// tree ran out), with `value` appended at the path's end, and
    /// returns the fresh copy of `i`.  Every slot already in the arena
    /// is left exactly as it was; every walk that does not follow the
    /// inserted path lands on the same old slot as before.
    pub fn update(
        nodes: &mut Vec<PersistentNode>,
        i: usize,
        pattern: &Vec<char>,
        pos: usize,
        value: ResultText,
    ) -> (r: usize)
        requires
            nodes_wf(old(nodes)@),
            i < old(nodes)@.len(),
            pos <= pattern@.len(),
        ensures
            nodes_wf(final(nodes)@),
            final(nodes)@.len() == old(nodes)@.len() + pattern@.len() - pos + 1,
            forall|j: int| 0 <= j < old(nodes)@.len() ==> final(nodes)@[j] == old(nodes)@[j],
            r == final(nodes)@.len() - 1,
            forall|k: int|
                0 <= k <= pattern@.len() - pos ==> node_at(
                    final(nodes)@,
                    r as int,
                    #[trigger] pattern@.skip(pos as int).take(k),
                ) == Some(r - k),
            forall|q: Seq<char>|
                !is_prefix_of(q, pattern@.skip(pos as int)) ==> node_at(final(nodes)@, r as int, q)
                    == node_at(old(nodes)@, i as int, q),
            values_at(final(nodes)@, r as int, pattern@.skip(pos as int)) == values_at(
                old(nodes)@,
                i as int,
                pattern@.skip(pos as int),
            ).push(value),
            forall|q: Seq<char>|
                q != pattern@.skip(pos as int) ==> values_at(final(nodes)@, r as int, q)
                    == values_at(old(nodes)@, i as int, q),
        decreases pattern@.len() - pos,
    {
        let ghost t = pattern@.skip(pos as int);
        if pos == pattern.len() {
            let children = copy_children(&nodes[i].children);
            let mut values = copy_values(&nodes[i].values);
            values.push(value);
            nodes.push(PersistentNode { children, values });
            let r = nodes.len() - 1;
            proof {
                assert(t =~= Seq::<char>::empty());
                assert forall|x: int| 0 <= x < nodes@.len() implies #[trigger] node_wf(
                    nodes@,
                    x,
                ) by {
                    if x < old(nodes)@.len() {
                        assert(node_wf(old(nodes)@, x));
                    } else {
                        assert(nodes@[x].children@ == old(nodes)@[i as int].children@);
                        assert(node_wf(old(nodes)@, i as int));
                    }
                }
                assert forall|q: Seq<char>| !is_prefix_of(q, t) implies node_at(
                    nodes@,
                    r as int,
                    q,
                ) == node_at(old(nodes)@, i as int, q) by {
                    if q.len() == 0 {
                        assert(q =~= t.take(0));
                    }
                    assert(q.len() > 0);
                    assert(nodes@[r as int].children@ == old(nodes)@[i as int].children@);
                    match assoc_get(old(nodes)@[i as int].children@, q[0]) {
                        Some(c2) => {
                            lemma_assoc_get_some(old(nodes)@[i as int].children@, q[0]);
                            assert(node_wf(old(nodes)@, i as int));
                            lemma_node_at_frame(old(nodes)@, nodes@, c2 as int, q.drop_first());
                        },
                        None => {},
                    }
                }
                assert(nodes@[r as int].values@ == old(nodes)@[i as int].values@.push(value));
                assert forall|q: Seq<char>| q != t implies values_at(nodes@, r as int, q)
                    == values_at(old(nodes)@, i as int, q) by {
                    if q.len() == 0 {
                        assert(q =~= t);
                    } else {
                        assert(!is_prefix_of(q, t));
                        assert(node_at(nodes@, r as int, q) == node_at(old(nodes)@, i as int, q));
                        match node_at(old(nodes)@, i as int, q) {
                            Some(n) => {
                                lemma_node_at_bound(old(nodes)@, i as int, q);
                                assert(nodes@[n].values@ == old(nodes)@[n].values@);
                            },
                            None => {},
                        }
                    }
                }
            }
            r
        } else {
            let k0 = pattern[pos];
            let c_opt = nodes[i].child(k0);
            let ghost old_kids = old(nodes)@[i as int].children@;
            let ghost tt = pattern@.skip(pos as int + 1);
            proof {
                assert(t.drop_first() =~= tt);
                assert(t[0] == k0);
            }
            match c_opt {
                Some(c) => {
                    proof {
                        lemma_assoc_get_some(old_kids, k0);
                        assert(node_wf(old(nodes)@, i as int));
                    }
                    let rc = Self::update(nodes, c, pattern, pos + 1, value);
                    let ghost mid = nodes@;
                    let n_kids = nodes[i].children.len();
                    let mut kids: Vec<(char, usize)> = Vec::new();
                    let mut m: usize = 0;
                    proof {
                        assert(remap_children(old_kids, k0, rc).take(0) =~= Seq::<(
                            char,
                            usize,
                        )>::empty());
                    }
                    while m < n_kids
                        invariant
                            nodes@ == mid,
                            0 <= i < mid.len(),
                            mid[i as int].children@ == old_kids,
                            n_kids == old_kids.len(),
                            m <= n_kids,
                            kids@ == remap_children(old_kids, k0, rc).take(m as int),
                        decreases n_kids - m,
                    {
                        let pair = nodes[i].children[m];
                        if pair.0 == k0 {
                            kids.push((k0, rc));
                        } else {
                            kids.push(pair);
                        }
                        proof {
                            assert(kids@ =~= remap_children(old_kids, k0, rc).take(m as int + 1));
                        }
                        m = m + 1;
                    }
                    proof {
                        assert(kids@ =~= remap_children(old_kids, k0, rc));
                    }
                    let values = copy_values(&nodes[i].values);
                    nodes.push(PersistentNode { children: kids, values });
                    let r = nodes.len() - 1;
                    proof {
                        let new_kids = nodes@[r as int].children@;
                        assert forall|k2: char| #[trigger]
                            assoc_get(new_kids, k2) == (if k2 == k0 {
                                Some(rc as usize)
                            } else {
                                assoc_get(old_kids, k2)
                            }) by {
                            lemma_assoc_remap(old_kids, k0, rc, k2);
                        }
                        // well-formedness of the grown arena
                        assert forall|x: int| 0 <= x < nodes@.len() implies #[trigger] node_wf(
                            nodes@,
                            x,
                        ) by {
                            if x < mid.len() {
                                assert(node_wf(mid, x));
                            } else {
                                assert(node_wf(old(nodes)@, i as int));
                                assert forall|a: int, b: int|
                                    0 <= a < b < new_kids.len() implies (
                                #[trigger] new_kids[a]).0 != (#[trigger] new_kids[b]).0 by {
                                    assert(old_kids[a].0 != old_kids[b].0);
                                }
                                assert forall|j: int| 0 <= j < new_kids.len() implies (
                                #[trigger] new_kids[j]).1 < x by {
                                    assert(old_kids[j].1 < i);
                                }
                            }
                        }
                        // the fresh chain
                        assert forall|k: int| 0 <= k <= pattern@.len() - pos implies node_at(
                            nodes@,
                            r as int,
                            #[trigger] t.take(k),
                        ) == Some(r - k) by {
                            if k == 0 {
                                assert(t.take(0) =~= Seq::<char>::empty());
                            } else {
                                assert(t.take(k)[0] == k0);
                                assert(t.take(k).drop_first() =~= tt.take(k - 1));
                                assert(node_at(mid, rc as int, tt.take(k - 1)) == Some(
                                    rc - (k - 1),
                                ));
                                lemma_node_at_frame(mid, nodes@, rc as int, tt.take(k - 1));
                            }
                        }
                        // walks off the inserted path land where they used to
                        assert forall|q: Seq<char>| !is_prefix_of(q, t) implies node_at(
                            nodes@,
                            r as int,
                            q,
                        ) == node_at(old(nodes)@, i as int, q) by {
                            if q.len() == 0 {
                                assert(q =~= t.take(0));
                            }
                            assert(q.len() > 0);
                            if q[0] == k0 {
                                if is_prefix_of(q.drop_first(), tt) {
                                    lemma_prefix_step(q, t);
                                }
                                lemma_node_at_frame(mid, nodes@, rc as int, q.drop_first());
                                assert(node_at(mid, rc as int, q.drop_first()) == node_at(
                                    old(nodes)@,
                                    c as int,
                                    q.drop_first(),
                                ));
                            } else {
                                match assoc_get(old_kids, q[0]) {
                                    Some(c2) => {
                                        lemma_assoc_get_some(old_kids, q[0]);
                                        assert(node_wf(old(nodes)@, i as int));
                                        lemma_node_at_frame(
                                            old(nodes)@,
                                            nodes@,
                                            c2 as int,
                                            q.drop_first(),
                                        );
                                    },
                                    None => {},
                                }
                            }
                        }
                        // the inserted path's values gain exactly the new value
                        assert(t.take(pattern@.len() - pos) =~= t);
                        assert(node_at(nodes@, r as int, t) == Some(r - (pattern@.len() - pos)));
                        lemma_node_at_frame(mid, nodes@, rc as int, tt);
                        assert(values_at(nodes@, r as int, t) == values_at(nodes@, rc as int, tt));
                        assert(values_at(nodes@, r as int, t) == values_at(
                            old(nodes)@,
                            i as int,
                            t,
                        ).push(value));
                        // all other values are untouched
                        assert forall|q: Seq<char>| q != t implies values_at(nodes@, r as int, q)
                            == values_at(old(nodes)@, i as int, q) by {
                            if q.len() == 0 {
                                assert(nodes@[r as int].values@ == old(nodes)@[i as int].values@);
                            } else if q[0] == k0 {
                                assert(q.drop_first() != tt) by {
                                    if q.drop_first() == tt {
                                        assert forall|w: int| 0 <= w < q.len() implies q[w]
                                            == t[w] by {
                                            if w > 0 {
                                                assert(q[w] == q.drop_first()[w - 1]);
                                                assert(t[w] == tt[w - 1]);
                                            }
                                        }
                                        assert(q =~= t);
                                    }
                                }
                                lemma_node_at_frame(mid, nodes@, rc as int, q.drop_first());
                                assert(values_at(nodes@, rc as int, q.drop_first()) == values_at(
                                    old(nodes)@,
                                    c as int,
                                    q.drop_first(),
                                ));
                            } else {
                                assert(!is_prefix_of(q, t)) by {
                                    if is_prefix_of(q, t) {
                                        assert(q[0] == t.take(q.len() as int)[0]);
                                    }
                                }
                                assert(node_at(nodes@, r as int, q) == node_at(
                                    old(nodes)@,
                                    i as int,
                                    q,
                                ));
                                match node_at(old(nodes)@, i as int, q) {
                                    Some(n) => {
                                        lemma_node_at_bound(old(nodes)@, i as int, q);
                                        assert(nodes@[n].values@ == old(nodes)@[n].values@);
                                    },
                                    None => {},
                                }
                            }
                        }
                    }
                    r
                },
                None => {
                    let rb = Self::build_chain(nodes, pattern, pos + 1, value);
                    let ghost mid = nodes@;
                    let mut kids = copy_children(&nodes[i].children);
                    kids.push((k0, rb));
                    let values = copy_values(&nodes[i].values);
                    nodes.push(PersistentNode { children: kids, values });
                    let r = nodes.len() - 1;
                    proof {
                        let new_kids = nodes@[r as int].children@;
                        assert(new_kids == old_kids.push((k0, rb as usize)));
                        lemma_assoc_get_none(old_kids, k0);
                        assert forall|k2: char| #[trigger]
                            assoc_get(new_kids, k2) == (if k2 == k0 {
                                Some(rb as usize)
                            } else {
                                assoc_get(old_kids, k2)
                            }) by {
                            lemma_assoc_push(old_kids, k0, rb, k2);
                            if k2 != k0 && assoc_get(old_kids, k2) is None {
                            }
                        }
                        // well-formedness of the grown arena
                        assert forall|x: int| 0 <= x < nodes@.len() implies #[trigger] node_wf(
                            nodes@,
                            x,
                        ) by {
                            if x < mid.len() {
                                assert(node_wf(mid, x));
                            } else {
                                assert(node_wf(old(nodes)@, i as int));
                                assert forall|a: int, b: int|
                                    0 <= a < b < new_kids.len() implies (
                                #[trigger] new_kids[a]).0 != (#[trigger] new_kids[b]).0 by {
                                    if b < new_kids.len() - 1 {
                                        assert(old_kids[a].0 != old_kids[b].0);
                                    }
                                }
                                assert forall|j: int| 0 <= j < new_kids.len() implies (
                                #[trigger] new_kids[j]).1 < x by {
                                    if j < new_kids.len() - 1 {
                                        assert(old_kids[j].1 < i);
                                    }
                                }
                            }
                        }
                        // the fresh chain
                        assert forall|k: int| 0 <= k <= pattern@.len() - pos implies node_at(
                            nodes@,
                            r as int,
                            #[trigger] t.take(k),
                        ) == Some(r - k) by {
                            if k == 0 {
                                assert(t.take(0) =~= Seq::<char>::empty());
                            } else {
                                assert(t.take(k)[0] == k0);
                                assert(t.take(k).drop_first() =~= tt.take(k - 1));
                                assert(node_at(mid, rb as int, tt.take(k - 1)) == Some(
                                    rb - (k - 1),
                                ));
                                lemma_node_at_frame(mid, nodes@, rb as int, tt.take(k - 1));
                            }
                        }
                        // walks off the inserted path land where they used to
                        assert forall|q: Seq<char>| !is_prefix_of(q, t) implies node_at(
                            nodes@,
                            r as int,
                            q,
                        ) == node_at(old(nodes)@, i as int, q) by {
                            if q.len() == 0 {
                                assert(q =~= t.take(0));
                            }
                            assert(q.len() > 0);
                            if q[0] == k0 {
                                if is_prefix_of(q.drop_first(), tt) {
                                    lemma_prefix_step(q, t);
                                }
                                lemma_node_at_frame(mid, nodes@, rb as int, q.drop_first());
                                assert(node_at(mid, rb as int, q.drop_first()) == None::<int>);
                                assert(node_at(old(nodes)@, i as int, q) == None::<int>);
                            } else {
                                match assoc_get(old_kids, q[0]) {
                                    Some(c2) => {
                                        lemma_assoc_get_some(old_kids, q[0]);
                                        assert(node_wf(old(nodes)@, i as int));
                                        lemma_node_at_frame(
                                            old(nodes)@,
                                            nodes@,
                                            c2 as int,
                                            q.drop_first(),
                                        );
                                    },
                                    None => {},
                                }
                            }
                        }
                        // the inserted path's values gain exactly the new value
                        assert(t.take(pattern@.len() - pos) =~= t);
                        assert(node_at(nodes@, r as int, t) == Some(r - (pattern@.len() - pos)));
                        lemma_node_at_frame(mid, nodes@, rb as int, tt);
                        assert(values_at(nodes@, r as int, t) == values_at(nodes@, rb as int, tt));
                        assert(node_at(old(nodes)@, i as int, t) == None::<int>);
                        assert(values_at(nodes@, r as int, t) == values_at(
                            old(nodes)@,
                            i as int,
                            t,
                        ).push(value));
                        // all other values are untouched
                        assert forall|q: Seq<char>| q != t implies values_at(nodes@, r as int, q)
                            == values_at(old(nodes)@, i as int, q) by {
                            if q.len() == 0 {
                                assert(nodes@[r as int].values@ == old(nodes)@[i as int].values@);
                            } else if q[0] == k0 {
                                assert(q.drop_first() != tt) by {
                                    if q.drop_first() == tt {
                                        assert forall|w: int| 0 <= w < q.len() implies q[w]
                                            == t[w] by {
                                            if w > 0 {
                                                assert(q[w] == q.drop_first()[w - 1]);
                                                assert(t[w] == tt[w - 1]);
                                            }
                                        }
                                        assert(q =~= t);
                                    }
                                }
                                lemma_node_at_frame(mid, nodes@, rb as int, q.drop_first());
                                assert(values_at(nodes@, rb as int, q.drop_first()) == Seq::<
                                    ResultText,
                                >::empty());
                                assert(node_at(old(nodes)@, i as int, q) == None::<int>);
                            } else {
                                assert(!is_prefix_of(q, t)) by {
                                    if is_prefix_of(q, t) {
                                        assert(q[0] == t.take(q.len() as int)[0]);
                                    }
                                }
                                assert(node_at(nodes@, r as int, q) == node_at(
                                    old(nodes)@,
                                    i as int,
                                    q,
                                ));
                                match node_at(old(nodes)@, i as int, q) {
                                    Some(n) => {
                                        lemma_node_at_bound(old(nodes)@, i as int, q);
                                        assert(nodes@[n].values@ == old(nodes)@[n].values@);
                                    },
                                    None => {},
                                }
                            }
                        }
                    }
                    r
                },
            }
        }
    }
}

/// Copies a children list exactly.
fn copy_children(v: &Vec<(char, usize)>) -> (r: Vec<(char, usize)>)
    ensures
        r@ == v@,
{
    let mut r: Vec<(char, usize)> = Vec::new();
    let mut m: usize = 0;
    while m < v.len()
        invariant
            m <= v@.len(),
            r@ == v@.take(m as int),
        decreases v@.len() - m,
    {
        r.push(v[m]);
        proof {
            assert(r@ =~= v@.take(m + 1));
        }
        m = m + 1;
    }
    proof {
        assert(v@.take(v@.len() as int) =~= v@);
    }
    r
}

/// Copies a value list exactly.
fn copy_values(v: &Vec<ResultText>) -> (r: Vec<ResultText>)
    ensures
        r@ == v@,
{
    let mut r: Vec<ResultText> = Vec::new();
    let mut m: usize = 0;
    while m < v.len()
        invariant
            m <= v@.len(),
            r@ == v@.take(m as int),
        decreases v@.len() - m,
    {
        r.push(v[m].dup());
        proof {
            assert(r@ =~= v@.take(m + 1));
        }
        m = m + 1;
    }
    proof {
        assert(v@.take(v@.len() as int) =~= v@);
    }
    r
}

} // verus!

verus! {

/// Every walk that starts at a slot of the old arena — any old root —
/// finds the same slots and the same values in the new arena.
pub open spec fn preserves_old_walks(
    oldn: Seq<PersistentNode>,
    newn: Seq<PersistentNode>,
) -> bool {
    &&& forall|r0: int, q: Seq<char>|
        0 <= r0 < oldn.len() ==> #[trigger] node_at(newn, r0, q) == node_at(oldn, r0, q)
    &&& forall|r0: int, q: Seq<char>|
        0 <= r0 < oldn.len() ==> #[trigger] values_at(newn, r0, q) == values_at(oldn, r0, q)
}

/// An arena extension that keeps every old slot's structure preserves
/// every walk from every old slot.
proof fn lemma_extension_preserves_old_walks(
    oldn: Seq<PersistentNode>,
    newn: Seq<PersistentNode>,
)
    requires
        nodes_wf(oldn),
        oldn.len() <= newn.len(),
        forall|j: int|
            0 <= j < oldn.len() ==> (#[trigger] newn[j]).children@ == oldn[j].children@
                && newn[j].values@ == oldn[j].values@,
    ensures
        preserves_old_walks(oldn, newn),
{
    assert forall|r0: int, q: Seq<char>| 0 <= r0 < oldn.len() implies #[trigger] node_at(
        newn,
        r0,
        q,
    ) == node_at(oldn, r0, q) by {
        lemma_node_at_frame(oldn, newn, r0, q);
    }
    assert forall|r0: int, q: Seq<char>| 0 <= r0 < oldn.len() implies #[trigger] values_at(
        newn,
        r0,
        q,
    ) == values_at(oldn, r0, q) by {
        lemma_node_at_frame(oldn, newn, r0, q);
    }
}

/// The persistent trie: an append-only node arena, the slot of the
/// current root, and the parent back-references that `maintain` fills
/// in once loading is done.  Old roots stay valid forever: an insert
/// only appends slots and repoints the root.
#[derive(Debug)]
pub struct PersistentTrie {
    pub nodes: Vec<PersistentNode>,
    pub fathers: Vec<Option<usize>>,
    pub root: usize,
}

impl PersistentTrie {
    /// Well-formed: every slot's children sit in earlier slots under
    /// unique keys, the root is a valid slot, the back-reference table
    /// covers the arena, and no two distinct paths from the root meet.
    pub open spec fn wf(&self) -> bool {
        &&& nodes_wf(self.nodes@)
        &&& (self.root as int) < self.nodes@.len()
        &&& self.fathers@.len() == self.nodes@.len()
        &&& inj_from(self.nodes@, self.root as int)
    }

    /// The values attached at the end of `p`, walking from the root.
    pub open spec fn spec_values_at(&self, p: Seq<char>) -> Seq<ResultText> {
        values_at(self.nodes@, self.root as int, p)
    }

    /// The back-references are correct: the root has none, and the
    /// father of any node reached by `p + [k]` is the node reached by
    /// `p` — for the whole tree.
    pub open spec fn maintained(&self) -> bool {
        &&& self.fathers@[self.root as int] is None
        &&& fathered(self.nodes@, self.fathers@, self.root as int)
    }

    /// A trie holding one empty root node and no entries.
    pub fn new() -> (r: PersistentTrie)
        ensures
            r.wf(),
            r.maintained(),
            r.nodes@.len() == 1,
            r.root == 0,
            forall|q: Seq<char>| r.spec_values_at(q) == Seq::<ResultText>::empty(),
    {
        let mut nodes: Vec<PersistentNode> = Vec::new();
        nodes.push(PersistentNode::new());
        let mut fathers: Vec<Option<usize>> = Vec::new();
        fathers.push(None);
        let r = PersistentTrie { nodes, fathers, root: 0 };
        proof {
            assert(node_wf(r.nodes@, 0));
            assert forall|p: Seq<char>| p.len() > 0 implies node_at(r.nodes@, 0, p)
                == None::<int> by {
                assert(assoc_get(r.nodes@[0].children@, p[0]) == None::<usize>);
            }
            assert forall|p1: Seq<char>, p2: Seq<char>|
                #[trigger] node_at(r.nodes@, 0, p1) is Some && node_at(r.nodes@, 0, p1)
                    == #[trigger] node_at(r.nodes@, 0, p2) implies p1 == p2 by {
                assert(p1 =~= p2);
            }
        }
        r
    }

    /// The root's arena slot; an input context starts here, and it keeps
    /// naming this tree even after later inserts repoint the trie.
    pub fn root(&self) -> (r: usize)
        ensures
            r == self.root,
    {
        self.root
    }

    /// The node in slot `i`.
    pub fn node(&self, i: usize) -> (r: &PersistentNode)
        requires
            i < self.nodes@.len(),
        ensures
            *r == self.nodes@[i as int],
    {
        &self.nodes[i]
    }

    /// The father back-reference of slot `i`, as `maintain` left it.
    pub fn father_of(&self, i: usize) -> (r: Option<usize>)
        requires
            i < self.fathers@.len(),
        ensures
            r == self.fathers@[i as int],
    {
        self.fathers[i]
    }

    /// Path-copying insert: afterwards the trie maps `pattern` to its
    /// old values plus `value` and every other code sequence to exactly
    /// what it mapped before.  Nothing already in the arena changes:
    /// walks from the old root — and, off the inserted path, from the
    /// new root — land on the very same slots as before.  Exactly
    /// `pattern.len() + 1` fresh slots are allocated — the copies along
    /// the path — however large the trie is.
    pub fn insert(&mut self, pattern: &Vec<char>, value: ResultText)
        requires
            old(self).wf(),
        ensures
            final(self).wf(),
            final(self).nodes@.len() == old(self).nodes@.len() + pattern@.len() + 1,
            final(self).root == final(self).nodes@.len() - 1,
            old(self).nodes@.len() <= final(self).root,
            final(self).spec_values_at(pattern@) == old(self).spec_values_at(pattern@).push(value),
            forall|q: Seq<char>|
                q != pattern@ ==> final(self).spec_values_at(q) == old(self).spec_values_at(q),
            forall|j: int|
                0 <= j < old(self).nodes@.len() ==> final(self).nodes@[j] == old(self).nodes@[j],
            forall|q: Seq<char>|
                !is_prefix_of(q, pattern@) ==> node_at(
                    final(self).nodes@,
                    final(self).root as int,
                    q,
                ) == node_at(old(self).nodes@, old(self).root as int, q),
            preserves_old_walks(old(self).nodes@, final(self).nodes@),
    {
        let rt = self.root;
        let r = PersistentNode::update(&mut self.nodes, rt, pattern, 0, value);
        let ghost nsnap = self.nodes@;
        while self.fathers.len() < self.nodes.len()
            invariant
                self.nodes@ == nsnap,
                self.fathers@.len() <= self.nodes@.len(),
            decreases self.nodes@.len() - self.fathers@.len(),
        {
            self.fathers.push(None);
        }
        self.root = r;
        proof {
            let s = pattern@;
            assert(pattern@.skip(0) =~= s);
            let newn = self.nodes@;
            let oldn = old(self).nodes@;
            let oldroot = old(self).root as int;
            lemma_extension_preserves_old_walks(old(self).nodes@, self.nodes@);
            assert forall|p1: Seq<char>, p2: Seq<char>|
                #[trigger] node_at(newn, r as int, p1) is Some && node_at(newn, r as int, p1)
                    == #[trigger] node_at(newn, r as int, p2) implies p1 == p2 by {
                let pre1 = is_prefix_of(p1, s);
                let pre2 = is_prefix_of(p2, s);
                if pre1 {
                    assert(node_at(newn, r as int, s.take(p1.len() as int)) == Some(
                        r - p1.len(),
                    ));
                }
                if pre2 {
                    assert(node_at(newn, r as int, s.take(p2.len() as int)) == Some(
                        r - p2.len(),
                    ));
                }
                if !pre1 {
                    lemma_node_at_bound(oldn, oldroot, p1);
                }
                if !pre2 {
                    lemma_node_at_bound(oldn, oldroot, p2);
                }
                if pre1 && pre2 {
                    assert(p1 == s.take(p1.len() as int) && p2 == s.take(p2.len() as int));
                    assert(p1.len() == p2.len());
                } else if !pre1 && !pre2 {
                    assert(node_at(oldn, oldroot, p1) == node_at(oldn, oldroot, p2));
                }
            }
        }
    }
}

} // verus!

verus! {

/// Slot `j` can be reached from slot `i` by some path.
pub open spec fn reaches(nodes: Seq<PersistentNode>, i: int, j: int) -> bool {
    exists|p: Seq<char>| #[trigger] node_at(nodes, i, p) == Some(j)
}

/// Every back-reference below `i` is correct: the father of the slot
/// reached by `p + [k]` is the slot reached by `p`.
pub open spec fn fathered(
    nodes: Seq<PersistentNode>,
    fathers: Seq<Option<usize>>,
    i: int,
) -> bool {
    forall|p: Seq<char>, k: char|
        #[trigger] node_at(nodes, i, p.push(k)) is Some ==> fathers[node_at(
            nodes,
            i,
            p.push(k),
        )->Some_0] == Some(node_at(nodes, i, p)->Some_0 as usize)
}

/// Walking one more key is walking to that key's child of the slot the
/// path reaches.
pub proof fn lemma_node_at_snoc(nodes: Seq<PersistentNode>, i: int, p: Seq<char>, k: char)
    requires
        nodes_wf(nodes),
    ensures
        node_at(nodes, i, p.push(k)) == (match node_at(nodes, i, p) {
            Some(n) => match assoc_get(nodes[n].children@, k) {
                Some(c) => Some(c as int),
                None => None::<int>,
            },
            None => None::<int>,
        }),
    decreases p.len(),
{
    if !(0 <= i < nodes.len()) {
        assert(node_at(nodes, i, p.push(k)) == None::<int>);
        assert(node_at(nodes, i, p) == None::<int>);
    } else if p.len() == 0 {
        assert(p.push(k)[0] == k);
        assert(p.push(k).drop_first() =~= Seq::<char>::empty());
        assert(node_at(nodes, i, p) == Some(i));
        match assoc_get(nodes[i].children@, k) {
            Some(c) => {
                lemma_assoc_get_some(nodes[i].children@, k);
                assert(node_wf(nodes, i));
                assert(c < i);
                assert(node_at(nodes, c as int, p.push(k).drop_first()) == Some(c as int));
                assert(node_at(nodes, i, p.push(k)) == Some(c as int));
            },
            None => {
                assert(node_at(nodes, i, p.push(k)) == None::<int>);
            },
        }
    } else {
        assert(p.push(k)[0] == p[0]);
        assert(p.push(k).drop_first() =~= p.drop_first().push(k));
        match assoc_get(nodes[i].children@, p[0]) {
            Some(c) => {
                lemma_assoc_get_some(nodes[i].children@, p[0]);
                assert(node_wf(nodes, i));
                lemma_node_at_snoc(nodes, c as int, p.drop_first(), k);
                assert(node_at(nodes, i, p.push(k)) == node_at(
                    nodes,
                    c as int,
                    p.drop_first().push(k),
                ));
                assert(node_at(nodes, i, p) == node_at(nodes, c as int, p.drop_first()));
            },
            None => {
                assert(node_at(nodes, i, p.push(k)) == None::<int>);
                assert(node_at(nodes, i, p) == None::<int>);
            },
        }
    }
}

/// Walking from a child is walking from its parent with the child's key
/// put in front.
proof fn lemma_node_at_cons(nodes: Seq<PersistentNode>, i: int, m: int, p: Seq<char>)
    requires
        nodes_wf(nodes),
        0 <= i < nodes.len(),
        0 <= m < nodes[i].children@.len(),
    ensures
        node_at(nodes, i, seq![nodes[i].children@[m].0] + p) == node_at(
            nodes,
            nodes[i].children@[m].1 as int,
            p,
        ),
{
    let key = nodes[i].children@[m].0;
    let q = seq![key] + p;
    assert(node_wf(nodes, i));
    lemma_assoc_get_at(nodes[i].children@, m);
    assert(q.len() == 1 + p.len());
    assert(q[0] == key);
    assert(q.drop_first() =~= p);
}

/// Whatever a child's subtree reaches, the parent reaches too.
proof fn lemma_reach_lift(nodes: Seq<PersistentNode>, i: int, m: int, j: int)
    requires
        nodes_wf(nodes),
        0 <= i < nodes.len(),
        0 <= m < nodes[i].children@.len(),
        reaches(nodes, nodes[i].children@[m].1 as int, j),
    ensures
        reaches(nodes, i, j),
{
    let c = nodes[i].children@[m].1 as int;
    let p = choose|p: Seq<char>| #[trigger] node_at(nodes, c, p) == Some(j);
    lemma_node_at_cons(nodes, i, m, p);
    assert(node_at(nodes, i, seq![nodes[i].children@[m].0] + p) == Some(j));
}

/// Under injectivity, distinct children's subtrees share no slot, and
/// no child's subtree reaches a sibling child.
proof fn lemma_sibling_disjoint(nodes: Seq<PersistentNode>, i: int, m1: int, m2: int, j: int)
    requires
        nodes_wf(nodes),
        inj_from(nodes, i),
        0 <= i < nodes.len(),
        0 <= m1 < nodes[i].children@.len(),
        0 <= m2 < nodes[i].children@.len(),
        m1 != m2,
        reaches(nodes, nodes[i].children@[m1].1 as int, j),
    ensures
        !reaches(nodes, nodes[i].children@[m2].1 as int, j),
{
    let c1 = nodes[i].children@[m1].1 as int;
    let c2 = nodes[i].children@[m2].1 as int;
    if reaches(nodes, c2, j) {
        let p1 = choose|p: Seq<char>| #[trigger] node_at(nodes, c1, p) == Some(j);
        let p2 = choose|p: Seq<char>| #[trigger] node_at(nodes, c2, p) == Some(j);
        lemma_node_at_cons(nodes, i, m1, p1);
        lemma_node_at_cons(nodes, i, m2, p2);
        let q1 = seq![nodes[i].children@[m1].0] + p1;
        let q2 = seq![nodes[i].children@[m2].0] + p2;
        assert(node_at(nodes, i, q1) == Some(j));
        assert(node_at(nodes, i, q2) == Some(j));
        assert(q1 == q2);
        assert(q1[0] == q2[0]);
        assert(node_wf(nodes, i));
        assert(nodes[i].children@[m1].0 != nodes[i].children@[m2].0);
    }
}

/// Injectivity is inherited by every child's subtree.
proof fn lemma_inj_child(nodes: Seq<PersistentNode>, i: int, m: int)
    requires
        nodes_wf(nodes),
        inj_from(nodes, i),
        0 <= i < nodes.len(),
        0 <= m < nodes[i].children@.len(),
    ensures
        inj_from(nodes, nodes[i].children@[m].1 as int),
{
    let c = nodes[i].children@[m].1 as int;
    let key = nodes[i].children@[m].0;
    assert forall|p1: Seq<char>, p2: Seq<char>|
        #[trigger] node_at(nodes, c, p1) is Some && node_at(nodes, c, p1) == #[trigger] node_at(
            nodes,
            c,
            p2,
        ) implies p1 == p2 by {
        lemma_node_at_cons(nodes, i, m, p1);
        lemma_node_at_cons(nodes, i, m, p2);
        let q1 = seq![key] + p1;
        let q2 = seq![key] + p2;
        assert(node_at(nodes, i, q1) == node_at(nodes, i, q2));
        assert(q1 == q2);
        assert(q1.drop_first() =~= p1);
        assert(q2.drop_first() =~= p2);
        assert(p1 == p2);
    }
}

} // verus!

verus! {

impl PersistentTrie {
    /// Walks the subtree under slot `i`, recording `father` for `i` and
    /// `Some(parent)` for every slot below it.  Slots outside the
    /// subtree keep their entries.
    fn maintain_rec(
        nodes: &Vec<PersistentNode>,
        fathers: &mut Vec<Option<usize>>,
        i: usize,
        father: Option<usize>,
    )
        requires
            nodes_wf(nodes@),
            (i as int) < nodes@.len(),
            old(fathers)@.len() == nodes@.len(),
            inj_from(nodes@, i as int),
        ensures
            final(fathers)@.len() == nodes@.len(),
            final(fathers)@[i as int] == father,
            forall|j: int|
                0 <= j < nodes@.len() && !reaches(nodes@, i as int, j) ==> final(fathers)@[j]
                    == old(fathers)@[j],
            fathered(nodes@, final(fathers)@, i as int),
        decreases i,
    {
        fathers.set(i, father);
        proof {
            assert(node_at(nodes@, i as int, Seq::<char>::empty()) == Some(i as int));
        }
        let n_kids = nodes[i].children.len();
        let mut m: usize = 0;
        while m < n_kids
            invariant
                nodes_wf(nodes@),
                (i as int) < nodes@.len(),
                inj_from(nodes@, i as int),
                n_kids == nodes@[i as int].children@.len(),
                m <= n_kids,
                fathers@.len() == nodes@.len(),
                fathers@[i as int] == father,
                forall|j: int|
                    0 <= j < nodes@.len() && !reaches(nodes@, i as int, j) ==> fathers@[j]
                        == old(fathers)@[j],
                forall|m2: int|
                    0 <= m2 < m ==> fathers@[(#[trigger] nodes@[i as int].children@[m2]).1 as int]
                        == Some(i),
                forall|m2: int|
                    0 <= m2 < m ==> fathered(
                        nodes@,
                        fathers@,
                        (#[trigger] nodes@[i as int].children@[m2]).1 as int,
                    ),
            decreases n_kids - m,
        {
            let pair = nodes[i].children[m];
            proof {
                assert(node_wf(nodes@, i as int));
                assert(nodes@[i as int].children@[m as int].1 < i);
                lemma_inj_child(nodes@, i as int, m as int);
            }
            let ghost pre = fathers@;
            Self::maintain_rec(nodes, fathers, pair.1, Some(i));
            proof {
                let kids = nodes@[i as int].children@;
                let c = pair.1 as int;
                // nothing under the child reaches back up to `i`
                assert(!reaches(nodes@, c, i as int)) by {
                    if reaches(nodes@, c, i as int) {
                        let p = choose|p: Seq<char>|
                            #[trigger] node_at(nodes@, c, p) == Some(i as int);
                        lemma_node_at_bound(nodes@, c, p);
                    }
                }
                assert(fathers@[i as int] == father);
                // global frame: what `i` cannot reach, the child cannot either
                assert forall|j: int|
                    0 <= j < nodes@.len() && !reaches(nodes@, i as int, j) implies fathers@[j]
                    == old(fathers)@[j] by {
                    if reaches(nodes@, c, j) {
                        lemma_reach_lift(nodes@, i as int, m as int, j);
                    }
                    assert(fathers@[j] == pre[j]);
                }
                // earlier children stay settled: their subtrees share no slot
                // with the one just walked
                assert forall|m2: int| 0 <= m2 < m + 1 implies fathers@[(
                #[trigger] kids[m2]).1 as int] == Some(i) && fathered(
                    nodes@,
                    fathers@,
                    kids[m2].1 as int,
                ) by {
                    let c2 = kids[m2].1 as int;
                    if m2 == m {
                        assert(fathers@[c2] == Some(i));
                    } else {
                        assert(node_wf(nodes@, i as int));
                        assert(0 <= c2 < nodes@.len());
                        assert(reaches(nodes@, c2, c2)) by {
                            assert(node_at(nodes@, c2, Seq::<char>::empty()) == Some(c2));
                        }
                        lemma_sibling_disjoint(nodes@, i as int, m2, m as int, c2);
                        assert(fathers@[c2] == pre[c2]);
                        assert forall|p: Seq<char>, kk: char|
                            #[trigger] node_at(nodes@, c2, p.push(kk)) is Some implies fathers@[node_at(
                            nodes@,
                            c2,
                            p.push(kk),
                        )->Some_0] == Some(node_at(nodes@, c2, p)->Some_0 as usize) by {
                            let n = node_at(nodes@, c2, p.push(kk))->Some_0;
                            lemma_node_at_bound(nodes@, c2, p.push(kk));
                            assert(reaches(nodes@, c2, n));
                            lemma_sibling_disjoint(nodes@, i as int, m2, m as int, n);
                            assert(fathers@[n] == pre[n]);
                            assert(fathered(nodes@, pre, c2));
                        }
                    }
                }
            }
            m = m + 1;
        }
        proof {
            // lift the per-child facts to every non-empty walk from `i`
            let kids = nodes@[i as int].children@;
            assert forall|p: Seq<char>, k: char|
                #[trigger] node_at(nodes@, i as int, p.push(k)) is Some implies fathers@[node_at(
                nodes@,
                i as int,
                p.push(k),
            )->Some_0] == Some(node_at(nodes@, i as int, p)->Some_0 as usize) by {
                assert(node_wf(nodes@, i as int));
                if p.len() == 0 {
                    assert(p =~= Seq::<char>::empty());
                    assert(node_at(nodes@, i as int, p) == Some(i as int));
                    lemma_node_at_snoc(nodes@, i as int, p, k);
                    lemma_assoc_get_some(kids, k);
                    let j0 = choose|j0: int|
                        0 <= j0 < kids.len() && (#[trigger] kids[j0]).0 == k && kids[j0].1
                            == assoc_get(kids, k)->Some_0;
                    assert(kids[j0].1 < i);
                    assert(node_at(nodes@, i as int, p.push(k)) == Some(kids[j0].1 as int));
                    assert(fathers@[kids[j0].1 as int] == Some(i));
                } else {
                    assert(p.push(k)[0] == p[0]);
                    assert(p.push(k).drop_first() =~= p.drop_first().push(k));
                    lemma_assoc_get_some(kids, p[0]);
                    let j0 = choose|j0: int|
                        0 <= j0 < kids.len() && (#[trigger] kids[j0]).0 == p[0] && kids[j0].1
                            == assoc_get(kids, p[0])->Some_0;
                    let c0 = kids[j0].1 as int;
                    assert(node_at(nodes@, i as int, p.push(k)) == node_at(
                        nodes@,
                        c0,
                        p.drop_first().push(k),
                    ));
                    assert(node_at(nodes@, i as int, p) == node_at(nodes@, c0, p.drop_first()));
                    assert(fathered(nodes@, fathers@, c0));
                }
            }
        }
    }

    /// Fills in every reachable node's father back-reference, the root's
    /// with none.  The tree's structure — every walk, every value — is
    /// untouched; afterwards the back-references are correct for the
    /// whole tree.
    pub fn maintain(&mut self)
        requires
            old(self).wf(),
        ensures
            final(self).wf(),
            final(self).nodes@ == old(self).nodes@,
            final(self).root == old(self).root,
            final(self).maintained(),
    {
        let rt = self.root;
        Self::maintain_rec(&self.nodes, &mut self.fathers, rt, None);
    }
}

} // verus!

verus! {

/// The subtree slots under `i`, depth first, the slot itself in front.
pub open spec fn flatten_spec(nodes: Seq<PersistentNode>, i: int) -> Seq<usize>
    decreases i, nodes[i].children@.len() + 1,
    when 0 <= i < nodes.len() && nodes_wf(nodes)
{
    seq![i as usize] + flatten_kids(nodes, nodes[i].children@, i)
}

/// The concatenated subtrees of a children list, left to right; `bound`
/// is a slot all the children lie strictly below.
pub open spec fn flatten_kids(
    nodes: Seq<PersistentNode>,
    kids: Seq<(char, usize)>,
    bound: int,
) -> Seq<usize>
    decreases bound, kids.len(), 0int,
    when nodes_wf(nodes) && bound <= nodes.len() && (forall|j: int|
        0 <= j < kids.len() ==> (#[trigger] kids[j]).1 < bound)
{
    if kids.len() == 0 {
        Seq::empty()
    } else {
        flatten_spec(nodes, kids[0].1 as int) + flatten_kids(nodes, kids.drop_first(), bound)
    }
}

/// Flattening one more child appends that child's subtree.
proof fn lemma_flatten_kids_snoc(
    nodes: Seq<PersistentNode>,
    kids: Seq<(char, usize)>,
    x: (char, usize),
    bound: int,
)
    requires
        nodes_wf(nodes),
        bound <= nodes.len(),
        forall|j: int| 0 <= j < kids.len() ==> (#[trigger] kids[j]).1 < bound,
        x.1 < bound,
    ensures
        flatten_kids(nodes, kids.push(x), bound) == flatten_kids(nodes, kids, bound)
            + flatten_spec(nodes, x.1 as int),
    decreases kids.len(),
{
    assert forall|j: int| 0 <= j < kids.push(x).len() implies (#[trigger] kids.push(x)[j]).1
        < bound by {}
    if kids.len() == 0 {
        assert(kids.push(x)[0] == x);
        assert(kids.push(x).drop_first() =~= kids);
        assert(flatten_kids(nodes, kids.push(x), bound) == flatten_spec(nodes, x.1 as int)
            + flatten_kids(nodes, kids, bound));
        assert(flatten_kids(nodes, kids, bound) == Seq::<usize>::empty());
        assert(flatten_kids(nodes, kids.push(x), bound) =~= flatten_kids(nodes, kids, bound)
            + flatten_spec(nodes, x.1 as int));
    } else {
        assert(kids.push(x)[0] == kids[0]);
        assert(kids.push(x).drop_first() =~= kids.drop_first().push(x));
        lemma_flatten_kids_snoc(nodes, kids.drop_first(), x, bound);
        assert(flatten_kids(nodes, kids.push(x), bound) =~= flatten_kids(nodes, kids, bound)
            + flatten_spec(nodes, x.1 as int));
    }
}

impl PersistentNode {
    /// The arena slot of the child under `key` when it exists; otherwise
    /// appends a fresh empty child and a copy of slot `i` that adopts
    /// it, and returns the copy's slot, leaving old slots untouched.
    pub fn child_or_default(nodes: &mut Vec<PersistentNode>, i: usize, key: char) -> (r: usize)
        requires
            nodes_wf(old(nodes)@),
            i < old(nodes)@.len(),
        ensures
            nodes_wf(final(nodes)@),
            forall|j: int| 0 <= j < old(nodes)@.len() ==> final(nodes)@[j] == old(nodes)@[j],
            match assoc_get(old(nodes)@[i as int].children@, key) {
                Some(c) => r == c && final(nodes)@ == old(nodes)@,
                None => {
                    &&& final(nodes)@.len() == old(nodes)@.len() + 2
                    &&& r == final(nodes)@.len() - 1
                    &&& final(nodes)@[r as int].values@ == old(nodes)@[i as int].values@
                    &&& final(nodes)@[r as int].children@ == old(
                        nodes,
                    )@[i as int].children@.push((key, old(nodes)@.len() as usize))
                    &&& final(nodes)@[old(nodes)@.len() as int].children@.len() == 0
                    &&& final(nodes)@[old(nodes)@.len() as int].values@.len() == 0
                },
            },
    {
        let c_opt = nodes[i].child(key);
        match c_opt {
            Some(c) => c,
            None => {
                nodes.push(PersistentNode::new());
                let f = nodes.len() - 1;
                let mut children = copy_children(&nodes[i].children);
                children.push((key, f));
                let values = copy_values(&nodes[i].values);
                nodes.push(PersistentNode { children, values });
                let r = nodes.len() - 1;
                proof {
                    let old_kids = old(nodes)@[i as int].children@;
                    lemma_assoc_get_none(old_kids, key);
                    assert forall|x: int| 0 <= x < nodes@.len() implies #[trigger] node_wf(
                        nodes@,
                        x,
                    ) by {
                        if x < old(nodes)@.len() {
                            assert(node_wf(old(nodes)@, x));
                        } else if x == f {
                            assert(nodes@[x].children@.len() == 0);
                        } else {
                            let new_kids = nodes@[r as int].children@;
                            assert(node_wf(old(nodes)@, i as int));
                            assert forall|a: int, b: int|
                                0 <= a < b < new_kids.len() implies (#[trigger] new_kids[a]).0 != (
                            #[trigger] new_kids[b]).0 by {
                                if b < new_kids.len() - 1 {
                                    assert(old_kids[a].0 != old_kids[b].0);
                                }
                            }
                            assert forall|j: int| 0 <= j < new_kids.len() implies (
                            #[trigger] new_kids[j]).1 < x by {
                                if j < new_kids.len() - 1 {
                                    assert(old_kids[j].1 < i);
                                }
                            }
                        }
                    }
                }
                r
            },
        }
    }

    /// All the slots of the subtree under `i`, depth first.
    pub fn flatten(nodes: &Vec<PersistentNode>, i: usize) -> (r: Vec<usize>)
        requires
            nodes_wf(nodes@),
            i < nodes@.len(),
        ensures
            r@ == flatten_spec(nodes@, i as int),
        decreases i,
    {
        let mut r: Vec<usize> = Vec::new();
        r.push(i);
        let n_kids = nodes[i].children.len();
        let mut m: usize = 0;
        proof {
            assert(node_wf(nodes@, i as int));
            assert(nodes@[i as int].children@.take(0) =~= Seq::<(char, usize)>::empty());
            assert(r@ =~= seq![i] + flatten_kids(nodes@, nodes@[i as int].children@.take(0), i as int));
        }
        while m < n_kids
            invariant
                nodes_wf(nodes@),
                i < nodes@.len(),
                node_wf(nodes@, i as int),
                n_kids == nodes@[i as int].children@.len(),
                m <= n_kids,
                r@ == seq![i] + flatten_kids(
                    nodes@,
                    nodes@[i as int].children@.take(m as int),
                    i as int,
                ),
            decreases n_kids - m,
        {
            let pair = nodes[i].children[m];
            proof {
                assert(nodes@[i as int].children@[m as int].1 < i);
            }
            let mut sub = Self::flatten(nodes, pair.1);
            r.append(&mut sub);
            proof {
                let kids = nodes@[i as int].children@;
                assert(kids.take(m as int + 1) =~= kids.take(m as int).push(kids[m as int]));
                lemma_flatten_kids_snoc(nodes@, kids.take(m as int), kids[m as int], i as int);
                assert(r@ =~= seq![i] + flatten_kids(nodes@, kids.take(m as int + 1), i as int));
            }
            m = m + 1;
        }
        proof {
            let kids = nodes@[i as int].children@;
            assert(kids.take(kids.len() as int) =~= kids);
        }
        r
    }
}

} // verus!
