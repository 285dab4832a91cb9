//! The per-session input context: walks the persistent trie as code
//! characters arrive and ranks candidate completions.

use vstd::prelude::*;
use crate::candidate::{Candidate, MatchType};
use crate::engine::{BackspaceResult, ContextId};
use crate::persistent_trie::{PersistentNode, PersistentTrie, assoc_get, node_at, nodes_wf, node_wf, fathered, lemma_node_at_snoc, lemma_assoc_get_some, lemma_node_at_bound};
use crate::text::{copy_chars, string_of_chars};

verus! {

/// One dictionary entry's payload: the text it produces and its
/// dictionary-supplied priority (higher is preferred).
#[derive(Debug)]
pub struct ResultText {
    pub text: String,
    pub priority: u32,
}

impl View for ResultText {
    type V = (Seq<char>, u32);

    open spec fn view(&self) -> (Seq<char>, u32) {
        (self.text@, self.priority)
    }
}

impl ResultText {
    /// An exact copy (`String::clone` preserves the value).
    pub fn dup(&self) -> (r: ResultText)
        ensures
            r == *self,
    {
        ResultText { text: self.text.clone(), priority: self.priority }
    }
}

} // verus!

verus! {

/// The ghost shape of a flattened candidate: what the ranker sorts.
pub struct ItemModel {
    pub text: Seq<char>,
    pub depth: int,
    pub codes: Seq<char>,
    pub priority: u32,
}

/// One entry found under the current position: its text, how many code
/// units below the position it sits, the code units still to type to
/// reach it, and its dictionary priority.
#[derive(Debug)]
pub struct FlattenItem {
    pub text: String,
    pub depth: usize,
    pub codes: Vec<char>,
    pub priority: u32,
}

impl View for FlattenItem {
    type V = ItemModel;

    open spec fn view(&self) -> ItemModel {
        ItemModel {
            text: self.text@,
            depth: self.depth as int,
            codes: self.codes@,
            priority: self.priority,
        }
    }
}

/// The ghost shapes of a list of items.
pub open spec fn models(items: Seq<FlattenItem>) -> Seq<ItemModel> {
    items.map_values(|it: FlattenItem| it@)
}

/// The ranking policy: `a` must come strictly before `b` when it is
/// shallower, or equally deep with a higher priority.
pub open spec fn item_before(a: ItemModel, b: ItemModel) -> bool {
    a.depth < b.depth || (a.depth == b.depth && a.priority > b.priority)
}

/// A list is ranked when no later item must come before an earlier one.
pub open spec fn ranked(s: Seq<ItemModel>) -> bool {
    forall|a: int, b: int| 0 <= a < b < s.len() ==> !item_before(#[trigger] s[b], #[trigger] s[a])
}

/// Stable insertion: `x` goes after every item it need not precede.
pub open spec fn insert_sorted(s: Seq<ItemModel>, x: ItemModel) -> Seq<ItemModel>
    decreases s.len(),
{
    if s.len() == 0 {
        seq![x]
    } else if item_before(x, s.last()) {
        insert_sorted(s.drop_last(), x).push(s.last())
    } else {
        s.push(x)
    }
}

/// Stable sort by the ranking policy: items are inserted left to right,
/// so equal-rank items keep their traversal order.
pub open spec fn sort_items(s: Seq<ItemModel>) -> Seq<ItemModel>
    decreases s.len(),
{
    if s.len() == 0 {
        Seq::empty()
    } else {
        insert_sorted(sort_items(s.drop_last()), s.last())
    }
}

/// Inserting keeps a ranked list ranked, adds one slot, and adds no item
/// that was not there.
proof fn lemma_insert_sorted_ranked(s: Seq<ItemModel>, x: ItemModel)
    requires
        ranked(s),
    ensures
        ranked(insert_sorted(s, x)),
        insert_sorted(s, x).len() == s.len() + 1,
        forall|j: int|
            0 <= j < insert_sorted(s, x).len() ==> insert_sorted(s, x)[j] == x || exists|a: int|
                0 <= a < s.len() && insert_sorted(s, x)[j] == #[trigger] s[a],
    decreases s.len(),
{
    if s.len() == 0 {
    } else if item_before(x, s.last()) {
        assert(ranked(s.drop_last())) by {
            assert forall|a: int, b: int| 0 <= a < b < s.drop_last().len() implies !item_before(
                #[trigger] s.drop_last()[b],
                #[trigger] s.drop_last()[a],
            ) by {
                assert(s.drop_last()[a] == s[a]);
                assert(s.drop_last()[b] == s[b]);
            }
        }
        lemma_insert_sorted_ranked(s.drop_last(), x);
        let r0 = insert_sorted(s.drop_last(), x);
        let r = r0.push(s.last());
        assert forall|a: int, b: int| 0 <= a < b < r.len() implies !item_before(
            #[trigger] r[b],
            #[trigger] r[a],
        ) by {
            if b < r.len() - 1 {
                assert(r[a] == r0[a] && r[b] == r0[b]);
            } else {
                assert(r[b] == s.last());
                assert(r[a] == r0[a]);
                if r0[a] == x {
                } else {
                    let w = choose|w: int| 0 <= w < s.drop_last().len() && r0[a] == #[trigger] s
                        .drop_last()[w];
                    assert(s.drop_last()[w] == s[w]);
                    assert(!item_before(s.last(), s[w]));
                }
            }
        }
        assert forall|j: int| 0 <= j < r.len() implies r[j] == x || exists|a: int|
            0 <= a < s.len() && r[j] == #[trigger] s[a] by {
            if j < r.len() - 1 {
                if r0[j] != x {
                    let w = choose|w: int| 0 <= w < s.drop_last().len() && r0[j] == #[trigger] s
                        .drop_last()[w];
                    assert(r[j] == s[w]);
                }
            } else {
                assert(r[j] == s[s.len() - 1]);
            }
        }
    } else {
        let r = s.push(x);
        assert forall|a: int, b: int| 0 <= a < b < r.len() implies !item_before(
            #[trigger] r[b],
            #[trigger] r[a],
        ) by {
            if b == r.len() - 1 {
                assert(r[a] == s[a]);
                assert(!item_before(x, s.last()));
                if a < s.len() - 1 {
                    assert(!item_before(s.last(), s[a]));
                }
            } else {
                assert(r[a] == s[a] && r[b] == s[b]);
            }
        }
        assert forall|j: int| 0 <= j < r.len() implies r[j] == x || exists|a: int|
            0 <= a < s.len() && r[j] == #[trigger] s[a] by {
            if j < r.len() - 1 {
                assert(r[j] == s[j]);
            }
        }
    }
}

/// The ranking-order law: however the entries were gathered, the sorted
/// list is ranked — shallower entries first, higher priority first among
/// equally deep ones — and keeps every item.
pub proof fn lemma_sort_items_ranked(s: Seq<ItemModel>)
    ensures
        ranked(sort_items(s)),
        sort_items(s).len() == s.len(),
    decreases s.len(),
{
    if s.len() > 0 {
        lemma_sort_items_ranked(s.drop_last());
        lemma_insert_sorted_ranked(sort_items(s.drop_last()), s.last());
    }
}

} // verus!

verus! {

/// Sorts the gathered items by the ranking policy with a stable
/// insertion sort: the result is exactly the stable sort of the input.
fn sort_flatten_items(items: Vec<FlattenItem>) -> (r: Vec<FlattenItem>)
    ensures
        models(r@) == sort_items(models(items@)),
{
    let ghost orig = items@;
    let mut input = items;
    let mut out: Vec<FlattenItem> = Vec::new();
    proof {
        assert(models(orig.take(0)) =~= Seq::<ItemModel>::empty());
        assert(models(out@) =~= sort_items(models(orig.take(0))));
        assert(input@ =~= orig.skip(0));
    }
    while input.len() > 0
        invariant
            input@.len() <= orig.len(),
            input@ == orig.skip(orig.len() - input@.len()),
            models(out@) == sort_items(models(orig.take(orig.len() - input@.len()))),
        decreases input@.len(),
    {
        let ghost done = orig.len() - input@.len();
        let ghost prev = input@;
        let x = input.remove(0);
        proof {
            assert(prev == orig.skip(done));
            assert(orig.skip(done)[0] == orig[done]);
            assert(x == orig[done]);
            assert(input@ == prev.remove(0));
            assert forall|j: int| 0 <= j < input@.len() implies input@[j] == orig.skip(
                done + 1,
            )[j] by {
                assert(prev.remove(0)[j] == prev[j + 1]);
                assert(prev[j + 1] == orig.skip(done)[j + 1]);
                assert(orig.skip(done)[j + 1] == orig[done + j + 1]);
                assert(orig.skip(done + 1)[j] == orig[done + 1 + j]);
            }
            assert(input@ =~= orig.skip(done + 1));
        }
        let mut pos = out.len();
        proof {
            assert(models(out@).take(pos as int) =~= models(out@));
            assert(models(out@).skip(pos as int) =~= Seq::<ItemModel>::empty());
            assert(insert_sorted(models(out@), x@) =~= insert_sorted(
                models(out@).take(pos as int),
                x@,
            ) + models(out@).skip(pos as int));
        }
        while pos > 0 && (out[pos - 1].depth > x.depth || (out[pos - 1].depth == x.depth
            && out[pos - 1].priority < x.priority))
            invariant
                pos <= out@.len(),
                insert_sorted(models(out@), x@) == insert_sorted(
                    models(out@).take(pos as int),
                    x@,
                ) + models(out@).skip(pos as int),
            decreases pos,
        {
            proof {
                let ms = models(out@);
                assert(item_before(x@, ms[pos - 1]));
                assert(ms.take(pos as int).last() == ms[pos - 1]);
                assert(ms.take(pos as int).drop_last() =~= ms.take(pos as int - 1));
                assert(insert_sorted(ms.take(pos as int), x@) == insert_sorted(
                    ms.take(pos as int - 1),
                    x@,
                ).push(ms[pos - 1]));
                assert(insert_sorted(ms.take(pos as int - 1), x@).push(ms[pos - 1]) + ms.skip(
                    pos as int,
                ) =~= insert_sorted(ms.take(pos as int - 1), x@) + ms.skip(pos as int - 1));
            }
            pos = pos - 1;
        }
        proof {
            let ms = models(out@);
            if pos == 0 {
                assert(ms.take(0) =~= Seq::<ItemModel>::empty());
                assert(insert_sorted(ms.take(0), x@) =~= seq![x@]);
                assert(seq![x@] + ms.skip(0) =~= ms.insert(0, x@));
            } else {
                assert(ms.take(pos as int).last() == ms[pos - 1]);
                assert(!item_before(x@, ms[pos - 1]));
                assert(insert_sorted(ms.take(pos as int), x@) == ms.take(pos as int).push(x@));
                assert(ms.take(pos as int).push(x@) + ms.skip(pos as int) =~= ms.insert(
                    pos as int,
                    x@,
                ));
            }
        }
        let ghost before = out@;
        out.insert(pos, x);
        proof {
            assert(models(out@) =~= models(before).insert(pos as int, x@)) by {
                assert forall|j: int| 0 <= j < models(out@).len() implies models(out@)[j]
                    == models(before).insert(pos as int, x@)[j] by {
                    models(before).insert_ensures(pos as int, x@);
                    if j < pos {
                        assert(out@[j] == before[j]);
                    } else if j == pos {
                        assert(out@[j] == x);
                    } else {
                        assert(out@[j] == before[j - 1]);
                    }
                }
            }
            assert(models(before).insert(pos as int, x@) =~= insert_sorted(models(before), x@));
            assert(models(orig.take(done + 1)).drop_last() =~= models(orig.take(done)));
            assert(models(orig.take(done + 1)).last() == x@);
        }
    }
    proof {
        assert(orig.take(orig.len() as int) =~= orig);
    }
    out
}

} // verus!

verus! {

/// The items contributed by one node's value list: one item per value,
/// at the depth and remaining codes of that node.
pub open spec fn node_items(vals: Seq<ResultText>, prefix: Seq<char>) -> Seq<ItemModel> {
    vals.map_values(
        |v: ResultText|
            ItemModel {
                text: v.text@,
                depth: prefix.len() as int,
                codes: prefix,
                priority: v.priority,
            },
    )
}

/// Every item in the subtree under slot `i`: the node's own values, then
/// each child's subtree in children order, with `prefix` recording the
/// code units walked so far.
pub open spec fn items_spec(nodes: Seq<PersistentNode>, i: int, prefix: Seq<char>) -> Seq<
    ItemModel,
>
    decreases i, nodes[i].children@.len() + 1,
    when 0 <= i < nodes.len() && nodes_wf(nodes)
{
    node_items(nodes[i].values@, prefix) + items_kids(nodes, nodes[i].children@, i, prefix)
}

/// The concatenated item lists of a children list, left to right.
pub open spec fn items_kids(
    nodes: Seq<PersistentNode>,
    kids: Seq<(char, usize)>,
    bound: int,
    prefix: Seq<char>,
) -> Seq<ItemModel>
    decreases bound, kids.len(), 0int,
    when nodes_wf(nodes) && bound <= nodes.len() && (forall|j: int|
        0 <= j < kids.len() ==> (#[trigger] kids[j]).1 < bound)
{
    if kids.len() == 0 {
        Seq::empty()
    } else {
        items_spec(nodes, kids[0].1 as int, prefix.push(kids[0].0)) + items_kids(
            nodes,
            kids.drop_first(),
            bound,
            prefix,
        )
    }
}

/// Collecting one more child appends that child's subtree items.
proof fn lemma_items_kids_snoc(
    nodes: Seq<PersistentNode>,
    kids: Seq<(char, usize)>,
    x: (char, usize),
    bound: int,
    prefix: Seq<char>,
)
    requires
        nodes_wf(nodes),
        bound <= nodes.len(),
        forall|j: int| 0 <= j < kids.len() ==> (#[trigger] kids[j]).1 < bound,
        x.1 < bound,
    ensures
        items_kids(nodes, kids.push(x), bound, prefix) == items_kids(nodes, kids, bound, prefix)
            + items_spec(nodes, x.1 as int, prefix.push(x.0)),
    decreases kids.len(),
{
    assert forall|j: int| 0 <= j < kids.push(x).len() implies (#[trigger] kids.push(x)[j]).1
        < bound by {}
    if kids.len() == 0 {
        assert(kids.push(x)[0] == x);
        assert(kids.push(x).drop_first() =~= kids);
        assert(items_kids(nodes, kids, bound, prefix) == Seq::<ItemModel>::empty());
        assert(items_kids(nodes, kids.push(x), bound, prefix) =~= items_kids(
            nodes,
            kids,
            bound,
            prefix,
        ) + items_spec(nodes, x.1 as int, prefix.push(x.0)));
    } else {
        assert(kids.push(x)[0] == kids[0]);
        assert(kids.push(x).drop_first() =~= kids.drop_first().push(x));
        lemma_items_kids_snoc(nodes, kids.drop_first(), x, bound, prefix);
        assert(items_kids(nodes, kids.push(x), bound, prefix) =~= items_kids(
            nodes,
            kids,
            bound,
            prefix,
        ) + items_spec(nodes, x.1 as int, prefix.push(x.0)));
    }
}

/// Walks the subtree under slot `i` and pushes one item per attached
/// value, in traversal order.
fn collect_items(trie: &PersistentTrie, i: usize, codes: &Vec<char>, out: &mut Vec<FlattenItem>)
    requires
        nodes_wf(trie.nodes@),
        i < trie.nodes@.len(),
    ensures
        models(final(out)@) == models(old(out)@) + items_spec(trie.nodes@, i as int, codes@),
    decreases i,
{
    let ghost base = models(old(out)@);
    let node = trie.node(i);
    proof {
        assert(node_wf(trie.nodes@, i as int));
        assert(trie.nodes@[i as int].values@.take(0) =~= Seq::<ResultText>::empty());
        assert(node_items(trie.nodes@[i as int].values@.take(0), codes@) =~= Seq::<
            ItemModel,
        >::empty());
        assert(models(out@) =~= base + node_items(
            trie.nodes@[i as int].values@.take(0),
            codes@,
        ));
    }
    let mut m: usize = 0;
    while m < node.values.len()
        invariant
            nodes_wf(trie.nodes@),
            i < trie.nodes@.len(),
            *node == trie.nodes@[i as int],
            m <= node.values@.len(),
            models(out@) == base + node_items(trie.nodes@[i as int].values@.take(m as int), codes@),
        decreases node.values@.len() - m,
    {
        let v = node.values[m].dup();
        let ghost vm = v;
        let item = FlattenItem {
            text: v.text,
            depth: codes.len(),
            codes: copy_chars(codes),
            priority: v.priority,
        };
        let ghost prevout = out@;
        out.push(item);
        proof {
            let vals = trie.nodes@[i as int].values@;
            assert(vm == vals[m as int]);
            assert(models(out@) =~= models(prevout).push(item@)) by {
                assert forall|j: int| 0 <= j < models(out@).len() implies models(out@)[j]
                    == models(prevout).push(item@)[j] by {
                    if j < prevout.len() {
                        assert(out@[j] == prevout[j]);
                    } else {
                        assert(out@[j] == item);
                    }
                }
            }
            assert(item@ == ItemModel {
                text: vals[m as int].text@,
                depth: codes@.len() as int,
                codes: codes@,
                priority: vals[m as int].priority,
            });
            assert(vals.take(m + 1) =~= vals.take(m as int).push(vals[m as int]));
            assert(node_items(vals.take(m + 1), codes@) =~= node_items(
                vals.take(m as int),
                codes@,
            ).push(item@));
            assert((base + node_items(vals.take(m as int), codes@)).push(item@) =~= base
                + node_items(vals.take(m as int), codes@).push(item@));
            assert(models(out@) =~= base + node_items(vals.take(m + 1), codes@));
        }
        m = m + 1;
    }
    proof {
        let vals = trie.nodes@[i as int].values@;
        assert(vals.take(vals.len() as int) =~= vals);
        assert(trie.nodes@[i as int].children@.take(0) =~= Seq::<(char, usize)>::empty());
        assert(items_kids(trie.nodes@, trie.nodes@[i as int].children@.take(0), i as int, codes@)
            =~= Seq::<ItemModel>::empty());
        assert(models(out@) =~= base + node_items(vals, codes@) + items_kids(
            trie.nodes@,
            trie.nodes@[i as int].children@.take(0),
            i as int,
            codes@,
        ));
    }
    let mut m2: usize = 0;
    while m2 < node.children.len()
        invariant
            nodes_wf(trie.nodes@),
            i < trie.nodes@.len(),
            *node == trie.nodes@[i as int],
            m2 <= node.children@.len(),
            models(out@) == base + node_items(trie.nodes@[i as int].values@, codes@) + items_kids(
                trie.nodes@,
                trie.nodes@[i as int].children@.take(m2 as int),
                i as int,
                codes@,
            ),
        decreases node.children@.len() - m2,
    {
        let pair = node.children[m2];
        proof {
            assert(node_wf(trie.nodes@, i as int));
            assert(trie.nodes@[i as int].children@[m2 as int].1 < i);
        }
        let mut codes2 = copy_chars(codes);
        codes2.push(pair.0);
        collect_items(trie, pair.1, &codes2, out);
        proof {
            let kids = trie.nodes@[i as int].children@;
            assert(kids.take(m2 + 1) =~= kids.take(m2 as int).push(kids[m2 as int]));
            assert forall|j: int| 0 <= j < kids.take(m2 as int).len() implies (#[trigger] kids.take(
                m2 as int,
            )[j]).1 < i by {
                assert(kids.take(m2 as int)[j] == kids[j]);
            }
            lemma_items_kids_snoc(trie.nodes@, kids.take(m2 as int), kids[m2 as int], i as int, codes@);
            assert(models(out@) =~= base + node_items(trie.nodes@[i as int].values@, codes@)
                + items_kids(trie.nodes@, kids.take(m2 + 1), i as int, codes@));
        }
        m2 = m2 + 1;
    }
    proof {
        let kids = trie.nodes@[i as int].children@;
        assert(kids.take(kids.len() as int) =~= kids);
        assert(models(out@) =~= base + items_spec(trie.nodes@, i as int, codes@));
    }
}

} // verus!

verus! {

/// The items under `cur`, ranked by the sorting policy.
pub open spec fn ranked_items(nodes: Seq<PersistentNode>, cur: int) -> Seq<ItemModel> {
    sort_items(items_spec(nodes, cur, Seq::empty()))
}

/// The candidate a ranked item becomes: perfect when nothing remains to
/// be typed, prefix otherwise.
pub open spec fn cand_of(m: ItemModel) -> (Seq<char>, Seq<char>, MatchType) {
    (
        m.text,
        m.codes,
        if m.codes.len() == 0 {
            MatchType::PerfectMatch
        } else {
            MatchType::PrefixMatch
        },
    )
}

/// The candidates a ranked item list becomes.
pub open spec fn cand_models(s: Seq<ItemModel>) -> Seq<(Seq<char>, Seq<char>, MatchType)> {
    s.map_values(|m: ItemModel| cand_of(m))
}

/// The ghost shapes of produced candidates.
pub open spec fn cand_views(cs: Seq<Candidate>) -> Seq<(Seq<char>, Seq<char>, MatchType)> {
    cs.map_values(|c: Candidate| c@)
}

/// Converts ranked items into candidate values, in order.
fn to_candidates(items: &Vec<FlattenItem>) -> (r: Vec<Candidate>)
    ensures
        cand_views(r@) == cand_models(models(items@)),
{
    let mut r: Vec<Candidate> = Vec::new();
    let mut m: usize = 0;
    proof {
        assert(models(items@.take(0)) =~= Seq::<ItemModel>::empty());
        assert(cand_views(r@) =~= cand_models(models(items@.take(0))));
    }
    while m < items.len()
        invariant
            m <= items@.len(),
            cand_views(r@) == cand_models(models(items@.take(m as int))),
        decreases items@.len() - m,
    {
        let it = &items[m];
        let text = it.text.clone();
        let codes = copy_chars(&it.codes);
        let c = Candidate::new(text, codes);
        let ghost prevr = r@;
        r.push(c);
        proof {
            assert(c@ == cand_of(items@[m as int]@));
            assert(cand_views(r@) =~= cand_views(prevr).push(c@)) by {
                assert forall|j: int| 0 <= j < cand_views(r@).len() implies cand_views(r@)[j]
                    == cand_views(prevr).push(c@)[j] by {
                    if j < prevr.len() {
                        assert(r@[j] == prevr[j]);
                    } else {
                        assert(r@[j] == c);
                    }
                }
            }
            assert(models(items@.take(m + 1)) =~= models(items@.take(m as int)).push(
                items@[m as int]@,
            ));
            assert(cand_models(models(items@.take(m + 1))) =~= cand_models(
                models(items@.take(m as int)),
            ).push(cand_of(items@[m as int]@)));
            assert(cand_views(r@) =~= cand_models(models(items@.take(m + 1))));
        }
        m = m + 1;
    }
    proof {
        assert(items@.take(items@.len() as int) =~= items@);
    }
    r
}

/// The ghost state of an input session: everything typed so far, how
/// many trailing codes found no match, and the current tree slot.
pub struct CtxModel {
    pub id: u32,
    pub input: Seq<char>,
    pub overflow: int,
    pub cur: int,
}

/// A session is consistent with a trie when the trie is finalized, the
/// matched part of the input (all but the overflowed tail) walks from
/// the root exactly to the current slot, and an overflowed session is
/// stuck on a code unit its slot has no child for.
pub open spec fn ctx_wf(s: CtxModel, trie: &PersistentTrie) -> bool {
    &&& trie.wf()
    &&& trie.maintained()
    &&& 0 <= s.overflow <= s.input.len()
    &&& 0 <= s.cur < trie.nodes@.len()
    &&& node_at(trie.nodes@, trie.root as int, s.input.take(s.input.len() - s.overflow)) == Some(
        s.cur,
    )
    &&& s.overflow > 0 ==> assoc_get(
        trie.nodes@[s.cur].children@,
        s.input[s.input.len() - s.overflow],
    ) is None
}

/// How one typed code unit changes the session: while overflowed, the
/// overflow only deepens; otherwise the position follows the child for
/// that code, or the overflow starts at 1 when there is none.
pub open spec fn feed_step(s: CtxModel, nodes: Seq<PersistentNode>, ch: char) -> CtxModel {
    let input2 = s.input.push(ch);
    if s.overflow > 0 {
        CtxModel { id: s.id, input: input2, overflow: s.overflow + 1, cur: s.cur }
    } else {
        match assoc_get(nodes[s.cur].children@, ch) {
            Some(c) => CtxModel { id: s.id, input: input2, overflow: 0, cur: c as int },
            None => CtxModel { id: s.id, input: input2, overflow: 1, cur: s.cur },
        }
    }
}

/// What a feed returns: nothing while overflowed, else the ranked
/// candidates under the new position.
pub open spec fn feed_candidates(s: CtxModel, nodes: Seq<PersistentNode>, ch: char) -> Seq<
    (Seq<char>, Seq<char>, MatchType),
> {
    let s2 = feed_step(s, nodes, ch);
    if s2.overflow > 0 {
        Seq::empty()
    } else {
        cand_models(ranked_items(nodes, s2.cur))
    }
}

/// How a backspace (that does not cancel) changes the session: an
/// overflowed session only shrinks its overflow — the position stays
/// where the matching ended — and a matching session steps back to its
/// father.
pub open spec fn backspace_step(s: CtxModel, trie: &PersistentTrie) -> CtxModel {
    let input2 = s.input.drop_last();
    if s.overflow > 0 {
        CtxModel { id: s.id, input: input2, overflow: s.overflow - 1, cur: s.cur }
    } else {
        match trie.fathers@[s.cur] {
            Some(f) => CtxModel { id: s.id, input: input2, overflow: 0, cur: f as int },
            None => CtxModel { id: s.id, input: input2, overflow: 0, cur: s.cur },
        }
    }
}

/// What a backspace returns: nothing while still overflowed (or at a
/// fatherless slot), else the ranked candidates at the restored
/// position.
pub open spec fn backspace_candidates(s: CtxModel, trie: &PersistentTrie) -> Seq<
    (Seq<char>, Seq<char>, MatchType),
> {
    let s2 = backspace_step(s, trie);
    if s2.overflow > 0 {
        Seq::empty()
    } else if s.overflow == 0 && trie.fathers@[s.cur] is None {
        Seq::empty()
    } else {
        cand_models(ranked_items(trie.nodes@, s2.cur))
    }
}

/// One user session walking a finalized trie: the codes typed so far,
/// the current tree slot, and the count of trailing codes typed past
/// the last match.
pub struct CodeTableContext {
    id: ContextId,
    current: usize,
    input_sequence: Vec<char>,
    overflow_number: usize,
}

impl View for CodeTableContext {
    type V = CtxModel;

    closed spec fn view(&self) -> CtxModel {
        CtxModel {
            id: self.id@,
            input: self.input_sequence@,
            overflow: self.overflow_number as int,
            cur: self.current as int,
        }
    }
}

impl CodeTableContext {
    /// Consistency with the trie the session walks.
    pub open spec fn wf(&self, trie: &PersistentTrie) -> bool {
        ctx_wf(self@, trie)
    }

    /// A fresh session positioned at `node` (the trie's root).
    pub fn new(node: usize, id: u32) -> (r: CodeTableContext)
        ensures
            r@ == (CtxModel { id: id, input: Seq::<char>::empty(), overflow: 0, cur: node as int }),
    {
        CodeTableContext {
            id: ContextId::new(id),
            current: node,
            input_sequence: Vec::new(),
            overflow_number: 0,
        }
    }

    /// This session's identifier.
    pub fn id(&self) -> (r: ContextId)
        ensures
            r@ == self@.id,
    {
        self.id
    }

    /// The display form of everything typed: one string joining the
    /// whole input sequence.
    pub fn codes(&self) -> (r: Vec<String>)
        ensures
            r@.len() == 1,
            r@[0]@ == self@.input,
    {
        let s = string_of_chars(&self.input_sequence);
        let mut r: Vec<String> = Vec::new();
        r.push(s);
        r
    }

    /// All entries under the current slot, ranked — empty when nothing
    /// has been typed yet.
    pub fn generate_candidates(&self, trie: &PersistentTrie) -> (r: Vec<FlattenItem>)
        requires
            self.wf(trie),
        ensures
            models(r@) == (if self@.input.len() == 0 {
                Seq::<ItemModel>::empty()
            } else {
                ranked_items(trie.nodes@, self@.cur)
            }),
    {
        if self.input_sequence.len() == 0 {
            let r: Vec<FlattenItem> = Vec::new();
            proof {
                assert(models(r@) =~= Seq::<ItemModel>::empty());
            }
            return r;
        }
        let codes: Vec<char> = Vec::new();
        let mut out: Vec<FlattenItem> = Vec::new();
        collect_items(trie, self.current, &codes, &mut out);
        proof {
            assert(models(out@) =~= items_spec(trie.nodes@, self@.cur, Seq::<char>::empty()));
        }
        sort_flatten_items(out)
    }
}

} // verus!

verus! {

impl CodeTableContext {
    /// Takes one typed code unit: appends it to the input, walks to the
    /// matching child or starts/deepens the overflow, and returns the
    /// ranked candidates (none while overflowed) with the display codes.
    pub fn feed(&mut self, trie: &PersistentTrie, ch: char) -> (r: (Vec<Candidate>, Vec<String>))
        requires
            old(self).wf(trie),
        ensures
            final(self).wf(trie),
            final(self)@ == feed_step(old(self)@, trie.nodes@, ch),
            cand_views(r.0@) == feed_candidates(old(self)@, trie.nodes@, ch),
            r.1@.len() == 1,
            r.1@[0]@ == final(self)@.input,
    {
        let ghost s0 = self@;
        let ghost nodes = trie.nodes@;
        let ghost root = trie.root as int;
        self.input_sequence.push(ch);
        let n = self.input_sequence.len();
        if self.overflow_number > 0 {
            self.overflow_number = self.overflow_number + 1;
            proof {
                let s2 = self@;
                assert(s2 == feed_step(s0, nodes, ch));
                let m0 = s0.input.len() - s0.overflow;
                assert(s2.input.take(s2.input.len() - s2.overflow) =~= s0.input.take(m0));
                assert(s2.input[s2.input.len() - s2.overflow] == s0.input[m0]);
                assert(ctx_wf(s2, trie));
                assert(cand_views(Seq::<Candidate>::empty()) =~= Seq::<
                    (Seq<char>, Seq<char>, MatchType),
                >::empty());
            }
            (Vec::new(), self.codes())
        } else {
            proof {
                assert(s0.input.take(s0.input.len() - 0) =~= s0.input);
                assert(node_at(nodes, root, s0.input) == Some(s0.cur));
            }
            let c_opt = trie.node(self.current).child(ch);
            match c_opt {
                Some(c) => {
                    self.current = c;
                    proof {
                        assert(node_wf(nodes, s0.cur));
                        lemma_assoc_get_some(nodes[s0.cur].children@, ch);
                        lemma_node_at_snoc(nodes, root, s0.input, ch);
                        let s2 = self@;
                        assert(s2 == feed_step(s0, nodes, ch));
                        assert(s2.input.take(s2.input.len() - 0) =~= s0.input.push(ch));
                        assert(node_at(nodes, root, s0.input.push(ch)) == Some(c as int));
                        assert(ctx_wf(s2, trie));
                    }
                    let items = self.generate_candidates(trie);
                    let cands = to_candidates(&items);
                    (cands, self.codes())
                },
                None => {
                    self.overflow_number = 1;
                    proof {
                        let s2 = self@;
                        assert(s2 == feed_step(s0, nodes, ch));
                        assert(s2.input.take(s2.input.len() - 1) =~= s0.input);
                        assert(s2.input[s2.input.len() - 1] == ch);
                        assert(ctx_wf(s2, trie));
                        assert(cand_views(Seq::<Candidate>::empty()) =~= Seq::<
                            (Seq<char>, Seq<char>, MatchType),
                        >::empty());
                    }
                    (Vec::new(), self.codes())
                },
            }
        }
    }

    /// Removes the last typed code unit.  With nothing left afterwards
    /// the session is over (`Cancel`); otherwise the overflow shrinks —
    /// the step that clears it does not move the position, the ones
    /// after it step back to the father — and the ranked candidates at
    /// the restored position come back.
    pub fn backspace(&mut self, trie: &PersistentTrie) -> (r: BackspaceResult)
        requires
            old(self).wf(trie),
        ensures
            (r is Cancel) <==> old(self)@.input.len() <= 1,
            r is Cancel ==> final(self)@.id == old(self)@.id && final(self)@.input.len() == 0
                && final(self)@.overflow == old(self)@.overflow && final(self)@.cur == old(
                self,
            )@.cur,
            old(self)@.input.len() > 1 ==> {
                &&& final(self).wf(trie)
                &&& final(self)@ == backspace_step(old(self)@, trie)
                &&& r is Candidates
                &&& cand_views(r->Candidates_0@) == backspace_candidates(old(self)@, trie)
                &&& r->Candidates_1@.len() == 1
                &&& r->Candidates_1@[0]@ == final(self)@.input
            },
    {
        let ghost s0 = self@;
        let ghost nodes = trie.nodes@;
        let ghost root = trie.root as int;
        let _popped = self.input_sequence.pop();
        if self.input_sequence.len() == 0 {
            return BackspaceResult::Cancel;
        }
        proof {
            assert(s0.input.len() > 1);
            assert(self@.input =~= s0.input.drop_last());
        }
        let mut this_round = false;
        if self.overflow_number > 0 {
            self.overflow_number = self.overflow_number - 1;
            this_round = true;
        }
        if self.overflow_number == 0 {
            if !this_round {
                proof {
                    // the matched path is the whole former input, which is
                    // non-empty, so maintain left this slot a father
                    assert(s0.input.take(s0.input.len() - 0) =~= s0.input);
                    assert(node_at(nodes, root, s0.input) == Some(s0.cur));
                    assert(s0.input =~= s0.input.drop_last().push(s0.input.last()));
                    assert(node_at(nodes, root, s0.input.drop_last().push(s0.input.last()))
                        == Some(s0.cur));
                    lemma_node_at_snoc(nodes, root, s0.input.drop_last(), s0.input.last());
                    assert(node_at(nodes, root, s0.input.drop_last()) is Some);
                    lemma_node_at_bound(nodes, root, s0.input.drop_last());
                    assert(trie.fathers@[s0.cur] == Some(
                        node_at(nodes, root, s0.input.drop_last())->Some_0 as usize,
                    ));
                }
                match trie.father_of(self.current) {
                    Some(f) => {
                        self.current = f;
                        proof {
                            let s2 = self@;
                            assert(s2 == backspace_step(s0, trie));
                            assert(s2.input.take(s2.input.len() - 0) =~= s0.input.drop_last());
                            assert(ctx_wf(s2, trie));
                        }
                    },
                    None => {
                        // unreachable on a maintained trie: the father was
                        // just shown to exist
                        proof {
                            assert(false);
                        }
                        return BackspaceResult::Candidates(Vec::new(), self.codes());
                    },
                }
            } else {
                proof {
                    let s2 = self@;
                    assert(s2 == backspace_step(s0, trie));
                    assert(s0.overflow == 1);
                    assert(s2.input.take(s2.input.len() - 0) =~= s0.input.take(
                        s0.input.len() - 1,
                    ));
                    assert(ctx_wf(s2, trie));
                }
            }
            let items = self.generate_candidates(trie);
            let cands = to_candidates(&items);
            BackspaceResult::Candidates(cands, self.codes())
        } else {
            proof {
                let s2 = self@;
                assert(s2 == backspace_step(s0, trie));
                let m0 = s0.input.len() - s0.overflow;
                assert(s2.input.take(s2.input.len() - s2.overflow) =~= s0.input.take(m0));
                assert(s2.input[s2.input.len() - s2.overflow] == s0.input[m0]);
                assert(ctx_wf(s2, trie));
                assert(cand_views(Seq::<Candidate>::empty()) =~= Seq::<
                    (Seq<char>, Seq<char>, MatchType),
                >::empty());
            }
            BackspaceResult::Candidates(Vec::new(), self.codes())
        }
    }
}

/// The round-trip law: a backspace exactly undoes a feed.  Whatever one
/// typed code unit did to a consistent session — advancing the position,
/// starting the overflow, or deepening it — removing it restores the
/// session that was there before.
pub proof fn lemma_feed_backspace_roundtrip(s: CtxModel, trie: &PersistentTrie, ch: char)
    requires
        ctx_wf(s, trie),
    ensures
        backspace_step(feed_step(s, trie.nodes@, ch), trie) == s,
{
    let nodes = trie.nodes@;
    let root = trie.root as int;
    let s2 = feed_step(s, nodes, ch);
    assert(s2.input.drop_last() =~= s.input);
    if s.overflow == 0 {
        assert(s.input.take(s.input.len() - 0) =~= s.input);
        assert(node_at(nodes, root, s.input) == Some(s.cur));
        match assoc_get(nodes[s.cur].children@, ch) {
            Some(c) => {
                lemma_node_at_snoc(nodes, root, s.input, ch);
                assert(node_at(nodes, root, s.input.push(ch)) == Some(c as int));
                assert(trie.fathers@[c as int] == Some(
                    node_at(nodes, root, s.input)->Some_0 as usize,
                ));
                vstd::std_specs::vec::axiom_spec_len(&trie.nodes);
                assert(trie.nodes@.len() <= usize::MAX);
                assert(0 <= s.cur < trie.nodes@.len());
                assert((s.cur as usize) as int == s.cur);
                assert(backspace_step(s2, trie).cur == s.cur);
            },
            None => {},
        }
    }
}

/// The overflow-entry law: a code unit with no matching child leaves the
/// position where it was, sets the overflow to one, and yields no
/// candidates.
pub proof fn lemma_unmatched_feed_overflows(s: CtxModel, nodes: Seq<PersistentNode>, ch: char)
    requires
        s.overflow == 0,
        assoc_get(nodes[s.cur].children@, ch) is None,
    ensures
        feed_step(s, nodes, ch).overflow == 1,
        feed_step(s, nodes, ch).cur == s.cur,
        feed_candidates(s, nodes, ch) == Seq::<(Seq<char>, Seq<char>, MatchType)>::empty(),
{
}

/// The overflow-persistence law: while a session is overflowed, every
/// further code unit only deepens the overflow and yields no candidates.
pub proof fn lemma_overflowed_feed_blocks(s: CtxModel, nodes: Seq<PersistentNode>, ch: char)
    requires
        s.overflow > 0,
    ensures
        feed_step(s, nodes, ch).overflow == s.overflow + 1,
        feed_step(s, nodes, ch).cur == s.cur,
        feed_candidates(s, nodes, ch) == Seq::<(Seq<char>, Seq<char>, MatchType)>::empty(),
{
}

} // verus!

verus! {

impl crate::engine::InputContext for CodeTableContext {
    /// Consistency is this session's well-formedness with the trie.
    open spec fn inv(&self, trie: &PersistentTrie) -> bool {
        self.wf(trie)
    }

    fn feed(&mut self, trie: &PersistentTrie, ch: char) -> (r: (Vec<Candidate>, Vec<String>)) {
        CodeTableContext::feed(self, trie, ch)
    }

    fn backspace(&mut self, trie: &PersistentTrie) -> (r: BackspaceResult) {
        CodeTableContext::backspace(self, trie)
    }

    fn id(&self) -> (r: ContextId) {
        CodeTableContext::id(self)
    }

    fn codes(&self) -> (r: Vec<String>) {
        CodeTableContext::codes(self)
    }
}

} // verus!
