use vstd::prelude::*;

use crate::order::canon;
use crate::order::insert_canon;
use crate::seq_util::distinct_keys;
use crate::token::Token;
use crate::trie::TrieNode;
use crate::trie::TrieView;
use crate::trie::seq_views;

verus! {

broadcast use
    vstd::std_specs::vec::group_vec_axioms,
    vstd::seq::group_seq_axioms,
    vstd::seq_lib::group_filter_ensures,
;

// ---------------------------------------------------------------------------
// The length-grouped trie and its mathematical model
// ---------------------------------------------------------------------------

/// The key of one merged sibling group: the shared label length, and the set
/// of labels of that length, held canonically (sorted, duplicate-free).
pub struct LengthGroupKey<T> {
    length: usize,
    segments: Vec<Vec<T>>,
}

/// A node of a length-grouped trie: children of the original node are merged
/// by label length, one child per distinct length.
pub struct LengthGroupedNode<T> {
    children: Vec<(LengthGroupKey<T>, LengthGroupedNode<T>)>,
    is_terminal: bool,
}

/// The mathematical model of a length-grouped node: the edge list, each edge
/// keyed by a (length, segment list) pair, plus the terminal flag.
pub struct GroupView<T> {
    pub edges: Seq<((int, Seq<Seq<T>>), GroupView<T>)>,
    pub terminal: bool,
}

impl<T> View for LengthGroupKey<T> {
    type V = (int, Seq<Seq<T>>);

    closed spec fn view(&self) -> (int, Seq<Seq<T>>) {
        (self.length as int, seq_views(self.segments@))
    }
}

/// The models of a grouped edge list, in order.
pub closed spec fn gview_children<T>(
    cs: Seq<(LengthGroupKey<T>, LengthGroupedNode<T>)>,
) -> Seq<((int, Seq<Seq<T>>), GroupView<T>)>
    decreases cs,
{
    if cs.len() == 0 {
        Seq::empty()
    } else {
        gview_children(cs.drop_last()).push((cs.last().0@, cs.last().1@))
    }
}

impl<T> View for LengthGroupedNode<T> {
    type V = GroupView<T>;

    closed spec fn view(&self) -> GroupView<T>
        decreases self,
    {
        GroupView { edges: gview_children(self.children@), terminal: self.is_terminal }
    }
}

/// Pointwise description of `gview_children`.
pub proof fn lemma_gview_children<T>(cs: Seq<(LengthGroupKey<T>, LengthGroupedNode<T>)>)
    ensures
        gview_children(cs).len() == cs.len(),
        forall|i: int|
            0 <= i < cs.len() ==> #[trigger] gview_children(cs)[i] == ((cs[i].0)@, (cs[i].1)@),
    decreases cs.len(),
{
    if cs.len() == 0 {
        assert(gview_children(cs) =~= Seq::<((int, Seq<Seq<T>>), GroupView<T>)>::empty());
    } else {
        lemma_gview_children(cs.drop_last());
        assert(forall|i: int| 0 <= i < cs.len() - 1 ==> cs.drop_last()[i] == cs[i]);
        assert(gview_children(cs) == gview_children(cs.drop_last()).push(
            (cs.last().0@, cs.last().1@),
        ));
        assert(gview_children(cs).len() == cs.len());
    }
}

// ---------------------------------------------------------------------------
// Spec helpers over segmented-trie edge lists
// ---------------------------------------------------------------------------

/// The key function grouping edges by label length.
pub open spec fn len_key_fn<T>() -> spec_fn((Seq<T>, TrieView<T>)) -> int {
    |e: (Seq<T>, TrieView<T>)| e.0.len() as int
}

/// Membership test of one length bucket.
pub open spec fn len_pred<T>(n: int) -> spec_fn((Seq<T>, TrieView<T>)) -> bool {
    |e: (Seq<T>, TrieView<T>)| e.0.len() as int == n
}

/// The label of an edge.
pub open spec fn edge_label<T>() -> spec_fn((Seq<T>, TrieView<T>)) -> Seq<T> {
    |e: (Seq<T>, TrieView<T>)| e.0
}

/// The labels of length `n`, in edge order.
pub open spec fn seg_list<T>(edges: Seq<(Seq<T>, TrieView<T>)>, n: int) -> Seq<Seq<T>> {
    edges.filter(len_pred(n)).map_values(edge_label())
}

/// The first edge labelled `seg` at or after `i`, if any.
pub open spec fn lookup_from<T>(
    edges: Seq<(Seq<T>, TrieView<T>)>,
    seg: Seq<T>,
    i: int,
) -> Option<TrieView<T>>
    decreases edges.len() - i,
{
    if i < 0 || i >= edges.len() {
        None
    } else if edges[i].0 == seg {
        Some(edges[i].1)
    } else {
        lookup_from(edges, seg, i + 1)
    }
}

/// Insert-or-overwrite into an association list, scanning from `i`: an
/// existing key keeps its position and gets the new value; a new key is
/// appended.
pub open spec fn upsert_from<T>(
    m: Seq<(Seq<T>, TrieView<T>)>,
    k: Seq<T>,
    v: TrieView<T>,
    i: int,
) -> Seq<(Seq<T>, TrieView<T>)>
    decreases m.len() - i,
{
    if i < 0 || i >= m.len() {
        m.push((k, v))
    } else if m[i].0 == k {
        m.update(i, (k, v))
    } else {
        upsert_from(m, k, v, i + 1)
    }
}

/// All edges of `ges` from `i` on, upserted into `acc` in order.
pub open spec fn upsert_edges<T>(
    acc: Seq<(Seq<T>, TrieView<T>)>,
    ges: Seq<(Seq<T>, TrieView<T>)>,
    i: int,
) -> Seq<(Seq<T>, TrieView<T>)>
    decreases ges.len() - i,
{
    if i < 0 || i >= ges.len() {
        acc
    } else {
        upsert_edges(upsert_from(acc, ges[i].0, ges[i].1, 0), ges, i + 1)
    }
}

/// Walking the segment set from `j` on: the union of the grandchildren of
/// the selected children (later labels overwrite earlier equal ones), and
/// whether any selected child was terminal.
pub open spec fn gather<T>(
    edges: Seq<(Seq<T>, TrieView<T>)>,
    segs: Seq<Seq<T>>,
    j: int,
    acc: Seq<(Seq<T>, TrieView<T>)>,
    term: bool,
) -> (Seq<(Seq<T>, TrieView<T>)>, bool)
    decreases segs.len() - j,
{
    if j < 0 || j >= segs.len() {
        (acc, term)
    } else {
        match lookup_from(edges, segs[j], 0) {
            Option::None => gather(edges, segs, j + 1, acc, term),
            Option::Some(c) => gather(
                edges,
                segs,
                j + 1,
                upsert_edges(acc, c.edges, 0),
                term || c.terminal,
            ),
        }
    }
}

// ---------------------------------------------------------------------------
// The depth measure of the merge recursion
// ---------------------------------------------------------------------------

/// The depth of a segmented-trie model: leaves have depth one.
pub open spec fn tview_depth<T>(v: TrieView<T>) -> int
    decreases v, 0int,
{
    1 + edges_depth(v.edges, 0)
}

/// The largest child depth among the edges from `i` on.
pub open spec fn edges_depth<T>(es: Seq<(Seq<T>, TrieView<T>)>, i: int) -> int
    decreases es, es.len() - i,
{
    if i < 0 || i >= es.len() {
        0
    } else {
        let d = tview_depth(es[i].1);
        let r = edges_depth(es, i + 1);
        if d > r {
            d
        } else {
            r
        }
    }
}

/// Depths are positive; the edge bound covers every edge.
pub proof fn lemma_edges_depth_bound<T>(es: Seq<(Seq<T>, TrieView<T>)>, i: int)
    requires
        0 <= i <= es.len(),
    ensures
        edges_depth(es, i) >= 0,
        forall|w: int| i <= w < es.len() ==> tview_depth(#[trigger] es[w].1) <= edges_depth(es, i),
    decreases es.len() - i,
{
    if i < es.len() {
        lemma_edges_depth_bound(es, i + 1);
    }
}

/// Updating one entry bounds the depth by the old bound and the new value.
proof fn lemma_edges_depth_update<T>(
    m: Seq<(Seq<T>, TrieView<T>)>,
    w: int,
    p: (Seq<T>, TrieView<T>),
    i: int,
)
    requires
        0 <= w < m.len(),
        0 <= i <= m.len(),
    ensures
        edges_depth(m.update(w, p), i) <= (if edges_depth(m, i) > tview_depth(p.1) {
            edges_depth(m, i)
        } else {
            tview_depth(p.1)
        }),
    decreases m.len() - i,
{
    if i < m.len() {
        lemma_edges_depth_update(m, w, p, i + 1);
        if i == w {
            assert(m.update(w, p)[i].1 == p.1);
        } else {
            assert(m.update(w, p)[i].1 == m[i].1);
        }
    }
}

/// Appending an entry bounds the depth by the old bound and the new value.
proof fn lemma_edges_depth_push<T>(
    m: Seq<(Seq<T>, TrieView<T>)>,
    p: (Seq<T>, TrieView<T>),
    i: int,
)
    requires
        0 <= i <= m.len(),
    ensures
        edges_depth(m.push(p), i) <= (if edges_depth(m, i) > tview_depth(p.1) {
            edges_depth(m, i)
        } else {
            tview_depth(p.1)
        }),
    decreases m.len() - i,
{
    if i < m.len() {
        lemma_edges_depth_push(m, p, i + 1);
        assert(m.push(p)[i].1 == m[i].1);
    } else {
        assert(m.push(p)[i].1 == p.1);
        assert(edges_depth(m.push(p), i + 1) == 0);
    }
}

/// An upsert is either an in-place update of the first matching key or an
/// append.
proof fn lemma_upsert_shape<T>(m: Seq<(Seq<T>, TrieView<T>)>, k: Seq<T>, v: TrieView<T>, i: int)
    requires
        0 <= i <= m.len(),
    ensures
        (exists|w: int|
            i <= w < m.len() && upsert_from(m, k, v, i) == m.update(w, (k, v)) && (#[trigger] m[w].0)
                == k) || upsert_from(m, k, v, i) == m.push((k, v)),
    decreases m.len() - i,
{
    if i < m.len() && m[i].0 != k {
        lemma_upsert_shape(m, k, v, i + 1);
    }
}

/// An upsert keeps the depth bounded by the old bound and the new value.
proof fn lemma_upsert_depth<T>(m: Seq<(Seq<T>, TrieView<T>)>, k: Seq<T>, v: TrieView<T>)
    ensures
        edges_depth(upsert_from(m, k, v, 0), 0) <= (if edges_depth(m, 0) > tview_depth(v) {
            edges_depth(m, 0)
        } else {
            tview_depth(v)
        }),
{
    lemma_upsert_shape(m, k, v, 0);
    if upsert_from(m, k, v, 0) == m.push((k, v)) {
        lemma_edges_depth_push(m, (k, v), 0);
    } else {
        let w = choose|w: int|
            0 <= w < m.len() && upsert_from(m, k, v, 0) == m.update(w, (k, v)) && (#[trigger] m[w].0)
                == k;
        lemma_edges_depth_update(m, w, (k, v), 0);
    }
}

/// Upserting a run of edges keeps the depth bounded by both sides.
proof fn lemma_upsert_edges_depth<T>(
    acc: Seq<(Seq<T>, TrieView<T>)>,
    ges: Seq<(Seq<T>, TrieView<T>)>,
    i: int,
)
    requires
        0 <= i <= ges.len(),
    ensures
        edges_depth(upsert_edges(acc, ges, i), 0) <= (if edges_depth(acc, 0) > edges_depth(ges, i) {
            edges_depth(acc, 0)
        } else {
            edges_depth(ges, i)
        }),
    decreases ges.len() - i,
{
    if i >= ges.len() {
    } else {
        let acc2 = upsert_from(acc, ges[i].0, ges[i].1, 0);
        lemma_upsert_depth(acc, ges[i].0, ges[i].1);
        lemma_upsert_edges_depth(acc2, ges, i + 1);
        lemma_edges_depth_bound(ges, i);
    }
}

/// A found child is one of the edge values.
proof fn lemma_lookup_member<T>(edges: Seq<(Seq<T>, TrieView<T>)>, seg: Seq<T>, i: int)
    requires
        0 <= i <= edges.len(),
    ensures
        match lookup_from(edges, seg, i) {
            Option::Some(c) => exists|w: int|
                i <= w < edges.len() && (#[trigger] edges[w]) == (seg, c),
            Option::None => true,
        },
    decreases edges.len() - i,
{
    if i < edges.len() && edges[i].0 != seg {
        lemma_lookup_member(edges, seg, i + 1);
    }
}

/// The gathered grandchildren sit strictly below the children they came
/// from.
proof fn lemma_gather_depth<T>(
    edges: Seq<(Seq<T>, TrieView<T>)>,
    segs: Seq<Seq<T>>,
    j: int,
    acc: Seq<(Seq<T>, TrieView<T>)>,
    term: bool,
)
    requires
        0 <= j <= segs.len(),
    ensures
        edges_depth(gather(edges, segs, j, acc, term).0, 0) <= (if edges_depth(acc, 0)
            > edges_depth(edges, 0) - 1 {
            edges_depth(acc, 0)
        } else {
            edges_depth(edges, 0) - 1
        }),
    decreases segs.len() - j,
{
    lemma_edges_depth_bound(acc, 0);
    if j >= segs.len() {
    } else {
        match lookup_from(edges, segs[j], 0) {
            Option::None => {
                lemma_gather_depth(edges, segs, j + 1, acc, term);
            },
            Option::Some(c) => {
                lemma_lookup_member(edges, segs[j], 0);
                let w = choose|w: int|
                    0 <= w < edges.len() && (#[trigger] edges[w]) == (segs[j], c);
                lemma_edges_depth_bound(edges, 0);
                assert(edges[w].1 == c);
                assert(tview_depth(c) <= edges_depth(edges, 0));
                assert(edges_depth(c.edges, 0) <= edges_depth(edges, 0) - 1);
                let acc2 = upsert_edges(acc, c.edges, 0);
                lemma_upsert_edges_depth(acc, c.edges, 0);
                lemma_gather_depth(edges, segs, j + 1, acc2, term || c.terminal);
            },
        }
    }
}

// ---------------------------------------------------------------------------
// The length-grouped transform as a specification
// ---------------------------------------------------------------------------

/// One merged child per distinct grandchild-label length, recursively.
///
/// `bound` carries the map from which `grand` was gathered; the inner
/// `edges_depth` test guards the recursion and holds whenever this is
/// reached during the transform.
pub open spec fn sub_edges<T: Token>(
    bound: Seq<(Seq<T>, TrieView<T>)>,
    grand: Seq<(Seq<T>, TrieView<T>)>,
    lens: Seq<int>,
    j: int,
) -> Seq<((int, Seq<Seq<T>>), GroupView<T>)>
    decreases edges_depth(bound, 0), 0int, lens.len() - j,
{
    if j < 0 || j >= lens.len() {
        Seq::empty()
    } else {
        let n = lens[j];
        let segs = canon(seg_list(grand, n));
        proof {
            lemma_edges_depth_bound(grand, 0);
        }
        let child = if edges_depth(grand, 0) < edges_depth(bound, 0) {
            spec_merge(grand, segs)
        } else {
            GroupView { edges: Seq::empty(), terminal: false }
        };
        seq![((n, segs), child)] + sub_edges(bound, grand, lens, j + 1)
    }
}

/// The merged child of one sibling group: the grandchildren of the selected
/// children are unioned (later sorted labels overwriting earlier equal
/// ones), the terminal flags are or-ed, and the union is grouped by length
/// again.
pub open spec fn spec_merge<T: Token>(
    edges: Seq<(Seq<T>, TrieView<T>)>,
    segs: Seq<Seq<T>>,
) -> GroupView<T>
    decreases edges_depth(edges, 0), 1int, 0int,
{
    let gt = gather(edges, segs, 0, Seq::empty(), false);
    let grand = gt.0;
    let lens = distinct_keys(grand, len_key_fn());
    GroupView { edges: sub_edges(edges, grand, lens, 0), terminal: gt.1 }
}

/// One merged child per distinct child-label length of the node itself.
pub open spec fn top_edges<T: Token>(
    edges: Seq<(Seq<T>, TrieView<T>)>,
    lens: Seq<int>,
    j: int,
) -> Seq<((int, Seq<Seq<T>>), GroupView<T>)>
    decreases edges_depth(edges, 0), 2int, lens.len() - j,
{
    if j < 0 || j >= lens.len() {
        Seq::empty()
    } else {
        let n = lens[j];
        let segs = canon(seg_list(edges, n));
        seq![((n, segs), spec_merge(edges, segs))] + top_edges(edges, lens, j + 1)
    }
}

/// The length-grouped trie of a segmented trie node: the terminal flag is
/// copied, and the children are bucketed by label length, one merged child
/// per distinct length.
pub open spec fn spec_transform<T: Token>(v: TrieView<T>) -> GroupView<T>
    decreases edges_depth(v.edges, 0), 3int, 0int,
{
    GroupView {
        edges: top_edges(v.edges, distinct_keys(v.edges, len_key_fn()), 0),
        terminal: v.terminal,
    }
}

// ---------------------------------------------------------------------------
// Terminal monotonicity
// ---------------------------------------------------------------------------

/// The gathered terminal flag is the disjunction over the selected children.
proof fn lemma_gather_terminal<T>(
    edges: Seq<(Seq<T>, TrieView<T>)>,
    segs: Seq<Seq<T>>,
    j: int,
    acc: Seq<(Seq<T>, TrieView<T>)>,
    term: bool,
)
    requires
        0 <= j <= segs.len(),
    ensures
        gather(edges, segs, j, acc, term).1 == (term || exists|m: int|
            j <= m < segs.len() && match lookup_from(edges, #[trigger] segs[m], 0) {
                Option::Some(c) => c.terminal,
                Option::None => false,
            }),
    decreases segs.len() - j,
{
    if j >= segs.len() {
    } else {
        match lookup_from(edges, segs[j], 0) {
            Option::None => {
                lemma_gather_terminal(edges, segs, j + 1, acc, term);
            },
            Option::Some(c) => {
                lemma_gather_terminal(
                    edges,
                    segs,
                    j + 1,
                    upsert_edges(acc, c.edges, 0),
                    term || c.terminal,
                );
                if c.terminal {
                    assert(match lookup_from(edges, segs[j], 0) {
                        Option::Some(cc) => cc.terminal,
                        Option::None => false,
                    });
                }
            },
        }
    }
}

/// Terminal monotonicity of the merge: a merged node is terminal exactly
/// when at least one of the segmented-trie children folded into it was
/// terminal.
pub proof fn lemma_merge_terminal<T: Token>(edges: Seq<(Seq<T>, TrieView<T>)>, segs: Seq<Seq<T>>)
    ensures
        spec_merge(edges, segs).terminal <==> exists|m: int|
            0 <= m < segs.len() && match lookup_from(edges, #[trigger] segs[m], 0) {
                Option::Some(c) => c.terminal,
                Option::None => false,
            },
{
    lemma_gather_terminal(edges, segs, 0, Seq::empty(), false);
}

/// Terminal monotonicity at the root: the transform copies the terminal
/// flag of the node it abstracts.
pub proof fn lemma_transform_terminal<T: Token>(v: TrieView<T>)
    ensures
        spec_transform(v).terminal == v.terminal,
{
}

// ---------------------------------------------------------------------------
// Executable helpers
// ---------------------------------------------------------------------------

/// The models of a borrowed edge list.
pub open spec fn pair_views<'a, T>(s: Seq<(Vec<T>, &'a TrieNode<T>)>) -> Seq<
    (Seq<T>, TrieView<T>),
> {
    s.map_values(|p: (Vec<T>, &'a TrieNode<T>)| (p.0@, p.1@))
}

/// Appending a borrowed edge appends its model.
proof fn lemma_pair_views_push<'a, T>(s: Seq<(Vec<T>, &'a TrieNode<T>)>, p: (Vec<T>, &'a TrieNode<T>))
    ensures
        pair_views(s.push(p)) == pair_views(s).push((p.0@, p.1@)),
{
    assert(pair_views(s.push(p)) =~= pair_views(s).push((p.0@, p.1@)));
}

/// The lengths of a list, as mathematical integers.
pub open spec fn lens_views(s: Seq<usize>) -> Seq<int> {
    s.map_values(|u: usize| u as int)
}

/// Appending a length appends its integer.
proof fn lemma_lens_views_push(s: Seq<usize>, u: usize)
    ensures
        lens_views(s.push(u)) == lens_views(s).push(u as int),
{
    assert(lens_views(s.push(u)) =~= lens_views(s).push(u as int));
}

/// One more edge extends the labels of its own length bucket and no other.
proof fn lemma_seg_list_take_step<T>(gv: Seq<(Seq<T>, TrieView<T>)>, n: int, idx: int)
    requires
        0 <= idx < gv.len(),
    ensures
        seg_list(gv.take(idx + 1), n) == if gv[idx].0.len() as int == n {
            seg_list(gv.take(idx), n).push(gv[idx].0)
        } else {
            seg_list(gv.take(idx), n)
        },
{
    crate::seq_util::lemma_filter_take_step(gv, len_pred(n), idx);
    if gv[idx].0.len() as int == n {
        assert(seg_list(gv.take(idx + 1), n) =~= seg_list(gv.take(idx), n).push(gv[idx].0));
    } else {
        assert(seg_list(gv.take(idx + 1), n) =~= seg_list(gv.take(idx), n));
    }
}

/// The first child labelled exactly `seg`, if any.
fn find_child<'a, T: Token>(
    children: &Vec<(Vec<T>, &'a TrieNode<T>)>,
    seg: &Vec<T>,
) -> (r: Option<&'a TrieNode<T>>)
    ensures
        match r {
            Option::Some(n) => lookup_from(pair_views(children@), seg@, 0) == Some(n@),
            Option::None => lookup_from(pair_views(children@), seg@, 0) is None,
        },
{
    let ghost cv = pair_views(children@);
    let mut i: usize = 0;
    while i < children.len()
        invariant
            cv == pair_views(children@),
            cv.len() == children@.len(),
            0 <= i as int <= cv.len(),
            lookup_from(cv, seg@, 0) == lookup_from(cv, seg@, i as int),
        decreases children@.len() - i,
    {
        if crate::trie::seqs_equal(&children[i].0, seg) {
            proof {
                assert(cv[i as int].0 == seg@);
            }
            return Some(children[i].1);
        }
        proof {
            assert(cv[i as int].0 != seg@);
        }
        i = i + 1;
    }
    None
}

/// Insert-or-overwrite one borrowed edge, keeping the position of an
/// existing label.
fn upsert_child<'a, T: Token>(
    acc: &mut Vec<(Vec<T>, &'a TrieNode<T>)>,
    k: Vec<T>,
    v: &'a TrieNode<T>,
)
    ensures
        pair_views(final(acc)@) == upsert_from(pair_views(old(acc)@), k@, v@, 0),
{
    let ghost av = pair_views(acc@);
    let mut i: usize = 0;
    while i < acc.len()
        invariant
            acc@ == old(acc)@,
            av == pair_views(acc@),
            av.len() == acc@.len(),
            0 <= i as int <= av.len(),
            upsert_from(av, k@, v@, 0) == upsert_from(av, k@, v@, i as int),
        decreases acc@.len() - i,
    {
        if crate::trie::seqs_equal(&acc[i].0, &k) {
            proof {
                assert(av[i as int].0 == k@);
                assert(upsert_from(av, k@, v@, i as int) == av.update(i as int, (k@, v@)));
            }
            let ghost before = acc@;
            acc.remove(i);
            acc.insert(i, (k, v));
            proof {
                assert(acc@ =~= before.update(i as int, (k, v)));
                assert(pair_views(acc@) =~= av.update(i as int, (k@, v@)));
            }
            return ;
        }
        proof {
            assert(av[i as int].0 != k@);
        }
        i = i + 1;
    }
    let ghost before = acc@;
    acc.push((k, v));
    proof {
        lemma_pair_views_push(before, (k, v));
    }
}

/// The distinct label lengths, in order of first occurrence.
fn collect_lengths<'a, T: Token>(children: &Vec<(Vec<T>, &'a TrieNode<T>)>) -> (r: Vec<usize>)
    ensures
        lens_views(r@) == distinct_keys(pair_views(children@), len_key_fn::<T>()),
{
    let ghost cv = pair_views(children@);
    let ghost kf = len_key_fn::<T>();
    let mut lens: Vec<usize> = Vec::new();
    let mut idx: usize = 0;
    while idx < children.len()
        invariant
            cv == pair_views(children@),
            kf == len_key_fn::<T>(),
            cv.len() == children@.len(),
            0 <= idx as int <= cv.len(),
            lens_views(lens@) == distinct_keys(cv.take(idx as int), kf),
        decreases children@.len() - idx,
    {
        let n = children[idx].0.len();
        proof {
            crate::seq_util::lemma_distinct_keys_take_step(cv, kf, idx as int);
            assert(kf(cv[idx as int]) == n as int);
        }
        let mut seen = false;
        let mut c: usize = 0;
        while c < lens.len()
            invariant
                0 <= c as int <= lens@.len(),
                seen == exists|w: int| 0 <= w < c && lens@[w] == n,
            decreases lens@.len() - c,
        {
            if lens[c] == n {
                seen = true;
                proof {
                    assert(lens@[c as int] == n);
                }
                c = lens.len();
            } else {
                c = c + 1;
            }
        }
        proof {
            assert(seen == lens_views(lens@).contains(n as int)) by {
                if seen {
                    let w = choose|w: int| 0 <= w < lens@.len() && lens@[w] == n;
                    assert(lens_views(lens@)[w] == n as int);
                }
                if lens_views(lens@).contains(n as int) {
                    let w = choose|w: int|
                        0 <= w < lens_views(lens@).len() && lens_views(lens@)[w] == n as int;
                    assert(lens@[w] == n);
                }
            }
        }
        if !seen {
            proof {
                lemma_lens_views_push(lens@, n);
            }
            lens.push(n);
        }
        idx = idx + 1;
    }
    proof {
        crate::seq_util::lemma_take_full(cv);
    }
    lens
}

/// The labels of one length bucket, canonically ordered.
fn collect_segs_of_len<'a, T: Token>(
    children: &Vec<(Vec<T>, &'a TrieNode<T>)>,
    n: usize,
) -> (r: Vec<Vec<T>>)
    ensures
        seq_views(r@) == canon(seg_list(pair_views(children@), n as int)),
{
    let ghost cv = pair_views(children@);
    let mut segs: Vec<Vec<T>> = Vec::new();
    let mut idx: usize = 0;
    while idx < children.len()
        invariant
            cv == pair_views(children@),
            cv.len() == children@.len(),
            0 <= idx as int <= cv.len(),
            seq_views(segs@) == canon(seg_list(cv.take(idx as int), n as int)),
        decreases children@.len() - idx,
    {
        proof {
            lemma_seg_list_take_step(cv, n as int, idx as int);
        }
        if children[idx].0.len() == n {
            let c = crate::trie::copy_seq(&children[idx].0);
            proof {
                assert(cv[idx as int].0 == c@);
                let l = seg_list(cv.take(idx as int), n as int);
                let l2 = seg_list(cv.take(idx as int + 1), n as int);
                assert(l2 == l.push(cv[idx as int].0));
                assert(l2.drop_last() =~= l);
                assert(canon(l2) == insert_canon(canon(l), cv[idx as int].0));
            }
            TrieNode::<T>::insert_canonical(&mut segs, c);
        } else {
            proof {
                assert(cv[idx as int].0.len() as int != n as int);
            }
        }
        idx = idx + 1;
    }
    proof {
        crate::seq_util::lemma_take_full(cv);
    }
    segs
}

// ---------------------------------------------------------------------------
// The length-grouped transformer
// ---------------------------------------------------------------------------

impl<T: Token> LengthGroupKey<T> {
    /// A group key for labels of the given length; the labels are brought to
    /// canonical order, duplicates removed.
    pub fn new(length: usize, segments: Vec<Vec<T>>) -> (k: Self)
        requires
            forall|i: int|
                0 <= i < segments@.len() ==> (#[trigger] segments@[i])@.len() == length as int,
        ensures
            k@ == (length as int, canon(seq_views(segments@))),
    {
        let cs = TrieNode::<T>::canonicalize(&segments);
        LengthGroupKey { length, segments: cs }
    }

    /// The shared label length of this group.
    pub fn length(&self) -> (n: usize)
        ensures
            n as int == self@.0,
    {
        self.length
    }

    /// How many distinct labels the group holds.
    pub fn num_segments(&self) -> (n: usize)
        ensures
            n as int == self@.1.len(),
    {
        self.segments.len()
    }

    /// The `i`-th label of the group, in canonical order.
    pub fn segment_at(&self, i: usize) -> (s: &Vec<T>)
        requires
            i < self@.1.len(),
        ensures
            s@ == self@.1[i as int],
    {
        &self.segments[i]
    }
}

impl<T: Token> LengthGroupedNode<T> {
    /// A node with no children whose terminal flag is cleared.
    pub fn new() -> (r: Self)
        ensures
            r@ == (GroupView::<T> { edges: Seq::empty(), terminal: false }),
    {
        let r = LengthGroupedNode { children: Vec::new(), is_terminal: false };
        proof {
            assert(r@.edges =~= Seq::<((int, Seq<Seq<T>>), GroupView<T>)>::empty());
        }
        r
    }

    /// The merged child of one sibling group: grandchildren of the selected
    /// children are unioned (later canonical labels overwriting earlier
    /// equal ones), terminal flags are or-ed, and the union is grouped by
    /// length again.
    fn merge_children_by_length_group<'a>(
        original_children: &Vec<(Vec<T>, &'a TrieNode<T>)>,
        segments_in_group: &Vec<Vec<T>>,
    ) -> (r: Self)
        ensures
            r@ == spec_merge(pair_views(original_children@), seq_views(segments_in_group@)),
        decreases edges_depth(pair_views(original_children@), 0), 1int,
    {
        let ghost cv = pair_views(original_children@);
        let ghost sv = seq_views(segments_in_group@);

        // union the grandchildren of the selected children, or their
        // terminal flags
        let mut grand: Vec<(Vec<T>, &'a TrieNode<T>)> = Vec::new();
        proof {
            assert(pair_views(grand@) =~= Seq::<(Seq<T>, TrieView<T>)>::empty());
        }
        let mut any_terminal = false;
        let mut j: usize = 0;
        while j < segments_in_group.len()
            invariant
                cv == pair_views(original_children@),
                sv == seq_views(segments_in_group@),
                sv.len() == segments_in_group@.len(),
                0 <= j as int <= sv.len(),
                gather(cv, sv, 0, Seq::empty(), false) == gather(
                    cv,
                    sv,
                    j as int,
                    pair_views(grand@),
                    any_terminal,
                ),
            decreases segments_in_group@.len() - j,
        {
            match find_child(original_children, &segments_in_group[j]) {
                Option::None => {
                    proof {
                        assert(lookup_from(cv, sv[j as int], 0) is None);
                    }
                },
                Option::Some(child_node) => {
                    proof {
                        assert(lookup_from(cv, sv[j as int], 0) == Some(child_node@));
                    }
                    let ghost g0 = pair_views(grand@);
                    let ghost ces = child_node@.edges;
                    if child_node.is_terminal() {
                        any_terminal = true;
                    }
                    let mut g: usize = 0;
                    while g < child_node.num_children()
                        invariant
                            ces == child_node@.edges,
                            0 <= g as int <= ces.len(),
                            upsert_edges(g0, ces, 0) == upsert_edges(
                                pair_views(grand@),
                                ces,
                                g as int,
                            ),
                        decreases child_node@.edges.len() - g,
                    {
                        let kseg = crate::trie::copy_seq(child_node.child_segment(g));
                        let cn = child_node.child_node(g);
                        proof {
                            assert(kseg@ == ces[g as int].0);
                            assert(cn@ == ces[g as int].1);
                        }
                        upsert_child(&mut grand, kseg, cn);
                        g = g + 1;
                    }
                },
            }
            j = j + 1;
        }
        let ghost gt = gather(cv, sv, 0, Seq::empty(), false);
        let ghost grandv = pair_views(grand@);
        proof {
            assert(gt == (grandv, any_terminal));
        }

        // regroup the union by label length
        let lens = collect_lengths(&grand);
        let ghost lensv = lens_views(lens@);
        let mut result_children: Vec<(LengthGroupKey<T>, LengthGroupedNode<T>)> = Vec::new();
        let mut m: usize = 0;
        while m < lens.len()
            invariant
                cv == pair_views(original_children@),
                sv == seq_views(segments_in_group@),
                grandv == pair_views(grand@),
                grandv == gather(cv, sv, 0, Seq::empty(), false).0,
                lensv == lens_views(lens@),
                lensv == distinct_keys(grandv, len_key_fn::<T>()),
                lensv.len() == lens@.len(),
                0 <= m as int <= lensv.len(),
                gview_children(result_children@) + sub_edges(cv, grandv, lensv, m as int)
                    == sub_edges(cv, grandv, lensv, 0),
            decreases lens@.len() - m,
        {
            let n = lens[m];
            let segs = collect_segs_of_len(&grand, n);
            proof {
                // the bucket is non-empty, so the union sits strictly below
                // the children it came from
                crate::seq_util::lemma_distinct_keys(grandv, len_key_fn::<T>());
                let ghost nn = lensv[m as int];
                let w = choose|w: int|
                    0 <= w < grandv.len() && len_key_fn::<T>()(#[trigger] grandv[w]) == nn;
                lemma_gather_depth(cv, sv, 0, Seq::empty(), false);
                lemma_edges_depth_bound(grandv, 0);
                lemma_edges_depth_bound(cv, 0);
                assert(tview_depth(grandv[w].1) >= 1) by {
                    lemma_edges_depth_bound(grandv[w].1.edges, 0);
                }
                assert(edges_depth(grandv, 0) >= 1);
                assert(edges_depth(grandv, 0) < edges_depth(cv, 0));
            }
            let child = Self::merge_children_by_length_group(&grand, &segs);
            let key = LengthGroupKey { length: n, segments: segs };
            let ghost prev = result_children@;
            let ghost prev_edges = gview_children(result_children@);
            result_children.push((key, child));
            proof {
                lemma_gview_children(prev);
                let q = prev.push((key, child));
                assert(q.drop_last() =~= prev);
                assert(gview_children(q) == gview_children(prev).push((key@, child@)));
                assert(key@ == (n as int, canon(seg_list(grandv, n as int))));
                assert(sub_edges(cv, grandv, lensv, m as int) == seq![
                    (
                        (lensv[m as int], canon(seg_list(grandv, lensv[m as int]))),
                        spec_merge(grandv, canon(seg_list(grandv, lensv[m as int]))),
                    ),
                ] + sub_edges(cv, grandv, lensv, m as int + 1));
                assert(gview_children(result_children@) + sub_edges(cv, grandv, lensv, m as int + 1)
                    =~= prev_edges + sub_edges(cv, grandv, lensv, m as int));
            }
            m = m + 1;
        }
        proof {
            assert(sub_edges(cv, grandv, lensv, lens@.len() as int) =~= Seq::<
                ((int, Seq<Seq<T>>), GroupView<T>),
            >::empty());
            assert(gview_children(result_children@) =~= gview_children(result_children@)
                + sub_edges(cv, grandv, lensv, lens@.len() as int));
        }
        LengthGroupedNode { children: result_children, is_terminal: any_terminal }
    }

    /// The length-grouped abstraction of one segmented-trie node: the
    /// terminal flag is copied and the children are bucketed by label
    /// length, one merged child per distinct length.
    fn transform_node_recursive(current_node: &TrieNode<T>) -> (r: Self)
        ensures
            r@ == spec_transform(current_node@),
    {
        let ghost v = current_node@;
        let mut refs: Vec<(Vec<T>, &TrieNode<T>)> = Vec::new();
        let mut i: usize = 0;
        let nc = current_node.num_children();
        while i < nc
            invariant
                v == current_node@,
                nc as int == v.edges.len(),
                0 <= i as int <= v.edges.len(),
                pair_views(refs@) == v.edges.take(i as int),
            decreases v.edges.len() - i,
        {
            let kseg = crate::trie::copy_seq(current_node.child_segment(i));
            let cn = current_node.child_node(i);
            let ghost prev = refs@;
            refs.push((kseg, cn));
            proof {
                lemma_pair_views_push(prev, (kseg, cn));
                assert(pair_views(refs@) =~= v.edges.take(i as int + 1));
            }
            i = i + 1;
        }
        proof {
            crate::seq_util::lemma_take_full(v.edges);
            assert(pair_views(refs@) == v.edges);
        }
        let lens = collect_lengths(&refs);
        let ghost lensv = lens_views(lens@);
        let mut result_children: Vec<(LengthGroupKey<T>, LengthGroupedNode<T>)> = Vec::new();
        let mut m: usize = 0;
        while m < lens.len()
            invariant
                v == current_node@,
                pair_views(refs@) == v.edges,
                lensv == lens_views(lens@),
                lensv == distinct_keys(v.edges, len_key_fn::<T>()),
                lensv.len() == lens@.len(),
                0 <= m as int <= lensv.len(),
                gview_children(result_children@) + top_edges(v.edges, lensv, m as int) == top_edges(
                    v.edges,
                    lensv,
                    0,
                ),
            decreases lens@.len() - m,
        {
            let n = lens[m];
            let segs = collect_segs_of_len(&refs, n);
            let child = Self::merge_children_by_length_group(&refs, &segs);
            let key = LengthGroupKey { length: n, segments: segs };
            let ghost prev = result_children@;
            let ghost prev_edges = gview_children(result_children@);
            result_children.push((key, child));
            proof {
                lemma_gview_children(prev);
                let q = prev.push((key, child));
                assert(q.drop_last() =~= prev);
                assert(gview_children(q) == gview_children(prev).push((key@, child@)));
                assert(key@ == (n as int, canon(seg_list(v.edges, n as int))));
                assert(top_edges(v.edges, lensv, m as int) == seq![
                    (
                        (lensv[m as int], canon(seg_list(v.edges, lensv[m as int]))),
                        spec_merge(v.edges, canon(seg_list(v.edges, lensv[m as int]))),
                    ),
                ] + top_edges(v.edges, lensv, m as int + 1));
                assert(gview_children(result_children@) + top_edges(v.edges, lensv, m as int + 1)
                    =~= prev_edges + top_edges(v.edges, lensv, m as int));
            }
            m = m + 1;
        }
        proof {
            assert(top_edges(v.edges, lensv, lens@.len() as int) =~= Seq::<
                ((int, Seq<Seq<T>>), GroupView<T>),
            >::empty());
            assert(gview_children(result_children@) =~= gview_children(result_children@)
                + top_edges(v.edges, lensv, lens@.len() as int));
        }
        LengthGroupedNode { children: result_children, is_terminal: current_node.is_terminal() }
    }

    /// The length-grouped trie of a segmented trie, built bottom-up from its
    /// root.
    pub fn from_trie(trie_root: &TrieNode<T>) -> (r: Self)
        ensures
            r@ == spec_transform(trie_root@),
            r@.terminal == trie_root@.terminal,
    {
        Self::transform_node_recursive(trie_root)
    }

    /// Whether any sequence folded into this node ended here.
    pub fn is_terminal(&self) -> (b: bool)
        ensures
            b == self@.terminal,
    {
        self.is_terminal
    }

    /// The number of merged children of this node.
    pub fn num_children(&self) -> (n: usize)
        ensures
            n as int == self@.edges.len(),
    {
        proof {
            lemma_gview_children(self.children@);
        }
        self.children.len()
    }

    /// The key of the `i`-th merged child.
    pub fn child_key(&self, i: usize) -> (k: &LengthGroupKey<T>)
        requires
            i < self@.edges.len(),
        ensures
            k@ == self@.edges[i as int].0,
    {
        proof {
            lemma_gview_children(self.children@);
        }
        &self.children[i].0
    }

    /// The `i`-th merged child.
    pub fn child_node(&self, i: usize) -> (n: &Self)
        requires
            i < self@.edges.len(),
        ensures
            n@ == self@.edges[i as int].1,
    {
        proof {
            lemma_gview_children(self.children@);
        }
        &self.children[i].1
    }
}

} // verus!
