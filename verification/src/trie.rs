use vstd::prelude::*;

use crate::order::canon;
use crate::order::insert_canon;
use crate::order::lemma_insert_canon_scan;
use crate::order::seq_le_antisymmetric;
use crate::order::seq_le;
use crate::order::lemma_canon;
use crate::order::lemma_sorted_unique_equal;
use crate::order::seq_compare;
use crate::seq_util::distinct_keys;
use crate::seq_util::lemma_distinct_keys;
use crate::seq_util::lemma_distinct_keys_take_step;
use crate::seq_util::lemma_filter_take_step;
use crate::seq_util::lemma_max_len;
use crate::seq_util::lemma_max_len_filter;
use crate::seq_util::lemma_take_full;
use crate::seq_util::max_len;
use crate::token::Token;
use crate::token::TokenCmp;
use crate::token::tokens_equal;
use vstd::string::StrSliceExecFns;

verus! {

broadcast use
    vstd::std_specs::vec::group_vec_axioms,
    vstd::seq::group_seq_axioms,
    vstd::seq_lib::group_filter_ensures,
;

// ---------------------------------------------------------------------------
// The segmented trie and its mathematical model
// ---------------------------------------------------------------------------

/// A node of a segmented trie: edges to children are labelled with non-empty
/// token segments, and the terminal flag records that some input sequence
/// ends exactly here.
pub struct TrieNode<T> {
    children: Vec<(Vec<T>, TrieNode<T>)>,
    is_terminal: bool,
}

/// The mathematical model of a segmented trie node: the edge list, in order,
/// with each label as a token sequence, plus the terminal flag.
pub struct TrieView<T> {
    pub edges: Seq<(Seq<T>, TrieView<T>)>,
    pub terminal: bool,
}

/// The models of an edge list, in order.
pub closed spec fn view_children<T>(cs: Seq<(Vec<T>, TrieNode<T>)>) -> Seq<(Seq<T>, TrieView<T>)>
    decreases cs,
{
    if cs.len() == 0 {
        Seq::empty()
    } else {
        view_children(cs.drop_last()).push((cs.last().0@, cs.last().1@))
    }
}

impl<T> View for TrieNode<T> {
    type V = TrieView<T>;

    closed spec fn view(&self) -> TrieView<T>
        decreases self,
    {
        TrieView { edges: view_children(self.children@), terminal: self.is_terminal }
    }
}

/// Pointwise description of `view_children`.
pub proof fn lemma_view_children<T>(cs: Seq<(Vec<T>, TrieNode<T>)>)
    ensures
        view_children(cs).len() == cs.len(),
        forall|i: int|
            0 <= i < cs.len() ==> #[trigger] view_children(cs)[i] == ((cs[i].0)@, (cs[i].1)@),
    decreases cs.len(),
{
    if cs.len() == 0 {
        assert(view_children(cs) =~= Seq::<(Seq<T>, TrieView<T>)>::empty());
    } else {
        lemma_view_children(cs.drop_last());
        assert(forall|i: int| 0 <= i < cs.len() - 1 ==> cs.drop_last()[i] == cs[i]);
        assert(view_children(cs) == view_children(cs.drop_last()).push(
            (cs.last().0@, cs.last().1@),
        ));
        assert(view_children(cs).len() == cs.len());
    }
}

/// The model of a node with no children and a cleared terminal flag.
pub open spec fn empty_view<T>() -> TrieView<T> {
    TrieView { edges: Seq::empty(), terminal: false }
}

/// The views of a list of token vectors.
pub open spec fn seq_views<T>(s: Seq<Vec<T>>) -> Seq<Seq<T>> {
    s.map_values(|v: Vec<T>| v@)
}

// ---------------------------------------------------------------------------
// Small spec helpers over sequence lists
// ---------------------------------------------------------------------------

/// `p` is an initial run of `s`.
pub open spec fn is_prefix_of<T>(p: Seq<T>, s: Seq<T>) -> bool {
    p.len() <= s.len() && p == s.take(p.len() as int)
}

/// Every sequence in the list reaches at least `pos`.
pub open spec fn all_len_at_least<T>(seqs: Seq<Seq<T>>, pos: int) -> bool {
    forall|i: int| 0 <= i < seqs.len() ==> (#[trigger] seqs[i]).len() >= pos
}

/// Some sequence in the list ends exactly at `pos`.
pub open spec fn has_end_at<T>(seqs: Seq<Seq<T>>, pos: int) -> bool {
    exists|i: int| 0 <= i < seqs.len() && (#[trigger] seqs[i]).len() == pos
}

/// The sequences that continue past `pos`.
pub open spec fn valid_of<T>(seqs: Seq<Seq<T>>, pos: int) -> Seq<Seq<T>> {
    seqs.filter(|s: Seq<T>| s.len() > pos)
}

/// All sequences continue past `i` and agree there with the first one.
pub open spec fn agree_at<T>(seqs: Seq<Seq<T>>, i: int) -> bool {
    forall|k: int|
        0 <= k < seqs.len() ==> (#[trigger] seqs[k]).len() > i && seqs[k][i] == seqs[0][i]
}

/// The number of consecutive positions from `i` on at which all sequences
/// agree.
pub open spec fn lcp_from<T>(seqs: Seq<Seq<T>>, i: int) -> int
    decreases (if seqs.len() > 0 {
        seqs[0].len() - i
    } else {
        0
    }),
{
    if seqs.len() == 0 {
        0
    } else if agree_at(seqs, i) {
        1 + lcp_from(seqs, i + 1)
    } else {
        0
    }
}

/// The longest common prefix length of the list from `pos` on; `0` for lists
/// of at most one sequence.
pub open spec fn lcp<T>(seqs: Seq<Seq<T>>, pos: int) -> int {
    if seqs.len() <= 1 {
        0
    } else {
        lcp_from(seqs, pos)
    }
}

/// What immediately follows position `p` of `s`: the next token, or `None`
/// when the sequence ends at `p`.
pub open spec fn nkey<T>(s: Seq<T>, p: int) -> Option<T> {
    if s.len() > p {
        Some(s[p])
    } else {
        None
    }
}

// ---------------------------------------------------------------------------
// Divergent segmentation
// ---------------------------------------------------------------------------

/// `q` continues past `pos` with exactly the tokens of `seg`.
pub open spec fn shares_seg<T>(q: Seq<T>, pos: int, seg: Seq<T>) -> bool {
    q.len() >= pos + seg.len() && q.subrange(pos, pos + seg.len()) == seg
}

/// The sequences of the candidate set that share `seg` at `pos`.
pub open spec fn sharing_of<T>(all: Seq<Seq<T>>, pos: int, seg: Seq<T>) -> Seq<Seq<T>> {
    all.filter(|q: Seq<T>| shares_seg(q, pos, seg))
}

/// A segment boundary is accepted when at most one sequence shares the
/// segment, or when the sharing sequences disagree about what follows it
/// (including "ends here" against "continues").
pub open spec fn good_break<T>(all: Seq<Seq<T>>, pos: int, seg: Seq<T>) -> bool {
    let sharing = sharing_of(all, pos, seg);
    ||| sharing.len() <= 1
    ||| exists|i: int, j: int|
        0 <= i < sharing.len() && 0 <= j < sharing.len() && nkey(
            #[trigger] sharing[i],
            pos + seg.len(),
        ) != nkey(#[trigger] sharing[j], pos + seg.len())
}

/// The segment length for `s` at `pos`: the first candidate length `>= k`
/// that is an accepted boundary, or all of the remaining tokens.
pub open spec fn dlen_from<T>(s: Seq<T>, all: Seq<Seq<T>>, pos: int, k: int) -> int
    decreases s.len() - pos - k,
{
    if k >= s.len() - pos {
        s.len() - pos
    } else if good_break(all, pos, s.subrange(pos, pos + k)) {
        k
    } else {
        dlen_from(s, all, pos, k + 1)
    }
}

/// The segment that `s` contributes under divergent segmentation: its tokens
/// from `pos` until the first accepted boundary.
pub open spec fn seg_until_div<T>(s: Seq<T>, all: Seq<Seq<T>>, pos: int) -> Seq<T> {
    if s.len() <= pos {
        Seq::empty()
    } else {
        s.subrange(pos, pos + dlen_from(s, all, pos, 1))
    }
}

// ---------------------------------------------------------------------------
// Optimal segment of a first-token group
// ---------------------------------------------------------------------------

/// All sequences of the group reach `pos + len` and agree with the first
/// member on the tokens in `[pos, pos + len)`.
pub open spec fn all_share<T>(grp: Seq<Seq<T>>, pos: int, len: int) -> bool {
    forall|k: int|
        0 <= k < grp.len() ==> (#[trigger] grp[k]).len() >= pos + len && grp[k].subrange(
            pos,
            pos + len,
        ) == grp[0].subrange(pos, pos + len)
}

/// Greedy extension: the largest shared length reachable from `k`, capped by
/// the first member's end.
pub open spec fn opt_len_from<T>(grp: Seq<Seq<T>>, pos: int, k: int) -> int
    decreases (if grp.len() > 0 {
        grp[0].len() - pos - k
    } else {
        0
    }),
{
    if grp.len() == 0 {
        k
    } else if k >= grp[0].len() - pos {
        k
    } else if all_share(grp, pos, k + 1) {
        opt_len_from(grp, pos, k + 1)
    } else {
        k
    }
}

/// The optimal segment length of a group that already shares its first
/// token.
pub open spec fn opt_len<T>(grp: Seq<Seq<T>>, pos: int) -> int {
    opt_len_from(grp, pos, 1)
}

// ---------------------------------------------------------------------------
// The build algorithm as a specification
// ---------------------------------------------------------------------------

/// The termination measure of the builder: how far the longest sequence
/// reaches past `pos`.
pub open spec fn build_measure<T>(seqs: Seq<Seq<T>>, pos: int) -> int {
    if max_len(seqs) >= pos {
        max_len(seqs) - pos
    } else {
        0
    }
}

/// The key function grouping the divergent segmentation: each sequence's own
/// segment-until-divergence.
pub open spec fn div_key_fn<T: Token>(valid: Seq<Seq<T>>, pos: int) -> spec_fn(Seq<T>) -> Seq<T> {
    |s: Seq<T>| seg_until_div(s, valid, pos)
}

/// Membership test of one divergent-segmentation group.
pub open spec fn div_pred<T: Token>(valid: Seq<Seq<T>>, pos: int, seg: Seq<T>) -> spec_fn(
    Seq<T>,
) -> bool {
    |s: Seq<T>| seg_until_div(s, valid, pos) == seg
}

/// The key function grouping by the token at `pos`.
pub open spec fn tok_key_fn<T: Token>(pos: int) -> spec_fn(Seq<T>) -> T {
    |s: Seq<T>| s[pos]
}

/// Membership test of one first-token group.
pub open spec fn tok_pred<T: Token>(pos: int, t: T) -> spec_fn(Seq<T>) -> bool {
    |s: Seq<T>| s.len() > pos && s[pos] == t
}

/// The key function grouping by what follows a common prefix ending at `p`.
pub open spec fn nkey_fn<T: Token>(p: int) -> spec_fn(Seq<T>) -> Option<T> {
    |s: Seq<T>| nkey(s, p)
}

/// The distinct segments of the divergent segmentation, in order of first
/// occurrence.
pub open spec fn div_keys<T: Token>(valid: Seq<Seq<T>>, pos: int) -> Seq<Seq<T>> {
    distinct_keys(valid, div_key_fn(valid, pos))
}

/// The edges built by divergent segmentation, one per distinct segment, each
/// child built recursively from the sequences grouped under that segment.
///
/// The inner `build_measure` test guards the recursion; it holds for every
/// group that actually arises during construction.
pub open spec fn div_edges<T: Token>(
    pos: int,
    valid: Seq<Seq<T>>,
    keys: Seq<Seq<T>>,
    j: int,
) -> Seq<(Seq<T>, TrieView<T>)>
    decreases build_measure(valid, pos), 0int, keys.len() - j,
{
    if j < 0 || j >= keys.len() {
        Seq::empty()
    } else {
        let seg = keys[j];
        let grp = valid.filter(div_pred(valid, pos, seg));
        let child = if build_measure(grp, pos + seg.len()) < build_measure(valid, pos) {
            spec_build(grp, pos + seg.len())
        } else {
            empty_view()
        };
        seq![(seg, child)] + div_edges(pos, valid, keys, j + 1)
    }
}

/// The edges built by first-token grouping, one per distinct first token,
/// each labelled with the group's optimal segment.
///
/// The inner `build_measure` test guards the recursion; it holds for every
/// group that actually arises during construction.
pub open spec fn tok_edges<T: Token>(
    pos: int,
    valid: Seq<Seq<T>>,
    keys: Seq<T>,
    j: int,
) -> Seq<(Seq<T>, TrieView<T>)>
    decreases build_measure(valid, pos), 0int, keys.len() - j,
{
    if j < 0 || j >= keys.len() {
        Seq::empty()
    } else {
        let grp = valid.filter(tok_pred(pos, keys[j]));
        let ol = opt_len(grp, pos);
        let seg = if grp.len() > 0 {
            grp[0].subrange(pos, pos + ol)
        } else {
            Seq::empty()
        };
        let child = if build_measure(grp, pos + ol) < build_measure(valid, pos) {
            spec_build(grp, pos + ol)
        } else {
            empty_view()
        };
        seq![(seg, child)] + tok_edges(pos, valid, keys, j + 1)
    }
}

/// The edges built when the sequences share a common prefix of length
/// `l > 0`: a single continuation absorbs the prefix as one edge; several
/// continuations fall back to divergent segmentation.
///
/// The inner `build_measure` test guards the recursion; it holds whenever
/// this is reached during construction.
pub open spec fn cp_edges<T: Token>(valid: Seq<Seq<T>>, pos: int, l: int) -> Seq<
    (Seq<T>, TrieView<T>),
>
    decreases build_measure(valid, pos), 0int, div_keys(valid, pos).len() + 1,
{
    let keys = distinct_keys(valid, nkey_fn(pos + l));
    if keys.len() == 1 {
        let seg = valid[0].subrange(pos, pos + l);
        let child = if build_measure(valid, pos + l) < build_measure(valid, pos) {
            spec_build(valid, pos + l)
        } else {
            empty_view()
        };
        seq![(seg, child)]
    } else {
        div_edges(pos, valid, div_keys(valid, pos), 0)
    }
}

/// The segmented trie built from `seqs` with the first `pos` tokens already
/// consumed by ancestor segments.
///
/// The node is terminal exactly when some sequence ends at `pos`. Sequences
/// that continue are segmented: a common prefix with a single continuation is
/// absorbed as one edge; a common prefix with several continuations falls
/// back to divergent segmentation; with no common prefix the sequences are
/// grouped by their first token.
pub open spec fn spec_build<T: Token>(seqs: Seq<Seq<T>>, pos: int) -> TrieView<T>
    decreases build_measure(seqs, pos), 1int, 0int,
{
    let terminal = has_end_at(seqs, pos);
    let valid = valid_of(seqs, pos);
    if valid.len() == 0 {
        TrieView { edges: Seq::empty(), terminal }
    } else {
        proof {
            lemma_max_len_filter(seqs, |s: Seq<T>| s.len() > pos);
        }
        let l = lcp(valid, pos);
        if l > 0 {
            TrieView { edges: cp_edges(valid, pos, l), terminal }
        } else {
            TrieView {
                edges: tok_edges(pos, valid, distinct_keys(valid, tok_key_fn(pos)), 0),
                terminal,
            }
        }
    }
}

/// The model of the trie built from an input list: the list is first brought
/// to canonical form (sorted, duplicates removed), then segmented from the
/// start.
pub open spec fn spec_from_sequences<T: Token>(seqs: Seq<Seq<T>>) -> TrieView<T> {
    spec_build(canon(seqs), 0)
}

// ---------------------------------------------------------------------------
// Properties of trie models
// ---------------------------------------------------------------------------

/// Walking the trie along `s`: some edge label is a non-empty prefix of `s`
/// and the rest of `s` is contained in that child; the empty walk ends at a
/// terminal node.
pub open spec fn trie_contains<T>(v: TrieView<T>, s: Seq<T>) -> bool
    decreases v,
{
    if s.len() == 0 {
        v.terminal
    } else {
        exists|i: int|
            0 <= i < v.edges.len() && (#[trigger] v.edges[i].0).len() >= 1 && is_prefix_of(
                v.edges[i].0,
                s,
            ) && trie_contains(v.edges[i].1, s.skip(v.edges[i].0.len() as int))
    }
}

/// At every node of the trie, no two sibling edge labels are equal and none
/// is a token-wise prefix of another.
pub open spec fn no_overlap<T>(v: TrieView<T>) -> bool
    decreases v,
{
    &&& forall|i: int, j: int|
        0 <= i < v.edges.len() && 0 <= j < v.edges.len() && i != j ==> !is_prefix_of(
            #[trigger] v.edges[i].0,
            #[trigger] v.edges[j].0,
        )
    &&& forall|i: int| 0 <= i < v.edges.len() ==> no_overlap(#[trigger] v.edges[i].1)
}

// ---------------------------------------------------------------------------
// Structure of the built edges
// ---------------------------------------------------------------------------

/// Some sequence of the candidate set contributes `seg` as its divergence
/// segment.
pub open spec fn seg_key_of_some<T: Token>(valid: Seq<Seq<T>>, pos: int, seg: Seq<T>) -> bool {
    exists|w: int| 0 <= w < valid.len() && seg_until_div(#[trigger] valid[w], valid, pos) == seg
}

/// Some sequence of the candidate set carries `t` at `pos`.
pub open spec fn tok_key_of_some<T: Token>(valid: Seq<Seq<T>>, pos: int, t: T) -> bool {
    exists|w: int| 0 <= w < valid.len() && (#[trigger] valid[w])[pos] == t
}

/// The greedy extension keeps the group sharing its segment.
proof fn lemma_opt_len_share<T: Token>(grp: Seq<Seq<T>>, pos: int, k: int)
    requires
        grp.len() > 0,
        all_share(grp, pos, k),
    ensures
        all_share(grp, pos, opt_len_from(grp, pos, k)),
    decreases (if grp[0].len() - pos - k > 0 {
        grp[0].len() - pos - k
    } else {
        0
    }),
{
    if k >= grp[0].len() - pos {
    } else if all_share(grp, pos, k + 1) {
        lemma_opt_len_share(grp, pos, k + 1);
    }
}

/// Facts about one divergent-segmentation group: it is non-empty, all its
/// members extend the segment, and building it recurses on a smaller
/// measure.
proof fn lemma_div_group_facts<T: Token>(valid: Seq<Seq<T>>, pos: int, seg: Seq<T>, w: int)
    requires
        0 <= pos,
        valid.len() > 0,
        forall|i: int| 0 <= i < valid.len() ==> (#[trigger] valid[i]).len() > pos,
        0 <= w < valid.len(),
        seg_until_div(valid[w], valid, pos) == seg,
    ensures
        seg.len() >= 1,
        valid.filter(div_pred(valid, pos, seg)).len() > 0,
        forall|t: int|
            0 <= t < valid.filter(div_pred(valid, pos, seg)).len() ==> (#[trigger] valid.filter(
                div_pred(valid, pos, seg),
            )[t]).len() >= pos + seg.len(),
        all_len_at_least(valid.filter(div_pred(valid, pos, seg)), pos + seg.len()),
        build_measure(valid.filter(div_pred(valid, pos, seg)), pos + seg.len()) < build_measure(
            valid,
            pos,
        ),
{
    let gpred = div_pred(valid, pos, seg);
    let grp = valid.filter(gpred);
    lemma_seg_until_div(valid[w], valid, pos);
    assert(seg.len() >= 1);
    assert(gpred(valid[w]));
    valid.lemma_filter_contains(gpred, w);
    assert(grp.len() > 0);
    assert forall|t: int| 0 <= t < grp.len() implies (#[trigger] grp[t]).len() >= pos
        + seg.len() by {
        valid.lemma_filter_pred(gpred, t);
        valid.lemma_filter_contains_rev(gpred, grp[t]);
        let u = choose|u: int| 0 <= u < valid.len() && valid[u] == grp[t];
        lemma_seg_until_div(grp[t], valid, pos);
    }
    lemma_max_len_filter(valid, gpred);
    lemma_max_len(valid);
    assert(valid[0].len() <= max_len(valid));
}

/// Facts about one first-token group: it is non-empty, shares its first
/// token, reaches past its optimal segment, and building it recurses on a
/// smaller measure.
proof fn lemma_tok_group_facts<T: Token>(valid: Seq<Seq<T>>, pos: int, t: T, w: int)
    requires
        0 <= pos,
        valid.len() > 0,
        forall|i: int| 0 <= i < valid.len() ==> (#[trigger] valid[i]).len() > pos,
        0 <= w < valid.len(),
        valid[w][pos] == t,
    ensures
        valid.filter(tok_pred(pos, t)).len() > 0,
        all_share(valid.filter(tok_pred(pos, t)), pos, 1),
        1 <= opt_len(valid.filter(tok_pred(pos, t)), pos) <= valid.filter(tok_pred(pos, t))[0].len()
            - pos,
        all_share(valid.filter(tok_pred(pos, t)), pos, opt_len(valid.filter(tok_pred(pos, t)), pos)),
        all_len_at_least(
            valid.filter(tok_pred(pos, t)),
            pos + opt_len(valid.filter(tok_pred(pos, t)), pos),
        ),
        build_measure(
            valid.filter(tok_pred(pos, t)),
            pos + opt_len(valid.filter(tok_pred(pos, t)), pos),
        ) < build_measure(valid, pos),
{
    let gpred = tok_pred(pos, t);
    let grp = valid.filter(gpred);
    assert(gpred(valid[w]));
    valid.lemma_filter_contains(gpred, w);
    assert(grp.len() > 0);
    assert forall|q: int| 0 <= q < grp.len() implies (#[trigger] grp[q]).len() > pos && grp[q][pos]
        == t by {
        valid.lemma_filter_pred(gpred, q);
    }
    assert(all_share(grp, pos, 1)) by {
        assert forall|q: int| 0 <= q < grp.len() implies (#[trigger] grp[q]).len() >= pos + 1
            && grp[q].subrange(pos, pos + 1) == grp[0].subrange(pos, pos + 1) by {
            assert(grp[q].subrange(pos, pos + 1) =~= grp[0].subrange(pos, pos + 1));
        }
    }
    lemma_opt_len_from_bounds(grp, pos, 1);
    lemma_opt_len_share(grp, pos, 1);
    let ol = opt_len(grp, pos);
    assert forall|q: int| 0 <= q < grp.len() implies (#[trigger] grp[q]).len() >= pos + ol by {
        assert(all_share(grp, pos, ol));
    }
    lemma_max_len_filter(valid, gpred);
    lemma_max_len(valid);
    assert(valid[0].len() <= max_len(valid));
}

/// Pointwise structure of the divergent edges: one edge per key, labelled by
/// the key, whose child is built from the key's group.
proof fn lemma_div_edges_struct<T: Token>(pos: int, valid: Seq<Seq<T>>, keys: Seq<Seq<T>>, j0: int)
    requires
        0 <= pos,
        valid.len() > 0,
        forall|i: int| 0 <= i < valid.len() ==> (#[trigger] valid[i]).len() > pos,
        0 <= j0 <= keys.len(),
        forall|m: int| j0 <= m < keys.len() ==> seg_key_of_some(valid, pos, #[trigger] keys[m]),
    ensures
        div_edges(pos, valid, keys, j0).len() == keys.len() - j0,
        forall|m: int|
            j0 <= m < keys.len() ==> #[trigger] div_edges(pos, valid, keys, j0)[m - j0] == (
            keys[m],
            spec_build(valid.filter(div_pred(valid, pos, keys[m])), pos + keys[m].len()),
            ),
    decreases keys.len() - j0,
{
    if j0 == keys.len() {
    } else {
        assert(seg_key_of_some(valid, pos, keys[j0]));
        let w = choose|w: int|
            0 <= w < valid.len() && seg_until_div(#[trigger] valid[w], valid, pos) == keys[j0];
        lemma_div_group_facts(valid, pos, keys[j0], w);
        let grp = valid.filter(div_pred(valid, pos, keys[j0]));
        assert(div_edges(pos, valid, keys, j0) == seq![
            (keys[j0], spec_build(grp, pos + keys[j0].len())),
        ] + div_edges(pos, valid, keys, j0 + 1));
        lemma_div_edges_struct(pos, valid, keys, j0 + 1);
        assert forall|m: int| j0 <= m < keys.len() implies #[trigger] div_edges(
            pos,
            valid,
            keys,
            j0,
        )[m - j0] == (
        keys[m],
        spec_build(valid.filter(div_pred(valid, pos, keys[m])), pos + keys[m].len()),
        ) by {
            if m > j0 {
                assert(div_edges(pos, valid, keys, j0)[m - j0] == div_edges(
                    pos,
                    valid,
                    keys,
                    j0 + 1,
                )[m - (j0 + 1)]);
            }
        }
    }
}

/// Pointwise structure of the first-token edges: one edge per distinct
/// token, labelled by its group's optimal segment, whose child is built from
/// that group.
proof fn lemma_tok_edges_struct<T: Token>(pos: int, valid: Seq<Seq<T>>, keys: Seq<T>, j0: int)
    requires
        0 <= pos,
        valid.len() > 0,
        forall|i: int| 0 <= i < valid.len() ==> (#[trigger] valid[i]).len() > pos,
        0 <= j0 <= keys.len(),
        forall|m: int| j0 <= m < keys.len() ==> tok_key_of_some(valid, pos, #[trigger] keys[m]),
    ensures
        tok_edges(pos, valid, keys, j0).len() == keys.len() - j0,
        forall|m: int|
            j0 <= m < keys.len() ==> #[trigger] tok_edges(pos, valid, keys, j0)[m - j0] == (
            valid.filter(tok_pred(pos, keys[m]))[0].subrange(
                pos,
                pos + opt_len(valid.filter(tok_pred(pos, keys[m])), pos),
            ),
            spec_build(
                valid.filter(tok_pred(pos, keys[m])),
                pos + opt_len(valid.filter(tok_pred(pos, keys[m])), pos),
            ),
            ),
    decreases keys.len() - j0,
{
    if j0 == keys.len() {
    } else {
        assert(tok_key_of_some(valid, pos, keys[j0]));
        let w = choose|w: int| 0 <= w < valid.len() && (#[trigger] valid[w])[pos] == keys[j0];
        lemma_tok_group_facts(valid, pos, keys[j0], w);
        let grp = valid.filter(tok_pred(pos, keys[j0]));
        let ol = opt_len(grp, pos);
        assert(tok_edges(pos, valid, keys, j0) == seq![
            (grp[0].subrange(pos, pos + ol), spec_build(grp, pos + ol)),
        ] + tok_edges(pos, valid, keys, j0 + 1));
        lemma_tok_edges_struct(pos, valid, keys, j0 + 1);
        assert forall|m: int| j0 <= m < keys.len() implies #[trigger] tok_edges(
            pos,
            valid,
            keys,
            j0,
        )[m - j0] == (
        valid.filter(tok_pred(pos, keys[m]))[0].subrange(
            pos,
            pos + opt_len(valid.filter(tok_pred(pos, keys[m])), pos),
        ),
        spec_build(
            valid.filter(tok_pred(pos, keys[m])),
            pos + opt_len(valid.filter(tok_pred(pos, keys[m])), pos),
        ),
        ) by {
            if m > j0 {
                assert(tok_edges(pos, valid, keys, j0)[m - j0] == tok_edges(
                    pos,
                    valid,
                    keys,
                    j0 + 1,
                )[m - (j0 + 1)]);
            }
        }
    }
}

// ---------------------------------------------------------------------------
// Round-trip coverage and exact terminality
// ---------------------------------------------------------------------------

/// Every input sequence that reaches `pos` is spelled by the built trie from
/// `pos` on, ending at a terminal node; and the node is terminal exactly when
/// some sequence ends at `pos`.
pub proof fn lemma_build_contains<T: Token>(seqs: Seq<Seq<T>>, pos: int)
    requires
        0 <= pos,
        all_len_at_least(seqs, pos),
    ensures
        forall|i: int|
            0 <= i < seqs.len() ==> trie_contains(
                spec_build(seqs, pos),
                (#[trigger] seqs[i]).skip(pos),
            ),
        spec_build(seqs, pos).terminal == has_end_at(seqs, pos),
    decreases build_measure(seqs, pos),
{
    let v = spec_build(seqs, pos);
    let valid = valid_of(seqs, pos);
    let vpred = |s: Seq<T>| s.len() > pos;
    assert(v.terminal == has_end_at(seqs, pos));
    assert forall|t: int| 0 <= t < valid.len() implies (#[trigger] valid[t]).len() > pos by {
        seqs.lemma_filter_pred(vpred, t);
    }
    lemma_max_len_filter(seqs, vpred);
    assert forall|i: int| 0 <= i < seqs.len() implies trie_contains(
        v,
        (#[trigger] seqs[i]).skip(pos),
    ) by {
        let s = seqs[i];
        if s.len() == pos {
            assert(s.skip(pos).len() == 0);
            assert(has_end_at(seqs, pos));
        } else {
            assert(s.len() > pos);
            assert(vpred(s));
            seqs.lemma_filter_contains(vpred, i);
            let k = choose|k: int| 0 <= k < valid.len() && valid[k] == s;
            assert(valid.len() > 0);
            let l = lcp(valid, pos);
            if l > 0 {
                let keys = distinct_keys(valid, nkey_fn::<T>(pos + l));
                // all of the valid sequences reach the end of the common
                // prefix and agree on it
                assert(valid.len() >= 2);
                lemma_lcp_from_agree(valid, pos);
                assert forall|t: int| 0 <= t < valid.len() implies (#[trigger] valid[t]).len()
                    >= pos + l && valid[t].subrange(pos, pos + l) == valid[0].subrange(
                    pos,
                    pos + l,
                ) by {
                    assert(agree_at(valid, pos + l - 1));
                    assert forall|w: int| 0 <= w < l implies #[trigger] valid[t].subrange(
                        pos,
                        pos + l,
                    )[w] == valid[0].subrange(pos, pos + l)[w] by {
                        assert(agree_at(valid, pos + w));
                        assert(valid[t][pos + w] == valid[0][pos + w]);
                    }
                    assert(valid[t].subrange(pos, pos + l) =~= valid[0].subrange(pos, pos + l));
                }
                lemma_max_len(valid);
                assert(valid[0].len() <= max_len(valid));
                if keys.len() == 1 {
                    let seg = valid[0].subrange(pos, pos + l);
                    assert(build_measure(valid, pos + l) < build_measure(valid, pos));
                    let child = spec_build(valid, pos + l);
                    assert(v.edges == seq![(seg, child)]);
                    lemma_build_contains(valid, pos + l);
                    assert(trie_contains(child, valid[k].skip(pos + l)));
                    assert(is_prefix_of(seg, s.skip(pos))) by {
                        assert(s.skip(pos).take(l) =~= valid[k].subrange(pos, pos + l));
                    }
                    assert(s.skip(pos).skip(l) =~= s.skip(pos + l));
                    assert(v.edges[0].0 == seg && v.edges[0].1 == child);
                    assert(trie_contains(v, s.skip(pos)));
                } else {
                    let dk = div_keys(valid, pos);
                    lemma_distinct_keys(valid, div_key_fn(valid, pos));
                    let sg = seg_until_div(valid[k], valid, pos);
                    assert(div_key_fn(valid, pos)(valid[k]) == sg);
                    assert(dk.contains(sg));
                    let j = choose|j: int| 0 <= j < dk.len() && dk[j] == sg;
                    assert forall|m: int| 0 <= m < dk.len() implies seg_key_of_some(
                        valid,
                        pos,
                        #[trigger] dk[m],
                    ) by {
                        let u = choose|u: int|
                            0 <= u < valid.len() && div_key_fn(valid, pos)(#[trigger] valid[u])
                                == dk[m];
                        assert(seg_until_div(valid[u], valid, pos) == dk[m]);
                    }
                    lemma_div_edges_struct(pos, valid, dk, 0);
                    assert(v.edges == div_edges(pos, valid, dk, 0));
                    lemma_div_group_facts(valid, pos, sg, k);
                    let grp = valid.filter(div_pred(valid, pos, sg));
                    assert(div_pred(valid, pos, sg)(valid[k]));
                    valid.lemma_filter_contains(div_pred(valid, pos, sg), k);
                    let g = choose|g: int| 0 <= g < grp.len() && grp[g] == valid[k];
                    assert(build_measure(grp, pos + sg.len()) < build_measure(seqs, pos));
                    lemma_build_contains(grp, pos + sg.len());
                    assert(trie_contains(spec_build(grp, pos + sg.len()), grp[g].skip(
                        pos + sg.len(),
                    )));
                    lemma_seg_until_div(valid[k], valid, pos);
                    assert(is_prefix_of(sg, s.skip(pos))) by {
                        assert(s.skip(pos).take(sg.len() as int) =~= valid[k].subrange(
                            pos,
                            pos + sg.len(),
                        ));
                    }
                    assert(s.skip(pos).skip(sg.len() as int) =~= s.skip(pos + sg.len()));
                    assert(div_edges(pos, valid, dk, 0)[j - 0] == (sg, spec_build(
                        grp,
                        pos + sg.len(),
                    )));
                    assert(v.edges[j] == (sg, spec_build(grp, pos + sg.len())));
                    assert(sg.len() >= 1);
                    assert(0 <= j < v.edges.len() && v.edges[j].0.len() >= 1 && is_prefix_of(
                        v.edges[j].0,
                        s.skip(pos),
                    ) && trie_contains(v.edges[j].1, s.skip(pos).skip(
                        v.edges[j].0.len() as int,
                    )));
                    assert(trie_contains(v, s.skip(pos)));
                }
            } else {
                let dk = distinct_keys(valid, tok_key_fn::<T>(pos));
                lemma_distinct_keys(valid, tok_key_fn::<T>(pos));
                let t = valid[k][pos];
                assert(tok_key_fn::<T>(pos)(valid[k]) == t);
                assert(dk.contains(t));
                let j = choose|j: int| 0 <= j < dk.len() && dk[j] == t;
                assert forall|m: int| 0 <= m < dk.len() implies tok_key_of_some(
                    valid,
                    pos,
                    #[trigger] dk[m],
                ) by {
                    let u = choose|u: int|
                        0 <= u < valid.len() && tok_key_fn::<T>(pos)(#[trigger] valid[u]) == dk[m];
                    assert(valid[u][pos] == dk[m]);
                }
                lemma_tok_edges_struct(pos, valid, dk, 0);
                assert(v.edges == tok_edges(pos, valid, dk, 0));
                lemma_tok_group_facts(valid, pos, t, k);
                let grp = valid.filter(tok_pred(pos, t));
                assert(tok_pred(pos, t)(valid[k]));
                valid.lemma_filter_contains(tok_pred(pos, t), k);
                let g = choose|g: int| 0 <= g < grp.len() && grp[g] == valid[k];
                let ol = opt_len(grp, pos);
                let seg = grp[0].subrange(pos, pos + ol);
                assert(build_measure(grp, pos + ol) < build_measure(seqs, pos));
                lemma_build_contains(grp, pos + ol);
                assert(trie_contains(spec_build(grp, pos + ol), grp[g].skip(pos + ol)));
                assert(all_share(grp, pos, ol));
                assert(is_prefix_of(seg, s.skip(pos))) by {
                    assert(grp[g].len() >= pos + ol && grp[g].subrange(pos, pos + ol)
                        == grp[0].subrange(pos, pos + ol));
                    assert(s.skip(pos).take(ol) =~= valid[k].subrange(pos, pos + ol));
                }
                assert(s.skip(pos).skip(ol) =~= s.skip(pos + ol));
                assert(tok_edges(pos, valid, dk, 0)[j - 0] == (seg, spec_build(grp, pos + ol)));
                assert(v.edges[j] == (seg, spec_build(grp, pos + ol)));
                assert(seg.len() >= 1);
                assert(0 <= j < v.edges.len() && v.edges[j].0.len() >= 1 && is_prefix_of(
                    v.edges[j].0,
                    s.skip(pos),
                ) && trie_contains(v.edges[j].1, s.skip(pos).skip(v.edges[j].0.len() as int)));
                assert(trie_contains(v, s.skip(pos)));
            }
        }
    }
}

// ---------------------------------------------------------------------------
// The no-overlap invariant
// ---------------------------------------------------------------------------

/// The divergence length is the first accepted boundary: no shorter
/// candidate is accepted, and the result is accepted unless the sequence is
/// exhausted.
proof fn lemma_dlen_first_good<T: Token>(s: Seq<T>, all: Seq<Seq<T>>, pos: int, k: int)
    requires
        1 <= k <= s.len() - pos,
    ensures
        forall|c: int|
            k <= c < dlen_from(s, all, pos, k) ==> !good_break(
                all,
                pos,
                #[trigger] s.subrange(pos, pos + c),
            ),
        dlen_from(s, all, pos, k) < s.len() - pos ==> good_break(
            all,
            pos,
            s.subrange(pos, pos + dlen_from(s, all, pos, k)),
        ),
    decreases s.len() - pos - k,
{
    if k >= s.len() - pos {
    } else if good_break(all, pos, s.subrange(pos, pos + k)) {
    } else {
        lemma_dlen_first_good(s, all, pos, k + 1);
    }
}

/// Distinct divergence segments are never prefixes of one another: had one
/// been a strict prefix of another, it would itself have been an accepted
/// boundary for both sequences.
proof fn lemma_div_segs_prefix_free<T: Token>(valid: Seq<Seq<T>>, pos: int, a: int, b: int)
    requires
        0 <= pos,
        forall|i: int| 0 <= i < valid.len() ==> (#[trigger] valid[i]).len() > pos,
        0 <= a < valid.len(),
        0 <= b < valid.len(),
        seg_until_div(valid[a], valid, pos) != seg_until_div(valid[b], valid, pos),
    ensures
        !is_prefix_of(seg_until_div(valid[a], valid, pos), seg_until_div(valid[b], valid, pos)),
{
    let x = valid[a];
    let y = valid[b];
    let sx = seg_until_div(x, valid, pos);
    let sy = seg_until_div(y, valid, pos);
    lemma_seg_until_div(x, valid, pos);
    lemma_seg_until_div(y, valid, pos);
    lemma_dlen_from_bounds(x, valid, pos, 1);
    lemma_dlen_from_bounds(y, valid, pos, 1);
    let k = sx.len();
    let m = sy.len();
    assert(sx == x.subrange(pos, pos + dlen_from(x, valid, pos, 1)));
    assert(sy == y.subrange(pos, pos + dlen_from(y, valid, pos, 1)));
    if is_prefix_of(sx, sy) {
        assert(k < m) by {
            if k == m {
                assert(sy.take(k as int) =~= sy);
            }
        }
        assert(sx == sy.take(k as int));
        // the first k tokens of y from pos are exactly sx
        assert(y.subrange(pos, pos + k) == sx) by {
            assert(y.subrange(pos, pos + k) =~= sy.take(k as int)) by {
                assert(forall|w: int|
                    0 <= w < k ==> y.subrange(pos, pos + k)[w] == y[pos + w] && sy.take(
                        k as int,
                    )[w] == y.subrange(pos, pos + m as int)[w]);
            }
        }
        // y did not stop at k, so k is not an accepted boundary
        assert(dlen_from(y, valid, pos, 1) == m);
        lemma_dlen_first_good(y, valid, pos, 1);
        assert(!good_break(valid, pos, y.subrange(pos, pos + k as int)));
        assert(!good_break(valid, pos, sx));
        // x stopped at k: accepted there, or exhausted
        assert(dlen_from(x, valid, pos, 1) == k);
        lemma_dlen_first_good(x, valid, pos, 1);
        if k < x.len() - pos {
            assert(good_break(valid, pos, x.subrange(pos, pos + k as int)));
            assert(false);
        }
        // x is exhausted at pos + k, while y continues past it: the boundary
        // would have been accepted after all
        assert(x.len() == pos + k);
        let shp = |q: Seq<T>| shares_seg(q, pos, sx);
        let sharing = sharing_of(valid, pos, sx);
        assert(shp(x));
        assert(shp(y)) by {
            assert(y.len() >= pos + k);
        }
        valid.lemma_filter_contains(shp, a);
        valid.lemma_filter_contains(shp, b);
        assert(x != y) by {
            if x == y {
                assert(sx == sy);
            }
        }
        let i1 = choose|i1: int| 0 <= i1 < sharing.len() && sharing[i1] == x;
        let i2 = choose|i2: int| 0 <= i2 < sharing.len() && sharing[i2] == y;
        assert(i1 != i2);
        assert(nkey(sharing[i1], pos + sx.len()) == None::<T>);
        assert(nkey(sharing[i2], pos + sx.len()) == Some(y[pos + k])) by {
            assert(y.len() >= pos + m > pos + k);
        }
        assert(good_break(valid, pos, sx));
        assert(false);
    }
}

/// No two sibling edge labels of the built trie are equal or prefixes of one
/// another, at any node.
pub proof fn lemma_build_no_overlap<T: Token>(seqs: Seq<Seq<T>>, pos: int)
    requires
        0 <= pos,
        all_len_at_least(seqs, pos),
    ensures
        no_overlap(spec_build(seqs, pos)),
    decreases build_measure(seqs, pos),
{
    let v = spec_build(seqs, pos);
    let valid = valid_of(seqs, pos);
    let vpred = |s: Seq<T>| s.len() > pos;
    assert forall|t: int| 0 <= t < valid.len() implies (#[trigger] valid[t]).len() > pos by {
        seqs.lemma_filter_pred(vpred, t);
    }
    lemma_max_len_filter(seqs, vpred);
    if valid.len() == 0 {
        assert(no_overlap(v)) by {
            assert(v.edges.len() == 0);
        }
    } else {
        let l = lcp(valid, pos);
        if l > 0 {
            let keys = distinct_keys(valid, nkey_fn::<T>(pos + l));
            assert(valid.len() >= 2);
            lemma_lcp_from_agree(valid, pos);
            assert forall|t: int| 0 <= t < valid.len() implies (#[trigger] valid[t]).len() >= pos
                + l by {
                assert(agree_at(valid, pos + l - 1));
            }
            lemma_max_len(valid);
            assert(valid[0].len() <= max_len(valid));
            if keys.len() == 1 {
                let seg = valid[0].subrange(pos, pos + l);
                assert(build_measure(valid, pos + l) < build_measure(valid, pos));
                let child = spec_build(valid, pos + l);
                assert(v.edges == seq![(seg, child)]);
                lemma_build_no_overlap(valid, pos + l);
                assert(no_overlap(v)) by {
                    assert(v.edges[0].1 == child);
                }
            } else {
                let dk = div_keys(valid, pos);
                lemma_distinct_keys(valid, div_key_fn(valid, pos));
                assert forall|m: int| 0 <= m < dk.len() implies seg_key_of_some(
                    valid,
                    pos,
                    #[trigger] dk[m],
                ) by {
                    let ghost dkm = dk[m];
                    let u = choose|u: int|
                        0 <= u < valid.len() && div_key_fn(valid, pos)(#[trigger] valid[u]) == dkm;
                    assert(seg_until_div(valid[u], valid, pos) == dk[m]);
                }
                lemma_div_edges_struct(pos, valid, dk, 0);
                assert(v.edges == div_edges(pos, valid, dk, 0));
                assert forall|i: int, j: int|
                    0 <= i < v.edges.len() && 0 <= j < v.edges.len() && i != j implies
                    !is_prefix_of(#[trigger] v.edges[i].0, #[trigger] v.edges[j].0) by {
                    assert(div_edges(pos, valid, dk, 0)[i - 0].0 == dk[i]);
                    assert(div_edges(pos, valid, dk, 0)[j - 0].0 == dk[j]);
                    let wa = choose|u: int|
                        0 <= u < valid.len() && seg_until_div(#[trigger] valid[u], valid, pos)
                            == dk[i];
                    let wb = choose|u: int|
                        0 <= u < valid.len() && seg_until_div(#[trigger] valid[u], valid, pos)
                            == dk[j];
                    assert(dk[i] != dk[j]);
                    lemma_div_segs_prefix_free(valid, pos, wa, wb);
                }
                assert forall|i: int| 0 <= i < v.edges.len() implies no_overlap(
                    #[trigger] v.edges[i].1,
                ) by {
                    assert(div_edges(pos, valid, dk, 0)[i - 0] == (
                    dk[i],
                    spec_build(valid.filter(div_pred(valid, pos, dk[i])), pos + dk[i].len()),
                    ));
                    let u = choose|u: int|
                        0 <= u < valid.len() && seg_until_div(#[trigger] valid[u], valid, pos)
                            == dk[i];
                    lemma_div_group_facts(valid, pos, dk[i], u);
                    lemma_build_no_overlap(
                        valid.filter(div_pred(valid, pos, dk[i])),
                        pos + dk[i].len(),
                    );
                }
                assert(no_overlap(v));
            }
        } else {
            let dk = distinct_keys(valid, tok_key_fn::<T>(pos));
            lemma_distinct_keys(valid, tok_key_fn::<T>(pos));
            assert forall|m: int| 0 <= m < dk.len() implies tok_key_of_some(
                valid,
                pos,
                #[trigger] dk[m],
            ) by {
                let u = choose|u: int|
                    0 <= u < valid.len() && tok_key_fn::<T>(pos)(#[trigger] valid[u]) == dk[m];
                assert(valid[u][pos] == dk[m]);
            }
            lemma_tok_edges_struct(pos, valid, dk, 0);
            assert(v.edges == tok_edges(pos, valid, dk, 0));
            assert forall|i: int| 0 <= i < v.edges.len() implies (#[trigger] v.edges[i].0).len()
                >= 1 && v.edges[i].0[0] == dk[i] by {
                assert(tok_edges(pos, valid, dk, 0)[i - 0] == (
                valid.filter(tok_pred(pos, dk[i]))[0].subrange(
                    pos,
                    pos + opt_len(valid.filter(tok_pred(pos, dk[i])), pos),
                ),
                spec_build(
                    valid.filter(tok_pred(pos, dk[i])),
                    pos + opt_len(valid.filter(tok_pred(pos, dk[i])), pos),
                ),
                ));
                let u = choose|u: int|
                    0 <= u < valid.len() && tok_key_fn::<T>(pos)(#[trigger] valid[u]) == dk[i];
                lemma_tok_group_facts(valid, pos, dk[i], u);
                let grp = valid.filter(tok_pred(pos, dk[i]));
                valid.lemma_filter_pred(tok_pred(pos, dk[i]), 0);
                assert(grp[0][pos] == dk[i]);
                assert(v.edges[i].0[0] == grp[0].subrange(pos, pos + opt_len(grp, pos))[0]);
            }
            assert forall|i: int, j: int|
                0 <= i < v.edges.len() && 0 <= j < v.edges.len() && i != j implies !is_prefix_of(
                #[trigger] v.edges[i].0,
                #[trigger] v.edges[j].0,
            ) by {
                assert(dk[i] != dk[j]);
                if is_prefix_of(v.edges[i].0, v.edges[j].0) {
                    assert(v.edges[i].0[0] == v.edges[j].0.take(v.edges[i].0.len() as int)[0]);
                    assert(v.edges[i].0[0] == v.edges[j].0[0]);
                }
            }
            assert forall|i: int| 0 <= i < v.edges.len() implies no_overlap(
                #[trigger] v.edges[i].1,
            ) by {
                assert(tok_edges(pos, valid, dk, 0)[i - 0] == (
                valid.filter(tok_pred(pos, dk[i]))[0].subrange(
                    pos,
                    pos + opt_len(valid.filter(tok_pred(pos, dk[i])), pos),
                ),
                spec_build(
                    valid.filter(tok_pred(pos, dk[i])),
                    pos + opt_len(valid.filter(tok_pred(pos, dk[i])), pos),
                ),
                ));
                let u = choose|u: int|
                    0 <= u < valid.len() && tok_key_fn::<T>(pos)(#[trigger] valid[u]) == dk[i];
                lemma_tok_group_facts(valid, pos, dk[i], u);
                lemma_build_no_overlap(
                    valid.filter(tok_pred(pos, dk[i])),
                    pos + opt_len(valid.filter(tok_pred(pos, dk[i])), pos),
                );
            }
            assert(no_overlap(v));
        }
    }
}

impl TrieNode<char> {
    /// The segmented trie of a list of words, each word read as its sequence
    /// of characters.
    pub fn from_words(words: &Vec<&str>) -> (r: Self)
        ensures
            r@ == spec_from_sequences(words@.map_values(|w: &str| w@)),
            forall|i: int| 0 <= i < words@.len() ==> trie_contains(r@, (#[trigger] words@[i])@),
            no_overlap(r@),
    {
        let ghost wv = words@.map_values(|w: &str| w@);
        let mut char_sequences: Vec<Vec<char>> = Vec::new();
        let mut i: usize = 0;
        while i < words.len()
            invariant
                wv == words@.map_values(|w: &str| w@),
                wv.len() == words@.len(),
                0 <= i as int <= wv.len(),
                seq_views(char_sequences@) == wv.take(i as int),
            decreases words@.len() - i,
        {
            let w = words[i];
            let n = w.unicode_len();
            let mut cs: Vec<char> = Vec::new();
            let mut k: usize = 0;
            while k < n
                invariant
                    0 <= k <= n,
                    n as int == w@.len(),
                    cs@ == w@.take(k as int),
                decreases n - k,
            {
                cs.push(w.get_char(k));
                k = k + 1;
                proof {
                    assert(cs@ =~= w@.take(k as int));
                }
            }
            proof {
                lemma_take_full(w@);
                assert(cs@ == wv[i as int]);
                lemma_seq_views_push(char_sequences@, cs);
            }
            char_sequences.push(cs);
            proof {
                assert(seq_views(char_sequences@) =~= wv.take(i as int + 1));
            }
            i = i + 1;
        }
        proof {
            lemma_take_full(wv);
        }
        let r = Self::from_sequences(&char_sequences);
        proof {
            lemma_round_trip(wv);
            lemma_trie_no_overlap(wv);
            assert(forall|i: int| 0 <= i < words@.len() ==> wv[i] == (#[trigger] words@[i])@);
        }
        r
    }
}

// ---------------------------------------------------------------------------
// Laws of the builder
// ---------------------------------------------------------------------------

/// Round-trip coverage: every input sequence is spelled by some root path of
/// the built trie whose concatenated edge labels reconstruct it, ending at a
/// terminal node.
pub proof fn lemma_round_trip<T: Token>(seqs: Seq<Seq<T>>)
    ensures
        forall|i: int|
            0 <= i < seqs.len() ==> trie_contains(spec_from_sequences(seqs), #[trigger] seqs[i]),
{
    lemma_canon(seqs);
    let c = canon(seqs);
    lemma_build_contains(c, 0);
    assert forall|i: int| 0 <= i < seqs.len() implies trie_contains(
        spec_from_sequences(seqs),
        #[trigger] seqs[i],
    ) by {
        assert(seqs.contains(seqs[i]));
        assert(c.contains(seqs[i]));
        let j = choose|j: int| 0 <= j < c.len() && c[j] == seqs[i];
        assert(trie_contains(spec_build(c, 0), c[j].skip(0)));
        assert(c[j].skip(0) =~= seqs[i]);
    }
}

/// Idempotence: two input lists holding the same set of sequences — in any
/// order, with any duplication — build identical tries.
pub proof fn lemma_build_idempotent<T: Token>(s1: Seq<Seq<T>>, s2: Seq<Seq<T>>)
    requires
        forall|y: Seq<T>| s1.contains(y) <==> s2.contains(y),
    ensures
        spec_from_sequences(s1) == spec_from_sequences(s2),
{
    lemma_canon(s1);
    lemma_canon(s2);
    assert forall|y: Seq<T>| #[trigger] canon(s1).contains(y) implies canon(s2).contains(y) by {
        assert(s1.contains(y));
        assert(s2.contains(y));
    }
    assert forall|y: Seq<T>| #[trigger] canon(s2).contains(y) implies canon(s1).contains(y) by {
        assert(s2.contains(y));
        assert(s1.contains(y));
    }
    lemma_sorted_unique_equal(canon(s1), canon(s2));
}

/// The no-overlap invariant holds of every built trie: no two sibling edge
/// labels are equal or token-wise prefixes of one another, at any node.
pub proof fn lemma_trie_no_overlap<T: Token>(seqs: Seq<Seq<T>>)
    ensures
        no_overlap(spec_from_sequences(seqs)),
{
    lemma_canon(seqs);
    lemma_build_no_overlap(canon(seqs), 0);
}

/// The built root is terminal exactly when the empty sequence is among the
/// inputs.
pub proof fn lemma_root_terminal<T: Token>(seqs: Seq<Seq<T>>)
    ensures
        spec_from_sequences(seqs).terminal <==> seqs.contains(Seq::<T>::empty()),
{
    lemma_canon(seqs);
    let c = canon(seqs);
    lemma_build_contains(c, 0);
    if has_end_at(c, 0) {
        let i = choose|i: int| 0 <= i < c.len() && (#[trigger] c[i]).len() == 0;
        assert(c[i] =~= Seq::<T>::empty());
        assert(c.contains(Seq::<T>::empty()));
    }
    if seqs.contains(Seq::<T>::empty()) {
        assert(c.contains(Seq::<T>::empty()));
        let i = choose|i: int| 0 <= i < c.len() && c[i] == Seq::<T>::empty();
        assert(c[i].len() == 0);
        assert(has_end_at(c, 0));
    }
}

/// Under the no-overlap invariant a walk is deterministic: at any node, at
/// most one edge label can begin a given sequence, so each contained
/// sequence is spelled by exactly one path.
pub proof fn lemma_walk_unique<T: Token>(v: TrieView<T>, s: Seq<T>, i: int, j: int)
    requires
        no_overlap(v),
        0 <= i < v.edges.len(),
        0 <= j < v.edges.len(),
        v.edges[i].0.len() >= 1,
        v.edges[j].0.len() >= 1,
        is_prefix_of(v.edges[i].0, s),
        is_prefix_of(v.edges[j].0, s),
    ensures
        i == j,
{
    if i != j {
        let a = v.edges[i].0;
        let b = v.edges[j].0;
        if a.len() <= b.len() {
            assert(is_prefix_of(a, b)) by {
                assert(a =~= b.take(a.len() as int)) by {
                    assert(forall|w: int|
                        0 <= w < a.len() ==> a[w] == s.take(a.len() as int)[w] && b.take(
                            a.len() as int,
                        )[w] == s.take(b.len() as int)[w]);
                }
            }
        } else {
            assert(is_prefix_of(b, a)) by {
                assert(b =~= a.take(b.len() as int)) by {
                    assert(forall|w: int|
                        0 <= w < b.len() ==> b[w] == s.take(b.len() as int)[w] && a.take(
                            b.len() as int,
                        )[w] == s.take(a.len() as int)[w]);
                }
            }
        }
        assert(false);
    }
}

// ---------------------------------------------------------------------------
// Executable helpers
// ---------------------------------------------------------------------------

/// Appending a vector appends its view.
pub(crate) proof fn lemma_seq_views_push<T>(s: Seq<Vec<T>>, v: Vec<T>)
    ensures
        seq_views(s.push(v)) == seq_views(s).push(v@),
{
    assert(seq_views(s.push(v)) =~= seq_views(s).push(v@));
}

/// A copy of the tokens of `v` in the range `[from, to)`.
pub(crate) fn copy_subrange<T: Token>(v: &Vec<T>, from: usize, to: usize) -> (r: Vec<T>)
    requires
        from <= to <= v@.len(),
    ensures
        r@ == v@.subrange(from as int, to as int),
{
    let mut r: Vec<T> = Vec::new();
    let mut i: usize = from;
    while i < to
        invariant
            from <= i <= to <= v@.len(),
            r@ == v@.subrange(from as int, i as int),
        decreases to - i,
    {
        r.push(v[i]);
        i = i + 1;
        proof {
            assert(v@.subrange(from as int, i as int) =~= v@.subrange(
                from as int,
                i - 1,
            ).push(v@[i - 1]));
        }
    }
    r
}

/// A copy of all of `v`.
pub(crate) fn copy_seq<T: Token>(v: &Vec<T>) -> (r: Vec<T>)
    ensures
        r@ == v@,
{
    let r = copy_subrange(v, 0, v.len());
    proof {
        assert(v@.subrange(0, v@.len() as int) =~= v@);
    }
    r
}

/// Whether two token vectors hold the same tokens.
pub(crate) fn seqs_equal<T: Token>(a: &Vec<T>, b: &Vec<T>) -> (r: bool)
    ensures
        r == (a@ == b@),
{
    match seq_compare(a, b) {
        TokenCmp::Equal => true,
        _ => false,
    }
}

/// Whether `x` occurs among the vectors of `keys`.
fn contains_seq<T: Token>(keys: &Vec<Vec<T>>, x: &Vec<T>) -> (r: bool)
    ensures
        r == seq_views(keys@).contains(x@),
{
    let mut i: usize = 0;
    while i < keys.len()
        invariant
            0 <= i <= keys@.len(),
            forall|k: int| 0 <= k < i ==> seq_views(keys@)[k] != x@,
        decreases keys@.len() - i,
    {
        if seqs_equal(&keys[i], x) {
            proof {
                assert(seq_views(keys@)[i as int] == x@);
            }
            return true;
        }
        i = i + 1;
    }
    false
}

/// The sequences that continue past `pos`, in input order.
fn filter_valid<T: Token>(sequences: &Vec<Vec<T>>, start_pos: usize) -> (r: Vec<Vec<T>>)
    ensures
        seq_views(r@) == valid_of(seq_views(sequences@), start_pos as int),
{
    let ghost sv = seq_views(sequences@);
    let ghost pred = |s: Seq<T>| s.len() > start_pos as int;
    let mut r: Vec<Vec<T>> = Vec::new();
    let mut i: usize = 0;
    while i < sequences.len()
        invariant
            0 <= i <= sequences@.len(),
            sv == seq_views(sequences@),
            pred == (|s: Seq<T>| s.len() > start_pos as int),
            seq_views(r@) == sv.take(i as int).filter(pred),
        decreases sequences@.len() - i,
    {
        proof {
            lemma_filter_take_step(sv, pred, i as int);
        }
        if sequences[i].len() > start_pos {
            let c = copy_seq(&sequences[i]);
            proof {
                lemma_seq_views_push(r@, c);
            }
            r.push(c);
        }
        i = i + 1;
    }
    proof {
        lemma_take_full(sv);
    }
    r
}

/// Whether some sequence ends exactly at `pos`.
fn any_ends_at<T: Token>(sequences: &Vec<Vec<T>>, start_pos: usize) -> (b: bool)
    ensures
        b == has_end_at(seq_views(sequences@), start_pos as int),
{
    let mut i: usize = 0;
    while i < sequences.len()
        invariant
            0 <= i <= sequences@.len(),
            forall|k: int| 0 <= k < i ==> seq_views(sequences@)[k].len() != start_pos as int,
        decreases sequences@.len() - i,
    {
        if sequences[i].len() == start_pos {
            proof {
                assert(seq_views(sequences@)[i as int].len() == start_pos as int);
            }
            return true;
        }
        i = i + 1;
    }
    false
}

/// The token following position `p` of `s`, or `None` when `s` ends there.
fn next_key<T: Token>(s: &Vec<T>, p: usize) -> (k: Option<T>)
    ensures
        k == nkey(s@, p as int),
{
    if s.len() > p {
        Some(s[p])
    } else {
        None
    }
}

/// Whether two optional tokens are equal.
fn opt_keys_equal<T: Token>(a: &Option<T>, b: &Option<T>) -> (r: bool)
    ensures
        r == (a == b),
{
    match (a, b) {
        (Option::None, Option::None) => true,
        (Option::Some(x), Option::Some(y)) => tokens_equal(x, y),
        _ => false,
    }
}

/// Appending an edge appends its model.
proof fn lemma_view_children_push<T>(cs: Seq<(Vec<T>, TrieNode<T>)>, k: Vec<T>, n: TrieNode<T>)
    ensures
        view_children(cs.push((k, n))) == view_children(cs).push((k@, n@)),
{
    let q = cs.push((k, n));
    assert(q.drop_last() =~= cs);
    assert(q.last() == (k, n));
}

/// Every position below the longest common prefix is a position of full
/// agreement.
proof fn lemma_lcp_from_agree<T>(seqs: Seq<Seq<T>>, i: int)
    ensures
        forall|m: int| i <= m < i + lcp_from(seqs, i) ==> agree_at(seqs, m),
        lcp_from(seqs, i) >= 0,
    decreases (if seqs.len() > 0 {
        seqs[0].len() - i
    } else {
        0
    }),
{
    if seqs.len() == 0 {
    } else if agree_at(seqs, i) {
        lemma_lcp_from_agree(seqs, i + 1);
    }
}

/// A key list of length one means all items carry the first item's key.
proof fn lemma_single_key<A, K>(items: Seq<A>, kf: spec_fn(A) -> K)
    requires
        items.len() > 0,
    ensures
        (distinct_keys(items, kf).len() == 1) <==> (forall|i: int|
            0 <= i < items.len() ==> kf(#[trigger] items[i]) == kf(items[0])),
{
    lemma_distinct_keys(items, kf);
    let keys = distinct_keys(items, kf);
    if keys.len() == 1 {
        assert forall|i: int| 0 <= i < items.len() implies kf(#[trigger] items[i]) == kf(
            items[0],
        ) by {
            assert(keys.contains(kf(items[i])));
            assert(keys.contains(kf(items[0])));
        }
    }
    if (forall|i: int| 0 <= i < items.len() ==> kf(#[trigger] items[i]) == kf(items[0])) {
        assert(keys.contains(kf(items[0])));
        assert(keys.len() >= 1);
        if keys.len() >= 2 {
            let a = choose|a: int| 0 <= a < items.len() && kf(#[trigger] items[a]) == keys[0];
            let b = choose|b: int| 0 <= b < items.len() && kf(#[trigger] items[b]) == keys[1];
            assert(keys[0] == kf(items[0]) && keys[1] == kf(items[0]));
            assert(false);
        }
    }
}

/// The divergence length stays between its starting candidate and the
/// sequence's remaining length.
proof fn lemma_dlen_from_bounds<T: Token>(s: Seq<T>, all: Seq<Seq<T>>, pos: int, k: int)
    requires
        1 <= k <= s.len() - pos,
    ensures
        k <= dlen_from(s, all, pos, k) <= s.len() - pos,
    decreases s.len() - pos - k,
{
    if k >= s.len() - pos {
    } else if good_break(all, pos, s.subrange(pos, pos + k)) {
    } else {
        lemma_dlen_from_bounds(s, all, pos, k + 1);
    }
}

/// The divergence segment of a continuing sequence is one of its non-empty
/// prefixes from `pos`.
proof fn lemma_seg_until_div<T: Token>(s: Seq<T>, all: Seq<Seq<T>>, pos: int)
    requires
        0 <= pos < s.len(),
    ensures
        1 <= seg_until_div(s, all, pos).len() <= s.len() - pos,
        seg_until_div(s, all, pos) == s.subrange(pos, pos + seg_until_div(s, all, pos).len()),
        shares_seg(s, pos, seg_until_div(s, all, pos)),
{
    lemma_dlen_from_bounds(s, all, pos, 1);
    let d = dlen_from(s, all, pos, 1);
    assert(seg_until_div(s, all, pos) == s.subrange(pos, pos + d));
    assert(s.subrange(pos, pos + d).len() == d);
}

/// Whether all sequences continue past `i` and agree there with the first.
fn all_agree_at<T: Token>(sequences: &Vec<Vec<T>>, i: usize) -> (b: bool)
    ensures
        b == agree_at(seq_views(sequences@), i as int),
{
    let ghost sv = seq_views(sequences@);
    if sequences.len() == 0 {
        return true;
    }
    if sequences[0].len() <= i {
        proof {
            assert(sv[0].len() <= i as int);
        }
        return false;
    }
    let t0: T = sequences[0][i];
    let mut k: usize = 1;
    while k < sequences.len()
        invariant
            1 <= k <= sequences@.len(),
            sv == seq_views(sequences@),
            sv.len() > 0,
            sv[0].len() > i as int,
            t0 == sv[0][i as int],
            forall|m: int| 0 <= m < k ==> (#[trigger] sv[m]).len() > i as int && sv[m][i as int]
                == sv[0][i as int],
        decreases sequences@.len() - k,
    {
        if sequences[k].len() <= i {
            proof {
                assert(sv[k as int].len() <= i as int);
            }
            return false;
        }
        if !tokens_equal(&sequences[k][i], &t0) {
            proof {
                assert(sv[k as int][i as int] != sv[0][i as int]);
            }
            return false;
        }
        k = k + 1;
    }
    true
}

/// The longest common prefix length of the sequences from `start_pos` on;
/// `0` for lists of at most one sequence.
fn find_longest_common_prefix<T: Token>(sequences: &Vec<Vec<T>>, start_pos: usize) -> (l: usize)
    ensures
        l as int == lcp(seq_views(sequences@), start_pos as int),
{
    let ghost sv = seq_views(sequences@);
    if sequences.len() <= 1 {
        return 0;
    }
    let first_len: usize = sequences[0].len();
    let mut i: usize = start_pos;
    while i < first_len
        invariant
            start_pos <= i,
            sv == seq_views(sequences@),
            sv.len() == sequences@.len() >= 2,
            first_len == sv[0].len(),
            i <= first_len || i == start_pos,
            lcp_from(sv, start_pos as int) == i - start_pos + lcp_from(sv, i as int),
        decreases first_len - i,
    {
        if all_agree_at(sequences, i) {
            proof {
                assert(lcp_from(sv, i as int) == 1 + lcp_from(sv, i as int + 1));
            }
            i = i + 1;
        } else {
            proof {
                assert(lcp_from(sv, i as int) == 0);
            }
            return i - start_pos;
        }
    }
    proof {
        assert(!agree_at(sv, i as int)) by {
            assert(sv[0].len() <= i as int);
        }
        assert(lcp_from(sv, i as int) == 0);
    }
    i - start_pos
}

/// Whether `q` continues past `start_pos` with exactly the tokens of `seg`.
fn shares_segment<T: Token>(q: &Vec<T>, start_pos: usize, seg: &Vec<T>) -> (b: bool)
    ensures
        b == shares_seg(q@, start_pos as int, seg@),
{
    let qn: usize = q.len();
    if qn < start_pos || qn - start_pos < seg.len() {
        return false;
    }
    let mut i: usize = 0;
    while i < seg.len()
        invariant
            0 <= i <= seg@.len(),
            qn == q@.len(),
            q@.len() >= start_pos as int + seg@.len(),
            forall|k: int| 0 <= k < i ==> q@[start_pos as int + k] == seg@[k],
        decreases seg@.len() - i,
    {
        if !tokens_equal(&q[start_pos + i], &seg[i]) {
            proof {
                assert(q@.subrange(start_pos as int, start_pos as int + seg@.len())[i as int]
                    != seg@[i as int]);
            }
            return false;
        }
        i = i + 1;
    }
    proof {
        assert(q@.subrange(start_pos as int, start_pos as int + seg@.len()) =~= seg@);
    }
    true
}

/// Whether `segment` is an accepted boundary within the candidate set: at
/// most one sequence shares it, or the sharing sequences disagree about what
/// follows it.
fn is_good_segment_breakpoint<T: Token>(
    segment: &Vec<T>,
    all_sequences: &Vec<Vec<T>>,
    start_pos: usize,
) -> (b: bool)
    ensures
        b == good_break(seq_views(all_sequences@), start_pos as int, segment@),
{
    let ghost av = seq_views(all_sequences@);
    let ghost pred = |q: Seq<T>| shares_seg(q, start_pos as int, segment@);
    let mut sharing: Vec<Vec<T>> = Vec::new();
    let mut i: usize = 0;
    while i < all_sequences.len()
        invariant
            0 <= i <= all_sequences@.len(),
            av == seq_views(all_sequences@),
            pred == (|q: Seq<T>| shares_seg(q, start_pos as int, segment@)),
            seq_views(sharing@) == av.take(i as int).filter(pred),
        decreases all_sequences@.len() - i,
    {
        proof {
            lemma_filter_take_step(av, pred, i as int);
        }
        if shares_segment(&all_sequences[i], start_pos, segment) {
            let c = copy_seq(&all_sequences[i]);
            proof {
                lemma_seq_views_push(sharing@, c);
            }
            sharing.push(c);
        }
        i = i + 1;
    }
    proof {
        lemma_take_full(av);
    }
    let ghost shv = sharing_of(av, start_pos as int, segment@);
    assert(seq_views(sharing@) == shv);
    if sharing.len() <= 1 {
        return true;
    }
    // at least two sequences share the segment: the boundary is accepted
    // exactly when two of them disagree about the next position
    proof {
        assert(shv[0] == sharing@[0]@);
        assert(pred(shv[0]));
        assert(sharing@[0]@.len() <= usize::MAX as int) by {
            assert(sharing@[0]@.len() == sharing@[0].len());
        }
    }
    let npos: usize = start_pos + segment.len();
    let k0: Option<T> = next_key(&sharing[0], npos);
    let mut j: usize = 1;
    while j < sharing.len()
        invariant
            1 <= j <= sharing@.len(),
            av == seq_views(all_sequences@),
            shv == sharing_of(av, start_pos as int, segment@),
            seq_views(sharing@) == shv,
            shv.len() == sharing@.len() >= 2,
            npos as int == start_pos as int + segment@.len(),
            k0 == nkey(shv[0], npos as int),
            forall|m: int| 0 <= m < j ==> nkey(#[trigger] shv[m], npos as int) == nkey(
                shv[0],
                npos as int,
            ),
        decreases sharing@.len() - j,
    {
        let kj = next_key(&sharing[j], npos);
        if !opt_keys_equal(&kj, &k0) {
            proof {
                let ghost p = start_pos as int;
                let ghost s = segment@;
                assert(shv[j as int] == sharing@[j as int]@) by {
                    assert(seq_views(sharing@)[j as int] == sharing@[j as int]@);
                }
                assert(nkey(sharing_of(av, p, s)[j as int], p + s.len()) != nkey(
                    sharing_of(av, p, s)[0],
                    p + s.len(),
                ));
                assert(good_break(av, start_pos as int, segment@));
            }
            return true;
        }
        j = j + 1;
    }
    // every sharing sequence continues the same way: not a boundary
    proof {
        assert(!good_break(av, start_pos as int, segment@)) by {
            assert(forall|a: int, b: int|
                0 <= a < shv.len() && 0 <= b < shv.len() ==> nkey(
                    #[trigger] shv[a],
                    npos as int,
                ) == nkey(#[trigger] shv[b], npos as int));
        }
    }
    false
}

/// The segment that `target_seq` contributes under divergent segmentation:
/// its tokens from `start_pos` until the first accepted boundary, or all of
/// its remaining tokens.
fn find_segment_until_divergence<T: Token>(
    target_seq: &Vec<T>,
    all_sequences: &Vec<Vec<T>>,
    start_pos: usize,
) -> (seg: Vec<T>)
    ensures
        seg@ == seg_until_div(target_seq@, seq_views(all_sequences@), start_pos as int),
{
    let ghost tv = target_seq@;
    let ghost av = seq_views(all_sequences@);
    if target_seq.len() <= start_pos {
        let r: Vec<T> = Vec::new();
        proof {
            assert(r@ =~= seg_until_div(tv, av, start_pos as int));
        }
        return r;
    }
    let n: usize = target_seq.len() - start_pos;
    let mut seg: Vec<T> = Vec::new();
    seg.push(target_seq[start_pos]);
    let mut len: usize = 1;
    while len < n
        invariant
            1 <= len <= n,
            tv == target_seq@,
            av == seq_views(all_sequences@),
            n as int == tv.len() - start_pos as int,
            start_pos + n <= usize::MAX,
            seg@ == tv.subrange(start_pos as int, start_pos as int + len as int),
            dlen_from(tv, av, start_pos as int, 1) == dlen_from(tv, av, start_pos as int, len as int),
        decreases n - len,
    {
        if is_good_segment_breakpoint(&seg, all_sequences, start_pos) {
            proof {
                assert(dlen_from(tv, av, start_pos as int, len as int) == len as int);
            }
            return seg;
        }
        proof {
            assert(dlen_from(tv, av, start_pos as int, len as int) == dlen_from(
                tv,
                av,
                start_pos as int,
                len as int + 1,
            ));
        }
        seg.push(target_seq[start_pos + len]);
        len = len + 1;
        proof {
            assert(tv.subrange(start_pos as int, start_pos as int + len as int) =~= tv.subrange(
                start_pos as int,
                start_pos as int + len - 1,
            ).push(tv[start_pos as int + len - 1]));
        }
    }
    proof {
        assert(dlen_from(tv, av, start_pos as int, len as int) == n as int);
    }
    seg
}

/// Extending a shared segment by one position keeps it shared exactly when
/// every member reaches past the new position and matches the first member
/// there.
proof fn lemma_all_share_step<T: Token>(grp: Seq<Seq<T>>, pos: int, k: int)
    requires
        grp.len() > 0,
        0 <= pos,
        0 <= k,
        all_share(grp, pos, k),
    ensures
        all_share(grp, pos, k + 1) <==> (forall|q: int|
            0 <= q < grp.len() ==> (#[trigger] grp[q]).len() >= pos + k + 1 && grp[q][pos + k]
                == grp[0][pos + k]),
{
    if all_share(grp, pos, k + 1) {
        assert forall|q: int|
            0 <= q < grp.len() implies (#[trigger] grp[q]).len() >= pos + k + 1 && grp[q][pos + k]
            == grp[0][pos + k] by {
            assert(grp[q].subrange(pos, pos + k + 1) == grp[0].subrange(pos, pos + k + 1));
            assert(grp[q].subrange(pos, pos + k + 1)[k] == grp[q][pos + k]);
        }
    }
    if (forall|q: int|
        0 <= q < grp.len() ==> (#[trigger] grp[q]).len() >= pos + k + 1 && grp[q][pos + k]
            == grp[0][pos + k]) {
        assert forall|q: int|
            0 <= q < grp.len() implies (#[trigger] grp[q]).len() >= pos + k + 1 && grp[q].subrange(
            pos,
            pos + k + 1,
        ) == grp[0].subrange(pos, pos + k + 1) by {
            assert(grp[q].subrange(pos, pos + k) == grp[0].subrange(pos, pos + k));
            assert(grp[q].subrange(pos, pos + k + 1) =~= grp[0].subrange(pos, pos + k + 1)) by {
                assert(forall|m: int| 0 <= m < k ==> #[trigger] grp[q].subrange(pos, pos + k + 1)[m]
                    == grp[q].subrange(pos, pos + k)[m]);
                assert(forall|m: int| 0 <= m < k ==> #[trigger] grp[0].subrange(pos, pos + k + 1)[m]
                    == grp[0].subrange(pos, pos + k)[m]);
                assert(grp[q].subrange(pos, pos + k + 1)[k] == grp[q][pos + k]);
                assert(grp[0].subrange(pos, pos + k + 1)[k] == grp[0][pos + k]);
            }
        }
        assert(all_share(grp, pos, k + 1));
    }
}

/// `opt_len_from` stays between its starting candidate and the first
/// member's remaining length.
proof fn lemma_opt_len_from_bounds<T: Token>(grp: Seq<Seq<T>>, pos: int, k: int)
    requires
        grp.len() > 0,
    ensures
        opt_len_from(grp, pos, k) >= k,
        k <= grp[0].len() - pos ==> opt_len_from(grp, pos, k) <= grp[0].len() - pos,
    decreases (if grp[0].len() - pos - k > 0 {
        grp[0].len() - pos - k
    } else {
        0
    }),
{
    if k >= grp[0].len() - pos {
    } else if all_share(grp, pos, k + 1) {
        lemma_opt_len_from_bounds(grp, pos, k + 1);
    }
}

/// Whether every member of the group reaches past `start_pos + len` and
/// matches the first member there.
fn all_extend<T: Token>(group: &Vec<Vec<T>>, start_pos: usize, len: usize) -> (b: bool)
    requires
        group@.len() > 0,
        start_pos + len <= usize::MAX,
    ensures
        b == (forall|q: int|
            0 <= q < seq_views(group@).len() ==> (#[trigger] seq_views(group@)[q]).len()
                >= start_pos as int + len as int + 1 && seq_views(group@)[q][start_pos as int
                + len as int] == seq_views(group@)[0][start_pos as int + len as int]),
{
    let ghost gv = seq_views(group@);
    let p: usize = start_pos + len;
    if group[0].len() <= p {
        proof {
            assert(gv[0].len() <= p as int);
        }
        return false;
    }
    let t0: T = group[0][p];
    let mut q: usize = 1;
    while q < group.len()
        invariant
            1 <= q <= group@.len(),
            gv == seq_views(group@),
            gv.len() == group@.len(),
            p as int == start_pos as int + len as int,
            gv[0].len() > p as int,
            t0 == gv[0][p as int],
            forall|m: int| 0 <= m < q ==> (#[trigger] gv[m]).len() >= p as int + 1 && gv[m][p as int]
                == gv[0][p as int],
        decreases group@.len() - q,
    {
        if group[q].len() <= p {
            proof {
                assert(gv[q as int].len() <= p as int);
            }
            return false;
        }
        if !tokens_equal(&group[q][p], &t0) {
            proof {
                assert(gv[q as int][p as int] != gv[0][p as int]);
            }
            return false;
        }
        q = q + 1;
    }
    true
}

/// The optimal segment of a group that already shares its first token:
/// greedily extended while every member still shares it.
fn find_optimal_segment<T: Token>(group: &Vec<Vec<T>>, start_pos: usize) -> (seg: Vec<T>)
    requires
        group@.len() > 0,
        all_share(seq_views(group@), start_pos as int, 1),
    ensures
        seg@ == seq_views(group@)[0].subrange(
            start_pos as int,
            start_pos as int + opt_len(seq_views(group@), start_pos as int),
        ),
{
    let ghost gv = seq_views(group@);
    proof {
        assert(gv[0].len() >= start_pos as int + 1);
    }
    let first_len: usize = group[0].len();
    let mut len: usize = 1;
    while len < first_len - start_pos
        invariant
            1 <= len,
            len as int <= first_len - start_pos as int,
            gv == seq_views(group@),
            gv.len() == group@.len() > 0,
            first_len == gv[0].len(),
            first_len >= start_pos + 1,
            all_share(gv, start_pos as int, len as int),
            opt_len(gv, start_pos as int) == opt_len_from(gv, start_pos as int, len as int),
        decreases first_len - start_pos - len,
    {
        let ok = all_extend(group, start_pos, len);
        proof {
            lemma_all_share_step(gv, start_pos as int, len as int);
        }
        if ok {
            proof {
                assert(opt_len_from(gv, start_pos as int, len as int) == opt_len_from(
                    gv,
                    start_pos as int,
                    len as int + 1,
                ));
            }
            len = len + 1;
        } else {
            proof {
                assert(opt_len_from(gv, start_pos as int, len as int) == len as int);
            }
            return copy_subrange(&group[0], start_pos, start_pos + len);
        }
    }
    proof {
        assert(opt_len_from(gv, start_pos as int, len as int) == len as int);
    }
    copy_subrange(&group[0], start_pos, start_pos + len)
}

/// Whether `t` occurs among the tokens of `keys`.
fn contains_token<T: Token>(keys: &Vec<T>, t: &T) -> (r: bool)
    ensures
        r == keys@.contains(*t),
{
    let mut i: usize = 0;
    while i < keys.len()
        invariant
            0 <= i <= keys@.len(),
            forall|k: int| 0 <= k < i ==> keys@[k] != *t,
        decreases keys@.len() - i,
    {
        if tokens_equal(&keys[i], t) {
            proof {
                assert(keys@[i as int] == *t);
            }
            return true;
        }
        i = i + 1;
    }
    false
}

/// Whether all sequences continue identically at `npos`: same next token, or
/// all ending there.
fn all_same_next<T: Token>(sequences: &Vec<Vec<T>>, npos: usize) -> (b: bool)
    requires
        sequences@.len() > 0,
    ensures
        b == (forall|k: int|
            0 <= k < seq_views(sequences@).len() ==> nkey(
                #[trigger] seq_views(sequences@)[k],
                npos as int,
            ) == nkey(seq_views(sequences@)[0], npos as int)),
{
    let ghost sv = seq_views(sequences@);
    let k0: Option<T> = next_key(&sequences[0], npos);
    let mut k: usize = 1;
    while k < sequences.len()
        invariant
            1 <= k <= sequences@.len(),
            sv == seq_views(sequences@),
            sv.len() == sequences@.len() >= 1,
            k0 == nkey(sv[0], npos as int),
            forall|m: int| 0 <= m < k ==> nkey(#[trigger] sv[m], npos as int) == nkey(
                sv[0],
                npos as int,
            ),
        decreases sequences@.len() - k,
    {
        let kk = next_key(&sequences[k], npos);
        if !opt_keys_equal(&kk, &k0) {
            proof {
                assert(nkey(sv[k as int], npos as int) != nkey(sv[0], npos as int));
            }
            return false;
        }
        k = k + 1;
    }
    true
}

// ---------------------------------------------------------------------------
// The segmented trie builder
// ---------------------------------------------------------------------------

impl<T: Token> TrieNode<T> {
    /// A node with no children whose terminal flag is cleared.
    pub fn new() -> (r: Self)
        ensures
            r@ == empty_view::<T>(),
    {
        let r = TrieNode { children: Vec::new(), is_terminal: false };
        proof {
            assert(r@.edges =~= empty_view::<T>().edges);
        }
        r
    }

    /// Divergent segmentation: each sequence contributes its segment until
    /// the first accepted boundary, and one child is appended per distinct
    /// segment, built from the group of sequences sharing it.
    fn build_divergent_segments(root: &mut Self, sequences: &Vec<Vec<T>>, start_pos: usize)
        requires
            seq_views(sequences@).len() > 0,
            forall|i: int|
                0 <= i < seq_views(sequences@).len() ==> (#[trigger] seq_views(
                    sequences@,
                )[i]).len() > start_pos as int,
        ensures
            final(root)@.terminal == old(root)@.terminal,
            final(root)@.edges == old(root)@.edges + div_edges(
                start_pos as int,
                seq_views(sequences@),
                div_keys(seq_views(sequences@), start_pos as int),
                0,
            ),
        decreases build_measure(seq_views(sequences@), start_pos as int), 0int, 0int,
    {
        let ghost vv = seq_views(sequences@);
        let ghost kf = div_key_fn(vv, start_pos as int);
        let ghost oldt = root@.terminal;
        let ghost base = root@.edges;

        // collect the distinct segments, in order of first occurrence
        let mut keys: Vec<Vec<T>> = Vec::new();
        let mut idx: usize = 0;
        while idx < sequences.len()
            invariant
                vv == seq_views(sequences@),
                kf == div_key_fn(vv, start_pos as int),
                vv.len() == sequences@.len(),
                0 <= (idx as int) && (idx as int) <= vv.len(),
                seq_views(keys@) == distinct_keys(vv.take(idx as int), kf),
            decreases vv.len() - idx,
        {
            let seg = find_segment_until_divergence(&sequences[idx], sequences, start_pos);
            proof {
                lemma_distinct_keys_take_step(vv, kf, idx as int);
                assert(kf(vv[idx as int]) == seg@);
            }
            if !contains_seq(&keys, &seg) {
                proof {
                    lemma_seq_views_push(keys@, seg);
                }
                keys.push(seg);
            }
            idx = idx + 1;
        }
        proof {
            lemma_take_full(vv);
        }
        let ghost dk = div_keys(vv, start_pos as int);
        assert(seq_views(keys@) == dk);

        // one child per segment, from the group of sequences sharing it
        let mut j: usize = 0;
        while j < keys.len()
            invariant
                vv == seq_views(sequences@),
                vv.len() == sequences@.len() > 0,
                forall|i: int|
                    0 <= i < vv.len() ==> (#[trigger] vv[i]).len() > start_pos as int,
                dk == div_keys(vv, start_pos as int),
                seq_views(keys@) == dk,
                keys@.len() == dk.len(),
                0 <= (j as int) && (j as int) <= dk.len(),
                root@.terminal == oldt,
                root@.edges + div_edges(start_pos as int, vv, dk, j as int) == base + div_edges(
                    start_pos as int,
                    vv,
                    dk,
                    0,
                ),
            decreases keys@.len() - j,
        {
            let ghost gpred = div_pred(vv, start_pos as int, dk[j as int]);
            let ghost grpv = vv.filter(gpred);
            let mut grp: Vec<Vec<T>> = Vec::new();
            let mut m: usize = 0;
            while m < sequences.len()
                invariant
                    vv == seq_views(sequences@),
                    vv.len() == sequences@.len(),
                    gpred == div_pred(vv, start_pos as int, dk[j as int]),
                    grpv == vv.filter(gpred),
                    0 <= (j as int) && (j as int) < dk.len(),
                    seq_views(keys@) == dk,
                    keys@.len() == dk.len(),
                    0 <= (m as int) && (m as int) <= vv.len(),
                    seq_views(grp@) == vv.take(m as int).filter(gpred),
                decreases vv.len() - m,
            {
                proof {
                    lemma_filter_take_step(vv, gpred, m as int);
                }
                let segm = find_segment_until_divergence(&sequences[m], sequences, start_pos);
                if seqs_equal(&segm, &keys[j]) {
                    let c = copy_seq(&sequences[m]);
                    proof {
                        lemma_seq_views_push(grp@, c);
                    }
                    grp.push(c);
                }
                m = m + 1;
            }
            proof {
                lemma_take_full(vv);
                assert(seq_views(grp@) == grpv);
            }
            proof {
                // the group holds at least the first sequence that produced
                // this segment
                lemma_distinct_keys(vv, div_key_fn(vv, start_pos as int));
                let ghost dkj = dk[j as int];
                let w = choose|w: int|
                    0 <= w < vv.len() && div_key_fn(vv, start_pos as int)(#[trigger] vv[w]) == dkj;
                assert(gpred(vv[w]));
                vv.lemma_filter_contains(gpred, w);
                assert(grpv.contains(vv[w]));
                assert(grpv.len() > 0);
                lemma_seg_until_div(vv[w], vv, start_pos as int);
                assert(dk[j as int].len() >= 1);
                // every member reaches past its segment
                assert forall|t: int|
                    0 <= t < grpv.len() implies (#[trigger] grpv[t]).len() >= start_pos as int
                    + dk[j as int].len() by {
                    vv.lemma_filter_pred(gpred, t);
                    vv.lemma_filter_contains_rev(gpred, grpv[t]);
                    let u = choose|u: int| 0 <= u < vv.len() && vv[u] == grpv[t];
                    lemma_seg_until_div(grpv[t], vv, start_pos as int);
                }
            }
            let g0n: usize = grp[0].len();
            let kjn: usize = keys[j].len();
            proof {
                assert(grpv[0] == grp@[0]@);
                assert(g0n as int == grpv[0].len());
                assert(kjn as int == dk[j as int].len());
                assert(g0n >= start_pos + kjn);
            }
            let npos: usize = start_pos + kjn;
            proof {
                lemma_max_len_filter(vv, gpred);
                lemma_max_len(vv);
                assert(vv[0].len() <= max_len(vv));
                assert(build_measure(grpv, npos as int) < build_measure(vv, start_pos as int));
            }
            let child = Self::build_segmented_trie(&grp, npos);
            let segcopy = copy_seq(&keys[j]);
            let ghost prev = root.children@;
            let ghost prev_edges = root@.edges;
            root.children.push((segcopy, child));
            proof {
                lemma_view_children_push(prev, segcopy, child);
                assert(root@.edges == prev_edges.push((dk[j as int], spec_build(
                    grpv,
                    npos as int,
                ))));
                assert(div_edges(start_pos as int, vv, dk, j as int) == seq![
                    (dk[j as int], spec_build(grpv, npos as int)),
                ] + div_edges(start_pos as int, vv, dk, j as int + 1));
                assert(root@.edges + div_edges(start_pos as int, vv, dk, j as int + 1)
                    =~= prev_edges + div_edges(start_pos as int, vv, dk, j as int));
            }
            j = j + 1;
        }
        proof {
            assert(div_edges(start_pos as int, vv, dk, keys@.len() as int) =~= Seq::<
                (Seq<T>, TrieView<T>),
            >::empty());
            assert(root@.edges =~= root@.edges + div_edges(
                start_pos as int,
                vv,
                dk,
                keys@.len() as int,
            ));
        }
    }

    /// First-token grouping: sequences are grouped by their token at
    /// `start_pos`, and one child is appended per group, labelled with the
    /// group's optimal segment.
    fn build_without_common_prefix(root: &mut Self, sequences: &Vec<Vec<T>>, start_pos: usize)
        requires
            seq_views(sequences@).len() > 0,
            forall|i: int|
                0 <= i < seq_views(sequences@).len() ==> (#[trigger] seq_views(
                    sequences@,
                )[i]).len() > start_pos as int,
        ensures
            final(root)@.terminal == old(root)@.terminal,
            final(root)@.edges == old(root)@.edges + tok_edges(
                start_pos as int,
                seq_views(sequences@),
                distinct_keys(seq_views(sequences@), tok_key_fn(start_pos as int)),
                0,
            ),
        decreases build_measure(seq_views(sequences@), start_pos as int), 0int, 0int,
    {
        let ghost vv = seq_views(sequences@);
        let ghost kf = tok_key_fn::<T>(start_pos as int);
        let ghost oldt = root@.terminal;
        let ghost base = root@.edges;

        // collect the distinct first tokens, in order of first occurrence
        let mut keys: Vec<T> = Vec::new();
        let mut idx: usize = 0;
        while idx < sequences.len()
            invariant
                vv == seq_views(sequences@),
                kf == tok_key_fn::<T>(start_pos as int),
                vv.len() == sequences@.len(),
                forall|i: int|
                    0 <= i < vv.len() ==> (#[trigger] vv[i]).len() > start_pos as int,
                0 <= (idx as int) && (idx as int) <= vv.len(),
                keys@ == distinct_keys(vv.take(idx as int), kf),
            decreases vv.len() - idx,
        {
            proof {
                assert(vv[idx as int] == sequences@[idx as int]@);
                assert(vv[idx as int].len() > start_pos as int);
            }
            let t = sequences[idx][start_pos];
            proof {
                lemma_distinct_keys_take_step(vv, kf, idx as int);
                assert(kf(vv[idx as int]) == t);
            }
            if !contains_token(&keys, &t) {
                keys.push(t);
            }
            idx = idx + 1;
        }
        proof {
            lemma_take_full(vv);
        }
        let ghost dk = distinct_keys(vv, tok_key_fn::<T>(start_pos as int));
        assert(keys@ == dk);

        // one child per first token, labelled with the group's optimal
        // segment
        let mut j: usize = 0;
        while j < keys.len()
            invariant
                vv == seq_views(sequences@),
                vv.len() == sequences@.len() > 0,
                forall|i: int|
                    0 <= i < vv.len() ==> (#[trigger] vv[i]).len() > start_pos as int,
                dk == distinct_keys(vv, tok_key_fn::<T>(start_pos as int)),
                keys@ == dk,
                0 <= (j as int) && (j as int) <= dk.len(),
                root@.terminal == oldt,
                root@.edges + tok_edges(start_pos as int, vv, dk, j as int) == base + tok_edges(
                    start_pos as int,
                    vv,
                    dk,
                    0,
                ),
            decreases keys@.len() - j,
        {
            let ghost gpred = tok_pred(start_pos as int, dk[j as int]);
            let ghost grpv = vv.filter(gpred);
            let mut grp: Vec<Vec<T>> = Vec::new();
            let mut m: usize = 0;
            while m < sequences.len()
                invariant
                    vv == seq_views(sequences@),
                    vv.len() == sequences@.len(),
                    forall|i: int|
                        0 <= i < vv.len() ==> (#[trigger] vv[i]).len() > start_pos as int,
                    gpred == tok_pred(start_pos as int, dk[j as int]),
                    grpv == vv.filter(gpred),
                    0 <= (j as int) && (j as int) < dk.len(),
                    keys@ == dk,
                    0 <= (m as int) && (m as int) <= vv.len(),
                    seq_views(grp@) == vv.take(m as int).filter(gpred),
                decreases vv.len() - m,
            {
                proof {
                    lemma_filter_take_step(vv, gpred, m as int);
                    assert(vv[m as int].len() > start_pos as int);
                }
                if tokens_equal(&sequences[m][start_pos], &keys[j]) {
                    let c = copy_seq(&sequences[m]);
                    proof {
                        lemma_seq_views_push(grp@, c);
                    }
                    grp.push(c);
                } else {
                    proof {
                        assert(!gpred(vv[m as int]));
                    }
                }
                m = m + 1;
            }
            proof {
                lemma_take_full(vv);
                assert(seq_views(grp@) == grpv);
            }
            proof {
                // the group holds at least the first sequence carrying this
                // token, and all members share the token at `start_pos`
                lemma_distinct_keys(vv, tok_key_fn::<T>(start_pos as int));
                let ghost dkj = dk[j as int];
                let w = choose|w: int|
                    0 <= w < vv.len() && tok_key_fn::<T>(start_pos as int)(#[trigger] vv[w]) == dkj;
                assert(gpred(vv[w]));
                vv.lemma_filter_contains(gpred, w);
                assert(grpv.len() > 0);
                assert forall|t: int|
                    0 <= t < grpv.len() implies (#[trigger] grpv[t]).len() > start_pos as int
                    && grpv[t][start_pos as int] == dk[j as int] by {
                    vv.lemma_filter_pred(gpred, t);
                }
                assert(all_share(grpv, start_pos as int, 1)) by {
                    assert forall|t: int|
                        0 <= t < grpv.len() implies (#[trigger] grpv[t]).len() >= start_pos as int
                        + 1 && grpv[t].subrange(start_pos as int, start_pos as int + 1)
                        == grpv[0].subrange(start_pos as int, start_pos as int + 1) by {
                        assert(grpv[t].subrange(start_pos as int, start_pos as int + 1)
                            =~= grpv[0].subrange(start_pos as int, start_pos as int + 1));
                    }
                }
            }
            let seg = find_optimal_segment(&grp, start_pos);
            let ghost ol = opt_len(grpv, start_pos as int);
            let g0n: usize = grp[0].len();
            proof {
                lemma_opt_len_from_bounds(grpv, start_pos as int, 1);
                assert(grpv[0] == grp@[0]@);
                assert(g0n as int == grpv[0].len());
                assert(seg@.len() == ol);
                assert(start_pos as int + seg@.len() <= g0n as int);
            }
            let npos: usize = start_pos + seg.len();
            proof {
                lemma_max_len_filter(vv, gpred);
                lemma_max_len(vv);
                assert(vv[0].len() <= max_len(vv));
                assert(build_measure(grpv, npos as int) < build_measure(vv, start_pos as int));
            }
            let child = Self::build_segmented_trie(&grp, npos);
            let ghost prev = root.children@;
            let ghost prev_edges = root@.edges;
            root.children.push((seg, child));
            proof {
                lemma_view_children_push(prev, seg, child);
                assert(tok_edges(start_pos as int, vv, dk, j as int) == seq![
                    (grpv[0].subrange(start_pos as int, start_pos as int + ol), spec_build(
                        grpv,
                        npos as int,
                    )),
                ] + tok_edges(start_pos as int, vv, dk, j as int + 1));
                assert(root@.edges + tok_edges(start_pos as int, vv, dk, j as int + 1)
                    =~= prev_edges + tok_edges(start_pos as int, vv, dk, j as int));
            }
            j = j + 1;
        }
        proof {
            assert(tok_edges(start_pos as int, vv, dk, keys@.len() as int) =~= Seq::<
                (Seq<T>, TrieView<T>),
            >::empty());
            assert(root@.edges =~= root@.edges + tok_edges(
                start_pos as int,
                vv,
                dk,
                keys@.len() as int,
            ));
        }
    }

    /// Common-prefix segmentation: a single continuation absorbs the whole
    /// prefix as one edge; several continuations fall back to divergent
    /// segmentation.
    fn build_with_common_prefix(
        root: &mut Self,
        sequences: &Vec<Vec<T>>,
        start_pos: usize,
        common_prefix_len: usize,
    )
        requires
            seq_views(sequences@).len() > 0,
            forall|i: int|
                0 <= i < seq_views(sequences@).len() ==> (#[trigger] seq_views(
                    sequences@,
                )[i]).len() > start_pos as int,
            common_prefix_len as int == lcp(seq_views(sequences@), start_pos as int),
            common_prefix_len > 0,
        ensures
            final(root)@.terminal == old(root)@.terminal,
            final(root)@.edges == old(root)@.edges + cp_edges(
                seq_views(sequences@),
                start_pos as int,
                common_prefix_len as int,
            ),
        decreases build_measure(seq_views(sequences@), start_pos as int), 0int, 1int,
    {
        let ghost vv = seq_views(sequences@);
        let ghost pos = start_pos as int;
        let ghost l = common_prefix_len as int;
        proof {
            assert(vv.len() >= 2);
            lemma_lcp_from_agree(vv, pos);
            // every sequence reaches the end of the common prefix
            assert forall|k: int| 0 <= k < vv.len() implies (#[trigger] vv[k]).len() >= pos
                + l by {
                assert(agree_at(vv, pos + l - 1));
            }
            assert(vv[0].len() <= usize::MAX as int) by {
                assert(vv[0] == sequences@[0]@);
                assert(sequences@[0]@.len() == sequences@[0].len());
            }
        }
        let npos: usize = start_pos + common_prefix_len;
        let same = all_same_next(sequences, npos);
        proof {
            lemma_single_key(vv, nkey_fn::<T>(npos as int));
            assert(forall|i: int|
                0 <= i < vv.len() ==> nkey_fn::<T>(npos as int)(#[trigger] vv[i]) == nkey(
                    vv[i],
                    npos as int,
                ));
        }
        if same {
            proof {
                assert(distinct_keys(vv, nkey_fn::<T>(pos + l)).len() == 1) by {
                    assert(nkey_fn::<T>(npos as int) == nkey_fn::<T>(pos + l));
                }
            }
            let seg = copy_subrange(&sequences[0], start_pos, npos);
            proof {
                lemma_max_len(vv);
                assert(vv[0].len() <= max_len(vv));
                assert(build_measure(vv, pos + l) < build_measure(vv, pos));
            }
            let child = Self::build_segmented_trie(sequences, npos);
            let ghost prev = root.children@;
            let ghost prev_edges = root@.edges;
            root.children.push((seg, child));
            proof {
                lemma_view_children_push(prev, seg, child);
                assert(seg@ == vv[0].subrange(pos, pos + l));
                assert(cp_edges(vv, pos, l) == seq![
                    (vv[0].subrange(pos, pos + l), spec_build(vv, pos + l)),
                ]);
                assert(root@.edges =~= prev_edges + cp_edges(vv, pos, l));
            }
        } else {
            proof {
                assert(distinct_keys(vv, nkey_fn::<T>(pos + l)).len() != 1) by {
                    assert(nkey_fn::<T>(npos as int) == nkey_fn::<T>(pos + l));
                }
            }
            Self::build_divergent_segments(root, sequences, start_pos);
        }
    }

    /// Inserts `x` into a canonically ordered list, keeping it sorted and
    /// dropping it when it is already present.
    pub(crate) fn insert_canonical(list: &mut Vec<Vec<T>>, x: Vec<T>)
        ensures
            seq_views(final(list)@) == insert_canon(seq_views(old(list)@), x@),
    {
        let ghost lv = seq_views(list@);
        let mut i: usize = 0;
        while i < list.len()
            invariant
                list@ == old(list)@,
                lv == seq_views(list@),
                lv.len() == list@.len(),
                0 <= i as int <= lv.len(),
                forall|k: int| 0 <= k < i ==> x@ != #[trigger] lv[k] && !seq_le(x@, lv[k]),
            decreases list@.len() - i,
        {
            match seq_compare(&x, &list[i]) {
                TokenCmp::Greater => {
                    proof {
                        assert(lv[i as int] == list@[i as int]@);
                        if seq_le(x@, lv[i as int]) {
                            seq_le_antisymmetric(x@, lv[i as int]);
                        }
                    }
                    i = i + 1;
                },
                TokenCmp::Equal => {
                    proof {
                        lemma_insert_canon_scan(lv, x@, i as int);
                        assert(lv.skip(i as int)[0] == lv[i as int]);
                        assert(insert_canon(lv.skip(i as int), x@) == lv.skip(i as int));
                        assert(lv.take(i as int) + lv.skip(i as int) =~= lv);
                    }
                    return ;
                },
                TokenCmp::Less => {
                    proof {
                        lemma_insert_canon_scan(lv, x@, i as int);
                        assert(lv.skip(i as int)[0] == lv[i as int]);
                        assert(insert_canon(lv.skip(i as int), x@) == seq![x@] + lv.skip(i as int));
                    }
                    let ghost before = list@;
                    list.insert(i, x);
                    proof {
                        assert(seq_views(list@) =~= lv.take(i as int) + (seq![x@] + lv.skip(
                            i as int,
                        ))) by {
                            assert(list@ == before.insert(i as int, x));
                            assert(forall|k: int|
                                0 <= k < list@.len() ==> seq_views(list@)[k] == (
                                #[trigger] list@[k])@);
                        }
                    }
                    return ;
                },
            }
        }
        proof {
            lemma_insert_canon_scan(lv, x@, lv.len() as int);
            assert(lv.skip(lv.len() as int).len() == 0);
            assert(insert_canon(lv.skip(lv.len() as int), x@) =~= seq![x@]);
            lemma_take_full(lv);
        }
        let ghost before = list@;
        list.push(x);
        proof {
            lemma_seq_views_push(before, x);
            assert(lv.push(x@) =~= lv + seq![x@]);
        }
    }

    /// The canonical form of the input list: the same sequences, sorted
    /// lexicographically with duplicates removed.
    pub(crate) fn canonicalize(sequences: &Vec<Vec<T>>) -> (r: Vec<Vec<T>>)
        ensures
            seq_views(r@) == canon(seq_views(sequences@)),
    {
        let ghost sv = seq_views(sequences@);
        let mut r: Vec<Vec<T>> = Vec::new();
        let mut i: usize = 0;
        while i < sequences.len()
            invariant
                sv == seq_views(sequences@),
                sv.len() == sequences@.len(),
                0 <= i as int <= sv.len(),
                seq_views(r@) == canon(sv.take(i as int)),
            decreases sequences@.len() - i,
        {
            let c = copy_seq(&sequences[i]);
            Self::insert_canonical(&mut r, c);
            proof {
                assert(sv.take(i as int + 1).drop_last() =~= sv.take(i as int));
                assert(sv.take(i as int + 1).last() == sv[i as int]);
                assert(canon(sv.take(i as int + 1)) == insert_canon(
                    canon(sv.take(i as int)),
                    sv[i as int],
                ));
            }
            i = i + 1;
        }
        proof {
            lemma_take_full(sv);
        }
        r
    }

    /// The segmented trie of the given sequences: the input is brought to
    /// canonical form (sorted, duplicates removed), then segmented from the
    /// start. Every input sequence is spelled by exactly one root path whose
    /// concatenated edge labels reconstruct it, ending at a terminal node.
    pub fn from_sequences(sequences: &Vec<Vec<T>>) -> (r: Self)
        ensures
            r@ == spec_from_sequences(seq_views(sequences@)),
            forall|i: int|
                0 <= i < sequences@.len() ==> trie_contains(r@, (#[trigger] sequences@[i])@),
            no_overlap(r@),
    {
        let cs = Self::canonicalize(sequences);
        let r = Self::build_segmented_trie(&cs, 0);
        proof {
            lemma_round_trip(seq_views(sequences@));
            lemma_trie_no_overlap(seq_views(sequences@));
            assert(forall|i: int|
                0 <= i < sequences@.len() ==> seq_views(sequences@)[i] == (
                #[trigger] sequences@[i])@);
        }
        r
    }

    /// Whether some input sequence ends exactly at this node.
    pub fn is_terminal(&self) -> (b: bool)
        ensures
            b == self@.terminal,
    {
        self.is_terminal
    }

    /// The number of child edges of this node.
    pub fn num_children(&self) -> (n: usize)
        ensures
            n as int == self@.edges.len(),
    {
        proof {
            lemma_view_children(self.children@);
        }
        self.children.len()
    }

    /// The segment labelling the `i`-th child edge.
    pub fn child_segment(&self, i: usize) -> (s: &Vec<T>)
        requires
            i < self@.edges.len(),
        ensures
            s@ == self@.edges[i as int].0,
    {
        proof {
            lemma_view_children(self.children@);
        }
        &self.children[i].0
    }

    /// The child node under the `i`-th edge.
    pub fn child_node(&self, i: usize) -> (n: &Self)
        requires
            i < self@.edges.len(),
        ensures
            n@ == self@.edges[i as int].1,
    {
        proof {
            lemma_view_children(self.children@);
        }
        &self.children[i].1
    }

    /// The segmented trie of `sequences` with the first `start_pos` tokens
    /// already consumed by ancestor segments.
    fn build_segmented_trie(sequences: &Vec<Vec<T>>, start_pos: usize) -> (r: Self)
        ensures
            r@ == spec_build(seq_views(sequences@), start_pos as int),
        decreases build_measure(seq_views(sequences@), start_pos as int), 1int, 0int,
    {
        let ghost sv = seq_views(sequences@);
        let ghost pos = start_pos as int;
        let is_term = any_ends_at(sequences, start_pos);
        let valid = filter_valid(sequences, start_pos);
        let ghost vv = seq_views(valid@);
        let mut root = TrieNode { children: Vec::new(), is_terminal: is_term };
        proof {
            assert(vv == valid_of(sv, pos));
            assert(root@.edges =~= Seq::<(Seq<T>, TrieView<T>)>::empty());
        }
        if valid.len() == 0 {
            return root;
        }
        proof {
            assert forall|t: int| 0 <= t < vv.len() implies (#[trigger] vv[t]).len() > pos by {
                sv.lemma_filter_pred(|s: Seq<T>| s.len() > pos, t);
            }
            lemma_max_len_filter(sv, |s: Seq<T>| s.len() > pos);
        }
        let l = find_longest_common_prefix(&valid, start_pos);
        if l > 0 {
            Self::build_with_common_prefix(&mut root, &valid, start_pos, l);
            proof {
                assert(root@.edges =~= cp_edges(vv, pos, l as int));
            }
        } else {
            Self::build_without_common_prefix(&mut root, &valid, start_pos);
            proof {
                assert(root@.edges =~= tok_edges(
                    pos,
                    vv,
                    distinct_keys(vv, tok_key_fn::<T>(pos)),
                    0,
                ));
            }
        }
        root
    }
}

} // verus!
