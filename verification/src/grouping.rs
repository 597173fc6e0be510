use vstd::prelude::*;
use crate::model::{
    lemma_seq_ordered_iff_pairwise, lemma_seq_range_end_witness, lemma_seq_range_start_witness,
    lemma_seq_range_monotone, lemma_seq_wf_from_forall, lemma_seq_wf_index, pairwise_ordered,
    NodeView, TokenView,
};
use crate::parse_token::{lemma_views_index, views, ParseToken};

verus! {

/// The tag that marks a node as the opener of a group.
pub open spec fn opener_tag() -> Seq<char> {
    "("@
}

/// The tag that marks a node as the closer of a group.
pub open spec fn closer_tag() -> Seq<char> {
    ")"@
}

/// The tag that every branch built by the grouper carries.
pub open spec fn group_tag() -> Seq<char> {
    "expr"@
}

/// Whether the scan treats a node as an opener. A node tagged as both
/// opener and closer counts as an opener.
pub open spec fn is_opener(t: TokenView) -> bool {
    t.has_tag(opener_tag())
}

/// Whether the scan treats a node as a closer: it carries the closer tag
/// and not the opener tag.
pub open spec fn acts_as_closer(t: TokenView) -> bool {
    !is_opener(t) && t.has_tag(closer_tag())
}

/// The left-to-right scan from position `i`, with `l` the position of the
/// most recent unmatched opener seen so far. It yields the first matched
/// pair of delimiter positions, or `None` when no closer with a pending
/// opener exists.
pub open spec fn scan(s: Seq<TokenView>, i: int, l: Option<int>) -> Option<(int, int)>
    decreases s.len() - i,
{
    if i < 0 || i >= s.len() {
        None
    } else if is_opener(s[i]) {
        scan(s, i + 1, Some(i))
    } else {
        match l {
            Some(j) => if s[i].has_tag(closer_tag()) {
                Some((j, i))
            } else {
                scan(s, i + 1, l)
            },
            None => scan(s, i + 1, None),
        }
    }
}

/// The first matched pair of delimiter positions in a forest: the first
/// closer with a pending opener, paired with the most recent opener
/// before it.
pub open spec fn find_pair(s: Seq<TokenView>) -> Option<(int, int)> {
    scan(s, 0, None)
}

/// A pair found by the scan lies within bounds, in order, and names an
/// opener position.
pub proof fn lemma_scan_bounds(s: Seq<TokenView>, i: int, l: Option<int>)
    requires
        0 <= i <= s.len(),
        match l {
            Some(j) => 0 <= j < i && is_opener(s[j]),
            None => true,
        },
    ensures
        match scan(s, i, l) {
            Some((a, b)) => 0 <= a < b < s.len() && is_opener(s[a]),
            None => true,
        },
    decreases s.len() - i,
{
    if i < s.len() {
        if is_opener(s[i]) {
            lemma_scan_bounds(s, i + 1, Some(i));
        } else {
            match l {
                Some(j) => {
                    if !s[i].has_tag(closer_tag()) {
                        lemma_scan_bounds(s, i + 1, l);
                    }
                },
                None => {
                    lemma_scan_bounds(s, i + 1, None);
                },
            }
        }
    }
}

/// The branch that the grouper builds over a grouped interior: its
/// children are the interior, its source text is the opener's, and it
/// carries the structural group tag alone.
pub open spec fn branch_view(children: Seq<TokenView>, body: Seq<char>) -> TokenView {
    TokenView { node: NodeView::Branch { children }, body, tags: seq![group_tag()] }
}

/// One grouping pass, as the grouper computes it: while the scan finds a
/// matched pair, the interior between the delimiters is grouped on its
/// own, the whole span including the delimiters is replaced by a single
/// branch over that interior, and the scan restarts; a forest without a
/// matched pair is left unchanged.
pub open spec fn spec_group(s: Seq<TokenView>) -> Seq<TokenView>
    decreases s.len(),
{
    match find_pair(s) {
        Some((l, r)) => if 0 <= l && l < r && r < s.len() {
            spec_group(
                s.take(l) + seq![branch_view(spec_group(s.subrange(l + 1, r)), s[l].body)]
                    + s.skip(r + 1),
            )
        } else {
            s
        },
        None => s,
    }
}

/// The grouper's output contains no matched pair of delimiters.
pub proof fn lemma_group_fixpoint(s: Seq<TokenView>)
    ensures
        find_pair(spec_group(s)) is None,
    decreases s.len(),
{
    lemma_scan_bounds(s, 0, None);
    match find_pair(s) {
        Some((l, r)) => {
            lemma_group_fixpoint(
                s.take(l) + seq![branch_view(spec_group(s.subrange(l + 1, r)), s[l].body)]
                    + s.skip(r + 1),
            );
        },
        None => {},
    }
}

/// Grouping is idempotent: applying the grouper to its own output returns
/// that output unchanged.
pub proof fn lemma_group_idempotent(s: Seq<TokenView>)
    ensures
        spec_group(spec_group(s)) == spec_group(s),
{
    lemma_group_fixpoint(s);
}

/// The forest that one resolution step leaves behind: the span from the
/// opener at `l` to the closer at `r` inclusive is replaced by a single
/// branch over the grouped interior.
pub open spec fn resolve_step(s: Seq<TokenView>, l: int, r: int) -> Seq<TokenView> {
    s.take(l) + seq![branch_view(spec_group(s.subrange(l + 1, r)), s[l].body)] + s.skip(r + 1)
}

/// Grouping a forest whose known content ranges all start at or after a
/// position leaves that bound intact.
pub proof fn lemma_group_preserves_starts_from(s: Seq<TokenView>, e: int)
    requires
        TokenView::starts_from(s, e),
    ensures
        TokenView::starts_from(spec_group(s), e),
    decreases s.len(),
{
    lemma_scan_bounds(s, 0, None);
    match find_pair(s) {
        Some((l, r)) => {
            let interior = s.subrange(l + 1, r);
            assert forall|k: int| 0 <= k < interior.len() implies match (
                #[trigger] interior[k]).content_range() {
                Some((a, _)) => e <= a,
                None => true,
            } by {
                assert(interior[k] == s[l + 1 + k]);
            }
            lemma_group_preserves_starts_from(interior, e);
            let bv = branch_view(spec_group(interior), s[l].body);
            let rebuilt = resolve_step(s, l, r);
            lemma_seq_range_start_witness(spec_group(interior));
            assert forall|k: int| 0 <= k < rebuilt.len() implies match (
                #[trigger] rebuilt[k]).content_range() {
                Some((a, _)) => e <= a,
                None => true,
            } by {
                if k < l {
                    assert(rebuilt[k] == s[k]);
                } else if k == l {
                    assert(rebuilt[k] == bv);
                } else {
                    assert(rebuilt[k] == s[k + r - l]);
                }
            }
            lemma_group_preserves_starts_from(rebuilt, e);
        },
        None => {},
    }
}

/// Grouping a forest whose known content ranges all end at or before a
/// position leaves that bound intact.
pub proof fn lemma_group_preserves_ends_by(s: Seq<TokenView>, e: int)
    requires
        TokenView::ends_by(s, e),
    ensures
        TokenView::ends_by(spec_group(s), e),
    decreases s.len(),
{
    lemma_scan_bounds(s, 0, None);
    match find_pair(s) {
        Some((l, r)) => {
            let interior = s.subrange(l + 1, r);
            assert forall|k: int| 0 <= k < interior.len() implies match (
                #[trigger] interior[k]).content_range() {
                Some((_, b)) => b <= e,
                None => true,
            } by {
                assert(interior[k] == s[l + 1 + k]);
            }
            lemma_group_preserves_ends_by(interior, e);
            let bv = branch_view(spec_group(interior), s[l].body);
            let rebuilt = resolve_step(s, l, r);
            lemma_seq_range_end_witness(spec_group(interior));
            assert forall|k: int| 0 <= k < rebuilt.len() implies match (
                #[trigger] rebuilt[k]).content_range() {
                Some((_, b)) => b <= e,
                None => true,
            } by {
                if k < l {
                    assert(rebuilt[k] == s[k]);
                } else if k == l {
                    assert(rebuilt[k] == bv);
                } else {
                    assert(rebuilt[k] == s[k + r - l]);
                }
            }
            lemma_group_preserves_ends_by(rebuilt, e);
        },
        None => {},
    }
}

/// Grouping preserves well-formedness: the output forest of a grouped
/// well-formed forest over one source text is well-formed over that text.
pub proof fn lemma_group_preserves_wf(s: Seq<TokenView>, body: Seq<char>)
    requires
        TokenView::seq_wf(s, body),
    ensures
        TokenView::seq_wf(spec_group(s), body),
    decreases s.len(),
{
    lemma_scan_bounds(s, 0, None);
    lemma_seq_wf_index(s, body);
    match find_pair(s) {
        Some((l, r)) => {
            let interior = s.subrange(l + 1, r);
            assert forall|k: int| 0 <= k < interior.len() implies (#[trigger] interior[k]).wf()
                && interior[k].body == body by {
                assert(interior[k] == s[l + 1 + k]);
            }
            lemma_seq_wf_from_forall(interior, body);
            lemma_group_preserves_wf(interior, body);
            let bv = branch_view(spec_group(interior), s[l].body);
            let rebuilt = resolve_step(s, l, r);
            assert(bv.wf());
            assert forall|k: int| 0 <= k < rebuilt.len() implies (#[trigger] rebuilt[k]).wf()
                && rebuilt[k].body == body by {
                if k < l {
                    assert(rebuilt[k] == s[k]);
                } else if k == l {
                    assert(rebuilt[k] == bv);
                } else {
                    assert(rebuilt[k] == s[k + r - l]);
                }
            }
            lemma_seq_wf_from_forall(rebuilt, body);
            lemma_group_preserves_wf(rebuilt, body);
        },
        None => {},
    }
}

/// Grouping preserves source order: the output forest of a grouped
/// source-ordered forest is source-ordered, so every branch the grouper
/// builds keeps its children's known ranges left to right without
/// overlap.
pub proof fn lemma_group_preserves_ordered(s: Seq<TokenView>)
    requires
        TokenView::seq_ordered(s),
    ensures
        TokenView::seq_ordered(spec_group(s)),
    decreases s.len(),
{
    lemma_scan_bounds(s, 0, None);
    lemma_seq_ordered_iff_pairwise(s);
    match find_pair(s) {
        Some((l, r)) => {
            let interior = s.subrange(l + 1, r);
            assert(forall|k: int| 0 <= k < interior.len() ==> #[trigger] interior[k] == s[l + 1
                + k]);
            assert(pairwise_ordered(interior));
            lemma_seq_ordered_iff_pairwise(interior);
            lemma_group_preserves_ordered(interior);
            let bv = branch_view(spec_group(interior), s[l].body);
            let rebuilt = resolve_step(s, l, r);
            assert(bv.ordered());
            lemma_seq_range_start_witness(spec_group(interior));
            lemma_seq_range_end_witness(spec_group(interior));
            assert forall|i: int, j: int| 0 <= i < j < rebuilt.len() implies match (
                (#[trigger] rebuilt[i]).content_range(),
                (#[trigger] rebuilt[j]).content_range(),
            ) {
                (Some((_, b)), Some((a2, _))) => b <= a2,
                _ => true,
            } by {
                if i < l && j < l {
                    assert(rebuilt[i] == s[i] && rebuilt[j] == s[j]);
                } else if i < l && j == l {
                    assert(rebuilt[i] == s[i] && rebuilt[j] == bv);
                    match s[i].content_range() {
                        Some((_, b)) => {
                            assert forall|k: int| 0 <= k < interior.len() implies match (
                                #[trigger] interior[k]).content_range() {
                                Some((a, _)) => b <= a,
                                None => true,
                            } by {
                                assert(interior[k] == s[l + 1 + k]);
                            }
                            lemma_group_preserves_starts_from(interior, b);
                        },
                        None => {},
                    }
                } else if i < l && j > l {
                    assert(rebuilt[i] == s[i] && rebuilt[j] == s[j + r - l]);
                } else if i == l {
                    assert(rebuilt[i] == bv && rebuilt[j] == s[j + r - l]);
                    match s[j + r - l].content_range() {
                        Some((a2, _)) => {
                            assert forall|k: int| 0 <= k < interior.len() implies match (
                                #[trigger] interior[k]).content_range() {
                                Some((_, b)) => b <= a2,
                                None => true,
                            } by {
                                assert(interior[k] == s[l + 1 + k]);
                            }
                            lemma_group_preserves_ends_by(interior, a2);
                        },
                        None => {},
                    }
                } else {
                    assert(rebuilt[i] == s[i + r - l] && rebuilt[j] == s[j + r - l]);
                }
            }
            assert forall|i: int| 0 <= i < rebuilt.len() implies (#[trigger] rebuilt[i]).ordered()
                by {
                if i < l {
                    assert(rebuilt[i] == s[i]);
                } else if i == l {
                    assert(rebuilt[i] == bv);
                } else {
                    assert(rebuilt[i] == s[i + r - l]);
                }
            }
            lemma_seq_ordered_iff_pairwise(rebuilt);
            lemma_group_preserves_ordered(rebuilt);
        },
        None => {},
    }
}

/// Once grouping terminates, branch content ranges are well-formed: over
/// a well-formed, source-ordered forest the grouper's output is again
/// well-formed and source-ordered, and its combined content range, when
/// known, runs forward within the source text's bounds.
pub proof fn lemma_group_ranges_well_formed(s: Seq<TokenView>, body: Seq<char>)
    requires
        TokenView::seq_wf(s, body),
        TokenView::seq_ordered(s),
    ensures
        TokenView::seq_wf(spec_group(s), body),
        TokenView::seq_ordered(spec_group(s)),
        match TokenView::seq_content_range(spec_group(s)) {
            Some((c, d)) => 0 <= c <= d <= body.len(),
            None => true,
        },
{
    lemma_group_preserves_wf(s, body);
    lemma_group_preserves_ordered(s);
    lemma_seq_range_monotone(spec_group(s), body);
}

/// The scan's running opener position, as the model sees it.
pub open spec fn opt_int(o: Option<usize>) -> Option<int> {
    match o {
        Some(x) => Some(x as int),
        None => None,
    }
}

/// Folds a flat forest into nested trees by matching paired delimiter
/// tags: each innermost matched pair of delimiters is collapsed, with the
/// grouped interior between them, into a single branch carrying the
/// structural group tag, until no matched pair remains. Unmatched
/// delimiters are left in place unchanged.
pub fn group<'a>(pts: Vec<ParseToken<'a>>) -> (r: Vec<ParseToken<'a>>)
    ensures
        views(r@) == spec_group(views(pts@)),
    decreases pts@.len(),
{
    let ghost s = views(pts@);
    proof {
        lemma_views_index(pts@);
        lemma_scan_bounds(s, 0, None);
    }
    let mut l_index: Option<usize> = None;
    let mut found: Option<(usize, usize)> = None;
    let mut i: usize = 0;
    while i < pts.len() && found.is_none()
        invariant
            s == views(pts@),
            s.len() == pts@.len(),
            forall|k: int| 0 <= k < pts@.len() ==> s[k] == #[trigger] pts@[k]@,
            i <= pts@.len(),
            match found {
                None => scan(s, i as int, opt_int(l_index)) == find_pair(s) && match l_index {
                    Some(j) => 0 <= j < i,
                    None => true,
                },
                Some((l, r)) => find_pair(s) == Some((l as int, r as int)),
            },
        decreases pts@.len() - i,
    {
        if pts[i].has_tag("(") {
            l_index = Some(i);
        } else if l_index.is_some() && pts[i].has_tag(")") {
            found = Some((l_index.unwrap(), i));
        }
        i += 1;
    }
    if found.is_none() {
        return pts;
    }
    let (l, r) = found.unwrap();
    proof {
        lemma_scan_bounds(s, 0, None);
    }
    let ghost before = pts@;
    let mut rest = pts;
    let mut suffix = rest.split_off(r + 1);
    proof {
        assert(suffix@ =~= before.skip(r as int + 1));
    }
    let _ = rest.pop();
    proof {
        assert(rest@ =~= before.subrange(0, r as int));
    }
    let interior = rest.split_off(l + 1);
    proof {
        assert(interior@ =~= before.subrange(l + 1, r as int));
        assert(rest@ =~= before.subrange(0, l + 1));
    }
    let opener = rest.pop().unwrap();
    proof {
        assert(rest@ =~= before.subrange(0, l as int));
        lemma_views_index(interior@);
        assert(views(interior@) =~= s.subrange(l + 1, r as int));
        assert(opener@ == s[l as int]);
    }
    let inner = group(interior);
    let branch = ParseToken::new_branch(inner, opener.body, vec!["expr"]);
    proof {
        reveal_strlit("expr");
        assert(branch@.tags =~= seq![group_tag()]);
        assert(branch@ == branch_view(spec_group(s.subrange(l + 1, r as int)), s[l as int].body));
    }
    let mut rebuilt = rest;
    rebuilt.push(branch);
    rebuilt.append(&mut suffix);
    proof {
        assert(rebuilt@ =~= before.subrange(0, l as int).push(branch) + before.skip(r as int + 1));
        lemma_views_index(rebuilt@);
        assert(views(rebuilt@) =~= s.take(l as int) + seq![
            branch_view(spec_group(s.subrange(l + 1, r as int)), s[l as int].body),
        ] + s.skip(r as int + 1));
    }
    group(rebuilt)
}

/// Drops the trailing element of a forest, when one is there: used to
/// strip the sentinel that the flat-sequence producer appends. An empty
/// forest is returned unchanged.
pub fn remove_last<'a>(pts: Vec<ParseToken<'a>>) -> (r: Vec<ParseToken<'a>>)
    ensures
        pts@.len() == 0 ==> views(r@) == views(pts@),
        pts@.len() > 0 ==> views(r@) == views(pts@).take(pts@.len() - 1),
{
    let ghost s0 = pts@;
    let mut out = pts;
    if out.len() > 0 {
        let _ = out.pop();
        proof {
            lemma_views_index(s0);
            lemma_views_index(out@);
            assert(views(out@) =~= views(s0).take(s0.len() - 1));
        }
    }
    out
}

} // verus!
