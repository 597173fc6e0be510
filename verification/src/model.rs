use vstd::prelude::*;

verus! {

/// The mathematical model of a tree node: a leaf covering a half-open span
/// of the source text, or a branch over an ordered sequence of child models.
#[verifier::ext_equal]
pub enum NodeView {
    Leaf { start: int, end: int },
    Branch { children: Seq<TokenView> },
}

/// The mathematical model of a tagged token tree: its node shape, the
/// character sequence of the shared source text, and its ordered tag list.
#[verifier::ext_equal]
pub struct TokenView {
    pub node: NodeView,
    pub body: Seq<char>,
    pub tags: Seq<Seq<char>>,
}

impl TokenView {
    /// Whether the node's own tag list contains `tag`.
    pub open spec fn has_tag(self, tag: Seq<char>) -> bool {
        exists|i: int| 0 <= i < self.tags.len() && self.tags[i] == tag
    }

    /// The half-open span of source text this node covers: a leaf's stored
    /// range, or for a branch the span from the first child with a known
    /// range to the last such child. `None` when no descendant leaf exists.
    pub open spec fn content_range(self) -> Option<(int, int)>
        decreases self,
    {
        match self.node {
            NodeView::Leaf { start, end } => Some((start, end)),
            NodeView::Branch { children } => Self::seq_content_range(children),
        }
    }

    /// The combined span of a sequence of sibling nodes: from the first
    /// node with a known range to the last such node.
    pub open spec fn seq_content_range(children: Seq<TokenView>) -> Option<(int, int)>
        decreases children,
    {
        if children.len() == 0 {
            None
        } else {
            match (children[0].content_range(), Self::seq_content_range(children.skip(1))) {
                (Some((s, _)), Some((_, e2))) => Some((s, e2)),
                (Some((s, e)), None) => Some((s, e)),
                (None, rest) => rest,
            }
        }
    }

    /// The characters of source text addressed by `content_range`, or the
    /// empty sequence when no range is known.
    pub open spec fn content(self) -> Seq<char> {
        match self.content_range() {
            Some((s, e)) => self.body.subrange(s, e),
            None => Seq::empty(),
        }
    }

    /// Well-formedness: every leaf's range lies within the bounds of its
    /// source text, and every child of a branch shares the branch's source
    /// text.
    pub open spec fn wf(self) -> bool
        decreases self,
    {
        match self.node {
            NodeView::Leaf { start, end } => 0 <= start <= end <= self.body.len(),
            NodeView::Branch { children } => Self::seq_wf(children, self.body),
        }
    }

    /// Well-formedness of a sequence of siblings under one source text.
    pub open spec fn seq_wf(children: Seq<TokenView>, body: Seq<char>) -> bool
        decreases children,
    {
        children.len() == 0 || (children[0].wf() && children[0].body == body
            && Self::seq_wf(children.skip(1), body))
    }

    /// The number of nodes in the tree, counting this one.
    pub open spec fn size(self) -> nat
        decreases self,
    {
        match self.node {
            NodeView::Leaf { .. } => 1,
            NodeView::Branch { children } => 1 + Self::seq_size(children),
        }
    }

    /// The total number of nodes in a sequence of trees.
    pub open spec fn seq_size(children: Seq<TokenView>) -> nat
        decreases children,
    {
        if children.len() == 0 {
            0
        } else {
            children[0].size() + Self::seq_size(children.skip(1))
        }
    }

    /// Whether every node of `s` with a known content range starts at or
    /// after position `e`.
    pub open spec fn starts_from(s: Seq<TokenView>, e: int) -> bool {
        forall|i: int| 0 <= i < s.len() ==> match (#[trigger] s[i]).content_range() {
            Some((a, _)) => e <= a,
            None => true,
        }
    }

    /// Whether every node of `s` with a known content range ends at or
    /// before position `e`.
    pub open spec fn ends_by(s: Seq<TokenView>, e: int) -> bool {
        forall|i: int| 0 <= i < s.len() ==> match (#[trigger] s[i]).content_range() {
            Some((_, b)) => b <= e,
            None => true,
        }
    }

    /// Source-order discipline: within every branch, the children's known
    /// content ranges appear left to right without overlap, as the builder
    /// lays them out.
    pub open spec fn ordered(self) -> bool
        decreases self,
    {
        match self.node {
            NodeView::Leaf { .. } => true,
            NodeView::Branch { children } => Self::seq_ordered(children),
        }
    }

    /// Source-order discipline for a sequence of siblings.
    pub open spec fn seq_ordered(children: Seq<TokenView>) -> bool
        decreases children,
    {
        children.len() == 0 || (children[0].ordered() && (match children[0].content_range() {
            Some((_, b)) => Self::starts_from(children.skip(1), b),
            None => true,
        }) && Self::seq_ordered(children.skip(1)))
    }

    /// The diagnostic rendering of a tag list: each tag followed by a
    /// semicolon and a space.
    pub open spec fn render_tags(tags: Seq<Seq<char>>) -> Seq<char>
        decreases tags.len(),
    {
        if tags.len() == 0 {
            Seq::empty()
        } else {
            tags[0] + "; "@ + Self::render_tags(tags.skip(1))
        }
    }

    /// The diagnostic rendering of the tree at the given depth: one tab per
    /// depth unit, then for a leaf its content, a space, and its tags in
    /// parentheses, or for a branch its tags, a colon, and each child on
    /// its own lines one level deeper.
    pub open spec fn render(self, tabs: nat) -> Seq<char>
        decreases self,
    {
        Seq::new(tabs, |i: int| '\t') + match self.node {
            NodeView::Leaf { start, end } => self.body.subrange(start, end) + " ("@
                + Self::render_tags(self.tags) + ")\n"@,
            NodeView::Branch { children } => Self::render_tags(self.tags) + ":\n"@
                + Self::render_seq(children, tabs + 1),
        }
    }

    /// The concatenated renderings of a sequence of sibling trees, each at
    /// the given depth.
    pub open spec fn render_seq(children: Seq<TokenView>, tabs: nat) -> Seq<char>
        decreases children,
    {
        if children.len() == 0 {
            Seq::empty()
        } else {
            children[0].render(tabs) + Self::render_seq(children.skip(1), tabs)
        }
    }
}

/// Every member of a well-formed sequence of siblings is itself
/// well-formed and shares the common source text.
pub proof fn lemma_seq_wf_index(children: Seq<TokenView>, body: Seq<char>)
    requires
        TokenView::seq_wf(children, body),
    ensures
        forall|i: int| 0 <= i < children.len() ==> (#[trigger] children[i]).wf()
            && children[i].body == body,
    decreases children.len(),
{
    if children.len() > 0 {
        lemma_seq_wf_index(children.skip(1), body);
        assert forall|i: int| 0 <= i < children.len() implies (#[trigger] children[i]).wf()
            && children[i].body == body by {
            if i > 0 {
                assert(children.skip(1)[i - 1] == children[i]);
            }
        }
    }
}

/// The flat statement of source-order discipline for a sequence of
/// siblings: every member keeps it, and any two members with known
/// content ranges do not overlap and appear left to right.
pub open spec fn pairwise_ordered(s: Seq<TokenView>) -> bool {
    (forall|i: int| 0 <= i < s.len() ==> (#[trigger] s[i]).ordered()) && (forall|i: int, j: int|
        0 <= i < j < s.len() ==> match (
            (#[trigger] s[i]).content_range(),
            (#[trigger] s[j]).content_range(),
        ) {
            (Some((_, b)), Some((a2, _))) => b <= a2,
            _ => true,
        })
}

/// The recursive and the flat statements of source-order discipline
/// agree.
pub proof fn lemma_seq_ordered_iff_pairwise(s: Seq<TokenView>)
    ensures
        TokenView::seq_ordered(s) == pairwise_ordered(s),
    decreases s.len(),
{
    if s.len() > 0 {
        lemma_seq_ordered_iff_pairwise(s.skip(1));
        assert(forall|k: int| 0 <= k < s.skip(1).len() ==> #[trigger] s.skip(1)[k] == s[k + 1]);
        if TokenView::seq_ordered(s) {
            assert forall|i: int, j: int| 0 <= i < j < s.len() implies match (
                (#[trigger] s[i]).content_range(),
                (#[trigger] s[j]).content_range(),
            ) {
                (Some((_, b)), Some((a2, _))) => b <= a2,
                _ => true,
            } by {
                if i == 0 {
                    assert(s.skip(1)[j - 1] == s[j]);
                } else {
                    assert(s.skip(1)[i - 1] == s[i]);
                    assert(s.skip(1)[j - 1] == s[j]);
                }
            }
            assert forall|i: int| 0 <= i < s.len() implies (#[trigger] s[i]).ordered() by {
                if i > 0 {
                    assert(s.skip(1)[i - 1] == s[i]);
                }
            }
        }
        if pairwise_ordered(s) {
            assert(pairwise_ordered(s.skip(1))) by {
                assert forall|i: int, j: int| 0 <= i < j < s.skip(1).len() implies match (
                    (#[trigger] s.skip(1)[i]).content_range(),
                    (#[trigger] s.skip(1)[j]).content_range(),
                ) {
                    (Some((_, b)), Some((a2, _))) => b <= a2,
                    _ => true,
                } by {
                    assert(s.skip(1)[i] == s[i + 1]);
                    assert(s.skip(1)[j] == s[j + 1]);
                }
            }
            match s[0].content_range() {
                Some((_, b)) => {
                    assert forall|k: int| 0 <= k < s.skip(1).len() implies match (
                        #[trigger] s.skip(1)[k]).content_range() {
                        Some((a, _)) => b <= a,
                        None => true,
                    } by {
                        assert(s.skip(1)[k] == s[k + 1]);
                    }
                },
                None => {},
            }
        }
    }
}

/// A sequence of siblings each of which is well-formed over the common
/// source text is well-formed as a sequence.
pub proof fn lemma_seq_wf_from_forall(children: Seq<TokenView>, body: Seq<char>)
    requires
        forall|i: int| 0 <= i < children.len() ==> (#[trigger] children[i]).wf()
            && children[i].body == body,
    ensures
        TokenView::seq_wf(children, body),
    decreases children.len(),
{
    if children.len() > 0 {
        assert(forall|k: int| 0 <= k < children.skip(1).len() ==> #[trigger] children.skip(1)[k]
            == children[k + 1]);
        lemma_seq_wf_from_forall(children.skip(1), body);
    }
}

/// A known combined content range of a sequence of siblings ends where
/// some member's known range ends.
pub proof fn lemma_seq_range_end_witness(s: Seq<TokenView>)
    ensures
        match TokenView::seq_content_range(s) {
            Some((_, d)) => exists|i: int| 0 <= i < s.len() && match (#[trigger] s[i]).content_range() {
                Some((_, b)) => b == d,
                None => false,
            },
            None => true,
        },
    decreases s.len(),
{
    if s.len() > 0 {
        lemma_seq_range_end_witness(s.skip(1));
        match TokenView::seq_content_range(s.skip(1)) {
            Some((c, d)) => {
                let i = choose|i: int| 0 <= i < s.skip(1).len() && match (#[trigger] s.skip(
                    1,
                )[i]).content_range() {
                    Some((_, b)) => b == d,
                    None => false,
                };
                assert(s.skip(1)[i] == s[i + 1]);
            },
            None => {
                match s[0].content_range() {
                    Some(_) => {
                        assert(match TokenView::seq_content_range(s) {
                            Some((_, d)) => match s[0].content_range() {
                                Some((_, b)) => b == d,
                                None => false,
                            },
                            None => false,
                        });
                    },
                    None => {},
                }
            },
        }
    }
}

/// A known combined content range of a sequence of siblings starts where
/// some member's known range starts.
pub proof fn lemma_seq_range_start_witness(s: Seq<TokenView>)
    ensures
        match TokenView::seq_content_range(s) {
            Some((c, _)) => exists|i: int| 0 <= i < s.len() && match (#[trigger] s[i]).content_range() {
                Some((a, _)) => a == c,
                None => false,
            },
            None => true,
        },
    decreases s.len(),
{
    if s.len() > 0 {
        lemma_seq_range_start_witness(s.skip(1));
        match s[0].content_range() {
            Some(_) => {
                assert(match TokenView::seq_content_range(s) {
                    Some((c, _)) => match s[0].content_range() {
                        Some((a, _)) => a == c,
                        None => false,
                    },
                    None => false,
                });
            },
            None => {
                match TokenView::seq_content_range(s.skip(1)) {
                    Some((c, _)) => {
                        let i = choose|i: int| 0 <= i < s.skip(1).len() && match (#[trigger] s.skip(
                            1,
                        )[i]).content_range() {
                            Some((a, _)) => a == c,
                            None => false,
                        };
                        assert(s.skip(1)[i] == s[i + 1]);
                    },
                    None => {},
                }
            },
        }
    }
}

/// Range monotonicity of a well-formed, source-ordered sequence of
/// siblings over one source text: a known combined range runs forward and
/// lies within the text's bounds.
pub proof fn lemma_seq_range_monotone(s: Seq<TokenView>, body: Seq<char>)
    requires
        TokenView::seq_wf(s, body),
        TokenView::seq_ordered(s),
    ensures
        match TokenView::seq_content_range(s) {
            Some((c, d)) => 0 <= c <= d <= body.len(),
            None => true,
        },
    decreases s,
{
    if s.len() > 0 {
        lemma_content_range_monotone(s[0]);
        lemma_seq_range_monotone(s.skip(1), body);
        match (s[0].content_range(), TokenView::seq_content_range(s.skip(1))) {
            (Some((a, b)), Some((c, d))) => {
                lemma_seq_range_start_witness(s.skip(1));
                let i = choose|i: int| 0 <= i < s.skip(1).len() && match (#[trigger] s.skip(
                    1,
                )[i]).content_range() {
                    Some((x, _)) => x == c,
                    None => false,
                };
                assert(b <= c);
            },
            _ => {},
        }
    }
}

/// Range monotonicity: the known content range of any well-formed,
/// source-ordered node runs forward and lies within the bounds of its
/// source text.
pub proof fn lemma_content_range_monotone(t: TokenView)
    requires
        t.wf(),
        t.ordered(),
    ensures
        match t.content_range() {
            Some((s, e)) => 0 <= s <= e <= t.body.len(),
            None => true,
        },
    decreases t,
{
    match t.node {
        NodeView::Leaf { .. } => {},
        NodeView::Branch { children } => {
            lemma_seq_range_monotone(children, t.body);
        },
    }
}

} // verus!
