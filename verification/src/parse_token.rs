use vstd::prelude::*;
use vstd::string::StrSliceExecFns;
use vstd::string::StringExecFns;
use core::ops::Range;
use blex::Token;
use crate::model::{lemma_seq_wf_index, NodeView, TokenView};

verus! {

/// The tokenizer's token type. Its fields are all public plain values
/// (source text, character range, tag list), so they are stated here as
/// they stand in its source and verified code reads them directly.
#[verifier::external_type_specification]
pub struct ExToken<'a>(Token<'a>);

/// Relies on blex::empty_token: it returns a token over the empty source
/// text with the range 0..0 and no tags.
pub assume_specification[ blex::empty_token ]() -> (r: Token<'static>)
    ensures
        r.body@ == Seq::<char>::empty(),
        r.indices.start == 0,
        r.indices.end == 0,
        r.tags@ == Seq::<&'static str>::empty(),
;

/// A tree of tokens over one shared source text. A node either addresses a
/// single contiguous span of the text (a leaf) or holds an ordered sequence
/// of child trees (a branch).
pub enum ParseNode<'a> {
    Leaf(Range<usize>),
    Branch(Vec<ParseToken<'a>>),
}

/// A tree node together with the source text it addresses and its ordered
/// tag list. Ranges index the characters of the source text.
pub struct ParseToken<'a> {
    pub node: ParseNode<'a>,
    pub body: &'a str,
    pub tags: Vec<&'a str>,
}

/// The models of a sequence of trees, element by element.
pub open spec fn views(s: Seq<ParseToken>) -> Seq<TokenView>
    decreases s,
{
    if s.len() == 0 {
        Seq::empty()
    } else {
        seq![s[0]@] + views(s.skip(1))
    }
}

/// The models of a sequence of tag strings, element by element.
pub open spec fn tag_views(tags: Seq<&str>) -> Seq<Seq<char>> {
    tags.map_values(|t: &str| t@)
}

impl<'a> View for ParseToken<'a> {
    type V = TokenView;

    open spec fn view(&self) -> TokenView
        decreases self,
    {
        TokenView {
            node: match self.node {
                ParseNode::Leaf(r) => NodeView::Leaf { start: r.start as int, end: r.end as int },
                ParseNode::Branch(children) => NodeView::Branch { children: views(children@) },
            },
            body: self.body@,
            tags: tag_views(self.tags@),
        }
    }
}

/// Each element of `views(s)` is the model of the element of `s` at the
/// same position, and the two sequences have the same length.
pub proof fn lemma_views_index(s: Seq<ParseToken>)
    ensures
        views(s).len() == s.len(),
        forall|i: int| #![trigger views(s)[i]] #![trigger s[i]@] 0 <= i < s.len() ==> views(s)[i]
            == s[i]@,
    decreases s.len(),
{
    if s.len() > 0 {
        lemma_views_index(s.skip(1));
        assert(views(s) == seq![s[0]@] + views(s.skip(1)));
        assert(seq![s[0]@].len() == 1);
        assert forall|i: int| 0 <= i < s.len() implies views(s)[i] == s[i]@ by {
            if i > 0 {
                assert(views(s)[i] == (seq![s[0]@] + views(s.skip(1)))[i]);
                assert((seq![s[0]@] + views(s.skip(1)))[i] == views(s.skip(1))[i - 1]);
                assert(s.skip(1)[i - 1] == s[i]);
            }
        }
    }
}

/// The model of the leaf that `ParseToken::new_leaf` builds from a token.
pub open spec fn leaf_view(tok: Token) -> TokenView {
    TokenView {
        node: NodeView::Leaf { start: tok.indices.start as int, end: tok.indices.end as int },
        body: tok.body@,
        tags: tag_views(tok.tags@),
    }
}

/// Exact character-for-character equality of two string slices.
fn str_eq(a: &str, b: &str) -> (r: bool)
    ensures
        r == (a@ == b@),
{
    let n = a.unicode_len();
    if n != b.unicode_len() {
        return false;
    }
    let mut i: usize = 0;
    while i < n
        invariant
            n == a@.len(),
            n == b@.len(),
            i <= n,
            forall|j: int| 0 <= j < i ==> a@[j] == b@[j],
        decreases n - i,
    {
        if a.get_char(i) != b.get_char(i) {
            return false;
        }
        i += 1;
    }
    proof {
        assert(a@ =~= b@);
    }
    true
}

impl<'a> ParseToken<'a> {
    /// Builds a leaf from a token: the leaf addresses the token's source
    /// text through the token's own range, under the token's tags.
    pub fn new_leaf(tok: Token<'a>) -> (pt: ParseToken<'a>)
        ensures
            pt@ == leaf_view(tok),
    {
        ParseToken { node: ParseNode::Leaf(tok.indices), body: tok.body, tags: tok.tags }
    }

    /// Builds a branch with the given ordered children and tags over the
    /// given source text.
    pub fn new_branch(children: Vec<ParseToken<'a>>, body: &'a str, tags: Vec<&'a str>) -> (pt:
        ParseToken<'a>)
        ensures
            pt@.node == (NodeView::Branch { children: views(children@) }),
            pt@.body == body@,
            pt@.tags == tag_views(tags@),
    {
        ParseToken { node: ParseNode::Branch(children), body, tags }
    }

    /// Builds a branch whose source text is inherited from its first child.
    /// Calling it with no children is a caller error, ruled out here.
    pub fn new_branch_from_first(children: Vec<ParseToken<'a>>, tags: Vec<&'a str>) -> (pt:
        ParseToken<'a>)
        requires
            children@.len() > 0,
        ensures
            pt@.node == (NodeView::Branch { children: views(children@) }),
            pt@.body == children@[0]@.body,
            pt@.tags == tag_views(tags@),
    {
        let body = children[0].body;
        proof {
            lemma_views_index(children@);
        }
        ParseToken { node: ParseNode::Branch(children), body, tags }
    }

    /// Whether this node's own tag list contains `tag`. Children are not
    /// searched.
    pub fn has_tag(&self, tag: &str) -> (r: bool)
        ensures
            r == self@.has_tag(tag@),
    {
        let mut i: usize = 0;
        while i < self.tags.len()
            invariant
                i <= self.tags@.len(),
                forall|j: int| 0 <= j < i ==> self.tags@[j]@ != tag@,
            decreases self.tags@.len() - i,
        {
            if str_eq(self.tags[i], tag) {
                proof {
                    assert(self@.tags[i as int] == tag@);
                }
                return true;
            }
            i += 1;
        }
        false
    }

    /// Decides well-formedness at run time, for callers outside verified
    /// code that must check it before rendering.
    pub fn check_wf(&self) -> (r: bool)
        ensures
            r == self@.wf(),
        decreases self,
    {
        match &self.node {
            ParseNode::Leaf(rg) => rg.start <= rg.end && rg.end <= self.body.unicode_len(),
            ParseNode::Branch(children) => {
                let r = check_seq_wf(children, 0, self.body);
                proof {
                    assert(views(children@).skip(0) =~= views(children@));
                }
                r
            },
        }
    }

    /// The number of nodes in the tree, or `None` when the count does not
    /// fit in `usize`.
    pub fn checked_size(&self) -> (r: Option<usize>)
        ensures
            match r {
                Some(n) => n as nat == self@.size(),
                None => self@.size() > usize::MAX,
            },
        decreases self,
    {
        match &self.node {
            ParseNode::Leaf(_) => Some(1),
            ParseNode::Branch(children) => {
                proof {
                    assert(views(children@).skip(0) =~= views(children@));
                }
                match checked_seq_size(children, 0) {
                    Some(n) => if n < usize::MAX {
                        Some(n + 1)
                    } else {
                        None
                    },
                    None => None,
                }
            },
        }
    }

    /// The diagnostic rendering of the tree, one tab of indentation per
    /// depth unit starting at `tabs`: a leaf as its content followed by
    /// its tags, a branch as its tags followed by each child one level
    /// deeper.
    pub fn write_indented(&self, tabs: usize) -> (r: String)
        requires
            self@.wf(),
            tabs + self@.size() <= usize::MAX,
        ensures
            r@ == self@.render(tabs as nat),
        decreases self,
    {
        let mut out = String::new();
        let mut k: usize = 0;
        while k < tabs
            invariant
                k <= tabs,
                out@ =~= Seq::new(k as nat, |i: int| '\t'),
            decreases tabs - k,
        {
            out.append("\t");
            proof {
                reveal_strlit("\t");
                assert(out@ =~= Seq::new((k + 1) as nat, |i: int| '\t'));
            }
            k += 1;
        }
        match &self.node {
            ParseNode::Leaf(rg) => {
                out.append(self.body.substring_char(rg.start, rg.end));
                out.append(" (");
                let tags = render_tags_from(&self.tags, 0);
                out.append(tags.as_str());
                out.append(")\n");
                proof {
                    assert(tag_views(self.tags@).skip(0) =~= tag_views(self.tags@));
                    assert(out@ =~= self@.render(tabs as nat));
                }
            },
            ParseNode::Branch(children) => {
                let tags = render_tags_from(&self.tags, 0);
                out.append(tags.as_str());
                out.append(":\n");
                proof {
                    lemma_views_index(children@);
                    assert(self@.node == (NodeView::Branch { children: views(children@) }));
                    assert(TokenView::seq_wf(views(children@), self@.body));
                    lemma_seq_wf_index(views(children@), self@.body);
                    assert(views(children@).skip(0) =~= views(children@));
                }
                let kids = write_children(children, 0, tabs + 1);
                out.append(kids.as_str());
                proof {
                    assert(tag_views(self.tags@).skip(0) =~= tag_views(self.tags@));
                    assert(out@ =~= self@.render(tabs as nat));
                }
            },
        }
        out
    }

    /// The half-open character range of source text this node covers, or
    /// `None` when no descendant leaf exists.
    pub fn content_range(&self) -> (r: Option<Range<usize>>)
        ensures
            match r {
                Some(rg) => self@.content_range() == Some((rg.start as int, rg.end as int)),
                None => self@.content_range() is None,
            },
        decreases self,
    {
        match &self.node {
            ParseNode::Leaf(rg) => Some(rg.start..rg.end),
            ParseNode::Branch(children) => {
                let r = content_range_from(children, 0);
                proof {
                    assert(views(children@).skip(0) =~= views(children@));
                }
                r
            },
        }
    }

    /// The substring of source text addressed by `content_range`, or the
    /// empty string when no range is known.
    pub fn content(&self) -> (r: &'a str)
        requires
            match self@.content_range() {
                Some((s, e)) => 0 <= s <= e <= self@.body.len(),
                None => true,
            },
        ensures
            r@ == self@.content(),
    {
        match self.content_range() {
            Some(rg) => self.body.substring_char(rg.start, rg.end),
            None => {
                proof {
                    reveal_strlit("");
                    assert(""@ =~= Seq::<char>::empty());
                }
                ""
            },
        }
    }
}

/// Leaf fidelity: the content of a leaf built from a token is exactly the
/// span of source text that the token addresses.
pub proof fn lemma_leaf_fidelity(tok: Token)
    requires
        tok.indices.start <= tok.indices.end <= tok.body@.len(),
    ensures
        leaf_view(tok).wf(),
        leaf_view(tok).content() == tok.body@.subrange(
            tok.indices.start as int,
            tok.indices.end as int,
        ),
{
}

/// The model of the sentinel leaf: an empty range over the empty source
/// text, with no tags.
pub open spec fn empty_leaf_view() -> TokenView {
    TokenView { node: NodeView::Leaf { start: 0, end: 0 }, body: Seq::empty(), tags: Seq::empty() }
}

/// The models of the leaves built one-to-one from a sequence of tokens.
pub open spec fn token_views(toks: Seq<Token>) -> Seq<TokenView> {
    toks.map_values(|t: Token| leaf_view(t))
}

/// A leaf with no contents: an empty range over the empty source text.
pub fn empty_parse_token() -> (pt: ParseToken<'static>)
    ensures
        pt@ == empty_leaf_view(),
{
    let pt = ParseToken::new_leaf(blex::empty_token());
    proof {
        assert(pt@ =~= empty_leaf_view());
    }
    pt
}

/// Builds a leaf from every token, in order, and appends the sentinel
/// leaf at the tail.
pub fn tokens_to_parse_tokens<'a>(tokens: Vec<Token<'a>>) -> (r: Vec<ParseToken<'a>>)
    ensures
        views(r@) == token_views(tokens@).push(empty_leaf_view()),
{
    let ghost toks0 = tokens@;
    let mut rest = tokens;
    let mut out: Vec<ParseToken<'a>> = Vec::new();
    while rest.len() > 0
        invariant
            out@.len() + rest@.len() == toks0.len(),
            forall|k: int| 0 <= k < rest@.len() ==> rest@[k] == toks0[out@.len() + k],
            forall|k: int| 0 <= k < out@.len() ==> (#[trigger] out@[k])@ == leaf_view(toks0[k]),
        decreases rest@.len(),
    {
        let t = rest.remove(0);
        out.push(ParseToken::new_leaf(t));
    }
    out.push(empty_parse_token());
    proof {
        lemma_views_index(out@);
        assert(views(out@) =~= token_views(toks0).push(empty_leaf_view()));
    }
    out
}

/// Decides well-formedness of the children at positions `i..` of a
/// branch's child vector, under the branch's source text.
fn check_seq_wf<'a>(children: &Vec<ParseToken<'a>>, i: usize, body: &str) -> (r: bool)
    requires
        i <= children@.len(),
    ensures
        r == TokenView::seq_wf(views(children@).skip(i as int), body@),
    decreases children, children@.len() - i,
{
    proof {
        lemma_views_index(children@);
    }
    if i >= children.len() {
        return true;
    }
    proof {
        assert(views(children@).skip(i as int).skip(1) =~= views(children@).skip(i as int + 1));
        assert(views(children@).skip(i as int)[0] == children@[i as int]@);
    }
    children[i].check_wf() && str_eq(children[i].body, body) && check_seq_wf(children, i + 1, body)
}

/// Counts the nodes of the children at positions `i..` of a branch's
/// child vector, or `None` when the count does not fit in `usize`.
fn checked_seq_size<'a>(children: &Vec<ParseToken<'a>>, i: usize) -> (r: Option<usize>)
    requires
        i <= children@.len(),
    ensures
        match r {
            Some(n) => n as nat == TokenView::seq_size(views(children@).skip(i as int)),
            None => TokenView::seq_size(views(children@).skip(i as int)) > usize::MAX,
        },
    decreases children, children@.len() - i,
{
    proof {
        lemma_views_index(children@);
    }
    if i >= children.len() {
        return Some(0);
    }
    proof {
        assert(views(children@).skip(i as int).skip(1) =~= views(children@).skip(i as int + 1));
        assert(views(children@).skip(i as int)[0] == children@[i as int]@);
    }
    match (children[i].checked_size(), checked_seq_size(children, i + 1)) {
        (Some(a), Some(b)) => if a <= usize::MAX - b {
            Some(a + b)
        } else {
            None
        },
        _ => None,
    }
}

/// The rendering of the tags at positions `i..` of a node's tag vector.
fn render_tags_from(tags: &Vec<&str>, i: usize) -> (r: String)
    requires
        i <= tags@.len(),
    ensures
        r@ == TokenView::render_tags(tag_views(tags@).skip(i as int)),
    decreases tags@.len() - i,
{
    if i >= tags.len() {
        return String::new();
    }
    let rest = render_tags_from(tags, i + 1);
    let mut out = String::new();
    out.append(tags[i]);
    out.append("; ");
    out.append(rest.as_str());
    proof {
        assert(tag_views(tags@).skip(i as int).skip(1) =~= tag_views(tags@).skip(i as int + 1));
        assert(tag_views(tags@).skip(i as int)[0] == tags@[i as int]@);
        assert(out@ =~= TokenView::render_tags(tag_views(tags@).skip(i as int)));
    }
    out
}

/// The concatenated renderings of the children at positions `i..` of a
/// branch's child vector, each at the given depth.
fn write_children<'a>(children: &Vec<ParseToken<'a>>, i: usize, tabs: usize) -> (r: String)
    requires
        i <= children@.len(),
        forall|j: int| i <= j < children@.len() ==> (#[trigger] views(children@)[j]).wf(),
        tabs + TokenView::seq_size(views(children@).skip(i as int)) <= usize::MAX,
    ensures
        r@ == TokenView::render_seq(views(children@).skip(i as int), tabs as nat),
    decreases children, children@.len() - i,
{
    proof {
        lemma_views_index(children@);
    }
    if i >= children.len() {
        return String::new();
    }
    proof {
        assert(views(children@).skip(i as int).skip(1) =~= views(children@).skip(i as int + 1));
        assert(views(children@).skip(i as int)[0] == children@[i as int]@);
    }
    let mut out = children[i].write_indented(tabs);
    let rest = write_children(children, i + 1, tabs);
    out.append(rest.as_str());
    out
}

/// The combined content range of the children at positions `i..` of a
/// branch's child vector.
fn content_range_from<'a>(children: &Vec<ParseToken<'a>>, i: usize) -> (r: Option<Range<usize>>)
    requires
        i <= children@.len(),
    ensures
        match r {
            Some(rg) => TokenView::seq_content_range(views(children@).skip(i as int)) == Some(
                (rg.start as int, rg.end as int),
            ),
            None => TokenView::seq_content_range(views(children@).skip(i as int)) is None,
        },
    decreases children, children@.len() - i,
{
    proof {
        lemma_views_index(children@);
    }
    if i >= children.len() {
        return None;
    }
    let first = children[i].content_range();
    let rest = content_range_from(children, i + 1);
    proof {
        assert(views(children@).skip(i as int).skip(1) =~= views(children@).skip(i as int + 1));
        assert(views(children@).skip(i as int)[0] == children@[i as int]@);
    }
    match (first, rest) {
        (Some(f), Some(r2)) => Some(f.start..r2.end),
        (Some(f), None) => Some(f),
        (None, r2) => r2,
    }
}

} // verus!
