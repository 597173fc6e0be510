use blex::Token;
use tokentree::parse_token::{empty_parse_token, tokens_to_parse_tokens, ParseNode, ParseToken};

#[test]
fn print_parse_tokens() {
    let body = "34 + 35";

    let tox = vec![
        Token { body, indices: 0..2, tags: vec!["int"] },
        Token { body, indices: 3..4, tags: vec!["oper", "plus"] },
        Token { body, indices: 5..7, tags: vec!["int"] },
    ];

    let pts = vec![
        ParseToken::new_leaf(tox[0].clone()),
        ParseToken::new_leaf(tox[1].clone()),
        ParseToken::new_leaf(tox[2].clone()),
    ];

    let pt: ParseToken = ParseToken::new_branch_from_first(pts, vec!["expr", "addExpr"]);

    println!("{}", pt.write_indented(0));
    println!("{}", pt.content());
}

#[test]
fn leaf_content_matches_token_span() {
    let body = "34 + 35";
    let t = Token { body, indices: 0..2, tags: vec!["int"] };
    let leaf = ParseToken::new_leaf(t);
    assert_eq!(leaf.content(), "34");
    assert_eq!(leaf.content_range(), Some(0..2));
    assert!(leaf.has_tag("int"));
    assert!(!leaf.has_tag("oper"));
}

#[test]
fn branch_range_spans_children() {
    let body = "34 + 35";
    let pts = vec![
        ParseToken::new_leaf(Token { body, indices: 0..2, tags: vec!["int"] }),
        ParseToken::new_leaf(Token { body, indices: 3..4, tags: vec!["oper"] }),
        ParseToken::new_leaf(Token { body, indices: 5..7, tags: vec!["int"] }),
    ];
    let pt = ParseToken::new_branch_from_first(pts, vec!["expr"]);
    let range = pt.content_range().expect("a branch over leaves has a range");
    assert!(range.start <= range.end);
    assert!(range.end <= body.len());
    assert_eq!(range, 0..7);
    assert_eq!(pt.content(), "34 + 35");
}

#[test]
fn empty_branch_has_no_range() {
    let b = ParseToken::new_branch(vec![], "xyz", vec!["expr"]);
    assert!(b.content_range().is_none());
    assert_eq!(b.content(), "");
}

#[test]
fn branch_skips_rangeless_children() {
    let body = "ab";
    let inner = ParseToken::new_branch(vec![], body, vec!["expr"]);
    let pts = vec![
        ParseToken::new_leaf(Token { body, indices: 0..1, tags: vec!["word"] }),
        inner,
        ParseToken::new_leaf(Token { body, indices: 1..2, tags: vec!["word"] }),
    ];
    let pt = ParseToken::new_branch(pts, body, vec!["expr"]);
    assert_eq!(pt.content_range(), Some(0..2));
    assert_eq!(pt.content(), "ab");
}

#[test]
fn empty_parse_token_is_blank() {
    let e = empty_parse_token();
    assert_eq!(e.content(), "");
    assert_eq!(e.content_range(), Some(0..0));
    assert!(!e.has_tag("ws"));
}

#[test]
fn write_indented_exact_text() {
    let body = "ab";
    let leaf = ParseToken::new_leaf(Token { body, indices: 0..2, tags: vec!["x"] });
    assert_eq!(leaf.write_indented(0), "ab (x; )\n");
    let branch = ParseToken::new_branch(vec![leaf], body, vec!["expr"]);
    assert_eq!(branch.write_indented(0), "expr; :\n\tab (x; )\n");
}

#[test]
fn tokens_to_parse_tokens_appends_sentinel() {
    let body = "ab";
    let tokens = vec![
        Token { body, indices: 0..1, tags: vec!["a"] },
        Token { body, indices: 1..2, tags: vec!["b"] },
    ];
    let pts = tokens_to_parse_tokens(tokens);
    assert_eq!(pts.len(), 3);
    assert_eq!(pts[0].content(), "a");
    assert_eq!(pts[1].content(), "b");
    assert_eq!(pts[2].content(), "");
    match &pts[2].node {
        ParseNode::Leaf(r) => assert_eq!(*r, 0..0),
        ParseNode::Branch(_) => panic!("the sentinel is a leaf"),
    }
}
