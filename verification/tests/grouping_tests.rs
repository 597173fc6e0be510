use blex::Token;
use tokentree::grouping::{group, remove_last};
use tokentree::parse_token::{tokens_to_parse_tokens, ParseNode, ParseToken};

fn leaf<'a>(body: &'a str, start: usize, end: usize, tags: Vec<&'a str>) -> ParseToken<'a> {
    ParseToken::new_leaf(Token { body, indices: start..end, tags })
}

fn clone_tree<'a>(t: &ParseToken<'a>) -> ParseToken<'a> {
    ParseToken {
        node: match &t.node {
            ParseNode::Leaf(r) => ParseNode::Leaf(r.clone()),
            ParseNode::Branch(children) => {
                ParseNode::Branch(children.iter().map(clone_tree).collect())
            }
        },
        body: t.body,
        tags: t.tags.clone(),
    }
}

fn same_tree(a: &ParseToken, b: &ParseToken) -> bool {
    if a.body != b.body || a.tags != b.tags {
        return false;
    }
    match (&a.node, &b.node) {
        (ParseNode::Leaf(r1), ParseNode::Leaf(r2)) => r1 == r2,
        (ParseNode::Branch(c1), ParseNode::Branch(c2)) => {
            c1.len() == c2.len() && c1.iter().zip(c2.iter()).all(|(x, y)| same_tree(x, y))
        }
        _ => false,
    }
}

#[test]
fn innermost_pair_groups_first() {
    let body = "((a)b)";
    let pts = vec![
        leaf(body, 0, 1, vec!["("]),
        leaf(body, 1, 2, vec!["("]),
        leaf(body, 2, 3, vec!["word"]),
        leaf(body, 3, 4, vec![")"]),
        leaf(body, 4, 5, vec!["word"]),
        leaf(body, 5, 6, vec![")"]),
    ];
    let out = group(pts);
    assert_eq!(out.len(), 1);
    let root = &out[0];
    assert!(root.has_tag("expr"));
    match &root.node {
        ParseNode::Branch(children) => {
            assert_eq!(children.len(), 2);
            match &children[0].node {
                ParseNode::Branch(inner) => {
                    assert!(children[0].has_tag("expr"));
                    assert_eq!(inner.len(), 1);
                    assert_eq!(inner[0].content(), "a");
                }
                ParseNode::Leaf(_) => panic!("the nested group must become a branch"),
            }
            assert_eq!(children[1].content(), "b");
        }
        ParseNode::Leaf(_) => panic!("the outer group must become a branch"),
    }
}

#[test]
fn unmatched_opener_left_alone() {
    let body = "(a";
    let pts = vec![leaf(body, 0, 1, vec!["("]), leaf(body, 1, 2, vec!["word"])];
    let out = group(pts);
    assert_eq!(out.len(), 2);
    assert_eq!(out[0].content(), "(");
    assert_eq!(out[1].content(), "a");
    assert!(matches!(out[0].node, ParseNode::Leaf(_)));
    assert!(matches!(out[1].node, ParseNode::Leaf(_)));
}

#[test]
fn stray_closer_skipped() {
    let body = ")a";
    let pts = vec![leaf(body, 0, 1, vec![")"]), leaf(body, 1, 2, vec!["word"])];
    let out = group(pts);
    assert_eq!(out.len(), 2);
    assert!(matches!(out[0].node, ParseNode::Leaf(_)));
    assert!(matches!(out[1].node, ParseNode::Leaf(_)));
}

#[test]
fn top_level_groups_stay_separate() {
    let body = "(a)(b)";
    let pts = vec![
        leaf(body, 0, 1, vec!["("]),
        leaf(body, 1, 2, vec!["word"]),
        leaf(body, 2, 3, vec![")"]),
        leaf(body, 3, 4, vec!["("]),
        leaf(body, 4, 5, vec!["word"]),
        leaf(body, 5, 6, vec![")"]),
    ];
    let out = group(pts);
    assert_eq!(out.len(), 2);
    assert!(out[0].has_tag("expr"));
    assert!(out[1].has_tag("expr"));
    assert_eq!(out[0].content(), "a");
    assert_eq!(out[1].content(), "b");
}

#[test]
fn empty_group_becomes_empty_branch() {
    let body = "()";
    let pts = vec![leaf(body, 0, 1, vec!["("]), leaf(body, 1, 2, vec![")"])];
    let out = group(pts);
    assert_eq!(out.len(), 1);
    assert!(out[0].has_tag("expr"));
    match &out[0].node {
        ParseNode::Branch(children) => assert_eq!(children.len(), 0),
        ParseNode::Leaf(_) => panic!("an empty group must become a branch"),
    }
}

#[test]
fn grouping_twice_changes_nothing() {
    let body = "((a)b)(c";
    let pts = vec![
        leaf(body, 0, 1, vec!["("]),
        leaf(body, 1, 2, vec!["("]),
        leaf(body, 2, 3, vec!["word"]),
        leaf(body, 3, 4, vec![")"]),
        leaf(body, 4, 5, vec!["word"]),
        leaf(body, 5, 6, vec![")"]),
        leaf(body, 6, 7, vec!["("]),
        leaf(body, 7, 8, vec!["word"]),
    ];
    let once = group(pts);
    let again: Vec<ParseToken> = once.iter().map(clone_tree).collect();
    let twice = group(again);
    assert_eq!(once.len(), twice.len());
    for (a, b) in once.iter().zip(twice.iter()) {
        assert!(same_tree(a, b));
    }
}

#[test]
fn remove_last_drops_sentinel_only() {
    let body = "a";
    let pts = vec![leaf(body, 0, 1, vec!["word"])];
    let trimmed = remove_last(pts);
    assert_eq!(trimmed.len(), 0);
    let empty: Vec<ParseToken> = vec![];
    assert_eq!(remove_last(empty).len(), 0);
}

#[test]
fn sexpr_scenario() {
    let body = "(define (f x) (+ x 1))";
    let tokens = vec![
        Token { body, indices: 0..1, tags: vec!["("] },
        Token { body, indices: 1..7, tags: vec!["word"] },
        Token { body, indices: 8..9, tags: vec!["("] },
        Token { body, indices: 9..10, tags: vec!["word"] },
        Token { body, indices: 11..12, tags: vec!["word"] },
        Token { body, indices: 12..13, tags: vec![")"] },
        Token { body, indices: 14..15, tags: vec!["("] },
        Token { body, indices: 15..16, tags: vec!["word"] },
        Token { body, indices: 17..18, tags: vec!["word"] },
        Token { body, indices: 19..20, tags: vec!["word"] },
        Token { body, indices: 20..21, tags: vec![")"] },
        Token { body, indices: 21..22, tags: vec![")"] },
    ];
    let pts = tokens_to_parse_tokens(tokens);
    let out = remove_last(group(pts));
    assert_eq!(out.len(), 1);
    let root = &out[0];
    assert!(root.has_tag("expr"));
    match &root.node {
        ParseNode::Branch(children) => {
            assert_eq!(children.len(), 3);
            assert_eq!(children[0].content(), "define");
            assert!(matches!(children[0].node, ParseNode::Leaf(_)));
            assert!(matches!(children[1].node, ParseNode::Branch(_)));
            assert!(matches!(children[2].node, ParseNode::Branch(_)));
            assert_eq!(children[1].content(), "f x");
            assert_eq!(children[2].content(), "+ x 1");
        }
        ParseNode::Leaf(_) => panic!("the whole expression must become one branch"),
    }
    assert_eq!(root.content(), "define (f x) (+ x 1");
}
