use blex::{empty_token, print_tokens, process_rules, str_to_tokens, wrap, Token};
use tokentree::grouping::{group, remove_last};
use tokentree::parse_token::{tokens_to_parse_tokens, ParseToken};

fn whitespace_rule(mut tokens: Vec<Token>) -> Option<Vec<Token>> {
    let ch = tokens[0].single_char().unwrap_or_default();
    if ch.is_whitespace() || ch == '\u{0}' {
        tokens[0].tags.push("ws");
    }
    Some(tokens)
}

fn paren_rule(mut tokens: Vec<Token>) -> Option<Vec<Token>> {
    let ch = tokens[0].single_char().unwrap_or_default();
    if ch == '(' || ch == ')' {
        tokens[0].tags.push("paren");
    }
    Some(tokens)
}

fn word_rule(tokens: Vec<Token>) -> Option<Vec<Token>> {
    let empty = &empty_token();
    let last_token = tokens.last().unwrap_or(empty);
    if !last_token.has_tag("ws") && !last_token.has_tag("paren") {
        None
    } else if tokens.len() == 1 {
        Some(tokens)
    } else {
        Some(vec![
            wrap(tokens[0..tokens.len() - 1].to_vec(), vec!["word"]),
            tokens.last().unwrap().clone(),
        ])
    }
}

fn remove_whitespace_rule(tokens: Vec<Token>) -> Option<Vec<Token>> {
    if tokens[0].has_tag("ws") {
        Some(vec![])
    } else {
        Some(tokens)
    }
}

fn s_expr_rules() -> Vec<impl Fn(Vec<Token>) -> Option<Vec<Token>>> {
    [
        whitespace_rule,
        paren_rule,
        word_rule,
        remove_whitespace_rule,
    ]
    .to_vec()
}

fn print_forest(pts: Vec<ParseToken>) {
    for pt in pts {
        println!("{}", pt.write_indented(0));
    }
}

#[test]
pub fn parse_s_exprs() {
    let text = "
(define (rgb-series mk)
  (vc-append
   (series (lambda (sz) (colorize (mk sz) \"red\")))
   (series (lambda (sz) (colorize (mk sz) \"green\")))
   (series (lambda (sz) (colorize (mk sz) \"blue\")))))";

    let mut body = str_to_tokens(text);
    process_rules(s_expr_rules(), &mut body, false);

    println!("===   TOKENS   ===");
    print_tokens(body.clone());

    println!("===PARSE TOKENS===");

    let pts = tokens_to_parse_tokens(body);
    print_forest(remove_last(group(pts)));
}

#[test]
pub fn parse_s_exprs2() {
    let text = "A (space)";

    let mut body = str_to_tokens(text);
    process_rules(s_expr_rules(), &mut body, false);

    println!("===   TOKENS   ===");
    print_tokens(body.clone());

    println!("===PARSE TOKENS===");

    let pts = tokens_to_parse_tokens(body);
    print_forest(remove_last(group(pts)));
}
