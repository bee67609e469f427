use pyco8::script8::context::Context;
use pyco8::script8::lexer::{lex, Token};
use pyco8::script8::parser::compute;

fn texts(tokens: &Vec<Box<Token>>) -> Vec<String> {
    tokens.iter().map(|t| t.to_text()).collect()
}

fn op(s: &str, p: u8) -> Box<Token> {
    Box::new(Token::Operator(s.to_string(), p))
}

fn num(s: &str) -> Box<Token> {
    Box::new(Token::NumericLiteral(s.to_string()))
}

/// Evaluation stack height of a postfix sequence, or None on underflow or a stray token.
fn rpn_height(tokens: &Vec<Box<Token>>) -> Option<usize> {
    let mut n: usize = 0;
    for t in tokens {
        match **t {
            Token::NumericLiteral(_) => n += 1,
            Token::Operator(_, _) => {
                if n < 2 {
                    return None;
                }
                n -= 1;
            }
            _ => return None,
        }
    }
    Some(n)
}

#[test]
fn lex_simple_expression() {
    let tokens = lex("1 * 2");
    assert_eq!(
        tokens,
        vec![num("1"), op("*", 2), num("2")]
    );
}

#[test]
fn lex_indentation_block() {
    let tokens = lex("   x");
    assert_eq!(
        tokens,
        vec![
            Box::new(Token::WhitespaceBlock(3)),
            Box::new(Token::Identifier("x".to_string()))
        ]
    );
}

#[test]
fn lex_tabs_do_not_count_as_indentation() {
    let tokens = lex("\tx");
    assert_eq!(tokens, vec![Box::new(Token::Identifier("x".to_string()))]);
}

#[test]
fn lex_keywords_and_operators() {
    let tokens = lex("if x = function else - +");
    assert_eq!(
        tokens,
        vec![
            Box::new(Token::Keyword("if".to_string())),
            Box::new(Token::Identifier("x".to_string())),
            Box::new(Token::Keyword("=".to_string())),
            Box::new(Token::Keyword("function".to_string())),
            Box::new(Token::Keyword("else".to_string())),
            op("-", 1),
            op("+", 1),
        ]
    );
}

#[test]
fn lex_parentheses_on_words() {
    let tokens = lex("2 * (5 - 3)");
    assert_eq!(
        tokens,
        vec![
            num("2"),
            op("*", 2),
            Box::new(Token::OpenParen),
            num("5"),
            op("-", 1),
            num("3"),
            Box::new(Token::CloseParen),
        ]
    );
}

#[test]
fn lex_only_one_parenthesis_is_split_off_each_side() {
    // "((a" loses its first "(", and what is left starts with "(";
    // "b))" loses its last ")" and keeps the other.
    let tokens = lex("((a b))");
    assert_eq!(
        tokens,
        vec![
            Box::new(Token::OpenParen),
            Box::new(Token::OpenParen),
            Box::new(Token::Identifier("b)".to_string())),
            Box::new(Token::CloseParen),
        ]
    );
}

#[test]
fn lex_numbers_starting_with_a_dot() {
    let tokens = lex(".5 7x");
    assert_eq!(tokens, vec![num(".5"), num("7x")]);
}

#[test]
fn lex_empty_and_blank_lines() {
    assert_eq!(lex(""), vec![]);
    assert_eq!(lex("  "), vec![Box::new(Token::WhitespaceBlock(2))]);
}

#[test]
fn lex_unicode_whitespace_separates_words() {
    let tokens = lex("a\u{3000}b\u{A0}c");
    assert_eq!(texts(&tokens), vec!["a", "b", "c"]);
}

#[test]
fn token_texts() {
    assert_eq!(Token::Operator("*".to_string(), 2).to_text(), "(* 2)");
    assert_eq!(Token::WhitespaceBlock(4).to_text(), "4spaces");
    assert_eq!(Token::WhitespaceBlock(255).to_text(), "255spaces");
    assert_eq!(Token::WhitespaceBlock(10).to_text(), "10spaces");
    assert_eq!(Token::OpenParen.to_text(), "(");
    assert_eq!(Token::CloseParen.to_text(), ")");
    assert_eq!(Token::Identifier("abc".to_string()).to_text(), "abc");
    assert_eq!(Token::NumericLiteral("1.5".to_string()).to_text(), "1.5");
}

#[test]
fn compute_demo_expression() {
    let tokens = lex("1 * 2 * 3 * 4 - 5 * 6 + 7 - 8 * 9");
    let out = compute(tokens);
    assert_eq!(
        texts(&out),
        vec![
            "1", "2", "(* 2)", "3", "(* 2)", "4", "(* 2)", "5", "6", "(* 2)", "(- 1)", "7",
            "(+ 1)", "8", "9", "(* 2)", "(- 1)"
        ]
    );
}

#[test]
fn compute_respects_parentheses() {
    let out = compute(lex("2 * (5 - 3)"));
    assert_eq!(texts(&out), vec!["2", "5", "3", "(- 1)", "(* 2)"]);
}

#[test]
fn compute_drops_identifiers_and_keywords() {
    let out = compute(lex("  if x 1 + 2"));
    assert_eq!(texts(&out), vec!["1", "2", "(+ 1)"]);
}

#[test]
fn compute_flushes_unclosed_parenthesis() {
    let out = compute(lex("(1 + 2"));
    assert_eq!(texts(&out), vec!["1", "2", "(+ 1)", "("]);
}

#[test]
fn compute_left_associates_equal_precedence() {
    let out = compute(lex("1 - 2 + 3"));
    assert_eq!(texts(&out), vec!["1", "2", "(- 1)", "3", "(+ 1)"]);
}

#[test]
fn compute_gives_valid_postfix_for_infix_expressions() {
    for line in ["1", "1 + 2 * 3", "(1 + 2) * 3", "(1) * (2 - 3)", "(1 + (2 * 3 )) - 4", "1 * 2 - 3 * 4 + 5"] {
        let out = compute(lex(line));
        assert_eq!(rpn_height(&out), Some(1), "{}", line);
    }
}

#[test]
fn compute_keeps_numbers_in_order_and_all_operators() {
    let out = compute(lex("4 - (3 * 2 + 1) * 7"));
    let nums: Vec<String> = out
        .iter()
        .filter(|t| matches!(***t, Token::NumericLiteral(_)))
        .map(|t| t.to_text())
        .collect();
    assert_eq!(nums, vec!["4", "3", "2", "1", "7"]);
    let mut ops: Vec<String> = out
        .iter()
        .filter(|t| matches!(***t, Token::Operator(_, _)))
        .map(|t| t.to_text())
        .collect();
    ops.sort();
    assert_eq!(ops, vec!["(* 2)", "(* 2)", "(+ 1)", "(- 1)"]);
    assert!(out.iter().all(|t| !matches!(**t, Token::OpenParen | Token::CloseParen)));
}

#[test]
fn context_global_scope() {
    let mut c: Context<i32> = Context::new_global();
    assert_eq!(c.get("x"), None);
    c.add("x", 1);
    assert_eq!(c.get("x"), Some(&1));
    c.add("x", 2);
    assert_eq!(c.get("x"), Some(&2));
    c.set("x", 3);
    assert_eq!(c.get("x"), Some(&3));
    assert!(c.restore_parent().is_none());
}

#[test]
fn context_inner_scope_shadows_and_sets_outer() {
    let mut g: Context<i32> = Context::new_global();
    g.add("a", 1);
    g.add("b", 2);
    let mut inner = Context::new(Box::new(g));
    assert_eq!(inner.get("a"), Some(&1));
    inner.add("a", 10);
    assert_eq!(inner.get("a"), Some(&10));
    inner.set("b", 20);
    assert_eq!(inner.get("b"), Some(&20));
    let outer = inner.restore_parent().unwrap();
    assert_eq!(outer.get("a"), Some(&1));
    assert_eq!(outer.get("b"), Some(&20));
}

#[test]
fn context_leaving_scope_forgets_its_variables() {
    let g: Context<i32> = Context::new_global();
    let mut inner = Context::new(Box::new(g));
    inner.add("t", 5);
    assert_eq!(inner.get("t"), Some(&5));
    let outer = inner.restore_parent().unwrap();
    assert_eq!(outer.get("t"), None);
}

/// The postfix form by precedence: split at the rightmost loosest operator outside parentheses.
fn rpn_by_precedence(ts: &[Box<Token>]) -> Vec<String> {
    let mut depth = 0i32;
    let mut split: Option<(usize, u8)> = None;
    for (i, t) in ts.iter().enumerate() {
        match **t {
            Token::OpenParen => depth += 1,
            Token::CloseParen => depth -= 1,
            Token::Operator(_, p) if depth == 0 => {
                if split.map_or(true, |(_, q)| p <= q) {
                    split = Some((i, p));
                }
            }
            _ => {}
        }
    }
    match split {
        Some((k, _)) => {
            let mut out = rpn_by_precedence(&ts[..k]);
            out.extend(rpn_by_precedence(&ts[k + 1..]));
            out.push(ts[k].to_text());
            out
        }
        None if ts.len() >= 2 => rpn_by_precedence(&ts[1..ts.len() - 1]),
        None => ts.iter().map(|t| t.to_text()).collect(),
    }
}

#[test]
fn compute_applies_tighter_operators_first() {
    assert_eq!(texts(&compute(lex("1 + 2 * 3"))), vec!["1", "2", "3", "(* 2)", "(+ 1)"]);
    assert_eq!(texts(&compute(lex("(1 + 2) * 3"))), vec!["1", "2", "(+ 1)", "3", "(* 2)"]);
    assert_eq!(
        texts(&compute(lex("2 * 3 + 4 * 5 - 6"))),
        vec!["2", "3", "(* 2)", "4", "5", "(* 2)", "(+ 1)", "6", "(- 1)"]
    );
}

#[test]
fn compute_matches_precedence_reading() {
    for line in [
        "1",
        "1 - 2 - 3",
        "1 * 2 * 3 * 4 - 5 * 6 + 7 - 8 * 9",
        "(1 + 2) * (3 - 4) * 5",
        "(1 + (2 * 3 )) - 4 * (5)",
        "8 - (7 - (6 - 5 ))",
    ] {
        let tokens = lex(line);
        let expected = rpn_by_precedence(&tokens);
        assert_eq!(texts(&compute(tokens)), expected, "{}", line);
    }
}

#[test]
fn lex_words_like_split_whitespace() {
    let alphabet = ['a', 'b', ' ', '\t', '\u{3000}', '\n'];
    let mut words_seen = 0;
    let mut lines = vec![String::new()];
    for _ in 0..5 {
        let mut next = Vec::new();
        for s in &lines {
            for c in alphabet {
                let mut t = s.clone();
                t.push(c);
                next.push(t);
            }
        }
        lines.extend(next);
    }
    for line in lines {
        let tokens = lex(&line);
        let idents: Vec<String> = tokens
            .iter()
            .filter(|t| !matches!(***t, Token::WhitespaceBlock(_)))
            .map(|t| t.to_text())
            .collect();
        let std: Vec<String> = line.split_whitespace().map(|w| w.to_string()).collect();
        words_seen += std.len();
        assert_eq!(idents, std, "{:?}", line);
        let spaces = line.chars().take_while(|c| *c == ' ').count();
        match tokens.first() {
            Some(t) if spaces > 0 => assert_eq!(**t, Token::WhitespaceBlock(spaces as u8)),
            _ => assert_eq!(spaces, 0),
        }
    }
    assert!(words_seen > 0);
}

#[test]
fn lex_largest_indentation() {
    let line = format!("{}x", " ".repeat(255));
    let tokens = lex(&line);
    assert_eq!(tokens[0], Box::new(Token::WhitespaceBlock(255)));
    assert_eq!(tokens.len(), 2);
}
