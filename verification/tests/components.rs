//! Component-level tests: the tokenizer, the validator, the tree
//! builder, rendering, evaluation, free variables and the checker.

use tautology::builder::eval;
use tautology::lexer::tokenize;
use tautology::syntax::{SyntaxError, validate};
use tautology::taut::check_tautology;
use tautology::token::{Token, is_var};

#[test]
fn tokenizer_single_symbols() {
    assert_eq!(
        tokenize("!v^10()").unwrap(),
        vec![
            Token::Not,
            Token::Or,
            Token::And,
            Token::True,
            Token::False,
            Token::ParOpen,
            Token::ParClose,
        ]
    );
}

#[test]
fn tokenizer_multi_character_operators() {
    assert_eq!(tokenize("A<=>B").unwrap(), vec![Token::Var('A'), Token::Iff, Token::Var('B')]);
    assert_eq!(tokenize("A=>B").unwrap(), vec![Token::Var('A'), Token::If, Token::Var('B')]);
}

#[test]
fn tokenizer_skips_whitespace_inside_pending_operators() {
    // whitespace does not reset the pending `<`, `<=` or `=` text
    assert_eq!(tokenize("1 < = > 1").unwrap(), vec![Token::True, Token::Iff, Token::True]);
    assert_eq!(tokenize("  1\t^\n1\r").unwrap(), vec![Token::True, Token::And, Token::True]);
}

#[test]
fn tokenizer_case_sensitive_variables() {
    assert_eq!(tokenize("Pp").unwrap(), vec![Token::Var('P'), Token::Var('p')]);
}

#[test]
fn tokenizer_dangling_prefix_is_rejected() {
    // a `<`, `<=` or `=` still pending at the end of the input never
    // became a token: it is an invalid character, reported where the
    // pending text began
    assert_eq!(tokenize("A <"), Err(2));
    assert_eq!(tokenize("A ="), Err(2));
    assert_eq!(tokenize("A <="), Err(2));
    assert_eq!(tokenize("A <= "), Err(2));
    assert_eq!(tokenize("<"), Err(0));
}

#[test]
fn tokenizer_incomplete_prefix_is_invalid() {
    assert_eq!(tokenize("<a"), Err(1));
    assert_eq!(tokenize("A = B"), Err(4));
    assert_eq!(tokenize("#"), Err(0));
}

#[test]
fn validator_reports_each_violation() {
    let check = |text: &str| validate(&tokenize(text).unwrap()).err();
    assert_eq!(check("^ A"), Some(SyntaxError::ValueBeforeOperator));
    assert_eq!(check("A ^ v B"), Some(SyntaxError::ValueAfterOperator));
    assert_eq!(check("A !B"), Some(SyntaxError::NotAfterValue));
    assert_eq!(check("A (B)"), Some(SyntaxError::OpenAfterValue));
    assert_eq!(check("(A ^)"), Some(SyntaxError::CloseAfterOperator));
    assert_eq!(check("A)"), Some(SyntaxError::UnmatchedClose));
    assert_eq!(check("()"), Some(SyntaxError::EmptyParens));
    assert_eq!(check("A B"), Some(SyntaxError::TwoValues));
    assert_eq!(check("A ^"), Some(SyntaxError::MissingValueAtEnd));
    assert_eq!(check("((A)"), Some(SyntaxError::Unbalanced));
    assert_eq!(check("(A ^ B) v !C"), None);
}

#[test]
fn builder_respects_precedence() {
    // Or binds more loosely than And, so it splits first
    let toks = tokenize("A ^ B v C").unwrap();
    validate(&toks).unwrap();
    let tree = eval(&toks);
    assert_eq!(tree.coll(), "(( A ) & ( B )) | ( C )");
}

#[test]
fn builder_splits_at_first_of_equal_operators() {
    let toks = tokenize("A ^ B ^ C").unwrap();
    validate(&toks).unwrap();
    let tree = eval(&toks);
    assert_eq!(tree.coll(), "( A ) & (( B ) & ( C ))");
}

#[test]
fn builder_strips_matched_outer_parentheses() {
    let toks = tokenize("(A v B)").unwrap();
    validate(&toks).unwrap();
    let tree = eval(&toks);
    assert_eq!(tree.coll(), "( A ) | ( B )");
}

#[test]
fn builder_keeps_unmatched_outer_parentheses_apart() {
    // `(A) ^ (B)` starts with `(` and ends with `)`, but the two do not
    // match, so nothing is stripped
    let toks = tokenize("(A) ^ (B)").unwrap();
    validate(&toks).unwrap();
    let tree = eval(&toks);
    assert_eq!(tree.coll(), "( A ) & ( B )");
}

#[test]
fn builder_iff_binds_loosest() {
    let toks = tokenize("A => B <=> !A v B").unwrap();
    validate(&toks).unwrap();
    let tree = eval(&toks);
    assert_eq!(tree.coll(), "(( A ) > ( B )) = (( ! ( A )) | ( B ))");
}

#[test]
fn evaluation_of_each_connective() {
    let cases = [
        ("A ^ B", [false, false, false, true]),
        ("A v B", [false, true, true, true]),
        ("A => B", [true, true, false, true]),
        ("A <=> B", [true, false, false, true]),
    ];
    for (text, expect) in cases {
        let toks = tokenize(text).unwrap();
        validate(&toks).unwrap();
        let tree = eval(&toks);
        let mut k = 0;
        for a in [false, true] {
            for b in [false, true] {
                let vars = vec![('A', a), ('B', b)];
                assert_eq!(tree.eval(&vars), expect[k], "{} with A={} B={}", text, a, b);
                k += 1;
            }
        }
    }
    let toks = tokenize("!A").unwrap();
    validate(&toks).unwrap();
    let tree = eval(&toks);
    assert_eq!(tree.eval(&vec![('A', false)]), true);
    assert_eq!(tree.eval(&vec![('A', true)]), false);
}

#[test]
fn first_binding_of_a_variable_wins() {
    let toks = tokenize("A").unwrap();
    validate(&toks).unwrap();
    let tree = eval(&toks);
    let vars = vec![('A', true), ('A', false)];
    assert_eq!(tree.eval(&vars), true);
}

#[test]
fn unknown_vars_deduplicates_in_discovery_order() {
    let toks = tokenize("P ^ Q v P").unwrap();
    validate(&toks).unwrap();
    let tree = eval(&toks);
    let none: Vec<(char, bool)> = Vec::new();
    assert_eq!(tree.unknown_vars(&none), vec!['P', 'Q']);
    let some = vec![('P', true)];
    assert_eq!(tree.unknown_vars(&some), vec!['Q']);
}

#[test]
fn checker_covers_every_assignment() {
    let toks = tokenize("P v Q").unwrap();
    validate(&toks).unwrap();
    let tree = eval(&toks);
    let none: Vec<(char, bool)> = Vec::new();
    let unks = tree.unknown_vars(&none);
    let (verdict, rows) = check_tautology(&tree, &none, &unks);
    assert!(!verdict);
    // the very first assignment (all false) already falsifies
    assert_eq!(rows.len(), 1);
    let (verdict2, rows2) = check_tautology(&tree, &vec![('P', true)], &vec!['Q']);
    assert!(verdict2);
    assert_eq!(rows2, vec![vec![('P', true), ('Q', false)], vec![('P', true), ('Q', true)]]);
}

#[test]
fn token_display_characters() {
    assert_eq!(Token::And.tos(), '&');
    assert_eq!(Token::Or.tos(), '|');
    assert_eq!(Token::Not.tos(), '!');
    assert_eq!(Token::If.tos(), '>');
    assert_eq!(Token::Iff.tos(), '=');
    assert_eq!(Token::ParOpen.tos(), '(');
    assert_eq!(Token::ParClose.tos(), ')');
    assert_eq!(Token::True.tos(), '1');
    assert_eq!(Token::False.tos(), '0');
    assert_eq!(Token::Var('x').tos(), 'x');
}

#[test]
fn variable_characters_are_ascii_letters() {
    assert!(is_var('A'));
    assert!(is_var('Z'));
    assert!(is_var('a'));
    assert!(is_var('z'));
    assert!(is_var('v'));
    assert!(!is_var('5'));
    assert!(!is_var('^'));
    assert!(!is_var(' '));
}
