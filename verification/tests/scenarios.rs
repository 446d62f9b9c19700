//! Whole-pipeline scenarios: one formula text in, tokens, rendering,
//! free variables and a verdict out.

use tautology::pipeline::{FormulaError, analyze};
use tautology::syntax::SyntaxError;
use tautology::token::Token;

#[test]
fn constant_conjunction_evaluates_directly() {
    let vars: Vec<(char, bool)> = Vec::new();
    let a = analyze("1 ^ 1", &vars).unwrap();
    assert_eq!(a.tokens, vec![Token::True, Token::And, Token::True]);
    assert_eq!(a.rendered, "( 1 ) & ( 1 )");
    assert!(a.unknowns.is_empty());
    assert_eq!(a.direct, Some(true));
    assert_eq!(a.tautology, None);
    assert!(a.rows.is_empty());
}

#[test]
fn de_morgan_is_a_tautology() {
    let vars: Vec<(char, bool)> = Vec::new();
    let a = analyze("!(P v Q) <=> (!P) ^ (!Q)", &vars).unwrap();
    assert_eq!(a.unknowns, vec!['P', 'Q']);
    assert_eq!(a.direct, None);
    assert_eq!(a.tautology, Some(true));
    assert_eq!(a.rows.len(), 4);
    for row in &a.rows {
        assert_eq!(row.len(), 2);
    }
}

#[test]
fn contradiction_short_circuits() {
    let vars: Vec<(char, bool)> = Vec::new();
    let a = analyze("P ^ !P", &vars).unwrap();
    assert_eq!(a.unknowns, vec!['P']);
    assert_eq!(a.tautology, Some(false));
    // the very first assignment falsifies, so only one row was tried
    assert_eq!(a.rows.len(), 1);
    assert_eq!(a.rows[0], vec![('P', false)]);
}

#[test]
fn trailing_operator_is_a_syntax_error() {
    let vars: Vec<(char, bool)> = Vec::new();
    let r = analyze("A ^", &vars);
    assert_eq!(
        r.err(),
        Some(FormulaError::Syntactic { err: SyntaxError::MissingValueAtEnd })
    );
    assert_eq!(SyntaxError::MissingValueAtEnd.message(), "Expected value at the end");
}

#[test]
fn invalid_character_is_reported_by_index() {
    let vars: Vec<(char, bool)> = Vec::new();
    let r = analyze("A # B", &vars);
    assert_eq!(r.err(), Some(FormulaError::Lexical { index: 2 }));
}

#[test]
fn unbalanced_parenthesis_is_a_syntax_error() {
    let vars: Vec<(char, bool)> = Vec::new();
    let r = analyze("(A ^ B", &vars);
    assert_eq!(
        r.err(),
        Some(FormulaError::Syntactic { err: SyntaxError::Unbalanced })
    );
}

#[test]
fn excluded_middle_is_a_tautology() {
    let vars: Vec<(char, bool)> = Vec::new();
    let a = analyze("P v !P", &vars).unwrap();
    assert_eq!(a.unknowns, vec!['P']);
    assert_eq!(a.tautology, Some(true));
    assert_eq!(a.rows.len(), 2);
    assert_eq!(a.rows[0], vec![('P', false)]);
    assert_eq!(a.rows[1], vec![('P', true)]);
}

#[test]
fn supplied_bindings_are_held_fixed() {
    let vars = vec![('A', true), ('B', false)];
    let a = analyze("A => B", &vars).unwrap();
    assert!(a.unknowns.is_empty());
    assert_eq!(a.direct, Some(false));
    let b = analyze("A <=> B", &vars).unwrap();
    assert_eq!(b.direct, Some(false));
    let c = analyze("B => A", &vars).unwrap();
    assert_eq!(c.direct, Some(true));
}

#[test]
fn verdict_is_idempotent() {
    let vars: Vec<(char, bool)> = Vec::new();
    let first = analyze("!(P v Q) <=> (!P) ^ (!Q)", &vars).unwrap().tautology;
    let second = analyze("!(P v Q) <=> (!P) ^ (!Q)", &vars).unwrap().tautology;
    assert_eq!(first, second);
    let third = analyze("P ^ !P", &vars).unwrap().tautology;
    let fourth = analyze("P ^ !P", &vars).unwrap().tautology;
    assert_eq!(third, fourth);
}

#[test]
fn partial_bindings_leave_the_rest_free() {
    let vars = vec![('P', true)];
    let a = analyze("P ^ Q", &vars).unwrap();
    assert_eq!(a.unknowns, vec!['Q']);
    assert_eq!(a.tautology, Some(false));
}

#[test]
fn keyword_letters_cannot_name_variables() {
    // `v` is the Or keyword, so a lone `v` is an operator missing its
    // left operand, not a variable
    let vars: Vec<(char, bool)> = Vec::new();
    let r = analyze("v", &vars);
    assert_eq!(
        r.err(),
        Some(FormulaError::Syntactic { err: SyntaxError::ValueBeforeOperator })
    );
}

#[test]
fn negated_constant() {
    let vars: Vec<(char, bool)> = Vec::new();
    let a = analyze("!0", &vars).unwrap();
    assert_eq!(a.direct, Some(true));
    assert_eq!(a.rendered, " ! ( 0 )");
}

#[test]
fn render_output_reparses_to_the_same_tree() {
    // re-tokenize the rendering with the tokenizer's own operator
    // symbols in place of the renderer's display symbols
    let vars: Vec<(char, bool)> = Vec::new();
    for text in ["!(P v Q) <=> (!P) ^ (!Q)", "A ^ B v C", "1 ^ 1", "!!X", "A => B => C"] {
        let a = analyze(text, &vars).unwrap();
        let mut back = String::new();
        for c in a.rendered.chars() {
            match c {
                '&' => back.push('^'),
                '|' => back.push('v'),
                '>' => back.push_str("=>"),
                '=' => back.push_str("<=>"),
                other => back.push(other),
            }
        }
        let b = analyze(&back, &vars).unwrap();
        assert_eq!(a.rendered, b.rendered);
        assert_eq!(a.tautology, b.tautology);
        assert_eq!(a.direct, b.direct);
    }
}

#[test]
fn empty_input_expects_a_value() {
    let vars: Vec<(char, bool)> = Vec::new();
    let r = analyze("", &vars);
    assert_eq!(
        r.err(),
        Some(FormulaError::Syntactic { err: SyntaxError::MissingValueAtEnd })
    );
    let r2 = analyze("   ", &vars);
    assert_eq!(
        r2.err(),
        Some(FormulaError::Syntactic { err: SyntaxError::MissingValueAtEnd })
    );
}

#[test]
fn single_variable_is_not_a_tautology() {
    let vars: Vec<(char, bool)> = Vec::new();
    let a = analyze("P", &vars).unwrap();
    assert_eq!(a.unknowns, vec!['P']);
    assert_eq!(a.tautology, Some(false));
    assert_eq!(a.rows.len(), 1);
}

#[test]
fn nested_parentheses_strip_to_the_leaf() {
    let vars: Vec<(char, bool)> = Vec::new();
    let a = analyze("((((1))))", &vars).unwrap();
    assert_eq!(a.rendered, " 1 ");
    assert_eq!(a.direct, Some(true));
}

#[test]
fn empty_parentheses_are_rejected() {
    let vars: Vec<(char, bool)> = Vec::new();
    let r = analyze("A ^ ()", &vars);
    assert_eq!(
        r.err(),
        Some(FormulaError::Syntactic { err: SyntaxError::EmptyParens })
    );
}

#[test]
fn enumeration_order_varies_last_unknown_fastest() {
    let vars: Vec<(char, bool)> = Vec::new();
    let a = analyze("P => (Q => P)", &vars).unwrap();
    assert_eq!(a.unknowns, vec!['P', 'Q']);
    assert_eq!(a.tautology, Some(true));
    assert_eq!(
        a.rows,
        vec![
            vec![('P', false), ('Q', false)],
            vec![('P', false), ('Q', true)],
            vec![('P', true), ('Q', false)],
            vec![('P', true), ('Q', true)],
        ]
    );
}

#[test]
fn enumeration_stops_at_first_falsifying_assignment() {
    let vars: Vec<(char, bool)> = Vec::new();
    let a = analyze("P => Q", &vars).unwrap();
    assert_eq!(a.unknowns, vec!['P', 'Q']);
    assert_eq!(a.tautology, Some(false));
    // the third assignment falsifies, so the fourth is never tried
    assert_eq!(
        a.rows,
        vec![
            vec![('P', false), ('Q', false)],
            vec![('P', false), ('Q', true)],
            vec![('P', true), ('Q', false)],
        ]
    );
}

#[test]
fn each_violation_has_its_own_message() {
    assert_eq!(SyntaxError::ValueAfterOperator.message(), "Expected value after operator");
    assert_eq!(SyntaxError::ValueBeforeOperator.message(), "Expected value before operator");
    assert_eq!(
        SyntaxError::NotAfterValue.message(),
        "Not operator must come before value, not after"
    );
    assert_eq!(
        SyntaxError::OpenAfterValue.message(),
        "Parentheses may not come after a value"
    );
    assert_eq!(
        SyntaxError::CloseAfterOperator.message(),
        "Closing parentheses may not come after an operator"
    );
    assert_eq!(SyntaxError::UnmatchedClose.message(), "No matching parentheses to close");
    assert_eq!(SyntaxError::EmptyParens.message(), "Empty parentheses");
    assert_eq!(SyntaxError::TwoValues.message(), "Can't have two values after each other");
    assert_eq!(SyntaxError::MissingValueAtEnd.message(), "Expected value at the end");
    assert_eq!(SyntaxError::Unbalanced.message(), "Unbalanced parentheses");
}

#[test]
fn dangling_operator_prefix_is_a_lexical_error() {
    let vars: Vec<(char, bool)> = Vec::new();
    let r = analyze("A <", &vars);
    assert_eq!(r.err(), Some(FormulaError::Lexical { index: 2 }));
    let r2 = analyze("A =", &vars);
    assert_eq!(r2.err(), Some(FormulaError::Lexical { index: 2 }));
}
