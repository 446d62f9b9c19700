//! The whole pipeline over one formula text: tokenize, validate, build
//! the tree, then either evaluate directly or run the tautology check
//! over the free variables.

use vstd::prelude::*;

use crate::builder::{eval, parses};
use crate::lexer::{lex_spec, tokenize};
use crate::syntax::{SyntaxError, check_spec, valid_tokens, validate};
use crate::taut::{check_tautology, taken_rows, taut_from};
use crate::token::Token;
use crate::tree::{Node, bound_set, is_bound};

verus! {

/// Why a formula text was rejected.
#[derive(Clone, Copy, Debug, PartialEq, Eq, Structural)]
pub enum FormulaError {
    /// A character that completes no token pattern, at this character
    /// index. The process-level convention for it is exit code 1.
    Lexical { index: usize },
    /// A grammar violation found by the validator. The process-level
    /// convention for it is exit code 2.
    Syntactic { err: SyntaxError },
}

/// Everything the pipeline finds out about one accepted formula.
pub struct Analysis {
    /// The token sequence of the text.
    pub tokens: Vec<Token>,
    /// The expression tree built from the tokens.
    pub tree: Node,
    /// The fully parenthesized rendering of the tree.
    pub rendered: String,
    /// The variables of the tree the given bindings leave unbound, in
    /// discovery order, without duplicates.
    pub unknowns: Vec<char>,
    /// The value of the tree, when no variable is left unbound.
    pub direct: Option<bool>,
    /// The tautology verdict over the unbound variables, when there are
    /// any.
    pub tautology: Option<bool>,
    /// The complete assignments the tautology check tried: the
    /// enumeration order with the last unknown varying fastest, ending
    /// at the first falsifying assignment.
    pub rows: Vec<Vec<(char, bool)>>,
}

/// What an accepted analysis promises.
pub open spec fn analysis_ok(a: Analysis, s: Seq<char>, vars: Seq<(char, bool)>) -> bool {
    &&& lex_spec(s) == Ok::<Seq<Token>, int>(a.tokens@)
    &&& valid_tokens(a.tokens@)
    &&& a.tree.wf()
    &&& parses(a.tokens@, a.tree)
    &&& a.rendered@ == a.tree.render_spec()
    &&& a.unknowns@ == a.tree.discovered(vars, Seq::<char>::empty())
    &&& a.unknowns@.to_set() == a.tree.vars_of().difference(bound_set(vars))
    &&& a.unknowns@.no_duplicates()
    &&& (a.unknowns@.len() == 0 ==> a.direct == Some(a.tree.eval_spec(vars)) && a.tautology
        is None && a.rows@.len() == 0)
    &&& (a.unknowns@.len() > 0 ==> a.direct is None && a.tautology == Some(
        taut_from(a.tree, vars, a.unknowns@),
    ))
    &&& (a.unknowns@.len() > 0 ==> a.rows@.len() == taken_rows(a.tree, vars, a.unknowns@).len()
        && (forall|k: int|
            0 <= k < a.rows@.len() ==> a.rows@[k]@ == taken_rows(a.tree, vars, a.unknowns@)[k]))
    &&& (forall|k: int| 0 <= k < a.rows@.len() ==> a.rows@[k]@.len() == vars.len() + a.unknowns@.len())
}

/// Analyze one formula text under the given bindings: tokenize and
/// validate it, build its tree, render it, find the unbound variables,
/// and either evaluate the tree directly (no unbound variable) or check
/// whether it is a tautology over the unbound variables.
pub fn analyze(s: &str, vars: &Vec<(char, bool)>) -> (r: Result<Analysis, FormulaError>)
    ensures
        match r {
            Ok(a) => analysis_ok(a, s@, vars@),
            Err(FormulaError::Lexical { index }) => lex_spec(s@) == Err::<Seq<Token>, int>(
                index as int,
            ),
            Err(FormulaError::Syntactic { err }) => lex_spec(s@) matches Ok(ts) && check_spec(ts)
                == Err::<(), SyntaxError>(err),
        },
{
    let tokens = match tokenize(s) {
        Ok(v) => v,
        Err(i) => {
            return Err(FormulaError::Lexical { index: i });
        },
    };
    match validate(&tokens) {
        Ok(u) => u,
        Err(e) => {
            return Err(FormulaError::Syntactic { err: e });
        },
    };
    let tree = eval(tokens.as_slice());
    let rendered = tree.coll();
    let unknowns = tree.unknown_vars(vars);
    if unknowns.len() == 0 {
        proof {
            assert forall|c: char| tree.vars_of().contains(c) implies is_bound(vars@, c) by {
                if !is_bound(vars@, c) {
                    assert(tree.vars_of().difference(bound_set(vars@)).contains(c));
                    assert(unknowns@.to_set().contains(c));
                    assert(unknowns@.contains(c));
                }
            };
        }
        let val = tree.eval(vars);
        Ok(
            Analysis {
                tokens,
                tree,
                rendered,
                unknowns,
                direct: Some(val),
                tautology: None,
                rows: Vec::new(),
            },
        )
    } else {
        proof {
            assert forall|c: char| tree.vars_of().contains(c) implies is_bound(vars@, c)
                || unknowns@.contains(c) by {
                if !is_bound(vars@, c) {
                    assert(tree.vars_of().difference(bound_set(vars@)).contains(c));
                    assert(unknowns@.to_set().contains(c));
                }
            };
        }
        let (verdict, rows) = check_tautology(&tree, vars, &unknowns);
        Ok(
            Analysis {
                tokens,
                tree,
                rendered,
                unknowns,
                direct: None,
                tautology: Some(verdict),
                rows,
            },
        )
    }
}

} // verus!
