//! Building an expression tree from a validated token sequence.
//!
//! The slice is split at the operator with the lowest precedence score,
//! `nesting depth * 10 + base precedence`, the first such operator winning
//! ties; an outer matched parenthesis pair is stripped first. The proofs
//! here show that on a validated sequence a split always exists, that the
//! parts are themselves validated, and hence that the builder totally
//! produces a well-formed tree.

use vstd::pervasive::unreached;
use vstd::prelude::*;

use crate::syntax::{
    SyntaxError, VState, delta, depth_at, end_check, init_state, lemma_depth_at_skip,
    lemma_depth_at_take, lemma_opn_flag, lemma_prefix_ok, lemma_run_init_like, lemma_run_split,
    lemma_shift_down, lemma_state_at, run_from, state_at, step, valid_tokens,
};
use crate::token::{Token, is_binop, is_oper, is_value};
use crate::tree::Node;

verus! {

/// Base precedence of a connective: lower binds more loosely and splits
/// first. Non-operator tokens are never split candidates.
pub open spec fn base_prec(t: Token) -> int {
    match t {
        Token::Iff => 1,
        Token::If => 2,
        Token::Or => 3,
        Token::And => 4,
        Token::Not => 5,
        _ => 6,
    }
}

/// Position `i` carries a precedence score: it holds an operator.
pub open spec fn scored(ts: Seq<Token>, i: int) -> bool {
    0 <= i < ts.len() && is_oper(ts[i])
}

/// The precedence score at position `i`.
pub open spec fn score(ts: Seq<Token>, i: int) -> int {
    depth_at(ts, i) * 10 + base_prec(ts[i])
}

/// `q` is the split point: the first position carrying the globally
/// lowest score.
pub open spec fn is_split(ts: Seq<Token>, q: int) -> bool {
    &&& scored(ts, q)
    &&& forall|j: int| scored(ts, j) ==> score(ts, q) <= score(ts, j)
    &&& forall|j: int| 0 <= j < q && scored(ts, j) ==> score(ts, j) > score(ts, q)
}

/// The sequence is one parenthesized group: it starts with `(`, ends with
/// `)`, and those two match — the depth stays positive strictly inside.
pub open spec fn wrapped(ts: Seq<Token>) -> bool {
    &&& ts.len() >= 3
    &&& ts[0] == Token::ParOpen
    &&& ts[ts.len() - 1] == Token::ParClose
    &&& forall|i: int| 1 <= i <= ts.len() - 1 ==> depth_at(ts, i) >= 1
}

/// The tree `n` is the precedence parse of `ts`: leaves for single value
/// tokens, outer matched parentheses stripped, and otherwise a node at the
/// split point whose children parse the two remaining parts.
pub open spec fn parses(ts: Seq<Token>, n: Node) -> bool
    decreases ts.len(),
{
    if ts.len() == 1 {
        is_value(ts[0]) && n.token == ts[0] && n.lhs is None && n.rhs is None
    } else if ts.len() >= 2 && wrapped(ts) {
        parses(ts.subrange(1, ts.len() - 1), n)
    } else if ts.len() >= 2 && (exists|q: int| is_split(ts, q)) {
        let q = choose|q: int| is_split(ts, q);
        if ts[q] == Token::Not {
            &&& q == 0
            &&& n.token == Token::Not
            &&& n.lhs is None
            &&& match n.rhs {
                Some(r) => parses(ts.skip(1), *r),
                None => false,
            }
        } else if is_binop(ts[q]) {
            &&& n.token == ts[q]
            &&& match n.lhs {
                Some(l) => parses(ts.take(q), *l),
                None => false,
            }
            &&& match n.rhs {
                Some(r) => parses(ts.skip(q + 1), *r),
                None => false,
            }
        } else {
            false
        }
    } else {
        false
    }
}

/// A sequence has at most one parse: the split point is unique, so the
/// tree is determined level by level.
pub proof fn lemma_parses_unique(ts: Seq<Token>, n1: Node, n2: Node)
    requires
        parses(ts, n1),
        parses(ts, n2),
    ensures
        n1 == n2,
    decreases ts.len(),
{
    if ts.len() == 1 {
    } else if ts.len() >= 2 && wrapped(ts) {
        lemma_parses_unique(ts.subrange(1, ts.len() - 1), n1, n2);
    } else if ts.len() >= 2 && (exists|q: int| is_split(ts, q)) {
        let q = choose|q: int| is_split(ts, q);
        if ts[q] == Token::Not {
            let r1 = n1.rhs->0;
            let r2 = n2.rhs->0;
            lemma_parses_unique(ts.skip(1), *r1, *r2);
        } else {
            let l1 = n1.lhs->0;
            let l2 = n2.lhs->0;
            let r1 = n1.rhs->0;
            let r2 = n2.rhs->0;
            lemma_parses_unique(ts.take(q), *l1, *l2);
            lemma_parses_unique(ts.skip(q + 1), *r1, *r2);
        }
    }
}

/// There is at most one split point.
pub proof fn lemma_split_unique(ts: Seq<Token>, q1: int, q2: int)
    requires
        is_split(ts, q1),
        is_split(ts, q2),
    ensures
        q1 == q2,
{
    if q1 < q2 {
        assert(score(ts, q1) > score(ts, q2));
        assert(score(ts, q2) <= score(ts, q1));
    }
    if q2 < q1 {
        assert(score(ts, q2) > score(ts, q1));
        assert(score(ts, q1) <= score(ts, q2));
    }
}

/// A validated sequence is not empty.
pub proof fn lemma_valid_nonempty(ts: Seq<Token>)
    requires
        valid_tokens(ts),
    ensures
        ts.len() >= 1,
{
    if ts.len() == 0 {
        assert(run_from(init_state(), ts) == Ok::<VState, SyntaxError>(init_state()));
    }
}

/// A validated single token is a constant or a variable.
pub proof fn lemma_valid_single(ts: Seq<Token>)
    requires
        valid_tokens(ts),
        ts.len() == 1,
    ensures
        is_value(ts[0]),
{
    reveal_with_fuel(run_from, 3);
    assert(ts.skip(1) =~= Seq::<Token>::empty());
}

/// Finds the first position at or after `i` where the depth returns to
/// zero; until there the depth stays positive.
proof fn find_return(ts: Seq<Token>, i: int) -> (m: int)
    requires
        1 <= i <= ts.len(),
        depth_at(ts, i) >= 1,
        depth_at(ts, ts.len() as int) == 0,
    ensures
        i < m <= ts.len(),
        depth_at(ts, m) == 0,
        forall|j: int| i <= j < m ==> depth_at(ts, j) >= 1,
    decreases ts.len() - i,
{
    assert(i < ts.len());
    if depth_at(ts, i + 1) == 0 {
        i + 1
    } else {
        assert(depth_at(ts, i + 1) == depth_at(ts, i) + delta(ts[i]));
        assert(depth_at(ts, i + 1) >= 1) by {
            assert(delta(ts[i]) >= -1);
        };
        find_return(ts, i + 1)
    }
}

/// When the pass accepts the first `i + 1` tokens, the step at position
/// `i` succeeded.
pub proof fn lemma_step_ok(ts: Seq<Token>, i: int)
    requires
        0 <= i < ts.len(),
        run_from(init_state(), ts.take(i + 1)) is Ok,
    ensures
        run_from(init_state(), ts.take(i)) is Ok,
        step(state_at(ts, i), ts[i]) is Ok,
{
    lemma_run_split(init_state(), ts.take(i + 1), i);
    assert(ts.take(i + 1).take(i) =~= ts.take(i));
    lemma_state_at(ts, i);
    assert(ts.take(i + 1).skip(i)[0] == ts[i]);
    assert(ts.take(i + 1).skip(i).len() == 1);
}

/// A validated sequence of length at least two that is not one
/// parenthesized group holds an operator at depth zero.
pub proof fn lemma_exists_oper(ts: Seq<Token>)
    requires
        valid_tokens(ts),
        ts.len() >= 2,
        !wrapped(ts),
    ensures
        exists|p: int| scored(ts, p) && depth_at(ts, p) == 0,
{
    let len = ts.len() as int;
    assert(ts.take(len) =~= ts);
    lemma_state_at(ts, len);
    lemma_prefix_ok(ts, 1);
    lemma_state_at(ts, 1);
    lemma_prefix_ok(ts, 2);
    lemma_step_ok(ts, 1);
    assert(ts.take(1)[0] == ts[0]);
    assert(depth_at(ts, 0) == 0);
    assert(depth_at(ts, 1) == delta(ts[0]));
    // the end checks passed, so the final depth is zero
    assert(state_at(ts, len).depth == 0);
    if ts[0] == Token::Not {
        assert(scored(ts, 0) && depth_at(ts, 0) == 0);
    } else if is_value(ts[0]) {
        // after a value only a binary operator is accepted
        let st1 = state_at(ts, 1);
        assert(st1.val);
        assert(st1.depth == 0);
        assert(step(st1, ts[1]) is Ok);
        assert(is_binop(ts[1]));
        assert(scored(ts, 1) && depth_at(ts, 1) == 0);
    } else if ts[0] == Token::ParOpen {
        // walk to where the depth first returns to zero
        assert(depth_at(ts, 1) == 1);
        assert(ts[1] != Token::ParClose) by {
            if ts[1] == Token::ParClose {
                assert(state_at(ts, 1).opn);
                assert(step(state_at(ts, 1), ts[1]) is Err);
            }
        };
        assert(depth_at(ts, 2) == depth_at(ts, 1) + delta(ts[1]));
        assert(depth_at(ts, 2) >= 1);
        let m = find_return(ts, 1);
        assert(m >= 3);
        if m == len {
            // the whole sequence is one parenthesized group
            assert(depth_at(ts, len) == depth_at(ts, len - 1) + delta(ts[len - 1]));
            assert(depth_at(ts, len - 1) >= 1);
            assert(delta(ts[len - 1]) <= -1);
            assert(ts[len - 1] == Token::ParClose);
            assert(wrapped(ts));
        } else {
            assert(depth_at(ts, m) == depth_at(ts, m - 1) + delta(ts[m - 1]));
            assert(depth_at(ts, m - 1) >= 1);
            assert(ts[m - 1] == Token::ParClose);
            lemma_prefix_ok(ts, m + 1);
            lemma_step_ok(ts, m);
            lemma_state_at(ts, m);
            let stm = state_at(ts, m);
            assert(stm.val);
            assert(stm.depth == 0);
            assert(step(stm, ts[m]) is Ok);
            assert(is_binop(ts[m]));
            assert(scored(ts, m) && depth_at(ts, m) == 0);
        }
    } else {
        // a binary operator or a closing parenthesis cannot open a
        // validated sequence
        assert(run_from(init_state(), ts.take(1)) is Ok);
        assert(ts.take(1).len() == 1);
        assert(false);
    }
}

/// What holds at the split point of a validated sequence: it is an
/// operator at depth zero, a prefix `Not` stands first, and the parts a
/// binary operator separates are themselves validated.
pub proof fn lemma_split_props(ts: Seq<Token>, q: int)
    requires
        valid_tokens(ts),
        ts.len() >= 2,
        !wrapped(ts),
        is_split(ts, q),
    ensures
        depth_at(ts, q) == 0,
        is_oper(ts[q]),
        ts[q] == Token::Not ==> q == 0 && valid_tokens(ts.skip(1)),
        is_binop(ts[q]) ==> 1 <= q && q + 2 <= ts.len() && valid_tokens(ts.take(q))
            && valid_tokens(ts.skip(q + 1)),
{
    let len = ts.len() as int;
    assert(ts.take(len) =~= ts);
    lemma_state_at(ts, len);
    lemma_exists_oper(ts);
    let pw = choose|p: int| scored(ts, p) && depth_at(ts, p) == 0;
    assert(score(ts, pw) <= 5) by {
        assert(base_prec(ts[pw]) <= 5);
    };
    assert(score(ts, q) <= score(ts, pw));
    lemma_prefix_ok(ts, q);
    lemma_state_at(ts, q);
    assert(depth_at(ts, q) == 0) by {
        if depth_at(ts, q) >= 1 {
            assert(base_prec(ts[q]) >= 1);
            assert(score(ts, q) >= 11);
        }
    };
    lemma_prefix_ok(ts, q + 1);
    lemma_state_at(ts, q + 1);
    let stq = state_at(ts, q);
    // the step at q succeeded
    assert(run_from(init_state(), ts.take(q + 1)) == (match step(stq, ts[q]) {
        Ok(x) => run_from(x, ts.take(q + 1).skip(q + 1)),
        Err(e) => Err(e),
    })) by {
        lemma_run_split(init_state(), ts.take(q + 1), q);
        assert(ts.take(q + 1).take(q) =~= ts.take(q));
        assert(ts.take(q + 1).skip(q)[0] == ts[q]);
        assert(ts.take(q + 1).skip(q).skip(1) =~= ts.take(q + 1).skip(q + 1));
    };
    let fin = run_from(init_state(), ts)->Ok_0;
    assert(fin == state_at(ts, len));
    assert(end_check(fin) is Ok);
    if is_binop(ts[q]) {
        assert(stq.val);
        assert(q >= 1);
        // a binary operator cannot be last: the end check demands a value
        assert(q + 2 <= len) by {
            if q == len - 1 {
                assert(state_at(ts, len).op);
            }
        };
        // the left part runs to an accepting state
        assert(valid_tokens(ts.take(q))) by {
            assert(run_from(init_state(), ts.take(q)) == Ok::<VState, SyntaxError>(stq));
            assert(!stq.op);
            assert(stq.depth == 0);
        };
        // the right part: the run after the operator is a run from the
        // start state
        assert(valid_tokens(ts.skip(q + 1))) by {
            lemma_run_split(init_state(), ts, q + 1);
            let sa = state_at(ts, q + 1);
            assert(run_from(sa, ts.skip(q + 1)) == Ok::<VState, SyntaxError>(fin));
            assert(sa.depth == 0);
            assert(!sa.val);
            assert(sa.op);
            assert(ts.skip(q + 1).len() >= 1);
            lemma_run_init_like(sa, ts.skip(q + 1));
        };
    }
    if ts[q] == Token::Not {
        assert(q == 0) by {
            if q >= 1 {
                assert(!stq.val);
                if ts[q - 1] == Token::ParOpen {
                    lemma_prefix_ok(ts, q - 1);
                    lemma_state_at(ts, q - 1);
                    assert(depth_at(ts, q) == depth_at(ts, q - 1) + 1);
                } else if is_binop(ts[q - 1]) {
                    assert(depth_at(ts, q - 1) == depth_at(ts, q));
                    assert(scored(ts, q - 1));
                    assert(score(ts, q - 1) <= 4);
                    assert(score(ts, q - 1) > score(ts, q));
                } else if ts[q - 1] == Token::Not {
                    assert(scored(ts, q - 1));
                    assert(score(ts, q - 1) == score(ts, q));
                    assert(score(ts, q - 1) > score(ts, q));
                } else {
                    assert(is_value(ts[q - 1]) || ts[q - 1] == Token::ParClose);
                    assert(stq.val);
                }
            }
        };
        assert(valid_tokens(ts.skip(1))) by {
            lemma_run_split(init_state(), ts, 1);
            let sa = state_at(ts, 1);
            assert(run_from(init_state(), ts.take(1)) == Ok::<VState, SyntaxError>(sa));
            assert(run_from(sa, ts.skip(1)) == Ok::<VState, SyntaxError>(fin));
            assert(sa.depth == 0);
            assert(!sa.val);
            assert(sa.not);
            assert(ts.skip(1).len() >= 1);
            lemma_run_init_like(sa, ts.skip(1));
        };
    }
}

/// Stripping a matched outer parenthesis pair from a validated sequence
/// leaves a validated sequence.
pub proof fn lemma_inner_valid(ts: Seq<Token>)
    requires
        valid_tokens(ts),
        wrapped(ts),
    ensures
        valid_tokens(ts.subrange(1, ts.len() - 1)),
{
    reveal_with_fuel(run_from, 3);
    let len = ts.len() as int;
    let inner = ts.subrange(1, len - 1);
    assert(ts.take(len) =~= ts);
    lemma_state_at(ts, len);
    lemma_prefix_ok(ts, 1);
    lemma_state_at(ts, 1);
    assert(depth_at(ts, 0) == 0);
    assert(depth_at(ts, 1) == 1);
    let s_open = state_at(ts, 1);
    assert(s_open == VState { depth: 1, val: false, op: false, not: false, opn: true });
    // the run after the opening parenthesis covers the inner part and the
    // final closing parenthesis
    lemma_run_split(init_state(), ts, 1);
    let fin = run_from(init_state(), ts)->Ok_0;
    assert(run_from(s_open, ts.skip(1)) == Ok::<VState, SyntaxError>(fin));
    lemma_run_split(s_open, ts.skip(1), len - 2);
    assert(ts.skip(1).take(len - 2) =~= inner);
    assert(ts.skip(1).skip(len - 2) =~= ts.subrange(len - 1, len));
    assert(run_from(s_open, inner) is Ok);
    let mid = run_from(s_open, inner)->Ok_0;
    assert(run_from(mid, ts.subrange(len - 1, len)) == Ok::<VState, SyntaxError>(fin));
    assert(ts.subrange(len - 1, len)[0] == ts[len - 1]);
    assert(ts.subrange(len - 1, len).skip(1) =~= Seq::<Token>::empty());
    assert(step(mid, Token::ParClose) == Ok::<VState, SyntaxError>(fin));
    assert(!mid.op && !mid.not && !mid.opn && mid.depth >= 1);
    assert(fin.depth == mid.depth - 1);
    assert(fin.depth == 0);
    assert(mid.depth == 1);
    assert(mid.val) by {
        lemma_run_flags(s_open, inner);
        let last = inner[inner.len() - 1];
        assert(!is_binop(last) && last != Token::Not && last != Token::ParOpen);
        assert(is_value(last) || last == Token::ParClose);
    };
    // the same run from the start state: drop the just-opened flag, then
    // lower the depth
    assert(inner[0] == ts[1]);
    assert(ts.skip(1)[0] == ts[1]);
    assert(ts[1] != Token::ParClose) by {
        if ts[1] == Token::ParClose {
            assert(step(s_open, ts[1]) is Err);
        }
    };
    let s_noopn = VState { depth: 1, val: false, op: false, not: false, opn: false };
    lemma_opn_flag(s_open, s_noopn, inner);
    assert(run_from(s_noopn, inner) == Ok::<VState, SyntaxError>(mid));
    assert forall|i: int|
        0 <= i < inner.len() && inner[i] == Token::ParClose implies s_noopn.depth + depth_at(
        inner,
        i,
    ) >= 2 by {
        lemma_depth_at_take(ts.skip(1), len - 2, i);
        lemma_depth_at_skip(ts, 1, i);
        assert(depth_at(inner, i) == depth_at(ts, i + 1) - 1);
        assert(ts[i + 1] == Token::ParClose);
        assert(depth_at(ts, i + 2) == depth_at(ts, i + 1) - 1);
        assert(depth_at(ts, i + 2) >= 1);
    };
    lemma_shift_down(s_noopn, inner);
    assert(run_from(init_state(), inner) == Ok::<VState, SyntaxError>(
        VState { depth: 0, ..mid },
    ));
}

/// Whether the slice is one parenthesized group with a matched outer pair.
fn is_wrapped(s: &[Token]) -> (r: bool)
    ensures
        r == wrapped(s@),
{
    let n = s.len();
    if n < 3 {
        return false;
    }
    if !(s[0] == Token::ParOpen) {
        return false;
    }
    if !(s[n - 1] == Token::ParClose) {
        return false;
    }
    let mut dep: usize = 1;
    let mut i: usize = 1;
    proof {
        assert(depth_at(s@, 0) == 0);
        assert(depth_at(s@, 1) == 1);
    }
    while i < n - 1
        invariant
            1 <= i <= n - 1,
            3 <= n == s@.len(),
            dep <= i,
            dep as int == depth_at(s@, i as int),
            forall|j: int| 1 <= j <= i ==> depth_at(s@, j) >= 1,
            s@[0] == Token::ParOpen,
            s@[n - 1] == Token::ParClose,
        decreases n - i,
    {
        match s[i] {
            Token::ParOpen => {
                dep = dep + 1;
            },
            Token::ParClose => {
                dep = dep - 1;
            },
            _ => {},
        }
        proof {
            assert(dep as int == depth_at(s@, i as int + 1));
        }
        i = i + 1;
        if dep == 0 {
            proof {
                assert(!(depth_at(s@, i as int) >= 1));
            }
            return false;
        }
    }
    proof {
        assert(i as int == s@.len() - 1);
    }
    true
}

/// Find the split point of a validated slice: the first position with the
/// globally lowest precedence score.
fn find_split(s: &[Token]) -> (q: usize)
    requires
        valid_tokens(s@),
        s@.len() >= 2,
        !wrapped(s@),
    ensures
        is_split(s@, q as int),
{
    let n = s.len();
    let mut best_pos: usize = 0;
    let mut best_score: u128 = 0;
    let mut found = false;
    let mut dep: usize = 0;
    let mut i: usize = 0;
    proof {
        assert(depth_at(s@, 0) == 0);
    }
    while i < n
        invariant
            0 <= i <= n,
            n == s@.len(),
            valid_tokens(s@),
            dep <= i,
            dep as int == depth_at(s@, i as int),
            found ==> {
                &&& scored(s@, best_pos as int)
                &&& best_pos < i
                &&& best_score as int == score(s@, best_pos as int)
                &&& forall|j: int|
                    0 <= j < i && scored(s@, j) ==> score(s@, j) >= best_score as int
                &&& forall|j: int|
                    0 <= j < best_pos && scored(s@, j) ==> score(s@, j) > best_score as int
            },
            !found ==> forall|j: int| 0 <= j < i ==> !scored(s@, j),
        decreases n - i,
    {
        let t = s[i];
        match t {
            Token::ParOpen => {
                dep = dep + 1;
            },
            Token::ParClose => {
                proof {
                    lemma_prefix_ok(s@, i as int + 1);
                    lemma_state_at(s@, i as int + 1);
                    assert(depth_at(s@, i as int + 1) == dep as int - 1);
                }
                dep = dep - 1;
            },
            Token::And | Token::Or | Token::If | Token::Iff | Token::Not => {
                let b: u128 = match t {
                    Token::Iff => 1,
                    Token::If => 2,
                    Token::Or => 3,
                    Token::And => 4,
                    Token::Not => 5,
                    _ => unreached(),
                };
                let sc: u128 = (dep as u128) * 10 + b;
                proof {
                    assert(sc as int == score(s@, i as int));
                }
                if !found || sc < best_score {
                    best_pos = i;
                    best_score = sc;
                    found = true;
                }
            },
            _ => {},
        }
        i = i + 1;
    }
    proof {
        lemma_exists_oper(s@);
        let p = choose|p: int| scored(s@, p) && depth_at(s@, p) == 0;
        assert(scored(s@, p));
        assert(found);
    }
    best_pos
}

/// Build the expression tree of a validated token slice: strip a matched
/// outer parenthesis pair, else split at the first operator with the
/// lowest precedence score and build the parts.
pub fn eval(s: &[Token]) -> (n: Node)
    requires
        valid_tokens(s@),
    ensures
        n.wf(),
        parses(s@, n),
    decreases s@.len(),
{
    proof {
        lemma_valid_nonempty(s@);
    }
    let n = s.len();
    if n == 1 {
        proof {
            lemma_valid_single(s@);
        }
        return Node { token: s[0], lhs: None, rhs: None };
    }
    if is_wrapped(s) {
        proof {
            lemma_inner_valid(s@);
        }
        let inner = eval(&s[1..n - 1]);
        proof {
            assert(s@.subrange(1, n as int - 1) == s@.subrange(1, s@.len() - 1));
        }
        return inner;
    }
    let q = find_split(s);
    proof {
        lemma_split_props(s@, q as int);
        let qq = choose|j: int| is_split(s@, j);
        lemma_split_unique(s@, qq, q as int);
    }
    let t = s[q];
    match t {
        Token::Not => {
            let sub = eval(&s[1..n]);
            proof {
                assert(s@.subrange(1, n as int) =~= s@.skip(1));
            }
            Node { token: t, lhs: None, rhs: Some(Box::new(sub)) }
        },
        Token::And | Token::Or | Token::If | Token::Iff => {
            let l = eval(&s[0..q]);
            let r = eval(&s[q + 1..n]);
            proof {
                assert(s@.subrange(0, q as int) =~= s@.take(q as int));
                assert(s@.subrange(q as int + 1, n as int) =~= s@.skip(q as int + 1));
            }
            Node { token: t, lhs: Some(Box::new(l)), rhs: Some(Box::new(r)) }
        },
        _ => unreached(),
    }
}

/// After a non-empty accepted run the state's flags describe the last
/// token read.
pub proof fn lemma_run_flags(st: VState, ts: Seq<Token>)
    requires
        ts.len() >= 1,
        run_from(st, ts) is Ok,
    ensures
        ({
            let last = ts[ts.len() - 1];
            let fin = run_from(st, ts)->Ok_0;
            &&& fin.val == (is_value(last) || last == Token::ParClose)
            &&& fin.op == is_binop(last)
            &&& fin.not == (last == Token::Not)
            &&& fin.opn == (last == Token::ParOpen)
        }),
    decreases ts.len(),
{
    match step(st, ts[0]) {
        Ok(st2) => {
            if ts.len() == 1 {
                assert(ts.skip(1) =~= Seq::<Token>::empty());
            } else {
                lemma_run_flags(st2, ts.skip(1));
                assert(ts.skip(1)[ts.skip(1).len() - 1] == ts[ts.len() - 1]);
            }
        },
        Err(e) => {},
    }
}

} // verus!
