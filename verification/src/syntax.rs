//! Syntactic validation of a token sequence.
//!
//! A single left-to-right pass tracks the open-parenthesis nesting depth and
//! what kind of token came last. The pass is modelled by the spec functions
//! `step` and `run_from`; the executable `validate` returns exactly what the
//! model says, so every later proof about validated sequences can reason
//! over the model alone.

use vstd::prelude::*;

use crate::token::{Token, is_binop, is_value};

verus! {

/// A grammar violation, in the order the single pass detects them.
#[derive(Clone, Copy, Debug, PartialEq, Eq, Structural)]
pub enum SyntaxError {
    /// A binary operator immediately follows another binary operator.
    ValueAfterOperator,
    /// A binary operator is not preceded by a value.
    ValueBeforeOperator,
    /// `Not` immediately follows a value; it is prefix-only.
    NotAfterValue,
    /// An opening parenthesis immediately follows a value.
    OpenAfterValue,
    /// A closing parenthesis immediately follows an operator.
    CloseAfterOperator,
    /// A closing parenthesis with no open parenthesis to match.
    UnmatchedClose,
    /// A parenthesis pair with nothing inside; such a pair has no value
    /// and no tree could be built for it.
    EmptyParens,
    /// Two value tokens in a row.
    TwoValues,
    /// The sequence ends on an operator, or is empty.
    MissingValueAtEnd,
    /// Parentheses left open at the end of the sequence.
    Unbalanced,
}

impl SyntaxError {
    /// The description each violation carries.
    pub open spec fn message_spec(self) -> Seq<char> {
        match self {
            SyntaxError::ValueAfterOperator => "Expected value after operator"@,
            SyntaxError::ValueBeforeOperator => "Expected value before operator"@,
            SyntaxError::NotAfterValue => "Not operator must come before value, not after"@,
            SyntaxError::OpenAfterValue => "Parentheses may not come after a value"@,
            SyntaxError::CloseAfterOperator => "Closing parentheses may not come after an operator"@,
            SyntaxError::UnmatchedClose => "No matching parentheses to close"@,
            SyntaxError::EmptyParens => "Empty parentheses"@,
            SyntaxError::TwoValues => "Can't have two values after each other"@,
            SyntaxError::MissingValueAtEnd => "Expected value at the end"@,
            SyntaxError::Unbalanced => "Unbalanced parentheses"@,
        }
    }

    /// A human-readable description of the violation.
    pub fn message(&self) -> (m: &'static str)
        ensures
            m@ == self.message_spec(),
    {
        match self {
            SyntaxError::ValueAfterOperator => "Expected value after operator",
            SyntaxError::ValueBeforeOperator => "Expected value before operator",
            SyntaxError::NotAfterValue => "Not operator must come before value, not after",
            SyntaxError::OpenAfterValue => "Parentheses may not come after a value",
            SyntaxError::CloseAfterOperator => "Closing parentheses may not come after an operator",
            SyntaxError::UnmatchedClose => "No matching parentheses to close",
            SyntaxError::EmptyParens => "Empty parentheses",
            SyntaxError::TwoValues => "Can't have two values after each other",
            SyntaxError::MissingValueAtEnd => "Expected value at the end",
            SyntaxError::Unbalanced => "Unbalanced parentheses",
        }
    }
}

/// The state of the validation pass: the nesting depth and what the last
/// token was (a value, a binary operator, a `Not`, an opening parenthesis).
pub struct VState {
    pub depth: int,
    pub val: bool,
    pub op: bool,
    pub not: bool,
    pub opn: bool,
}

/// The state before any token has been read.
pub open spec fn init_state() -> VState {
    VState { depth: 0, val: false, op: false, not: false, opn: false }
}

/// How a parenthesis changes the nesting depth.
pub open spec fn delta(t: Token) -> int {
    match t {
        Token::ParOpen => 1,
        Token::ParClose => -1,
        _ => 0,
    }
}

/// Nesting depth in front of position `i`: opens minus closes among the
/// first `i` tokens.
pub open spec fn depth_at(ts: Seq<Token>, i: int) -> int
    decreases i,
{
    if i <= 0 {
        0
    } else {
        depth_at(ts, i - 1) + delta(ts[i - 1])
    }
}

/// One step of the validation pass.
pub open spec fn step(st: VState, t: Token) -> Result<VState, SyntaxError> {
    match t {
        Token::And | Token::Or | Token::If | Token::Iff => {
            if st.op {
                Err(SyntaxError::ValueAfterOperator)
            } else if !st.val {
                Err(SyntaxError::ValueBeforeOperator)
            } else {
                Ok(VState { depth: st.depth, val: false, op: true, not: false, opn: false })
            }
        },
        Token::Not => {
            if st.val {
                Err(SyntaxError::NotAfterValue)
            } else {
                Ok(VState { depth: st.depth, val: false, op: false, not: true, opn: false })
            }
        },
        Token::ParOpen => {
            if st.val {
                Err(SyntaxError::OpenAfterValue)
            } else {
                Ok(VState { depth: st.depth + 1, val: false, op: false, not: false, opn: true })
            }
        },
        Token::ParClose => {
            if st.op || st.not {
                Err(SyntaxError::CloseAfterOperator)
            } else if st.depth <= 0 {
                Err(SyntaxError::UnmatchedClose)
            } else if st.opn {
                Err(SyntaxError::EmptyParens)
            } else {
                Ok(VState { depth: st.depth - 1, val: true, op: false, not: false, opn: false })
            }
        },
        Token::True | Token::False | Token::Var(_) => {
            if st.val {
                Err(SyntaxError::TwoValues)
            } else {
                Ok(VState { depth: st.depth, val: true, op: false, not: false, opn: false })
            }
        },
    }
}

/// The pass over a whole sequence, from a given state.
pub open spec fn run_from(st: VState, ts: Seq<Token>) -> Result<VState, SyntaxError>
    decreases ts.len(),
{
    if ts.len() <= 0 {
        Ok(st)
    } else {
        match step(st, ts[0]) {
            Ok(st2) => run_from(st2, ts.skip(1)),
            Err(e) => Err(e),
        }
    }
}

/// The checks applied once the whole sequence has been read.
pub open spec fn end_check(st: VState) -> Result<(), SyntaxError> {
    if st.op || !st.val {
        Err(SyntaxError::MissingValueAtEnd)
    } else if st.depth != 0 {
        Err(SyntaxError::Unbalanced)
    } else {
        Ok(())
    }
}

/// What validation of `ts` reports: the first violation, or nothing.
pub open spec fn check_spec(ts: Seq<Token>) -> Result<(), SyntaxError> {
    match run_from(init_state(), ts) {
        Ok(st) => end_check(st),
        Err(e) => Err(e),
    }
}

/// A well-formed formula skeleton: the pass accepts it.
pub open spec fn valid_tokens(ts: Seq<Token>) -> bool {
    check_spec(ts) is Ok
}

/// Confirm that `ts` forms a well-formed formula skeleton, reporting the
/// first grammar violation otherwise.
pub fn validate(ts: &Vec<Token>) -> (r: Result<(), SyntaxError>)
    ensures
        r == check_spec(ts@),
        r is Ok <==> valid_tokens(ts@),
{
    let ghost full = ts@;
    let mut depth: usize = 0;
    let mut val = false;
    let mut op = false;
    let mut not_l = false;
    let mut opn = false;
    let mut i: usize = 0;
    while i < ts.len()
        invariant
            0 <= i <= ts.len(),
            full == ts@,
            depth <= i,
            run_from(init_state(), full.take(i as int)) == Ok::<VState, SyntaxError>(
                VState { depth: depth as int, val: val, op: op, not: not_l, opn: opn },
            ),
        decreases ts.len() - i,
    {
        let ghost st = VState { depth: depth as int, val: val, op: op, not: not_l, opn: opn };
        let t = ts[i];
        proof {
            assert(full.take(i as int + 1).drop_last() =~= full.take(i as int));
            assert(full.take(i as int + 1).last() == full[i as int]);
            lemma_run_snoc(init_state(), full.take(i as int + 1));
        }
        match t {
            Token::And | Token::Or | Token::If | Token::Iff => {
                if op {
                    proof { lemma_run_prefix_err(full, i as int, SyntaxError::ValueAfterOperator); }
                    return Err(SyntaxError::ValueAfterOperator);
                }
                if !val {
                    proof { lemma_run_prefix_err(full, i as int, SyntaxError::ValueBeforeOperator); }
                    return Err(SyntaxError::ValueBeforeOperator);
                }
                val = false;
                op = true;
                not_l = false;
                opn = false;
            },
            Token::Not => {
                if val {
                    proof { lemma_run_prefix_err(full, i as int, SyntaxError::NotAfterValue); }
                    return Err(SyntaxError::NotAfterValue);
                }
                val = false;
                op = false;
                not_l = true;
                opn = false;
            },
            Token::ParOpen => {
                if val {
                    proof { lemma_run_prefix_err(full, i as int, SyntaxError::OpenAfterValue); }
                    return Err(SyntaxError::OpenAfterValue);
                }
                depth = depth + 1;
                val = false;
                op = false;
                not_l = false;
                opn = true;
            },
            Token::ParClose => {
                if op || not_l {
                    proof { lemma_run_prefix_err(full, i as int, SyntaxError::CloseAfterOperator); }
                    return Err(SyntaxError::CloseAfterOperator);
                }
                if depth == 0 {
                    proof { lemma_run_prefix_err(full, i as int, SyntaxError::UnmatchedClose); }
                    return Err(SyntaxError::UnmatchedClose);
                }
                if opn {
                    proof { lemma_run_prefix_err(full, i as int, SyntaxError::EmptyParens); }
                    return Err(SyntaxError::EmptyParens);
                }
                depth = depth - 1;
                val = true;
                op = false;
                not_l = false;
                opn = false;
            },
            Token::True | Token::False | Token::Var(_) => {
                if val {
                    proof { lemma_run_prefix_err(full, i as int, SyntaxError::TwoValues); }
                    return Err(SyntaxError::TwoValues);
                }
                val = true;
                op = false;
                not_l = false;
                opn = false;
            },
        }
        i = i + 1;
    }
    proof {
        assert(full.take(i as int) =~= full);
    }
    if op || !val {
        return Err(SyntaxError::MissingValueAtEnd);
    }
    if depth != 0 {
        return Err(SyntaxError::Unbalanced);
    }
    Ok(())
}

/// The state of the pass after `i` tokens of `ts`, assuming no violation
/// so far: the depth is the paren balance of the prefix, and the flags
/// describe the token just read.
pub open spec fn state_at(ts: Seq<Token>, i: int) -> VState {
    VState {
        depth: depth_at(ts, i),
        val: i > 0 && (is_value(ts[i - 1]) || ts[i - 1] == Token::ParClose),
        op: i > 0 && is_binop(ts[i - 1]),
        not: i > 0 && ts[i - 1] == Token::Not,
        opn: i > 0 && ts[i - 1] == Token::ParOpen,
    }
}

/// When the pass accepts the first `i` tokens, it is in `state_at(ts, i)`,
/// and the nesting depth there is never negative.
pub proof fn lemma_state_at(ts: Seq<Token>, i: int)
    requires
        0 <= i <= ts.len(),
        run_from(init_state(), ts.take(i)) is Ok,
    ensures
        run_from(init_state(), ts.take(i)) == Ok::<VState, SyntaxError>(state_at(ts, i)),
        depth_at(ts, i) >= 0,
    decreases i,
{
    if i == 0 {
        assert(ts.take(0) =~= Seq::<Token>::empty());
    } else {
        lemma_run_split(init_state(), ts.take(i), i - 1);
        assert(ts.take(i).take(i - 1) =~= ts.take(i - 1));
        lemma_state_at(ts, i - 1);
        lemma_run_snoc(init_state(), ts.take(i));
        assert(ts.take(i).drop_last() =~= ts.take(i - 1));
        assert(ts.take(i).last() == ts[i - 1]);
    }
}

/// A prefix of an accepted run is itself accepted.
pub proof fn lemma_prefix_ok(ts: Seq<Token>, i: int)
    requires
        0 <= i <= ts.len(),
        run_from(init_state(), ts) is Ok,
    ensures
        run_from(init_state(), ts.take(i)) is Ok,
{
    lemma_run_split(init_state(), ts, i);
}

/// From a state at depth zero that has just read an operator or an opening
/// parenthesis, the pass accepts exactly the sequences it accepts from the
/// start state, and ends in the same state. (The one token the two states
/// treat differently, a closing parenthesis, is rejected from both.)
pub proof fn lemma_run_init_like(s1: VState, ts: Seq<Token>)
    requires
        s1.depth == 0,
        !s1.val,
        s1.op || s1.not || s1.opn,
        ts.len() >= 1,
    ensures
        run_from(s1, ts) is Ok <==> run_from(init_state(), ts) is Ok,
        run_from(s1, ts) is Ok ==> run_from(s1, ts) == run_from(init_state(), ts),
{
    match step(s1, ts[0]) {
        Ok(n1) => {
            assert(step(init_state(), ts[0]) == Ok::<VState, SyntaxError>(n1));
        },
        Err(e) => {
            assert(step(init_state(), ts[0]) is Err);
        },
    }
}

/// Lowering the starting depth by one does not disturb an accepted run,
/// provided the depth before every closing parenthesis stays above one.
pub proof fn lemma_shift_down(st: VState, ts: Seq<Token>)
    requires
        run_from(st, ts) is Ok,
        st.depth >= 1,
        forall|i: int|
            0 <= i < ts.len() && ts[i] == Token::ParClose ==> st.depth + depth_at(ts, i) >= 2,
    ensures
        run_from(VState { depth: st.depth - 1, ..st }, ts) == Ok::<VState, SyntaxError>(
            VState { depth: run_from(st, ts)->Ok_0.depth - 1, ..run_from(st, ts)->Ok_0 },
        ),
    decreases ts.len(),
{
    if ts.len() == 0 {
    } else {
        let st1 = VState { depth: st.depth - 1, ..st };
        assert(depth_at(ts, 0) == 0);
        match step(st, ts[0]) {
            Ok(st2) => {
                let st2l = VState { depth: st2.depth - 1, ..st2 };
                assert(step(st1, ts[0]) == Ok::<VState, SyntaxError>(st2l));
                assert forall|i: int|
                    0 <= i < ts.skip(1).len() && ts.skip(1)[i] == Token::ParClose implies st2.depth
                    + depth_at(ts.skip(1), i) >= 2 by {
                    lemma_depth_at_skip(ts, 1, i);
                    assert(ts.skip(1)[i] == ts[i + 1]);
                    assert(depth_at(ts, i + 1) == depth_at(ts, 1) + depth_at(ts.skip(1), i));
                    assert(st2.depth == st.depth + depth_at(ts, 1));
                };
                assert(st2.depth >= 1) by {
                    if ts[0] == Token::ParClose {
                        assert(st.depth + depth_at(ts, 0) >= 2);
                    }
                };
                lemma_shift_down(st2, ts.skip(1));
            },
            Err(e) => {},
        }
    }
}

/// Raising the starting depth by one does not disturb an accepted run.
pub proof fn lemma_shift_up(st: VState, ts: Seq<Token>)
    requires
        run_from(st, ts) is Ok,
    ensures
        run_from(VState { depth: st.depth + 1, ..st }, ts) == Ok::<VState, SyntaxError>(
            VState { depth: run_from(st, ts)->Ok_0.depth + 1, ..run_from(st, ts)->Ok_0 },
        ),
    decreases ts.len(),
{
    if ts.len() == 0 {
    } else {
        let st1 = VState { depth: st.depth + 1, ..st };
        match step(st, ts[0]) {
            Ok(st2) => {
                let st2u = VState { depth: st2.depth + 1, ..st2 };
                assert(step(st1, ts[0]) == Ok::<VState, SyntaxError>(st2u));
                lemma_shift_up(st2, ts.skip(1));
            },
            Err(e) => {},
        }
    }
}

/// Two states differing only in the opening-parenthesis flag agree on any
/// sequence that does not start with a closing parenthesis.
pub proof fn lemma_opn_flag(s1: VState, s2: VState, ts: Seq<Token>)
    requires
        s2 == (VState { opn: s2.opn, ..s1 }),
        ts.len() >= 1,
        ts[0] != Token::ParClose,
    ensures
        run_from(s1, ts) == run_from(s2, ts),
{
    match step(s1, ts[0]) {
        Ok(n1) => {
            assert(step(s2, ts[0]) == Ok::<VState, SyntaxError>(n1));
        },
        Err(e) => {
            assert(step(s2, ts[0]) == Err::<VState, SyntaxError>(e));
        },
    }
}

/// Depth within a suffix, translated to depth within the whole sequence.
pub proof fn lemma_depth_at_skip(ts: Seq<Token>, k: int, i: int)
    requires
        0 <= k <= ts.len(),
        0 <= i,
        k + i <= ts.len(),
    ensures
        depth_at(ts.skip(k), i) == depth_at(ts, k + i) - depth_at(ts, k),
    decreases i,
{
    if i > 0 {
        lemma_depth_at_skip(ts, k, i - 1);
        assert(ts.skip(k)[i - 1] == ts[k + i - 1]);
    }
}

/// Depth within a prefix equals depth within the whole sequence.
pub proof fn lemma_depth_at_take(ts: Seq<Token>, k: int, i: int)
    requires
        0 <= i <= k <= ts.len(),
    ensures
        depth_at(ts.take(k), i) == depth_at(ts, i),
    decreases i,
{
    if i > 0 {
        lemma_depth_at_take(ts, k, i - 1);
        assert(ts.take(k)[i - 1] == ts[i - 1]);
    }
}

/// Running the pass over a sequence with its last token split off: first
/// the prefix, then one more step.
pub proof fn lemma_run_snoc(st: VState, ts: Seq<Token>)
    requires
        ts.len() >= 1,
    ensures
        run_from(st, ts) == (match run_from(st, ts.drop_last()) {
            Ok(m) => step(m, ts.last()),
            Err(e) => Err(e),
        }),
    decreases ts.len(),
{
    reveal_with_fuel(run_from, 3);
    if ts.len() == 1 {
        assert(ts.drop_last() =~= Seq::<Token>::empty());
        match step(st, ts[0]) {
            Ok(st2) => {
                assert(ts.skip(1) =~= Seq::<Token>::empty());
            },
            Err(e) => {},
        }
    } else {
        assert(ts.drop_last().len() == ts.len() - 1);
        assert(ts.drop_last()[0] == ts[0]);
        match step(st, ts[0]) {
            Ok(st2) => {
                lemma_run_snoc(st2, ts.skip(1));
                assert(ts.skip(1).drop_last() =~= ts.drop_last().skip(1));
                assert(ts.skip(1).last() == ts.last());
                assert(run_from(st, ts) == run_from(st2, ts.skip(1)));
                assert(run_from(st, ts.drop_last()) == run_from(st2, ts.drop_last().skip(1)));
                assert(run_from(st2, ts.skip(1)) == (match run_from(
                    st2,
                    ts.skip(1).drop_last(),
                ) {
                    Ok(m) => step(m, ts.skip(1).last()),
                    Err(e) => Err(e),
                }));
            },
            Err(e) => {
                assert(run_from(st, ts) == Err::<VState, SyntaxError>(e));
                assert(run_from(st, ts.drop_last()) == Err::<VState, SyntaxError>(e));
            },
        }
    }
}

/// If one step of the pass fails at position `i`, the whole pass reports
/// that failure.
pub proof fn lemma_run_prefix_err(ts: Seq<Token>, i: int, e: SyntaxError)
    requires
        0 <= i < ts.len(),
        run_from(init_state(), ts.take(i)) matches Ok(m) && step(m, ts[i]) == Err::<VState,
            SyntaxError,
        >(e),
    ensures
        run_from(init_state(), ts) == Err::<VState, SyntaxError>(e),
        check_spec(ts) == Err::<(), SyntaxError>(e),
{
    lemma_run_split(init_state(), ts, i);
    assert(ts.skip(i).len() > 0);
    assert(ts.skip(i)[0] == ts[i]);
}

/// Running the pass over `ts` equals running it over the first `i` tokens
/// and then over the rest.
pub proof fn lemma_run_split(st: VState, ts: Seq<Token>, i: int)
    requires
        0 <= i <= ts.len(),
    ensures
        run_from(st, ts) == (match run_from(st, ts.take(i)) {
            Ok(m) => run_from(m, ts.skip(i)),
            Err(e) => Err(e),
        }),
    decreases i,
{
    if i == 0 {
        assert(ts.take(0) =~= Seq::<Token>::empty());
        assert(ts.skip(0) =~= ts);
    } else {
        assert(ts.take(i)[0] == ts[0]);
        assert(ts.take(i).len() > 0);
        match step(st, ts[0]) {
            Ok(st2) => {
                lemma_run_split(st2, ts.skip(1), i - 1);
                assert(ts.take(i).skip(1) =~= ts.skip(1).take(i - 1));
                assert(ts.skip(i) =~= ts.skip(1).skip(i - 1));
            },
            Err(e) => {},
        }
    }
}

} // verus!
