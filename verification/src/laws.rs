//! The law relating rendering and parsing: the fully parenthesized form
//! of a well-formed tree is itself a validated token sequence, and
//! parsing it yields the very same tree.

use vstd::prelude::*;

use crate::builder::{
    base_prec, is_split, lemma_split_unique, lemma_step_ok, lemma_valid_nonempty, parses, score,
    scored, wrapped,
};
use crate::syntax::{
    SyntaxError, VState, depth_at, end_check, init_state, lemma_depth_at_skip, lemma_depth_at_take,
    lemma_opn_flag, lemma_prefix_ok, lemma_run_split, lemma_shift_up, lemma_state_at, run_from,
    state_at, step, valid_tokens,
};
use crate::token::{Token, is_binop, is_value};
use crate::tree::Node;

verus! {

/// The token sequence of a tree's fully parenthesized rendering, read
/// with the tokenizer's own input symbols for the connectives (the
/// renderer's display symbols differ for And, Or, Implies and Iff): each
/// present child in parentheses around the node's own token.
pub open spec fn ptoks(t: Node) -> Seq<Token>
    decreases t,
{
    (match t.lhs {
        Some(l) => group(ptoks(*l)),
        None => Seq::<Token>::empty(),
    }) + seq![t.token] + (match t.rhs {
        Some(r) => group(ptoks(*r)),
        None => Seq::<Token>::empty(),
    })
}

/// A token sequence wrapped in one parenthesis pair.
pub open spec fn group(a: Seq<Token>) -> Seq<Token> {
    seq![Token::ParOpen] + a + seq![Token::ParClose]
}

/// In a validated sequence the nesting depth never goes negative.
pub proof fn lemma_valid_depths(a: Seq<Token>)
    requires
        valid_tokens(a),
    ensures
        forall|i: int| 0 <= i <= a.len() ==> depth_at(a, i) >= 0,
        depth_at(a, a.len() as int) == 0,
{
    assert forall|i: int| 0 <= i <= a.len() implies depth_at(a, i) >= 0 by {
        lemma_prefix_ok(a, i);
        lemma_state_at(a, i);
    };
    assert(a.take(a.len() as int) =~= a);
    lemma_state_at(a, a.len() as int);
}

/// A validated sequence opens with a value, a `Not` or an opening
/// parenthesis.
pub proof fn lemma_valid_first(a: Seq<Token>)
    requires
        valid_tokens(a),
    ensures
        a.len() >= 1,
        !is_binop(a[0]),
        a[0] != Token::ParClose,
{
    lemma_valid_nonempty(a);
    lemma_prefix_ok(a, 1);
    lemma_step_ok(a, 0);
    assert(state_at(a, 0) == init_state());
}

/// The depth profile of a parenthesized group around a validated
/// sequence: zero outside, positive strictly inside.
pub proof fn lemma_group_depths(a: Seq<Token>)
    requires
        valid_tokens(a),
    ensures
        group(a).len() == a.len() + 2,
        forall|i: int| 1 <= i <= a.len() + 1 ==> depth_at(group(a), i) == 1 + depth_at(a, i - 1),
        forall|i: int| 1 <= i <= a.len() + 1 ==> depth_at(group(a), i) >= 1,
        depth_at(group(a), group(a).len() as int) == 0,
        wrapped(group(a)),
        group(a).subrange(1, group(a).len() - 1) == a,
{
    let g = group(a);
    let la = a.len() as int;
    lemma_valid_depths(a);
    lemma_valid_nonempty(a);
    assert(g[0] == Token::ParOpen);
    assert(g[g.len() - 1] == Token::ParClose);
    assert(depth_at(g, 0) == 0);
    assert(depth_at(g, 1) == 1);
    assert(g.skip(1).take(la) =~= a);
    assert forall|i: int| 1 <= i <= la + 1 implies depth_at(g, i) == 1 + depth_at(a, i - 1) by {
        lemma_depth_at_skip(g, 1, i - 1);
        lemma_depth_at_take(g.skip(1), la, i - 1);
    };
    assert(depth_at(g, la + 2) == depth_at(g, la + 1) + crate::syntax::delta(g[la + 1]));
    assert(depth_at(g, la + 1) == 1 + depth_at(a, la));
    assert(depth_at(g, la + 2) == 0);
    assert(g.subrange(1, g.len() - 1) =~= a);
}

/// Running the pass over a parenthesized group around a validated
/// sequence, from a depth-zero state that may accept an opening
/// parenthesis: it ends having just read a value.
pub proof fn lemma_run_paren_group(s0: VState, a: Seq<Token>)
    requires
        valid_tokens(a),
        !s0.val,
        s0.depth == 0,
    ensures
        run_from(s0, group(a)) == Ok::<VState, SyntaxError>(
            VState { depth: 0, val: true, op: false, not: false, opn: false },
        ),
{
    reveal_with_fuel(run_from, 3);
    let g = group(a);
    let la = a.len() as int;
    lemma_valid_nonempty(a);
    lemma_valid_first(a);
    lemma_valid_depths(a);
    let s1 = VState { depth: 1, val: false, op: false, not: false, opn: true };
    assert(g[0] == Token::ParOpen);
    assert(step(s0, Token::ParOpen) == Ok::<VState, SyntaxError>(
        VState { depth: s0.depth + 1, val: false, op: false, not: false, opn: true },
    ));
    assert(run_from(s0, g) == run_from(s1, g.skip(1)));
    // the validated sequence runs to an accepting state, and ends on a
    // value or a closing parenthesis
    assert(a.take(la) =~= a);
    lemma_state_at(a, la);
    let fa = state_at(a, la);
    assert(run_from(init_state(), a) == Ok::<VState, SyntaxError>(fa));
    assert(end_check(fa) is Ok);
    assert(fa.val && !fa.op && fa.depth == 0);
    assert(!fa.not && !fa.opn);
    // lift the run into the parentheses
    lemma_shift_up(init_state(), a);
    let s1n = VState { depth: 1, val: false, op: false, not: false, opn: false };
    assert(run_from(s1n, a) == Ok::<VState, SyntaxError>(VState { depth: 1, ..fa }));
    lemma_opn_flag(s1, s1n, a);
    assert(run_from(s1, a) == Ok::<VState, SyntaxError>(VState { depth: 1, ..fa }));
    // after the group's inner part comes the closing parenthesis
    lemma_run_split(s1, g.skip(1), la);
    assert(g.skip(1).take(la) =~= a);
    assert(g.skip(1).skip(la) =~= seq![Token::ParClose]);
    let mid = VState { depth: 1, ..fa };
    assert(run_from(mid, seq![Token::ParClose]) == Ok::<VState, SyntaxError>(
        VState { depth: 0, val: true, op: false, not: false, opn: false },
    )) by {
        assert(seq![Token::ParClose][0] == Token::ParClose);
        assert(seq![Token::ParClose].skip(1) =~= Seq::<Token>::empty());
    };
}

/// The round-trip law at a `Not` node, given it for the child.
#[verifier::rlimit(50)]
proof fn lemma_round_trip_not(t: Node)
    requires
        t.wf(),
        t.token == Token::Not,
        t.rhs matches Some(r) && valid_tokens(ptoks(*r)) && parses(ptoks(*r), *r),
    ensures
        valid_tokens(ptoks(t)),
        parses(ptoks(t), t),
{
    reveal_with_fuel(run_from, 3);
    let ts = ptoks(t);
    let r = t.rhs->0;
    let a = ptoks(*r);
    let la = a.len() as int;
    lemma_valid_nonempty(a);
    lemma_valid_depths(a);
    lemma_group_depths(a);
    assert(ts =~= seq![Token::Not] + group(a));
    assert(ts.len() == la + 3);
    // validated: a `Not`, then the group
    let s_not = VState { depth: 0, val: false, op: false, not: true, opn: false };
    assert(step(init_state(), Token::Not) == Ok::<VState, SyntaxError>(s_not));
    assert(ts[0] == Token::Not);
    assert(ts.skip(1) =~= group(a));
    lemma_run_paren_group(s_not, a);
    assert(valid_tokens(ts));
    // the split is the leading Not
    assert(depth_at(ts, 0) == 0);
    assert(depth_at(ts, 1) == 0);
    assert forall|i: int| 1 <= i <= la + 2 implies depth_at(ts, i) == depth_at(
        group(a),
        i - 1,
    ) by {
        lemma_depth_at_skip(ts, 1, i - 1);
    };
    assert(scored(ts, 0));
    assert(score(ts, 0) == 5);
    assert forall|j: int| scored(ts, j) implies score(ts, j) >= 5 by {
        if j >= 1 {
            assert(ts[j] == group(a)[j - 1]);
            if 2 <= j <= la + 1 {
                assert(depth_at(ts, j) >= 1);
                assert(base_prec(ts[j]) >= 1);
                assert(score(ts, j) >= 11);
            } else {
                assert(ts[j] == Token::ParOpen || ts[j] == Token::ParClose);
            }
        }
    };
    assert(is_split(ts, 0));
    let q = choose|q: int| is_split(ts, q);
    lemma_split_unique(ts, q, 0);
    // not a single token, not a group
    assert(ts[0] != Token::ParOpen);
    assert(!wrapped(ts));
    // the part after the Not is the group, which strips to `a`
    assert(wrapped(group(a)));
    assert(group(a).subrange(1, group(a).len() - 1) == a);
    assert(parses(ts.skip(1), *r));
    assert(parses(ts, t));
}

/// The round-trip law at a binary node, given it for the children.
#[verifier::rlimit(50)]
proof fn lemma_round_trip_binop(t: Node)
    requires
        t.wf(),
        is_binop(t.token),
        t.lhs matches Some(l) && valid_tokens(ptoks(*l)) && parses(ptoks(*l), *l),
        t.rhs matches Some(r) && valid_tokens(ptoks(*r)) && parses(ptoks(*r), *r),
    ensures
        valid_tokens(ptoks(t)),
        parses(ptoks(t), t),
{
    reveal_with_fuel(run_from, 3);
    let ts = ptoks(t);
    let l = t.lhs->0;
    let r = t.rhs->0;
    let a = ptoks(*l);
    let b = ptoks(*r);
    let la = a.len() as int;
    let lb = b.len() as int;
    lemma_valid_nonempty(a);
    lemma_valid_nonempty(b);
    lemma_valid_depths(a);
    lemma_valid_depths(b);
    lemma_group_depths(a);
    lemma_group_depths(b);
    let ga = group(a);
    let gb = group(b);
    assert(ts =~= ga + seq![t.token] + gb);
    let p = la + 2;  // position of the operator
    assert(ts.len() == la + lb + 5);
    assert(ts[p] == t.token);
    // depth profile of the whole sequence
    assert(ts.take(p) =~= ga);
    assert forall|i: int| 0 <= i <= p implies depth_at(ts, i) == depth_at(ga, i) by {
        lemma_depth_at_take(ts, p, i);
        assert(depth_at(ts.take(p), i) == depth_at(ga, i));
    };
    assert(depth_at(ts, p) == 0);
    assert(ts.skip(p) =~= seq![t.token] + gb);
    assert forall|i: int| 0 <= i <= lb + 3 implies depth_at(ts, p + i) == depth_at(
        seq![t.token] + gb,
        i,
    ) by {
        lemma_depth_at_skip(ts, p, i);
    };
    assert((seq![t.token] + gb).skip(1) =~= gb);
    assert(depth_at(seq![t.token] + gb, 0) == 0);
    assert(depth_at(seq![t.token] + gb, 1) == 0);
    assert forall|i: int| 1 <= i <= lb + 3 implies depth_at(seq![t.token] + gb, i) == depth_at(
        gb,
        i - 1,
    ) by {
        lemma_depth_at_skip(seq![t.token] + gb, 1, i - 1);
    };
    // validated: the left group, the operator, the right group
    let g_end = VState { depth: 0, val: true, op: false, not: false, opn: false };
    lemma_run_paren_group(init_state(), a);
    lemma_run_split(init_state(), ts, p);
    assert(run_from(init_state(), ts.take(p)) == Ok::<VState, SyntaxError>(g_end));
    let s_op = VState { depth: 0, val: false, op: true, not: false, opn: false };
    assert(step(g_end, t.token) == Ok::<VState, SyntaxError>(s_op));
    assert(ts.skip(p)[0] == t.token);
    assert(ts.skip(p).skip(1) =~= gb);
    lemma_run_paren_group(s_op, b);
    assert(run_from(s_op, gb) == Ok::<VState, SyntaxError>(g_end));
    assert(run_from(g_end, ts.skip(p)) == Ok::<VState, SyntaxError>(g_end));
    assert(valid_tokens(ts));
    // the operator is the split point
    assert(scored(ts, p));
    assert(score(ts, p) == base_prec(t.token));
    assert(base_prec(t.token) <= 4);
    assert forall|j: int| j != p && scored(ts, j) implies score(ts, j) >= 11 by {
        if j < p {
            assert(ts[j] == ga[j]);
            assert(1 <= j <= la);
            assert(depth_at(ts, j) == depth_at(ga, j));
            assert(depth_at(ga, j) >= 1);
            assert(base_prec(ts[j]) >= 1);
        } else {
            assert(ts[j] == (seq![t.token] + gb)[j - p]);
            assert(ts[j] == gb[j - p - 1]);
            assert(p + 1 <= j <= p + lb + 2);
            assert(1 <= j - p - 1 + 1 <= lb + 1);
            assert(depth_at(ts, j) == depth_at(seq![t.token] + gb, j - p));
            assert(depth_at(ts, j) == depth_at(gb, j - p - 1 + 1 - 1));
            assert(depth_at(gb, j - p) >= 0);
            assert(1 <= j - p <= lb + 1);
            assert(depth_at(gb, j - p) >= 1);
            assert(base_prec(ts[j]) >= 1);
        }
    };
    assert(is_split(ts, p));
    let q = choose|q: int| is_split(ts, q);
    lemma_split_unique(ts, q, p);
    // not a single token, not one group: the depth at the operator is
    // zero strictly inside
    assert(!wrapped(ts)) by {
        if wrapped(ts) {
            assert(depth_at(ts, p) >= 1);
        }
    };
    // both parts are groups, which strip to the children's sequences
    assert(ts.take(p) == ga);
    assert(ts.skip(p + 1) =~= gb);
    assert(wrapped(ga));
    assert(ga.subrange(1, ga.len() - 1) == a);
    assert(wrapped(gb));
    assert(gb.subrange(1, gb.len() - 1) == b);
    assert(parses(ts.take(p), *l));
    assert(parses(ts.skip(p + 1), *r));
    assert(parses(ts, t));
}

/// The law of rendering and re-parsing: for a well-formed tree, the
/// token sequence of its fully parenthesized rendering is validated, and
/// the builder's parse of that sequence is the tree itself.
pub proof fn lemma_render_round_trip(t: Node)
    requires
        t.wf(),
    ensures
        valid_tokens(ptoks(t)),
        parses(ptoks(t), t),
    decreases t,
{
    reveal_with_fuel(run_from, 3);
    let ts = ptoks(t);
    if is_value(t.token) {
        assert(t.lhs is None && t.rhs is None);
        assert(ts =~= seq![t.token]);
        assert(ts[0] == t.token);
        assert(ts.skip(1) =~= Seq::<Token>::empty());
        assert(valid_tokens(ts));
        assert(parses(ts, t));
    } else if t.token == Token::Not {
        let r = t.rhs->0;
        lemma_render_round_trip(*r);
        lemma_round_trip_not(t);
    } else {
        assert(is_binop(t.token));
        let l = t.lhs->0;
        let r = t.rhs->0;
        lemma_render_round_trip(*l);
        lemma_render_round_trip(*r);
        lemma_round_trip_binop(t);
    }
}

} // verus!
