//! The tautology checker: enumerate every assignment of the free
//! variables, holding the pre-supplied bindings fixed, and evaluate the
//! tree under each; stop at the first falsifying assignment.

use vstd::prelude::*;

use crate::tree::{Node, is_bound, lookup};

verus! {

broadcast use vstd::seq_lib::group_seq_properties;

/// Whether the tree evaluates to true under the fixed bindings extended
/// by every combination of values for the variables of `unks`.
pub open spec fn taut_from(t: Node, vars: Seq<(char, bool)>, unks: Seq<char>) -> bool
    decreases unks.len(),
{
    if unks.len() <= 0 {
        t.eval_spec(vars)
    } else {
        taut_from(t, vars.push((unks[0], false)), unks.skip(1)) && taut_from(
            t,
            vars.push((unks[0], true)),
            unks.skip(1),
        )
    }
}

/// Looking a variable up after appending a binding: an existing binding
/// still wins; the new pair answers only for its own variable.
pub proof fn lemma_lookup_push(vars: Seq<(char, bool)>, p: (char, bool), c: char)
    ensures
        lookup(vars.push(p), c) == (if lookup(vars, c) is Some {
            lookup(vars, c)
        } else if p.0 == c {
            Some(p.1)
        } else {
            None::<bool>
        }),
    decreases vars.len(),
{
    reveal_with_fuel(lookup, 3);
    if vars.len() == 0 {
        assert(vars.push(p)[0] == p);
        assert(vars.push(p).skip(1) =~= Seq::<(char, bool)>::empty());
    } else {
        assert(vars.push(p)[0] == vars[0]);
        assert(vars.push(p).skip(1) =~= vars.skip(1).push(p));
        lemma_lookup_push(vars.skip(1), p, c);
    }
}

/// The complete assignments the enumeration tries, in order, ending at
/// the first falsifying one. For each variable of `unks`, in order, the
/// value false is tried before true, so the variable listed last varies
/// fastest; a subtree is entered only while every assignment so far
/// evaluated to true.
pub open spec fn taken_rows(t: Node, vars: Seq<(char, bool)>, unks: Seq<char>) -> Seq<
    Seq<(char, bool)>,
>
    decreases unks.len(),
{
    if unks.len() <= 0 {
        seq![vars]
    } else {
        let left = taken_rows(t, vars.push((unks[0], false)), unks.skip(1));
        if !taut_from(t, vars.push((unks[0], false)), unks.skip(1)) {
            left
        } else {
            left + taken_rows(t, vars.push((unks[0], true)), unks.skip(1))
        }
    }
}

/// Copy a binding list.
pub fn copy_pairs(v: &Vec<(char, bool)>) -> (r: Vec<(char, bool)>)
    ensures
        r@ == v@,
{
    let mut r: Vec<(char, bool)> = Vec::new();
    let mut i: usize = 0;
    while i < v.len()
        invariant
            0 <= i <= v.len(),
            r@ == v@.take(i as int),
        decreases v.len() - i,
    {
        r.push(v[i]);
        proof {
            assert(v@.take(i as int).push(v@[i as int]) =~= v@.take(i as int + 1));
        }
        i = i + 1;
    }
    proof {
        assert(v@.take(v@.len() as int) =~= v@);
    }
    r
}

/// Try every assignment of the variables `unks[idx..]` on top of the
/// bindings in `vars`, recording each complete assignment tried, in
/// order, and stopping at the first falsifying one.
fn taut_rec(
    tree: &Node,
    vars: &mut Vec<(char, bool)>,
    unks: &Vec<char>,
    idx: usize,
    rows: &mut Vec<Vec<(char, bool)>>,
) -> (r: bool)
    requires
        tree.wf(),
        idx <= unks@.len(),
        forall|c: char|
            tree.vars_of().contains(c) ==> is_bound(old(vars)@, c) || unks@.skip(
                idx as int,
            ).contains(c),
    ensures
        final(vars)@ == old(vars)@,
        r == taut_from(*tree, old(vars)@, unks@.skip(idx as int)),
        final(rows)@.len() == old(rows)@.len() + taken_rows(
            *tree,
            old(vars)@,
            unks@.skip(idx as int),
        ).len(),
        forall|k: int| 0 <= k < old(rows)@.len() ==> final(rows)@[k] == old(rows)@[k],
        forall|k: int|
            old(rows)@.len() <= k < final(rows)@.len() ==> final(rows)@[k]@ == taken_rows(
                *tree,
                old(vars)@,
                unks@.skip(idx as int),
            )[k - old(rows)@.len()],
        forall|k: int|
            old(rows)@.len() <= k < final(rows)@.len() ==> final(rows)@[k]@.len() == old(vars)@.len()
                + (unks@.len() - idx),
    decreases unks@.len() - idx,
{
    if idx == unks.len() {
        proof {
            assert(unks@.skip(idx as int) =~= Seq::<char>::empty());
        }
        let row = copy_pairs(vars);
        rows.push(row);
        tree.eval(vars)
    } else {
        let c = unks[idx];
        proof {
            assert(unks@.skip(idx as int)[0] == unks@[idx as int]);
            assert(unks@.skip(idx as int).skip(1) =~= unks@.skip(idx as int + 1));
        }
        let ghost vars0 = vars@;
        vars.push((c, false));
        proof {
            lemma_cover_push(*tree, vars0, unks@, idx as int, false);
        }
        let r0 = taut_rec(tree, vars, unks, idx + 1, rows);
        vars.pop();
        proof {
            assert(vars0.push((c, false)).subrange(0, vars0.len() as int) =~= vars0);
        }
        if !r0 {
            return false;
        }
        vars.push((c, true));
        proof {
            lemma_cover_push(*tree, vars0, unks@, idx as int, true);
        }
        let r1 = taut_rec(tree, vars, unks, idx + 1, rows);
        vars.pop();
        proof {
            assert(vars0.push((c, true)).subrange(0, vars0.len() as int) =~= vars0);
        }
        r1
    }
}

/// Pushing a binding for the next free variable keeps every variable of
/// the tree covered.
proof fn lemma_cover_push(tree: Node, vars: Seq<(char, bool)>, unks: Seq<char>, idx: int, b: bool)
    requires
        0 <= idx < unks.len(),
        forall|c: char|
            tree.vars_of().contains(c) ==> is_bound(vars, c) || unks.skip(idx).contains(c),
    ensures
        forall|c: char|
            tree.vars_of().contains(c) ==> is_bound(vars.push((unks[idx], b)), c) || unks.skip(
                idx + 1,
            ).contains(c),
{
    assert forall|c: char| tree.vars_of().contains(c) implies is_bound(
        vars.push((unks[idx], b)),
        c,
    ) || unks.skip(idx + 1).contains(c) by {
        lemma_lookup_push(vars, (unks[idx], b), c);
        if !is_bound(vars, c) {
            assert(unks.skip(idx).contains(c));
            let k = choose|k: int| 0 <= k < unks.skip(idx).len() && unks.skip(idx)[k] == c;
            if k == 0 {
                assert(c == unks[idx]);
            } else {
                assert(unks.skip(idx + 1)[k - 1] == unks.skip(idx)[k]);
                assert(unks.skip(idx + 1).contains(c));
            }
        }
    };
}

/// Decide whether the tree is a tautology over the free variables in
/// `unks`, holding the bindings of `vars` fixed. Also returns the
/// complete assignments tried, in order: enumeration stops at the first
/// falsifying one.
pub fn check_tautology(tree: &Node, vars: &Vec<(char, bool)>, unks: &Vec<char>) -> (res: (
    bool,
    Vec<Vec<(char, bool)>>,
))
    requires
        tree.wf(),
        forall|c: char| tree.vars_of().contains(c) ==> is_bound(vars@, c) || unks@.contains(c),
    ensures
        res.0 == taut_from(*tree, vars@, unks@),
        res.1@.len() == taken_rows(*tree, vars@, unks@).len(),
        forall|k: int| 0 <= k < res.1@.len() ==> res.1@[k]@ == taken_rows(*tree, vars@, unks@)[k],
        forall|k: int| 0 <= k < res.1@.len() ==> res.1@[k]@.len() == vars@.len() + unks@.len(),
{
    let mut work = copy_pairs(vars);
    let mut rows: Vec<Vec<(char, bool)>> = Vec::new();
    proof {
        assert(unks@.skip(0) =~= unks@);
    }
    let verdict = taut_rec(tree, &mut work, unks, 0, &mut rows);
    (verdict, rows)
}

/// The bindings extended by one value from `bs` for each variable of
/// `unks`, in order.
pub open spec fn with_assignment(
    vars: Seq<(char, bool)>,
    unks: Seq<char>,
    bs: Seq<bool>,
) -> Seq<(char, bool)>
    decreases unks.len(),
{
    if unks.len() <= 0 {
        vars
    } else {
        with_assignment(vars.push((unks[0], bs[0])), unks.skip(1), bs.skip(1))
    }
}

/// Law: the enumeration is exhaustive. The checker's verdict is true
/// exactly when the tree evaluates to true under the fixed bindings
/// extended by every possible assignment of the free variables.
pub proof fn lemma_taut_characterization(t: Node, vars: Seq<(char, bool)>, unks: Seq<char>)
    ensures
        taut_from(t, vars, unks) <==> (forall|bs: Seq<bool>|
            bs.len() == unks.len() ==> t.eval_spec(with_assignment(vars, unks, bs))),
    decreases unks.len(),
{
    if unks.len() <= 0 {
        assert forall|bs: Seq<bool>| bs.len() == unks.len() implies with_assignment(
            vars,
            unks,
            bs,
        ) == vars by {};
        if taut_from(t, vars, unks) {
            assert(forall|bs: Seq<bool>|
                bs.len() == unks.len() ==> t.eval_spec(with_assignment(vars, unks, bs)));
        } else {
            assert(!t.eval_spec(with_assignment(vars, unks, Seq::<bool>::empty())));
            assert(!(forall|bs: Seq<bool>|
                bs.len() == unks.len() ==> t.eval_spec(with_assignment(vars, unks, bs)))) by {
                if forall|bs: Seq<bool>|
                    bs.len() == unks.len() ==> t.eval_spec(with_assignment(vars, unks, bs)) {
                    let bs0 = Seq::<bool>::empty();
                    assert(bs0.len() == unks.len());
                    assert(t.eval_spec(with_assignment(vars, unks, bs0)));
                }
            };
        }
    } else {
        let u0 = unks[0];
        let rest = unks.skip(1);
        lemma_taut_characterization(t, vars.push((u0, false)), rest);
        lemma_taut_characterization(t, vars.push((u0, true)), rest);
        if taut_from(t, vars, unks) {
            assert forall|bs: Seq<bool>| bs.len() == unks.len() implies t.eval_spec(
                with_assignment(vars, unks, bs),
            ) by {
                assert(with_assignment(vars, unks, bs) == with_assignment(
                    vars.push((u0, bs[0])),
                    rest,
                    bs.skip(1),
                ));
                assert(bs.skip(1).len() == rest.len());
                if bs[0] {
                    assert(taut_from(t, vars.push((u0, true)), rest));
                    assert(t.eval_spec(with_assignment(vars.push((u0, true)), rest, bs.skip(1))));
                } else {
                    assert(taut_from(t, vars.push((u0, false)), rest));
                    assert(t.eval_spec(with_assignment(vars.push((u0, false)), rest, bs.skip(1))));
                }
            };
        } else {
            if !taut_from(t, vars.push((u0, false)), rest) {
                let bs = choose|bs: Seq<bool>|
                    bs.len() == rest.len() && !t.eval_spec(
                        with_assignment(vars.push((u0, false)), rest, bs),
                    );
                let full = seq![false] + bs;
                assert(full.len() == unks.len());
                assert(full[0] == false);
                assert(full.skip(1) =~= bs);
                assert(!t.eval_spec(with_assignment(vars, unks, full)));
                assert(!(forall|cs: Seq<bool>|
                    cs.len() == unks.len() ==> t.eval_spec(with_assignment(vars, unks, cs)))) by {
                    if forall|cs: Seq<bool>|
                        cs.len() == unks.len() ==> t.eval_spec(with_assignment(vars, unks, cs)) {
                        assert(t.eval_spec(with_assignment(vars, unks, full)));
                    }
                };
            } else {
                let bs = choose|bs: Seq<bool>|
                    bs.len() == rest.len() && !t.eval_spec(
                        with_assignment(vars.push((u0, true)), rest, bs),
                    );
                let full = seq![true] + bs;
                assert(full.len() == unks.len());
                assert(full[0] == true);
                assert(full.skip(1) =~= bs);
                assert(!t.eval_spec(with_assignment(vars, unks, full)));
                assert(!(forall|cs: Seq<bool>|
                    cs.len() == unks.len() ==> t.eval_spec(with_assignment(vars, unks, cs)))) by {
                    if forall|cs: Seq<bool>|
                        cs.len() == unks.len() ==> t.eval_spec(with_assignment(vars, unks, cs)) {
                        assert(t.eval_spec(with_assignment(vars, unks, full)));
                    }
                };
            }
        }
    }
}

/// Law: the tautology verdict is a function of the tree, the fixed
/// bindings and the free-variable list alone, so re-running the checker
/// on the same inputs always returns the same verdict.
pub proof fn lemma_tautology_idempotent(
    t: Node,
    vars: Seq<(char, bool)>,
    unks: Seq<char>,
    v1: bool,
    v2: bool,
)
    requires
        v1 == taut_from(t, vars, unks),
        v2 == taut_from(t, vars, unks),
    ensures
        v1 == v2,
{
}

} // verus!
