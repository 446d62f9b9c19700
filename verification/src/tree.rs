//! The expression tree: one node per syntactic construct, with rendering,
//! evaluation under an assignment, and free-variable discovery.

use vstd::pervasive::unreached;
use vstd::prelude::*;

use crate::token::{Token, is_binop, is_value};

verus! {

broadcast use vstd::seq_lib::group_seq_properties, Seq::lemma_push_to_set_commute;


/// One node of an expression tree. Binary connectives own both children,
/// `Not` owns only a right child, constants and variables own none.
#[derive(Debug)]
pub struct Node {
    pub token: Token,
    pub lhs: Option<Box<Node>>,
    pub rhs: Option<Box<Node>>,
}

/// A variable binding list: (variable, value) pairs; the first pair for a
/// variable wins.
pub open spec fn lookup(vars: Seq<(char, bool)>, c: char) -> Option<bool>
    decreases vars.len(),
{
    if vars.len() <= 0 {
        None
    } else if vars[0].0 == c {
        Some(vars[0].1)
    } else {
        lookup(vars.skip(1), c)
    }
}

/// Whether `c` has a binding in `vars`.
pub open spec fn is_bound(vars: Seq<(char, bool)>, c: char) -> bool {
    lookup(vars, c) is Some
}

impl Node {
    /// Structural invariant: the children a node owns are exactly those its
    /// operator calls for, and parentheses never appear as node operators.
    pub open spec fn wf(self) -> bool
        decreases self,
    {
        &&& (is_binop(self.token) ==> {
            &&& self.lhs matches Some(l) && l.wf()
            &&& self.rhs matches Some(r) && r.wf()
        })
        &&& (self.token == Token::Not ==> {
            &&& self.lhs is None
            &&& self.rhs matches Some(r) && r.wf()
        })
        &&& (is_value(self.token) ==> self.lhs is None && self.rhs is None)
        &&& (is_binop(self.token) || self.token == Token::Not || is_value(self.token))
    }

    /// The set of variables occurring in the tree.
    pub open spec fn vars_of(self) -> Set<char>
        decreases self,
    {
        (match self.token {
            Token::Var(c) => Set::<char>::empty().insert(c),
            _ => Set::<char>::empty(),
        }).union(
            match self.lhs {
                Some(l) => l.vars_of(),
                None => Set::<char>::empty(),
            },
        ).union(
            match self.rhs {
                Some(r) => r.vars_of(),
                None => Set::<char>::empty(),
            },
        )
    }

    /// The boolean value of the tree under a binding list, assuming every
    /// variable of the tree is bound.
    pub open spec fn eval_spec(self, vars: Seq<(char, bool)>) -> bool
        decreases self,
    {
        match self.token {
            Token::And => opt_eval(self.lhs, vars) && opt_eval(self.rhs, vars),
            Token::Or => opt_eval(self.lhs, vars) || opt_eval(self.rhs, vars),
            Token::Not => !opt_eval(self.rhs, vars),
            Token::If => !opt_eval(self.lhs, vars) || opt_eval(self.rhs, vars),
            Token::Iff => opt_eval(self.lhs, vars) == opt_eval(self.rhs, vars),
            Token::True => true,
            Token::False => false,
            Token::Var(c) => match lookup(vars, c) {
                Some(b) => b,
                None => arbitrary(),
            },
            _ => arbitrary(),
        }
    }

    /// The fully parenthesized rendering: each present child in
    /// parentheses, the node's display character between spaces.
    pub open spec fn render_spec(self) -> Seq<char>
        decreases self,
    {
        (match self.lhs {
            Some(l) => seq!['('] + l.render_spec() + seq![')'],
            None => Seq::<char>::empty(),
        }) + seq![' ', self.token.tos_spec(), ' '] + (match self.rhs {
            Some(r) => seq!['('] + r.render_spec() + seq![')'],
            None => Seq::<char>::empty(),
        })
    }

    /// Render the tree to its fully parenthesized textual form.
    pub fn coll(&self) -> (s: String)
        ensures
            s@ == self.render_spec(),
    {
        let cs = self.render_chars();
        chars_to_string(&cs)
    }

    /// Render the tree as a character sequence.
    fn render_chars(&self) -> (cs: Vec<char>)
        ensures
            cs@ == self.render_spec(),
        decreases *self,
    {
        let mut cs: Vec<char> = Vec::new();
        match &self.lhs {
            Some(l) => {
                cs.push('(');
                let mut lcs = l.render_chars();
                cs.append(&mut lcs);
                cs.push(')');
            },
            None => {},
        }
        cs.push(' ');
        cs.push(self.token.tos());
        cs.push(' ');
        match &self.rhs {
            Some(r) => {
                cs.push('(');
                let mut rcs = r.render_chars();
                cs.append(&mut rcs);
                cs.push(')');
            },
            None => {},
        }
        proof {
            assert(cs@ =~= self.render_spec());
        }
        cs
    }

    /// Evaluate the tree under a binding list that covers every variable
    /// in the tree.
    pub fn eval(&self, vars: &Vec<(char, bool)>) -> (r: bool)
        requires
            self.wf(),
            forall|c: char| self.vars_of().contains(c) ==> is_bound(vars@, c),
        ensures
            r == self.eval_spec(vars@),
        decreases *self,
    {
        match self.token {
            Token::And => {
                match (&self.lhs, &self.rhs) {
                    (Some(l), Some(r)) => {
                        let lv = l.eval(vars);
                        let rv = r.eval(vars);
                        lv && rv
                    },
                    _ => unreached(),
                }
            },
            Token::Or => {
                match (&self.lhs, &self.rhs) {
                    (Some(l), Some(r)) => {
                        let lv = l.eval(vars);
                        let rv = r.eval(vars);
                        lv || rv
                    },
                    _ => unreached(),
                }
            },
            Token::Not => {
                match &self.rhs {
                    Some(r) => !r.eval(vars),
                    None => unreached(),
                }
            },
            Token::If => {
                match (&self.lhs, &self.rhs) {
                    (Some(l), Some(r)) => {
                        let lv = l.eval(vars);
                        let rv = r.eval(vars);
                        if !lv {
                            true
                        } else {
                            rv
                        }
                    },
                    _ => unreached(),
                }
            },
            Token::Iff => {
                match (&self.lhs, &self.rhs) {
                    (Some(l), Some(r)) => {
                        let lv = l.eval(vars);
                        let rv = r.eval(vars);
                        lv == rv
                    },
                    _ => unreached(),
                }
            },
            Token::True => true,
            Token::False => false,
            Token::Var(c) => {
                assert(self.vars_of().contains(c));
                match lookup_var(vars, c) {
                    Some(b) => b,
                    None => unreached(),
                }
            },
            Token::ParOpen | Token::ParClose => unreached(),
        }
    }

    /// The variables the traversal discovers: the node's own variable
    /// first if it is unbound and new, then those of the left subtree,
    /// then those of the right.
    pub open spec fn discovered(self, vars: Seq<(char, bool)>, acc: Seq<char>) -> Seq<char>
        decreases self,
    {
        let acc1 = match self.token {
            Token::Var(c) => if !is_bound(vars, c) && !acc.contains(c) {
                acc.push(c)
            } else {
                acc
            },
            _ => acc,
        };
        let acc2 = opt_discovered(self.lhs, vars, acc1);
        opt_discovered(self.rhs, vars, acc2)
    }

    /// Add to `unks` every variable of the tree that `vars` leaves
    /// unbound and that `unks` does not already hold, in discovery order.
    pub fn unknowns(&self, vars: &Vec<(char, bool)>, unks: &mut Vec<char>)
        ensures
            final(unks)@ == self.discovered(vars@, old(unks)@),
            final(unks)@.to_set() == old(unks)@.to_set().union(
                self.vars_of().difference(bound_set(vars@)),
            ),
            old(unks)@.no_duplicates() ==> final(unks)@.no_duplicates(),
        decreases *self,
    {
        match self.token {
            Token::Var(c) => {
                if lookup_var(vars, c).is_none() && !contains_char(unks, c) {
                    unks.push(c);
                }
            },
            _ => {},
        }
        match &self.lhs {
            Some(l) => l.unknowns(vars, unks),
            None => {},
        }
        match &self.rhs {
            Some(r) => r.unknowns(vars, unks),
            None => {},
        }
        proof {
            assert(final(unks)@.to_set() =~= old(unks)@.to_set().union(
                self.vars_of().difference(bound_set(vars@)),
            ));
        }
    }

    /// The variables of the tree with no binding in `vars`, without
    /// duplicates, in discovery order.
    pub fn unknown_vars(&self, vars: &Vec<(char, bool)>) -> (unks: Vec<char>)
        ensures
            unks@ == self.discovered(vars@, Seq::<char>::empty()),
            unks@.to_set() == self.vars_of().difference(bound_set(vars@)),
            unks@.no_duplicates(),
    {
        let mut unks: Vec<char> = Vec::new();
        self.unknowns(vars, &mut unks);
        proof {
            assert(unks@.to_set() =~= self.vars_of().difference(bound_set(vars@)));
        }
        unks
    }
}

/// Value of an optional child node, where there is one.
pub open spec fn opt_eval(ch: Option<Box<Node>>, vars: Seq<(char, bool)>) -> bool
    decreases ch,
{
    match ch {
        Some(n) => n.eval_spec(vars),
        None => arbitrary(),
    }
}

/// The variables an optional child's traversal discovers.
pub open spec fn opt_discovered(
    ch: Option<Box<Node>>,
    vars: Seq<(char, bool)>,
    acc: Seq<char>,
) -> Seq<char>
    decreases ch,
{
    match ch {
        Some(n) => n.discovered(vars, acc),
        None => acc,
    }
}

/// The set of variables a binding list binds.
pub open spec fn bound_set(vars: Seq<(char, bool)>) -> Set<char> {
    Set::new(|c: char| is_bound(vars, c))
}

/// Look up the first binding of `c` in the list.
pub fn lookup_var(vars: &Vec<(char, bool)>, c: char) -> (r: Option<bool>)
    ensures
        r == lookup(vars@, c),
{
    let mut i: usize = 0;
    while i < vars.len()
        invariant
            0 <= i <= vars.len(),
            lookup(vars@, c) == lookup(vars@.skip(i as int), c),
        decreases vars.len() - i,
    {
        let (v, b) = vars[i];
        proof {
            assert(vars@.skip(i as int)[0] == vars@[i as int]);
            assert(vars@.skip(i as int).skip(1) =~= vars@.skip(i as int + 1));
        }
        if v == c {
            return Some(b);
        }
        i = i + 1;
    }
    proof {
        assert(vars@.skip(i as int).len() == 0);
    }
    None
}

/// Whether the list already holds `c`.
fn contains_char(v: &Vec<char>, c: char) -> (r: bool)
    ensures
        r == v@.contains(c),
{
    let mut i: usize = 0;
    while i < v.len()
        invariant
            0 <= i <= v.len(),
            forall|j: int| 0 <= j < i ==> v@[j] != c,
        decreases v.len() - i,
    {
        if v[i] == c {
            return true;
        }
        i = i + 1;
    }
    false
}

/// Relies on `core::iter::Iterator::collect` for `String` from a character
/// iterator: the string holds exactly the given characters, in order.
#[verifier::external_body]
fn chars_to_string(cs: &Vec<char>) -> (s: String)
    ensures
        s@ == cs@,
{
    cs.iter().collect()
}

} // verus!
