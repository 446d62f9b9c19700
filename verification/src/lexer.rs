//! The tokenizer: raw text to a token sequence.
//!
//! Characters are scanned left to right, whitespace skipped. A small
//! pending accumulator recognizes the multi-character operators `=>` and
//! `<=>`: a bare `<`, `<=` or `=` is held back until more characters
//! arrive; one still pending at the end of the input never became a
//! token and is rejected as an invalid character, reported at the index
//! where it began. A character that completes no token pattern is
//! reported by its own index.

use vstd::prelude::*;

use crate::token::{Token, is_var_char};

verus! {

/// Whitespace the tokenizer skips.
pub open spec fn is_ws(c: char) -> bool {
    c == ' ' || c == '\t' || c == '\n' || c == '\r'
}

/// The pending text holds exactly one character `c`.
pub open spec fn seq1(p: Seq<char>, c: char) -> bool {
    p.len() == 1 && p[0] == c
}

/// The single token the pending text `p` spells, if any.
pub open spec fn token_of(p: Seq<char>) -> Option<Token> {
    if p.len() == 3 && p[0] == '<' && p[1] == '=' && p[2] == '>' {
        Some(Token::Iff)
    } else if p.len() == 2 && p[0] == '=' && p[1] == '>' {
        Some(Token::If)
    } else if seq1(p, '!') {
        Some(Token::Not)
    } else if seq1(p, 'v') {
        Some(Token::Or)
    } else if seq1(p, '^') {
        Some(Token::And)
    } else if seq1(p, '1') {
        Some(Token::True)
    } else if seq1(p, '0') {
        Some(Token::False)
    } else if seq1(p, '(') {
        Some(Token::ParOpen)
    } else if seq1(p, ')') {
        Some(Token::ParClose)
    } else {
        None
    }
}

/// The pending text is an incomplete prefix of `=>` or `<=>`.
pub open spec fn is_prefix_pending(p: Seq<char>) -> bool {
    seq1(p, '<') || seq1(p, '=') || (p.len() == 2 && p[0] == '<' && p[1] == '=')
}

/// Prepend one token to a tokenizer outcome.
pub open spec fn cons_tok(t: Token, r: Result<Seq<Token>, int>) -> Result<Seq<Token>, int> {
    match r {
        Ok(rest) => Ok(seq![t] + rest),
        Err(e) => Err(e),
    }
}

/// What tokenizing from position `i` with pending text `pt` yields: the
/// remaining tokens, or the index of the first invalid character.
/// `pstart` is the index where the pending text began (meaningful only
/// while `pt` is not empty): a prefix still pending at the end of the
/// input never became a token and is rejected there.
pub open spec fn lex_from(s: Seq<char>, i: int, pt: Seq<char>, pstart: int) -> Result<
    Seq<Token>,
    int,
>
    decreases s.len() - i,
{
    if i < 0 || i >= s.len() {
        if pt.len() == 0 {
            Ok(Seq::empty())
        } else {
            Err(pstart)
        }
    } else {
        let c = s[i];
        if is_ws(c) {
            lex_from(s, i + 1, pt, pstart)
        } else {
            let p = pt.push(c);
            match token_of(p) {
                Some(t) => cons_tok(t, lex_from(s, i + 1, Seq::empty(), i + 1)),
                None => {
                    if is_prefix_pending(p) {
                        lex_from(s, i + 1, p, if pt.len() == 0 { i } else { pstart })
                    } else if p.len() == 1 && is_var_char(c) {
                        cons_tok(Token::Var(c), lex_from(s, i + 1, Seq::empty(), i + 1))
                    } else {
                        Err(i)
                    }
                },
            }
        }
    }
}

/// What tokenizing a whole text yields.
pub open spec fn lex_spec(s: Seq<char>) -> Result<Seq<Token>, int> {
    lex_from(s, 0, Seq::empty(), 0)
}

/// Prepend already-produced tokens to a tokenizer outcome.
pub open spec fn with_acc(acc: Seq<Token>, r: Result<Seq<Token>, int>) -> Result<
    Seq<Token>,
    int,
> {
    match r {
        Ok(rest) => Ok(acc + rest),
        Err(e) => Err(e),
    }
}

/// Moving one produced token from the outcome into the accumulator.
proof fn lemma_with_acc_cons(acc: Seq<Token>, t: Token, r: Result<Seq<Token>, int>)
    ensures
        with_acc(acc, cons_tok(t, r)) == with_acc(acc.push(t), r),
{
    match r {
        Ok(rest) => {
            assert(acc + (seq![t] + rest) =~= acc.push(t) + rest);
        },
        Err(e) => {},
    }
}

/// The states the pending text can take.
enum Pending {
    Empty,
    Lt,
    LtEq,
    Eq,
}

/// The pending text a `Pending` state stands for.
spec fn pend_view(p: Pending) -> Seq<char> {
    match p {
        Pending::Empty => Seq::empty(),
        Pending::Lt => seq!['<'],
        Pending::LtEq => seq!['<', '='],
        Pending::Eq => seq!['='],
    }
}

/// Convert a text into its token sequence, or report the index of the
/// first character that completes no token pattern.
pub fn tokenize(s: &str) -> (r: Result<Vec<Token>, usize>)
    ensures
        match r {
            Ok(v) => lex_spec(s@) == Ok::<Seq<Token>, int>(v@),
            Err(i) => lex_spec(s@) == Err::<Seq<Token>, int>(i as int),
        },
{
    let n = s.unicode_len();
    let mut acc: Vec<Token> = Vec::new();
    let mut pend = Pending::Empty;
    let mut pstart: usize = 0;
    let mut i: usize = 0;
    proof {
        assert(with_acc(acc@, lex_spec(s@)) == lex_spec(s@)) by {
            match lex_spec(s@) {
                Ok(rest) => {
                    assert(acc@ + rest =~= rest);
                },
                Err(e) => {},
            }
        };
    }
    while i < n
        invariant
            0 <= i <= n,
            n == s@.len(),
            lex_spec(s@) == with_acc(
                acc@,
                lex_from(s@, i as int, pend_view(pend), pstart as int),
            ),
        decreases n - i,
    {
        let ghost pv = pend_view(pend);
        let c = s.get_char(i);
        let ghost p = pv.push(c);
        if c == ' ' || c == '\t' || c == '\n' || c == '\r' {
            // whitespace: the pending text stays as it is
        } else {
            match pend {
                Pending::Empty => {
                    if c == '<' {
                        proof {
                            assert(p =~= pend_view(Pending::Lt));
                        }
                        pend = Pending::Lt;
                        pstart = i;
                    } else if c == '=' {
                        proof {
                            assert(p =~= pend_view(Pending::Eq));
                        }
                        pend = Pending::Eq;
                        pstart = i;
                    } else if c == '!' {
                        proof {
                            lemma_with_acc_cons(
                                acc@,
                                Token::Not,
                                lex_from(s@, i as int + 1, Seq::empty(), i as int + 1),
                            );
                        }
                        acc.push(Token::Not);
                        pstart = i + 1;
                    } else if c == 'v' {
                        proof {
                            lemma_with_acc_cons(
                                acc@,
                                Token::Or,
                                lex_from(s@, i as int + 1, Seq::empty(), i as int + 1),
                            );
                        }
                        acc.push(Token::Or);
                        pstart = i + 1;
                    } else if c == '^' {
                        proof {
                            lemma_with_acc_cons(
                                acc@,
                                Token::And,
                                lex_from(s@, i as int + 1, Seq::empty(), i as int + 1),
                            );
                        }
                        acc.push(Token::And);
                        pstart = i + 1;
                    } else if c == '1' {
                        proof {
                            lemma_with_acc_cons(
                                acc@,
                                Token::True,
                                lex_from(s@, i as int + 1, Seq::empty(), i as int + 1),
                            );
                        }
                        acc.push(Token::True);
                        pstart = i + 1;
                    } else if c == '0' {
                        proof {
                            lemma_with_acc_cons(
                                acc@,
                                Token::False,
                                lex_from(s@, i as int + 1, Seq::empty(), i as int + 1),
                            );
                        }
                        acc.push(Token::False);
                        pstart = i + 1;
                    } else if c == '(' {
                        proof {
                            lemma_with_acc_cons(
                                acc@,
                                Token::ParOpen,
                                lex_from(s@, i as int + 1, Seq::empty(), i as int + 1),
                            );
                        }
                        acc.push(Token::ParOpen);
                        pstart = i + 1;
                    } else if c == ')' {
                        proof {
                            lemma_with_acc_cons(
                                acc@,
                                Token::ParClose,
                                lex_from(s@, i as int + 1, Seq::empty(), i as int + 1),
                            );
                        }
                        acc.push(Token::ParClose);
                        pstart = i + 1;
                    } else if crate::token::is_var(c) {
                        proof {
                            lemma_with_acc_cons(
                                acc@,
                                Token::Var(c),
                                lex_from(s@, i as int + 1, Seq::empty(), i as int + 1),
                            );
                        }
                        acc.push(Token::Var(c));
                        pstart = i + 1;
                    } else {
                        proof {
                            assert(lex_from(s@, i as int, pv, pstart as int) == Err::<
                                Seq<Token>,
                                int,
                            >(i as int));
                        }
                        return Err(i);
                    }
                },
                Pending::Lt => {
                    if c == '=' {
                        proof {
                            assert(p =~= pend_view(Pending::LtEq));
                        }
                        pend = Pending::LtEq;
                    } else {
                        proof {
                            assert(lex_from(s@, i as int, pv, pstart as int) == Err::<
                                Seq<Token>,
                                int,
                            >(i as int));
                        }
                        return Err(i);
                    }
                },
                Pending::LtEq => {
                    if c == '>' {
                        proof {
                            lemma_with_acc_cons(
                                acc@,
                                Token::Iff,
                                lex_from(s@, i as int + 1, Seq::empty(), i as int + 1),
                            );
                        }
                        acc.push(Token::Iff);
                        pstart = i + 1;
                        pend = Pending::Empty;
                    } else {
                        proof {
                            assert(lex_from(s@, i as int, pv, pstart as int) == Err::<
                                Seq<Token>,
                                int,
                            >(i as int));
                        }
                        return Err(i);
                    }
                },
                Pending::Eq => {
                    if c == '>' {
                        proof {
                            lemma_with_acc_cons(
                                acc@,
                                Token::If,
                                lex_from(s@, i as int + 1, Seq::empty(), i as int + 1),
                            );
                        }
                        acc.push(Token::If);
                        pstart = i + 1;
                        pend = Pending::Empty;
                    } else {
                        proof {
                            assert(lex_from(s@, i as int, pv, pstart as int) == Err::<
                                Seq<Token>,
                                int,
                            >(i as int));
                        }
                        return Err(i);
                    }
                },
            }
        }
        i = i + 1;
    }
    match pend {
        Pending::Empty => {
            proof {
                assert(lex_from(s@, i as int, pend_view(pend), pstart as int) == Ok::<
                    Seq<Token>,
                    int,
                >(Seq::empty()));
                assert(acc@ + Seq::<Token>::empty() =~= acc@);
            }
            Ok(acc)
        },
        _ => {
            proof {
                assert(pend_view(pend).len() > 0);
                assert(lex_from(s@, i as int, pend_view(pend), pstart as int) == Err::<
                    Seq<Token>,
                    int,
                >(pstart as int));
            }
            Err(pstart)
        },
    }
}

} // verus!
