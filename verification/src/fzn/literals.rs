//! Literals, sets and arguments of the textual FlatZinc format.
use vstd::prelude::*;

use crate::intermediate::{lemma_views_push, views, float_pairs_view, Argument, Literal, SpecArgument, SpecLiteral};
use crate::lex::{after_sign, byte_at, char_end, float_end, ident_end, ignored_end, int_lit, is_ident_start, lemma_run_end, match_char, match_word, run_end, scan_float, scan_ident, scan_int, skip_ignored, word_end, Class, Word, find_byte, scan_to_byte, law_whitespace_skipped};
use crate::names::{grown, intern_spec, lemma_grown_refl, lemma_grown_trans, NameStore, Names};
use crate::text::{ascii_range, ascii_text, text_of, text_range};
use vstd::utf8::valid_utf8;

verus! {

/// Word `w` with the whitespace and comments around it.
pub open spec fn tok_word(s: Seq<u8>, p: int, w: Word) -> Option<int> {
    match word_end(s, ignored_end(s, p), w) {
        Some(e) => Some(ignored_end(s, e)),
        None => None,
    }
}

/// Byte `b` with the whitespace and comments around it.
pub open spec fn tok_char(s: Seq<u8>, p: int, b: u8) -> Option<int> {
    match char_end(s, ignored_end(s, p), b) {
        Some(e) => Some(ignored_end(s, e)),
        None => None,
    }
}

/// A space, tab, carriage return or line feed in front of a token changes
/// nothing: the word or byte is found, and read to the same end, as if it
/// were not there.
pub proof fn law_whitespace_before_token(s: Seq<u8>, p: int, w: Word, b: u8)
    requires
        0 <= p < s.len(),
        s[p] == 32 || s[p] == 9 || s[p] == 13 || s[p] == 10,
    ensures
        tok_word(s, p, w) == tok_word(s, p + 1, w),
        tok_char(s, p, b) == tok_char(s, p + 1, b),
{
    law_whitespace_skipped(s, p);
}

/// Match word `w` with the whitespace and comments around it.
pub fn tok_word_x(s: &[u8], p: usize, w: Word) -> (r: Option<usize>)
    requires
        p <= s@.len(),
    ensures
        r matches Some(e) ==> tok_word(s@, p as int, w) == Some(e as int) && p < e <= s@.len(),
        r is None ==> tok_word(s@, p as int, w) is None,
{
    let q = skip_ignored(s, p);
    match match_word(s, q, w) {
        Some(e) => Some(skip_ignored(s, e)),
        None => None,
    }
}

/// Match byte `b` with the whitespace and comments around it.
pub fn tok_char_x(s: &[u8], p: usize, b: u8) -> (r: Option<usize>)
    requires
        p <= s@.len(),
    ensures
        r matches Some(e) ==> tok_char(s@, p as int, b) == Some(e as int) && p < e <= s@.len(),
        r is None ==> tok_char(s@, p as int, b) is None,
{
    let q = skip_ignored(s, p);
    match match_char(s, q, b) {
        Some(e) => Some(skip_ignored(s, e)),
        None => None,
    }
}

/// An integer literal with the whitespace and comments around it.
pub open spec fn tok_int(s: Seq<u8>, p: int) -> Option<(i64, int)> {
    match int_lit(s, ignored_end(s, p)) {
        Some((v, e)) => Some((v, ignored_end(s, e))),
        None => None,
    }
}

/// A float literal, as its text, with the whitespace and comments around it.
pub open spec fn tok_float(s: Seq<u8>, p: int) -> Option<(Seq<char>, int)> {
    let q = ignored_end(s, p);
    match float_end(s, q) {
        Some(e) => Some((text_of(s, q, e), ignored_end(s, e))),
        None => None,
    }
}

pub proof fn lemma_float_ascii(s: Seq<u8>, p: int)
    requires
        0 <= p <= s.len(),
    ensures
        float_end(s, p) matches Some(e) ==> ascii_range(s, p, e) && p < e <= s.len(),
{
    let q = if byte_at(s, p, 45) { p + 1 } else { p };
    lemma_run_end(s, q, Class::Digit);
    let d = run_end(s, q, Class::Digit);
    if d < s.len() {
        lemma_run_end(s, d + 1, Class::Digit);
        let frac = run_end(s, d + 1, Class::Digit);
        if frac + 1 <= s.len() {
            lemma_run_end(s, frac + 1, Class::Digit);
            lemma_run_end(s, after_sign(s, frac + 1), Class::Digit);
        }
        lemma_run_end(s, after_sign(s, d + 1), Class::Digit);
    }
}

pub proof fn lemma_ident_ascii(s: Seq<u8>, p: int)
    requires
        0 <= p <= s.len(),
    ensures
        ident_end(s, p) matches Some(e) ==> ascii_range(s, p, e) && p < e <= s.len(),
{
    if p < s.len() && is_ident_start(s[p]) {
        lemma_run_end(s, p + 1, Class::IdentChar);
    }
}

/// Read an integer literal with the whitespace and comments around it.
pub fn tok_int_x(s: &[u8], p: usize) -> (r: Option<(i64, usize)>)
    requires
        p <= s@.len(),
    ensures
        r matches Some((v, e)) ==> tok_int(s@, p as int) == Some((v, e as int)) && p < e <= s@.len(),
        r is None ==> tok_int(s@, p as int) is None,
{
    let q = skip_ignored(s, p);
    match scan_int(s, q) {
        Some((v, e)) => Some((v, skip_ignored(s, e))),
        None => None,
    }
}

/// Read a float literal with the whitespace and comments around it.
pub fn tok_float_x(s: &[u8], p: usize) -> (r: Option<(String, usize)>)
    requires
        p <= s@.len(),
    ensures
        r matches Some((t, e)) ==> tok_float(s@, p as int) == Some((t@, e as int)) && p < e <= s@.len(),
        r is None ==> tok_float(s@, p as int) is None,
{
    let q = skip_ignored(s, p);
    match scan_float(s, q) {
        Some(e) => {
            proof {
                lemma_float_ascii(s@, q as int);
            }
            let t = ascii_text(s, q, e);
            Some((t, skip_ignored(s, e)))
        },
        None => None,
    }
}

/// An interval `a..b` of integers.
pub open spec fn interval_int(s: Seq<u8>, p: int) -> Option<((i64, i64), int)> {
    match tok_int(s, p) {
        Some((a, e1)) => match tok_word(s, e1, Word::DotDot) {
            Some(e2) => match tok_int(s, e2) {
                Some((b, e3)) => Some(((a, b), e3)),
                None => None,
            },
            None => None,
        },
        None => None,
    }
}

/// An interval `a..b` of floats, as their texts.
pub open spec fn interval_float(s: Seq<u8>, p: int) -> Option<((Seq<char>, Seq<char>), int)> {
    match tok_float(s, p) {
        Some((a, e1)) => match tok_word(s, e1, Word::DotDot) {
            Some(e2) => match tok_float(s, e2) {
                Some((b, e3)) => Some(((a, b), e3)),
                None => None,
            },
            None => None,
        },
        None => None,
    }
}

/// Read an interval of integers.
pub fn interval_int_x(s: &[u8], p: usize) -> (r: Option<((i64, i64), usize)>)
    requires
        p <= s@.len(),
    ensures
        r matches Some((v, e)) ==> interval_int(s@, p as int) == Some((v, e as int)) && p < e <= s@.len(),
        r is None ==> interval_int(s@, p as int) is None,
{
    let (a, e1) = match tok_int_x(s, p) {
        Some(x) => x,
        None => return None,
    };
    let e2 = match tok_word_x(s, e1, Word::DotDot) {
        Some(x) => x,
        None => return None,
    };
    match tok_int_x(s, e2) {
        Some((b, e3)) => Some(((a, b), e3)),
        None => None,
    }
}

/// Read an interval of floats.
pub fn interval_float_x(s: &[u8], p: usize) -> (r: Option<((String, String), usize)>)
    requires
        p <= s@.len(),
    ensures
        r matches Some((v, e)) ==> interval_float(s@, p as int) == Some(((v.0@, v.1@), e as int))
            && p < e <= s@.len(),
        r is None ==> interval_float(s@, p as int) is None,
{
    let (a, e1) = match tok_float_x(s, p) {
        Some(x) => x,
        None => return None,
    };
    let e2 = match tok_word_x(s, e1, Word::DotDot) {
        Some(x) => x,
        None => return None,
    };
    match tok_float_x(s, e2) {
        Some((b, e3)) => Some(((a, b), e3)),
        None => None,
    }
}

/// The elements after the first of a `{..}` set of int values.
pub open spec fn set_elems_rest_int(s: Seq<u8>, p: int) -> (Seq<(i64, i64)>, int)
    decreases s.len() - p,
{
    match tok_char(s, p, 44) {
        Some(q) => match tok_int(s, q) {
            Some((v, e)) => if p < e <= s.len() {
                let r = set_elems_rest_int(s, e);
                (seq![(v, v)] + r.0, r.1)
            } else {
                (Seq::empty(), p)
            },
            None => (Seq::empty(), p),
        },
        None => (Seq::empty(), p),
    }
}

/// A set literal `{a, b, ..}` of int values, as one-element ranges.
pub open spec fn set_literal_int(s: Seq<u8>, p: int) -> Option<(Seq<(i64, i64)>, int)> {
    match tok_char(s, p, 123) {
        Some(q) => {
            let xs = match tok_int(s, q) {
                Some((v, e)) => {
                    let r = set_elems_rest_int(s, e);
                    (seq![(v, v)] + r.0, r.1)
                },
                None => (Seq::empty(), q),
            };
            match tok_char(s, xs.1, 125) {
                Some(f) => Some((xs.0, f)),
                None => None,
            }
        },
        None => None,
    }
}

/// One term of a set of int values: an interval or a set literal.
pub open spec fn set_term_int(s: Seq<u8>, p: int) -> Option<(Seq<(i64, i64)>, int)> {
    match interval_int(s, p) {
        Some((r, e)) => Some((seq![r], e)),
        None => set_literal_int(s, p),
    }
}

/// The terms after the first of a `union` of sets of int values.
pub open spec fn set_union_rest_int(s: Seq<u8>, p: int) -> (Seq<(i64, i64)>, int)
    decreases s.len() - p,
{
    match tok_word(s, p, Word::Union) {
        Some(q) => match set_term_int(s, q) {
            Some((r, e)) => if p < e <= s.len() {
                let t = set_union_rest_int(s, e);
                (r + t.0, t.1)
            } else {
                (Seq::empty(), p)
            },
            None => (Seq::empty(), p),
        },
        None => (Seq::empty(), p),
    }
}

/// A set of int values: terms joined by `union`, as the ranges that wrote it.
pub open spec fn set_int(s: Seq<u8>, p: int) -> Option<(Seq<(i64, i64)>, int)> {
    match set_term_int(s, p) {
        Some((r, e)) => {
            let t = set_union_rest_int(s, e);
            Some((r + t.0, t.1))
        },
        None => None,
    }
}

fn set_literal_int_x(s: &[u8], p: usize) -> (r: Option<(Vec<(i64, i64)>, usize)>)
    requires
        p <= s@.len(),
    ensures
        r matches Some((v, e)) ==> set_literal_int(s@, p as int) == Some((v@, e as int)) && p < e <= s@.len(),
        r is None ==> set_literal_int(s@, p as int) is None,
{
    let q = match tok_char_x(s, p, 123) {
        Some(q) => q,
        None => return None,
    };
    let mut acc: Vec<(i64, i64)> = Vec::new();
    let mut pos = q;
    match tok_int_x(s, q) {
        None => {
            proof {
                assert(acc@ =~= Seq::empty());
            }
        },
        Some((v, e)) => {
            acc.push((v, v));
            pos = e;
            proof {
                assert(acc@ =~= seq![(v, v)]);
            }
            loop
                invariant
                    q <= pos <= s@.len(),
                    ({
                        let xs = match tok_int(s@, q as int) {
                            Some((v, e)) => {
                                let r = set_elems_rest_int(s@, e);
                                (seq![(v, v)] + r.0, r.1)
                            },
                            None => (Seq::empty(), q as int),
                        };
                        xs == (acc@ + set_elems_rest_int(s@, pos as int).0, set_elems_rest_int(s@, pos as int).1)
                    }),
                ensures
                    q <= pos <= s@.len(),
                    ({
                        let xs = match tok_int(s@, q as int) {
                            Some((v, e)) => {
                                let r = set_elems_rest_int(s@, e);
                                (seq![(v, v)] + r.0, r.1)
                            },
                            None => (Seq::empty(), q as int),
                        };
                        xs == (acc@, pos as int)
                    }),
                decreases s@.len() - pos,
            {
                match tok_char_x(s, pos, 44) {
                    None => {
                        proof {
                            assert(acc@ + Seq::<(i64, i64)>::empty() =~= acc@);
                        }
                        break;
                    },
                    Some(q2) => match tok_int_x(s, q2) {
                        None => {
                            proof {
                                assert(acc@ + Seq::<(i64, i64)>::empty() =~= acc@);
                            }
                            break;
                        },
                        Some((v2, e2)) => {
                            let ghost old_acc = acc@;
                            acc.push((v2, v2));
                            proof {
                                assert(acc@ =~= old_acc + seq![(v2, v2)]);
                                assert(old_acc + (seq![(v2, v2)] + set_elems_rest_int(s@, e2 as int).0) =~= acc@ + set_elems_rest_int(s@, e2 as int).0);
                            }
                            pos = e2;
                        },
                    },
                }
            }
        },
    }
    match tok_char_x(s, pos, 125) {
        Some(f) => Some((acc, f)),
        None => None,
    }
}

fn set_term_int_x(s: &[u8], p: usize) -> (r: Option<(Vec<(i64, i64)>, usize)>)
    requires
        p <= s@.len(),
    ensures
        r matches Some((v, e)) ==> set_term_int(s@, p as int) == Some((v@, e as int)) && p < e <= s@.len(),
        r is None ==> set_term_int(s@, p as int) is None,
{
    match interval_int_x(s, p) {
        Some((r, e)) => {
            let ghost rv = r;
            let mut v: Vec<(i64, i64)> = Vec::new();
            v.push(r);
            proof {
                assert(v@ =~= seq![rv]);
            }
            Some((v, e))
        },
        None => set_literal_int_x(s, p),
    }
}

/// Read a set of int values.
pub fn set_int_x(s: &[u8], p: usize) -> (r: Option<(Vec<(i64, i64)>, usize)>)
    requires
        p <= s@.len(),
    ensures
        r matches Some((v, e)) ==> set_int(s@, p as int) == Some((v@, e as int)) && p < e <= s@.len(),
        r is None ==> set_int(s@, p as int) is None,
{
    let (mut acc, mut pos) = match set_term_int_x(s, p) {
        Some(x) => x,
        None => return None,
    };
    let ghost first = acc@;
    let ghost e0 = pos;
    loop
        invariant
            p < pos <= s@.len(),
            first + set_union_rest_int(s@, e0 as int).0 == acc@ + set_union_rest_int(s@, pos as int).0,
            set_union_rest_int(s@, e0 as int).1 == set_union_rest_int(s@, pos as int).1,
        ensures
            p < pos <= s@.len(),
            first + set_union_rest_int(s@, e0 as int).0 == acc@,
            set_union_rest_int(s@, e0 as int).1 == pos,
        decreases s@.len() - pos,
    {
        match tok_word_x(s, pos, Word::Union) {
            None => {
                proof {
                    assert(acc@ + Seq::<(i64, i64)>::empty() =~= acc@);
                }
                break;
            },
            Some(q) => match set_term_int_x(s, q) {
                None => {
                    proof {
                        assert(acc@ + Seq::<(i64, i64)>::empty() =~= acc@);
                    }
                    break;
                },
                Some((mut more, e)) => {
                    let ghost old_acc = acc@;
                    let ghost mv = more@;
                    acc.append(&mut more);
                    proof {
                        assert(acc@ =~= old_acc + mv);
                        assert(old_acc + (mv + set_union_rest_int(s@, e as int).0) =~= acc@ + set_union_rest_int(s@, e as int).0);
                    }
                    pos = e;
                },
            },
        }
    }
    Some((acc, pos))
}

/// The elements after the first of a `{..}` set of float values.
pub open spec fn set_elems_rest_float(s: Seq<u8>, p: int) -> (Seq<(Seq<char>, Seq<char>)>, int)
    decreases s.len() - p,
{
    match tok_char(s, p, 44) {
        Some(q) => match tok_float(s, q) {
            Some((v, e)) => if p < e <= s.len() {
                let r = set_elems_rest_float(s, e);
                (seq![(v, v)] + r.0, r.1)
            } else {
                (Seq::empty(), p)
            },
            None => (Seq::empty(), p),
        },
        None => (Seq::empty(), p),
    }
}

/// A set literal `{a, b, ..}` of float values, as one-element ranges.
pub open spec fn set_literal_float(s: Seq<u8>, p: int) -> Option<(Seq<(Seq<char>, Seq<char>)>, int)> {
    match tok_char(s, p, 123) {
        Some(q) => {
            let xs = match tok_float(s, q) {
                Some((v, e)) => {
                    let r = set_elems_rest_float(s, e);
                    (seq![(v, v)] + r.0, r.1)
                },
                None => (Seq::empty(), q),
            };
            match tok_char(s, xs.1, 125) {
                Some(f) => Some((xs.0, f)),
                None => None,
            }
        },
        None => None,
    }
}

/// One term of a set of float values: an interval or a set literal.
pub open spec fn set_term_float(s: Seq<u8>, p: int) -> Option<(Seq<(Seq<char>, Seq<char>)>, int)> {
    match interval_float(s, p) {
        Some((r, e)) => Some((seq![r], e)),
        None => set_literal_float(s, p),
    }
}

/// The terms after the first of a `union` of sets of float values.
pub open spec fn set_union_rest_float(s: Seq<u8>, p: int) -> (Seq<(Seq<char>, Seq<char>)>, int)
    decreases s.len() - p,
{
    match tok_word(s, p, Word::Union) {
        Some(q) => match set_term_float(s, q) {
            Some((r, e)) => if p < e <= s.len() {
                let t = set_union_rest_float(s, e);
                (r + t.0, t.1)
            } else {
                (Seq::empty(), p)
            },
            None => (Seq::empty(), p),
        },
        None => (Seq::empty(), p),
    }
}

/// A set of float values: terms joined by `union`, as the ranges that wrote it.
pub open spec fn set_float(s: Seq<u8>, p: int) -> Option<(Seq<(Seq<char>, Seq<char>)>, int)> {
    match set_term_float(s, p) {
        Some((r, e)) => {
            let t = set_union_rest_float(s, e);
            Some((r + t.0, t.1))
        },
        None => None,
    }
}

fn set_literal_float_x(s: &[u8], p: usize) -> (r: Option<(Vec<(String, String)>, usize)>)
    requires
        p <= s@.len(),
    ensures
        r matches Some((v, e)) ==> set_literal_float(s@, p as int) == Some((float_pairs_view(v@), e as int)) && p < e <= s@.len(),
        r is None ==> set_literal_float(s@, p as int) is None,
{
    let q = match tok_char_x(s, p, 123) {
        Some(q) => q,
        None => return None,
    };
    let mut acc: Vec<(String, String)> = Vec::new();
    let mut pos = q;
    match tok_float_x(s, q) {
        None => {
            proof {
                assert(float_pairs_view(acc@) =~= Seq::empty());
            }
        },
        Some((v, e)) => {
            acc.push((v.clone(), v));
            pos = e;
            proof {
                assert(float_pairs_view(acc@) =~= seq![(v@, v@)]);
            }
            loop
                invariant
                    q <= pos <= s@.len(),
                    ({
                        let xs = match tok_float(s@, q as int) {
                            Some((v, e)) => {
                                let r = set_elems_rest_float(s@, e);
                                (seq![(v, v)] + r.0, r.1)
                            },
                            None => (Seq::empty(), q as int),
                        };
                        xs == (float_pairs_view(acc@) + set_elems_rest_float(s@, pos as int).0, set_elems_rest_float(s@, pos as int).1)
                    }),
                ensures
                    q <= pos <= s@.len(),
                    ({
                        let xs = match tok_float(s@, q as int) {
                            Some((v, e)) => {
                                let r = set_elems_rest_float(s@, e);
                                (seq![(v, v)] + r.0, r.1)
                            },
                            None => (Seq::empty(), q as int),
                        };
                        xs == (float_pairs_view(acc@), pos as int)
                    }),
                decreases s@.len() - pos,
            {
                match tok_char_x(s, pos, 44) {
                    None => {
                        proof {
                            assert(float_pairs_view(acc@) + Seq::<(Seq<char>, Seq<char>)>::empty() =~= float_pairs_view(acc@));
                        }
                        break;
                    },
                    Some(q2) => match tok_float_x(s, q2) {
                        None => {
                            proof {
                                assert(float_pairs_view(acc@) + Seq::<(Seq<char>, Seq<char>)>::empty() =~= float_pairs_view(acc@));
                            }
                            break;
                        },
                        Some((v2, e2)) => {
                            let ghost old_acc = float_pairs_view(acc@);
                            acc.push((v2.clone(), v2));
                            proof {
                                assert(float_pairs_view(acc@) =~= old_acc + seq![(v2@, v2@)]);
                                assert(old_acc + (seq![(v2@, v2@)] + set_elems_rest_float(s@, e2 as int).0) =~= float_pairs_view(acc@) + set_elems_rest_float(s@, e2 as int).0);
                            }
                            pos = e2;
                        },
                    },
                }
            }
        },
    }
    match tok_char_x(s, pos, 125) {
        Some(f) => Some((acc, f)),
        None => None,
    }
}

fn set_term_float_x(s: &[u8], p: usize) -> (r: Option<(Vec<(String, String)>, usize)>)
    requires
        p <= s@.len(),
    ensures
        r matches Some((v, e)) ==> set_term_float(s@, p as int) == Some((float_pairs_view(v@), e as int)) && p < e <= s@.len(),
        r is None ==> set_term_float(s@, p as int) is None,
{
    match interval_float_x(s, p) {
        Some((r, e)) => {
            let ghost rv = (r.0@, r.1@);
            let mut v: Vec<(String, String)> = Vec::new();
            v.push(r);
            proof {
                assert(float_pairs_view(v@) =~= seq![rv]);
            }
            Some((v, e))
        },
        None => set_literal_float_x(s, p),
    }
}

/// Read a set of float values.
pub fn set_float_x(s: &[u8], p: usize) -> (r: Option<(Vec<(String, String)>, usize)>)
    requires
        p <= s@.len(),
    ensures
        r matches Some((v, e)) ==> set_float(s@, p as int) == Some((float_pairs_view(v@), e as int)) && p < e <= s@.len(),
        r is None ==> set_float(s@, p as int) is None,
{
    let (mut acc, mut pos) = match set_term_float_x(s, p) {
        Some(x) => x,
        None => return None,
    };
    let ghost first = float_pairs_view(acc@);
    let ghost e0 = pos;
    loop
        invariant
            p < pos <= s@.len(),
            first + set_union_rest_float(s@, e0 as int).0 == float_pairs_view(acc@) + set_union_rest_float(s@, pos as int).0,
            set_union_rest_float(s@, e0 as int).1 == set_union_rest_float(s@, pos as int).1,
        ensures
            p < pos <= s@.len(),
            first + set_union_rest_float(s@, e0 as int).0 == float_pairs_view(acc@),
            set_union_rest_float(s@, e0 as int).1 == pos,
        decreases s@.len() - pos,
    {
        match tok_word_x(s, pos, Word::Union) {
            None => {
                proof {
                    assert(float_pairs_view(acc@) + Seq::<(Seq<char>, Seq<char>)>::empty() =~= float_pairs_view(acc@));
                }
                break;
            },
            Some(q) => match set_term_float_x(s, q) {
                None => {
                    proof {
                        assert(float_pairs_view(acc@) + Seq::<(Seq<char>, Seq<char>)>::empty() =~= float_pairs_view(acc@));
                    }
                    break;
                },
                Some((mut more, e)) => {
                    let ghost old_acc = float_pairs_view(acc@);
                    let ghost mv = float_pairs_view(more@);
                    acc.append(&mut more);
                    proof {
                        assert(float_pairs_view(acc@) =~= old_acc + mv);
                        assert(old_acc + (mv + set_union_rest_float(s@, e as int).0) =~= float_pairs_view(acc@) + set_union_rest_float(s@, e as int).0);
                    }
                    pos = e;
                },
            },
        }
    }
    Some((acc, pos))
}

/// A boolean literal.
pub open spec fn bool_lit(s: Seq<u8>, p: int) -> Option<(bool, int)> {
    match word_end(s, p, Word::True) {
        Some(e) => Some((true, e)),
        None => match word_end(s, p, Word::False) {
            Some(e) => Some((false, e)),
            None => None,
        },
    }
}

/// A string literal: the text between two double quotes.
pub open spec fn string_lit(s: Seq<u8>, p: int) -> Option<(Seq<char>, int)> {
    if byte_at(s, p, 34) {
        match find_byte(s, p + 1, 34) {
            Some(q) => if valid_utf8(s.subrange(p + 1, q)) {
                Some((text_of(s, p + 1, q), q + 1))
            } else {
                None
            },
            None => None,
        }
    } else {
        None
    }
}

/// A literal, tried as an integer set, a float set, a boolean, a float, an
/// integer, a string and finally a name, which is interned.
pub open spec fn literal(s: Seq<u8>, p: int, n: Names) -> (Option<(SpecLiteral, int)>, Names) {
    match set_int(s, p) {
        Some((r, e)) => (Some((SpecLiteral::IntSet(r), e)), n),
        None => match set_float(s, p) {
            Some((r, e)) => (Some((SpecLiteral::FloatSet(r), e)), n),
            None => match bool_lit(s, p) {
                Some((b, e)) => (Some((SpecLiteral::Bool(b), e)), n),
                None => match float_end(s, p) {
                    Some(e) => (Some((SpecLiteral::Float(text_of(s, p, e)), e)), n),
                    None => match int_lit(s, p) {
                        Some((v, e)) => (Some((SpecLiteral::Int(v), e)), n),
                        None => match string_lit(s, p) {
                            Some((t, e)) => (Some((SpecLiteral::Str(t), e)), n),
                            None => match ident_end(s, p) {
                                Some(e) => {
                                    let (n2, id) = intern_spec(n, text_of(s, p, e));
                                    (Some((SpecLiteral::Reference(id), e)), n2)
                                },
                                None => (None, n),
                            },
                        },
                    },
                },
            },
        },
    }
}

/// A literal with the whitespace and comments around it.
pub open spec fn tok_literal(s: Seq<u8>, p: int, n: Names) -> (Option<(SpecLiteral, int)>, Names) {
    let q = ignored_end(s, p);
    match literal(s, q, n).0 {
        Some((l, e)) => (Some((l, ignored_end(s, e))), literal(s, q, n).1),
        None => (None, literal(s, q, n).1),
    }
}

fn bool_lit_x(s: &[u8], p: usize) -> (r: Option<(bool, usize)>)
    requires
        p <= s@.len(),
    ensures
        r matches Some((b, e)) ==> bool_lit(s@, p as int) == Some((b, e as int)) && p < e <= s@.len(),
        r is None ==> bool_lit(s@, p as int) is None,
{
    match match_word(s, p, Word::True) {
        Some(e) => Some((true, e)),
        None => match match_word(s, p, Word::False) {
            Some(e) => Some((false, e)),
            None => None,
        },
    }
}

fn string_lit_x(s: &[u8], p: usize) -> (r: Option<(String, usize)>)
    requires
        p <= s@.len(),
    ensures
        r matches Some((t, e)) ==> string_lit(s@, p as int) == Some((t@, e as int)) && p < e <= s@.len(),
        r is None ==> string_lit(s@, p as int) is None,
{
    if p < s.len() && s[p] == 34 {
        match scan_to_byte(s, p + 1, 34) {
            Some(q) => match text_range(s, p + 1, q) {
                Some(t) => Some((t, q + 1)),
                None => None,
            },
            None => None,
        }
    } else {
        None
    }
}

/// Read a literal.
pub fn literal_x(s: &[u8], p: usize, names: &mut NameStore) -> (r: Option<(Literal, usize)>)
    requires
        old(names).wf(),
        p <= s@.len(),
    ensures
        grown(old(names), final(names)),
        literal(s@, p as int, old(names).names()).1 == final(names).names(),
        r matches Some((l, e)) ==> literal(s@, p as int, old(names).names()).0 == Some((l@, e as int)) && p < e <= s@.len(),
        r is None ==> literal(s@, p as int, old(names).names()).0 is None,
{
    proof {
        lemma_grown_refl(names);
    }
    if let Some((r, e)) = set_int_x(s, p) {
        return Some((Literal::IntSet(r), e));
    }
    if let Some((r, e)) = set_float_x(s, p) {
        return Some((Literal::FloatSet(r), e));
    }
    if let Some((b, e)) = bool_lit_x(s, p) {
        return Some((Literal::Bool(b), e));
    }
    if let Some(e) = scan_float(s, p) {
        proof {
            lemma_float_ascii(s@, p as int);
        }
        return Some((Literal::Float(ascii_text(s, p, e)), e));
    }
    if let Some((v, e)) = scan_int(s, p) {
        return Some((Literal::Int(v), e));
    }
    if let Some((t, e)) = string_lit_x(s, p) {
        return Some((Literal::Str(t), e));
    }
    if let Some(e) = scan_ident(s, p) {
        proof {
            lemma_ident_ascii(s@, p as int);
        }
        let id = names.intern(ascii_text(s, p, e));
        return Some((Literal::Reference(id), e));
    }
    None
}

/// Read a literal with the whitespace and comments around it.
pub fn tok_literal_x(s: &[u8], p: usize, names: &mut NameStore) -> (r: Option<(Literal, usize)>)
    requires
        old(names).wf(),
        p <= s@.len(),
    ensures
        grown(old(names), final(names)),
        tok_literal(s@, p as int, old(names).names()).1 == final(names).names(),
        r matches Some((l, e)) ==> tok_literal(s@, p as int, old(names).names()).0 == Some((l@, e as int)) && p < e <= s@.len(),
        r is None ==> tok_literal(s@, p as int, old(names).names()).0 is None,
{
    let q = skip_ignored(s, p);
    match literal_x(s, q, names) {
        Some((l, e)) => Some((l, skip_ignored(s, e))),
        None => None,
    }
}

/// The elements after the first of a `,`-separated list of lits from `p`.
pub open spec fn lits_rest(s: Seq<u8>, p: int, n: Names) -> (Seq<SpecLiteral>, int, Names)
    decreases s.len() - p,
{
    match tok_char(s, p, 44) {
        Some(q) => if p < q <= s.len() {
            match tok_literal(s, q, n).0 {
                Some((x, e)) => if p < e <= s.len() {
                    let r = lits_rest(s, e, tok_literal(s, q, n).1);
                    (seq![x] + r.0, r.1, r.2)
                } else {
                    (Seq::empty(), p, tok_literal(s, q, n).1)
                },
                None => (Seq::empty(), p, tok_literal(s, q, n).1),
            }
        } else {
            (Seq::empty(), p, n)
        },
        None => (Seq::empty(), p, n),
    }
}

/// A possibly empty `,`-separated list of lits from `p`.
pub open spec fn lits_list(s: Seq<u8>, p: int, n: Names) -> (Seq<SpecLiteral>, int, Names)
{
    match tok_literal(s, p, n).0 {
        Some((x, e)) => {
            let r = lits_rest(s, e, tok_literal(s, p, n).1);
            (seq![x] + r.0, r.1, r.2)
        },
        None => (Seq::empty(), p, tok_literal(s, p, n).1),
    }
}

#[verifier::rlimit(40)]
fn lits_list_x(s: &[u8], p: usize, names: &mut NameStore) -> (r: (Vec<Literal>, usize))
    requires
        old(names).wf(),
        p <= s@.len(),
    ensures
        grown(old(names), final(names)),
        lits_list(s@, p as int, old(names).names()) == (views(r.0@), r.1 as int, final(names).names()),
        p <= r.1 <= s@.len(),
{
    match tok_literal_x(s, p, names) {
        None => {
            proof {
                assert(views(Seq::<Literal>::empty()) =~= Seq::empty());
            }
            (Vec::new(), p)
        },
        Some((x, e)) => {
            let mut acc: Vec<Literal> = Vec::new();
            acc.push(x);
            let ghost mut gacc = seq![x@];
            proof {
                assert(views(acc@) =~= gacc);
            }
            let mut pos = e;
            loop
                invariant_except_break
                    ({
                        let r = lits_rest(s@, pos as int, names.names());
                        lits_list(s@, p as int, old(names).names()) == (gacc + r.0, r.1, r.2)
                    }),
                invariant
                    old(names).wf(),
                    grown(old(names), names),
                    p <= pos <= s@.len(),
                    views(acc@) == gacc,
                ensures
                    grown(old(names), names),
                    p <= pos <= s@.len(),
                    views(acc@) == gacc,
                    lits_list(s@, p as int, old(names).names()) == (gacc, pos as int, names.names()),
                decreases s@.len() - pos,
            {
                match tok_char_x(s, pos, 44) {
                    None => {
                        proof {
                            assert(gacc + Seq::<_>::empty() =~= gacc);
                        }
                        break;
                    },
                    Some(q) => {
                        let ghost before = *names;
                        let res = tok_literal_x(s, q, names);
                        proof {
                            lemma_grown_trans(old(names), &before, names);
                        }
                        match res {
                            None => {
                                proof {
                                    assert(gacc + Seq::<_>::empty() =~= gacc);
                                }
                                break;
                            },
                            Some((y, e2)) => {
                                proof {
                                    lemma_views_push(acc@, y);
                                    assert(gacc + (seq![y@] + lits_rest(s@, e2 as int, names.names()).0) =~= gacc.push(y@) + lits_rest(s@, e2 as int, names.names()).0);
                                    gacc = gacc.push(y@);
                                }
                                acc.push(y);
                                pos = e2;
                            },
                        }
                    },
                }
            }
            (acc, pos)
        },
    }
}

/// A `[..]`-delimited list of lits.
pub open spec fn lit_array(s: Seq<u8>, p: int, n: Names) -> (Option<(Seq<SpecLiteral>, int)>, Names) {
    match tok_char(s, p, 91) {
        Some(q) => {
            let l = lits_list(s, q, n);
            match tok_char(s, l.1, 93) {
                Some(f) => (Some((l.0, f)), l.2),
                None => (None, l.2),
            }
        },
        None => (None, n),
    }
}

pub fn lit_array_x(s: &[u8], p: usize, names: &mut NameStore) -> (r: Option<(Vec<Literal>, usize)>)
    requires
        old(names).wf(),
        p <= s@.len(),
    ensures
        grown(old(names), final(names)),
        lit_array(s@, p as int, old(names).names()).1 == final(names).names(),
        r matches Some((l, e)) ==> lit_array(s@, p as int, old(names).names()).0 == Some((views(l@), e as int)) && p < e <= s@.len(),
        r is None ==> lit_array(s@, p as int, old(names).names()).0 is None,
{
    let q = match tok_char_x(s, p, 91) {
        Some(q) => q,
        None => {
            proof {
                lemma_grown_refl(names);
            }
            return None;
        },
    };
    let (l, e) = lits_list_x(s, q, names);
    match tok_char_x(s, e, 93) {
        Some(f) => Some((l, f)),
        None => None,
    }
}

/// A constraint argument: a literal, or an array of literals.
pub open spec fn argument(s: Seq<u8>, p: int, n: Names) -> (Option<(SpecArgument<SpecLiteral>, int)>, Names) {
    match literal(s, p, n).0 {
        Some((l, e)) => (Some((SpecArgument::Literal(l), e)), literal(s, p, n).1),
        None => {
            let n1 = literal(s, p, n).1;
            match lit_array(s, p, n1).0 {
                Some((v, e)) => (Some((SpecArgument::Array(v), e)), lit_array(s, p, n1).1),
                None => (None, lit_array(s, p, n1).1),
            }
        },
    }
}

/// An argument with the whitespace and comments around it.
pub open spec fn tok_argument(s: Seq<u8>, p: int, n: Names) -> (Option<(SpecArgument<SpecLiteral>, int)>, Names) {
    let q = ignored_end(s, p);
    match argument(s, q, n).0 {
        Some((l, e)) => (Some((l, ignored_end(s, e))), argument(s, q, n).1),
        None => (None, argument(s, q, n).1),
    }
}

fn argument_x(s: &[u8], p: usize, names: &mut NameStore) -> (r: Option<(Argument<Literal>, usize)>)
    requires
        old(names).wf(),
        p <= s@.len(),
    ensures
        grown(old(names), final(names)),
        argument(s@, p as int, old(names).names()).1 == final(names).names(),
        r matches Some((l, e)) ==> argument(s@, p as int, old(names).names()).0 == Some((l@, e as int)) && p < e <= s@.len(),
        r is None ==> argument(s@, p as int, old(names).names()).0 is None,
{
    if let Some((l, e)) = literal_x(s, p, names) {
        return Some((Argument::Literal(l), e));
    }
    let ghost mid = *names;
    let r = lit_array_x(s, p, names);
    proof {
        lemma_grown_trans(old(names), &mid, names);
    }
    match r {
        Some((v, e)) => Some((Argument::Array(v), e)),
        None => None,
    }
}

fn tok_argument_x(s: &[u8], p: usize, names: &mut NameStore) -> (r: Option<(Argument<Literal>, usize)>)
    requires
        old(names).wf(),
        p <= s@.len(),
    ensures
        grown(old(names), final(names)),
        tok_argument(s@, p as int, old(names).names()).1 == final(names).names(),
        r matches Some((l, e)) ==> tok_argument(s@, p as int, old(names).names()).0 == Some((l@, e as int)) && p < e <= s@.len(),
        r is None ==> tok_argument(s@, p as int, old(names).names()).0 is None,
{
    let q = skip_ignored(s, p);
    match argument_x(s, q, names) {
        Some((l, e)) => Some((l, skip_ignored(s, e))),
        None => None,
    }
}

/// The elements after the first of a `,`-separated list of args from `p`.
pub open spec fn args_rest(s: Seq<u8>, p: int, n: Names) -> (Seq<SpecArgument<SpecLiteral>>, int, Names)
    decreases s.len() - p,
{
    match tok_char(s, p, 44) {
        Some(q) => if p < q <= s.len() {
            match tok_argument(s, q, n).0 {
                Some((x, e)) => if p < e <= s.len() {
                    let r = args_rest(s, e, tok_argument(s, q, n).1);
                    (seq![x] + r.0, r.1, r.2)
                } else {
                    (Seq::empty(), p, tok_argument(s, q, n).1)
                },
                None => (Seq::empty(), p, tok_argument(s, q, n).1),
            }
        } else {
            (Seq::empty(), p, n)
        },
        None => (Seq::empty(), p, n),
    }
}

/// A possibly empty `,`-separated list of args from `p`.
pub open spec fn args_list(s: Seq<u8>, p: int, n: Names) -> (Seq<SpecArgument<SpecLiteral>>, int, Names)
{
    match tok_argument(s, p, n).0 {
        Some((x, e)) => {
            let r = args_rest(s, e, tok_argument(s, p, n).1);
            (seq![x] + r.0, r.1, r.2)
        },
        None => (Seq::empty(), p, tok_argument(s, p, n).1),
    }
}

#[verifier::rlimit(40)]
fn args_list_x(s: &[u8], p: usize, names: &mut NameStore) -> (r: (Vec<Argument<Literal>>, usize))
    requires
        old(names).wf(),
        p <= s@.len(),
    ensures
        grown(old(names), final(names)),
        args_list(s@, p as int, old(names).names()) == (views(r.0@), r.1 as int, final(names).names()),
        p <= r.1 <= s@.len(),
{
    match tok_argument_x(s, p, names) {
        None => {
            proof {
                assert(views(Seq::<Argument<Literal>>::empty()) =~= Seq::empty());
            }
            (Vec::new(), p)
        },
        Some((x, e)) => {
            let mut acc: Vec<Argument<Literal>> = Vec::new();
            acc.push(x);
            let ghost mut gacc = seq![x@];
            proof {
                assert(views(acc@) =~= gacc);
            }
            let mut pos = e;
            loop
                invariant_except_break
                    ({
                        let r = args_rest(s@, pos as int, names.names());
                        args_list(s@, p as int, old(names).names()) == (gacc + r.0, r.1, r.2)
                    }),
                invariant
                    old(names).wf(),
                    grown(old(names), names),
                    p <= pos <= s@.len(),
                    views(acc@) == gacc,
                ensures
                    grown(old(names), names),
                    p <= pos <= s@.len(),
                    views(acc@) == gacc,
                    args_list(s@, p as int, old(names).names()) == (gacc, pos as int, names.names()),
                decreases s@.len() - pos,
            {
                match tok_char_x(s, pos, 44) {
                    None => {
                        proof {
                            assert(gacc + Seq::<_>::empty() =~= gacc);
                        }
                        break;
                    },
                    Some(q) => {
                        let ghost before = *names;
                        let res = tok_argument_x(s, q, names);
                        proof {
                            lemma_grown_trans(old(names), &before, names);
                        }
                        match res {
                            None => {
                                proof {
                                    assert(gacc + Seq::<_>::empty() =~= gacc);
                                }
                                break;
                            },
                            Some((y, e2)) => {
                                proof {
                                    lemma_views_push(acc@, y);
                                    assert(gacc + (seq![y@] + args_rest(s@, e2 as int, names.names()).0) =~= gacc.push(y@) + args_rest(s@, e2 as int, names.names()).0);
                                    gacc = gacc.push(y@);
                                }
                                acc.push(y);
                                pos = e2;
                            },
                        }
                    },
                }
            }
            (acc, pos)
        },
    }
}

/// A `(..)`-delimited list of args.
pub open spec fn arg_tuple(s: Seq<u8>, p: int, n: Names) -> (Option<(Seq<SpecArgument<SpecLiteral>>, int)>, Names) {
    match tok_char(s, p, 40) {
        Some(q) => {
            let l = args_list(s, q, n);
            match tok_char(s, l.1, 41) {
                Some(f) => (Some((l.0, f)), l.2),
                None => (None, l.2),
            }
        },
        None => (None, n),
    }
}

pub fn arg_tuple_x(s: &[u8], p: usize, names: &mut NameStore) -> (r: Option<(Vec<Argument<Literal>>, usize)>)
    requires
        old(names).wf(),
        p <= s@.len(),
    ensures
        grown(old(names), final(names)),
        arg_tuple(s@, p as int, old(names).names()).1 == final(names).names(),
        r matches Some((l, e)) ==> arg_tuple(s@, p as int, old(names).names()).0 == Some((views(l@), e as int)) && p < e <= s@.len(),
        r is None ==> arg_tuple(s@, p as int, old(names).names()).0 is None,
{
    let q = match tok_char_x(s, p, 40) {
        Some(q) => q,
        None => {
            proof {
                lemma_grown_refl(names);
            }
            return None;
        },
    };
    let (l, e) = args_list_x(s, q, names);
    match tok_char_x(s, e, 41) {
        Some(f) => Some((l, f)),
        None => None,
    }
}

} // verus!
