//! Items of the textual FlatZinc format: declarations, constraints, the solve
//! item and predicate declarations.
use vstd::prelude::*;

use crate::fzn::annotations::{
    constraint_anns, constraint_anns_x, general_anns, general_anns_x, raw_anns, raw_anns_x,
    variable_anns, variable_anns_x,
};
use crate::fzn::literals::{
    arg_tuple, arg_tuple_x, interval_float, interval_float_x, interval_int, interval_int_x,
    lemma_ident_ascii, lit_array, lit_array_x, set_float, set_float_x, set_int, set_int_x,
    tok_char, tok_char_x, tok_word, tok_word_x,
};
use crate::intermediate::{
    float_pairs_view, views, Array, Constraint, Declaration, Literal, Method, NameId,
    SolveObjective, SpecArray, SpecConstraint, SpecDeclaration, SpecLiteral, SpecMethod,
    SpecSolve, SpecVarType, SpecVariable, VarType, Variable,
};
use crate::lex::{ident_end, ignored_end, lemma_ignored_end, word_bytes, match_word, scan_ident, skip_ignored, word_end, Word};
use crate::names::{grown, intern_spec, lemma_grown_refl, lemma_grown_trans, NameStore, Names};
use crate::text::{ascii_text, text_of};

verus! {

/// `set of`, with the whitespace and comments around both words.
pub open spec fn set_of(s: Seq<u8>, p: int) -> Option<int> {
    match tok_word(s, p, Word::SetOf) {
        Some(q) => tok_word(s, q, Word::Of),
        None => None,
    }
}

/// A parameter type: `bool`, `int`, `float` or `set of int`.
pub open spec fn par_type(s: Seq<u8>, p: int) -> Option<(SpecVarType, int)> {
    match word_end(s, p, Word::Bool) {
        Some(e) => Some((SpecVarType::Bool, e)),
        None => match word_end(s, p, Word::Int) {
            Some(e) => Some((SpecVarType::Int(None), e)),
            None => match word_end(s, p, Word::Float) {
                Some(e) => Some((SpecVarType::Float(None), e)),
                None => match set_of(s, p) {
                    Some(q) => match tok_word(s, q, Word::Int) {
                        Some(e) => Some((SpecVarType::IntSet(None), e)),
                        None => None,
                    },
                    None => None,
                },
            },
        },
    }
}

/// `set of` followed by a set of integers: a set variable with that domain.
pub open spec fn set_var_domain(s: Seq<u8>, p: int) -> Option<(SpecVarType, int)> {
    match set_of(s, p) {
        Some(q) => match set_int(s, q) {
            Some((r, e)) => Some((SpecVarType::IntSet(Some(r)), e)),
            None => None,
        },
        None => None,
    }
}

/// The type of a decision variable: a parameter type, a set variable with a
/// domain, an integer domain or a float interval.
pub open spec fn var_type(s: Seq<u8>, p: int) -> Option<(SpecVarType, int)> {
    match par_type(s, p) {
        Some(t) => Some(t),
        None => match set_var_domain(s, p) {
            Some(t) => Some(t),
            None => match set_int(s, p) {
                Some((r, e)) => Some((SpecVarType::Int(Some(r)), e)),
                None => match interval_float(s, p) {
                    Some((iv, e)) => Some((SpecVarType::Float(Some(seq![iv])), e)),
                    None => None,
                },
            },
        },
    }
}

fn par_type_x(s: &[u8], p: usize) -> (r: Option<(VarType, usize)>)
    requires
        p <= s@.len(),
    ensures
        r matches Some((t, e)) ==> par_type(s@, p as int) == Some((t@, e as int)) && p < e <= s@.len(),
        r is None ==> par_type(s@, p as int) is None,
{
    if let Some(e) = match_word(s, p, Word::Bool) {
        return Some((VarType::Bool, e));
    }
    if let Some(e) = match_word(s, p, Word::Int) {
        return Some((VarType::Int(None), e));
    }
    if let Some(e) = match_word(s, p, Word::Float) {
        return Some((VarType::Float(None), e));
    }
    let q = match set_of_x(s, p) {
        Some(q) => q,
        None => return None,
    };
    match tok_word_x(s, q, Word::Int) {
        Some(e) => Some((VarType::IntSet(None), e)),
        None => None,
    }
}

fn set_of_x(s: &[u8], p: usize) -> (r: Option<usize>)
    requires
        p <= s@.len(),
    ensures
        r matches Some(e) ==> set_of(s@, p as int) == Some(e as int) && p < e <= s@.len(),
        r is None ==> set_of(s@, p as int) is None,
{
    match tok_word_x(s, p, Word::SetOf) {
        Some(q) => tok_word_x(s, q, Word::Of),
        None => None,
    }
}

fn var_type_x(s: &[u8], p: usize) -> (r: Option<(VarType, usize)>)
    requires
        p <= s@.len(),
    ensures
        r matches Some((t, e)) ==> var_type(s@, p as int) == Some((t@, e as int)) && p < e <= s@.len(),
        r is None ==> var_type(s@, p as int) is None,
{
    if let Some(t) = par_type_x(s, p) {
        return Some(t);
    }
    if let Some(q) = set_of_x(s, p) {
        if let Some((r, e)) = set_int_x(s, q) {
            return Some((VarType::IntSet(Some(r)), e));
        }
    }
    if let Some((r, e)) = set_int_x(s, p) {
        return Some((VarType::Int(Some(r)), e));
    }
    match interval_float_x(s, p) {
        Some((iv, e)) => {
            let v = vec![iv];
            proof {
                assert(float_pairs_view(v@) =~= seq![(iv.0@, iv.1@)]);
            }
            Some((VarType::Float(Some(v)), e))
        },
        None => None,
    }
}

/// A variable declaration `var <type> : <name> <annotations> ;`; the name is
/// interned after the annotations are read.
pub open spec fn var_decl(s: Seq<u8>, p: int, n: Names) -> (Option<((nat, SpecDeclaration, bool), int)>, Names) {
    match tok_word(s, p, Word::Var) {
        Some(a) => match var_type(s, ignored_end(s, a)) {
            Some((ty, b)) => match tok_char(s, ignored_end(s, b), 58) {
                Some(c) => {
                    let q = ignored_end(s, c);
                    match ident_end(s, q) {
                        Some(e) => {
                            let an = raw_anns(s, ignored_end(s, e), n);
                            match tok_char(s, an.1, 59) {
                                Some(f) => {
                                    let (flags, kept) = variable_anns(an.0);
                                    let (n2, id) = intern_spec(an.2, text_of(s, q, e));
                                    let v = SpecVariable {
                                        ty,
                                        ann: kept,
                                        defined: flags.defined,
                                        introduced: flags.introduced,
                                    };
                                    (Some(((id, SpecDeclaration::Variable(v), flags.output), f)), n2)
                                },
                                None => (None, an.2),
                            }
                        },
                        None => (None, n),
                    }
                },
                None => (None, n),
            },
            None => (None, n),
        },
        None => (None, n),
    }
}

/// The element type of an array declaration, after its index set:
/// `of [var] <type> :`, giving the position after the colon.
pub open spec fn array_elem_type(s: Seq<u8>, p: int) -> Option<int> {
    match tok_word(s, p, Word::Of) {
        Some(a) => {
            let b = match tok_word(s, a, Word::Var) {
                Some(v) => v,
                None => a,
            };
            match var_type(s, b) {
                Some((_, c)) => tok_char(s, c, 58),
                None => None,
            }
        },
        None => None,
    }
}

/// An array declaration `array [a..b] of [var] <type> : <name> <annotations>
/// = [ <literals> ] ;`; the name is interned before the annotations are read.
pub open spec fn array_item(s: Seq<u8>, p: int, n: Names) -> (Option<((nat, SpecDeclaration, bool), int)>, Names) {
    match tok_word(s, p, Word::Array) {
        Some(a) => match tok_char(s, a, 91) {
            Some(b) => match interval_int(s, b) {
                Some((_, c)) => match tok_char(s, c, 93) {
                    Some(d) => match array_elem_type(s, d) {
                        Some(g) => {
                            let q = ignored_end(s, g);
                            match ident_end(s, q) {
                                Some(e) => {
                                    let (n1, id) = intern_spec(n, text_of(s, q, e));
                                    let an = raw_anns(s, ignored_end(s, e), n1);
                                    match tok_char(s, an.1, 61) {
                                        Some(i) => {
                                            let l = lit_array(s, i, an.2);
                                            match l.0 {
                                                Some((contents, j)) => match tok_char(s, j, 59) {
                                                    Some(f) => {
                                                        let (flags, kept) = variable_anns(an.0);
                                                        let arr = SpecArray {
                                                            contents,
                                                            ann: kept,
                                                            defined: flags.defined,
                                                            introduced: flags.introduced,
                                                        };
                                                        (
                                                            Some(((id, SpecDeclaration::Array(arr), flags.output), f)),
                                                            l.1,
                                                        )
                                                    },
                                                    None => (None, l.1),
                                                },
                                                None => (None, l.1),
                                            }
                                        },
                                        None => (None, an.2),
                                    }
                                },
                                None => (None, n),
                            }
                        },
                        None => (None, n),
                    },
                    None => (None, n),
                },
                None => (None, n),
            },
            None => (None, n),
        },
        None => (None, n),
    }
}

/// A declaration: an array declaration, else a variable declaration.
pub open spec fn declaration(s: Seq<u8>, p: int, n: Names) -> (Option<((nat, SpecDeclaration, bool), int)>, Names) {
    match array_item(s, p, n).0 {
        Some(x) => (Some(x), array_item(s, p, n).1),
        None => var_decl(s, p, array_item(s, p, n).1),
    }
}

/// A constraint `constraint <id> ( <arguments> ) <annotations> ;`.
pub open spec fn constraint_item(s: Seq<u8>, p: int, n: Names) -> (Option<(SpecConstraint, int)>, Names) {
    match tok_word(s, p, Word::Constraint) {
        Some(a) => {
            let q = ignored_end(s, a);
            match ident_end(s, q) {
                Some(e) => {
                    let t = arg_tuple(s, ignored_end(s, e), n);
                    match t.0 {
                        Some((args, c)) => {
                            let an = raw_anns(s, c, t.1);
                            match tok_char(s, an.1, 59) {
                                Some(f) => {
                                    let (defines, kept) = constraint_anns(an.0);
                                    let con = SpecConstraint { id: text_of(s, q, e), args, defines, ann: kept };
                                    (Some((con, f)), an.2)
                                },
                                None => (None, an.2),
                            }
                        },
                        None => (None, t.1),
                    }
                },
                None => (None, n),
            }
        },
        None => (None, n),
    }
}

/// `minimize <name>` or `maximize <name>`: whether it minimizes, and where the
/// name starts and ends.
pub open spec fn objective(s: Seq<u8>, p: int) -> Option<(bool, int, int)> {
    match objective_name(s, p, Word::Minimize) {
        Some((q, e)) => Some((true, q, e)),
        None => match objective_name(s, p, Word::Maximize) {
            Some((q, e)) => Some((false, q, e)),
            None => None,
        },
    }
}

/// Word `w` followed by a name: where the name starts and ends.
pub open spec fn objective_name(s: Seq<u8>, p: int, w: Word) -> Option<(int, int)> {
    match tok_word(s, p, w) {
        Some(a) => {
            let q = ignored_end(s, a);
            match ident_end(s, q) {
                Some(e) => Some((q, e)),
                None => None,
            }
        },
        None => None,
    }
}

/// The solve item `solve <annotations> satisfy ;`, or with `minimize <name>`
/// or `maximize <name>`; the objective name is interned last.
pub open spec fn solve_item(s: Seq<u8>, p: int, n: Names) -> (Option<(SpecSolve, int)>, Names) {
    match tok_word(s, p, Word::Solve) {
        Some(a) => {
            let an = raw_anns(s, a, n);
            let ann = general_anns(an.0);
            match tok_word(s, an.1, Word::Satisfy) {
                Some(b) => match tok_char(s, b, 59) {
                    Some(f) => (Some((SpecSolve { method: SpecMethod::Satisfy, ann }, f)), an.2),
                    None => (None, an.2),
                },
                None => match objective(s, an.1) {
                    Some((minimize, q, e)) => match tok_char(s, e, 59) {
                        Some(f) => {
                            let (n2, id) = intern_spec(an.2, text_of(s, q, e));
                            let obj = SpecLiteral::Reference(id);
                            let method = if minimize {
                                SpecMethod::Minimize(obj)
                            } else {
                                SpecMethod::Maximize(obj)
                            };
                            (Some((SpecSolve { method, ann }, f)), n2)
                        },
                        None => (None, an.2),
                    },
                    None => (None, an.2),
                },
            }
        },
        None => (None, n),
    }
}

pub fn var_decl_x(s: &[u8], p: usize, names: &mut NameStore) -> (r: Option<((NameId, Declaration, bool), usize)>)
    requires
        old(names).wf(),
        p <= s@.len(),
    ensures
        grown(old(names), final(names)),
        var_decl(s@, p as int, old(names).names()).1 == final(names).names(),
        r matches Some((d, e)) ==> var_decl(s@, p as int, old(names).names()).0 == Some(
            ((d.0 as nat, d.1@, d.2), e as int),
        ) && p < e <= s@.len() && d.0 < final(names).names().len(),
        r is None ==> var_decl(s@, p as int, old(names).names()).0 is None,
{
    proof {
        lemma_grown_refl(names);
    }
    let a = match tok_word_x(s, p, Word::Var) {
        Some(a) => a,
        None => return None,
    };
    let (ty, b) = match var_type_x(s, skip_ignored(s, a)) {
        Some(x) => x,
        None => return None,
    };
    let c = match tok_char_x(s, skip_ignored(s, b), 58) {
        Some(c) => c,
        None => return None,
    };
    let q = skip_ignored(s, c);
    let e = match scan_ident(s, q) {
        Some(e) => e,
        None => return None,
    };
    proof {
        lemma_ident_ascii(s@, q as int);
    }
    let (raw, g) = raw_anns_x(s, skip_ignored(s, e), names);
    let f = match tok_char_x(s, g, 59) {
        Some(f) => f,
        None => return None,
    };
    let (defined, introduced, output, ann) = variable_anns_x(raw);
    let ghost mid = *names;
    let id = names.intern(ascii_text(s, q, e));
    proof {
        lemma_grown_trans(old(names), &mid, names);
    }
    Some(((id, Declaration::Variable(Variable { ty, ann, defined, introduced }), output), f))
}

fn array_elem_type_x(s: &[u8], p: usize) -> (r: Option<usize>)
    requires
        p <= s@.len(),
    ensures
        r matches Some(e) ==> array_elem_type(s@, p as int) == Some(e as int) && p < e <= s@.len(),
        r is None ==> array_elem_type(s@, p as int) is None,
{
    let a = match tok_word_x(s, p, Word::Of) {
        Some(a) => a,
        None => return None,
    };
    let b = match tok_word_x(s, a, Word::Var) {
        Some(v) => v,
        None => a,
    };
    match var_type_x(s, b) {
        Some((_, c)) => tok_char_x(s, c, 58),
        None => None,
    }
}

pub fn array_item_x(s: &[u8], p: usize, names: &mut NameStore) -> (r: Option<((NameId, Declaration, bool), usize)>)
    requires
        old(names).wf(),
        p <= s@.len(),
    ensures
        grown(old(names), final(names)),
        array_item(s@, p as int, old(names).names()).1 == final(names).names(),
        r matches Some((d, e)) ==> array_item(s@, p as int, old(names).names()).0 == Some(
            ((d.0 as nat, d.1@, d.2), e as int),
        ) && p < e <= s@.len() && d.0 < final(names).names().len(),
        r is None ==> array_item(s@, p as int, old(names).names()).0 is None,
{
    proof {
        lemma_grown_refl(names);
    }
    let a = match tok_word_x(s, p, Word::Array) {
        Some(a) => a,
        None => return None,
    };
    let b = match tok_char_x(s, a, 91) {
        Some(b) => b,
        None => return None,
    };
    let c = match interval_int_x(s, b) {
        Some((_, c)) => c,
        None => return None,
    };
    let d = match tok_char_x(s, c, 93) {
        Some(d) => d,
        None => return None,
    };
    let g = match array_elem_type_x(s, d) {
        Some(g) => g,
        None => return None,
    };
    let q = skip_ignored(s, g);
    let e = match scan_ident(s, q) {
        Some(e) => e,
        None => return None,
    };
    proof {
        lemma_ident_ascii(s@, q as int);
    }
    let id = names.intern(ascii_text(s, q, e));
    let ghost n1 = *names;
    let (raw, h) = raw_anns_x(s, skip_ignored(s, e), names);
    proof {
        lemma_grown_trans(old(names), &n1, names);
    }
    let i = match tok_char_x(s, h, 61) {
        Some(i) => i,
        None => return None,
    };
    let ghost n2 = *names;
    let l = lit_array_x(s, i, names);
    proof {
        lemma_grown_trans(old(names), &n2, names);
    }
    let (contents, j) = match l {
        Some(x) => x,
        None => return None,
    };
    let f = match tok_char_x(s, j, 59) {
        Some(f) => f,
        None => return None,
    };
    let (defined, introduced, output, ann) = variable_anns_x(raw);
    Some(((id, Declaration::Array(Array { contents, ann, defined, introduced }), output), f))
}

/// Read a declaration item.
pub fn declaration_x(s: &[u8], p: usize, names: &mut NameStore) -> (r: Option<((NameId, Declaration, bool), usize)>)
    requires
        old(names).wf(),
        p <= s@.len(),
    ensures
        grown(old(names), final(names)),
        declaration(s@, p as int, old(names).names()).1 == final(names).names(),
        r matches Some((d, e)) ==> declaration(s@, p as int, old(names).names()).0 == Some(
            ((d.0 as nat, d.1@, d.2), e as int),
        ) && p < e <= s@.len() && d.0 < final(names).names().len(),
        r is None ==> declaration(s@, p as int, old(names).names()).0 is None,
{
    if let Some(x) = array_item_x(s, p, names) {
        return Some(x);
    }
    let ghost mid = *names;
    let r = var_decl_x(s, p, names);
    proof {
        lemma_grown_trans(old(names), &mid, names);
    }
    r
}

/// Read a constraint item.
pub fn constraint_item_x(s: &[u8], p: usize, names: &mut NameStore) -> (r: Option<(Constraint, usize)>)
    requires
        old(names).wf(),
        p <= s@.len(),
    ensures
        grown(old(names), final(names)),
        constraint_item(s@, p as int, old(names).names()).1 == final(names).names(),
        r matches Some((c, e)) ==> constraint_item(s@, p as int, old(names).names()).0 == Some((c@, e as int))
            && p < e <= s@.len(),
        r is None ==> constraint_item(s@, p as int, old(names).names()).0 is None,
{
    proof {
        lemma_grown_refl(names);
    }
    let a = match tok_word_x(s, p, Word::Constraint) {
        Some(a) => a,
        None => return None,
    };
    let q = skip_ignored(s, a);
    let e = match scan_ident(s, q) {
        Some(e) => e,
        None => return None,
    };
    proof {
        lemma_ident_ascii(s@, q as int);
    }
    let (args, c) = match arg_tuple_x(s, skip_ignored(s, e), names) {
        Some(x) => x,
        None => return None,
    };
    let ghost mid = *names;
    let (raw, g) = raw_anns_x(s, c, names);
    proof {
        lemma_grown_trans(old(names), &mid, names);
    }
    let f = match tok_char_x(s, g, 59) {
        Some(f) => f,
        None => return None,
    };
    let (defines, ann) = constraint_anns_x(raw);
    Some((Constraint { id: ascii_text(s, q, e), args, defines, ann }, f))
}

fn objective_name_x(s: &[u8], p: usize, w: Word) -> (r: Option<(usize, usize)>)
    requires
        p <= s@.len(),
    ensures
        r matches Some((q, e)) ==> objective_name(s@, p as int, w) == Some((q as int, e as int)) && p < q < e
            <= s@.len(),
        r is None ==> objective_name(s@, p as int, w) is None,
{
    let a = match tok_word_x(s, p, w) {
        Some(a) => a,
        None => return None,
    };
    let q = skip_ignored(s, a);
    match scan_ident(s, q) {
        Some(e) => Some((q, e)),
        None => None,
    }
}

/// Read the solve item.
pub fn solve_item_x(s: &[u8], p: usize, names: &mut NameStore) -> (r: Option<(SolveObjective, usize)>)
    requires
        old(names).wf(),
        p <= s@.len(),
    ensures
        grown(old(names), final(names)),
        solve_item(s@, p as int, old(names).names()).1 == final(names).names(),
        r matches Some((v, e)) ==> solve_item(s@, p as int, old(names).names()).0 == Some((v@, e as int))
            && p < e <= s@.len(),
        r is None ==> solve_item(s@, p as int, old(names).names()).0 is None,
{
    proof {
        lemma_grown_refl(names);
    }
    let a = match tok_word_x(s, p, Word::Solve) {
        Some(a) => a,
        None => return None,
    };
    let (raw, g) = raw_anns_x(s, a, names);
    let ann = general_anns_x(raw);
    if let Some(b) = tok_word_x(s, g, Word::Satisfy) {
        return match tok_char_x(s, b, 59) {
            Some(f) => Some((SolveObjective { method: Method::Satisfy, ann }, f)),
            None => None,
        };
    }
    let (minimize, q, e) = match objective_name_x(s, g, Word::Minimize) {
        Some((q, e)) => (true, q, e),
        None => match objective_name_x(s, g, Word::Maximize) {
            Some((q, e)) => (false, q, e),
            None => return None,
        },
    };
    let f = match tok_char_x(s, e, 59) {
        Some(f) => f,
        None => return None,
    };
    proof {
        lemma_ident_ascii(s@, q as int);
    }
    let ghost mid = *names;
    let id = names.intern(ascii_text(s, q, e));
    proof {
        lemma_grown_trans(old(names), &mid, names);
    }
    let method = if minimize {
        Method::Minimize(Literal::Reference(id))
    } else {
        Method::Maximize(Literal::Reference(id))
    };
    Some((SolveObjective { method, ann }, f))
}


/// `set of` and then word `w`.
pub open spec fn set_of_word(s: Seq<u8>, p: int, w: Word) -> Option<int> {
    match set_of(s, p) {
        Some(q) => tok_word(s, q, w),
        None => None,
    }
}

/// `var` followed by a variable type.
pub open spec fn var_pred_type(s: Seq<u8>, p: int) -> Option<int> {
    match tok_word(s, p, Word::Var) {
        Some(a) => match var_type(s, a) {
            Some((_, e)) => Some(e),
            None => None,
        },
        None => None,
    }
}

/// `set of int` followed by a set of integers.
pub open spec fn int_set_pred_type(s: Seq<u8>, p: int) -> Option<int> {
    match set_of_word(s, p, Word::Int) {
        Some(a) => match set_int(s, a) {
            Some((_, e)) => Some(e),
            None => None,
        },
        None => None,
    }
}

/// `set of float` followed by a set of floats.
pub open spec fn float_set_pred_type(s: Seq<u8>, p: int) -> Option<int> {
    match set_of_word(s, p, Word::Float) {
        Some(a) => match set_float(s, a) {
            Some((_, e)) => Some(e),
            None => None,
        },
        None => None,
    }
}

/// A basic predicate parameter type: a parameter type, `set of float`, `var`
/// and a variable type, an integer set, a float interval, or `set of int` or
/// `set of float` followed by a set of that kind.
pub open spec fn basic_pred_type(s: Seq<u8>, p: int) -> Option<int> {
    match par_type(s, p) {
        Some((_, e)) => Some(e),
        None => match set_of_word(s, p, Word::Float) {
            Some(e) => Some(e),
            None => match var_pred_type(s, p) {
                Some(e) => Some(e),
                None => match set_int(s, p) {
                    Some((_, e)) => Some(e),
                    None => match interval_float(s, p) {
                        Some((_, e)) => Some(e),
                        None => match int_set_pred_type(s, p) {
                            Some(e) => Some(e),
                            None => float_set_pred_type(s, p),
                        },
                    },
                },
            },
        },
    }
}

/// The index set of an array parameter type: `int` or an integer interval.
pub open spec fn pred_index(s: Seq<u8>, p: int) -> Option<int> {
    match tok_word(s, p, Word::Int) {
        Some(e) => Some(e),
        None => match interval_int(s, ignored_end(s, p)) {
            Some((_, e)) => Some(ignored_end(s, e)),
            None => None,
        },
    }
}

/// A predicate parameter type: a basic one, or `array [<index>] of` a basic one.
pub open spec fn pred_type(s: Seq<u8>, p: int) -> Option<int> {
    match basic_pred_type(s, p) {
        Some(e) => Some(e),
        None => match tok_word(s, p, Word::Array) {
            Some(a) => match tok_char(s, a, 91) {
                Some(b) => match pred_index(s, b) {
                    Some(c) => match tok_char(s, c, 93) {
                        Some(d) => match tok_word(s, d, Word::Of) {
                            Some(f) => basic_pred_type(s, f),
                            None => None,
                        },
                        None => None,
                    },
                    None => None,
                },
                None => None,
            },
            None => None,
        },
    }
}

/// A predicate parameter `<type> : <name>`, with the whitespace and comments
/// around it.
pub open spec fn pred_param(s: Seq<u8>, p: int) -> Option<int> {
    match pred_type(s, ignored_end(s, p)) {
        Some(a) => match tok_char(s, ignored_end(s, a), 58) {
            Some(b) => match ident_end(s, ignored_end(s, b)) {
                Some(e) => Some(ignored_end(s, e)),
                None => None,
            },
            None => None,
        },
        None => None,
    }
}

/// The parameters after the first of a `,`-separated list from `p`.
pub open spec fn pred_params_rest(s: Seq<u8>, p: int) -> int
    decreases s.len() - p,
{
    match tok_char(s, p, 44) {
        Some(q) => match pred_param(s, q) {
            Some(e) => if p < e <= s.len() {
                pred_params_rest(s, e)
            } else {
                p
            },
            None => p,
        },
        None => p,
    }
}

/// A possibly empty `,`-separated list of predicate parameters.
pub open spec fn pred_params(s: Seq<u8>, p: int) -> int {
    match pred_param(s, p) {
        Some(e) => if p < e <= s.len() {
            pred_params_rest(s, e)
        } else {
            p
        },
        None => p,
    }
}

/// A predicate declaration `predicate <name> ( <parameters> ) ;`, which is
/// read and then left out of the model.
pub open spec fn predicate_item(s: Seq<u8>, p: int) -> Option<int> {
    match tok_word(s, p, Word::Predicate) {
        Some(a) => match ident_end(s, ignored_end(s, a)) {
            Some(b) => match tok_char(s, ignored_end(s, b), 40) {
                Some(c) => match tok_char(s, pred_params(s, c), 41) {
                    Some(d) => tok_char(s, d, 59),
                    None => None,
                },
                None => None,
            },
            None => None,
        },
        None => None,
    }
}

fn set_of_word_x(s: &[u8], p: usize, w: Word) -> (r: Option<usize>)
    requires
        p <= s@.len(),
    ensures
        r matches Some(e) ==> set_of_word(s@, p as int, w) == Some(e as int) && p < e <= s@.len(),
        r is None ==> set_of_word(s@, p as int, w) is None,
{
    match set_of_x(s, p) {
        Some(q) => tok_word_x(s, q, w),
        None => None,
    }
}

fn basic_pred_type_x(s: &[u8], p: usize) -> (r: Option<usize>)
    requires
        p <= s@.len(),
    ensures
        r matches Some(e) ==> basic_pred_type(s@, p as int) == Some(e as int) && p < e <= s@.len(),
        r is None ==> basic_pred_type(s@, p as int) is None,
{
    if let Some((_, e)) = par_type_x(s, p) {
        return Some(e);
    }
    if let Some(e) = set_of_word_x(s, p, Word::Float) {
        return Some(e);
    }
    if let Some(a) = tok_word_x(s, p, Word::Var) {
        if let Some((_, e)) = var_type_x(s, a) {
            return Some(e);
        }
    }
    if let Some((_, e)) = set_int_x(s, p) {
        return Some(e);
    }
    if let Some((_, e)) = interval_float_x(s, p) {
        return Some(e);
    }
    if let Some(a) = set_of_word_x(s, p, Word::Int) {
        if let Some((_, e)) = set_int_x(s, a) {
            return Some(e);
        }
    }
    match set_of_word_x(s, p, Word::Float) {
        Some(a) => match set_float_x(s, a) {
            Some((_, e)) => Some(e),
            None => None,
        },
        None => None,
    }
}

fn pred_index_x(s: &[u8], p: usize) -> (r: Option<usize>)
    requires
        p <= s@.len(),
    ensures
        r matches Some(e) ==> pred_index(s@, p as int) == Some(e as int) && p < e <= s@.len(),
        r is None ==> pred_index(s@, p as int) is None,
{
    if let Some(e) = tok_word_x(s, p, Word::Int) {
        return Some(e);
    }
    match interval_int_x(s, skip_ignored(s, p)) {
        Some((_, e)) => Some(skip_ignored(s, e)),
        None => None,
    }
}

fn pred_type_x(s: &[u8], p: usize) -> (r: Option<usize>)
    requires
        p <= s@.len(),
    ensures
        r matches Some(e) ==> pred_type(s@, p as int) == Some(e as int) && p < e <= s@.len(),
        r is None ==> pred_type(s@, p as int) is None,
{
    if let Some(e) = basic_pred_type_x(s, p) {
        return Some(e);
    }
    let a = match tok_word_x(s, p, Word::Array) {
        Some(a) => a,
        None => return None,
    };
    let b = match tok_char_x(s, a, 91) {
        Some(b) => b,
        None => return None,
    };
    let c = match pred_index_x(s, b) {
        Some(c) => c,
        None => return None,
    };
    let d = match tok_char_x(s, c, 93) {
        Some(d) => d,
        None => return None,
    };
    match tok_word_x(s, d, Word::Of) {
        Some(f) => basic_pred_type_x(s, f),
        None => None,
    }
}

fn pred_param_x(s: &[u8], p: usize) -> (r: Option<usize>)
    requires
        p <= s@.len(),
    ensures
        r matches Some(e) ==> pred_param(s@, p as int) == Some(e as int) && p < e <= s@.len(),
        r is None ==> pred_param(s@, p as int) is None,
{
    let a = match pred_type_x(s, skip_ignored(s, p)) {
        Some(a) => a,
        None => return None,
    };
    let b = match tok_char_x(s, skip_ignored(s, a), 58) {
        Some(b) => b,
        None => return None,
    };
    match scan_ident(s, skip_ignored(s, b)) {
        Some(e) => Some(skip_ignored(s, e)),
        None => None,
    }
}

fn pred_params_x(s: &[u8], p: usize) -> (r: usize)
    requires
        p <= s@.len(),
    ensures
        r == pred_params(s@, p as int),
        p <= r <= s@.len(),
{
    let mut pos = match pred_param_x(s, p) {
        Some(e) => e,
        None => return p,
    };
    loop
        invariant
            p < pos <= s@.len(),
            pred_params(s@, p as int) == pred_params_rest(s@, pos as int),
        decreases s@.len() - pos,
    {
        let q = match tok_char_x(s, pos, 44) {
            Some(q) => q,
            None => return pos,
        };
        match pred_param_x(s, q) {
            Some(e) => {
                pos = e;
            },
            None => return pos,
        }
    }
}

/// Read a predicate declaration, giving the position after it.
pub fn predicate_item_x(s: &[u8], p: usize) -> (r: Option<usize>)
    requires
        p <= s@.len(),
    ensures
        r matches Some(e) ==> predicate_item(s@, p as int) == Some(e as int) && p < e <= s@.len(),
        r is None ==> predicate_item(s@, p as int) is None,
{
    let a = match tok_word_x(s, p, Word::Predicate) {
        Some(a) => a,
        None => return None,
    };
    let b = match scan_ident(s, skip_ignored(s, a)) {
        Some(b) => b,
        None => return None,
    };
    let c = match tok_char_x(s, skip_ignored(s, b), 40) {
        Some(c) => c,
        None => return None,
    };
    let d = match tok_char_x(s, pred_params_x(s, c), 41) {
        Some(d) => d,
        None => return None,
    };
    tok_char_x(s, d, 59)
}

// ----- the parameter types a predicate declaration accepts -----

/// `s` holds, from `p` to `e`, one of the basic parameter types `bool`,
/// `int`, `float` or `set of int`.
pub open spec fn basic_par_end(s: Seq<u8>, p: int, e: int) -> bool {
    ||| word_end(s, p, Word::Bool) == Some(e)
    ||| word_end(s, p, Word::Int) == Some(e)
    ||| word_end(s, p, Word::Float) == Some(e)
    ||| (set_of(s, p) matches Some(q) && tok_word(s, q, Word::Int) == Some(e))
}

/// A word found at `p` starts with the word's first byte.
proof fn lemma_word_first(s: Seq<u8>, p: int, w: Word)
    requires
        word_end(s, p, w) is Some,
    ensures
        0 <= p < s.len(),
        s[p] == word_bytes(w)[0],
{
    assert(s.subrange(p, p + word_bytes(w).len())[0] == s[p]);
}

/// Where `set of` starts at `p`, the byte at `p` is no first byte of `bool`,
/// `int` or `float`.
proof fn lemma_set_of_first(s: Seq<u8>, p: int)
    requires
        set_of(s, p) is Some,
    ensures
        0 <= p < s.len(),
        s[p] != 98 && s[p] != 105 && s[p] != 102,
{
    let i = ignored_end(s, p);
    lemma_word_first(s, i, Word::SetOf);
    if p < 0 || p >= s.len() {
        assert(i == p);
    } else {
        lemma_ignored_end(s, p);
    }
}

/// Each basic parameter type reads as a parameter type, to its end.
proof fn lemma_par_type_end(s: Seq<u8>, p: int, e: int)
    requires
        basic_par_end(s, p, e),
    ensures
        par_type(s, p) matches Some((_, x)) && x == e,
{
    if word_end(s, p, Word::Bool) is Some {
        lemma_word_first(s, p, Word::Bool);
    }
    if word_end(s, p, Word::Int) is Some {
        lemma_word_first(s, p, Word::Int);
    }
    if word_end(s, p, Word::Float) is Some {
        lemma_word_first(s, p, Word::Float);
    }
    if set_of(s, p) is Some {
        lemma_set_of_first(s, p);
    }
}

/// Each basic parameter type is a basic predicate parameter type, read to
/// its end, alone or as a whole parameter type.
pub proof fn law_predicate_basic_parameter_types(s: Seq<u8>, p: int, e: int)
    requires
        basic_par_end(s, p, e),
    ensures
        basic_pred_type(s, p) == Some(e),
        pred_type(s, p) == Some(e),
{
    lemma_par_type_end(s, p, e);
    assert(basic_pred_type(s, p) == Some(e));
}

/// `array [<index>] of` followed by a basic parameter type is a predicate
/// parameter type.
pub proof fn law_predicate_array_parameter_types(
    s: Seq<u8>,
    p: int,
    a: int,
    b: int,
    c: int,
    d: int,
    f: int,
    e: int,
)
    requires
        tok_word(s, p, Word::Array) == Some(a),
        tok_char(s, a, 91) == Some(b),
        pred_index(s, b) == Some(c),
        tok_char(s, c, 93) == Some(d),
        tok_word(s, d, Word::Of) == Some(f),
        basic_par_end(s, f, e),
    ensures
        pred_type(s, p) is Some,
{
    law_predicate_basic_parameter_types(s, f, e);
}

} // verus!
