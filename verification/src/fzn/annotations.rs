//! Annotations of the textual FlatZinc format.
use vstd::prelude::*;

use crate::fzn::literals::{literal, literal_x, tok_char, tok_char_x, tok_word, tok_word_x};
use crate::intermediate::Literal;
use crate::intermediate::{
    ann_arg_view, ann_call_view, ann_lit_view, lemma_views_push, lemma_views_remove_first, views, Annotation,
    AnnotationCall, AnnotationLiteral, Argument, NameId, SpecAnnotation, SpecAnnotationCall,
    SpecAnnotationLiteral, SpecArgument, SpecLiteral,
};
use crate::lex::{ident_end, ignored_end, scan_ident, skip_ignored, Word};
use crate::names::{grown, lemma_grown_refl, lemma_grown_trans, NameStore, Names};
use crate::text::{ascii_text, text_of};
use crate::fzn::literals::lemma_ident_ascii;

verus! {

pub proof fn lemma_ann_views(c: AnnotationCall)
    ensures
        c@.args == views(c.args@),
        c@.id == c.id@,
{
    assert forall|i: int| 0 <= i < c.args@.len() implies #[trigger] c.args@[i]@ == ann_arg_view(c.args@[i]) by {
        lemma_ann_arg_view(c.args@[i]);
    }
    assert(c@.args =~= views(c.args@));
}

pub proof fn lemma_ann_arg_view(a: Argument<AnnotationLiteral>)
    ensures
        a@ == ann_arg_view(a),
{
    match a {
        Argument::Array(v) => {
            let w = ann_arg_view(a)->Array_0;
            assert(ann_arg_view(a) is Array);
            assert(views(v@) =~= w);
        },
        Argument::Literal(l) => {},
    }
}

/// A raw annotation: its identifier and, for a call, its arguments.
pub ghost struct SpecRawAnnotation {
    pub ident: Seq<char>,
    pub args: Option<Seq<SpecArgument<SpecAnnotationLiteral>>>,
}

/// An annotation as read, before the special annotations are picked out.
#[derive(PartialEq, Debug)]
pub struct RawAnnotation {
    /// The annotation identifier.
    pub ident: String,
    /// The arguments of a call annotation.
    pub args: Option<Vec<Argument<AnnotationLiteral>>>,
}

impl View for RawAnnotation {
    type V = SpecRawAnnotation;

    open spec fn view(&self) -> SpecRawAnnotation {
        SpecRawAnnotation {
            ident: self.ident@,
            args: match &self.args {
                Some(a) => Some(views(a@)),
                None => None,
            },
        }
    }
}

/// An annotation call `id(args)` as an annotation argument.
pub open spec fn ann_call(s: Seq<u8>, p: int, n: Names) -> (Option<(SpecAnnotationCall, int)>, Names)
    decreases s.len() - p, 0int,
{
    match ident_end(s, p) {
        Some(e) => if p < e <= s.len() {
            match tok_char(s, e, 40) {
                Some(q) => if e < q <= s.len() {
                    let l = ann_args_list(s, q, n);
                    match tok_char(s, l.1, 41) {
                        Some(f) => (
                            Some((SpecAnnotationCall { id: text_of(s, p, e), args: l.0 }, f)),
                            l.2,
                        ),
                        None => (None, l.2),
                    }
                } else {
                    (None, n)
                },
                None => (None, n),
            }
        } else {
            (None, n)
        },
        None => (None, n),
    }
}

/// An annotation literal: an annotation call, else a literal.
pub open spec fn ann_lit(s: Seq<u8>, p: int, n: Names) -> (Option<(SpecAnnotationLiteral, int)>, Names)
    decreases s.len() - p, 2int,
{
    match ann_call(s, p, n).0 {
        Some((c, e)) => (Some((SpecAnnotationLiteral::Annotation(c), e)), ann_call(s, p, n).1),
        None => {
            let n1 = ann_call(s, p, n).1;
            match literal(s, p, n1).0 {
                Some((l, e)) => (Some((SpecAnnotationLiteral::Literal(l), e)), literal(s, p, n1).1),
                None => (None, literal(s, p, n1).1),
            }
        },
    }
}

/// An annotation literal with the whitespace and comments around it.
pub open spec fn tok_ann_lit(s: Seq<u8>, p: int, n: Names) -> (Option<(SpecAnnotationLiteral, int)>, Names)
    decreases s.len() - p, 4int,
{
    let q = ignored_end(s, p);
    if p <= q <= s.len() {
        match ann_lit(s, q, n).0 {
            Some((l, e)) => (Some((l, ignored_end(s, e))), ann_lit(s, q, n).1),
            None => (None, ann_lit(s, q, n).1),
        }
    } else {
        (None, n)
    }
}

/// The elements after the first of a `,`-separated list of ann_lits from `p`.
pub open spec fn ann_lits_rest(s: Seq<u8>, p: int, n: Names) -> (Seq<SpecAnnotationLiteral>, int, Names)
    decreases s.len() - p, 6int,
{
    match tok_char(s, p, 44) {
        Some(q) => if p < q <= s.len() {
            match tok_ann_lit(s, q, n).0 {
                Some((x, e)) => if p < e <= s.len() {
                    let r = ann_lits_rest(s, e, tok_ann_lit(s, q, n).1);
                    (seq![x] + r.0, r.1, r.2)
                } else {
                    (Seq::empty(), p, tok_ann_lit(s, q, n).1)
                },
                None => (Seq::empty(), p, tok_ann_lit(s, q, n).1),
            }
        } else {
            (Seq::empty(), p, n)
        },
        None => (Seq::empty(), p, n),
    }
}

/// A possibly empty `,`-separated list of ann_lits from `p`.
pub open spec fn ann_lits_list(s: Seq<u8>, p: int, n: Names) -> (Seq<SpecAnnotationLiteral>, int, Names)
    decreases s.len() - p, 5int,
{
    match tok_ann_lit(s, p, n).0 {
        Some((x, e)) => if p < e <= s.len() {
            let r = ann_lits_rest(s, e, tok_ann_lit(s, p, n).1);
            (seq![x] + r.0, r.1, r.2)
        } else { (Seq::empty(), p, tok_ann_lit(s, p, n).1) },
        None => (Seq::empty(), p, tok_ann_lit(s, p, n).1),
    }
}

/// An annotation argument: an annotation literal, else a `[..]` array of them.
pub open spec fn ann_arg(s: Seq<u8>, p: int, n: Names) -> (Option<(SpecArgument<SpecAnnotationLiteral>, int)>, Names)
    decreases s.len() - p, 3int,
{
    match ann_lit(s, p, n).0 {
        Some((l, e)) => (Some((SpecArgument::Literal(l), e)), ann_lit(s, p, n).1),
        None => {
            let n1 = ann_lit(s, p, n).1;
            match tok_char(s, p, 91) {
                Some(q) => if p < q <= s.len() {
                    let l = ann_lits_list(s, q, n1);
                    match tok_char(s, l.1, 93) {
                        Some(f) => (Some((SpecArgument::Array(l.0), f)), l.2),
                        None => (None, l.2),
                    }
                } else {
                    (None, n1)
                },
                None => (None, n1),
            }
        },
    }
}

/// An annotation argument with the whitespace and comments around it.
pub open spec fn tok_ann_arg(s: Seq<u8>, p: int, n: Names) -> (Option<(SpecArgument<SpecAnnotationLiteral>, int)>, Names)
    decreases s.len() - p, 4int,
{
    let q = ignored_end(s, p);
    if p <= q <= s.len() {
        match ann_arg(s, q, n).0 {
            Some((l, e)) => (Some((l, ignored_end(s, e))), ann_arg(s, q, n).1),
            None => (None, ann_arg(s, q, n).1),
        }
    } else {
        (None, n)
    }
}

/// The elements after the first of a `,`-separated list of ann_args from `p`.
pub open spec fn ann_args_rest(s: Seq<u8>, p: int, n: Names) -> (Seq<SpecArgument<SpecAnnotationLiteral>>, int, Names)
    decreases s.len() - p, 6int,
{
    match tok_char(s, p, 44) {
        Some(q) => if p < q <= s.len() {
            match tok_ann_arg(s, q, n).0 {
                Some((x, e)) => if p < e <= s.len() {
                    let r = ann_args_rest(s, e, tok_ann_arg(s, q, n).1);
                    (seq![x] + r.0, r.1, r.2)
                } else {
                    (Seq::empty(), p, tok_ann_arg(s, q, n).1)
                },
                None => (Seq::empty(), p, tok_ann_arg(s, q, n).1),
            }
        } else {
            (Seq::empty(), p, n)
        },
        None => (Seq::empty(), p, n),
    }
}

/// A possibly empty `,`-separated list of ann_args from `p`.
pub open spec fn ann_args_list(s: Seq<u8>, p: int, n: Names) -> (Seq<SpecArgument<SpecAnnotationLiteral>>, int, Names)
    decreases s.len() - p, 5int,
{
    match tok_ann_arg(s, p, n).0 {
        Some((x, e)) => if p < e <= s.len() {
            let r = ann_args_rest(s, e, tok_ann_arg(s, p, n).1);
            (seq![x] + r.0, r.1, r.2)
        } else { (Seq::empty(), p, tok_ann_arg(s, p, n).1) },
        None => (Seq::empty(), p, tok_ann_arg(s, p, n).1),
    }
}

fn ann_call_x(s: &[u8], p: usize, names: &mut NameStore) -> (r: Option<(AnnotationCall, usize)>)
    requires
        old(names).wf(),
        p <= s@.len(),
    ensures
        grown(old(names), final(names)),
        ann_call(s@, p as int, old(names).names()).1 == final(names).names(),
        r matches Some((l, e)) ==> ann_call(s@, p as int, old(names).names()).0 == Some((l@, e as int)) && p < e <= s@.len(),
        r is None ==> ann_call(s@, p as int, old(names).names()).0 is None,
    decreases s@.len() - p, 0int,
{
    proof {
        lemma_grown_refl(names);
    }
    let e = match scan_ident(s, p) {
        Some(e) => e,
        None => return None,
    };
    let q = match tok_char_x(s, e, 40) {
        Some(q) => q,
        None => return None,
    };
    let (args, f0) = ann_args_list_x(s, q, names);
    match tok_char_x(s, f0, 41) {
        Some(f) => {
            proof {
                lemma_ident_ascii(s@, p as int);
            }
            let c = AnnotationCall { id: ascii_text(s, p, e), args };
            proof {
                lemma_ann_views(c);
            }
            Some((c, f))
        },
        None => None,
    }
}

fn ann_lit_x(s: &[u8], p: usize, names: &mut NameStore) -> (r: Option<(AnnotationLiteral, usize)>)
    requires
        old(names).wf(),
        p <= s@.len(),
    ensures
        grown(old(names), final(names)),
        ann_lit(s@, p as int, old(names).names()).1 == final(names).names(),
        r matches Some((l, e)) ==> ann_lit(s@, p as int, old(names).names()).0 == Some((l@, e as int)) && p < e <= s@.len(),
        r is None ==> ann_lit(s@, p as int, old(names).names()).0 is None,
    decreases s@.len() - p, 2int,
{
    if let Some((c, e)) = ann_call_x(s, p, names) {
        return Some((AnnotationLiteral::Annotation(c), e));
    }
    let ghost mid = *names;
    let r = literal_x(s, p, names);
    proof {
        lemma_grown_trans(old(names), &mid, names);
    }
    match r {
        Some((l, e)) => Some((AnnotationLiteral::Literal(l), e)),
        None => None,
    }
}

fn tok_ann_lit_x(s: &[u8], p: usize, names: &mut NameStore) -> (r: Option<(AnnotationLiteral, usize)>)
    requires
        old(names).wf(),
        p <= s@.len(),
    ensures
        grown(old(names), final(names)),
        tok_ann_lit(s@, p as int, old(names).names()).1 == final(names).names(),
        r matches Some((l, e)) ==> tok_ann_lit(s@, p as int, old(names).names()).0 == Some((l@, e as int)) && p < e <= s@.len(),
        r is None ==> tok_ann_lit(s@, p as int, old(names).names()).0 is None,
    decreases s@.len() - p, 4int,
{
    let q = skip_ignored(s, p);
    match ann_lit_x(s, q, names) {
        Some((l, e)) => Some((l, skip_ignored(s, e))),
        None => None,
    }
}

#[verifier::rlimit(40)]
fn ann_lits_list_x(s: &[u8], p: usize, names: &mut NameStore) -> (r: (Vec<AnnotationLiteral>, usize))
    requires
        old(names).wf(),
        p <= s@.len(),
    ensures
        grown(old(names), final(names)),
        ann_lits_list(s@, p as int, old(names).names()) == (views(r.0@), r.1 as int, final(names).names()),
        p <= r.1 <= s@.len(),
    decreases s@.len() - p, 5int,
{
    match tok_ann_lit_x(s, p, names) {
        None => {
            proof {
                assert(views(Seq::<AnnotationLiteral>::empty()) =~= Seq::empty());
            }
            (Vec::new(), p)
        },
        Some((x, e)) => {
            let mut acc: Vec<AnnotationLiteral> = Vec::new();
            acc.push(x);
            let ghost mut gacc = seq![x@];
            proof {
                assert(views(acc@) =~= gacc);
            }
            let mut pos = e;
            loop
                invariant_except_break
                    ({
                        let r = ann_lits_rest(s@, pos as int, names.names());
                        ann_lits_list(s@, p as int, old(names).names()) == (gacc + r.0, r.1, r.2)
                    }),
                invariant
                    old(names).wf(),
                    grown(old(names), names),
                    p <= pos <= s@.len(),
                    views(acc@) == gacc,
                ensures
                    grown(old(names), names),
                    p <= pos <= s@.len(),
                    views(acc@) == gacc,
                    ann_lits_list(s@, p as int, old(names).names()) == (gacc, pos as int, names.names()),
                decreases s@.len() - pos,
            {
                match tok_char_x(s, pos, 44) {
                    None => {
                        proof {
                            assert(gacc + Seq::<_>::empty() =~= gacc);
                        }
                        break;
                    },
                    Some(q) => {
                        let ghost before = *names;
                        let res = tok_ann_lit_x(s, q, names);
                        proof {
                            lemma_grown_trans(old(names), &before, names);
                        }
                        match res {
                            None => {
                                proof {
                                    assert(gacc + Seq::<_>::empty() =~= gacc);
                                }
                                break;
                            },
                            Some((y, e2)) => {
                                proof {
                                    lemma_views_push(acc@, y);
                                    assert(gacc + (seq![y@] + ann_lits_rest(s@, e2 as int, names.names()).0) =~= gacc.push(y@) + ann_lits_rest(s@, e2 as int, names.names()).0);
                                    gacc = gacc.push(y@);
                                }
                                acc.push(y);
                                pos = e2;
                            },
                        }
                    },
                }
            }
            (acc, pos)
        },
    }
}

fn ann_arg_x(s: &[u8], p: usize, names: &mut NameStore) -> (r: Option<(Argument<AnnotationLiteral>, usize)>)
    requires
        old(names).wf(),
        p <= s@.len(),
    ensures
        grown(old(names), final(names)),
        ann_arg(s@, p as int, old(names).names()).1 == final(names).names(),
        r matches Some((l, e)) ==> ann_arg(s@, p as int, old(names).names()).0 == Some((l@, e as int)) && p < e <= s@.len(),
        r is None ==> ann_arg(s@, p as int, old(names).names()).0 is None,
    decreases s@.len() - p, 3int,
{
    if let Some((l, e)) = ann_lit_x(s, p, names) {
        return Some((Argument::Literal(l), e));
    }
    let q = match tok_char_x(s, p, 91) {
        Some(q) => q,
        None => return None,
    };
    let ghost mid = *names;
    let (v, f0) = ann_lits_list_x(s, q, names);
    proof {
        lemma_grown_trans(old(names), &mid, names);
    }
    match tok_char_x(s, f0, 93) {
        Some(f) => Some((Argument::Array(v), f)),
        None => None,
    }
}

fn tok_ann_arg_x(s: &[u8], p: usize, names: &mut NameStore) -> (r: Option<(Argument<AnnotationLiteral>, usize)>)
    requires
        old(names).wf(),
        p <= s@.len(),
    ensures
        grown(old(names), final(names)),
        tok_ann_arg(s@, p as int, old(names).names()).1 == final(names).names(),
        r matches Some((l, e)) ==> tok_ann_arg(s@, p as int, old(names).names()).0 == Some((l@, e as int)) && p < e <= s@.len(),
        r is None ==> tok_ann_arg(s@, p as int, old(names).names()).0 is None,
    decreases s@.len() - p, 4int,
{
    let q = skip_ignored(s, p);
    match ann_arg_x(s, q, names) {
        Some((l, e)) => Some((l, skip_ignored(s, e))),
        None => None,
    }
}

#[verifier::rlimit(40)]
fn ann_args_list_x(s: &[u8], p: usize, names: &mut NameStore) -> (r: (Vec<Argument<AnnotationLiteral>>, usize))
    requires
        old(names).wf(),
        p <= s@.len(),
    ensures
        grown(old(names), final(names)),
        ann_args_list(s@, p as int, old(names).names()) == (views(r.0@), r.1 as int, final(names).names()),
        p <= r.1 <= s@.len(),
    decreases s@.len() - p, 5int,
{
    match tok_ann_arg_x(s, p, names) {
        None => {
            proof {
                assert(views(Seq::<Argument<AnnotationLiteral>>::empty()) =~= Seq::empty());
            }
            (Vec::new(), p)
        },
        Some((x, e)) => {
            let mut acc: Vec<Argument<AnnotationLiteral>> = Vec::new();
            acc.push(x);
            let ghost mut gacc = seq![x@];
            proof {
                assert(views(acc@) =~= gacc);
            }
            let mut pos = e;
            loop
                invariant_except_break
                    ({
                        let r = ann_args_rest(s@, pos as int, names.names());
                        ann_args_list(s@, p as int, old(names).names()) == (gacc + r.0, r.1, r.2)
                    }),
                invariant
                    old(names).wf(),
                    grown(old(names), names),
                    p <= pos <= s@.len(),
                    views(acc@) == gacc,
                ensures
                    grown(old(names), names),
                    p <= pos <= s@.len(),
                    views(acc@) == gacc,
                    ann_args_list(s@, p as int, old(names).names()) == (gacc, pos as int, names.names()),
                decreases s@.len() - pos,
            {
                match tok_char_x(s, pos, 44) {
                    None => {
                        proof {
                            assert(gacc + Seq::<_>::empty() =~= gacc);
                        }
                        break;
                    },
                    Some(q) => {
                        let ghost before = *names;
                        let res = tok_ann_arg_x(s, q, names);
                        proof {
                            lemma_grown_trans(old(names), &before, names);
                        }
                        match res {
                            None => {
                                proof {
                                    assert(gacc + Seq::<_>::empty() =~= gacc);
                                }
                                break;
                            },
                            Some((y, e2)) => {
                                proof {
                                    lemma_views_push(acc@, y);
                                    assert(gacc + (seq![y@] + ann_args_rest(s@, e2 as int, names.names()).0) =~= gacc.push(y@) + ann_args_rest(s@, e2 as int, names.names()).0);
                                    gacc = gacc.push(y@);
                                }
                                acc.push(y);
                                pos = e2;
                            },
                        }
                    },
                }
            }
            (acc, pos)
        },
    }
}

/// An annotation `:: id` or `:: id(args)`; when the argument list does not
/// parse, the annotation is the atom `id`.
pub open spec fn raw_ann(s: Seq<u8>, p: int, n: Names) -> (Option<(SpecRawAnnotation, int)>, Names) {
    match tok_word(s, p, Word::ColonColon) {
        Some(q) => match ident_end(s, q) {
            Some(e) => {
                let id = text_of(s, q, e);
                match tok_char(s, e, 40) {
                    Some(a) => {
                        let l = ann_args_list(s, a, n);
                        match tok_char(s, l.1, 41) {
                            Some(f) => (Some((SpecRawAnnotation { ident: id, args: Some(l.0) }, f)), l.2),
                            None => (Some((SpecRawAnnotation { ident: id, args: None }, e)), l.2),
                        }
                    },
                    None => (Some((SpecRawAnnotation { ident: id, args: None }, e)), n),
                }
            },
            None => (None, n),
        },
        None => (None, n),
    }
}

/// Zero or more annotations from `p`.
pub open spec fn raw_anns(s: Seq<u8>, p: int, n: Names) -> (Seq<SpecRawAnnotation>, int, Names)
    decreases s.len() - p,
{
    match raw_ann(s, p, n).0 {
        Some((a, e)) => if p < e <= s.len() {
            let r = raw_anns(s, e, raw_ann(s, p, n).1);
            (seq![a] + r.0, r.1, r.2)
        } else {
            (Seq::empty(), p, raw_ann(s, p, n).1)
        },
        None => (Seq::empty(), p, raw_ann(s, p, n).1),
    }
}

/// An annotation as kept: a call when it has arguments, else an atom.
pub open spec fn general_ann(a: SpecRawAnnotation) -> SpecAnnotation {
    match a.args {
        Some(args) => SpecAnnotation::Call(SpecAnnotationCall { id: a.ident, args }),
        None => SpecAnnotation::Atom(a.ident),
    }
}

/// Annotations of a solve item: all kept.
pub open spec fn general_anns(raw: Seq<SpecRawAnnotation>) -> Seq<SpecAnnotation> {
    raw.map_values(|a: SpecRawAnnotation| general_ann(a))
}

/// What the special annotations of a declaration say of it.
pub ghost struct SpecFlags {
    pub defined: bool,
    pub introduced: bool,
    pub output: bool,
}

/// Annotations of a declaration: the atoms `is_defined_var`,
/// `var_is_introduced` and `output_var` and the call `output_array(..)`
/// become flags; the others are kept in order.
pub open spec fn variable_anns(raw: Seq<SpecRawAnnotation>) -> (SpecFlags, Seq<SpecAnnotation>)
    decreases raw.len(),
{
    if raw.len() == 0 {
        (SpecFlags { defined: false, introduced: false, output: false }, Seq::empty())
    } else {
        let (f, kept) = variable_anns(raw.drop_last());
        let a = raw.last();
        if a.ident == "is_defined_var"@ && a.args is None {
            (SpecFlags { defined: true, ..f }, kept)
        } else if a.ident == "var_is_introduced"@ && a.args is None {
            (SpecFlags { introduced: true, ..f }, kept)
        } else if a.ident == "output_var"@ && a.args is None {
            (SpecFlags { output: true, ..f }, kept)
        } else if a.ident == "output_array"@ && a.args is Some {
            (SpecFlags { output: true, ..f }, kept)
        } else {
            (f, kept.push(general_ann(a)))
        }
    }
}

/// Annotations of a constraint: `defines_var(x)` with a single name
/// argument names the defined variable (the last such one counts); a
/// `defines_var` call with one other argument is kept with that argument
/// removed; the others are kept in order.
pub open spec fn constraint_anns(raw: Seq<SpecRawAnnotation>) -> (Option<nat>, Seq<SpecAnnotation>)
    decreases raw.len(),
{
    if raw.len() == 0 {
        (None, Seq::empty())
    } else {
        let (d, kept) = constraint_anns(raw.drop_last());
        let a = raw.last();
        if a.ident == "defines_var"@ && (a.args is Some && a.args->0.len() == 1) {
            match a.args->0[0] {
                SpecArgument::Literal(SpecAnnotationLiteral::Literal(SpecLiteral::Reference(id))) => (Some(id), kept),
                _ => (d, kept.push(SpecAnnotation::Call(SpecAnnotationCall { id: a.ident, args: Seq::empty() }))),
            }
        } else {
            (d, kept.push(general_ann(a)))
        }
    }
}

fn raw_ann_x(s: &[u8], p: usize, names: &mut NameStore) -> (r: Option<(RawAnnotation, usize)>)
    requires
        old(names).wf(),
        p <= s@.len(),
    ensures
        grown(old(names), final(names)),
        raw_ann(s@, p as int, old(names).names()).1 == final(names).names(),
        r matches Some((l, e)) ==> raw_ann(s@, p as int, old(names).names()).0 == Some((l@, e as int)) && p < e <= s@.len(),
        r is None ==> raw_ann(s@, p as int, old(names).names()).0 is None,
{
    proof {
        lemma_grown_refl(names);
    }
    let q = match tok_word_x(s, p, Word::ColonColon) {
        Some(q) => q,
        None => return None,
    };
    let e = match scan_ident(s, q) {
        Some(e) => e,
        None => return None,
    };
    proof {
        lemma_ident_ascii(s@, q as int);
    }
    let ident = ascii_text(s, q, e);
    let a = match tok_char_x(s, e, 40) {
        Some(a) => a,
        None => return Some((RawAnnotation { ident, args: None }, e)),
    };
    let (args, f0) = ann_args_list_x(s, a, names);
    match tok_char_x(s, f0, 41) {
        Some(f) => Some((RawAnnotation { ident, args: Some(args) }, f)),
        None => Some((RawAnnotation { ident, args: None }, e)),
    }
}

/// Read zero or more annotations.
pub fn raw_anns_x(s: &[u8], p: usize, names: &mut NameStore) -> (r: (Vec<RawAnnotation>, usize))
    requires
        old(names).wf(),
        p <= s@.len(),
    ensures
        grown(old(names), final(names)),
        raw_anns(s@, p as int, old(names).names()) == (views(r.0@), r.1 as int, final(names).names()),
        p <= r.1 <= s@.len(),
{
    let mut acc: Vec<RawAnnotation> = Vec::new();
    let ghost mut gacc: Seq<SpecRawAnnotation> = Seq::empty();
    let mut pos = p;
    proof {
        lemma_grown_refl(names);
        assert(views(acc@) =~= gacc);
        assert(gacc + raw_anns(s@, p as int, names.names()).0 =~= raw_anns(s@, p as int, names.names()).0);
    }
    loop
        invariant_except_break
            ({
                let r = raw_anns(s@, pos as int, names.names());
                raw_anns(s@, p as int, old(names).names()) == (gacc + r.0, r.1, r.2)
            }),
        invariant
            old(names).wf(),
            grown(old(names), names),
            p <= pos <= s@.len(),
            views(acc@) == gacc,
        ensures
            grown(old(names), names),
            p <= pos <= s@.len(),
            views(acc@) == gacc,
            raw_anns(s@, p as int, old(names).names()) == (gacc, pos as int, names.names()),
        decreases s@.len() - pos,
    {
        let ghost before = *names;
        let res = raw_ann_x(s, pos, names);
        proof {
            lemma_grown_trans(old(names), &before, names);
        }
        match res {
            None => {
                proof {
                    assert(gacc + Seq::<SpecRawAnnotation>::empty() =~= gacc);
                }
                break;
            },
            Some((a, e)) => {
                proof {
                    lemma_views_push(acc@, a);
                    assert(gacc + (seq![a@] + raw_anns(s@, e as int, names.names()).0) =~= gacc.push(a@) + raw_anns(s@, e as int, names.names()).0);
                    gacc = gacc.push(a@);
                }
                acc.push(a);
                pos = e;
            },
        }
    }
    (acc, pos)
}

fn general_ann_x(a: RawAnnotation) -> (r: Annotation)
    ensures
        r@ == general_ann(a@),
{
    match a.args {
        Some(args) => {
            let c = AnnotationCall { id: a.ident, args };
            proof {
                lemma_ann_views(c);
            }
            Annotation::Call(c)
        },
        None => Annotation::Atom(a.ident),
    }
}

/// The annotations of a solve item.
pub fn general_anns_x(raw: Vec<RawAnnotation>) -> (r: Vec<Annotation>)
    ensures
        views(r@) == general_anns(views(raw@)),
{
    let ghost all = views(raw@);
    let mut rest = raw;
    let mut out: Vec<Annotation> = Vec::new();
    proof {
        assert(all.subrange(0, all.len() as int) =~= all);
        assert(views(out@) =~= general_anns(all.subrange(0, 0)));
    }
    while rest.len() > 0
        invariant
            out@.len() + rest@.len() == all.len(),
            views(rest@) == all.subrange(out@.len() as int, all.len() as int),
            views(out@) == general_anns(all.subrange(0, out@.len() as int)),
        decreases rest@.len(),
    {
        let ghost k = out@.len() as int;
        let ghost before = rest@;
        let a = rest.remove(0);
        proof {
            assert(views(before)[0] == a@);
            assert(a@ == all[k]);
            lemma_views_remove_first(before);
            assert(views(rest@) =~= all.subrange(k + 1, all.len() as int));
        }
        let g = general_ann_x(a);
        proof {
            lemma_views_push(out@, g);
        }
        out.push(g);
        proof {
            assert(general_anns(all.subrange(0, k + 1)) =~= general_anns(all.subrange(0, k)).push(general_ann(all[k])));
        }
    }
    proof {
        assert(all.subrange(0, all.len() as int) =~= all);
    }
    out
}

/// The flags and the kept annotations of a declaration.
pub fn variable_anns_x(raw: Vec<RawAnnotation>) -> (r: (bool, bool, bool, Vec<Annotation>))
    ensures
        variable_anns(views(raw@)) == (SpecFlags { defined: r.0, introduced: r.1, output: r.2 }, views(r.3@)),
{
    let ghost all = views(raw@);
    let mut rest = raw;
    let mut out: Vec<Annotation> = Vec::new();
    let mut defined = false;
    let mut introduced = false;
    let mut output = false;
    let ghost mut k: int = 0;
    let is_defined_var = "is_defined_var".to_owned();
    let var_is_introduced = "var_is_introduced".to_owned();
    let output_var = "output_var".to_owned();
    let output_array = "output_array".to_owned();
    proof {
        assert(all.subrange(0, all.len() as int) =~= all);
        assert(all.subrange(0, 0) =~= Seq::<SpecRawAnnotation>::empty());
        assert(views(out@) =~= Seq::<SpecAnnotation>::empty());
    }
    while rest.len() > 0
        invariant
            0 <= k <= all.len(),
            k + rest@.len() == all.len(),
            views(rest@) == all.subrange(k, all.len() as int),
            variable_anns(all.subrange(0, k)) == (SpecFlags { defined, introduced, output }, views(out@)),
            is_defined_var@ == "is_defined_var"@,
            var_is_introduced@ == "var_is_introduced"@,
            output_var@ == "output_var"@,
            output_array@ == "output_array"@,
        decreases rest@.len(),
    {
        let ghost before = rest@;
        let a = rest.remove(0);
        proof {
            assert(views(before)[0] == a@);
            assert(a@ == all[k]);
            lemma_views_remove_first(before);
            assert(views(rest@) =~= all.subrange(k + 1, all.len() as int));
            assert(all.subrange(0, k + 1).drop_last() =~= all.subrange(0, k));
            assert(all.subrange(0, k + 1).last() == all[k]);
        }
        let no_args = a.args.is_none();
        if a.ident == is_defined_var && no_args {
            defined = true;
        } else if a.ident == var_is_introduced && no_args {
            introduced = true;
        } else if a.ident == output_var && no_args {
            output = true;
        } else if a.ident == output_array && !no_args {
            output = true;
        } else {
            let g = general_ann_x(a);
            proof {
                lemma_views_push(out@, g);
            }
            out.push(g);
        }
        proof {
            k = k + 1;
        }
    }
    proof {
        assert(all.subrange(0, all.len() as int) =~= all);
    }
    (defined, introduced, output, out)
}

/// The defined name and the kept annotations of a constraint.
pub fn constraint_anns_x(raw: Vec<RawAnnotation>) -> (r: (Option<NameId>, Vec<Annotation>))
    ensures
        constraint_anns(views(raw@)) == ((match r.0 {
            Some(i) => Some(i as nat),
            None => None,
        }), views(r.1@)),
{
    let ghost all = views(raw@);
    let mut rest = raw;
    let mut out: Vec<Annotation> = Vec::new();
    let mut defines: Option<NameId> = None;
    let ghost mut k: int = 0;
    let defines_var = "defines_var".to_owned();
    proof {
        assert(all.subrange(0, all.len() as int) =~= all);
        assert(all.subrange(0, 0) =~= Seq::<SpecRawAnnotation>::empty());
        assert(views(out@) =~= Seq::<SpecAnnotation>::empty());
    }
    while rest.len() > 0
        invariant
            0 <= k <= all.len(),
            k + rest@.len() == all.len(),
            views(rest@) == all.subrange(k, all.len() as int),
            constraint_anns(all.subrange(0, k)) == ((match defines {
                Some(i) => Some(i as nat),
                None => None,
            }), views(out@)),
            defines_var@ == "defines_var"@,
        decreases rest@.len(),
    {
        let ghost before = rest@;
        let a = rest.remove(0);
        proof {
            assert(views(before)[0] == a@);
            assert(a@ == all[k]);
            lemma_views_remove_first(before);
            assert(views(rest@) =~= all.subrange(k + 1, all.len() as int));
            assert(all.subrange(0, k + 1).drop_last() =~= all.subrange(0, k));
            assert(all.subrange(0, k + 1).last() == all[k]);
        }
        let is_def = a.ident == defines_var;
        match a.args {
            Some(mut args) if is_def && args.len() == 1 => {
                let ghost args0 = args@;
                let first = args.remove(0);
                proof {
                    assert(views(args0)[0] == first@);
                }
                match first {
                    Argument::Literal(AnnotationLiteral::Literal(Literal::Reference(id))) => {
                        defines = Some(id);
                    },
                    _ => {
                        let g = Annotation::Call(AnnotationCall { id: a.ident, args });
                        proof {
                            assert(views(args@) =~= Seq::<SpecArgument<SpecAnnotationLiteral>>::empty());
                            lemma_ann_views(g->Call_0);
                            lemma_views_push(out@, g);
                        }
                        out.push(g);
                    },
                }
            },
            args => {
                let g = general_ann_x(RawAnnotation { ident: a.ident, args });
                proof {
                    lemma_views_push(out@, g);
                }
                out.push(g);
            },
        }
        proof {
            k = k + 1;
        }
    }
    proof {
        assert(all.subrange(0, all.len() as int) =~= all);
    }
    (defines, out)
}

} // verus!
