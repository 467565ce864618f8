//! Linking a model that has been read: every name is resolved to the one
//! shared declaration of that name.
//!
//! Declarations are built on first use and kept, so that later references
//! share them. While a declaration is being built its name is marked; an
//! annotation that leads back to a marked name is dropped, and a name that is
//! referenced in an annotation but never declared becomes an atom.
use std::sync::Arc;

use vstd::prelude::*;

use crate::error::LinkError;
use crate::intermediate as im;
use crate::intermediate::{
    views, SpecAnnotation, SpecAnnotationCall, SpecAnnotationLiteral, SpecArgument, SpecArray,
    SpecConstraint, SpecDeclaration, SpecLiteral, SpecMethod, SpecVarType, SpecVariable,
};
use crate::model::{
    int_range_list, named_name, range_elems, share, AnnotationCall, Annotation, AnnotationLiteral, Argument,
    Array, Constraint, FlatZinc, Literal, Method, NamedRef, PAnn, PAnnLit, PArg, PArray, PCall,
    PConstraint, PFlatZinc, PLit, PMethod, PNamed, PSolve, PType, PVar, SolveObjective, Type,
    VarRef, Variable,
};
use crate::names::{NameEntry, NameStore};
use crate::intermediate::NameId;
use crate::fzn::annotations::lemma_ann_views;
use crate::intermediate::lemma_views_push;

verus! {

/// The state of linking: each slot's name and what is still to be built of
/// it, the declarations built so far, the names whose declaration is being
/// built, whether a reference back to such a name was met, and the text of
/// the atom that each undeclared name in an annotation becomes.
pub ghost struct LinkState {
    pub atoms: Seq<Seq<char>>,
    pub entries: Seq<(Seq<char>, SpecDeclaration)>,
    pub memo: Seq<Option<PNamed>>,
    pub in_progress: Seq<bool>,
    pub self_ref: bool,
}

/// The kinds of linking failure.
pub ghost enum SpecLinkError {
    /// A name that is not declared, or that leads back to itself.
    Unknown(Seq<char>),
    /// A named array where a single literal is expected.
    Nested(Seq<char>),
}

/// `e` is a linking error of kind `k`.
pub open spec fn link_error_is(e: LinkError, k: SpecLinkError) -> bool {
    match k {
        SpecLinkError::Unknown(n) => e matches LinkError::UnknownReference(s) && s@ == n,
        SpecLinkError::Nested(n) => e matches LinkError::NestedArray(s) && s@ == n,
    }
}

/// `r` is the outcome `s`.
pub open spec fn result_is<T: View>(r: Result<T, LinkError>, s: Result<T::V, SpecLinkError>) -> bool {
    match r {
        Ok(x) => s == Ok::<T::V, SpecLinkError>(x@),
        Err(e) => s matches Err(k) && link_error_is(e, k),
    }
}

/// `r` is the outcome `s`, element by element.
pub open spec fn results_are<T: View>(r: Result<Vec<T>, LinkError>, s: Result<Seq<T::V>, SpecLinkError>) -> bool {
    match r {
        Ok(x) => s == Ok::<Seq<T::V>, SpecLinkError>(views(x@)),
        Err(e) => s matches Err(k) && link_error_is(e, k),
    }
}

/// `acc` put before the values of a successful outcome.
pub open spec fn prepend<T>(acc: Seq<T>, r: (Result<Seq<T>, SpecLinkError>, LinkState)) -> (Result<Seq<T>, SpecLinkError>, LinkState) {
    (
        match r.0 {
            Ok(xs) => Ok(acc + xs),
            Err(e) => Err(e),
        },
        r.1,
    )
}

/// How many names are marked.
pub open spec fn count_true(s: Seq<bool>) -> nat
    decreases s.len(),
{
    if s.len() == 0 {
        0
    } else {
        (if s.last() {
            1nat
        } else {
            0nat
        }) + count_true(s.drop_last())
    }
}

pub proof fn lemma_count_bound(s: Seq<bool>, i: int)
    requires
        0 <= i < s.len(),
        !s[i],
    ensures
        count_true(s) < s.len(),
        count_true(s.update(i, true)) == count_true(s) + 1,
    decreases s.len(),
{
    if i == s.len() - 1 {
        lemma_count_le(s.drop_last());
        assert(s.update(i, true).drop_last() =~= s.drop_last());
    } else {
        lemma_count_bound(s.drop_last(), i);
        assert(s.update(i, true).drop_last() =~= s.drop_last().update(i, true));
    }
}

pub proof fn lemma_count_le(s: Seq<bool>)
    ensures
        count_true(s) <= s.len(),
    decreases s.len(),
{
    if s.len() > 0 {
        lemma_count_le(s.drop_last());
    }
}

// ----- sizes, which bound how deep linking recurses -----

pub open spec fn lits_size(v: Seq<SpecLiteral>) -> nat {
    2 * v.len()
}

pub open spec fn ann_lit_size(l: SpecAnnotationLiteral) -> nat
    decreases l,
{
    match l {
        SpecAnnotationLiteral::Literal(_) => 2,
        SpecAnnotationLiteral::Annotation(c) => 1 + call_size(c),
    }
}

pub open spec fn call_size(c: SpecAnnotationCall) -> nat
    decreases c,
{
    1 + ann_args_size(c.args)
}

pub open spec fn ann_args_size(v: Seq<SpecArgument<SpecAnnotationLiteral>>) -> nat
    decreases v,
{
    if v.len() == 0 {
        0
    } else {
        1 + ann_arg_size(v[0]) + ann_args_size(v.drop_first())
    }
}

pub open spec fn ann_arg_size(a: SpecArgument<SpecAnnotationLiteral>) -> nat
    decreases a,
{
    match a {
        SpecArgument::Array(v) => 1 + ann_lits_size(v),
        SpecArgument::Literal(l) => 1 + ann_lit_size(l),
    }
}

pub open spec fn ann_lits_size(v: Seq<SpecAnnotationLiteral>) -> nat
    decreases v,
{
    if v.len() == 0 {
        0
    } else {
        1 + ann_lit_size(v[0]) + ann_lits_size(v.drop_first())
    }
}

pub open spec fn ann_size(a: SpecAnnotation) -> nat {
    match a {
        SpecAnnotation::Atom(_) => 1,
        SpecAnnotation::Call(c) => 1 + call_size(c),
    }
}

pub open spec fn anns_size(v: Seq<SpecAnnotation>) -> nat
    decreases v.len(),
{
    if v.len() == 0 {
        0
    } else {
        1 + ann_size(v[0]) + anns_size(v.drop_first())
    }
}

pub open spec fn con_arg_size(a: SpecArgument<SpecLiteral>) -> nat {
    match a {
        SpecArgument::Array(v) => 1 + lits_size(v),
        SpecArgument::Literal(_) => 2,
    }
}

pub open spec fn con_args_size(v: Seq<SpecArgument<SpecLiteral>>) -> nat
    decreases v.len(),
{
    if v.len() == 0 {
        0
    } else {
        1 + con_arg_size(v[0]) + con_args_size(v.drop_first())
    }
}

/// The type of a variable, with an integer domain as the integers it covers.
pub open spec fn link_type(t: SpecVarType) -> PType {
    match t {
        SpecVarType::Bool => PType::Bool,
        SpecVarType::Int(d) => PType::Int(
            match d {
                Some(r) => Some(range_elems(r)),
                None => None,
            },
        ),
        SpecVarType::Float(d) => PType::Float(d),
        SpecVarType::IntSet(d) => PType::IntSet(
            match d {
                Some(r) => Some(range_elems(r)),
                None => None,
            },
        ),
    }
}

// ----- linking -----

/// The atom text of slot `id`, or the empty text for a slot out of range.
pub open spec fn atom_name(st: LinkState, id: nat) -> Seq<char> {
    if id < st.atoms.len() {
        st.atoms[id as int]
    } else {
        Seq::empty()
    }
}

/// Resolve name `id`: a declaration built before is shared; a name being
/// built is a reference back to itself; an undeclared name is unknown;
/// otherwise the declaration is built and kept.
pub open spec fn resolve(st: LinkState, id: nat, total: nat, depth: nat) -> (Result<PNamed, SpecLinkError>, LinkState)
    decreases total - depth, 0nat,
{
    if id >= st.entries.len() || id >= st.memo.len() || id >= st.in_progress.len() {
        (Err(SpecLinkError::Unknown(Seq::empty())), st)
    } else if st.memo[id as int] is Some {
        (Ok(st.memo[id as int]->0), st)
    } else if st.in_progress[id as int] {
        (Err(SpecLinkError::Unknown(st.entries[id as int].0)), LinkState { self_ref: true, ..st })
    } else if st.entries[id as int].1 is Uninit || depth >= total {
        (Err(SpecLinkError::Unknown(st.entries[id as int].0)), st)
    } else {
        let name = st.entries[id as int].0;
        let st1 = LinkState {
            entries: st.entries.update(id as int, (Seq::empty(), SpecDeclaration::Uninit)),
            in_progress: st.in_progress.update(id as int, true),
            ..st
        };
        match st.entries[id as int].1 {
            SpecDeclaration::Variable(v) => {
                let r = create_variable(st1, name, v, total, (depth + 1) as nat);
                let st3 = LinkState { self_ref: st.self_ref, ..r.1 };
                match r.0 {
                    Ok(pv) => (
                        Ok(PNamed::Variable(pv)),
                        LinkState { memo: st3.memo.update(id as int, Some(PNamed::Variable(pv))), ..st3 },
                    ),
                    Err(e) => (Err(e), st3),
                }
            },
            SpecDeclaration::Array(a) => {
                let r = create_array(st1, name, a, total, (depth + 1) as nat);
                let st3 = LinkState { self_ref: st.self_ref, ..r.1 };
                match r.0 {
                    Ok(pa) => (
                        Ok(PNamed::Array(pa)),
                        LinkState { memo: st3.memo.update(id as int, Some(PNamed::Array(pa))), ..st3 },
                    ),
                    Err(e) => (Err(e), st3),
                }
            },
            SpecDeclaration::Uninit => (Err(SpecLinkError::Unknown(name)), st),
        }
    }
}

/// Build a variable declaration: its annotations are linked.
pub open spec fn create_variable(st: LinkState, name: Seq<char>, v: SpecVariable, total: nat, depth: nat) -> (Result<PVar, SpecLinkError>, LinkState)
    decreases total - depth, anns_size(v.ann) + 1,
{
    let r = link_anns(st, v.ann, total, depth);
    match r.0 {
        Ok(ann) => (
            Ok(PVar { name, ty: link_type(v.ty), ann, defined: v.defined, introduced: v.introduced }),
            r.1,
        ),
        Err(e) => (Err(e), r.1),
    }
}

/// Build an array declaration: its contents and then its annotations are
/// linked.
pub open spec fn create_array(st: LinkState, name: Seq<char>, a: SpecArray, total: nat, depth: nat) -> (Result<PArray, SpecLinkError>, LinkState)
    decreases total - depth, lits_size(a.contents) + anns_size(a.ann) + 1,
{
    let r1 = link_lits(st, a.contents, total, depth);
    match r1.0 {
        Ok(contents) => {
            let r2 = link_anns(r1.1, a.ann, total, depth);
            match r2.0 {
                Ok(ann) => (
                    Ok(PArray { name, contents, ann, defined: a.defined, introduced: a.introduced }),
                    r2.1,
                ),
                Err(e) => (Err(e), r2.1),
            }
        },
        Err(e) => (Err(e), r1.1),
    }
}

/// Link a literal: a name must be a variable.
pub open spec fn link_lit(st: LinkState, l: SpecLiteral, total: nat, depth: nat) -> (Result<PLit, SpecLinkError>, LinkState)
    decreases total - depth, 1nat,
{
    match l {
        SpecLiteral::Int(i) => (Ok(PLit::Int(i)), st),
        SpecLiteral::Float(t) => (Ok(PLit::Float(t)), st),
        SpecLiteral::Reference(id) => {
            let r = resolve(st, id, total, depth);
            match r.0 {
                Ok(PNamed::Variable(v)) => (Ok(PLit::Variable(v)), r.1),
                Ok(PNamed::Array(arr)) => (Err(SpecLinkError::Nested(arr.name)), r.1),
                Err(e) => (Err(e), r.1),
            }
        },
        SpecLiteral::Bool(b) => (Ok(PLit::Bool(b)), st),
        SpecLiteral::IntSet(r) => (Ok(PLit::IntSet(range_elems(r))), st),
        SpecLiteral::FloatSet(r) => (Ok(PLit::FloatSet(r)), st),
        SpecLiteral::Str(t) => (Ok(PLit::Str(t)), st),
    }
}

/// Link literals in order, stopping at the first failure.
pub open spec fn link_lits(st: LinkState, v: Seq<SpecLiteral>, total: nat, depth: nat) -> (Result<Seq<PLit>, SpecLinkError>, LinkState)
    decreases total - depth, lits_size(v),
{
    if v.len() == 0 {
        (Ok(Seq::empty()), st)
    } else {
        let r = link_lit(st, v[0], total, depth);
        match r.0 {
            Ok(x) => prepend(seq![x], link_lits(r.1, v.drop_first(), total, depth)),
            Err(e) => (Err(e), r.1),
        }
    }
}

/// Link annotations in order: an annotation whose linking meets a reference
/// back to a declaration being built is dropped; another failure stops.
pub open spec fn link_anns(st: LinkState, v: Seq<SpecAnnotation>, total: nat, depth: nat) -> (Result<Seq<PAnn>, SpecLinkError>, LinkState)
    decreases total - depth, anns_size(v),
{
    if v.len() == 0 {
        (Ok(Seq::empty()), st)
    } else {
        let r = link_ann(LinkState { self_ref: false, ..st }, v[0], total, depth);
        match r.0 {
            Ok(a) => prepend(seq![a], link_anns(r.1, v.drop_first(), total, depth)),
            Err(e) => if r.1.self_ref {
                link_anns(r.1, v.drop_first(), total, depth)
            } else {
                (Err(e), r.1)
            },
        }
    }
}

/// Link an annotation.
pub open spec fn link_ann(st: LinkState, a: SpecAnnotation, total: nat, depth: nat) -> (Result<PAnn, SpecLinkError>, LinkState)
    decreases total - depth, ann_size(a),
{
    match a {
        SpecAnnotation::Atom(t) => (Ok(PAnn::Atom(t)), st),
        SpecAnnotation::Call(c) => {
            let r = link_call(st, c, total, depth);
            match r.0 {
                Ok(pc) => (Ok(PAnn::Call(pc)), r.1),
                Err(e) => (Err(e), r.1),
            }
        },
    }
}

/// Link an annotation call.
pub open spec fn link_call(st: LinkState, c: SpecAnnotationCall, total: nat, depth: nat) -> (Result<PCall, SpecLinkError>, LinkState)
    decreases total - depth, call_size(c),
{
    let r = link_ann_args(st, c.args, total, depth);
    match r.0 {
        Ok(args) => (Ok(PCall { id: c.id, args }), r.1),
        Err(e) => (Err(e), r.1),
    }
}

/// Link annotation arguments in order, stopping at the first failure.
pub open spec fn link_ann_args(st: LinkState, v: Seq<SpecArgument<SpecAnnotationLiteral>>, total: nat, depth: nat) -> (Result<Seq<PArg<PAnnLit>>, SpecLinkError>, LinkState)
    decreases total - depth, ann_args_size(v),
{
    if v.len() == 0 {
        (Ok(Seq::empty()), st)
    } else {
        let r = link_ann_arg(st, v[0], total, depth);
        match r.0 {
            Ok(x) => prepend(seq![x], link_ann_args(r.1, v.drop_first(), total, depth)),
            Err(e) => (Err(e), r.1),
        }
    }
}

/// A name in an annotation that resolves to nothing becomes an atom of the
/// name, unless it led back to a declaration being built.
pub open spec fn unknown_to_atom<T>(r: (Result<T, SpecLinkError>, LinkState), id: nat, atom: T) -> (Result<T, SpecLinkError>, LinkState) {
    match r.0 {
        Err(SpecLinkError::Unknown(n)) => if r.1.self_ref {
            r
        } else {
            (Ok(atom), r.1)
        },
        _ => r,
    }
}

/// Link an annotation argument: a name may be a variable or a named array.
pub open spec fn link_ann_arg(st: LinkState, a: SpecArgument<SpecAnnotationLiteral>, total: nat, depth: nat) -> (Result<PArg<PAnnLit>, SpecLinkError>, LinkState)
    decreases total - depth, ann_arg_size(a),
{
    match a {
        SpecArgument::Array(v) => {
            let r = link_ann_lits(st, v, total, depth);
            match r.0 {
                Ok(xs) => (Ok(PArg::Array(xs)), r.1),
                Err(e) => (Err(e), r.1),
            }
        },
        SpecArgument::Literal(l) => match l {
            SpecAnnotationLiteral::Literal(SpecLiteral::Reference(id)) => {
                let r = resolve(st, id, total, depth);
                let named = (
                    match r.0 {
                        Ok(PNamed::Variable(v)) => Ok(PArg::Literal(PAnnLit::Variable(v.name))),
                        Ok(PNamed::Array(arr)) => Ok(PArg::ArrayNamed(arr)),
                        Err(e) => Err(e),
                    },
                    r.1,
                );
                unknown_to_atom(named, id, PArg::Literal(PAnnLit::Annotation(PAnn::Atom(atom_name(r.1, id)))))
            },
            _ => {
                let r = link_ann_lit(st, l, total, depth);
                match r.0 {
                    Ok(x) => (Ok(PArg::Literal(x)), r.1),
                    Err(e) => (Err(e), r.1),
                }
            },
        },
    }
}

/// Link annotation literals in order, stopping at the first failure.
pub open spec fn link_ann_lits(st: LinkState, v: Seq<SpecAnnotationLiteral>, total: nat, depth: nat) -> (Result<Seq<PAnnLit>, SpecLinkError>, LinkState)
    decreases total - depth, ann_lits_size(v),
{
    if v.len() == 0 {
        (Ok(Seq::empty()), st)
    } else {
        let r = link_ann_lit(st, v[0], total, depth);
        match r.0 {
            Ok(x) => prepend(seq![x], link_ann_lits(r.1, v.drop_first(), total, depth)),
            Err(e) => (Err(e), r.1),
        }
    }
}

/// Link an annotation literal: a name must be a variable.
pub open spec fn link_ann_lit(st: LinkState, l: SpecAnnotationLiteral, total: nat, depth: nat) -> (Result<PAnnLit, SpecLinkError>, LinkState)
    decreases total - depth, ann_lit_size(l),
{
    match l {
        SpecAnnotationLiteral::Literal(x) => match x {
            SpecLiteral::Reference(id) => {
                let r = resolve(st, id, total, depth);
                let named = (
                    match r.0 {
                        Ok(PNamed::Variable(v)) => Ok(PAnnLit::Variable(v.name)),
                        Ok(PNamed::Array(arr)) => Err(SpecLinkError::Nested(arr.name)),
                        Err(e) => Err(e),
                    },
                    r.1,
                );
                unknown_to_atom(named, id, PAnnLit::Annotation(PAnn::Atom(atom_name(r.1, id))))
            },
            _ => {
                let r = link_lit(st, x, total, depth);
                match r.0 {
                    Ok(y) => (Ok(PAnnLit::Literal(y)), r.1),
                    Err(e) => (Err(e), r.1),
                }
            },
        },
        SpecAnnotationLiteral::Annotation(c) => {
            let r = link_call(st, c, total, depth);
            match r.0 {
                Ok(pc) => (Ok(PAnnLit::Annotation(PAnn::Call(pc))), r.1),
                Err(e) => (Err(e), r.1),
            }
        },
    }
}

/// Link a constraint argument: a name may be a variable or a named array.
pub open spec fn link_con_arg(st: LinkState, a: SpecArgument<SpecLiteral>, total: nat, depth: nat) -> (Result<PArg<PLit>, SpecLinkError>, LinkState)
    decreases total - depth, con_arg_size(a),
{
    match a {
        SpecArgument::Array(v) => {
            let r = link_lits(st, v, total, depth);
            match r.0 {
                Ok(xs) => (Ok(PArg::Array(xs)), r.1),
                Err(e) => (Err(e), r.1),
            }
        },
        SpecArgument::Literal(SpecLiteral::Reference(id)) => {
            let r = resolve(st, id, total, depth);
            match r.0 {
                Ok(PNamed::Variable(v)) => (Ok(PArg::Literal(PLit::Variable(v))), r.1),
                Ok(PNamed::Array(arr)) => (Ok(PArg::ArrayNamed(arr)), r.1),
                Err(e) => (Err(e), r.1),
            }
        },
        SpecArgument::Literal(l) => {
            let r = link_lit(st, l, total, depth);
            match r.0 {
                Ok(x) => (Ok(PArg::Literal(x)), r.1),
                Err(e) => (Err(e), r.1),
            }
        },
    }
}

/// Link constraint arguments in order, stopping at the first failure.
pub open spec fn link_con_args(st: LinkState, v: Seq<SpecArgument<SpecLiteral>>, total: nat, depth: nat) -> (Result<Seq<PArg<PLit>>, SpecLinkError>, LinkState)
    decreases total - depth, con_args_size(v),
{
    if v.len() == 0 {
        (Ok(Seq::empty()), st)
    } else {
        let r = link_con_arg(st, v[0], total, depth);
        match r.0 {
            Ok(x) => prepend(seq![x], link_con_args(r.1, v.drop_first(), total, depth)),
            Err(e) => (Err(e), r.1),
        }
    }
}

/// Link a constraint: the name it defines, its arguments, then its
/// annotations.
pub open spec fn link_constraint(st: LinkState, c: SpecConstraint, total: nat) -> (Result<PConstraint, SpecLinkError>, LinkState) {
    let d = match c.defines {
        Some(id) => {
            let r = resolve(st, id, total, 0);
            match r.0 {
                Ok(n) => (Ok(Some(n)), r.1),
                Err(e) => (Err(e), r.1),
            }
        },
        None => (Ok(None), st),
    };
    match d.0 {
        Ok(defines) => {
            let ra = link_con_args(d.1, c.args, total, 0);
            match ra.0 {
                Ok(args) => {
                    let rn = link_anns(ra.1, c.ann, total, 0);
                    match rn.0 {
                        Ok(ann) => (Ok(PConstraint { id: c.id, args, defines, ann }), rn.1),
                        Err(e) => (Err(e), rn.1),
                    }
                },
                Err(e) => (Err(e), ra.1),
            }
        },
        Err(e) => (Err(e), d.1),
    }
}

/// Link constraints in order, stopping at the first failure.
pub open spec fn link_constraints(st: LinkState, v: Seq<SpecConstraint>, total: nat) -> (Result<Seq<PConstraint>, SpecLinkError>, LinkState)
    decreases v.len(),
{
    if v.len() == 0 {
        (Ok(Seq::empty()), st)
    } else {
        let r = link_constraint(st, v[0], total);
        match r.0 {
            Ok(x) => prepend(seq![x], link_constraints(r.1, v.drop_first(), total)),
            Err(e) => (Err(e), r.1),
        }
    }
}

/// Resolve the names of the output, in order, stopping at the first failure.
pub open spec fn link_output(st: LinkState, v: Seq<nat>, total: nat) -> (Result<Seq<PNamed>, SpecLinkError>, LinkState)
    decreases v.len(),
{
    if v.len() == 0 {
        (Ok(Seq::empty()), st)
    } else {
        let r = resolve(st, v[0], total, 0);
        match r.0 {
            Ok(x) => prepend(seq![x], link_output(r.1, v.drop_first(), total)),
            Err(e) => (Err(e), r.1),
        }
    }
}

/// Resolve, in order of the slots from `i`, each name declared as a variable.
pub open spec fn link_variables(st: LinkState, decls: Seq<SpecDeclaration>, i: nat, total: nat) -> (Result<Seq<PVar>, SpecLinkError>, LinkState)
    decreases decls.len() - i,
{
    if i >= decls.len() {
        (Ok(Seq::empty()), st)
    } else if decls[i as int] is Variable {
        let r = resolve(st, i, total, 0);
        match r.0 {
            Ok(PNamed::Variable(v)) => prepend(seq![v], link_variables(r.1, decls, i + 1, total)),
            Ok(PNamed::Array(_)) => link_variables(r.1, decls, i + 1, total),
            Err(e) => (Err(e), r.1),
        }
    } else {
        link_variables(st, decls, i + 1, total)
    }
}

/// Resolve, in order of the slots from `i`, each name declared as an array.
pub open spec fn link_arrays(st: LinkState, decls: Seq<SpecDeclaration>, i: nat, total: nat) -> (Result<Seq<PArray>, SpecLinkError>, LinkState)
    decreases decls.len() - i,
{
    if i >= decls.len() {
        (Ok(Seq::empty()), st)
    } else if decls[i as int] is Array {
        let r = resolve(st, i, total, 0);
        match r.0 {
            Ok(PNamed::Array(a)) => prepend(seq![a], link_arrays(r.1, decls, i + 1, total)),
            Ok(PNamed::Variable(_)) => link_arrays(r.1, decls, i + 1, total),
            Err(e) => (Err(e), r.1),
        }
    } else {
        link_arrays(st, decls, i + 1, total)
    }
}

/// Link the solve item: its objective, then its annotations.
pub open spec fn link_solve(st: LinkState, m: SpecMethod, ann: Seq<SpecAnnotation>, total: nat) -> (Result<PSolve, SpecLinkError>, LinkState) {
    let rm = match m {
        SpecMethod::Satisfy => (Ok(PMethod::Satisfy), st),
        SpecMethod::Minimize(l) => {
            let r = link_lit(st, l, total, 0);
            match r.0 {
                Ok(x) => (Ok(PMethod::Minimize(x)), r.1),
                Err(e) => (Err(e), r.1),
            }
        },
        SpecMethod::Maximize(l) => {
            let r = link_lit(st, l, total, 0);
            match r.0 {
                Ok(x) => (Ok(PMethod::Maximize(x)), r.1),
                Err(e) => (Err(e), r.1),
            }
        },
    };
    match rm.0 {
        Ok(method) => {
            let ra = link_anns(rm.1, ann, total, 0);
            match ra.0 {
                Ok(a) => (Ok(PSolve { method, ann: a }), ra.1),
                Err(e) => (Err(e), ra.1),
            }
        },
        Err(e) => (Err(e), rm.1),
    }
}

/// The state at the start of linking the names `names` declared as `decls`,
/// an undeclared name in an annotation becoming the atom of its slot in
/// `atoms`.
pub open spec fn link_start(names: Seq<Seq<char>>, decls: Seq<SpecDeclaration>, atoms: Seq<Seq<char>>) -> LinkState {
    LinkState {
        atoms,
        entries: Seq::new(names.len(), |i: int| (names[i], decls[i])),
        memo: Seq::new(names.len(), |i: int| None),
        in_progress: Seq::new(names.len(), |i: int| false),
        self_ref: false,
    }
}

/// Linking a model that has been read, in the given format version: the variables, the arrays, the
/// constraints, the output and the solve item, in that order, stopping at the
/// first failure.
pub open spec fn link_model(
    names: Seq<Seq<char>>,
    decls: Seq<SpecDeclaration>,
    constraints: Seq<SpecConstraint>,
    output: Seq<nat>,
    method: SpecMethod,
    ann: Seq<SpecAnnotation>,
    version: Seq<char>,
) -> Result<PFlatZinc, SpecLinkError> {
    link_model_with(names, decls, names, constraints, output, method, ann, version)
}

/// Linking as `link_model` does, an undeclared name in an annotation
/// becoming the atom of its slot in `atoms`.
pub open spec fn link_model_with(
    names: Seq<Seq<char>>,
    decls: Seq<SpecDeclaration>,
    atoms: Seq<Seq<char>>,
    constraints: Seq<SpecConstraint>,
    output: Seq<nat>,
    method: SpecMethod,
    ann: Seq<SpecAnnotation>,
    version: Seq<char>,
) -> Result<PFlatZinc, SpecLinkError> {
    let total = names.len();
    let st0 = link_start(names, decls, atoms);
    let rv = link_variables(st0, decls, 0, total);
    match rv.0 {
        Err(e) => Err(e),
        Ok(variables) => {
            let ra = link_arrays(rv.1, decls, 0, total);
            match ra.0 {
                Err(e) => Err(e),
                Ok(arrays) => {
                    let rc = link_constraints(ra.1, constraints, total);
                    match rc.0 {
                        Err(e) => Err(e),
                        Ok(cs) => {
                            let ro = link_output(rc.1, output, total);
                            match ro.0 {
                                Err(e) => Err(e),
                                Ok(out) => match link_solve(ro.1, method, ann, total).0 {
                                    Err(e) => Err(e),
                                    Ok(solve) => Ok(
                                        PFlatZinc {
                                            variables,
                                            arrays,
                                            constraints: cs,
                                            output: out,
                                            solve,
                                            version,
                                        },
                                    ),
                                },
                            }
                        },
                    }
                },
            }
        },
    }
}

// ----- laws of linking -----

/// `b` keeps every declaration that `a` had built, in as many slots.
pub open spec fn keeps_built(a: LinkState, b: LinkState) -> bool {
    &&& b.memo.len() == a.memo.len()
    &&& b.entries.len() == a.entries.len()
    &&& b.in_progress.len() == a.in_progress.len()
    &&& forall|i: int|
        0 <= i < a.memo.len() && (#[trigger] a.memo[i]) is Some ==> b.memo[i] == a.memo[i]
}

/// Resolving a name whose declaration is built gives that declaration and
/// changes nothing; a name that resolves to a declaration has it built
/// afterwards.
pub proof fn lemma_resolve_memo(st: LinkState, id: nat, total: nat, depth: nat)
    ensures
        id < st.memo.len() && id < st.entries.len() && id < st.in_progress.len()
            && st.memo[id as int] is Some ==> resolve(st, id, total, depth) == (
            Ok::<PNamed, SpecLinkError>(st.memo[id as int]->0),
            st,
        ),
        resolve(st, id, total, depth).0 matches Ok(n) ==> id < st.memo.len() && id < st.entries.len()
            && id < st.in_progress.len() && resolve(st, id, total, depth).1.memo[id as int] == Some(n),
{
    if id >= st.entries.len() || id >= st.memo.len() || id >= st.in_progress.len() {
    } else if st.memo[id as int] is Some {
    } else if st.in_progress[id as int] {
    } else if st.entries[id as int].1 is Uninit || depth >= total {
    } else {
        let name = st.entries[id as int].0;
        let st1 = LinkState {
            entries: st.entries.update(id as int, (Seq::empty(), SpecDeclaration::Uninit)),
            in_progress: st.in_progress.update(id as int, true),
            ..st
        };
        match st.entries[id as int].1 {
            SpecDeclaration::Variable(v) => {
                lemma_create_variable_keeps(st1, name, v, total, (depth + 1) as nat);
            },
            SpecDeclaration::Array(a) => {
                lemma_create_array_keeps(st1, name, a, total, (depth + 1) as nat);
            },
            SpecDeclaration::Uninit => {},
        }
    }
}

/// Resolving a name keeps every declaration built before.
pub proof fn lemma_resolve_keeps(st: LinkState, id: nat, total: nat, depth: nat)
    ensures
        keeps_built(st, resolve(st, id, total, depth).1),
    decreases total - depth, 0nat,
{
    if id >= st.entries.len() || id >= st.memo.len() || id >= st.in_progress.len() {
    } else if st.memo[id as int] is Some {
    } else if st.in_progress[id as int] {
    } else if st.entries[id as int].1 is Uninit || depth >= total {
    } else {
        let name = st.entries[id as int].0;
        let st1 = LinkState {
            entries: st.entries.update(id as int, (Seq::empty(), SpecDeclaration::Uninit)),
            in_progress: st.in_progress.update(id as int, true),
            ..st
        };
        match st.entries[id as int].1 {
            SpecDeclaration::Variable(v) => {
                lemma_create_variable_keeps(st1, name, v, total, (depth + 1) as nat);
            },
            SpecDeclaration::Array(a) => {
                lemma_create_array_keeps(st1, name, a, total, (depth + 1) as nat);
            },
            SpecDeclaration::Uninit => {},
        }
    }
}

/// Building a variable keeps every declaration built before.
pub proof fn lemma_create_variable_keeps(st: LinkState, name: Seq<char>, v: SpecVariable, total: nat, depth: nat)
    ensures
        keeps_built(st, create_variable(st, name, v, total, depth).1),
    decreases total - depth, anns_size(v.ann) + 1,
{
    lemma_link_anns_keeps(st, v.ann, total, depth);
}

/// Building an array keeps every declaration built before.
pub proof fn lemma_create_array_keeps(st: LinkState, name: Seq<char>, a: SpecArray, total: nat, depth: nat)
    ensures
        keeps_built(st, create_array(st, name, a, total, depth).1),
    decreases total - depth, lits_size(a.contents) + anns_size(a.ann) + 1,
{
    lemma_link_lits_keeps(st, a.contents, total, depth);
    let r1 = link_lits(st, a.contents, total, depth);
    if r1.0 is Ok {
        lemma_link_anns_keeps(r1.1, a.ann, total, depth);
    }
}

/// Linking a literal keeps every declaration built before.
pub proof fn lemma_link_lit_keeps(st: LinkState, l: SpecLiteral, total: nat, depth: nat)
    ensures
        keeps_built(st, link_lit(st, l, total, depth).1),
    decreases total - depth, 1nat,
{
    if let SpecLiteral::Reference(id) = l {
        lemma_resolve_keeps(st, id, total, depth);
    }
}

/// Linking literals keeps every declaration built before.
pub proof fn lemma_link_lits_keeps(st: LinkState, v: Seq<SpecLiteral>, total: nat, depth: nat)
    ensures
        keeps_built(st, link_lits(st, v, total, depth).1),
    decreases total - depth, lits_size(v),
{
    if v.len() > 0 {
        lemma_link_lit_keeps(st, v[0], total, depth);
        let r = link_lit(st, v[0], total, depth);
        if r.0 is Ok {
            lemma_link_lits_keeps(r.1, v.drop_first(), total, depth);
        }
    }
}

/// Linking annotations keeps every declaration built before.
pub proof fn lemma_link_anns_keeps(st: LinkState, v: Seq<SpecAnnotation>, total: nat, depth: nat)
    ensures
        keeps_built(st, link_anns(st, v, total, depth).1),
    decreases total - depth, anns_size(v),
{
    if v.len() > 0 {
        let st0 = LinkState { self_ref: false, ..st };
        lemma_link_ann_keeps(st0, v[0], total, depth);
        let r = link_ann(st0, v[0], total, depth);
        if r.0 is Ok || r.1.self_ref {
            lemma_link_anns_keeps(r.1, v.drop_first(), total, depth);
        }
    }
}

/// Linking an annotation keeps every declaration built before.
pub proof fn lemma_link_ann_keeps(st: LinkState, a: SpecAnnotation, total: nat, depth: nat)
    ensures
        keeps_built(st, link_ann(st, a, total, depth).1),
    decreases total - depth, ann_size(a),
{
    if let SpecAnnotation::Call(c) = a {
        lemma_link_call_keeps(st, c, total, depth);
    }
}

/// Linking an annotation call keeps every declaration built before.
pub proof fn lemma_link_call_keeps(st: LinkState, c: SpecAnnotationCall, total: nat, depth: nat)
    ensures
        keeps_built(st, link_call(st, c, total, depth).1),
    decreases total - depth, call_size(c),
{
    lemma_link_ann_args_keeps(st, c.args, total, depth);
}

/// Linking annotation arguments keeps every declaration built before.
pub proof fn lemma_link_ann_args_keeps(st: LinkState, v: Seq<SpecArgument<SpecAnnotationLiteral>>, total: nat, depth: nat)
    ensures
        keeps_built(st, link_ann_args(st, v, total, depth).1),
    decreases total - depth, ann_args_size(v),
{
    if v.len() > 0 {
        lemma_link_ann_arg_keeps(st, v[0], total, depth);
        let r = link_ann_arg(st, v[0], total, depth);
        if r.0 is Ok {
            lemma_link_ann_args_keeps(r.1, v.drop_first(), total, depth);
        }
    }
}

/// Linking an annotation argument keeps every declaration built before.
pub proof fn lemma_link_ann_arg_keeps(st: LinkState, a: SpecArgument<SpecAnnotationLiteral>, total: nat, depth: nat)
    ensures
        keeps_built(st, link_ann_arg(st, a, total, depth).1),
    decreases total - depth, ann_arg_size(a),
{
    match a {
        SpecArgument::Array(v) => {
            lemma_link_ann_lits_keeps(st, v, total, depth);
        },
        SpecArgument::Literal(l) => match l {
            SpecAnnotationLiteral::Literal(SpecLiteral::Reference(id)) => {
                lemma_resolve_keeps(st, id, total, depth);
            },
            _ => {
                lemma_link_ann_lit_keeps(st, l, total, depth);
            },
        },
    }
}

/// Linking annotation literals keeps every declaration built before.
pub proof fn lemma_link_ann_lits_keeps(st: LinkState, v: Seq<SpecAnnotationLiteral>, total: nat, depth: nat)
    ensures
        keeps_built(st, link_ann_lits(st, v, total, depth).1),
    decreases total - depth, ann_lits_size(v),
{
    if v.len() > 0 {
        lemma_link_ann_lit_keeps(st, v[0], total, depth);
        let r = link_ann_lit(st, v[0], total, depth);
        if r.0 is Ok {
            lemma_link_ann_lits_keeps(r.1, v.drop_first(), total, depth);
        }
    }
}

/// Linking an annotation literal keeps every declaration built before.
pub proof fn lemma_link_ann_lit_keeps(st: LinkState, l: SpecAnnotationLiteral, total: nat, depth: nat)
    ensures
        keeps_built(st, link_ann_lit(st, l, total, depth).1),
    decreases total - depth, ann_lit_size(l),
{
    match l {
        SpecAnnotationLiteral::Literal(x) => match x {
            SpecLiteral::Reference(id) => {
                lemma_resolve_keeps(st, id, total, depth);
            },
            _ => {
                lemma_link_lit_keeps(st, x, total, depth);
            },
        },
        SpecAnnotationLiteral::Annotation(c) => {
            lemma_link_call_keeps(st, c, total, depth);
        },
    }
}

/// Linking a constraint argument keeps every declaration built before.
pub proof fn lemma_link_con_arg_keeps(st: LinkState, a: SpecArgument<SpecLiteral>, total: nat, depth: nat)
    ensures
        keeps_built(st, link_con_arg(st, a, total, depth).1),
    decreases total - depth, con_arg_size(a),
{
    match a {
        SpecArgument::Array(v) => {
            lemma_link_lits_keeps(st, v, total, depth);
        },
        SpecArgument::Literal(SpecLiteral::Reference(id)) => {
            lemma_resolve_keeps(st, id, total, depth);
        },
        SpecArgument::Literal(l) => {
            lemma_link_lit_keeps(st, l, total, depth);
        },
    }
}

/// Linking constraint arguments keeps every declaration built before.
pub proof fn lemma_link_con_args_keeps(st: LinkState, v: Seq<SpecArgument<SpecLiteral>>, total: nat, depth: nat)
    ensures
        keeps_built(st, link_con_args(st, v, total, depth).1),
    decreases total - depth, con_args_size(v),
{
    if v.len() > 0 {
        lemma_link_con_arg_keeps(st, v[0], total, depth);
        let r = link_con_arg(st, v[0], total, depth);
        if r.0 is Ok {
            lemma_link_con_args_keeps(r.1, v.drop_first(), total, depth);
        }
    }
}

/// Linking a constraint keeps every declaration built before.
pub proof fn lemma_link_constraint_keeps(st: LinkState, c: SpecConstraint, total: nat)
    ensures
        keeps_built(st, link_constraint(st, c, total).1),
{
    let d = match c.defines {
        Some(id) => {
            lemma_resolve_keeps(st, id, total, 0);
            let r = resolve(st, id, total, 0);
            match r.0 {
                Ok(n) => (Ok(Some(n)), r.1),
                Err(e) => (Err(e), r.1),
            }
        },
        None => (Ok(None), st),
    };
    if d.0 is Ok {
        lemma_link_con_args_keeps(d.1, c.args, total, 0);
        let ra = link_con_args(d.1, c.args, total, 0);
        if ra.0 is Ok {
            lemma_link_anns_keeps(ra.1, c.ann, total, 0);
        }
    }
}

/// Once a name has resolved to a declaration, linking a constraint
/// afterwards resolves the name to that same declaration again: declarations
/// are built once and shared.
pub proof fn lemma_constraint_shares(st: LinkState, id: nat, c: SpecConstraint, total: nat, depth: nat)
    requires
        resolve(st, id, total, depth).0 is Ok,
    ensures
        ({
            let after = link_constraint(resolve(st, id, total, depth).1, c, total).1;
            resolve(after, id, total, depth).0 == resolve(st, id, total, depth).0
        }),
{
    let r = resolve(st, id, total, depth);
    lemma_resolve_memo(st, id, total, depth);
    lemma_resolve_keeps(st, id, total, depth);
    lemma_link_constraint_keeps(r.1, c, total);
    let after = link_constraint(r.1, c, total).1;
    assert(r.1.memo[id as int] is Some);
    assert(after.memo[id as int] == r.1.memo[id as int]);
    lemma_resolve_memo(after, id, total, depth);
}

// ----- what linking builds -----

/// Every declaration built so far is built at the slot of its own name, and
/// as what that name is declared as; every slot not taken up holds its name
/// and declaration.
pub open spec fn sound(st: LinkState, names: Seq<Seq<char>>, decls: Seq<SpecDeclaration>) -> bool {
    &&& st.entries.len() == names.len()
    &&& st.memo.len() == names.len()
    &&& st.in_progress.len() == names.len()
    &&& decls.len() == names.len()
    &&& forall|i: int|
        0 <= i < names.len() && (#[trigger] st.memo[i]) is Some ==> named_name(st.memo[i]->0)
            == names[i] && (st.memo[i]->0 is Variable <==> decls[i] is Variable)
    &&& forall|i: int|
        0 <= i < names.len() && !((#[trigger] st.entries[i]).1 is Uninit) ==> st.entries[i] == (
            names[i],
            decls[i],
        )
    &&& forall|i: int|
        0 <= i < names.len() && (#[trigger] decls[i]) is Uninit ==> st.memo[i] is None && !st.in_progress[i]
            && st.entries[i] == (names[i], SpecDeclaration::Uninit)
}

/// Resolving a name keeps the built declarations sound.
proof fn lemma_resolve_sound(st: LinkState, id: nat, total: nat, depth: nat, names: Seq<Seq<char>>, decls: Seq<SpecDeclaration>)
    requires
        sound(st, names, decls),
    ensures
        sound(resolve(st, id, total, depth).1, names, decls),
    decreases total - depth, 0nat,
{
    if id >= st.entries.len() || id >= st.memo.len() || id >= st.in_progress.len() {
    } else if st.memo[id as int] is Some {
    } else if st.in_progress[id as int] {
    } else if st.entries[id as int].1 is Uninit || depth >= total {
    } else {
        let name = st.entries[id as int].0;
        let st1 = LinkState {
            entries: st.entries.update(id as int, (Seq::empty(), SpecDeclaration::Uninit)),
            in_progress: st.in_progress.update(id as int, true),
            ..st
        };
        assert(sound(st1, names, decls));
        assert(st.entries[id as int] == (names[id as int], decls[id as int]));
        match st.entries[id as int].1 {
            SpecDeclaration::Variable(v) => {
                lemma_create_variable_sound(st1, name, v, total, (depth + 1) as nat, names, decls);
            },
            SpecDeclaration::Array(a) => {
                lemma_create_array_sound(st1, name, a, total, (depth + 1) as nat, names, decls);
            },
            SpecDeclaration::Uninit => {},
        }
    }
}

/// Building a variable keeps the built declarations sound.
proof fn lemma_create_variable_sound(st: LinkState, name: Seq<char>, v: SpecVariable, total: nat, depth: nat, names: Seq<Seq<char>>, decls: Seq<SpecDeclaration>)
    requires
        sound(st, names, decls),
    ensures
        sound(create_variable(st, name, v, total, depth).1, names, decls),
    decreases total - depth, anns_size(v.ann) + 1,
{
    lemma_link_anns_sound(st, v.ann, total, depth, names, decls);
}

/// Building an array keeps the built declarations sound.
proof fn lemma_create_array_sound(st: LinkState, name: Seq<char>, a: SpecArray, total: nat, depth: nat, names: Seq<Seq<char>>, decls: Seq<SpecDeclaration>)
    requires
        sound(st, names, decls),
    ensures
        sound(create_array(st, name, a, total, depth).1, names, decls),
    decreases total - depth, lits_size(a.contents) + anns_size(a.ann) + 1,
{
    lemma_link_lits_sound(st, a.contents, total, depth, names, decls);
    let r1 = link_lits(st, a.contents, total, depth);
    if r1.0 is Ok {
        lemma_link_anns_sound(r1.1, a.ann, total, depth, names, decls);
    }
}

/// Linking a literal keeps the built declarations sound.
proof fn lemma_link_lit_sound(st: LinkState, l: SpecLiteral, total: nat, depth: nat, names: Seq<Seq<char>>, decls: Seq<SpecDeclaration>)
    requires
        sound(st, names, decls),
    ensures
        sound(link_lit(st, l, total, depth).1, names, decls),
    decreases total - depth, 1nat,
{
    if let SpecLiteral::Reference(id) = l {
        lemma_resolve_sound(st, id, total, depth, names, decls);
    }
}

/// Linking literals keeps the built declarations sound.
proof fn lemma_link_lits_sound(st: LinkState, v: Seq<SpecLiteral>, total: nat, depth: nat, names: Seq<Seq<char>>, decls: Seq<SpecDeclaration>)
    requires
        sound(st, names, decls),
    ensures
        sound(link_lits(st, v, total, depth).1, names, decls),
    decreases total - depth, lits_size(v),
{
    if v.len() > 0 {
        lemma_link_lit_sound(st, v[0], total, depth, names, decls);
        let r = link_lit(st, v[0], total, depth);
        if r.0 is Ok {
            lemma_link_lits_sound(r.1, v.drop_first(), total, depth, names, decls);
        }
    }
}

/// Linking annotations keeps the built declarations sound.
proof fn lemma_link_anns_sound(st: LinkState, v: Seq<SpecAnnotation>, total: nat, depth: nat, names: Seq<Seq<char>>, decls: Seq<SpecDeclaration>)
    requires
        sound(st, names, decls),
    ensures
        sound(link_anns(st, v, total, depth).1, names, decls),
    decreases total - depth, anns_size(v),
{
    if v.len() > 0 {
        let st0 = LinkState { self_ref: false, ..st };
        lemma_link_ann_sound(st0, v[0], total, depth, names, decls);
        let r = link_ann(st0, v[0], total, depth);
        if r.0 is Ok || r.1.self_ref {
            lemma_link_anns_sound(r.1, v.drop_first(), total, depth, names, decls);
        }
    }
}

/// Linking an annotation keeps the built declarations sound.
proof fn lemma_link_ann_sound(st: LinkState, a: SpecAnnotation, total: nat, depth: nat, names: Seq<Seq<char>>, decls: Seq<SpecDeclaration>)
    requires
        sound(st, names, decls),
    ensures
        sound(link_ann(st, a, total, depth).1, names, decls),
    decreases total - depth, ann_size(a),
{
    if let SpecAnnotation::Call(c) = a {
        lemma_link_call_sound(st, c, total, depth, names, decls);
    }
}

/// Linking an annotation call keeps the built declarations sound.
proof fn lemma_link_call_sound(st: LinkState, c: SpecAnnotationCall, total: nat, depth: nat, names: Seq<Seq<char>>, decls: Seq<SpecDeclaration>)
    requires
        sound(st, names, decls),
    ensures
        sound(link_call(st, c, total, depth).1, names, decls),
    decreases total - depth, call_size(c),
{
    lemma_link_ann_args_sound(st, c.args, total, depth, names, decls);
}

/// Linking annotation arguments keeps the built declarations sound.
proof fn lemma_link_ann_args_sound(st: LinkState, v: Seq<SpecArgument<SpecAnnotationLiteral>>, total: nat, depth: nat, names: Seq<Seq<char>>, decls: Seq<SpecDeclaration>)
    requires
        sound(st, names, decls),
    ensures
        sound(link_ann_args(st, v, total, depth).1, names, decls),
    decreases total - depth, ann_args_size(v),
{
    if v.len() > 0 {
        lemma_link_ann_arg_sound(st, v[0], total, depth, names, decls);
        let r = link_ann_arg(st, v[0], total, depth);
        if r.0 is Ok {
            lemma_link_ann_args_sound(r.1, v.drop_first(), total, depth, names, decls);
        }
    }
}

/// Linking an annotation argument keeps the built declarations sound.
proof fn lemma_link_ann_arg_sound(st: LinkState, a: SpecArgument<SpecAnnotationLiteral>, total: nat, depth: nat, names: Seq<Seq<char>>, decls: Seq<SpecDeclaration>)
    requires
        sound(st, names, decls),
    ensures
        sound(link_ann_arg(st, a, total, depth).1, names, decls),
    decreases total - depth, ann_arg_size(a),
{
    match a {
        SpecArgument::Array(v) => {
            lemma_link_ann_lits_sound(st, v, total, depth, names, decls);
        },
        SpecArgument::Literal(l) => match l {
            SpecAnnotationLiteral::Literal(SpecLiteral::Reference(id)) => {
                lemma_resolve_sound(st, id, total, depth, names, decls);
            },
            _ => {
                lemma_link_ann_lit_sound(st, l, total, depth, names, decls);
            },
        },
    }
}

/// Linking annotation literals keeps the built declarations sound.
proof fn lemma_link_ann_lits_sound(st: LinkState, v: Seq<SpecAnnotationLiteral>, total: nat, depth: nat, names: Seq<Seq<char>>, decls: Seq<SpecDeclaration>)
    requires
        sound(st, names, decls),
    ensures
        sound(link_ann_lits(st, v, total, depth).1, names, decls),
    decreases total - depth, ann_lits_size(v),
{
    if v.len() > 0 {
        lemma_link_ann_lit_sound(st, v[0], total, depth, names, decls);
        let r = link_ann_lit(st, v[0], total, depth);
        if r.0 is Ok {
            lemma_link_ann_lits_sound(r.1, v.drop_first(), total, depth, names, decls);
        }
    }
}

/// Linking an annotation literal keeps the built declarations sound.
proof fn lemma_link_ann_lit_sound(st: LinkState, l: SpecAnnotationLiteral, total: nat, depth: nat, names: Seq<Seq<char>>, decls: Seq<SpecDeclaration>)
    requires
        sound(st, names, decls),
    ensures
        sound(link_ann_lit(st, l, total, depth).1, names, decls),
    decreases total - depth, ann_lit_size(l),
{
    match l {
        SpecAnnotationLiteral::Literal(x) => match x {
            SpecLiteral::Reference(id) => {
                lemma_resolve_sound(st, id, total, depth, names, decls);
            },
            _ => {
                lemma_link_lit_sound(st, x, total, depth, names, decls);
            },
        },
        SpecAnnotationLiteral::Annotation(c) => {
            lemma_link_call_sound(st, c, total, depth, names, decls);
        },
    }
}


/// Some name from slot `from` on is `n`, declared as a variable (`var`) or as
/// an array.
pub open spec fn declared_from(names: Seq<Seq<char>>, decls: Seq<SpecDeclaration>, from: int, n: Seq<char>, var: bool) -> bool {
    exists|k: int|
        from <= k < decls.len() && k < names.len() && (if var {
            decls[k] is Variable
        } else {
            decls[k] is Array
        }) && #[trigger] names[k] == n
}

proof fn lemma_declared_from_wider(names: Seq<Seq<char>>, decls: Seq<SpecDeclaration>, from: int, n: Seq<char>, var: bool)
    requires
        declared_from(names, decls, from + 1, n, var),
    ensures
        declared_from(names, decls, from, n, var),
{
    let k = choose|k: int|
        from + 1 <= k < decls.len() && k < names.len() && (if var {
            decls[k] is Variable
        } else {
            decls[k] is Array
        }) && #[trigger] names[k] == n;
    assert(names[k] == n);
}

proof fn lemma_variables_named(st: LinkState, decls: Seq<SpecDeclaration>, i: nat, total: nat, names: Seq<Seq<char>>)
    requires
        sound(st, names, decls),
    ensures
        sound(link_variables(st, decls, i, total).1, names, decls),
        link_variables(st, decls, i, total).0 matches Ok(vs) ==> forall|j: int|
            0 <= j < vs.len() ==> declared_from(names, decls, i as int, #[trigger] vs[j].name, true),
    decreases decls.len() - i,
{
    if i < decls.len() {
        let r = resolve(st, i, total, 0);
        if decls[i as int] is Variable {
            lemma_resolve_sound(st, i, total, 0, names, decls);
            lemma_resolve_memo(st, i, total, 0);
            lemma_variables_named(r.1, decls, i + 1, total, names);
        } else {
            lemma_variables_named(st, decls, i + 1, total, names);
        }
        let whole = link_variables(st, decls, i, total);
        if let Ok(vs) = whole.0 {
            assert forall|j: int| 0 <= j < vs.len() implies declared_from(names, decls, i as int, #[trigger] vs[j].name, true) by {
                if decls[i as int] is Variable {
                    match r.0 {
                        Ok(PNamed::Variable(v)) => {
                            let ws = link_variables(r.1, decls, i + 1, total).0->Ok_0;
                            assert(vs == seq![v] + ws);
                            if j == 0 {
                                assert(r.1.memo[i as int] == Some(PNamed::Variable(v)));
                                assert(named_name(r.1.memo[i as int]->0) == names[i as int]);
                                assert(names[i as int] == vs[0].name);
                            } else {
                                assert(vs[j] == ws[j - 1]);
                                assert(declared_from(names, decls, (i + 1) as int, ws[j - 1].name, true));
                                lemma_declared_from_wider(names, decls, i as int, vs[j].name, true);
                            }
                        },
                        _ => {
                            assert(declared_from(names, decls, (i + 1) as int, vs[j].name, true));
                            lemma_declared_from_wider(names, decls, i as int, vs[j].name, true);
                        },
                    }
                } else {
                    assert(declared_from(names, decls, (i + 1) as int, vs[j].name, true));
                    lemma_declared_from_wider(names, decls, i as int, vs[j].name, true);
                }
            }
        }
    }
}

proof fn lemma_arrays_named(st: LinkState, decls: Seq<SpecDeclaration>, i: nat, total: nat, names: Seq<Seq<char>>)
    requires
        sound(st, names, decls),
    ensures
        sound(link_arrays(st, decls, i, total).1, names, decls),
        link_arrays(st, decls, i, total).0 matches Ok(vs) ==> forall|j: int|
            0 <= j < vs.len() ==> declared_from(names, decls, i as int, #[trigger] vs[j].name, false),
    decreases decls.len() - i,
{
    if i < decls.len() {
        let r = resolve(st, i, total, 0);
        if decls[i as int] is Array {
            lemma_resolve_sound(st, i, total, 0, names, decls);
            lemma_resolve_memo(st, i, total, 0);
            lemma_arrays_named(r.1, decls, i + 1, total, names);
        } else {
            lemma_arrays_named(st, decls, i + 1, total, names);
        }
        let whole = link_arrays(st, decls, i, total);
        if let Ok(vs) = whole.0 {
            assert forall|j: int| 0 <= j < vs.len() implies declared_from(names, decls, i as int, #[trigger] vs[j].name, false) by {
                if decls[i as int] is Array {
                    match r.0 {
                        Ok(PNamed::Array(v)) => {
                            let ws = link_arrays(r.1, decls, i + 1, total).0->Ok_0;
                            assert(vs == seq![v] + ws);
                            if j == 0 {
                                assert(r.1.memo[i as int] == Some(PNamed::Array(v)));
                                assert(named_name(r.1.memo[i as int]->0) == names[i as int]);
                                assert(names[i as int] == vs[0].name);
                            } else {
                                assert(vs[j] == ws[j - 1]);
                                assert(declared_from(names, decls, (i + 1) as int, ws[j - 1].name, false));
                                lemma_declared_from_wider(names, decls, i as int, vs[j].name, false);
                            }
                        },
                        _ => {
                            assert(declared_from(names, decls, (i + 1) as int, vs[j].name, false));
                            lemma_declared_from_wider(names, decls, i as int, vs[j].name, false);
                        },
                    }
                } else {
                    assert(declared_from(names, decls, (i + 1) as int, vs[j].name, false));
                    lemma_declared_from_wider(names, decls, i as int, vs[j].name, false);
                }
            }
        }
    }
}

/// In a linked model every variable is named after a name declared as a
/// variable, and every array after a name declared as an array.
pub proof fn lemma_linked_are_declared(
    names: Seq<Seq<char>>,
    decls: Seq<SpecDeclaration>,
    constraints: Seq<SpecConstraint>,
    output: Seq<nat>,
    method: SpecMethod,
    ann: Seq<SpecAnnotation>,
    version: Seq<char>,
)
    requires
        decls.len() == names.len(),
    ensures
        link_model(names, decls, constraints, output, method, ann, version) matches Ok(p) ==> {
            &&& forall|j: int|
                0 <= j < p.variables.len() ==> declared_from(names, decls, 0, #[trigger] p.variables[j].name, true)
            &&& forall|j: int|
                0 <= j < p.arrays.len() ==> declared_from(names, decls, 0, #[trigger] p.arrays[j].name, false)
        },
{
    let total = names.len();
    let st0 = link_start(names, decls, names);
    assert(sound(st0, names, decls));
    lemma_variables_named(st0, decls, 0, total, names);
    let rv = link_variables(st0, decls, 0, total);
    lemma_arrays_named(rv.1, decls, 0, total, names);
    let ra = link_arrays(rv.1, decls, 0, total);
    if let Ok(p) = link_model(names, decls, constraints, output, method, ann, version) {
        assert(rv.0 is Ok && ra.0 is Ok);
        assert(p.variables == rv.0->Ok_0);
        assert(p.arrays == ra.0->Ok_0);
    }
}

/// A name declared as an array that links, used where a single value is
/// expected, is refused with that name, whether or not the array was built
/// before.
pub proof fn lemma_nested_array_named(st: LinkState, id: nat, total: nat, depth: nat, names: Seq<Seq<char>>, decls: Seq<SpecDeclaration>)
    requires
        sound(st, names, decls),
        id < names.len(),
        decls[id as int] is Array,
    ensures
        resolve(st, id, total, depth).0 is Ok ==> link_lit(st, SpecLiteral::Reference(id), total, depth).0
            == Err::<PLit, SpecLinkError>(SpecLinkError::Nested(names[id as int])),
{
    lemma_resolve_sound(st, id, total, depth, names, decls);
    lemma_resolve_memo(st, id, total, depth);
    let r = resolve(st, id, total, depth);
    if let Ok(PNamed::Array(arr)) = r.0 {
        assert(r.1.memo[id as int] == Some(PNamed::Array(arr)));
        assert(named_name(r.1.memo[id as int]->0) == names[id as int]);
    }
}

/// A name that nothing declares is refused as unknown, with that name,
/// wherever it is referenced, and the refusal changes nothing.
pub proof fn lemma_undeclared_unknown(st: LinkState, id: nat, total: nat, depth: nat, names: Seq<Seq<char>>, decls: Seq<SpecDeclaration>)
    requires
        sound(st, names, decls),
        id < names.len(),
        decls[id as int] is Uninit,
    ensures
        resolve(st, id, total, depth) == (
            Err::<PNamed, SpecLinkError>(SpecLinkError::Unknown(names[id as int])),
            st,
        ),
        link_lit(st, SpecLiteral::Reference(id), total, depth) == (
            Err::<PLit, SpecLinkError>(SpecLinkError::Unknown(names[id as int])),
            st,
        ),
{
    assert(st.memo[id as int] is None);
}

/// An annotation call whose first argument names the declaration being built
/// is dropped: the annotations after it are linked as if it were not there,
/// with the self-reference noted.
pub proof fn lemma_self_reference_dropped(
    st: LinkState,
    id: nat,
    c: SpecAnnotationCall,
    rest: Seq<SpecAnnotation>,
    total: nat,
    depth: nat,
)
    requires
        id < st.entries.len(),
        id < st.memo.len(),
        id < st.in_progress.len(),
        st.memo[id as int] is None,
        st.in_progress[id as int],
        c.args.len() > 0,
        c.args[0] == SpecArgument::<SpecAnnotationLiteral>::Literal(
            SpecAnnotationLiteral::Literal(SpecLiteral::Reference(id)),
        ),
    ensures
        link_anns(st, seq![SpecAnnotation::Call(c)] + rest, total, depth) == link_anns(
            LinkState { self_ref: true, ..st },
            rest,
            total,
            depth,
        ),
{
    let v = seq![SpecAnnotation::Call(c)] + rest;
    let st0 = LinkState { self_ref: false, ..st };
    let st1 = LinkState { self_ref: true, ..st };
    assert(v[0] == SpecAnnotation::Call(c));
    assert(v.drop_first() =~= rest);
    assert(resolve(st0, id, total, depth) == (
        Err::<PNamed, SpecLinkError>(SpecLinkError::Unknown(st.entries[id as int].0)),
        st1,
    ));
    assert(link_ann_arg(st0, c.args[0], total, depth).1 == st1);
    assert(link_ann_arg(st0, c.args[0], total, depth).0 is Err);
    assert(link_ann_args(st0, c.args, total, depth).1 == st1);
    assert(link_ann(st0, v[0], total, depth).1 == st1);
    assert(link_ann(st0, v[0], total, depth).0 is Err);
}

/// `v` in reverse order.
fn reversed<T>(v: Vec<T>) -> (r: Vec<T>)
    ensures
        r@.len() == v@.len(),
        forall|i: int| 0 <= i < r@.len() ==> #[trigger] r@[i] == v@[v@.len() - 1 - i],
{
    let mut v = v;
    let ghost orig = v@;
    let mut r: Vec<T> = Vec::new();
    while v.len() > 0
        invariant
            r@.len() + v@.len() == orig.len(),
            v@ == orig.subrange(0, v@.len() as int),
            forall|i: int| 0 <= i < r@.len() ==> #[trigger] r@[i] == orig[orig.len() - 1 - i],
        decreases v@.len(),
    {
        let x = v.pop().unwrap();
        r.push(x);
    }
    r
}

/// Another handle to the same declaration.
fn share_named(n: &NamedRef) -> (r: NamedRef)
    ensures
        r@ == n@,
{
    match n {
        NamedRef::Variable(v) => NamedRef::Variable(share(v)),
        NamedRef::Array(a) => NamedRef::Array(share(a)),
    }
}

proof fn lemma_anns_size_elem(v: Seq<SpecAnnotation>, k: int)
    requires
        0 <= k < v.len(),
    ensures
        ann_size(v[k]) < anns_size(v),
        anns_size(v.subrange(k + 1, v.len() as int)) < anns_size(v),
    decreases v.len(),
{
    if k > 0 {
        lemma_anns_size_elem(v.drop_first(), k - 1);
        assert(v.drop_first()[k - 1] == v[k]);
        assert(v.drop_first().subrange(k, v.len() - 1) =~= v.subrange(k + 1, v.len() as int));
    } else {
        assert(v.drop_first() =~= v.subrange(1, v.len() as int));
    }
}

proof fn lemma_ann_args_size_elem(v: Seq<SpecArgument<SpecAnnotationLiteral>>, k: int)
    requires
        0 <= k < v.len(),
    ensures
        ann_arg_size(v[k]) < ann_args_size(v),
    decreases v.len(),
{
    if k > 0 {
        lemma_ann_args_size_elem(v.drop_first(), k - 1);
        assert(v.drop_first()[k - 1] == v[k]);
    }
}

proof fn lemma_ann_lits_size_elem(v: Seq<SpecAnnotationLiteral>, k: int)
    requires
        0 <= k < v.len(),
    ensures
        ann_lit_size(v[k]) < ann_lits_size(v),
    decreases v.len(),
{
    if k > 0 {
        lemma_ann_lits_size_elem(v.drop_first(), k - 1);
        assert(v.drop_first()[k - 1] == v[k]);
    }
}

proof fn lemma_con_args_size_elem(v: Seq<SpecArgument<SpecLiteral>>, k: int)
    requires
        0 <= k < v.len(),
    ensures
        con_arg_size(v[k]) < con_args_size(v),
    decreases v.len(),
{
    if k > 0 {
        lemma_con_args_size_elem(v.drop_first(), k - 1);
        assert(v.drop_first()[k - 1] == v[k]);
    }
}

/// The declaration of an integer domain.
fn link_type_x(t: im::VarType) -> (r: Type)
    ensures
        r@ == link_type(t@),
{
    match t {
        im::VarType::Bool => Type::Bool,
        im::VarType::Int(d) => Type::Int(
            match d {
                Some(v) => Some(int_range_list(v)),
                None => None,
            },
        ),
        im::VarType::Float(d) => Type::Float(d),
        im::VarType::IntSet(d) => Type::IntSet(
            match d {
                Some(v) => Some(int_range_list(v)),
                None => None,
            },
        ),
    }
}

/// The slots of the name table and what linking has built so far.
struct Linker {
    atoms: Vec<String>,
    entries: Vec<NameEntry>,
    memo: Vec<Option<NamedRef>>,
    in_progress: Vec<bool>,
    self_ref: bool,
}

impl Linker {
    spec fn state(&self) -> LinkState {
        LinkState {
            atoms: views(self.atoms@),
            entries: self.entries@.map_values(|e: NameEntry| (e.name@, e.declaration@)),
            memo: self.memo@.map_values(
                |m: Option<NamedRef>|
                    match m {
                        Some(n) => Some(n@),
                        None => None,
                    },
            ),
            in_progress: self.in_progress@,
            self_ref: self.self_ref,
        }
    }

    spec fn wf(&self) -> bool {
        &&& self.memo@.len() == self.entries@.len()
        &&& self.in_progress@.len() == self.entries@.len()
    }

    fn resolve_x(&mut self, id: usize, Ghost(total): Ghost<nat>, Ghost(depth): Ghost<nat>) -> (r: Result<NamedRef, LinkError>)
        requires
            old(self).wf(),
            total == old(self).entries@.len(),
            depth <= count_true(old(self).in_progress@),
        ensures
            final(self).wf(),
            final(self).entries@.len() == old(self).entries@.len(),
            count_true(old(self).in_progress@) <= count_true(final(self).in_progress@),
            resolve(old(self).state(), id as nat, total, depth).1 == final(self).state(),
            result_is(r, resolve(old(self).state(), id as nat, total, depth).0),
        decreases total - depth, 0nat,
    {
        if id >= self.entries.len() {
            return Err(LinkError::UnknownReference(String::new()));
        }
        if let Some(n) = &self.memo[id] {
            return Ok(share_named(n));
        }
        if self.in_progress[id] {
            self.self_ref = true;
            return Err(LinkError::UnknownReference(self.entries[id].name.clone()));
        }
        let uninit = match &self.entries[id].declaration {
            im::Declaration::Uninit => true,
            _ => false,
        };
        if uninit {
            return Err(LinkError::UnknownReference(self.entries[id].name.clone()));
        }
        proof {
            lemma_count_bound(self.in_progress@, id as int);
        }
        let ghost st = self.state();
        let mut entry = NameEntry { name: String::new(), declaration: im::Declaration::Uninit };
        std::mem::swap(&mut entry, &mut self.entries[id]);
        self.in_progress.set(id, true);
        let saved = self.self_ref;
        proof {
            assert(self.state().entries =~= st.entries.update(id as int, (Seq::empty(), SpecDeclaration::Uninit)));
            assert(self.state().in_progress =~= st.in_progress.update(id as int, true));
        }
        match entry.declaration {
            im::Declaration::Variable(v) => {
                let res = self.create_variable_x(entry.name, v, Ghost(total), Ghost((depth + 1) as nat));
                self.self_ref = saved;
                match res {
                    Ok(var) => {
                        let arc = Arc::new(var);
                        let ghost before = self.state();
                        self.memo.set(id, Some(NamedRef::Variable(share(&arc))));
                        proof {
                            assert(self.state().memo =~= before.memo.update(id as int, Some(PNamed::Variable(var@))));
                            assert(self.state().entries =~= before.entries);
                        }
                        Ok(NamedRef::Variable(arc))
                    },
                    Err(e) => Err(e),
                }
            },
            im::Declaration::Array(a) => {
                let res = self.create_array_x(entry.name, a, Ghost(total), Ghost((depth + 1) as nat));
                self.self_ref = saved;
                match res {
                    Ok(arr) => {
                        let arc = Arc::new(arr);
                        let ghost before = self.state();
                        self.memo.set(id, Some(NamedRef::Array(share(&arc))));
                        proof {
                            assert(self.state().memo =~= before.memo.update(id as int, Some(PNamed::Array(arr@))));
                            assert(self.state().entries =~= before.entries);
                        }
                        Ok(NamedRef::Array(arc))
                    },
                    Err(e) => Err(e),
                }
            },
            im::Declaration::Uninit => {
                proof {
                    assert(false);
                }
                Err(LinkError::UnknownReference(String::new()))
            },
        }
    }

    fn atom_name_x(&self, id: usize) -> (r: String)
        ensures
            r@ == atom_name(self.state(), id as nat),
    {
        if id < self.atoms.len() {
            proof {
                assert(views(self.atoms@)[id as int] == self.atoms@[id as int]@);
            }
            self.atoms[id].clone()
        } else {
            String::new()
        }
    }

    fn create_variable_x(&mut self, name: String, v: im::Variable, Ghost(total): Ghost<nat>, Ghost(depth): Ghost<nat>) -> (r: Result<Variable, LinkError>)
        requires
            old(self).wf(),
            total == old(self).entries@.len(),
            depth <= count_true(old(self).in_progress@),
        ensures
            final(self).wf(),
            final(self).entries@.len() == old(self).entries@.len(),
            count_true(old(self).in_progress@) <= count_true(final(self).in_progress@),
            create_variable(old(self).state(), name@, v@, total, depth).1 == final(self).state(),
            result_is(r, create_variable(old(self).state(), name@, v@, total, depth).0),
        decreases total - depth, anns_size(v@.ann) + 1,
    {
        let ty = link_type_x(v.ty);
        match self.link_anns_x(v.ann, Ghost(total), Ghost(depth)) {
            Ok(ann) => {
                let var = Variable { name, ty, ann, defined: v.defined, introduced: v.introduced };
                proof {
                    crate::model::lemma_var_view(var);
                }
                Ok(var)
            },
            Err(e) => Err(e),
        }
    }

    fn create_array_x(&mut self, name: String, a: im::Array, Ghost(total): Ghost<nat>, Ghost(depth): Ghost<nat>) -> (r: Result<Array, LinkError>)
        requires
            old(self).wf(),
            total == old(self).entries@.len(),
            depth <= count_true(old(self).in_progress@),
        ensures
            final(self).wf(),
            final(self).entries@.len() == old(self).entries@.len(),
            count_true(old(self).in_progress@) <= count_true(final(self).in_progress@),
            create_array(old(self).state(), name@, a@, total, depth).1 == final(self).state(),
            result_is(r, create_array(old(self).state(), name@, a@, total, depth).0),
        decreases total - depth, lits_size(a@.contents) + anns_size(a@.ann) + 1,
    {
        let contents = match self.link_lits_x(a.contents, Ghost(total), Ghost(depth)) {
            Ok(c) => c,
            Err(e) => return Err(e),
        };
        let ann = match self.link_anns_x(a.ann, Ghost(total), Ghost(depth)) {
            Ok(x) => x,
            Err(e) => return Err(e),
        };
        let arr = Array { name, contents, ann, defined: a.defined, introduced: a.introduced };
        proof {
            crate::model::lemma_array_view(arr);
        }
        Ok(arr)
    }

    fn link_lit_x(&mut self, l: im::Literal, Ghost(total): Ghost<nat>, Ghost(depth): Ghost<nat>) -> (r: Result<Literal, LinkError>)
        requires
            old(self).wf(),
            total == old(self).entries@.len(),
            depth <= count_true(old(self).in_progress@),
        ensures
            final(self).wf(),
            final(self).entries@.len() == old(self).entries@.len(),
            count_true(old(self).in_progress@) <= count_true(final(self).in_progress@),
            link_lit(old(self).state(), l@, total, depth).1 == final(self).state(),
            result_is(r, link_lit(old(self).state(), l@, total, depth).0),
        decreases total - depth, 1nat,
    {
        match l {
            im::Literal::Int(i) => Ok(Literal::Int(i)),
            im::Literal::Float(t) => Ok(Literal::Float(t)),
            im::Literal::Reference(id) => match self.resolve_x(id, Ghost(total), Ghost(depth)) {
                Ok(NamedRef::Variable(v)) => Ok(Literal::Variable(v)),
                Ok(NamedRef::Array(arr)) => Err(LinkError::NestedArray(arr.name.clone())),
                Err(e) => Err(e),
            },
            im::Literal::Bool(b) => Ok(Literal::Bool(b)),
            im::Literal::IntSet(v) => Ok(Literal::IntSet(int_range_list(v))),
            im::Literal::FloatSet(v) => Ok(Literal::FloatSet(v)),
            im::Literal::Str(t) => Ok(Literal::String(t)),
        }
    }

    fn link_ann_x(&mut self, a: im::Annotation, Ghost(total): Ghost<nat>, Ghost(depth): Ghost<nat>) -> (r: Result<Annotation, LinkError>)
        requires
            old(self).wf(),
            total == old(self).entries@.len(),
            depth <= count_true(old(self).in_progress@),
        ensures
            final(self).wf(),
            final(self).entries@.len() == old(self).entries@.len(),
            count_true(old(self).in_progress@) <= count_true(final(self).in_progress@),
            link_ann(old(self).state(), a@, total, depth).1 == final(self).state(),
            result_is(r, link_ann(old(self).state(), a@, total, depth).0),
        decreases total - depth, ann_size(a@),
    {
        match a {
            im::Annotation::Atom(t) => Ok(Annotation::Atom(t)),
            im::Annotation::Call(c) => match self.link_call_x(c, Ghost(total), Ghost(depth)) {
                Ok(pc) => Ok(Annotation::Call(pc)),
                Err(e) => Err(e),
            },
        }
    }

    fn link_call_x(&mut self, c: im::AnnotationCall, Ghost(total): Ghost<nat>, Ghost(depth): Ghost<nat>) -> (r: Result<AnnotationCall, LinkError>)
        requires
            old(self).wf(),
            total == old(self).entries@.len(),
            depth <= count_true(old(self).in_progress@),
        ensures
            final(self).wf(),
            final(self).entries@.len() == old(self).entries@.len(),
            count_true(old(self).in_progress@) <= count_true(final(self).in_progress@),
            link_call(old(self).state(), c@, total, depth).1 == final(self).state(),
            result_is(r, link_call(old(self).state(), c@, total, depth).0),
        decreases total - depth, call_size(c@),
    {
        proof {
            lemma_ann_views(c);
        }
        let id = c.id;
        match self.link_ann_args_x(c.args, Ghost(total), Ghost(depth)) {
            Ok(args) => {
                let pc = AnnotationCall { id, args };
                proof {
                    crate::model::lemma_call_view(pc);
                }
                Ok(pc)
            },
            Err(e) => Err(e),
        }
    }

    fn link_ann_arg_x(&mut self, a: im::Argument<im::AnnotationLiteral>, Ghost(total): Ghost<nat>, Ghost(depth): Ghost<nat>) -> (r: Result<Argument<AnnotationLiteral>, LinkError>)
        requires
            old(self).wf(),
            total == old(self).entries@.len(),
            depth <= count_true(old(self).in_progress@),
        ensures
            final(self).wf(),
            final(self).entries@.len() == old(self).entries@.len(),
            count_true(old(self).in_progress@) <= count_true(final(self).in_progress@),
            link_ann_arg(old(self).state(), a@, total, depth).1 == final(self).state(),
            result_is(r, link_ann_arg(old(self).state(), a@, total, depth).0),
        decreases total - depth, ann_arg_size(a@),
    {
        match a {
            im::Argument::Array(v) => match self.link_ann_lits_x(v, Ghost(total), Ghost(depth)) {
                Ok(xs) => {
                    proof {
                        crate::model::lemma_ann_arg_array_view(xs);
                    }
                    Ok(Argument::Array(xs))
                },
                Err(e) => Err(e),
            },
            im::Argument::Literal(l) => match l {
                im::AnnotationLiteral::Literal(im::Literal::Reference(id)) => {
                    match self.resolve_x(id, Ghost(total), Ghost(depth)) {
                        Ok(NamedRef::Variable(v)) => Ok(
                            Argument::Literal(AnnotationLiteral::Variable(VarRef::new(&v))),
                        ),
                        Ok(NamedRef::Array(arr)) => Ok(Argument::ArrayNamed(arr)),
                        Err(LinkError::UnknownReference(n)) => {
                            if self.self_ref {
                                Err(LinkError::UnknownReference(n))
                            } else {
                                Ok(
                                    Argument::Literal(
                                        AnnotationLiteral::Annotation(Annotation::Atom(self.atom_name_x(id))),
                                    ),
                                )
                            }
                        },
                        Err(e) => Err(e),
                    }
                },
                other => match self.link_ann_lit_x(other, Ghost(total), Ghost(depth)) {
                    Ok(x) => Ok(Argument::Literal(x)),
                    Err(e) => Err(e),
                },
            },
        }
    }

    fn link_ann_lit_x(&mut self, l: im::AnnotationLiteral, Ghost(total): Ghost<nat>, Ghost(depth): Ghost<nat>) -> (r: Result<AnnotationLiteral, LinkError>)
        requires
            old(self).wf(),
            total == old(self).entries@.len(),
            depth <= count_true(old(self).in_progress@),
        ensures
            final(self).wf(),
            final(self).entries@.len() == old(self).entries@.len(),
            count_true(old(self).in_progress@) <= count_true(final(self).in_progress@),
            link_ann_lit(old(self).state(), l@, total, depth).1 == final(self).state(),
            result_is(r, link_ann_lit(old(self).state(), l@, total, depth).0),
        decreases total - depth, ann_lit_size(l@),
    {
        match l {
            im::AnnotationLiteral::Literal(x) => match x {
                im::Literal::Reference(id) => match self.resolve_x(id, Ghost(total), Ghost(depth)) {
                    Ok(NamedRef::Variable(v)) => Ok(AnnotationLiteral::Variable(VarRef::new(&v))),
                    Ok(NamedRef::Array(arr)) => Err(LinkError::NestedArray(arr.name.clone())),
                    Err(LinkError::UnknownReference(n)) => {
                        if self.self_ref {
                            Err(LinkError::UnknownReference(n))
                        } else {
                            Ok(AnnotationLiteral::Annotation(Annotation::Atom(self.atom_name_x(id))))
                        }
                    },
                    Err(e) => Err(e),
                },
                other => match self.link_lit_x(other, Ghost(total), Ghost(depth)) {
                    Ok(y) => Ok(AnnotationLiteral::Literal(y)),
                    Err(e) => Err(e),
                },
            },
            im::AnnotationLiteral::Annotation(c) => match self.link_call_x(c, Ghost(total), Ghost(depth)) {
                Ok(pc) => Ok(AnnotationLiteral::Annotation(Annotation::Call(pc))),
                Err(e) => Err(e),
            },
        }
    }

    fn link_con_arg_x(&mut self, a: im::Argument<im::Literal>, Ghost(total): Ghost<nat>, Ghost(depth): Ghost<nat>) -> (r: Result<Argument<Literal>, LinkError>)
        requires
            old(self).wf(),
            total == old(self).entries@.len(),
            depth <= count_true(old(self).in_progress@),
        ensures
            final(self).wf(),
            final(self).entries@.len() == old(self).entries@.len(),
            count_true(old(self).in_progress@) <= count_true(final(self).in_progress@),
            link_con_arg(old(self).state(), a@, total, depth).1 == final(self).state(),
            result_is(r, link_con_arg(old(self).state(), a@, total, depth).0),
        decreases total - depth, con_arg_size(a@),
    {
        match a {
            im::Argument::Array(v) => match self.link_lits_x(v, Ghost(total), Ghost(depth)) {
                Ok(xs) => Ok(Argument::Array(xs)),
                Err(e) => Err(e),
            },
            im::Argument::Literal(l) => match l {
                im::Literal::Reference(id) => match self.resolve_x(id, Ghost(total), Ghost(depth)) {
                    Ok(NamedRef::Variable(v)) => Ok(Argument::Literal(Literal::Variable(v))),
                    Ok(NamedRef::Array(arr)) => Ok(Argument::ArrayNamed(arr)),
                    Err(e) => Err(e),
                },
                other => match self.link_lit_x(other, Ghost(total), Ghost(depth)) {
                    Ok(x) => Ok(Argument::Literal(x)),
                    Err(e) => Err(e),
                },
            },
        }
    }

    fn link_lits_x(&mut self, v: Vec<im::Literal>, Ghost(total): Ghost<nat>, Ghost(depth): Ghost<nat>) -> (r: Result<Vec<Literal>, LinkError>)
        requires
            old(self).wf(),
            total == old(self).entries@.len(),
            depth <= count_true(old(self).in_progress@),
        ensures
            final(self).wf(),
            final(self).entries@.len() == old(self).entries@.len(),
            count_true(old(self).in_progress@) <= count_true(final(self).in_progress@),
            link_lits(old(self).state(), views(v@), total, depth).1 == final(self).state(),
            results_are(r, link_lits(old(self).state(), views(v@), total, depth).0),
        decreases total - depth, lits_size(views(v@)),
    {
        let ghost all = views(v@);
        let ghost st0 = self.state();
        let mut rest = reversed(v);
        let mut out: Vec<Literal> = Vec::new();
        let ghost mut k: int = 0;
        proof {
            assert(all.subrange(0, all.len() as int) =~= all);
            assert(views(out@) =~= Seq::empty());
            let r0 = link_lits(st0, all, total, depth);
            match r0.0 {
                Ok(xs) => {
                    assert(Seq::empty() + xs =~= xs);
                },
                _ => {},
            }
        }
        while rest.len() > 0
            invariant
                self.wf(),
                all == views(v@),
                st0 == old(self).state(),
                old(self).entries@.len() == total,
                self.entries@.len() == total,
                count_true(st0.in_progress) <= count_true(self.in_progress@),
                depth <= count_true(st0.in_progress),
                0 <= k <= all.len(),
                rest@.len() == all.len() - k,
                forall|i: int| 0 <= i < rest@.len() ==> #[trigger] rest@[i]@ == all[all.len() - 1 - i],
                link_lits(st0, all, total, depth) == prepend(views(out@), link_lits(self.state(), all.subrange(k, all.len() as int), total, depth)),
            decreases rest@.len(),
        {
            let ghost last = (rest@.len() - 1) as int;
            let item = rest.pop().unwrap();
            proof {
                assert(item@ == all[k]);
            
                let w = all.subrange(k, all.len() as int);
                assert(w[0] == all[k]);
                assert(w.drop_first() =~= all.subrange(k + 1, all.len() as int));
            }
            let x = self.link_lit_x(item, Ghost(total), Ghost(depth));
            match x {
                Ok(y) => {
                    proof {
                        lemma_views_push(out@, y);
                        let rr = link_lits(self.state(), all.subrange(k + 1, all.len() as int), total, depth);
                        match rr.0 {
                            Ok(xs) => {
                                assert(views(out@) + (seq![y@] + xs) =~= views(out@).push(y@) + xs);
                            },
                            _ => {},
                        }
                        k = k + 1;
                    }
                    out.push(y);
                },
                    Err(e) => {
                        return Err(e);
                    },
            }
        }
        proof {
            assert(all.subrange(k, all.len() as int) =~= Seq::empty());
            assert(views(out@) + Seq::empty() =~= views(out@));
        }
        Ok(out)
    }

    fn link_anns_x(&mut self, v: Vec<im::Annotation>, Ghost(total): Ghost<nat>, Ghost(depth): Ghost<nat>) -> (r: Result<Vec<Annotation>, LinkError>)
        requires
            old(self).wf(),
            total == old(self).entries@.len(),
            depth <= count_true(old(self).in_progress@),
        ensures
            final(self).wf(),
            final(self).entries@.len() == old(self).entries@.len(),
            count_true(old(self).in_progress@) <= count_true(final(self).in_progress@),
            link_anns(old(self).state(), views(v@), total, depth).1 == final(self).state(),
            results_are(r, link_anns(old(self).state(), views(v@), total, depth).0),
        decreases total - depth, anns_size(views(v@)),
    {
        let ghost all = views(v@);
        let ghost st0 = self.state();
        let mut rest = reversed(v);
        let mut out: Vec<Annotation> = Vec::new();
        let ghost mut k: int = 0;
        proof {
            assert(all.subrange(0, all.len() as int) =~= all);
            assert(views(out@) =~= Seq::empty());
            let r0 = link_anns(st0, all, total, depth);
            match r0.0 {
                Ok(xs) => {
                    assert(Seq::empty() + xs =~= xs);
                },
                _ => {},
            }
        }
        while rest.len() > 0
            invariant
                self.wf(),
                all == views(v@),
                st0 == old(self).state(),
                old(self).entries@.len() == total,
                self.entries@.len() == total,
                count_true(st0.in_progress) <= count_true(self.in_progress@),
                depth <= count_true(st0.in_progress),
                0 <= k <= all.len(),
                rest@.len() == all.len() - k,
                forall|i: int| 0 <= i < rest@.len() ==> #[trigger] rest@[i]@ == all[all.len() - 1 - i],
                link_anns(st0, all, total, depth) == prepend(views(out@), link_anns(self.state(), all.subrange(k, all.len() as int), total, depth)),
            decreases rest@.len(),
        {
            let ghost last = (rest@.len() - 1) as int;
            let item = rest.pop().unwrap();
            proof {
                assert(item@ == all[k]);
                lemma_anns_size_elem(all, k);
                let w = all.subrange(k, all.len() as int);
                assert(w[0] == all[k]);
                assert(w.drop_first() =~= all.subrange(k + 1, all.len() as int));
            }
                self.self_ref = false;
            let x = self.link_ann_x(item, Ghost(total), Ghost(depth));
            match x {
                Ok(y) => {
                    proof {
                        lemma_views_push(out@, y);
                        let rr = link_anns(self.state(), all.subrange(k + 1, all.len() as int), total, depth);
                        match rr.0 {
                            Ok(xs) => {
                                assert(views(out@) + (seq![y@] + xs) =~= views(out@).push(y@) + xs);
                            },
                            _ => {},
                        }
                        k = k + 1;
                    }
                    out.push(y);
                },
                    Err(e) => {
                        if !self.self_ref {
                            return Err(e);
                        }
                        proof {
                            k = k + 1;
                        }
                    },
            }
        }
        proof {
            assert(all.subrange(k, all.len() as int) =~= Seq::empty());
            assert(views(out@) + Seq::empty() =~= views(out@));
        }
        Ok(out)
    }

    fn link_ann_args_x(&mut self, v: Vec<im::Argument<im::AnnotationLiteral>>, Ghost(total): Ghost<nat>, Ghost(depth): Ghost<nat>) -> (r: Result<Vec<Argument<AnnotationLiteral>>, LinkError>)
        requires
            old(self).wf(),
            total == old(self).entries@.len(),
            depth <= count_true(old(self).in_progress@),
        ensures
            final(self).wf(),
            final(self).entries@.len() == old(self).entries@.len(),
            count_true(old(self).in_progress@) <= count_true(final(self).in_progress@),
            link_ann_args(old(self).state(), views(v@), total, depth).1 == final(self).state(),
            results_are(r, link_ann_args(old(self).state(), views(v@), total, depth).0),
        decreases total - depth, ann_args_size(views(v@)),
    {
        let ghost all = views(v@);
        let ghost st0 = self.state();
        let mut rest = reversed(v);
        let mut out: Vec<Argument<AnnotationLiteral>> = Vec::new();
        let ghost mut k: int = 0;
        proof {
            assert(all.subrange(0, all.len() as int) =~= all);
            assert(views(out@) =~= Seq::empty());
            let r0 = link_ann_args(st0, all, total, depth);
            match r0.0 {
                Ok(xs) => {
                    assert(Seq::empty() + xs =~= xs);
                },
                _ => {},
            }
        }
        while rest.len() > 0
            invariant
                self.wf(),
                all == views(v@),
                st0 == old(self).state(),
                old(self).entries@.len() == total,
                self.entries@.len() == total,
                count_true(st0.in_progress) <= count_true(self.in_progress@),
                depth <= count_true(st0.in_progress),
                0 <= k <= all.len(),
                rest@.len() == all.len() - k,
                forall|i: int| 0 <= i < rest@.len() ==> #[trigger] rest@[i]@ == all[all.len() - 1 - i],
                link_ann_args(st0, all, total, depth) == prepend(views(out@), link_ann_args(self.state(), all.subrange(k, all.len() as int), total, depth)),
            decreases rest@.len(),
        {
            let ghost last = (rest@.len() - 1) as int;
            let item = rest.pop().unwrap();
            proof {
                assert(item@ == all[k]);
                lemma_ann_args_size_elem(all, k);
                let w = all.subrange(k, all.len() as int);
                assert(w[0] == all[k]);
                assert(w.drop_first() =~= all.subrange(k + 1, all.len() as int));
            }
            let x = self.link_ann_arg_x(item, Ghost(total), Ghost(depth));
            match x {
                Ok(y) => {
                    proof {
                        lemma_views_push(out@, y);
                        let rr = link_ann_args(self.state(), all.subrange(k + 1, all.len() as int), total, depth);
                        match rr.0 {
                            Ok(xs) => {
                                assert(views(out@) + (seq![y@] + xs) =~= views(out@).push(y@) + xs);
                            },
                            _ => {},
                        }
                        k = k + 1;
                    }
                    out.push(y);
                },
                    Err(e) => {
                        return Err(e);
                    },
            }
        }
        proof {
            assert(all.subrange(k, all.len() as int) =~= Seq::empty());
            assert(views(out@) + Seq::empty() =~= views(out@));
        }
        Ok(out)
    }

    fn link_ann_lits_x(&mut self, v: Vec<im::AnnotationLiteral>, Ghost(total): Ghost<nat>, Ghost(depth): Ghost<nat>) -> (r: Result<Vec<AnnotationLiteral>, LinkError>)
        requires
            old(self).wf(),
            total == old(self).entries@.len(),
            depth <= count_true(old(self).in_progress@),
        ensures
            final(self).wf(),
            final(self).entries@.len() == old(self).entries@.len(),
            count_true(old(self).in_progress@) <= count_true(final(self).in_progress@),
            link_ann_lits(old(self).state(), views(v@), total, depth).1 == final(self).state(),
            results_are(r, link_ann_lits(old(self).state(), views(v@), total, depth).0),
        decreases total - depth, ann_lits_size(views(v@)),
    {
        let ghost all = views(v@);
        let ghost st0 = self.state();
        let mut rest = reversed(v);
        let mut out: Vec<AnnotationLiteral> = Vec::new();
        let ghost mut k: int = 0;
        proof {
            assert(all.subrange(0, all.len() as int) =~= all);
            assert(views(out@) =~= Seq::empty());
            let r0 = link_ann_lits(st0, all, total, depth);
            match r0.0 {
                Ok(xs) => {
                    assert(Seq::empty() + xs =~= xs);
                },
                _ => {},
            }
        }
        while rest.len() > 0
            invariant
                self.wf(),
                all == views(v@),
                st0 == old(self).state(),
                old(self).entries@.len() == total,
                self.entries@.len() == total,
                count_true(st0.in_progress) <= count_true(self.in_progress@),
                depth <= count_true(st0.in_progress),
                0 <= k <= all.len(),
                rest@.len() == all.len() - k,
                forall|i: int| 0 <= i < rest@.len() ==> #[trigger] rest@[i]@ == all[all.len() - 1 - i],
                link_ann_lits(st0, all, total, depth) == prepend(views(out@), link_ann_lits(self.state(), all.subrange(k, all.len() as int), total, depth)),
            decreases rest@.len(),
        {
            let ghost last = (rest@.len() - 1) as int;
            let item = rest.pop().unwrap();
            proof {
                assert(item@ == all[k]);
                lemma_ann_lits_size_elem(all, k);
                let w = all.subrange(k, all.len() as int);
                assert(w[0] == all[k]);
                assert(w.drop_first() =~= all.subrange(k + 1, all.len() as int));
            }
            let x = self.link_ann_lit_x(item, Ghost(total), Ghost(depth));
            match x {
                Ok(y) => {
                    proof {
                        lemma_views_push(out@, y);
                        let rr = link_ann_lits(self.state(), all.subrange(k + 1, all.len() as int), total, depth);
                        match rr.0 {
                            Ok(xs) => {
                                assert(views(out@) + (seq![y@] + xs) =~= views(out@).push(y@) + xs);
                            },
                            _ => {},
                        }
                        k = k + 1;
                    }
                    out.push(y);
                },
                    Err(e) => {
                        return Err(e);
                    },
            }
        }
        proof {
            assert(all.subrange(k, all.len() as int) =~= Seq::empty());
            assert(views(out@) + Seq::empty() =~= views(out@));
        }
        Ok(out)
    }

    fn link_con_args_x(&mut self, v: Vec<im::Argument<im::Literal>>, Ghost(total): Ghost<nat>, Ghost(depth): Ghost<nat>) -> (r: Result<Vec<Argument<Literal>>, LinkError>)
        requires
            old(self).wf(),
            total == old(self).entries@.len(),
            depth <= count_true(old(self).in_progress@),
        ensures
            final(self).wf(),
            final(self).entries@.len() == old(self).entries@.len(),
            count_true(old(self).in_progress@) <= count_true(final(self).in_progress@),
            link_con_args(old(self).state(), views(v@), total, depth).1 == final(self).state(),
            results_are(r, link_con_args(old(self).state(), views(v@), total, depth).0),
        decreases total - depth, con_args_size(views(v@)),
    {
        let ghost all = views(v@);
        let ghost st0 = self.state();
        let mut rest = reversed(v);
        let mut out: Vec<Argument<Literal>> = Vec::new();
        let ghost mut k: int = 0;
        proof {
            assert(all.subrange(0, all.len() as int) =~= all);
            assert(views(out@) =~= Seq::empty());
            let r0 = link_con_args(st0, all, total, depth);
            match r0.0 {
                Ok(xs) => {
                    assert(Seq::empty() + xs =~= xs);
                },
                _ => {},
            }
        }
        while rest.len() > 0
            invariant
                self.wf(),
                all == views(v@),
                st0 == old(self).state(),
                old(self).entries@.len() == total,
                self.entries@.len() == total,
                count_true(st0.in_progress) <= count_true(self.in_progress@),
                depth <= count_true(st0.in_progress),
                0 <= k <= all.len(),
                rest@.len() == all.len() - k,
                forall|i: int| 0 <= i < rest@.len() ==> #[trigger] rest@[i]@ == all[all.len() - 1 - i],
                link_con_args(st0, all, total, depth) == prepend(views(out@), link_con_args(self.state(), all.subrange(k, all.len() as int), total, depth)),
            decreases rest@.len(),
        {
            let ghost last = (rest@.len() - 1) as int;
            let item = rest.pop().unwrap();
            proof {
                assert(item@ == all[k]);
                lemma_con_args_size_elem(all, k);
                let w = all.subrange(k, all.len() as int);
                assert(w[0] == all[k]);
                assert(w.drop_first() =~= all.subrange(k + 1, all.len() as int));
            }
            let x = self.link_con_arg_x(item, Ghost(total), Ghost(depth));
            match x {
                Ok(y) => {
                    proof {
                        lemma_views_push(out@, y);
                        let rr = link_con_args(self.state(), all.subrange(k + 1, all.len() as int), total, depth);
                        match rr.0 {
                            Ok(xs) => {
                                assert(views(out@) + (seq![y@] + xs) =~= views(out@).push(y@) + xs);
                            },
                            _ => {},
                        }
                        k = k + 1;
                    }
                    out.push(y);
                },
                    Err(e) => {
                        return Err(e);
                    },
            }
        }
        proof {
            assert(all.subrange(k, all.len() as int) =~= Seq::empty());
            assert(views(out@) + Seq::empty() =~= views(out@));
        }
        Ok(out)
    }
}

impl Linker {
    fn link_constraint_x(&mut self, c: im::Constraint, Ghost(total): Ghost<nat>) -> (r: Result<Constraint, LinkError>)
        requires
            old(self).wf(),
            total == old(self).entries@.len(),
        ensures
            final(self).wf(),
            final(self).entries@.len() == old(self).entries@.len(),
            link_constraint(old(self).state(), c@, total).1 == final(self).state(),
            result_is(r, link_constraint(old(self).state(), c@, total).0),
    {
        let defines = match c.defines {
            Some(id) => match self.resolve_x(id, Ghost(total), Ghost(0)) {
                Ok(n) => Some(n),
                Err(e) => return Err(e),
            },
            None => None,
        };
        let args = match self.link_con_args_x(c.args, Ghost(total), Ghost(0)) {
            Ok(a) => a,
            Err(e) => return Err(e),
        };
        let ann = match self.link_anns_x(c.ann, Ghost(total), Ghost(0)) {
            Ok(a) => a,
            Err(e) => return Err(e),
        };
        Ok(Constraint { id: c.id, args, defines, ann })
    }

    fn link_constraints_x(&mut self, v: Vec<im::Constraint>, Ghost(total): Ghost<nat>) -> (r: Result<Vec<Constraint>, LinkError>)
        requires
            old(self).wf(),
            total == old(self).entries@.len(),
        ensures
            final(self).wf(),
            final(self).entries@.len() == old(self).entries@.len(),
            link_constraints(old(self).state(), views(v@), total).1 == final(self).state(),
            results_are(r, link_constraints(old(self).state(), views(v@), total).0),
    {
        let ghost all = views(v@);
        let ghost st0 = self.state();
        let mut rest = reversed(v);
        let mut out: Vec<Constraint> = Vec::new();
        let ghost mut k: int = 0;
        proof {
            assert(all.subrange(0, all.len() as int) =~= all);
            assert(views(out@) =~= Seq::empty());
            let r0 = link_constraints(st0, all, total);
            match r0.0 {
                Ok(xs) => {
                    assert(Seq::empty() + xs =~= xs);
                },
                _ => {},
            }
        }
        while rest.len() > 0
            invariant
                self.wf(),
                all == views(v@),
                st0 == old(self).state(),
                old(self).entries@.len() == total,
                self.entries@.len() == total,
                0 <= k <= all.len(),
                rest@.len() == all.len() - k,
                forall|i: int| 0 <= i < rest@.len() ==> #[trigger] rest@[i]@ == all[all.len() - 1 - i],
                link_constraints(st0, all, total) == prepend(views(out@), link_constraints(self.state(), all.subrange(k, all.len() as int), total)),
            decreases rest@.len(),
        {
            let item = rest.pop().unwrap();
            proof {
                assert(item@ == all[k]);
                let w = all.subrange(k, all.len() as int);
                assert(w[0] == all[k]);
                assert(w.drop_first() =~= all.subrange(k + 1, all.len() as int));
            }
            let x = self.link_constraint_x(item, Ghost(total));
            match x {
                Ok(y) => {
                    proof {
                        lemma_views_push(out@, y);
                        let rr = link_constraints(self.state(), all.subrange(k + 1, all.len() as int), total);
                        match rr.0 {
                            Ok(xs) => {
                                assert(views(out@) + (seq![y@] + xs) =~= views(out@).push(y@) + xs);
                            },
                            _ => {},
                        }
                        k = k + 1;
                    }
                    out.push(y);
                },
                Err(e) => {
                    return Err(e);
                },
            }
        }
        proof {
            assert(all.subrange(k, all.len() as int) =~= Seq::empty());
            assert(views(out@) + Seq::empty() =~= views(out@));
        }
        Ok(out)
    }

    fn link_output_x(&mut self, v: Vec<usize>, Ghost(total): Ghost<nat>) -> (r: Result<Vec<NamedRef>, LinkError>)
        requires
            old(self).wf(),
            total == old(self).entries@.len(),
        ensures
            final(self).wf(),
            final(self).entries@.len() == old(self).entries@.len(),
            link_output(old(self).state(), v@.map_values(|i: usize| i as nat), total).1 == final(self).state(),
            results_are(r, link_output(old(self).state(), v@.map_values(|i: usize| i as nat), total).0),
    {
        let ghost all = v@.map_values(|i: usize| i as nat);
        let ghost st0 = self.state();
        let mut out: Vec<NamedRef> = Vec::new();
        let mut k: usize = 0;
        proof {
            assert(all.subrange(0, all.len() as int) =~= all);
            assert(views(out@) =~= Seq::empty());
            let r0 = link_output(st0, all, total);
            match r0.0 {
                Ok(xs) => {
                    assert(Seq::empty() + xs =~= xs);
                },
                _ => {},
            }
        }
        while k < v.len()
            invariant
                self.wf(),
                all == v@.map_values(|i: usize| i as nat),
                st0 == old(self).state(),
                old(self).entries@.len() == total,
                self.entries@.len() == total,
                0 <= k <= all.len(),
                link_output(st0, all, total) == prepend(views(out@), link_output(self.state(), all.subrange(k as int, all.len() as int), total)),
            decreases all.len() - k,
        {
            proof {
                let w = all.subrange(k as int, all.len() as int);
                assert(w[0] == all[k as int]);
                assert(w.drop_first() =~= all.subrange(k + 1, all.len() as int));
            }
            let x = self.resolve_x(v[k], Ghost(total), Ghost(0));
            match x {
                Ok(y) => {
                    proof {
                        lemma_views_push(out@, y);
                        let rr = link_output(self.state(), all.subrange(k + 1, all.len() as int), total);
                        match rr.0 {
                            Ok(xs) => {
                                assert(views(out@) + (seq![y@] + xs) =~= views(out@).push(y@) + xs);
                            },
                            _ => {},
                        }
                    }
                    out.push(y);
                    k = k + 1;
                },
                Err(e) => {
                    return Err(e);
                },
            }
        }
        proof {
            assert(all.subrange(k as int, all.len() as int) =~= Seq::empty());
            assert(views(out@) + Seq::empty() =~= views(out@));
        }
        Ok(out)
    }

    fn link_variables_x(&mut self, is_var: &Vec<bool>, Ghost(decls): Ghost<Seq<SpecDeclaration>>, Ghost(total): Ghost<nat>) -> (r: Result<Vec<Arc<Variable>>, LinkError>)
        requires
            old(self).wf(),
            total == old(self).entries@.len(),
            is_var@.len() == decls.len(),
            forall|i: int| 0 <= i < decls.len() ==> #[trigger] is_var@[i] == (decls[i] is Variable),
        ensures
            final(self).wf(),
            final(self).entries@.len() == old(self).entries@.len(),
            link_variables(old(self).state(), decls, 0, total).1 == final(self).state(),
            results_are(r, link_variables(old(self).state(), decls, 0, total).0),
    {
        let ghost st0 = self.state();
        let mut out: Vec<Arc<Variable>> = Vec::new();
        let mut i: usize = 0;
        proof {
            assert(views(out@) =~= Seq::empty());
            let r0 = link_variables(st0, decls, 0, total);
            match r0.0 {
                Ok(xs) => {
                    assert(Seq::empty() + xs =~= xs);
                },
                _ => {},
            }
        }
        while i < is_var.len()
            invariant
                self.wf(),
                st0 == old(self).state(),
                old(self).entries@.len() == total,
                self.entries@.len() == total,
                i <= is_var@.len(),
                is_var@.len() == decls.len(),
                forall|j: int| 0 <= j < decls.len() ==> #[trigger] is_var@[j] == (decls[j] is Variable),
                link_variables(st0, decls, 0, total) == prepend(views(out@), link_variables(self.state(), decls, i as nat, total)),
            decreases is_var@.len() - i,
        {
            if is_var[i] {
                match self.resolve_x(i, Ghost(total), Ghost(0)) {
                    Ok(NamedRef::Variable(y)) => {
                        proof {
                            lemma_views_push(out@, y);
                            let rr = link_variables(self.state(), decls, (i + 1) as nat, total);
                            match rr.0 {
                                Ok(xs) => {
                                    assert(views(out@) + (seq![y@] + xs) =~= views(out@).push(y@) + xs);
                                },
                                _ => {},
                            }
                        }
                        out.push(y);
                    },
                    Ok(NamedRef::Array(_)) => {},
                    Err(e) => {
                        return Err(e);
                    },
                }
            }
            i = i + 1;
        }
        proof {
            assert(views(out@) + Seq::empty() =~= views(out@));
        }
        Ok(out)
    }

    fn link_arrays_x(&mut self, is_arr: &Vec<bool>, Ghost(decls): Ghost<Seq<SpecDeclaration>>, Ghost(total): Ghost<nat>) -> (r: Result<Vec<Arc<Array>>, LinkError>)
        requires
            old(self).wf(),
            total == old(self).entries@.len(),
            is_arr@.len() == decls.len(),
            forall|i: int| 0 <= i < decls.len() ==> #[trigger] is_arr@[i] == (decls[i] is Array),
        ensures
            final(self).wf(),
            final(self).entries@.len() == old(self).entries@.len(),
            link_arrays(old(self).state(), decls, 0, total).1 == final(self).state(),
            results_are(r, link_arrays(old(self).state(), decls, 0, total).0),
    {
        let ghost st0 = self.state();
        let mut out: Vec<Arc<Array>> = Vec::new();
        let mut i: usize = 0;
        proof {
            assert(views(out@) =~= Seq::empty());
            let r0 = link_arrays(st0, decls, 0, total);
            match r0.0 {
                Ok(xs) => {
                    assert(Seq::empty() + xs =~= xs);
                },
                _ => {},
            }
        }
        while i < is_arr.len()
            invariant
                self.wf(),
                st0 == old(self).state(),
                old(self).entries@.len() == total,
                self.entries@.len() == total,
                i <= is_arr@.len(),
                is_arr@.len() == decls.len(),
                forall|j: int| 0 <= j < decls.len() ==> #[trigger] is_arr@[j] == (decls[j] is Array),
                link_arrays(st0, decls, 0, total) == prepend(views(out@), link_arrays(self.state(), decls, i as nat, total)),
            decreases is_arr@.len() - i,
        {
            if is_arr[i] {
                match self.resolve_x(i, Ghost(total), Ghost(0)) {
                    Ok(NamedRef::Array(y)) => {
                        proof {
                            lemma_views_push(out@, y);
                            let rr = link_arrays(self.state(), decls, (i + 1) as nat, total);
                            match rr.0 {
                                Ok(xs) => {
                                    assert(views(out@) + (seq![y@] + xs) =~= views(out@).push(y@) + xs);
                                },
                                _ => {},
                            }
                        }
                        out.push(y);
                    },
                    Ok(NamedRef::Variable(_)) => {},
                    Err(e) => {
                        return Err(e);
                    },
                }
            }
            i = i + 1;
        }
        proof {
            assert(views(out@) + Seq::empty() =~= views(out@));
        }
        Ok(out)
    }

    fn link_solve_x(&mut self, s: im::SolveObjective, Ghost(total): Ghost<nat>) -> (r: Result<SolveObjective, LinkError>)
        requires
            old(self).wf(),
            total == old(self).entries@.len(),
        ensures
            final(self).wf(),
            final(self).entries@.len() == old(self).entries@.len(),
            link_solve(old(self).state(), s@.method, s@.ann, total).1 == final(self).state(),
            result_is(r, link_solve(old(self).state(), s@.method, s@.ann, total).0),
    {
        let method = match s.method {
            im::Method::Satisfy => Method::Satisfy,
            im::Method::Minimize(l) => match self.link_lit_x(l, Ghost(total), Ghost(0)) {
                Ok(x) => Method::Minimize(x),
                Err(e) => return Err(e),
            },
            im::Method::Maximize(l) => match self.link_lit_x(l, Ghost(total), Ghost(0)) {
                Ok(x) => Method::Maximize(x),
                Err(e) => return Err(e),
            },
        };
        match self.link_anns_x(s.ann, Ghost(total), Ghost(0)) {
            Ok(ann) => Ok(SolveObjective { method, ann }),
            Err(e) => Err(e),
        }
    }
}

/// Link a model that has been read: the names with their declarations, the
/// constraints, the output names, the solve item and the format version. An
/// undeclared name in an annotation becomes an atom of that name.
pub fn link(
    names: NameStore,
    constraints: Vec<im::Constraint>,
    output: Vec<NameId>,
    solve: im::SolveObjective,
    version: String,
) -> (r: Result<FlatZinc, LinkError>)
    requires
        names.wf(),
    ensures
        match link_model(
            names.names(),
            names.decls(),
            views(constraints@),
            output@.map_values(|i: NameId| i as nat),
            solve@.method,
            solve@.ann,
            version@,
        ) {
            Ok(p) => r matches Ok(f) && f@ == p,
            Err(k) => r matches Err(e) && link_error_is(e, k),
        },
{
    let mut atoms: Vec<String> = Vec::new();
    let n = names.len();
    let mut i: usize = 0;
    while i < n
        invariant
            names.wf(),
            n == names.names().len(),
            i <= n,
            views(atoms@) == names.names().take(i as int),
        decreases n - i,
    {
        let t = names.name_of(i);
        proof {
            lemma_views_push(atoms@, t);
            assert(names.names().take(i + 1) =~= names.names().take(i as int).push(t@));
        }
        atoms.push(t);
        i = i + 1;
    }
    proof {
        assert(names.names().take(n as int) =~= names.names());
    }
    link_with_atoms(names, atoms, constraints, output, solve, version)
}

/// Link a model as `link` does, an undeclared name in an annotation becoming
/// the atom of its slot in `atoms`.
pub fn link_with_atoms(
    names: NameStore,
    atoms: Vec<String>,
    constraints: Vec<im::Constraint>,
    output: Vec<NameId>,
    solve: im::SolveObjective,
    version: String,
) -> (r: Result<FlatZinc, LinkError>)
    requires
        names.wf(),
        atoms@.len() == names.names().len(),
    ensures
        match link_model_with(
            names.names(),
            names.decls(),
            views(atoms@),
            views(constraints@),
            output@.map_values(|i: NameId| i as nat),
            solve@.method,
            solve@.ann,
            version@,
        ) {
            Ok(p) => r matches Ok(f) && f@ == p,
            Err(k) => r matches Err(e) && link_error_is(e, k),
        },
{
    let ghost nm = names.names();
    let ghost dc = names.decls();
    let entries = names.into_entries();
    let n = entries.len();
    let mut is_var: Vec<bool> = Vec::new();
    let mut is_arr: Vec<bool> = Vec::new();
    let mut memo: Vec<Option<NamedRef>> = Vec::new();
    let mut in_progress: Vec<bool> = Vec::new();
    let mut i: usize = 0;
    while i < n
        invariant
            n == entries@.len(),
            i <= n,
            dc == entries@.map_values(|e: NameEntry| e.declaration@),
            is_var@.len() == i,
            is_arr@.len() == i,
            memo@.len() == i,
            in_progress@.len() == i,
            forall|j: int| 0 <= j < i ==> #[trigger] is_var@[j] == (dc[j] is Variable),
            forall|j: int| 0 <= j < i ==> #[trigger] is_arr@[j] == (dc[j] is Array),
            forall|j: int| 0 <= j < i ==> #[trigger] memo@[j] is None,
            forall|j: int| 0 <= j < i ==> !#[trigger] in_progress@[j],
        decreases n - i,
    {
        let (v, a) = match &entries[i].declaration {
            im::Declaration::Variable(_) => (true, false),
            im::Declaration::Array(_) => (false, true),
            im::Declaration::Uninit => (false, false),
        };
        is_var.push(v);
        is_arr.push(a);
        memo.push(None);
        in_progress.push(false);
        i = i + 1;
    }
    let ghost av = views(atoms@);
    let mut lk = Linker { atoms, entries, memo, in_progress, self_ref: false };
    let ghost total = n as nat;
    proof {
        assert(lk.state().entries =~= link_start(nm, dc, av).entries);
        assert(lk.state().memo =~= link_start(nm, dc, av).memo);
        assert(lk.state().in_progress =~= link_start(nm, dc, av).in_progress);
    }
    let variables = match lk.link_variables_x(&is_var, Ghost(dc), Ghost(total)) {
        Ok(x) => x,
        Err(e) => return Err(e),
    };
    let arrays = match lk.link_arrays_x(&is_arr, Ghost(dc), Ghost(total)) {
        Ok(x) => x,
        Err(e) => return Err(e),
    };
    let cs = match lk.link_constraints_x(constraints, Ghost(total)) {
        Ok(x) => x,
        Err(e) => return Err(e),
    };
    let out = match lk.link_output_x(output, Ghost(total)) {
        Ok(x) => x,
        Err(e) => return Err(e),
    };
    let solve = match lk.link_solve_x(solve, Ghost(total)) {
        Ok(x) => x,
        Err(e) => return Err(e),
    };
    Ok(
        FlatZinc {
            variables,
            arrays,
            constraints: cs,
            output: out,
            solve,
            version,
        },
    )
}

} // verus!
