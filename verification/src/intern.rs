//! Identifiers of a model read from `.fzn` text, for a caller's interner.
//!
//! The interner is called on the identifiers of constraint predicates and of
//! annotations (atoms and call names), never on the names of variables and
//! arrays. The library lists them in order; the caller interns each and hands
//! the results back, and the library puts them in place or reports the first
//! identifier the interner refused.
use vstd::prelude::*;

use crate::fzn::annotations::{lemma_ann_arg_view, lemma_ann_views};
use crate::fzn::{finish_spec, finish_spec_with, SpecReader};
use crate::intermediate::{
    float_pairs_view, lemma_views_push, views, Annotation, AnnotationCall, AnnotationLiteral,
    Argument, Array, Constraint, Declaration, Literal, Method, SolveObjective, SpecAnnotation,
    SpecAnnotationCall, SpecAnnotationLiteral, SpecArgument, SpecArray, SpecConstraint,
    SpecDeclaration, SpecSolve, SpecVariable, VarType, Variable,
};
use crate::names::NameStore;

verus! {

// ----- the identifiers, in order -----

pub open spec fn ann_ids(a: SpecAnnotation) -> Seq<Seq<char>>
    decreases a,
{
    match a {
        SpecAnnotation::Atom(s) => seq![s],
        SpecAnnotation::Call(c) => call_ids(c),
    }
}

pub open spec fn call_ids(c: SpecAnnotationCall) -> Seq<Seq<char>>
    decreases c,
{
    seq![c.id] + args_ids(c.args)
}

pub open spec fn args_ids(v: Seq<SpecArgument<SpecAnnotationLiteral>>) -> Seq<Seq<char>>
    decreases v,
{
    if v.len() == 0 {
        Seq::empty()
    } else {
        args_ids(v.drop_last()) + arg_ids(v[v.len() - 1])
    }
}

pub open spec fn arg_ids(a: SpecArgument<SpecAnnotationLiteral>) -> Seq<Seq<char>>
    decreases a,
{
    match a {
        SpecArgument::Array(v) => lits_ids(v),
        SpecArgument::Literal(l) => lit_ids(l),
    }
}

pub open spec fn lits_ids(v: Seq<SpecAnnotationLiteral>) -> Seq<Seq<char>>
    decreases v,
{
    if v.len() == 0 {
        Seq::empty()
    } else {
        lits_ids(v.drop_last()) + lit_ids(v[v.len() - 1])
    }
}

pub open spec fn lit_ids(l: SpecAnnotationLiteral) -> Seq<Seq<char>>
    decreases l,
{
    match l {
        SpecAnnotationLiteral::Literal(_) => Seq::empty(),
        SpecAnnotationLiteral::Annotation(c) => call_ids(c),
    }
}

/// The identifiers of a list of annotations, in order.
pub open spec fn anns_ids(v: Seq<SpecAnnotation>) -> Seq<Seq<char>>
    decreases v.len(),
{
    if v.len() == 0 {
        Seq::empty()
    } else {
        anns_ids(v.drop_last()) + ann_ids(v[v.len() - 1])
    }
}

// ----- putting interned identifiers in place -----

pub open spec fn ann_rn(a: SpecAnnotation, ids: Seq<Seq<char>>) -> SpecAnnotation
    decreases a,
{
    match a {
        SpecAnnotation::Atom(_) => SpecAnnotation::Atom(ids[0]),
        SpecAnnotation::Call(c) => SpecAnnotation::Call(call_rn(c, ids)),
    }
}

pub open spec fn call_rn(c: SpecAnnotationCall, ids: Seq<Seq<char>>) -> SpecAnnotationCall
    decreases c,
{
    SpecAnnotationCall { id: ids[0], args: args_rn(c.args, ids.drop_first()) }
}

pub open spec fn args_rn(v: Seq<SpecArgument<SpecAnnotationLiteral>>, ids: Seq<Seq<char>>) -> Seq<
    SpecArgument<SpecAnnotationLiteral>,
>
    decreases v,
{
    if v.len() == 0 {
        Seq::empty()
    } else {
        let n = args_ids(v.drop_last()).len() as int;
        args_rn(v.drop_last(), ids.subrange(0, n)).push(
            arg_rn(v[v.len() - 1], ids.subrange(n, ids.len() as int)),
        )
    }
}

pub open spec fn arg_rn(a: SpecArgument<SpecAnnotationLiteral>, ids: Seq<Seq<char>>) -> SpecArgument<
    SpecAnnotationLiteral,
>
    decreases a,
{
    match a {
        SpecArgument::Array(v) => SpecArgument::Array(lits_rn(v, ids)),
        SpecArgument::Literal(l) => SpecArgument::Literal(lit_rn(l, ids)),
    }
}

pub open spec fn lits_rn(v: Seq<SpecAnnotationLiteral>, ids: Seq<Seq<char>>) -> Seq<
    SpecAnnotationLiteral,
>
    decreases v,
{
    if v.len() == 0 {
        Seq::empty()
    } else {
        let n = lits_ids(v.drop_last()).len() as int;
        lits_rn(v.drop_last(), ids.subrange(0, n)).push(
            lit_rn(v[v.len() - 1], ids.subrange(n, ids.len() as int)),
        )
    }
}

pub open spec fn lit_rn(l: SpecAnnotationLiteral, ids: Seq<Seq<char>>) -> SpecAnnotationLiteral
    decreases l,
{
    match l {
        SpecAnnotationLiteral::Literal(x) => SpecAnnotationLiteral::Literal(x),
        SpecAnnotationLiteral::Annotation(c) => SpecAnnotationLiteral::Annotation(call_rn(c, ids)),
    }
}

/// A list of annotations with the interned identifiers `ids` in place.
pub open spec fn anns_rn(v: Seq<SpecAnnotation>, ids: Seq<Seq<char>>) -> Seq<SpecAnnotation>
    decreases v.len(),
{
    if v.len() == 0 {
        Seq::empty()
    } else {
        let n = anns_ids(v.drop_last()).len() as int;
        anns_rn(v.drop_last(), ids.subrange(0, n)).push(
            ann_rn(v[v.len() - 1], ids.subrange(n, ids.len() as int)),
        )
    }
}


// ----- collecting identifiers -----

fn push_id(out: &mut Vec<String>, s: &String)
    ensures
        views(final(out)@) == views(old(out)@) + seq![s@],
{
    let ghost before = out@;
    let t = s.clone();
    out.push(t);
    proof {
        lemma_views_push(before, t);
        assert(views(before).push(s@) =~= views(before) + seq![s@]);
    }
}

fn ann_ids_x(a: &Annotation, out: &mut Vec<String>)
    ensures
        views(final(out)@) == views(old(out)@) + ann_ids(a@),
    decreases a, 0nat,
{
    match a {
        Annotation::Atom(s) => push_id(out, s),
        Annotation::Call(c) => call_ids_x(c, out),
    }
}

fn call_ids_x(c: &AnnotationCall, out: &mut Vec<String>)
    ensures
        views(final(out)@) == views(old(out)@) + call_ids(c@),
    decreases c, 1nat,
{
    proof {
        lemma_ann_views(*c);
    }
    let ghost start = views(out@);
    let ghost av = c@.args;
    push_id(out, &c.id);
    let ghost mid = views(out@);
    let mut k: usize = 0;
    proof {
        assert(av.take(0) =~= Seq::<SpecArgument<SpecAnnotationLiteral>>::empty());
        assert(mid + Seq::<Seq<char>>::empty() =~= mid);
    }
    while k < c.args.len()
        invariant
            k <= c.args@.len(),
            av == views(c.args@),
            views(out@) == mid + args_ids(av.take(k as int)),
        decreases c.args@.len() - k,
    {
        proof {
            assert(av.take(k + 1).drop_last() =~= av.take(k as int));
            assert(av[k as int] == c.args@[k as int]@);
            lemma_ann_arg_view(c.args@[k as int]);
        }
        ann_arg_ids_x(&c.args[k], out);
        proof {
            assert(views(out@) =~= mid + args_ids(av.take(k + 1)));
        }
        k = k + 1;
    }
    proof {
        assert(av.take(av.len() as int) =~= av);
        assert(views(out@) =~= start + call_ids(c@));
    }
}

fn ann_arg_ids_x(a: &Argument<AnnotationLiteral>, out: &mut Vec<String>)
    ensures
        views(final(out)@) == views(old(out)@) + arg_ids(a@),
    decreases a, 1nat,
{
    match a {
        Argument::Array(v) => {
            let ghost lv = views(v@);
            let ghost mid = views(out@);
            let mut k: usize = 0;
            proof {
                assert(lv.take(0) =~= Seq::<SpecAnnotationLiteral>::empty());
                assert(mid + Seq::<Seq<char>>::empty() =~= mid);
            }
            while k < v.len()
                invariant
                    k <= v@.len(),
                    lv == views(v@),
                    views(out@) == mid + lits_ids(lv.take(k as int)),
                    *a == Argument::<AnnotationLiteral>::Array(*v),
                decreases v@.len() - k,
            {
                proof {
                    assert(lv.take(k + 1).drop_last() =~= lv.take(k as int));
                    assert(lv[k as int] == v@[k as int]@);
                    assert(decreases_to!(*a => a->Array_0));
                    assert(decreases_to!(a->Array_0 => a->Array_0@));
                    assert(decreases_to!(a->Array_0@ => a->Array_0@[k as int]));
                }
                ann_lit_ids_x(&v[k], out);
                proof {
                    assert(views(out@) =~= mid + lits_ids(lv.take(k + 1)));
                }
                k = k + 1;
            }
            proof {
                assert(lv.take(lv.len() as int) =~= lv);
            }
        },
        Argument::Literal(l) => ann_lit_ids_x(l, out),
    }
}

fn ann_lit_ids_x(l: &AnnotationLiteral, out: &mut Vec<String>)
    ensures
        views(final(out)@) == views(old(out)@) + lit_ids(l@),
    decreases l, 0nat,
{
    match l {
        AnnotationLiteral::Literal(_) => {
            proof {
                assert(views(out@) + Seq::<Seq<char>>::empty() =~= views(out@));
            }
        },
        AnnotationLiteral::Annotation(c) => call_ids_x(c, out),
    }
}

/// Add the identifiers of a list of annotations.
fn anns_ids_x(v: &Vec<Annotation>, out: &mut Vec<String>)
    ensures
        views(final(out)@) == views(old(out)@) + anns_ids(views(v@)),
{
    let ghost av = views(v@);
    let ghost mid = views(out@);
    let mut k: usize = 0;
    proof {
        assert(av.take(0) =~= Seq::<SpecAnnotation>::empty());
        assert(mid + Seq::<Seq<char>>::empty() =~= mid);
    }
    while k < v.len()
        invariant
            k <= v@.len(),
            av == views(v@),
            views(out@) == mid + anns_ids(av.take(k as int)),
        decreases v@.len() - k,
    {
        proof {
            assert(av.take(k + 1).drop_last() =~= av.take(k as int));
            assert(av[k as int] == v@[k as int]@);
        }
        ann_ids_x(&v[k], out);
        proof {
            assert(views(out@) =~= mid + anns_ids(av.take(k + 1)));
        }
        k = k + 1;
    }
    proof {
        assert(av.take(av.len() as int) =~= av);
    }
}

// ----- putting identifiers in place -----

fn copy_lit(l: &Literal) -> (r: Literal)
    ensures
        r@ == l@,
{
    match l {
        Literal::Int(i) => Literal::Int(*i),
        Literal::Float(t) => Literal::Float(t.clone()),
        Literal::Reference(n) => Literal::Reference(*n),
        Literal::Bool(b) => Literal::Bool(*b),
        Literal::IntSet(v) => Literal::IntSet(copy_int_pairs(v)),
        Literal::FloatSet(v) => {
            let w = copy_text_pairs(v);
            Literal::FloatSet(w)
        },
        Literal::Str(t) => Literal::Str(t.clone()),
    }
}

pub(crate) fn copy_int_pairs(v: &Vec<(i64, i64)>) -> (r: Vec<(i64, i64)>)
    ensures
        r@ == v@,
{
    let mut r: Vec<(i64, i64)> = Vec::new();
    let mut i: usize = 0;
    while i < v.len()
        invariant
            i <= v@.len(),
            r@ == v@.take(i as int),
        decreases v@.len() - i,
    {
        let p = v[i];
        r.push(p);
        proof {
            assert(v@.take(i + 1) =~= v@.take(i as int).push(v@[i as int]));
        }
        i = i + 1;
    }
    proof {
        assert(v@.take(v@.len() as int) =~= v@);
    }
    r
}

pub(crate) fn copy_text_pairs(v: &Vec<(String, String)>) -> (r: Vec<(String, String)>)
    ensures
        r@ == v@,
        float_pairs_view(r@) == float_pairs_view(v@),
{
    let mut r: Vec<(String, String)> = Vec::new();
    let mut i: usize = 0;
    while i < v.len()
        invariant
            i <= v@.len(),
            r@ == v@.take(i as int),
        decreases v@.len() - i,
    {
        let a = v[i].0.clone();
        let b = v[i].1.clone();
        r.push((a, b));
        proof {
            assert(v@.take(i + 1) =~= v@.take(i as int).push(v@[i as int]));
        }
        i = i + 1;
    }
    proof {
        assert(v@.take(v@.len() as int) =~= v@);
    }
    r
}

fn rn_ann_x(a: &Annotation, vals: &Vec<String>, pos: &mut usize) -> (r: Annotation)
    requires
        *old(pos) + ann_ids(a@).len() <= vals@.len(),
    ensures
        *final(pos) == *old(pos) + ann_ids(a@).len(),
        r@ == ann_rn(a@, views(vals@).subrange(*old(pos) as int, *final(pos) as int)),
    decreases a, 0nat,
{
    match a {
        Annotation::Atom(_) => {
            let _n = vals.len();
            let t = vals[*pos].clone();
            proof {
                assert(views(vals@)[*pos as int] == vals@[*pos as int]@);
            }
            *pos = *pos + 1;
            Annotation::Atom(t)
        },
        Annotation::Call(c) => Annotation::Call(rn_call_x(c, vals, pos)),
    }
}

fn rn_call_x(c: &AnnotationCall, vals: &Vec<String>, pos: &mut usize) -> (r: AnnotationCall)
    requires
        *old(pos) + call_ids(c@).len() <= vals@.len(),
    ensures
        *final(pos) == *old(pos) + call_ids(c@).len(),
        r@ == call_rn(c@, views(vals@).subrange(*old(pos) as int, *final(pos) as int)),
    decreases c, 1nat,
{
    proof {
        lemma_ann_views(*c);
    }
    let ghost vv = views(vals@);
    let ghost av = c@.args;
    let ghost p0 = *pos;
    let _n = vals.len();
    let id = vals[*pos].clone();
    proof {
        assert(vv[p0 as int] == vals@[p0 as int]@);
    }
    *pos = *pos + 1;
    let ghost p1 = *pos;
    let mut args: Vec<Argument<AnnotationLiteral>> = Vec::new();
    let mut k: usize = 0;
    proof {
        assert(av.take(0) =~= Seq::<SpecArgument<SpecAnnotationLiteral>>::empty());
        assert(views(args@) =~= args_rn(av.take(0), vv.subrange(p1 as int, p1 as int)));
    }
    while k < c.args.len()
        invariant
            k <= c.args@.len(),
            av == views(c.args@),
            vv == views(vals@),
            p1 == p0 + 1,
            p0 + call_ids(c@).len() <= vals@.len(),
            call_ids(c@) == seq![c@.id] + args_ids(av),
            *pos == p1 + args_ids(av.take(k as int)).len(),
            views(args@) == args_rn(av.take(k as int), vv.subrange(p1 as int, *pos as int)),
        decreases c.args@.len() - k,
    {
        let ghost pk = *pos;
        proof {
            assert(av.take(k + 1).drop_last() =~= av.take(k as int));
            assert(av[k as int] == c.args@[k as int]@);
            lemma_ann_arg_view(c.args@[k as int]);
            lemma_args_ids_prefix(av, k as int + 1);
        }
        let x = rn_ann_arg_x(&c.args[k], vals, pos);
        proof {
            let ids = vv.subrange(p1 as int, *pos as int);
            let n = args_ids(av.take(k as int)).len() as int;
            assert(ids.subrange(0, n) =~= vv.subrange(p1 as int, pk as int));
            assert(ids.subrange(n, ids.len() as int) =~= vv.subrange(pk as int, *pos as int));
            lemma_views_push(args@, x);
        }
        args.push(x);
        k = k + 1;
    }
    let r = AnnotationCall { id, args };
    proof {
        assert(av.take(av.len() as int) =~= av);
        lemma_ann_views(r);
        let ids = vv.subrange(p0 as int, *pos as int);
        assert(ids.drop_first() =~= vv.subrange(p1 as int, *pos as int));
        assert(ids[0] == vv[p0 as int]);
    }
    r
}

proof fn lemma_args_ids_prefix(av: Seq<SpecArgument<SpecAnnotationLiteral>>, k: int)
    requires
        0 <= k <= av.len(),
    ensures
        args_ids(av.take(k)).len() <= args_ids(av).len(),
    decreases av.len() - k,
{
    if k < av.len() {
        lemma_args_ids_prefix(av, k + 1);
        assert(av.take(k + 1).drop_last() =~= av.take(k));
    } else {
        assert(av.take(k) =~= av);
    }
}

proof fn lemma_lits_ids_prefix(lv: Seq<SpecAnnotationLiteral>, k: int)
    requires
        0 <= k <= lv.len(),
    ensures
        lits_ids(lv.take(k)).len() <= lits_ids(lv).len(),
    decreases lv.len() - k,
{
    if k < lv.len() {
        lemma_lits_ids_prefix(lv, k + 1);
        assert(lv.take(k + 1).drop_last() =~= lv.take(k));
    } else {
        assert(lv.take(k) =~= lv);
    }
}

proof fn lemma_anns_ids_prefix(av: Seq<SpecAnnotation>, k: int)
    requires
        0 <= k <= av.len(),
    ensures
        anns_ids(av.take(k)).len() <= anns_ids(av).len(),
    decreases av.len() - k,
{
    if k < av.len() {
        lemma_anns_ids_prefix(av, k + 1);
        assert(av.take(k + 1).drop_last() =~= av.take(k));
    } else {
        assert(av.take(k) =~= av);
    }
}

fn rn_ann_arg_x(a: &Argument<AnnotationLiteral>, vals: &Vec<String>, pos: &mut usize) -> (r: Argument<AnnotationLiteral>)
    requires
        *old(pos) + arg_ids(a@).len() <= vals@.len(),
    ensures
        *final(pos) == *old(pos) + arg_ids(a@).len(),
        r@ == arg_rn(a@, views(vals@).subrange(*old(pos) as int, *final(pos) as int)),
    decreases a, 1nat,
{
    match a {
        Argument::Array(v) => {
            let ghost vv = views(vals@);
            let ghost lv = views(v@);
            let ghost p0 = *pos;
            let mut w: Vec<AnnotationLiteral> = Vec::new();
            let mut k: usize = 0;
            proof {
                assert(lv.take(0) =~= Seq::<SpecAnnotationLiteral>::empty());
                assert(views(w@) =~= lits_rn(lv.take(0), vv.subrange(p0 as int, p0 as int)));
            }
            while k < v.len()
                invariant
                    k <= v@.len(),
                    lv == views(v@),
                    vv == views(vals@),
                    p0 + lits_ids(lv).len() <= vals@.len(),
                    *pos == p0 + lits_ids(lv.take(k as int)).len(),
                    views(w@) == lits_rn(lv.take(k as int), vv.subrange(p0 as int, *pos as int)),
                    *a == Argument::<AnnotationLiteral>::Array(*v),
                decreases v@.len() - k,
            {
                let ghost pk = *pos;
                proof {
                    assert(lv.take(k + 1).drop_last() =~= lv.take(k as int));
                    assert(lv[k as int] == v@[k as int]@);
                    lemma_lits_ids_prefix(lv, k as int + 1);
                    assert(decreases_to!(*a => a->Array_0));
                    assert(decreases_to!(a->Array_0 => a->Array_0@));
                    assert(decreases_to!(a->Array_0@ => a->Array_0@[k as int]));
                }
                let x = rn_ann_lit_x(&v[k], vals, pos);
                proof {
                    let ids = vv.subrange(p0 as int, *pos as int);
                    let n = lits_ids(lv.take(k as int)).len() as int;
                    assert(ids.subrange(0, n) =~= vv.subrange(p0 as int, pk as int));
                    assert(ids.subrange(n, ids.len() as int) =~= vv.subrange(pk as int, *pos as int));
                    lemma_views_push(w@, x);
                }
                w.push(x);
                k = k + 1;
            }
            proof {
                assert(lv.take(lv.len() as int) =~= lv);
            }
            Argument::Array(w)
        },
        Argument::Literal(l) => Argument::Literal(rn_ann_lit_x(l, vals, pos)),
    }
}

fn rn_ann_lit_x(l: &AnnotationLiteral, vals: &Vec<String>, pos: &mut usize) -> (r: AnnotationLiteral)
    requires
        *old(pos) + lit_ids(l@).len() <= vals@.len(),
    ensures
        *final(pos) == *old(pos) + lit_ids(l@).len(),
        r@ == lit_rn(l@, views(vals@).subrange(*old(pos) as int, *final(pos) as int)),
    decreases l, 0nat,
{
    match l {
        AnnotationLiteral::Literal(x) => AnnotationLiteral::Literal(copy_lit(x)),
        AnnotationLiteral::Annotation(c) => AnnotationLiteral::Annotation(rn_call_x(c, vals, pos)),
    }
}

/// A list of annotations with identifiers put in place.
fn rn_anns_x(v: &Vec<Annotation>, vals: &Vec<String>, pos: &mut usize) -> (r: Vec<Annotation>)
    requires
        *old(pos) + anns_ids(views(v@)).len() <= vals@.len(),
    ensures
        *final(pos) == *old(pos) + anns_ids(views(v@)).len(),
        views(r@) == anns_rn(views(v@), views(vals@).subrange(*old(pos) as int, *final(pos) as int)),
{
    let ghost vv = views(vals@);
    let ghost av = views(v@);
    let ghost p0 = *pos;
    let mut w: Vec<Annotation> = Vec::new();
    let mut k: usize = 0;
    proof {
        assert(av.take(0) =~= Seq::<SpecAnnotation>::empty());
        assert(views(w@) =~= anns_rn(av.take(0), vv.subrange(p0 as int, p0 as int)));
    }
    while k < v.len()
        invariant
            k <= v@.len(),
            av == views(v@),
            vv == views(vals@),
            p0 + anns_ids(av).len() <= vals@.len(),
            *pos == p0 + anns_ids(av.take(k as int)).len(),
            views(w@) == anns_rn(av.take(k as int), vv.subrange(p0 as int, *pos as int)),
        decreases v@.len() - k,
    {
        let ghost pk = *pos;
        proof {
            assert(av.take(k + 1).drop_last() =~= av.take(k as int));
            assert(av[k as int] == v@[k as int]@);
            lemma_anns_ids_prefix(av, k as int + 1);
        }
        let x = rn_ann_x(&v[k], vals, pos);
        proof {
            let ids = vv.subrange(p0 as int, *pos as int);
            let n = anns_ids(av.take(k as int)).len() as int;
            assert(ids.subrange(0, n) =~= vv.subrange(p0 as int, pk as int));
            assert(ids.subrange(n, ids.len() as int) =~= vv.subrange(pk as int, *pos as int));
            lemma_views_push(w@, x);
        }
        w.push(x);
        k = k + 1;
    }
    proof {
        assert(av.take(av.len() as int) =~= av);
    }
    w
}


// ----- the identifiers of a whole model -----

pub open spec fn decl_ids(d: SpecDeclaration) -> Seq<Seq<char>> {
    match d {
        SpecDeclaration::Uninit => Seq::empty(),
        SpecDeclaration::Variable(v) => anns_ids(v.ann),
        SpecDeclaration::Array(a) => anns_ids(a.ann),
    }
}

pub open spec fn decls_ids(ds: Seq<SpecDeclaration>) -> Seq<Seq<char>>
    decreases ds.len(),
{
    if ds.len() == 0 {
        Seq::empty()
    } else {
        decls_ids(ds.drop_last()) + decl_ids(ds[ds.len() - 1])
    }
}

pub open spec fn cons_ids(c: SpecConstraint) -> Seq<Seq<char>> {
    seq![c.id] + anns_ids(c.ann)
}

pub open spec fn conss_ids(cs: Seq<SpecConstraint>) -> Seq<Seq<char>>
    decreases cs.len(),
{
    if cs.len() == 0 {
        Seq::empty()
    } else {
        conss_ids(cs.drop_last()) + cons_ids(cs[cs.len() - 1])
    }
}

pub open spec fn solve_ids(s: Option<SpecSolve>) -> Seq<Seq<char>> {
    match s {
        Some(x) => anns_ids(x.ann),
        None => Seq::empty(),
    }
}

/// The identifiers a model read so far hands to an interner, in order: those
/// of the annotations of each declaration, in the order of the name table;
/// then of each constraint, its predicate and its annotations; then those of
/// the annotations of the solve item; then, once each in table order, the
/// undeclared names, which an annotation can only use as atoms.
pub open spec fn model_ids(m: SpecReader) -> Seq<Seq<char>> {
    decls_ids(m.decls) + conss_ids(m.constraints) + solve_ids(m.solve) + uninit_names(m.names, m.decls)
}

/// The names of the slots declared as nothing, in table order.
pub open spec fn uninit_names(names: Seq<Seq<char>>, decls: Seq<SpecDeclaration>) -> Seq<Seq<char>>
    decreases decls.len(),
{
    if decls.len() == 0 {
        Seq::empty()
    } else {
        let rest = uninit_names(names, decls.drop_last());
        if decls[decls.len() - 1] is Uninit {
            rest.push(names[decls.len() - 1])
        } else {
            rest
        }
    }
}

/// The atom text of each slot: the next of `ids` for an undeclared name, the
/// name itself otherwise.
pub open spec fn atoms_rn(names: Seq<Seq<char>>, decls: Seq<SpecDeclaration>, ids: Seq<Seq<char>>) -> Seq<Seq<char>>
    decreases decls.len(),
{
    if decls.len() == 0 {
        Seq::empty()
    } else {
        let n = uninit_names(names, decls.drop_last()).len() as int;
        let rest = atoms_rn(names, decls.drop_last(), ids.subrange(0, n));
        if decls[decls.len() - 1] is Uninit {
            rest.push(ids[n])
        } else {
            rest.push(names[decls.len() - 1])
        }
    }
}

pub open spec fn decl_rn(d: SpecDeclaration, ids: Seq<Seq<char>>) -> SpecDeclaration {
    match d {
        SpecDeclaration::Uninit => SpecDeclaration::Uninit,
        SpecDeclaration::Variable(v) => SpecDeclaration::Variable(SpecVariable { ann: anns_rn(v.ann, ids), ..v }),
        SpecDeclaration::Array(a) => SpecDeclaration::Array(SpecArray { ann: anns_rn(a.ann, ids), ..a }),
    }
}

pub open spec fn decls_rn(ds: Seq<SpecDeclaration>, ids: Seq<Seq<char>>) -> Seq<SpecDeclaration>
    decreases ds.len(),
{
    if ds.len() == 0 {
        Seq::empty()
    } else {
        let n = decls_ids(ds.drop_last()).len() as int;
        decls_rn(ds.drop_last(), ids.subrange(0, n)).push(
            decl_rn(ds[ds.len() - 1], ids.subrange(n, ids.len() as int)),
        )
    }
}

pub open spec fn cons_rn(c: SpecConstraint, ids: Seq<Seq<char>>) -> SpecConstraint {
    SpecConstraint { id: ids[0], ann: anns_rn(c.ann, ids.drop_first()), ..c }
}

pub open spec fn conss_rn(cs: Seq<SpecConstraint>, ids: Seq<Seq<char>>) -> Seq<SpecConstraint>
    decreases cs.len(),
{
    if cs.len() == 0 {
        Seq::empty()
    } else {
        let n = conss_ids(cs.drop_last()).len() as int;
        conss_rn(cs.drop_last(), ids.subrange(0, n)).push(
            cons_rn(cs[cs.len() - 1], ids.subrange(n, ids.len() as int)),
        )
    }
}

pub open spec fn solve_rn(s: Option<SpecSolve>, ids: Seq<Seq<char>>) -> Option<SpecSolve> {
    match s {
        Some(x) => Some(SpecSolve { ann: anns_rn(x.ann, ids), ..x }),
        None => None,
    }
}

/// The model with the interned identifiers `ids` in place, in the order of
/// `model_ids`.
pub open spec fn model_rn(m: SpecReader, ids: Seq<Seq<char>>) -> SpecReader {
    let a = decls_ids(m.decls).len() as int;
    let b = a + conss_ids(m.constraints).len();
    let c = b + solve_ids(m.solve).len();
    SpecReader {
        decls: decls_rn(m.decls, ids.subrange(0, a)),
        constraints: conss_rn(m.constraints, ids.subrange(a, b)),
        solve: solve_rn(m.solve, ids.subrange(b, c)),
        ..m
    }
}

/// The atom text of each slot of a model, with the interned identifiers
/// `ids` in the order of `model_ids`.
pub open spec fn model_atoms(m: SpecReader, ids: Seq<Seq<char>>) -> Seq<Seq<char>> {
    let c = (decls_ids(m.decls).len() + conss_ids(m.constraints).len() + solve_ids(m.solve).len()) as int;
    atoms_rn(m.names, m.decls, ids.subrange(c, ids.len() as int))
}

/// The index of the first refused identifier, or -1.
pub open spec fn first_refused(ids: Seq<Result<String, String>>) -> int
    decreases ids.len(),
{
    if ids.len() == 0 {
        -1
    } else if ids[0] is Err {
        0
    } else {
        let r = first_refused(ids.drop_first());
        if r < 0 {
            -1
        } else {
            r + 1
        }
    }
}

/// The interned identifiers.
pub open spec fn accepted(ids: Seq<Result<String, String>>) -> Seq<Seq<char>> {
    Seq::new(
        ids.len(),
        |i: int|
            match ids[i] {
                Ok(s) => s@,
                Err(_) => Seq::empty(),
            },
    )
}

/// The first refused identifier is refused, and every one before it
/// accepted.
pub proof fn lemma_first_refused(ids: Seq<Result<String, String>>)
    ensures
        -1 <= first_refused(ids) < ids.len(),
        first_refused(ids) >= 0 ==> ids[first_refused(ids)] is Err,
        first_refused(ids) >= 0 ==> forall|i: int| 0 <= i < first_refused(ids) ==> ids[i] is Ok,
        first_refused(ids) < 0 ==> forall|i: int| 0 <= i < ids.len() ==> ids[i] is Ok,
    decreases ids.len(),
{
    if ids.len() > 0 && ids[0] is Ok {
        lemma_first_refused(ids.drop_first());
        assert forall|i: int| 1 <= i < ids.len() implies ids[i] == ids.drop_first()[i - 1] by {}
    }
}

/// The index of the first refused identifier.
pub(crate) fn find_refused(ids: &Vec<Result<String, String>>) -> (r: Option<usize>)
    ensures
        match r {
            Some(i) => i < ids@.len() && first_refused(ids@) == i,
            None => first_refused(ids@) < 0,
        },
{
    let mut i: usize = 0;
    while i < ids.len()
        invariant
            i <= ids@.len(),
            forall|j: int| 0 <= j < i ==> ids@[j] is Ok,
        decreases ids@.len() - i,
    {
        if ids[i].is_err() {
            proof {
                lemma_first_refused(ids@);
                let f = first_refused(ids@);
                if f < 0 {
                    assert(ids@[i as int] is Ok);
                } else if f < i {
                    assert(ids@[f] is Ok);
                } else if f > i {
                    assert(ids@[i as int] is Ok);
                }
            }
            return Some(i);
        }
        i = i + 1;
    }
    proof {
        lemma_first_refused(ids@);
        if first_refused(ids@) >= 0 {
            let f = first_refused(ids@);
            assert(ids@[f] is Ok);
        }
    }
    None
}

/// The interned identifiers, when none was refused.
pub(crate) fn accepted_values(ids: Vec<Result<String, String>>) -> (r: Vec<String>)
    requires
        first_refused(ids@) < 0,
    ensures
        views(r@) == accepted(ids@),
{
    proof {
        lemma_first_refused(ids@);
    }
    let mut r: Vec<String> = Vec::new();
    let mut i: usize = 0;
    while i < ids.len()
        invariant
            i <= ids@.len(),
            forall|j: int| 0 <= j < ids@.len() ==> ids@[j] is Ok,
            views(r@) == accepted(ids@).take(i as int),
        decreases ids@.len() - i,
    {
        match &ids[i] {
            Ok(s) => {
                let t = s.clone();
                proof {
                    lemma_views_push(r@, t);
                    assert(accepted(ids@).take(i + 1) =~= accepted(ids@).take(i as int).push(t@));
                }
                r.push(t);
            },
            Err(_) => {
                proof {
                    assert(ids@[i as int] is Ok);
                }
            },
        }
        i = i + 1;
    }
    proof {
        assert(accepted(ids@).take(ids@.len() as int) =~= accepted(ids@));
    }
    r
}

// ----- collecting and putting in place, for each part of a model -----

fn decl_ids_x(d: &Declaration, out: &mut Vec<String>)
    ensures
        views(final(out)@) == views(old(out)@) + decl_ids(d@),
{
    match d {
        Declaration::Uninit => {
            proof {
                assert(views(out@) + Seq::<Seq<char>>::empty() =~= views(out@));
            }
        },
        Declaration::Variable(v) => anns_ids_x(&v.ann, out),
        Declaration::Array(a) => anns_ids_x(&a.ann, out),
    }
}

fn cons_ids_x(c: &Constraint, out: &mut Vec<String>)
    ensures
        views(final(out)@) == views(old(out)@) + cons_ids(c@),
{
    let ghost start = views(out@);
    push_id(out, &c.id);
    anns_ids_x(&c.ann, out);
    proof {
        assert(views(out@) =~= start + cons_ids(c@));
    }
}

fn copy_lits(v: &Vec<Literal>) -> (r: Vec<Literal>)
    ensures
        views(r@) == views(v@),
{
    let mut r: Vec<Literal> = Vec::new();
    let mut i: usize = 0;
    while i < v.len()
        invariant
            i <= v@.len(),
            views(r@) == views(v@.take(i as int)),
        decreases v@.len() - i,
    {
        let x = copy_lit(&v[i]);
        proof {
            lemma_views_push(r@, x);
            assert(views(v@.take(i + 1)) =~= views(v@.take(i as int)).push(v@[i as int]@));
        }
        r.push(x);
        i = i + 1;
    }
    proof {
        assert(v@.take(v@.len() as int) =~= v@);
    }
    r
}

fn copy_var_type(t: &VarType) -> (r: VarType)
    ensures
        r@ == t@,
{
    match t {
        VarType::Bool => VarType::Bool,
        VarType::Int(Some(d)) => VarType::Int(Some(copy_int_pairs(d))),
        VarType::Int(None) => VarType::Int(None),
        VarType::Float(Some(d)) => VarType::Float(Some(copy_text_pairs(d))),
        VarType::Float(None) => VarType::Float(None),
        VarType::IntSet(Some(d)) => VarType::IntSet(Some(copy_int_pairs(d))),
        VarType::IntSet(None) => VarType::IntSet(None),
    }
}

fn copy_con_arg(a: &Argument<Literal>) -> (r: Argument<Literal>)
    ensures
        r@ == a@,
{
    match a {
        Argument::Array(v) => Argument::Array(copy_lits(v)),
        Argument::Literal(l) => Argument::Literal(copy_lit(l)),
    }
}

fn rn_decl_x(d: &Declaration, vals: &Vec<String>, pos: &mut usize) -> (r: Declaration)
    requires
        *old(pos) + decl_ids(d@).len() <= vals@.len(),
    ensures
        *final(pos) == *old(pos) + decl_ids(d@).len(),
        r@ == decl_rn(d@, views(vals@).subrange(*old(pos) as int, *final(pos) as int)),
{
    match d {
        Declaration::Uninit => Declaration::Uninit,
        Declaration::Variable(v) => {
            let ann = rn_anns_x(&v.ann, vals, pos);
            Declaration::Variable(
                Variable { ty: copy_var_type(&v.ty), ann, defined: v.defined, introduced: v.introduced },
            )
        },
        Declaration::Array(a) => {
            let ann = rn_anns_x(&a.ann, vals, pos);
            Declaration::Array(
                Array { contents: copy_lits(&a.contents), ann, defined: a.defined, introduced: a.introduced },
            )
        },
    }
}

fn rn_cons_x(c: &Constraint, vals: &Vec<String>, pos: &mut usize) -> (r: Constraint)
    requires
        *old(pos) + cons_ids(c@).len() <= vals@.len(),
    ensures
        *final(pos) == *old(pos) + cons_ids(c@).len(),
        r@ == cons_rn(c@, views(vals@).subrange(*old(pos) as int, *final(pos) as int)),
{
    let ghost p0 = *pos;
    let ghost vv = views(vals@);
    let _n = vals.len();
    let id = vals[*pos].clone();
    proof {
        assert(vv[p0 as int] == vals@[p0 as int]@);
    }
    *pos = *pos + 1;
    let ghost p1 = *pos;
    let mut args: Vec<Argument<Literal>> = Vec::new();
    let mut i: usize = 0;
    while i < c.args.len()
        invariant
            i <= c.args@.len(),
            views(args@) == views(c.args@.take(i as int)),
        decreases c.args@.len() - i,
    {
        let x = copy_con_arg(&c.args[i]);
        proof {
            lemma_views_push(args@, x);
            assert(views(c.args@.take(i + 1)) =~= views(c.args@.take(i as int)).push(c.args@[i as int]@));
        }
        args.push(x);
        i = i + 1;
    }
    proof {
        assert(c.args@.take(c.args@.len() as int) =~= c.args@);
    }
    let ann = rn_anns_x(&c.ann, vals, pos);
    let r = Constraint { id, args, defines: c.defines, ann };
    proof {
        let ids = vv.subrange(p0 as int, *pos as int);
        assert(ids[0] == vv[p0 as int]);
        assert(ids.drop_first() =~= vv.subrange(p1 as int, *pos as int));
    }
    r
}

fn rn_solve_x(s: &SolveObjective, vals: &Vec<String>, pos: &mut usize) -> (r: SolveObjective)
    requires
        *old(pos) + anns_ids(s@.ann).len() <= vals@.len(),
    ensures
        *final(pos) == *old(pos) + anns_ids(s@.ann).len(),
        r@.ann == anns_rn(s@.ann, views(vals@).subrange(*old(pos) as int, *final(pos) as int)),
        r@.method == s@.method,
{
    let method = match &s.method {
        Method::Satisfy => Method::Satisfy,
        Method::Minimize(l) => Method::Minimize(copy_lit(l)),
        Method::Maximize(l) => Method::Maximize(copy_lit(l)),
    };
    let ann = rn_anns_x(&s.ann, vals, pos);
    SolveObjective { method, ann }
}

proof fn lemma_decls_ids_prefix(ds: Seq<SpecDeclaration>, k: int)
    requires
        0 <= k <= ds.len(),
    ensures
        decls_ids(ds.take(k)).len() <= decls_ids(ds).len(),
    decreases ds.len() - k,
{
    if k < ds.len() {
        lemma_decls_ids_prefix(ds, k + 1);
        assert(ds.take(k + 1).drop_last() =~= ds.take(k));
    } else {
        assert(ds.take(k) =~= ds);
    }
}

proof fn lemma_conss_ids_prefix(cs: Seq<SpecConstraint>, k: int)
    requires
        0 <= k <= cs.len(),
    ensures
        conss_ids(cs.take(k)).len() <= conss_ids(cs).len(),
    decreases cs.len() - k,
{
    if k < cs.len() {
        lemma_conss_ids_prefix(cs, k + 1);
        assert(cs.take(k + 1).drop_last() =~= cs.take(k));
    } else {
        assert(cs.take(k) =~= cs);
    }
}

/// The identifiers of the declarations of a name table, in table order.
pub(crate) fn names_ids_x(names: &NameStore, out: &mut Vec<String>)
    requires
        names.wf(),
    ensures
        views(final(out)@) == views(old(out)@) + decls_ids(names.decls()),
{
    let ghost ds = names.decls();
    let ghost mid = views(out@);
    proof {
        names.lemma_lens();
        assert(ds.take(0) =~= Seq::<SpecDeclaration>::empty());
        assert(mid + Seq::<Seq<char>>::empty() =~= mid);
    }
    let n = names.len();
    let mut k: usize = 0;
    while k < n
        invariant
            k <= n,
            n == ds.len(),
            ds == names.decls(),
            names.wf(),
            n == names.names().len(),
            views(out@) == mid + decls_ids(ds.take(k as int)),
        decreases n - k,
    {
        proof {
            assert(ds.take(k + 1).drop_last() =~= ds.take(k as int));
        }
        decl_ids_x(names.declaration(k), out);
        proof {
            assert(views(out@) =~= mid + decls_ids(ds.take(k + 1)));
        }
        k = k + 1;
    }
    proof {
        assert(ds.take(n as int) =~= ds);
    }
}

/// The identifiers of constraints, in order.
pub(crate) fn constraints_ids_x(cs: &Vec<Constraint>, out: &mut Vec<String>)
    ensures
        views(final(out)@) == views(old(out)@) + conss_ids(views(cs@)),
{
    let ghost cv = views(cs@);
    let ghost mid = views(out@);
    proof {
        assert(cv.take(0) =~= Seq::<SpecConstraint>::empty());
        assert(mid + Seq::<Seq<char>>::empty() =~= mid);
    }
    let mut k: usize = 0;
    while k < cs.len()
        invariant
            k <= cs@.len(),
            cv == views(cs@),
            views(out@) == mid + conss_ids(cv.take(k as int)),
        decreases cs@.len() - k,
    {
        proof {
            assert(cv.take(k + 1).drop_last() =~= cv.take(k as int));
            assert(cv[k as int] == cs@[k as int]@);
        }
        cons_ids_x(&cs[k], out);
        proof {
            assert(views(out@) =~= mid + conss_ids(cv.take(k + 1)));
        }
        k = k + 1;
    }
    proof {
        assert(cv.take(cv.len() as int) =~= cv);
    }
}

/// The identifiers of an optional solve item.
pub(crate) fn solve_ids_x(s: &Option<SolveObjective>, out: &mut Vec<String>)
    ensures
        views(final(out)@) == views(old(out)@) + solve_ids(
            match s {
                Some(x) => Some(x@),
                None => None,
            },
        ),
{
    match s {
        Some(x) => anns_ids_x(&x.ann, out),
        None => {
            proof {
                assert(views(out@) + Seq::<Seq<char>>::empty() =~= views(out@));
            }
        },
    }
}

/// Put interned identifiers in place in the declarations of a name table.
pub(crate) fn rn_names_x(names: &mut NameStore, vals: &Vec<String>, pos: &mut usize)
    requires
        old(names).wf(),
        *old(pos) + decls_ids(old(names).decls()).len() <= vals@.len(),
    ensures
        final(names).wf(),
        final(names).names() == old(names).names(),
        *final(pos) == *old(pos) + decls_ids(old(names).decls()).len(),
        final(names).decls() == decls_rn(
            old(names).decls(),
            views(vals@).subrange(*old(pos) as int, *final(pos) as int),
        ),
{
    let ghost ds = names.decls();
    let ghost vv = views(vals@);
    let ghost p0 = *pos;
    proof {
        names.lemma_lens();
        assert(ds.take(0) =~= Seq::<SpecDeclaration>::empty());
    }
    let n = names.len();
    let mut k: usize = 0;
    while k < n
        invariant
            k <= n,
            n == ds.len(),
            names.wf(),
            n == names.names().len(),
            names.names() == old(names).names(),
            ds == old(names).decls(),
            vv == views(vals@),
            p0 == *old(pos),
            p0 + decls_ids(ds).len() <= vals@.len(),
            *pos == p0 + decls_ids(ds.take(k as int)).len(),
            names.decls().len() == n,
            names.decls().take(k as int) == decls_rn(ds.take(k as int), vv.subrange(p0 as int, *pos as int)),
            forall|i: int| k <= i < n ==> #[trigger] names.decls()[i] == ds[i],
        decreases n - k,
    {
        let ghost pk = *pos;
        let ghost before = names.decls();
        proof {
            assert(ds.take(k + 1).drop_last() =~= ds.take(k as int));
            lemma_decls_ids_prefix(ds, k as int + 1);
        }
        let d = rn_decl_x(names.declaration(k), vals, pos);
        names.set_declaration(k, d);
        proof {
            let ids = vv.subrange(p0 as int, *pos as int);
            let m = decls_ids(ds.take(k as int)).len() as int;
            assert(ids.subrange(0, m) =~= vv.subrange(p0 as int, pk as int));
            assert(ids.subrange(m, ids.len() as int) =~= vv.subrange(pk as int, *pos as int));
            assert(names.decls().take(k + 1) =~= before.take(k as int).push(d@));
        }
        k = k + 1;
    }
    proof {
        assert(ds.take(n as int) =~= ds);
        assert(names.decls().take(n as int) =~= names.decls());
    }
}

/// Put interned identifiers in place in constraints.
pub(crate) fn rn_constraints_x(cs: &Vec<Constraint>, vals: &Vec<String>, pos: &mut usize) -> (r: Vec<Constraint>)
    requires
        *old(pos) + conss_ids(views(cs@)).len() <= vals@.len(),
    ensures
        *final(pos) == *old(pos) + conss_ids(views(cs@)).len(),
        views(r@) == conss_rn(views(cs@), views(vals@).subrange(*old(pos) as int, *final(pos) as int)),
{
    let ghost vv = views(vals@);
    let ghost cv = views(cs@);
    let ghost p0 = *pos;
    let mut w: Vec<Constraint> = Vec::new();
    let mut k: usize = 0;
    proof {
        assert(cv.take(0) =~= Seq::<SpecConstraint>::empty());
        assert(views(w@) =~= conss_rn(cv.take(0), vv.subrange(p0 as int, p0 as int)));
    }
    while k < cs.len()
        invariant
            k <= cs@.len(),
            cv == views(cs@),
            vv == views(vals@),
            p0 + conss_ids(cv).len() <= vals@.len(),
            *pos == p0 + conss_ids(cv.take(k as int)).len(),
            views(w@) == conss_rn(cv.take(k as int), vv.subrange(p0 as int, *pos as int)),
        decreases cs@.len() - k,
    {
        let ghost pk = *pos;
        proof {
            assert(cv.take(k + 1).drop_last() =~= cv.take(k as int));
            assert(cv[k as int] == cs@[k as int]@);
            lemma_conss_ids_prefix(cv, k as int + 1);
        }
        let x = rn_cons_x(&cs[k], vals, pos);
        proof {
            let ids = vv.subrange(p0 as int, *pos as int);
            let m = conss_ids(cv.take(k as int)).len() as int;
            assert(ids.subrange(0, m) =~= vv.subrange(p0 as int, pk as int));
            assert(ids.subrange(m, ids.len() as int) =~= vv.subrange(pk as int, *pos as int));
            lemma_views_push(w@, x);
        }
        w.push(x);
        k = k + 1;
    }
    proof {
        assert(cv.take(cv.len() as int) =~= cv);
    }
    w
}

/// Put interned identifiers in place in an optional solve item.
pub(crate) fn rn_opt_solve_x(s: &Option<SolveObjective>, vals: &Vec<String>, pos: &mut usize) -> (r: Option<SolveObjective>)
    requires
        *old(pos) + solve_ids(
            match s {
                Some(x) => Some(x@),
                None => None,
            },
        ).len() <= vals@.len(),
    ensures
        *final(pos) == *old(pos) + solve_ids(
            match s {
                Some(x) => Some(x@),
                None => None,
            },
        ).len(),
        (match r {
            Some(x) => Some(x@),
            None => None,
        }) == solve_rn(
            match s {
                Some(x) => Some(x@),
                None => None,
            },
            views(vals@).subrange(*old(pos) as int, *final(pos) as int),
        ),
{
    match s {
        Some(x) => Some(rn_solve_x(x, vals, pos)),
        None => None,
    }
}


proof fn lemma_uninit_prefix(names: Seq<Seq<char>>, ds: Seq<SpecDeclaration>, k: int)
    requires
        0 <= k <= ds.len(),
    ensures
        uninit_names(names, ds.take(k)).len() <= uninit_names(names, ds).len(),
    decreases ds.len() - k,
{
    if k < ds.len() {
        lemma_uninit_prefix(names, ds, k + 1);
        assert(ds.take(k + 1).drop_last() =~= ds.take(k));
    } else {
        assert(ds.take(k) =~= ds);
    }
}

/// Add the undeclared names of a name table, in table order.
pub(crate) fn uninit_ids_x(names: &NameStore, out: &mut Vec<String>)
    requires
        names.wf(),
    ensures
        views(final(out)@) == views(old(out)@) + uninit_names(names.names(), names.decls()),
{
    let ghost ds = names.decls();
    let ghost nm = names.names();
    let ghost mid = views(out@);
    proof {
        names.lemma_lens();
        assert(ds.take(0) =~= Seq::<SpecDeclaration>::empty());
        assert(mid + Seq::<Seq<char>>::empty() =~= mid);
    }
    let n = names.len();
    let mut k: usize = 0;
    while k < n
        invariant
            k <= n,
            n == ds.len(),
            ds == names.decls(),
            nm == names.names(),
            names.wf(),
            n == nm.len(),
            views(out@) == mid + uninit_names(nm, ds.take(k as int)),
        decreases n - k,
    {
        proof {
            assert(ds.take(k + 1).drop_last() =~= ds.take(k as int));
            assert(ds.take(k + 1)[k as int] == ds[k as int]);
        }
        match names.declaration(k) {
            Declaration::Uninit => {
                let t = names.name_of(k);
                let ghost before = out@;
                out.push(t);
                proof {
                    lemma_views_push(before, t);
                    assert(views(out@) =~= mid + uninit_names(nm, ds.take(k + 1)));
                }
            },
            _ => {
                proof {
                    assert(views(out@) =~= mid + uninit_names(nm, ds.take(k + 1)));
                }
            },
        }
        k = k + 1;
    }
    proof {
        assert(ds.take(n as int) =~= ds);
    }
}

/// The atom text of each slot of a name table, taking the interned
/// identifiers for the undeclared names from `vals` at `pos`.
pub(crate) fn atoms_x(names: &NameStore, vals: &Vec<String>, pos: &mut usize) -> (r: Vec<String>)
    requires
        names.wf(),
        *old(pos) + uninit_names(names.names(), names.decls()).len() <= vals@.len(),
    ensures
        *final(pos) == *old(pos) + uninit_names(names.names(), names.decls()).len(),
        views(r@) == atoms_rn(
            names.names(),
            names.decls(),
            views(vals@).subrange(*old(pos) as int, *final(pos) as int),
        ),
        r@.len() == names.names().len(),
{
    let ghost ds = names.decls();
    let ghost nm = names.names();
    let ghost vv = views(vals@);
    let ghost p0 = *pos;
    let mut r: Vec<String> = Vec::new();
    proof {
        names.lemma_lens();
        assert(ds.take(0) =~= Seq::<SpecDeclaration>::empty());
        assert(views(r@) =~= atoms_rn(nm, ds.take(0), vv.subrange(p0 as int, p0 as int)));
    }
    let n = names.len();
    let mut k: usize = 0;
    while k < n
        invariant
            k <= n,
            n == ds.len(),
            ds == names.decls(),
            nm == names.names(),
            names.wf(),
            n == nm.len(),
            vv == views(vals@),
            p0 + uninit_names(nm, ds).len() <= vals@.len(),
            *pos == p0 + uninit_names(nm, ds.take(k as int)).len(),
            views(r@) == atoms_rn(nm, ds.take(k as int), vv.subrange(p0 as int, *pos as int)),
            r@.len() == k,
        decreases n - k,
    {
        let ghost pk = *pos;
        proof {
            assert(ds.take(k + 1).drop_last() =~= ds.take(k as int));
            assert(ds.take(k + 1)[k as int] == ds[k as int]);
            lemma_uninit_prefix(nm, ds, k as int + 1);
        }
        let t = match names.declaration(k) {
            Declaration::Uninit => {
                let _n = vals.len();
                let t = vals[*pos].clone();
                proof {
                    assert(vv[pk as int] == vals@[pk as int]@);
                }
                *pos = *pos + 1;
                t
            },
            _ => names.name_of(k),
        };
        proof {
            let ids = vv.subrange(p0 as int, *pos as int);
            let m = uninit_names(nm, ds.take(k as int)).len() as int;
            assert(ids.subrange(0, m) =~= vv.subrange(p0 as int, pk as int));
            if ds[k as int] is Uninit {
                assert(ids[m] == vv[pk as int]);
            }
            lemma_views_push(r@, t);
        }
        r.push(t);
        k = k + 1;
    }
    proof {
        assert(ds.take(n as int) =~= ds);
    }
    r
}


// ----- interning each identifier as itself -----

proof fn lemma_ann_rn_own(a: SpecAnnotation)
    ensures
        ann_rn(a, ann_ids(a)) == a,
    decreases a,
{
    match a {
        SpecAnnotation::Atom(_) => {},
        SpecAnnotation::Call(c) => lemma_call_rn_own(c),
    }
}

proof fn lemma_call_rn_own(c: SpecAnnotationCall)
    ensures
        call_rn(c, call_ids(c)) == c,
    decreases c,
{
    assert(call_ids(c).drop_first() =~= args_ids(c.args));
    lemma_args_rn_own(c.args);
}

proof fn lemma_args_rn_own(v: Seq<SpecArgument<SpecAnnotationLiteral>>)
    ensures
        args_rn(v, args_ids(v)) == v,
    decreases v,
{
    if v.len() > 0 {
        let ids = args_ids(v);
        let n = args_ids(v.drop_last()).len() as int;
        assert(ids.subrange(0, n) =~= args_ids(v.drop_last()));
        assert(ids.subrange(n, ids.len() as int) =~= arg_ids(v[v.len() - 1]));
        lemma_args_rn_own(v.drop_last());
        lemma_arg_rn_own(v[v.len() - 1]);
        assert(args_rn(v, ids) =~= v);
    }
}

proof fn lemma_arg_rn_own(a: SpecArgument<SpecAnnotationLiteral>)
    ensures
        arg_rn(a, arg_ids(a)) == a,
    decreases a,
{
    match a {
        SpecArgument::Array(v) => lemma_lits_rn_own(v),
        SpecArgument::Literal(l) => lemma_lit_rn_own(l),
    }
}

proof fn lemma_lits_rn_own(v: Seq<SpecAnnotationLiteral>)
    ensures
        lits_rn(v, lits_ids(v)) == v,
    decreases v,
{
    if v.len() > 0 {
        let ids = lits_ids(v);
        let n = lits_ids(v.drop_last()).len() as int;
        assert(ids.subrange(0, n) =~= lits_ids(v.drop_last()));
        assert(ids.subrange(n, ids.len() as int) =~= lit_ids(v[v.len() - 1]));
        lemma_lits_rn_own(v.drop_last());
        lemma_lit_rn_own(v[v.len() - 1]);
        assert(lits_rn(v, ids) =~= v);
    }
}

proof fn lemma_lit_rn_own(l: SpecAnnotationLiteral)
    ensures
        lit_rn(l, lit_ids(l)) == l,
    decreases l,
{
    match l {
        SpecAnnotationLiteral::Literal(_) => {},
        SpecAnnotationLiteral::Annotation(c) => lemma_call_rn_own(c),
    }
}

proof fn lemma_anns_rn_own(v: Seq<SpecAnnotation>)
    ensures
        anns_rn(v, anns_ids(v)) == v,
    decreases v.len(),
{
    if v.len() > 0 {
        let ids = anns_ids(v);
        let n = anns_ids(v.drop_last()).len() as int;
        assert(ids.subrange(0, n) =~= anns_ids(v.drop_last()));
        assert(ids.subrange(n, ids.len() as int) =~= ann_ids(v[v.len() - 1]));
        lemma_anns_rn_own(v.drop_last());
        lemma_ann_rn_own(v[v.len() - 1]);
        assert(anns_rn(v, ids) =~= v);
    }
}

proof fn lemma_decls_rn_own(ds: Seq<SpecDeclaration>)
    ensures
        decls_rn(ds, decls_ids(ds)) == ds,
    decreases ds.len(),
{
    if ds.len() > 0 {
        let ids = decls_ids(ds);
        let n = decls_ids(ds.drop_last()).len() as int;
        let d = ds[ds.len() - 1];
        assert(ids.subrange(0, n) =~= decls_ids(ds.drop_last()));
        assert(ids.subrange(n, ids.len() as int) =~= decl_ids(d));
        lemma_decls_rn_own(ds.drop_last());
        match d {
            SpecDeclaration::Uninit => {},
            SpecDeclaration::Variable(v) => lemma_anns_rn_own(v.ann),
            SpecDeclaration::Array(a) => lemma_anns_rn_own(a.ann),
        }
        assert(decls_rn(ds, ids) =~= ds);
    }
}

proof fn lemma_conss_rn_own(cs: Seq<SpecConstraint>)
    ensures
        conss_rn(cs, conss_ids(cs)) == cs,
    decreases cs.len(),
{
    if cs.len() > 0 {
        let ids = conss_ids(cs);
        let n = conss_ids(cs.drop_last()).len() as int;
        let c = cs[cs.len() - 1];
        assert(ids.subrange(0, n) =~= conss_ids(cs.drop_last()));
        assert(ids.subrange(n, ids.len() as int) =~= cons_ids(c));
        assert(cons_ids(c).drop_first() =~= anns_ids(c.ann));
        lemma_conss_rn_own(cs.drop_last());
        lemma_anns_rn_own(c.ann);
        assert(conss_rn(cs, ids) =~= cs);
    }
}

proof fn lemma_atoms_rn_own(names: Seq<Seq<char>>, decls: Seq<SpecDeclaration>)
    requires
        decls.len() <= names.len(),
    ensures
        atoms_rn(names, decls, uninit_names(names, decls)) == names.take(decls.len() as int),
    decreases decls.len(),
{
    if decls.len() > 0 {
        let ids = uninit_names(names, decls);
        let n = uninit_names(names, decls.drop_last()).len() as int;
        assert(ids.subrange(0, n) =~= uninit_names(names, decls.drop_last()));
        lemma_atoms_rn_own(names, decls.drop_last());
        assert(atoms_rn(names, decls, ids) =~= names.take(decls.len() as int));
    }
}

/// Interning each identifier of a model as itself puts every identifier
/// back as it was, and every undeclared name becomes the atom of its own
/// text.
pub proof fn lemma_own_identifiers(m: SpecReader)
    requires
        m.decls.len() == m.names.len(),
    ensures
        model_rn(m, model_ids(m)) == m,
        model_atoms(m, model_ids(m)) == m.names,
{
    let ids = model_ids(m);
    let a = decls_ids(m.decls).len() as int;
    let b = a + conss_ids(m.constraints).len();
    let c = b + solve_ids(m.solve).len();
    assert(ids.subrange(0, a) =~= decls_ids(m.decls));
    assert(ids.subrange(a, b) =~= conss_ids(m.constraints));
    assert(ids.subrange(b, c) =~= solve_ids(m.solve));
    assert(ids.subrange(c, ids.len() as int) =~= uninit_names(m.names, m.decls));
    lemma_decls_rn_own(m.decls);
    lemma_conss_rn_own(m.constraints);
    match m.solve {
        Some(x) => lemma_anns_rn_own(x.ann),
        None => {},
    }
    lemma_atoms_rn_own(m.names, m.decls);
    assert(m.names.take(m.decls.len() as int) =~= m.names);
    assert(model_rn(m, ids) =~= m);
}

// ----- the interned identifiers are the ones put in place -----

proof fn lemma_ann_ids_rn(a: SpecAnnotation, ids: Seq<Seq<char>>)
    requires
        ids.len() == ann_ids(a).len(),
    ensures
        ann_ids(ann_rn(a, ids)) == ids,
    decreases a,
{
    match a {
        SpecAnnotation::Atom(_) => {
            assert(ids =~= seq![ids[0]]);
        },
        SpecAnnotation::Call(c) => lemma_call_ids_rn(c, ids),
    }
}

proof fn lemma_call_ids_rn(c: SpecAnnotationCall, ids: Seq<Seq<char>>)
    requires
        ids.len() == call_ids(c).len(),
    ensures
        call_ids(call_rn(c, ids)) == ids,
    decreases c,
{
    lemma_args_ids_rn(c.args, ids.drop_first());
    assert(ids =~= seq![ids[0]] + ids.drop_first());
}

proof fn lemma_args_ids_rn(v: Seq<SpecArgument<SpecAnnotationLiteral>>, ids: Seq<Seq<char>>)
    requires
        ids.len() == args_ids(v).len(),
    ensures
        args_rn(v, ids).len() == v.len(),
        args_ids(args_rn(v, ids)) == ids,
    decreases v,
{
    if v.len() > 0 {
        let n = args_ids(v.drop_last()).len() as int;
        let r = args_rn(v, ids);
        lemma_args_ids_rn(v.drop_last(), ids.subrange(0, n));
        lemma_arg_ids_rn(v[v.len() - 1], ids.subrange(n, ids.len() as int));
        assert(r.drop_last() =~= args_rn(v.drop_last(), ids.subrange(0, n)));
        assert(ids =~= ids.subrange(0, n) + ids.subrange(n, ids.len() as int));
    }
}

proof fn lemma_arg_ids_rn(a: SpecArgument<SpecAnnotationLiteral>, ids: Seq<Seq<char>>)
    requires
        ids.len() == arg_ids(a).len(),
    ensures
        arg_ids(arg_rn(a, ids)) == ids,
    decreases a,
{
    match a {
        SpecArgument::Array(v) => lemma_lits_ids_rn(v, ids),
        SpecArgument::Literal(l) => lemma_lit_ids_rn(l, ids),
    }
}

proof fn lemma_lits_ids_rn(v: Seq<SpecAnnotationLiteral>, ids: Seq<Seq<char>>)
    requires
        ids.len() == lits_ids(v).len(),
    ensures
        lits_rn(v, ids).len() == v.len(),
        lits_ids(lits_rn(v, ids)) == ids,
    decreases v,
{
    if v.len() > 0 {
        let n = lits_ids(v.drop_last()).len() as int;
        let r = lits_rn(v, ids);
        lemma_lits_ids_rn(v.drop_last(), ids.subrange(0, n));
        lemma_lit_ids_rn(v[v.len() - 1], ids.subrange(n, ids.len() as int));
        assert(r.drop_last() =~= lits_rn(v.drop_last(), ids.subrange(0, n)));
        assert(ids =~= ids.subrange(0, n) + ids.subrange(n, ids.len() as int));
    }
}

proof fn lemma_lit_ids_rn(l: SpecAnnotationLiteral, ids: Seq<Seq<char>>)
    requires
        ids.len() == lit_ids(l).len(),
    ensures
        lit_ids(lit_rn(l, ids)) == ids,
    decreases l,
{
    match l {
        SpecAnnotationLiteral::Literal(_) => {
            assert(ids =~= Seq::<Seq<char>>::empty());
        },
        SpecAnnotationLiteral::Annotation(c) => lemma_call_ids_rn(c, ids),
    }
}

proof fn lemma_anns_ids_rn(v: Seq<SpecAnnotation>, ids: Seq<Seq<char>>)
    requires
        ids.len() == anns_ids(v).len(),
    ensures
        anns_rn(v, ids).len() == v.len(),
        anns_ids(anns_rn(v, ids)) == ids,
    decreases v.len(),
{
    if v.len() > 0 {
        let n = anns_ids(v.drop_last()).len() as int;
        let r = anns_rn(v, ids);
        lemma_anns_ids_rn(v.drop_last(), ids.subrange(0, n));
        lemma_ann_ids_rn(v[v.len() - 1], ids.subrange(n, ids.len() as int));
        assert(r.drop_last() =~= anns_rn(v.drop_last(), ids.subrange(0, n)));
        assert(ids =~= ids.subrange(0, n) + ids.subrange(n, ids.len() as int));
    } else {
        assert(ids =~= Seq::<Seq<char>>::empty());
    }
}

proof fn lemma_decls_ids_rn(ds: Seq<SpecDeclaration>, ids: Seq<Seq<char>>)
    requires
        ids.len() == decls_ids(ds).len(),
    ensures
        decls_rn(ds, ids).len() == ds.len(),
        decls_ids(decls_rn(ds, ids)) == ids,
    decreases ds.len(),
{
    if ds.len() > 0 {
        let n = decls_ids(ds.drop_last()).len() as int;
        let r = decls_rn(ds, ids);
        let d = ds[ds.len() - 1];
        let rest = ids.subrange(n, ids.len() as int);
        lemma_decls_ids_rn(ds.drop_last(), ids.subrange(0, n));
        match d {
            SpecDeclaration::Uninit => {
                assert(rest =~= Seq::<Seq<char>>::empty());
            },
            SpecDeclaration::Variable(v) => lemma_anns_ids_rn(v.ann, rest),
            SpecDeclaration::Array(a) => lemma_anns_ids_rn(a.ann, rest),
        }
        assert(r.drop_last() =~= decls_rn(ds.drop_last(), ids.subrange(0, n)));
        assert(ids =~= ids.subrange(0, n) + rest);
    } else {
        assert(ids =~= Seq::<Seq<char>>::empty());
    }
}

proof fn lemma_conss_ids_rn(cs: Seq<SpecConstraint>, ids: Seq<Seq<char>>)
    requires
        ids.len() == conss_ids(cs).len(),
    ensures
        conss_rn(cs, ids).len() == cs.len(),
        conss_ids(conss_rn(cs, ids)) == ids,
    decreases cs.len(),
{
    if cs.len() > 0 {
        let n = conss_ids(cs.drop_last()).len() as int;
        let r = conss_rn(cs, ids);
        let c = cs[cs.len() - 1];
        let rest = ids.subrange(n, ids.len() as int);
        lemma_conss_ids_rn(cs.drop_last(), ids.subrange(0, n));
        lemma_anns_ids_rn(c.ann, rest.drop_first());
        assert(cons_ids(cons_rn(c, rest)) =~= rest);
        assert(r.drop_last() =~= conss_rn(cs.drop_last(), ids.subrange(0, n)));
        assert(ids =~= ids.subrange(0, n) + rest);
    } else {
        assert(ids =~= Seq::<Seq<char>>::empty());
    }
}

/// After interning, every identifier of a model that the interner was handed
/// (each annotation identifier of every declaration, each constraint's
/// predicate and annotation identifiers, each annotation identifier of the
/// solve item) is the interner's result at its position in the list that
/// `model_ids` hands it: reading the identifiers back from the interned model
/// gives that list of results, part by part.
pub proof fn law_interned_identifiers_in_place(m: SpecReader, ids: Seq<Seq<char>>)
    requires
        ids.len() == model_ids(m).len(),
    ensures
        ({
            let a = decls_ids(m.decls).len() as int;
            let b = a + conss_ids(m.constraints).len();
            let c = b + solve_ids(m.solve).len();
            let r = model_rn(m, ids);
            &&& decls_ids(r.decls) == ids.subrange(0, a)
            &&& conss_ids(r.constraints) == ids.subrange(a, b)
            &&& solve_ids(r.solve) == ids.subrange(b, c)
        }),
{
    let a = decls_ids(m.decls).len() as int;
    let b = a + conss_ids(m.constraints).len();
    let c = b + solve_ids(m.solve).len();
    lemma_decls_ids_rn(m.decls, ids.subrange(0, a));
    lemma_conss_ids_rn(m.constraints, ids.subrange(a, b));
    match m.solve {
        Some(x) => lemma_anns_ids_rn(x.ann, ids.subrange(b, c)),
        None => {
            assert(ids.subrange(b, c) =~= Seq::<Seq<char>>::empty());
        },
    }
}

/// Reading with an interner that takes each identifier as it is gives the
/// model, or the error, that reading without an interner gives.
pub proof fn law_identity_interner(m: SpecReader)
    requires
        m.decls.len() == m.names.len(),
    ensures
        finish_spec_with(model_rn(m, model_ids(m)), model_atoms(m, model_ids(m))) == finish_spec(m),
{
    lemma_own_identifiers(m);
}

} // verus!
