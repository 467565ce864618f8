//! Reading back the JSON form that `to_json` writes.
use std::sync::Arc;
use vstd::prelude::*;

use crate::intermediate::{
    views, float_pairs_view, SpecDeclaration, SpecAnnotation, SpecAnnotationCall, SpecAnnotationLiteral, SpecArgument, SpecArray, SpecConstraint, SpecLiteral, SpecMethod, SpecSolve,
    SpecVarType, SpecVariable,
};
use crate::json::{SpecNumber, SpecNumericSet};
use crate::json_read::{
    arg_spec, args_spec, arr_spec, cons_spec, flag_spec, key_error, key_index, lit_spec, lits_spec,
    opt_anns_spec, pairs_spec, ranges_spec, solve_spec, var_keys, var_spec, SJson, Reading, decl_spec,
    decls_spec, cons_list_spec, output_spec, top_spec, top_step, reading_start, read_model_spec,
    finish_reading_spec, ann_spec, call_spec, ann_args_spec, ann_arg_spec, ann_lits_spec, ann_lit_spec,
    anns_spec,
};
use crate::json_write::{
    arg_json, array_json, constraint_json, float_pair_json, float_ranges_json, int_pair_json,
    int_ranges_json, lit_json, lits_json, named_name, solve_json, var_json, type_json, flags_json,
    flag_entry, ann_entry, domain_entry, method_json, fzn_json, ann_json, call_json, call_args_json,
    ann_arg_json, ann_lit_json, ann_lits_json,
};
use crate::model::{Annotation, AnnotationCall, AnnotationLiteral, int_ranges, var_view, array_view, lit_view, type_view, FlatZinc, PNamed, PLit, PAnn, PVar, PArray, PArg, PConstraint, PSolve, PFlatZinc, PCall, PAnnLit, ann_view, call_view, ann_arg_view, ann_lit_view, Argument, Array, Constraint, Literal, Method, NamedRef, SolveObjective, Type, Variable};
use crate::link::{
    link_arrays, link_con_arg, link_con_args, link_constraint, link_constraints, link_lit, link_lits, link_output,
    link_solve, link_start, link_ann, link_anns, link_call, link_ann_args, link_ann_arg, link_ann_lits,
    link_ann_lit, link_type, link_variables, link_model_with, resolve, LinkState, SpecLinkError,
};
use crate::names::{distinct_names, extend_uninit, intern_spec, Names};

verus! {

// ----- keys of objects -----

/// An object whose keys are all allowed and distinct has no fault in its
/// keys.
proof fn lemma_keys_fine(f: Seq<(Seq<char>, SJson)>, allowed: Seq<Seq<char>>)
    requires
        forall|i: int| 0 <= i < f.len() ==> allowed.contains(#[trigger] f[i].0),
        forall|i: int, j: int| 0 <= i < j < f.len() ==> f[i].0 != f[j].0,
    ensures
        key_error(f, allowed) is None,
    decreases f.len(),
{
    if f.len() > 0 {
        let g = f.drop_last();
        assert forall|i: int| 0 <= i < g.len() implies allowed.contains(#[trigger] g[i].0) by {
            assert(g[i] == f[i]);
        }
        lemma_keys_fine(g, allowed);
        let k = f[f.len() - 1].0;
        let ks = g.map_values(|e: (Seq<char>, SJson)| e.0);
        if ks.contains(k) {
            let j = choose|j: int| 0 <= j < ks.len() && ks[j] == k;
            assert(g[j] == f[j]);
        }
    }
}

/// The index of key `k` is the first entry that has it.
proof fn lemma_key_at(f: Seq<(Seq<char>, SJson)>, k: Seq<char>, i: int)
    requires
        0 <= i < f.len(),
        f[i].0 == k,
        forall|j: int| 0 <= j < i ==> f[j].0 != k,
    ensures
        key_index(f, k) == i,
    decreases i,
{
    if i > 0 {
        assert forall|j: int| 0 <= j < i - 1 implies f.drop_first()[j].0 != k by {
            assert(f.drop_first()[j] == f[j + 1]);
        }
        lemma_key_at(f.drop_first(), k, i - 1);
    }
}

/// A key that no entry has is not found.
proof fn lemma_key_absent(f: Seq<(Seq<char>, SJson)>, k: Seq<char>)
    requires
        forall|j: int| 0 <= j < f.len() ==> f[j].0 != k,
    ensures
        key_index(f, k) == -1,
    decreases f.len(),
{
    if f.len() > 0 {
        assert forall|j: int| 0 <= j < f.len() - 1 implies f.drop_first()[j].0 != k by {
            assert(f.drop_first()[j] == f[j + 1]);
        }
        lemma_key_absent(f.drop_first(), k);
    }
}

/// The keys of the format are distinct texts.
proof fn lemma_key_texts()
    ensures
        "type"@ != "domain"@,
        "type"@ != "ann"@,
        "type"@ != "defined"@,
        "type"@ != "introduced"@,
        "domain"@ != "ann"@,
        "domain"@ != "defined"@,
        "domain"@ != "introduced"@,
        "ann"@ != "defined"@,
        "ann"@ != "introduced"@,
        "defined"@ != "introduced"@,
        "a"@ != "ann"@,
        "a"@ != "defined"@,
        "a"@ != "introduced"@,
        "id"@ != "args"@,
        "id"@ != "defines"@,
        "id"@ != "ann"@,
        "args"@ != "defines"@,
        "args"@ != "ann"@,
        "defines"@ != "ann"@,
        "method"@ != "objective"@,
        "method"@ != "ann"@,
        "objective"@ != "ann"@,
        "set"@ != "string"@,
        "set"@ != "id"@,
        "set"@ != "args"@,
        "string"@ != "id"@,
        "string"@ != "args"@,
        "bool"@ != "int"@,
        "bool"@ != "float"@,
        "bool"@ != "set of int"@,
        "int"@ != "float"@,
        "int"@ != "set of int"@,
        "float"@ != "set of int"@,
        "satisfy"@ != "minimize"@,
        "satisfy"@ != "maximize"@,
        "minimize"@ != "maximize"@,
{
    reveal_strlit("type");
    reveal_strlit("domain");
    reveal_strlit("ann");
    reveal_strlit("defined");
    reveal_strlit("introduced");
    reveal_strlit("a");
    reveal_strlit("id");
    reveal_strlit("args");
    reveal_strlit("defines");
    reveal_strlit("method");
    reveal_strlit("objective");
    reveal_strlit("set");
    reveal_strlit("string");
    reveal_strlit("bool");
    reveal_strlit("int");
    reveal_strlit("float");
    reveal_strlit("set of int");
    reveal_strlit("satisfy");
    reveal_strlit("minimize");
    reveal_strlit("maximize");
    assert("type"@.len() == 4);
    assert("domain"@.len() == 6);
    assert("ann"@.len() == 3);
    assert("defined"@.len() == 7);
    assert("introduced"@.len() == 10);
    assert("a"@.len() == 1);
    assert("id"@.len() == 2);
    assert("args"@.len() == 4);
    assert("defines"@.len() == 7);
    assert("method"@.len() == 6);
    assert("objective"@.len() == 9);
    assert("set"@.len() == 3);
    assert("string"@.len() == 6);
    assert("bool"@.len() == 4);
    assert("int"@.len() == 3);
    assert("float"@.len() == 5);
    assert("set of int"@.len() == 10);
    assert("satisfy"@.len() == 7);
    assert("minimize"@.len() == 8);
    assert("maximize"@.len() == 8);
    assert("minimize"@[1] != "maximize"@[1]);
    assert("type"@[0] != "domain"@[0]);
    assert("type"@[0] != "ann"@[0]);
    assert("type"@.len() != "defined"@.len());
    assert("type"@.len() != "introduced"@.len());
}

// ----- ranges -----

proof fn lemma_int_pairs(p: Seq<(i64, i64)>)
    ensures
        pairs_spec(p.map_values(|q: (i64, i64)| int_pair_json(q))) == Some(
            p.map_values(|q: (i64, i64)| (SpecNumber::Int(q.0), SpecNumber::Int(q.1))),
        ),
    decreases p.len(),
{
    let items = p.map_values(|q: (i64, i64)| int_pair_json(q));
    if p.len() > 0 {
        assert(items.drop_last() =~= p.drop_last().map_values(|q: (i64, i64)| int_pair_json(q)));
        lemma_int_pairs(p.drop_last());
        assert(p.map_values(|q: (i64, i64)| (SpecNumber::Int(q.0), SpecNumber::Int(q.1))) =~= p.drop_last().map_values(
            |q: (i64, i64)| (SpecNumber::Int(q.0), SpecNumber::Int(q.1)),
        ).push((SpecNumber::Int(p.last().0), SpecNumber::Int(p.last().1))));
    }
}

/// Integer ranges written as JSON read back as those ranges.
proof fn lemma_int_ranges_read(p: Seq<(i64, i64)>)
    ensures
        ranges_spec(int_ranges_json(p)) == Some(SpecNumericSet::Int(p)),
{
    lemma_int_pairs(p);
    let v = p.map_values(|q: (i64, i64)| (SpecNumber::Int(q.0), SpecNumber::Int(q.1)));
    assert(!exists|i: int| 0 <= i < v.len() && (#[trigger] v[i].0 is Float || v[i].1 is Float));
    assert(Seq::new(v.len(), |i: int| (v[i].0->Int_0, v[i].1->Int_0)) =~= p);
}

proof fn lemma_float_pairs(p: Seq<(Seq<char>, Seq<char>)>)
    ensures
        pairs_spec(p.map_values(|q: (Seq<char>, Seq<char>)| float_pair_json(q))) == Some(
            p.map_values(|q: (Seq<char>, Seq<char>)| (SpecNumber::Float(q.0), SpecNumber::Float(q.1))),
        ),
    decreases p.len(),
{
    let items = p.map_values(|q: (Seq<char>, Seq<char>)| float_pair_json(q));
    if p.len() > 0 {
        assert(items.drop_last() =~= p.drop_last().map_values(|q: (Seq<char>, Seq<char>)| float_pair_json(q)));
        lemma_float_pairs(p.drop_last());
        assert(p.map_values(|q: (Seq<char>, Seq<char>)| (SpecNumber::Float(q.0), SpecNumber::Float(q.1)))
            =~= p.drop_last().map_values(
            |q: (Seq<char>, Seq<char>)| (SpecNumber::Float(q.0), SpecNumber::Float(q.1)),
        ).push((SpecNumber::Float(p.last().0), SpecNumber::Float(p.last().1))));
    }
}

/// Float ranges written as JSON read back as those ranges, when there is one.
proof fn lemma_float_ranges_read(p: Seq<(Seq<char>, Seq<char>)>)
    requires
        p.len() > 0,
    ensures
        ranges_spec(float_ranges_json(p)) == Some(SpecNumericSet::Float(p)),
{
    lemma_float_pairs(p);
    let v = p.map_values(|q: (Seq<char>, Seq<char>)| (SpecNumber::Float(q.0), SpecNumber::Float(q.1)));
    assert(v[0].0 is Float);
    assert(Seq::new(v.len(), |i: int| (crate::json::float_text(v[i].0), crate::json::float_text(v[i].1))) =~= p);
}

// ----- literals -----

/// `n` is the start of the table `t`, whose names are distinct.
pub open spec fn prefix_of(n: Names, t: Names) -> bool {
    &&& n.len() <= t.len()
    &&& t.subrange(0, n.len() as int) == n
    &&& distinct_names(t)
}

/// The slot of name `s` in the table `t`.
pub open spec fn slot(t: Names, s: Seq<char>) -> nat {
    t.index_of(s) as nat
}

proof fn lemma_slot_in_prefix(n: Names, t: Names, s: Seq<char>)
    requires
        prefix_of(n, t),
        n.contains(s),
    ensures
        intern_spec(n, s) == (n, slot(t, s)),
        0 <= t.index_of(s) < t.len(),
        t[t.index_of(s)] == s,
{
    let i = n.index_of(s);
    assert(t[i] == n[i]);
    assert(t.contains(s));
    let j = t.index_of(s);
    assert(t[j] == s);
}

/// The slot of the `j`-th name is `j`.
proof fn lemma_slot_at(t: Names, j: int)
    requires
        distinct_names(t),
        0 <= j < t.len(),
    ensures
        slot(t, t[j]) == j,
{
    assert(t.contains(t[j]));
    let i = t.index_of(t[j]);
    assert(t[i] == t[j]);
}

/// A literal as it reads back, a variable as the slot of its name in `t`.
pub open spec fn lit_read(l: Literal, t: Names) -> SpecLiteral {
    match l {
        Literal::Int(i) => SpecLiteral::Int(i),
        Literal::Float(x) => SpecLiteral::Float(x@),
        Literal::Variable(v) => SpecLiteral::Reference(slot(t, v.name@)),
        Literal::Bool(b) => SpecLiteral::Bool(b),
        Literal::IntSet(r) => SpecLiteral::IntSet(int_ranges(r)),
        Literal::FloatSet(v) => SpecLiteral::FloatSet(float_pairs_view(v@)),
        Literal::String(x) => SpecLiteral::Str(x@),
    }
}

/// A literal reads back: a variable's name is in the table `n`, a float set
/// has a range.
pub open spec fn lit_readable(l: Literal, n: Names) -> bool {
    match l {
        Literal::Variable(v) => n.contains(v.name@),
        Literal::FloatSet(v) => v@.len() > 0,
        _ => true,
    }
}

proof fn lemma_read_lit(l: Literal, n: Names, t: Names)
    requires
        lit_readable(l, n),
        prefix_of(n, t),
    ensures
        lit_spec(lit_json(l), n) == (Ok::<SpecLiteral, Seq<char>>(lit_read(l, t)), n),
{
    lemma_key_texts();
    match l {
        Literal::Variable(v) => {
            lemma_slot_in_prefix(n, t, v.name@);
        },
        Literal::IntSet(r) => {
            lemma_int_ranges_read(int_ranges(r));
        },
        Literal::FloatSet(v) => {
            lemma_float_ranges_read(float_pairs_view(v@));
        },
        _ => {},
    }
}

proof fn lemma_read_lits(ls: Seq<Literal>, n: Names, t: Names)
    requires
        forall|i: int| 0 <= i < ls.len() ==> lit_readable(#[trigger] ls[i], n),
        prefix_of(n, t),
    ensures
        lits_spec(ls.map_values(|l: Literal| lit_json(l)), n) == (
            Ok::<Seq<SpecLiteral>, Seq<char>>(ls.map_values(|l: Literal| lit_read(l, t))),
            n,
        ),
    decreases ls.len(),
{
    let items = ls.map_values(|l: Literal| lit_json(l));
    if ls.len() > 0 {
        assert(lit_readable(ls[0], n));
        lemma_read_lit(ls[0], n, t);
        assert(items.drop_first() =~= ls.drop_first().map_values(|l: Literal| lit_json(l)));
        assert forall|i: int| 0 <= i < ls.drop_first().len() implies lit_readable(
            #[trigger] ls.drop_first()[i],
            n,
        ) by {
            assert(ls.drop_first()[i] == ls[i + 1]);
        }
        lemma_read_lits(ls.drop_first(), n, t);
        assert(ls.map_values(|l: Literal| lit_read(l, t)) =~= seq![lit_read(ls[0], t)] + ls.drop_first().map_values(
            |l: Literal| lit_read(l, t),
        ));
    } else {
        assert(ls.map_values(|l: Literal| lit_read(l, t)) =~= Seq::<SpecLiteral>::empty());
    }
}

// ----- annotations that name nothing -----

/// An annotation that names no variable, array or atom inside a call: an
/// atom, or a call whose arguments are literals other than variables, lists
/// of such literals, and calls of the same kind.
pub open spec fn ann_plain(a: Annotation) -> bool
    decreases a, 2nat,
{
    match a {
        Annotation::Atom(_) => true,
        Annotation::Call(c) => call_plain(c),
    }
}

pub open spec fn call_plain(c: AnnotationCall) -> bool
    decreases c, 2nat,
{
    args_plain(c, 0)
}

/// The arguments of `c` from the `k`-th on name nothing.
pub open spec fn args_plain(c: AnnotationCall, k: int) -> bool
    decreases c, 1nat, c.args@.len() - k,
{
    if k < 0 || k >= c.args@.len() {
        true
    } else {
        ann_arg_plain(c.args@[k]) && args_plain(c, k + 1)
    }
}

pub open spec fn ann_arg_plain(a: Argument<AnnotationLiteral>) -> bool
    decreases a, 2nat,
{
    match a {
        Argument::Array(v) => ann_lits_plain(v, 0),
        Argument::ArrayNamed(_) => false,
        Argument::Literal(l) => ann_lit_plain(l),
    }
}

/// The annotation literals of `v` from the `k`-th on name nothing.
pub open spec fn ann_lits_plain(v: Vec<AnnotationLiteral>, k: int) -> bool
    decreases v, 1nat, v@.len() - k,
{
    if k < 0 || k >= v@.len() {
        true
    } else {
        ann_lit_plain(v@[k]) && ann_lits_plain(v, k + 1)
    }
}

pub open spec fn ann_lit_plain(l: AnnotationLiteral) -> bool
    decreases l, 2nat,
{
    match l {
        AnnotationLiteral::Literal(x) => !(x is Variable) && lit_readable(x, Seq::empty()),
        AnnotationLiteral::Variable(_) => false,
        AnnotationLiteral::Annotation(Annotation::Atom(_)) => false,
        AnnotationLiteral::Annotation(Annotation::Call(c)) => call_plain(c),
    }
}

/// An annotation that names nothing, as it reads back.
pub open spec fn ann_sread(a: Annotation) -> SpecAnnotation
    decreases a, 2nat,
{
    match a {
        Annotation::Atom(t) => SpecAnnotation::Atom(t@),
        Annotation::Call(c) => SpecAnnotation::Call(call_sread(c)),
    }
}

pub open spec fn call_sread(c: AnnotationCall) -> SpecAnnotationCall
    decreases c, 2nat,
{
    SpecAnnotationCall {
        id: c.id@,
        args: Seq::new(
            c.args@.len(),
            |i: int|
                if 0 <= i < c.args@.len() {
                    ann_arg_sread(c.args@[i])
                } else {
                    SpecArgument::Array(Seq::empty())
                },
        ),
    }
}

pub open spec fn ann_arg_sread(a: Argument<AnnotationLiteral>) -> SpecArgument<SpecAnnotationLiteral>
    decreases a, 2nat,
{
    match a {
        Argument::Array(v) => SpecArgument::Array(
            Seq::new(
                v@.len(),
                |i: int|
                    if 0 <= i < v@.len() {
                        ann_lit_sread(v@[i])
                    } else {
                        SpecAnnotationLiteral::Literal(SpecLiteral::Bool(false))
                    },
            ),
        ),
        Argument::ArrayNamed(_) => SpecArgument::Array(Seq::empty()),
        Argument::Literal(l) => SpecArgument::Literal(ann_lit_sread(l)),
    }
}

pub open spec fn ann_lit_sread(l: AnnotationLiteral) -> SpecAnnotationLiteral
    decreases l, 2nat,
{
    match l {
        AnnotationLiteral::Literal(x) => SpecAnnotationLiteral::Literal(lit_read(x, Seq::empty())),
        AnnotationLiteral::Annotation(Annotation::Call(c)) => SpecAnnotationLiteral::Annotation(call_sread(c)),
        _ => SpecAnnotationLiteral::Literal(SpecLiteral::Bool(false)),
    }
}

proof fn lemma_read_plain_lit(x: Literal, n: Names)
    requires
        !(x is Variable),
        lit_readable(x, Seq::empty()),
    ensures
        lit_spec(lit_json(x), n) == (Ok::<SpecLiteral, Seq<char>>(lit_read(x, Seq::empty())), n),
{
    lemma_key_texts();
    match x {
        Literal::IntSet(r) => {
            lemma_int_ranges_read(int_ranges(r));
        },
        Literal::FloatSet(v) => {
            lemma_float_ranges_read(float_pairs_view(v@));
        },
        _ => {},
    }
}

proof fn lemma_read_ann(a: Annotation, n: Names)
    requires
        ann_plain(a),
    ensures
        ann_spec(ann_json(a), n) == (Ok::<SpecAnnotation, Seq<char>>(ann_sread(a)), n),
    decreases a, 2nat,
{
    if let Annotation::Call(c) = a {
        lemma_read_call(c, n);
    }
}

proof fn lemma_read_call(c: AnnotationCall, n: Names)
    requires
        call_plain(c),
    ensures
        call_spec(call_json(c), n) == (Ok::<SpecAnnotationCall, Seq<char>>(call_sread(c)), n),
    decreases c, 2nat,
{
    lemma_key_texts();
    let f = seq![("id"@, SJson::Str(c.id@)), ("args"@, SJson::Array(call_args_json(c)))];
    let keys = seq!["id"@, "args"@];
    assert forall|i: int| 0 <= i < f.len() implies keys.contains(#[trigger] f[i].0) by {
        if i == 0 {
            assert(keys[0] == f[i].0);
        } else {
            assert(keys[1] == f[i].0);
        }
    }
    lemma_keys_fine(f, keys);
    lemma_key_at(f, "id"@, 0);
    lemma_key_at(f, "args"@, 1);
    lemma_read_args_from(c, 0, n);
    assert(call_args_json(c).skip(0) =~= call_args_json(c));
    assert(call_sread(c).args.skip(0) =~= call_sread(c).args);
}

proof fn lemma_read_args_from(c: AnnotationCall, k: int, n: Names)
    requires
        args_plain(c, k),
        0 <= k <= c.args@.len(),
    ensures
        ann_args_spec(call_args_json(c).skip(k), n) == (
            Ok::<Seq<SpecArgument<SpecAnnotationLiteral>>, Seq<char>>(call_sread(c).args.skip(k)),
            n,
        ),
    decreases c, 1nat, c.args@.len() - k,
{
    let items = call_args_json(c);
    if k < c.args@.len() {
        assert(items.skip(k)[0] == ann_arg_json(c.args@[k]));
        assert(items.skip(k).drop_first() =~= items.skip(k + 1));
        assert(decreases_to!(c => c.args));
        assert(decreases_to!(c.args => c.args@));
        assert(decreases_to!(c.args@ => c.args@[k]));
        lemma_read_ann_arg(c.args@[k], n);
        lemma_read_args_from(c, k + 1, n);
        assert(call_sread(c).args.skip(k) =~= seq![ann_arg_sread(c.args@[k])] + call_sread(c).args.skip(k + 1));
    } else {
        assert(items.skip(k) =~= Seq::<SJson>::empty());
        assert(call_sread(c).args.skip(k) =~= Seq::<SpecArgument<SpecAnnotationLiteral>>::empty());
    }
}

proof fn lemma_read_ann_arg(a: Argument<AnnotationLiteral>, n: Names)
    requires
        ann_arg_plain(a),
    ensures
        ann_arg_spec(ann_arg_json(a), n) == (
            Ok::<SpecArgument<SpecAnnotationLiteral>, Seq<char>>(ann_arg_sread(a)),
            n,
        ),
    decreases a, 2nat,
{
    match a {
        Argument::Array(v) => {
            lemma_read_lits_from(v, 0, n);
            assert(ann_lits_json(v).skip(0) =~= ann_lits_json(v));
            assert(ann_arg_sread(a)->Array_0.skip(0) =~= ann_arg_sread(a)->Array_0);
        },
        Argument::ArrayNamed(_) => {},
        Argument::Literal(l) => {
            lemma_read_ann_lit(l, n);
        },
    }
}

proof fn lemma_read_lits_from(v: Vec<AnnotationLiteral>, k: int, n: Names)
    requires
        ann_lits_plain(v, k),
        0 <= k <= v@.len(),
    ensures
        ann_lits_spec(ann_lits_json(v).skip(k), n) == (
            Ok::<Seq<SpecAnnotationLiteral>, Seq<char>>(
                ann_arg_sread(Argument::Array(v))->Array_0.skip(k),
            ),
            n,
        ),
    decreases v, 1nat, v@.len() - k,
{
    let items = ann_lits_json(v);
    let want = ann_arg_sread(Argument::Array(v))->Array_0;
    if k < v@.len() {
        assert(items.skip(k)[0] == ann_lit_json(v@[k]));
        assert(items.skip(k).drop_first() =~= items.skip(k + 1));
        assert(decreases_to!(v => v@));
        assert(decreases_to!(v@ => v@[k]));
        lemma_read_ann_lit(v@[k], n);
        lemma_read_lits_from(v, k + 1, n);
        assert(want.skip(k) =~= seq![ann_lit_sread(v@[k])] + want.skip(k + 1));
    } else {
        assert(items.skip(k) =~= Seq::<SJson>::empty());
        assert(want.skip(k) =~= Seq::<SpecAnnotationLiteral>::empty());
    }
}

proof fn lemma_read_ann_lit(l: AnnotationLiteral, n: Names)
    requires
        ann_lit_plain(l),
    ensures
        ann_lit_spec(ann_lit_json(l), n) == (Ok::<SpecAnnotationLiteral, Seq<char>>(ann_lit_sread(l)), n),
    decreases l, 2nat,
{
    lemma_key_texts();
    match l {
        AnnotationLiteral::Literal(x) => {
            lemma_read_plain_lit(x, n);
            if lit_json(x) is Object {
                assert(lit_json(x)->Object_0.len() == 1);
                assert(lit_json(x) != SJson::Object(Seq::empty()));
            }
        },
        AnnotationLiteral::Annotation(Annotation::Call(c)) => {
            lemma_read_call(c, n);
            assert(call_json(c) != SJson::Object(Seq::empty())) by {
                assert(call_json(c)->Object_0.len() == 2);
            }
        },
        _ => {},
    }
}

proof fn lemma_read_anns(v: Seq<Annotation>, n: Names)
    requires
        forall|i: int| 0 <= i < v.len() ==> ann_plain(#[trigger] v[i]),
    ensures
        anns_spec(v.map_values(|a: Annotation| ann_json(a)), n) == (
            Ok::<Seq<SpecAnnotation>, Seq<char>>(v.map_values(|a: Annotation| ann_sread(a))),
            n,
        ),
    decreases v.len(),
{
    let items = v.map_values(|a: Annotation| ann_json(a));
    if v.len() > 0 {
        assert(ann_plain(v[0]));
        lemma_read_ann(v[0], n);
        assert(items.drop_first() =~= v.drop_first().map_values(|a: Annotation| ann_json(a)));
        assert forall|i: int| 0 <= i < v.drop_first().len() implies ann_plain(#[trigger] v.drop_first()[i]) by {
            assert(v.drop_first()[i] == v[i + 1]);
        }
        lemma_read_anns(v.drop_first(), n);
        assert(v.map_values(|a: Annotation| ann_sread(a)) =~= seq![ann_sread(v[0])] + v.drop_first().map_values(
            |a: Annotation| ann_sread(a),
        ));
    } else {
        assert(v.map_values(|a: Annotation| ann_sread(a)) =~= Seq::<SpecAnnotation>::empty());
    }
}

proof fn lemma_link_plain_lit(st: LinkState, x: Literal, total: nat, depth: nat)
    requires
        !(x is Variable),
    ensures
        link_lit(st, lit_read(x, Seq::empty()), total, depth) == (Ok::<PLit, SpecLinkError>(lit_view(x)), st),
{
}

proof fn lemma_link_ann_plain(st: LinkState, a: Annotation, total: nat, depth: nat)
    requires
        ann_plain(a),
    ensures
        link_ann(st, ann_sread(a), total, depth) == (Ok::<PAnn, SpecLinkError>(ann_view(a)), st),
    decreases a, 2nat,
{
    if let Annotation::Call(c) = a {
        lemma_link_call_plain(st, c, total, depth);
    }
}

proof fn lemma_link_call_plain(st: LinkState, c: AnnotationCall, total: nat, depth: nat)
    requires
        call_plain(c),
    ensures
        link_call(st, call_sread(c), total, depth) == (Ok::<PCall, SpecLinkError>(call_view(c)), st),
    decreases c, 2nat,
{
    lemma_link_args_from(st, c, 0, total, depth);
    assert(call_sread(c).args.skip(0) =~= call_sread(c).args);
    assert(call_view(c).args.skip(0) =~= call_view(c).args);
}

proof fn lemma_link_args_from(st: LinkState, c: AnnotationCall, k: int, total: nat, depth: nat)
    requires
        args_plain(c, k),
        0 <= k <= c.args@.len(),
    ensures
        link_ann_args(st, call_sread(c).args.skip(k), total, depth) == (
            Ok::<Seq<PArg<PAnnLit>>, SpecLinkError>(call_view(c).args.skip(k)),
            st,
        ),
    decreases c, 1nat, c.args@.len() - k,
{
    let v = call_sread(c).args;
    if k < c.args@.len() {
        assert(v.skip(k)[0] == ann_arg_sread(c.args@[k]));
        assert(v.skip(k).drop_first() =~= v.skip(k + 1));
        assert(decreases_to!(c => c.args));
        assert(decreases_to!(c.args => c.args@));
        assert(decreases_to!(c.args@ => c.args@[k]));
        lemma_link_ann_arg_plain(st, c.args@[k], total, depth);
        lemma_link_args_from(st, c, k + 1, total, depth);
        assert(call_view(c).args.skip(k) =~= seq![ann_arg_view(c.args@[k])] + call_view(c).args.skip(k + 1));
    } else {
        assert(v.skip(k) =~= Seq::<SpecArgument<SpecAnnotationLiteral>>::empty());
        assert(call_view(c).args.skip(k) =~= Seq::<PArg<PAnnLit>>::empty());
    }
}

proof fn lemma_link_ann_arg_plain(st: LinkState, a: Argument<AnnotationLiteral>, total: nat, depth: nat)
    requires
        ann_arg_plain(a),
    ensures
        link_ann_arg(st, ann_arg_sread(a), total, depth) == (Ok::<PArg<PAnnLit>, SpecLinkError>(ann_arg_view(a)), st),
    decreases a, 2nat,
{
    match a {
        Argument::Array(v) => {
            lemma_link_lits_from(st, v, 0, total, depth);
            assert(ann_arg_sread(a)->Array_0.skip(0) =~= ann_arg_sread(a)->Array_0);
            assert(ann_arg_view(a)->Array_0.skip(0) =~= ann_arg_view(a)->Array_0);
        },
        Argument::ArrayNamed(_) => {},
        Argument::Literal(l) => {
            lemma_link_ann_lit_plain(st, l, total, depth);
        },
    }
}

proof fn lemma_link_lits_from(st: LinkState, v: Vec<AnnotationLiteral>, k: int, total: nat, depth: nat)
    requires
        ann_lits_plain(v, k),
        0 <= k <= v@.len(),
    ensures
        link_ann_lits(st, ann_arg_sread(Argument::Array(v))->Array_0.skip(k), total, depth) == (
            Ok::<Seq<PAnnLit>, SpecLinkError>(ann_arg_view(Argument::Array(v))->Array_0.skip(k)),
            st,
        ),
    decreases v, 1nat, v@.len() - k,
{
    let w = ann_arg_sread(Argument::Array(v))->Array_0;
    let want = ann_arg_view(Argument::Array(v))->Array_0;
    if k < v@.len() {
        assert(w.skip(k)[0] == ann_lit_sread(v@[k]));
        assert(w.skip(k).drop_first() =~= w.skip(k + 1));
        assert(decreases_to!(v => v@));
        assert(decreases_to!(v@ => v@[k]));
        lemma_link_ann_lit_plain(st, v@[k], total, depth);
        lemma_link_lits_from(st, v, k + 1, total, depth);
        assert(want.skip(k) =~= seq![ann_lit_view(v@[k])] + want.skip(k + 1));
    } else {
        assert(w.skip(k) =~= Seq::<SpecAnnotationLiteral>::empty());
        assert(want.skip(k) =~= Seq::<PAnnLit>::empty());
    }
}

proof fn lemma_link_ann_lit_plain(st: LinkState, l: AnnotationLiteral, total: nat, depth: nat)
    requires
        ann_lit_plain(l),
    ensures
        link_ann_lit(st, ann_lit_sread(l), total, depth) == (Ok::<PAnnLit, SpecLinkError>(ann_lit_view(l)), st),
    decreases l, 2nat,
{
    match l {
        AnnotationLiteral::Literal(x) => {
            lemma_link_plain_lit(st, x, total, depth);
        },
        AnnotationLiteral::Annotation(Annotation::Call(c)) => {
            lemma_link_call_plain(st, c, total, depth);
        },
        _ => {},
    }
}

proof fn lemma_link_anns_plain(st: LinkState, v: Seq<Annotation>, total: nat, depth: nat)
    requires
        !st.self_ref,
        forall|i: int| 0 <= i < v.len() ==> ann_plain(#[trigger] v[i]),
    ensures
        link_anns(st, v.map_values(|a: Annotation| ann_sread(a)), total, depth) == (
            Ok::<Seq<PAnn>, SpecLinkError>(v.map_values(|a: Annotation| ann_view(a))),
            st,
        ),
    decreases v.len(),
{
    let w = v.map_values(|a: Annotation| ann_sread(a));
    if v.len() > 0 {
        assert(ann_plain(v[0]));
        assert(LinkState { self_ref: false, ..st } == st);
        lemma_link_ann_plain(st, v[0], total, depth);
        assert(w[0] == ann_sread(v[0]));
        assert(w.drop_first() =~= v.drop_first().map_values(|a: Annotation| ann_sread(a)));
        assert forall|i: int| 0 <= i < v.drop_first().len() implies ann_plain(#[trigger] v.drop_first()[i]) by {
            assert(v.drop_first()[i] == v[i + 1]);
        }
        lemma_link_anns_plain(st, v.drop_first(), total, depth);
        assert(v.map_values(|a: Annotation| ann_view(a)) =~= seq![ann_view(v[0])] + v.drop_first().map_values(
            |a: Annotation| ann_view(a),
        ));
    } else {
        assert(v.map_values(|a: Annotation| ann_view(a)) =~= Seq::<PAnn>::empty());
    }
}

// ----- declarations -----

/// The type of a variable as it reads back.
pub open spec fn type_read(t: Type) -> SpecVarType {
    match t {
        Type::Bool => SpecVarType::Bool,
        Type::Int(d) => SpecVarType::Int(
            match d {
                Some(r) => Some(int_ranges(r)),
                None => None,
            },
        ),
        Type::Float(d) => SpecVarType::Float(
            match d {
                Some(v) => Some(float_pairs_view(v@)),
                None => None,
            },
        ),
        Type::IntSet(d) => SpecVarType::IntSet(
            match d {
                Some(r) => Some(int_ranges(r)),
                None => None,
            },
        ),
    }
}

/// A type reads back: a float domain has a range.
pub open spec fn type_readable(t: Type) -> bool {
    match t {
        Type::Float(Some(v)) => v@.len() > 0,
        _ => true,
    }
}

/// A variable as it reads back.
pub open spec fn var_read(v: Variable) -> SpecVariable {
    SpecVariable { ty: type_read(v.ty), ann: anns_sread(v.ann@), defined: v.defined, introduced: v.introduced }
}

/// The annotations of a list that name nothing, as they read back.
pub open spec fn anns_sread(v: Seq<Annotation>) -> Seq<SpecAnnotation> {
    v.map_values(|a: Annotation| ann_sread(a))
}

/// Every annotation of the list names nothing.
pub open spec fn anns_plain(v: Seq<Annotation>) -> bool {
    forall|i: int| 0 <= i < v.len() ==> ann_plain(#[trigger] v[i])
}

/// The annotations of an object, as the entry `ann` that the object has when
/// there are any.
proof fn lemma_ann_entry(f: Seq<(Seq<char>, SJson)>, p: int, ann: Seq<Annotation>, n: Names)
    requires
        0 <= p,
        p + ann_entry(ann).len() <= f.len(),
        f.subrange(p, p + ann_entry(ann).len()) == ann_entry(ann),
        forall|i: int| 0 <= i < p ==> (#[trigger] f[i]).0 != "ann"@,
        ann_entry(ann).len() == 0 ==> forall|i: int| 0 <= i < f.len() ==> (#[trigger] f[i]).0 != "ann"@,
        anns_plain(ann),
    ensures
        opt_anns_spec(f, n) == (Ok::<Seq<SpecAnnotation>, Seq<char>>(anns_sread(ann)), n),
{
    if ann.len() > 0 {
        assert(f[p] == f.subrange(p, p + 1)[0]);
        assert(f[p] == ann_entry(ann)[0]);
        lemma_key_at(f, "ann"@, p);
        lemma_read_anns(ann, n);
    } else {
        lemma_key_absent(f, "ann"@);
        assert(anns_sread(ann) =~= Seq::<SpecAnnotation>::empty());
    }
}

/// The entries after a declaration's own: `ann` when there are annotations,
/// then each flag with its key when set.
proof fn lemma_flags(
    f: Seq<(Seq<char>, SJson)>,
    pre: Seq<(Seq<char>, SJson)>,
    ann: Seq<Annotation>,
    defined: bool,
    introduced: bool,
    n: Names,
)
    requires
        f == pre + flags_json(ann, defined, introduced),
        forall|i: int| 0 <= i < pre.len() ==> (#[trigger] pre[i]).0 != "defined"@ && pre[i].0 != "introduced"@
            && pre[i].0 != "ann"@,
        anns_plain(ann),
    ensures
        flag_spec(f, "defined"@) == Ok::<bool, Seq<char>>(defined),
        flag_spec(f, "introduced"@) == Ok::<bool, Seq<char>>(introduced),
        opt_anns_spec(f, n) == (Ok::<Seq<SpecAnnotation>, Seq<char>>(anns_sread(ann)), n),
{
    lemma_key_texts();
    let p = pre.len() as int;
    let q = p + ann_entry(ann).len();
    assert(f.subrange(p, q) =~= ann_entry(ann));
    lemma_ann_entry(f, p, ann, n);
    if defined {
        lemma_key_at(f, "defined"@, q);
    } else {
        lemma_key_absent(f, "defined"@);
    }
    if introduced {
        if defined {
            lemma_key_at(f, "introduced"@, q + 1);
        } else {
            lemma_key_at(f, "introduced"@, q);
        }
    } else {
        lemma_key_absent(f, "introduced"@);
    }
}

/// The keys of an object are all allowed and distinct.
pub open spec fn keys_ok(f: Seq<(Seq<char>, SJson)>, allowed: Seq<Seq<char>>) -> bool {
    &&& forall|i: int| 0 <= i < f.len() ==> allowed.contains(#[trigger] f[i].0)
    &&& forall|i: int, j: int| 0 <= i < j < f.len() ==> f[i].0 != f[j].0
}

proof fn lemma_concat_keys(a: Seq<(Seq<char>, SJson)>, b: Seq<(Seq<char>, SJson)>, allowed: Seq<Seq<char>>)
    requires
        keys_ok(a, allowed),
        keys_ok(b, allowed),
        forall|i: int, j: int| 0 <= i < a.len() && 0 <= j < b.len() ==> a[i].0 != b[j].0,
    ensures
        keys_ok(a + b, allowed),
{
    let f = a + b;
    assert forall|i: int| 0 <= i < f.len() implies allowed.contains(#[trigger] f[i].0) by {
        if i < a.len() {
            assert(f[i] == a[i]);
        } else {
            assert(f[i] == b[i - a.len()]);
        }
    }
    assert forall|i: int, j: int| 0 <= i < j < f.len() implies f[i].0 != f[j].0 by {
        if j < a.len() {
            assert(f[i] == a[i] && f[j] == a[j]);
        } else if i >= a.len() {
            assert(f[i] == b[i - a.len()] && f[j] == b[j - a.len()]);
        } else {
            assert(f[i] == a[i] && f[j] == b[j - a.len()]);
        }
    }
}

/// The entries after a declaration's own have the keys `ann`, `defined` and
/// `introduced`, each at most once.
proof fn lemma_flags_keys(ann: Seq<Annotation>, defined: bool, introduced: bool, allowed: Seq<Seq<char>>)
    requires
        allowed.contains("ann"@),
        allowed.contains("defined"@),
        allowed.contains("introduced"@),
    ensures
        keys_ok(flags_json(ann, defined, introduced), allowed),
        forall|i: int|
            0 <= i < flags_json(ann, defined, introduced).len() ==> {
                let k = (#[trigger] flags_json(ann, defined, introduced)[i]).0;
                k == "ann"@ || k == "defined"@ || k == "introduced"@
            },
{
    lemma_key_texts();
    let a = ann_entry(ann);
    let d = flag_entry("defined"@, defined);
    let e = flag_entry("introduced"@, introduced);
    assert(keys_ok(a, allowed));
    assert(keys_ok(d, allowed));
    assert(keys_ok(e, allowed));
    lemma_concat_keys(a, d, allowed);
    lemma_concat_keys(a + d, e, allowed);
    let f = a + d + e;
    assert forall|i: int| 0 <= i < f.len() implies {
        let k = (#[trigger] f[i]).0;
        k == "ann"@ || k == "defined"@ || k == "introduced"@
    } by {
        if i < a.len() {
            assert(f[i] == a[i]);
        } else if i < a.len() + d.len() {
            assert(f[i] == d[i - a.len()]);
        } else {
            assert(f[i] == e[i - a.len() - d.len()]);
        }
    }
}

proof fn lemma_var_keys(v: Variable)
    ensures
        key_error(type_json(v.ty) + flags_json(v.ann@, v.defined, v.introduced), var_keys()) is None,
{
    lemma_key_texts();
    let pre = type_json(v.ty);
    let fl = flags_json(v.ann@, v.defined, v.introduced);
    let f = pre + fl;
    let keys = var_keys();
    assert(keys[0] == "type"@ && keys[1] == "domain"@ && keys[2] == "ann"@ && keys[3] == "defined"@
        && keys[4] == "introduced"@);
    assert(keys_ok(pre, keys)) by {
        assert forall|i: int| 0 <= i < pre.len() implies keys.contains(#[trigger] pre[i].0) by {
            if i == 0 {
                assert(keys[0] == pre[i].0);
            } else {
                assert(keys[1] == pre[i].0);
            }
        }
    }
    lemma_flags_keys(v.ann@, v.defined, v.introduced, keys);
    assert forall|i: int, j: int| 0 <= i < pre.len() && 0 <= j < fl.len() implies pre[i].0 != fl[j].0 by {
        assert(pre[i].0 == "type"@ || pre[i].0 == "domain"@);
        let k = fl[j].0;
        assert(k == "ann"@ || k == "defined"@ || k == "introduced"@);
    }
    lemma_concat_keys(pre, fl, keys);
    lemma_keys_fine(f, keys);
}

proof fn lemma_read_var(v: Variable, n: Names)
    requires
        anns_plain(v.ann@),
        type_readable(v.ty),
    ensures
        var_spec(var_json(v), n) == (Ok::<SpecVariable, Seq<char>>(var_read(v)), n),
{
    lemma_key_texts();
    let pre = type_json(v.ty);
    let f = pre + flags_json(v.ann@, v.defined, v.introduced);
    lemma_var_keys(v);
    lemma_flags(f, pre, v.ann@, v.defined, v.introduced, n);
    lemma_key_at(f, "type"@, 0);
    match v.ty {
        Type::Int(Some(r)) => {
            lemma_key_at(f, "domain"@, 1);
            lemma_int_ranges_read(int_ranges(r));
        },
        Type::IntSet(Some(r)) => {
            lemma_key_at(f, "domain"@, 1);
            lemma_int_ranges_read(int_ranges(r));
        },
        Type::Float(Some(d)) => {
            lemma_key_at(f, "domain"@, 1);
            lemma_float_ranges_read(float_pairs_view(d@));
        },
        _ => {
            lemma_key_absent(f, "domain"@);
        },
    }
}

/// An array as it reads back.
pub open spec fn arr_read(a: Array, t: Names) -> SpecArray {
    SpecArray {
        contents: a.contents@.map_values(|l: Literal| lit_read(l, t)),
        ann: anns_sread(a.ann@),
        defined: a.defined,
        introduced: a.introduced,
    }
}

proof fn lemma_read_array(a: Array, n: Names, t: Names)
    requires
        anns_plain(a.ann@),
        forall|i: int| 0 <= i < a.contents@.len() ==> lit_readable(#[trigger] a.contents@[i], n),
        prefix_of(n, t),
    ensures
        arr_spec(array_json(a), n) == (Ok::<SpecArray, Seq<char>>(arr_read(a, t)), n),
{
    lemma_key_texts();
    let pre = seq![("a"@, lits_json(a.contents@))];
    let f = pre + flags_json(a.ann@, a.defined, a.introduced);
    let keys = seq!["a"@, "ann"@, "defined"@, "introduced"@];
    assert forall|i: int| 0 <= i < f.len() implies keys.contains(#[trigger] f[i].0) by {
        if f[i].0 == "a"@ {
            assert(keys[0] == f[i].0);
        } else if f[i].0 == "ann"@ {
            assert(keys[1] == f[i].0);
        } else if f[i].0 == "defined"@ {
            assert(keys[2] == f[i].0);
        } else {
            assert(keys[3] == f[i].0);
        }
    }
    lemma_keys_fine(f, keys);
    lemma_flags(f, pre, a.ann@, a.defined, a.introduced, n);
    lemma_key_at(f, "a"@, 0);
    lemma_read_lits(a.contents@, n, t);
}

/// A constraint argument as it reads back: a named array as the slot of its
/// name.
pub open spec fn arg_read(a: Argument<Literal>, t: Names) -> SpecArgument<SpecLiteral> {
    match a {
        Argument::Array(v) => SpecArgument::Array(v@.map_values(|l: Literal| lit_read(l, t))),
        Argument::ArrayNamed(r) => SpecArgument::Literal(SpecLiteral::Reference(slot(t, r.name@))),
        Argument::Literal(l) => SpecArgument::Literal(lit_read(l, t)),
    }
}

pub open spec fn arg_readable(a: Argument<Literal>, n: Names) -> bool {
    match a {
        Argument::Array(v) => forall|i: int| 0 <= i < v@.len() ==> lit_readable(#[trigger] v@[i], n),
        Argument::ArrayNamed(r) => n.contains(r.name@),
        Argument::Literal(l) => lit_readable(l, n),
    }
}

proof fn lemma_read_arg(a: Argument<Literal>, n: Names, t: Names)
    requires
        arg_readable(a, n),
        prefix_of(n, t),
    ensures
        arg_spec(arg_json(a), n) == (Ok::<SpecArgument<SpecLiteral>, Seq<char>>(arg_read(a, t)), n),
{
    match a {
        Argument::Array(v) => {
            lemma_read_lits(v@, n, t);
        },
        Argument::ArrayNamed(r) => {
            lemma_slot_in_prefix(n, t, r.name@);
        },
        Argument::Literal(l) => {
            lemma_read_lit(l, n, t);
        },
    }
}

proof fn lemma_read_args(v: Seq<Argument<Literal>>, n: Names, t: Names)
    requires
        forall|i: int| 0 <= i < v.len() ==> arg_readable(#[trigger] v[i], n),
        prefix_of(n, t),
    ensures
        args_spec(v.map_values(|a: Argument<Literal>| arg_json(a)), n) == (
            Ok::<Seq<SpecArgument<SpecLiteral>>, Seq<char>>(v.map_values(|a: Argument<Literal>| arg_read(a, t))),
            n,
        ),
    decreases v.len(),
{
    let items = v.map_values(|a: Argument<Literal>| arg_json(a));
    if v.len() > 0 {
        assert(arg_readable(v[0], n));
        lemma_read_arg(v[0], n, t);
        assert(items.drop_first() =~= v.drop_first().map_values(|a: Argument<Literal>| arg_json(a)));
        assert forall|i: int| 0 <= i < v.drop_first().len() implies arg_readable(#[trigger] v.drop_first()[i], n) by {
            assert(v.drop_first()[i] == v[i + 1]);
        }
        lemma_read_args(v.drop_first(), n, t);
        assert(v.map_values(|a: Argument<Literal>| arg_read(a, t)) =~= seq![arg_read(v[0], t)] + v.drop_first().map_values(
            |a: Argument<Literal>| arg_read(a, t),
        ));
    } else {
        assert(v.map_values(|a: Argument<Literal>| arg_read(a, t)) =~= Seq::<SpecArgument<SpecLiteral>>::empty());
    }
}

/// `n` is the table `t` with names added after it, all distinct.
proof fn lemma_slot_ext(t: Names, n: Names, s: Seq<char>)
    requires
        prefix_of(t, n),
        t.contains(s),
    ensures
        intern_spec(n, s) == (n, slot(t, s)),
{
    let j = t.index_of(s);
    assert(t[j] == s);
    assert(n[j] == t[j]);
    assert(n.contains(s));
    let i = n.index_of(s);
    assert(n[i] == s);
}

proof fn lemma_read_lit_ext(l: Literal, n: Names, t: Names)
    requires
        lit_readable(l, t),
        prefix_of(t, n),
    ensures
        lit_spec(lit_json(l), n) == (Ok::<SpecLiteral, Seq<char>>(lit_read(l, t)), n),
{
    lemma_key_texts();
    match l {
        Literal::Variable(v) => {
            lemma_slot_ext(t, n, v.name@);
        },
        Literal::IntSet(r) => {
            lemma_int_ranges_read(int_ranges(r));
        },
        Literal::FloatSet(v) => {
            lemma_float_ranges_read(float_pairs_view(v@));
        },
        _ => {},
    }
}

proof fn lemma_read_lits_ext(ls: Seq<Literal>, n: Names, t: Names)
    requires
        forall|i: int| 0 <= i < ls.len() ==> lit_readable(#[trigger] ls[i], t),
        prefix_of(t, n),
    ensures
        lits_spec(ls.map_values(|l: Literal| lit_json(l)), n) == (
            Ok::<Seq<SpecLiteral>, Seq<char>>(ls.map_values(|l: Literal| lit_read(l, t))),
            n,
        ),
    decreases ls.len(),
{
    let items = ls.map_values(|l: Literal| lit_json(l));
    if ls.len() > 0 {
        assert(lit_readable(ls[0], t));
        lemma_read_lit_ext(ls[0], n, t);
        assert(items.drop_first() =~= ls.drop_first().map_values(|l: Literal| lit_json(l)));
        assert forall|i: int| 0 <= i < ls.drop_first().len() implies lit_readable(#[trigger] ls.drop_first()[i], t) by {
            assert(ls.drop_first()[i] == ls[i + 1]);
        }
        lemma_read_lits_ext(ls.drop_first(), n, t);
        assert(ls.map_values(|l: Literal| lit_read(l, t)) =~= seq![lit_read(ls[0], t)] + ls.drop_first().map_values(
            |l: Literal| lit_read(l, t),
        ));
    } else {
        assert(ls.map_values(|l: Literal| lit_read(l, t)) =~= Seq::<SpecLiteral>::empty());
    }
}

proof fn lemma_read_arg_ext(a: Argument<Literal>, n: Names, t: Names)
    requires
        arg_readable(a, t),
        prefix_of(t, n),
    ensures
        arg_spec(arg_json(a), n) == (Ok::<SpecArgument<SpecLiteral>, Seq<char>>(arg_read(a, t)), n),
{
    match a {
        Argument::Array(v) => {
            lemma_read_lits_ext(v@, n, t);
        },
        Argument::ArrayNamed(r) => {
            lemma_slot_ext(t, n, r.name@);
        },
        Argument::Literal(l) => {
            lemma_read_lit_ext(l, n, t);
        },
    }
}

proof fn lemma_read_args_ext(v: Seq<Argument<Literal>>, n: Names, t: Names)
    requires
        forall|i: int| 0 <= i < v.len() ==> arg_readable(#[trigger] v[i], t),
        prefix_of(t, n),
    ensures
        args_spec(v.map_values(|a: Argument<Literal>| arg_json(a)), n) == (
            Ok::<Seq<SpecArgument<SpecLiteral>>, Seq<char>>(v.map_values(|a: Argument<Literal>| arg_read(a, t))),
            n,
        ),
    decreases v.len(),
{
    let items = v.map_values(|a: Argument<Literal>| arg_json(a));
    if v.len() > 0 {
        assert(arg_readable(v[0], t));
        lemma_read_arg_ext(v[0], n, t);
        assert(items.drop_first() =~= v.drop_first().map_values(|a: Argument<Literal>| arg_json(a)));
        assert forall|i: int| 0 <= i < v.drop_first().len() implies arg_readable(#[trigger] v.drop_first()[i], t) by {
            assert(v.drop_first()[i] == v[i + 1]);
        }
        lemma_read_args_ext(v.drop_first(), n, t);
        assert(v.map_values(|a: Argument<Literal>| arg_read(a, t)) =~= seq![arg_read(v[0], t)] + v.drop_first().map_values(
            |a: Argument<Literal>| arg_read(a, t),
        ));
    } else {
        assert(v.map_values(|a: Argument<Literal>| arg_read(a, t)) =~= Seq::<SpecArgument<SpecLiteral>>::empty());
    }
}

/// The annotations of an object read into the table `n`.
proof fn lemma_ann_entry_rd(f: Seq<(Seq<char>, SJson)>, p: int, ann: Seq<Annotation>, n: Names, x: FlatZinc)
    requires
        0 <= p,
        p + ann_entry(ann).len() <= f.len(),
        f.subrange(p, p + ann_entry(ann).len()) == ann_entry(ann),
        forall|i: int| 0 <= i < p ==> (#[trigger] f[i]).0 != "ann"@,
        ann_entry(ann).len() == 0 ==> forall|i: int| 0 <= i < f.len() ==> (#[trigger] f[i]).0 != "ann"@,
        forall|i: int| 0 <= i < ann.len() ==> ann_ok(#[trigger] ann[i], x),
    ensures
        opt_anns_spec(f, n) == (Ok::<Seq<SpecAnnotation>, Seq<char>>(anns_rd(ann, n).0), anns_rd(ann, n).1),
{
    if ann.len() > 0 {
        assert(f[p] == f.subrange(p, p + 1)[0]);
        assert(f[p] == ann_entry(ann)[0]);
        lemma_key_at(f, "ann"@, p);
        lemma_rd_anns(ann, n, x);
    } else {
        lemma_key_absent(f, "ann"@);
        assert(anns_rd(ann, n).0 =~= Seq::<SpecAnnotation>::empty());
    }
}

/// A constraint as it reads back into the table `n`: its arguments and the
/// name it defines as slots of the declarations `t`, its annotations read
/// into `n`.
pub open spec fn cons_rd(c: Constraint, t: Names, n: Names) -> (SpecConstraint, Names) {
    let r = anns_rd(c.ann@, n);
    (
        SpecConstraint {
            id: c.id@,
            args: c.args@.map_values(|a: Argument<Literal>| arg_read(a, t)),
            defines: match c.defines {
                Some(d) => Some(slot(t, named_name(d))),
                None => None,
            },
            ann: r.0,
        },
        r.1,
    )
}

pub open spec fn cons_readable(c: Constraint, x: FlatZinc) -> bool {
    &&& forall|i: int| 0 <= i < c.ann@.len() ==> ann_ok(#[trigger] c.ann@[i], x)
    &&& forall|i: int| 0 <= i < c.args@.len() ==> arg_readable(#[trigger] c.args@[i], table(x))
    &&& (c.defines matches Some(r) ==> table(x).contains(named_name(r)))
}

proof fn lemma_read_constraint(c: Constraint, n: Names, x: FlatZinc)
    requires
        cons_readable(c, x),
        prefix_of(table(x), n),
    ensures
        cons_spec(constraint_json(c), n) == (
            Ok::<SpecConstraint, Seq<char>>(cons_rd(c, table(x), n).0),
            cons_rd(c, table(x), n).1,
        ),
{
    lemma_key_texts();
    let t = table(x);
    let head = seq![
        ("id"@, SJson::Str(c.id@)),
        ("args"@, SJson::Array(c.args@.map_values(|a: Argument<Literal>| arg_json(a)))),
    ];
    let dpart: Seq<(Seq<char>, SJson)> = match c.defines {
        Some(r) => seq![("defines"@, SJson::Str(named_name(r)))],
        None => Seq::empty(),
    };
    let ae = ann_entry(c.ann@);
    let f = head + dpart + ae;
    let keys = seq!["id"@, "args"@, "defines"@, "ann"@];
    assert forall|i: int| 0 <= i < f.len() implies keys.contains(#[trigger] f[i].0) by {
        if i == 0 {
            assert(keys[0] == f[i].0);
        } else if i == 1 {
            assert(keys[1] == f[i].0);
        } else if f[i].0 == "defines"@ {
            assert(keys[2] == f[i].0);
        } else {
            assert(keys[3] == f[i].0);
        }
    }
    assert forall|i: int, j: int| 0 <= i < j < f.len() implies f[i].0 != f[j].0 by {
        if j < head.len() + dpart.len() {
        } else {
            assert(f[j] == ae[j - head.len() - dpart.len()]);
        }
    }
    lemma_keys_fine(f, keys);
    lemma_key_at(f, "id"@, 0);
    lemma_key_at(f, "args"@, 1);
    let p = (head.len() + dpart.len()) as int;
    assert(f.subrange(p, p + ae.len()) =~= ae);
    lemma_ann_entry_rd(f, p, c.ann@, n, x);
    lemma_read_args_ext(c.args@, n, t);
    match c.defines {
        Some(r) => {
            lemma_key_at(f, "defines"@, 2);
            lemma_slot_ext(t, n, named_name(r));
        },
        None => {
            lemma_key_absent(f, "defines"@);
        },
    }
}

/// A solve item as it reads back into the table `n`: its objective as a
/// literal of the declarations `t`, its annotations read into `n`.
pub open spec fn solve_rd(s: SolveObjective, t: Names, n: Names) -> SpecSolve {
    SpecSolve {
        method: match s.method {
            Method::Satisfy => SpecMethod::Satisfy,
            Method::Minimize(o) => SpecMethod::Minimize(lit_read(o, t)),
            Method::Maximize(o) => SpecMethod::Maximize(lit_read(o, t)),
        },
        ann: anns_rd(s.ann@, n).0,
    }
}

pub open spec fn solve_readable(s: SolveObjective, x: FlatZinc) -> bool {
    &&& forall|i: int| 0 <= i < s.ann@.len() ==> ann_ok(#[trigger] s.ann@[i], x)
    &&& match s.method {
        Method::Satisfy => true,
        Method::Minimize(o) => lit_readable(o, table(x)),
        Method::Maximize(o) => lit_readable(o, table(x)),
    }
}

proof fn lemma_read_solve(s: SolveObjective, n: Names, x: FlatZinc)
    requires
        solve_readable(s, x),
        prefix_of(table(x), n),
    ensures
        solve_spec(solve_json(s), n) == (
            Ok::<SpecSolve, Seq<char>>(solve_rd(s, table(x), n)),
            anns_rd(s.ann@, n).1,
        ),
{
    lemma_key_texts();
    let t = table(x);
    let pre = method_json(s.method);
    let ae = ann_entry(s.ann@);
    let f = pre + ae;
    let keys = seq!["method"@, "objective"@, "ann"@];
    assert forall|i: int| 0 <= i < f.len() implies keys.contains(#[trigger] f[i].0) by {
        if i == 0 {
            assert(keys[0] == f[i].0);
        } else if f[i].0 == "objective"@ {
            assert(keys[1] == f[i].0);
        } else {
            assert(keys[2] == f[i].0);
        }
    }
    assert forall|i: int, j: int| 0 <= i < j < f.len() implies f[i].0 != f[j].0 by {
        if j >= pre.len() {
            assert(f[j] == ae[j - pre.len()]);
        }
    }
    lemma_keys_fine(f, keys);
    lemma_key_at(f, "method"@, 0);
    let p = pre.len() as int;
    assert(f.subrange(p, p + ae.len()) =~= ae);
    lemma_ann_entry_rd(f, p, s.ann@, n, x);
    match s.method {
        Method::Satisfy => {
            lemma_key_absent(f, "objective"@);
        },
        Method::Minimize(o) => {
            lemma_key_at(f, "objective"@, 1);
            lemma_read_lit_ext(o, n, t);
        },
        Method::Maximize(o) => {
            lemma_key_at(f, "objective"@, 1);
            lemma_read_lit_ext(o, n, t);
        },
    }
}

// ----- the whole model -----

/// The variable a shared handle holds.
pub open spec fn var_of(v: Arc<Variable>) -> Variable {
    *v
}

/// The array a shared handle holds.
pub open spec fn arr_of(a: Arc<Array>) -> Array {
    *a
}

/// The names of the variables of a model, in order.
pub open spec fn var_names(x: FlatZinc) -> Names {
    x.variables@.map_values(|v: Arc<Variable>| v.name@)
}

/// The names of the arrays of a model, in order.
pub open spec fn arr_names(x: FlatZinc) -> Names {
    x.arrays@.map_values(|a: Arc<Array>| a.name@)
}

/// The name table that reading the JSON form of a model builds: the
/// variables, then the arrays.
pub open spec fn table(x: FlatZinc) -> Names {
    var_names(x) + arr_names(x)
}

/// The declarations that reading the JSON form of a model builds.
pub open spec fn decls_read(x: FlatZinc) -> Seq<SpecDeclaration> {
    x.variables@.map_values(|v: Arc<Variable>| SpecDeclaration::Variable(var_read(*v)))
        + x.arrays@.map_values(|a: Arc<Array>| SpecDeclaration::Array(arr_read(*a, table(x))))
}

/// The constraints of `x` from the `k`-th on as they read back into the
/// table `n`, with the table after.
pub open spec fn conss_rd(x: FlatZinc, k: int, n: Names) -> (Seq<SpecConstraint>, Names)
    decreases x.constraints@.len() - k,
{
    if k < 0 || k >= x.constraints@.len() {
        (Seq::empty(), n)
    } else {
        let c = cons_rd(x.constraints@[k], table(x), n);
        let r = conss_rd(x, k + 1, c.1);
        (seq![c.0] + r.0, r.1)
    }
}

/// The name table after reading the constraints: the declarations, then the
/// atoms that annotations of constraints name.
pub open spec fn names_c(x: FlatZinc) -> Names {
    conss_rd(x, 0, table(x)).1
}

/// The name table after reading the whole JSON form of a model.
pub open spec fn fin(x: FlatZinc) -> Names {
    anns_rd(x.solve.ann@, names_c(x)).1
}

/// The declarations of the final name table.
pub open spec fn dfin(x: FlatZinc) -> Seq<SpecDeclaration> {
    extend_uninit(decls_read(x), fin(x).len())
}

/// What reading the JSON form of a model gives before linking.
pub open spec fn reading_of(x: FlatZinc) -> Reading {
    Reading {
        names: fin(x),
        decls: dfin(x),
        constraints: conss_rd(x, 0, table(x)).0,
        output: x.output@.map_values(|r: NamedRef| slot(table(x), named_name(r))),
        solve: Some(solve_rd(x.solve, table(x), names_c(x))),
        version: Some(x.version@),
        seen: seq!["variables"@, "arrays"@, "constraints"@, "output"@, "solve"@, "version"@],
    }
}

/// The parts of a model that reading its JSON form needs, each read on its
/// own.
pub open spec fn readable_parts(x: FlatZinc) -> bool {
    &&& distinct_names(table(x))
    &&& forall|j: int|
        0 <= j < x.variables@.len() ==> anns_plain((#[trigger] x.variables@[j]).ann@) && type_readable(
            x.variables@[j].ty,
        )
    &&& forall|k: int|
        0 <= k < x.arrays@.len() ==> anns_plain((#[trigger] x.arrays@[k]).ann@) && forall|i: int|
            0 <= i < x.arrays@[k].contents@.len() ==> lit_readable(
                #[trigger] x.arrays@[k].contents@[i],
                var_names(x),
            )
    &&& forall|c: int| 0 <= c < x.constraints@.len() ==> cons_readable(#[trigger] x.constraints@[c], x)
    &&& forall|o: int| 0 <= o < x.output@.len() ==> table(x).contains(named_name(#[trigger] x.output@[o]))
    &&& solve_readable(x.solve, x)
}

/// `v` is one of the variables of `x`.
pub open spec fn var_declared(v: Arc<Variable>, x: FlatZinc) -> bool {
    exists|j: int| 0 <= j < x.variables@.len() && var_view(*x.variables@[j]) == var_view(*v)
}

/// `a` is one of the arrays of `x`.
pub open spec fn arr_declared(a: Arc<Array>, x: FlatZinc) -> bool {
    exists|k: int| 0 <= k < x.arrays@.len() && array_view(*x.arrays@[k]) == array_view(*a)
}

/// A literal of `x`: a variable is one of its variables, and a float set has
/// a range.
pub open spec fn lit_declared(l: Literal, x: FlatZinc) -> bool {
    match l {
        Literal::Variable(v) => var_declared(v, x),
        Literal::FloatSet(v) => v@.len() > 0,
        _ => true,
    }
}

/// A constraint argument of `x`: a named array is one of its arrays.
pub open spec fn arg_declared(a: Argument<Literal>, x: FlatZinc) -> bool {
    match a {
        Argument::Array(v) => forall|i: int| 0 <= i < v@.len() ==> lit_declared(#[trigger] v@[i], x),
        Argument::ArrayNamed(r) => arr_declared(r, x),
        Argument::Literal(l) => lit_declared(l, x),
    }
}

/// A reference of `x` to one of its variables or arrays.
pub open spec fn named_declared(r: NamedRef, x: FlatZinc) -> bool {
    match r {
        NamedRef::Variable(v) => var_declared(v, x),
        NamedRef::Array(a) => arr_declared(a, x),
    }
}

/// A model whose JSON form reads back as it is: its variables and arrays
/// have distinct names; the annotations of its variables and arrays name
/// nothing inside their calls (`ann_plain`), and those of its constraints and
/// solve item name only its own variables and arrays, or atoms that are no
/// name it declares (`ann_ok`); every variable and array it refers to is one
/// it declares; and each float domain and float set has a range.
pub open spec fn json_readable(x: FlatZinc) -> bool {
    &&& distinct_names(table(x))
    &&& forall|j: int|
        0 <= j < x.variables@.len() ==> anns_plain((#[trigger] x.variables@[j]).ann@) && type_readable(
            x.variables@[j].ty,
        )
    &&& forall|k: int|
        0 <= k < x.arrays@.len() ==> anns_plain((#[trigger] x.arrays@[k]).ann@) && forall|i: int|
            0 <= i < x.arrays@[k].contents@.len() ==> lit_declared(#[trigger] x.arrays@[k].contents@[i], x)
    &&& forall|c: int|
        0 <= c < x.constraints@.len() ==> {
            let cc = #[trigger] x.constraints@[c];
            &&& forall|i: int| 0 <= i < cc.ann@.len() ==> ann_ok(#[trigger] cc.ann@[i], x)
            &&& forall|i: int| 0 <= i < cc.args@.len() ==> arg_declared(#[trigger] cc.args@[i], x)
            &&& (cc.defines matches Some(r) ==> named_declared(r, x))
        }
    &&& forall|o: int| 0 <= o < x.output@.len() ==> named_declared(#[trigger] x.output@[o], x)
    &&& forall|i: int| 0 <= i < x.solve.ann@.len() ==> ann_ok(#[trigger] x.solve.ann@[i], x)
    &&& match x.solve.method {
        Method::Satisfy => true,
        Method::Minimize(o) => lit_declared(o, x),
        Method::Maximize(o) => lit_declared(o, x),
    }
}

proof fn lemma_var_named(v: Arc<Variable>, x: FlatZinc)
    requires
        var_declared(v, x),
    ensures
        var_names(x).contains(v.name@),
        table(x).contains(v.name@),
{
    let j = choose|j: int| 0 <= j < x.variables@.len() && var_view(*x.variables@[j]) == var_view(*v);
    assert(var_names(x)[j] == v.name@);
    assert(table(x)[j] == v.name@);
}

proof fn lemma_arr_named(a: Arc<Array>, x: FlatZinc)
    ensures
        arr_declared(a, x) ==> table(x).contains(a.name@),
{
    if arr_declared(a, x) {
        let k = choose|k: int| 0 <= k < x.arrays@.len() && array_view(*x.arrays@[k]) == array_view(*a);
        assert(table(x)[var_names(x).len() + k] == a.name@);
    }
}

proof fn lemma_lit_named(l: Literal, x: FlatZinc)
    requires
        lit_declared(l, x),
    ensures
        lit_readable(l, var_names(x)),
        lit_readable(l, table(x)),
{
    if let Literal::Variable(v) = l {
        lemma_var_named(v, x);
    }
}

proof fn lemma_named_named(r: NamedRef, x: FlatZinc)
    requires
        named_declared(r, x),
    ensures
        table(x).contains(named_name(r)),
{
    match r {
        NamedRef::Variable(v) => lemma_var_named(v, x),
        NamedRef::Array(a) => lemma_arr_named(a, x),
    }
}

/// A model whose JSON form reads back has the parts that reading needs.
proof fn lemma_parts(x: FlatZinc)
    requires
        json_readable(x),
    ensures
        readable_parts(x),
{
    assert forall|k: int, i: int|
        0 <= k < x.arrays@.len() && 0 <= i < x.arrays@[k].contents@.len() implies lit_readable(
        #[trigger] x.arrays@[k].contents@[i],
        var_names(x),
    ) by {
        lemma_lit_named(x.arrays@[k].contents@[i], x);
    }
    assert forall|c: int| 0 <= c < x.constraints@.len() implies cons_readable(
        #[trigger] x.constraints@[c],
        x,
    ) by {
        let cc = x.constraints@[c];
        assert forall|i: int| 0 <= i < cc.args@.len() implies arg_readable(#[trigger] cc.args@[i], table(x)) by {
            match cc.args@[i] {
                Argument::Array(v) => {
                    assert forall|e: int| 0 <= e < v@.len() implies lit_readable(#[trigger] v@[e], table(x)) by {
                        lemma_lit_named(v@[e], x);
                    }
                },
                Argument::ArrayNamed(r) => lemma_arr_named(r, x),
                Argument::Literal(l) => lemma_lit_named(l, x),
            }
        }
        if let Some(r) = cc.defines {
            lemma_named_named(r, x);
        }
    }
    assert forall|o: int| 0 <= o < x.output@.len() implies table(x).contains(named_name(#[trigger] x.output@[o])) by {
        lemma_named_named(x.output@[o], x);
    }
    match x.solve.method {
        Method::Minimize(o) => lemma_lit_named(o, x),
        Method::Maximize(o) => lemma_lit_named(o, x),
        _ => {},
    }
}

proof fn lemma_top_texts()
    ensures
        "variables"@ != "arrays"@,
        "variables"@ != "constraints"@,
        "variables"@ != "output"@,
        "variables"@ != "solve"@,
        "variables"@ != "version"@,
        "arrays"@ != "constraints"@,
        "arrays"@ != "output"@,
        "arrays"@ != "solve"@,
        "arrays"@ != "version"@,
        "constraints"@ != "output"@,
        "constraints"@ != "solve"@,
        "constraints"@ != "version"@,
        "output"@ != "solve"@,
        "output"@ != "version"@,
        "solve"@ != "version"@,
{
    reveal_strlit("variables");
    reveal_strlit("arrays");
    reveal_strlit("constraints");
    reveal_strlit("output");
    reveal_strlit("solve");
    reveal_strlit("version");
    assert("variables"@.len() == 9);
    assert("arrays"@.len() == 6);
    assert("constraints"@.len() == 11);
    assert("output"@.len() == 6);
    assert("solve"@.len() == 5);
    assert("version"@.len() == 7);
    assert("arrays"@[0] != "output"@[0]);
}

/// Reading the variables object from its `k`-th entry on.
proof fn lemma_read_vars(x: FlatZinc, k: int, st: Reading)
    requires
        readable_parts(x),
        0 <= k <= x.variables@.len(),
        st.names == var_names(x).take(k),
        st.decls == x.variables@.take(k).map_values(|v: Arc<Variable>| SpecDeclaration::Variable(var_read(*v))),
    ensures
        decls_spec(
            st,
            x.variables@.map_values(|v: Arc<Variable>| (v.name@, var_json(*v))).skip(k),
            false,
        ) == Ok::<Reading, Seq<char>>(
            Reading {
                names: var_names(x),
                decls: x.variables@.map_values(|v: Arc<Variable>| SpecDeclaration::Variable(var_read(*v))),
                ..st
            },
        ),
    decreases x.variables@.len() - k,
{
    let vs = x.variables@;
    let f = vs.map_values(|v: Arc<Variable>| (v.name@, var_json(*v)));
    let vn = var_names(x);
    let t = table(x);
    if k == vs.len() {
        assert(f.skip(k) =~= Seq::<(Seq<char>, SJson)>::empty());
        assert(vn.take(k) =~= vn);
        assert(vs.take(k) =~= vs);
    } else {
        let v = vs[k];
        assert(f.skip(k)[0] == (v.name@, var_json(*v)));
        assert(f.skip(k).drop_first() =~= f.skip(k + 1));
        assert(vn[k] == v.name@);
        assert(t[k] == vn[k]);
        if st.names.contains(v.name@) {
            let i = choose|i: int| 0 <= i < st.names.len() && st.names[i] == v.name@;
            assert(t[i] == vn[i]);
        }
        assert(anns_plain(vs[k].ann@) && type_readable(vs[k].ty));
        lemma_read_var(var_of(v), st.names.push(v.name@));
        let st2 = Reading {
            names: vn.take(k + 1),
            decls: vs.take(k + 1).map_values(|w: Arc<Variable>| SpecDeclaration::Variable(var_read(*w))),
            ..st
        };
        assert(st.names.push(v.name@) =~= vn.take(k + 1));
        assert(extend_uninit(st.decls, (k + 1) as nat).update(k, SpecDeclaration::Variable(var_read(var_of(v)))) =~= st2.decls);
        assert(decl_spec(st, f.skip(k)[0], false) == Ok::<Reading, Seq<char>>(st2));
        lemma_read_vars(x, k + 1, st2);
    }
}

/// Reading the arrays object from its `k`-th entry on.
proof fn lemma_read_arrs(x: FlatZinc, k: int, st: Reading)
    requires
        readable_parts(x),
        0 <= k <= x.arrays@.len(),
        st.names == var_names(x) + arr_names(x).take(k),
        st.decls == x.variables@.map_values(|v: Arc<Variable>| SpecDeclaration::Variable(var_read(*v)))
            + x.arrays@.take(k).map_values(|a: Arc<Array>| SpecDeclaration::Array(arr_read(*a, table(x)))),
    ensures
        decls_spec(
            st,
            x.arrays@.map_values(|a: Arc<Array>| (a.name@, array_json(*a))).skip(k),
            true,
        ) == Ok::<Reading, Seq<char>>(Reading { names: table(x), decls: decls_read(x), ..st }),
    decreases x.arrays@.len() - k,
{
    let vs = x.variables@;
    let as_ = x.arrays@;
    let f = as_.map_values(|a: Arc<Array>| (a.name@, array_json(*a)));
    let vn = var_names(x);
    let an = arr_names(x);
    let t = table(x);
    let vd = vs.map_values(|v: Arc<Variable>| SpecDeclaration::Variable(var_read(*v)));
    if k == as_.len() {
        assert(f.skip(k) =~= Seq::<(Seq<char>, SJson)>::empty());
        assert(an.take(k) =~= an);
        assert(as_.take(k) =~= as_);
    } else {
        let a = as_[k];
        let p = vn.len() + k;
        assert(f.skip(k)[0] == (a.name@, array_json(*a)));
        assert(f.skip(k).drop_first() =~= f.skip(k + 1));
        assert(an[k] == a.name@);
        assert(t[p] == a.name@);
        if st.names.contains(a.name@) {
            let i = choose|i: int| 0 <= i < st.names.len() && st.names[i] == a.name@;
            assert(t[i] == st.names[i]);
        }
        let n1 = st.names.push(a.name@);
        assert(n1 =~= vn + an.take(k + 1));
        assert(prefix_of(n1, t)) by {
            assert(t.subrange(0, n1.len() as int) =~= n1);
        }
        assert(anns_plain(as_[k].ann@));
        assert forall|i: int| 0 <= i < arr_of(a).contents@.len() implies lit_readable(
            #[trigger] arr_of(a).contents@[i],
            n1,
        ) by {
            assert(lit_readable(as_[k].contents@[i], vn));
            if let Literal::Variable(w) = arr_of(a).contents@[i] {
                let j = choose|j: int| 0 <= j < vn.len() && vn[j] == w.name@;
                assert(n1[j] == vn[j]);
            }
        }
        lemma_read_array(arr_of(a), n1, t);
        let st2 = Reading {
            names: vn + an.take(k + 1),
            decls: vd + as_.take(k + 1).map_values(|b: Arc<Array>| SpecDeclaration::Array(arr_read(*b, t))),
            ..st
        };
        assert(extend_uninit(st.decls, (p + 1) as nat).update(p, SpecDeclaration::Array(arr_read(arr_of(a), t)))
            =~= st2.decls);
        assert(decl_spec(st, f.skip(k)[0], true) == Ok::<Reading, Seq<char>>(st2));
        lemma_read_arrs(x, k + 1, st2);
    }
}

proof fn lemma_prefix_grow(t: Names, n: Names, m: Names)
    requires
        prefix_of(t, n),
        extends(n, m),
        distinct_names(m),
    ensures
        prefix_of(t, m),
{
    assert(m.subrange(0, t.len() as int) =~= n.subrange(0, t.len() as int));
}

proof fn lemma_extend_twice(d: Seq<SpecDeclaration>, a: nat, b: nat)
    requires
        d.len() <= a <= b,
    ensures
        extend_uninit(extend_uninit(d, a), b) == extend_uninit(d, b),
        extend_uninit(d, a).len() == a,
{
    assert(extend_uninit(extend_uninit(d, a), b) =~= extend_uninit(d, b));
}

proof fn lemma_conss_rd_grows(x: FlatZinc, k: int, n: Names)
    requires
        distinct_names(n),
        0 <= k,
    ensures
        extends(n, conss_rd(x, k, n).1),
        distinct_names(conss_rd(x, k, n).1),
    decreases x.constraints@.len() - k,
{
    if k >= x.constraints@.len() {
        lemma_extends_refl(n);
    } else {
        let c = cons_rd(x.constraints@[k], table(x), n);
        lemma_anns_rd_grows(x.constraints@[k].ann@, n);
        lemma_conss_rd_grows(x, k + 1, c.1);
        lemma_extends_trans(n, c.1, conss_rd(x, k + 1, c.1).1);
    }
}

/// The table after reading the constraints starts with the declarations; so
/// does the final table, which extends it.
proof fn lemma_tables(x: FlatZinc)
    requires
        readable_parts(x),
    ensures
        prefix_of(table(x), names_c(x)),
        prefix_of(table(x), fin(x)),
        extends(names_c(x), fin(x)),
{
    let t = table(x);
    assert(prefix_of(t, t)) by {
        assert(t.subrange(0, t.len() as int) =~= t);
    }
    lemma_conss_rd_grows(x, 0, t);
    lemma_prefix_grow(t, t, names_c(x));
    lemma_anns_rd_grows(x.solve.ann@, names_c(x));
    lemma_prefix_grow(t, names_c(x), fin(x));
}

/// Reading the constraints list from its `k`-th entry on.
proof fn lemma_read_conss(x: FlatZinc, k: int, st: Reading)
    requires
        readable_parts(x),
        0 <= k <= x.constraints@.len(),
        prefix_of(table(x), st.names),
        st.decls == extend_uninit(decls_read(x), st.names.len()),
    ensures
        cons_list_spec(st, x.constraints@.map_values(|c: Constraint| constraint_json(c)).skip(k))
            == Ok::<Reading, Seq<char>>(
            Reading {
                names: conss_rd(x, k, st.names).1,
                decls: extend_uninit(decls_read(x), conss_rd(x, k, st.names).1.len()),
                constraints: st.constraints + conss_rd(x, k, st.names).0,
                ..st
            },
        ),
    decreases x.constraints@.len() - k,
{
    let cs = x.constraints@;
    let t = table(x);
    let n = st.names;
    let items = cs.map_values(|c: Constraint| constraint_json(c));
    if k == cs.len() {
        assert(items.skip(k) =~= Seq::<SJson>::empty());
        assert(st.constraints + Seq::<SpecConstraint>::empty() =~= st.constraints);
    } else {
        assert(items.skip(k)[0] == constraint_json(cs[k]));
        assert(items.skip(k).drop_first() =~= items.skip(k + 1));
        assert(cons_readable(cs[k], x));
        lemma_read_constraint(cs[k], n, x);
        let c = cons_rd(cs[k], t, n);
        lemma_anns_rd_grows(cs[k].ann@, n);
        lemma_prefix_grow(t, n, c.1);
        assert(decls_read(x).len() == t.len());
        lemma_extend_twice(decls_read(x), n.len(), c.1.len());
        let st2 = Reading {
            names: c.1,
            decls: extend_uninit(decls_read(x), c.1.len()),
            constraints: st.constraints.push(c.0),
            ..st
        };
        lemma_read_conss(x, k + 1, st2);
        assert(st.constraints.push(c.0) + conss_rd(x, k + 1, c.1).0 =~= st.constraints + conss_rd(x, k, n).0);
    }
}

/// Reading the output list from its `k`-th entry on.
proof fn lemma_read_outs(x: FlatZinc, k: int, st: Reading)
    requires
        readable_parts(x),
        0 <= k <= x.output@.len(),
        prefix_of(table(x), st.names),
        st.decls.len() == st.names.len(),
        st.output == x.output@.take(k).map_values(|r: NamedRef| slot(table(x), named_name(r))),
    ensures
        output_spec(st, x.output@.map_values(|r: NamedRef| SJson::Str(named_name(r))).skip(k))
            == Ok::<Reading, Seq<char>>(
            Reading { output: x.output@.map_values(|r: NamedRef| slot(table(x), named_name(r))), ..st },
        ),
    decreases x.output@.len() - k,
{
    let os = x.output@;
    let t = table(x);
    let items = os.map_values(|r: NamedRef| SJson::Str(named_name(r)));
    if k == os.len() {
        assert(items.skip(k) =~= Seq::<SJson>::empty());
        assert(os.take(k) =~= os);
    } else {
        assert(items.skip(k)[0] == SJson::Str(named_name(os[k])));
        assert(items.skip(k).drop_first() =~= items.skip(k + 1));
        assert(t.contains(named_name(os[k])));
        lemma_slot_ext(t, st.names, named_name(os[k]));
        assert(extend_uninit(st.decls, st.names.len()) =~= st.decls);
        let st2 = Reading { output: os.take(k + 1).map_values(|r: NamedRef| slot(t, named_name(r))), ..st };
        assert(st.output.push(slot(t, named_name(os[k]))) =~= st2.output);
        lemma_read_outs(x, k + 1, st2);
    }
}

/// What reading the JSON form of a model has read after its first `k` entries.
pub open spec fn read_after(x: FlatZinc, k: int) -> Reading {
    let seen = seq!["variables"@, "arrays"@, "constraints"@, "output"@, "solve"@, "version"@];
    let full = reading_of(x);
    Reading {
        names: if k == 0 {
            Seq::empty()
        } else if k == 1 {
            var_names(x)
        } else if k == 2 {
            table(x)
        } else if k <= 4 {
            names_c(x)
        } else {
            full.names
        },
        decls: if k == 0 {
            Seq::empty()
        } else if k == 1 {
            x.variables@.map_values(|v: Arc<Variable>| SpecDeclaration::Variable(var_read(*v)))
        } else if k == 2 {
            decls_read(x)
        } else if k <= 4 {
            extend_uninit(decls_read(x), names_c(x).len())
        } else {
            full.decls
        },
        constraints: if k <= 2 { Seq::empty() } else { full.constraints },
        output: if k <= 3 { Seq::empty() } else { full.output },
        solve: if k <= 4 { None } else { full.solve },
        version: if k <= 5 { None } else { full.version },
        seen: seen.take(k),
    }
}

proof fn lemma_step_vars(x: FlatZinc)
    requires
        readable_parts(x),
    ensures
        top_step(read_after(x, 0), fzn_json(x)->Object_0[0]) == Ok::<Reading, Seq<char>>(read_after(x, 1)),
{
    lemma_top_texts();
    let vf = x.variables@.map_values(|v: Arc<Variable>| (v.name@, var_json(*v)));
    let s1 = Reading { seen: seq!["variables"@], ..read_after(x, 0) };
    assert(read_after(x, 0) == reading_start()) by {
        assert(read_after(x, 0).seen =~= Seq::<Seq<char>>::empty());
    }
    assert(read_after(x, 0).seen.push("variables"@) =~= s1.seen);
    assert(var_names(x).take(0) =~= Seq::<Seq<char>>::empty());
    assert(x.variables@.take(0).map_values(|v: Arc<Variable>| SpecDeclaration::Variable(var_read(*v)))
        =~= Seq::<SpecDeclaration>::empty());
    lemma_read_vars(x, 0, s1);
    assert(vf.skip(0) =~= vf);
    assert(read_after(x, 1).seen =~= seq!["variables"@]);
}

proof fn lemma_step_arrs(x: FlatZinc)
    requires
        readable_parts(x),
    ensures
        top_step(read_after(x, 1), fzn_json(x)->Object_0[1]) == Ok::<Reading, Seq<char>>(read_after(x, 2)),
{
    lemma_top_texts();
    let t = table(x);
    let af = x.arrays@.map_values(|a: Arc<Array>| (a.name@, array_json(*a)));
    let r1 = read_after(x, 1);
    assert(r1.seen =~= seq!["variables"@]);
    let s2 = Reading { seen: seq!["variables"@, "arrays"@], ..r1 };
    assert(r1.seen.push("arrays"@) =~= s2.seen);
    assert(!r1.seen.contains("arrays"@));
    lemma_read_arrs(x, 0, s2);
    assert(arr_names(x).take(0) =~= Seq::<Seq<char>>::empty());
    assert(var_names(x) + arr_names(x).take(0) =~= var_names(x));
    assert(x.arrays@.take(0) =~= Seq::<Arc<Array>>::empty());
    assert(s2.decls + x.arrays@.take(0).map_values(|a: Arc<Array>| SpecDeclaration::Array(arr_read(*a, t)))
        =~= s2.decls);
    assert(af.skip(0) =~= af);
    assert(read_after(x, 2).seen =~= s2.seen);
}

proof fn lemma_step_conss(x: FlatZinc)
    requires
        readable_parts(x),
    ensures
        top_step(read_after(x, 2), fzn_json(x)->Object_0[2]) == Ok::<Reading, Seq<char>>(read_after(x, 3)),
{
    lemma_top_texts();
    let t = table(x);
    let ci = x.constraints@.map_values(|c: Constraint| constraint_json(c));
    let r2 = read_after(x, 2);
    assert(r2.seen =~= seq!["variables"@, "arrays"@]);
    let s3 = Reading { seen: seq!["variables"@, "arrays"@, "constraints"@], ..r2 };
    assert(r2.seen.push("constraints"@) =~= s3.seen);
    assert(!r2.seen.contains("constraints"@));
    assert(ci.skip(0) =~= ci);
    assert(prefix_of(t, t)) by {
        assert(t.subrange(0, t.len() as int) =~= t);
    }
    assert(extend_uninit(decls_read(x), t.len()) =~= decls_read(x));
    lemma_read_conss(x, 0, s3);
    assert(Seq::<SpecConstraint>::empty() + conss_rd(x, 0, t).0 =~= conss_rd(x, 0, t).0);
    assert(read_after(x, 3).seen =~= s3.seen);
}

proof fn lemma_step_outs(x: FlatZinc)
    requires
        readable_parts(x),
    ensures
        top_step(read_after(x, 3), fzn_json(x)->Object_0[3]) == Ok::<Reading, Seq<char>>(read_after(x, 4)),
{
    lemma_top_texts();
    lemma_tables(x);
    let oi = x.output@.map_values(|r: NamedRef| SJson::Str(named_name(r)));
    let r3 = read_after(x, 3);
    assert(r3.seen =~= seq!["variables"@, "arrays"@, "constraints"@]);
    let s4 = Reading { seen: seq!["variables"@, "arrays"@, "constraints"@, "output"@], ..r3 };
    assert(r3.seen.push("output"@) =~= s4.seen);
    assert(!r3.seen.contains("output"@));
    assert(x.output@.take(0).map_values(|r: NamedRef| slot(table(x), named_name(r))) =~= Seq::<nat>::empty());
    assert(oi.skip(0) =~= oi);
    assert(decls_read(x).len() == table(x).len());
    lemma_extend_twice(decls_read(x), names_c(x).len(), names_c(x).len());
    lemma_read_outs(x, 0, s4);
    assert(read_after(x, 4).seen =~= s4.seen);
}

proof fn lemma_step_solve(x: FlatZinc)
    requires
        readable_parts(x),
    ensures
        top_step(read_after(x, 4), fzn_json(x)->Object_0[4]) == Ok::<Reading, Seq<char>>(read_after(x, 5)),
{
    lemma_top_texts();
    lemma_tables(x);
    let r4 = read_after(x, 4);
    assert(r4.seen =~= seq!["variables"@, "arrays"@, "constraints"@, "output"@]);
    assert(r4.seen.push("solve"@) =~= read_after(x, 5).seen);
    assert(!r4.seen.contains("solve"@));
    lemma_read_solve(x.solve, names_c(x), x);
    assert(decls_read(x).len() == table(x).len());
    lemma_extend_twice(decls_read(x), names_c(x).len(), fin(x).len());
}

proof fn lemma_step_version(x: FlatZinc)
    ensures
        top_step(read_after(x, 5), fzn_json(x)->Object_0[5]) == Ok::<Reading, Seq<char>>(read_after(x, 6)),
{
    lemma_top_texts();
    let r5 = read_after(x, 5);
    assert(r5.seen =~= seq!["variables"@, "arrays"@, "constraints"@, "output"@, "solve"@]);
    assert(r5.seen.push("version"@) =~= read_after(x, 6).seen);
    assert(!r5.seen.contains("version"@));
}

/// The JSON form of a model reads back, before linking, as `reading_of`.
#[verifier::rlimit(40)]
proof fn lemma_read_model(x: FlatZinc)
    requires
        json_readable(x),
    ensures
        fzn_json(x) matches SJson::Object(f) && top_spec(reading_start(), f) == Ok::<Reading, Seq<char>>(
            reading_of(x),
        ),
{
    let f = fzn_json(x)->Object_0;
    lemma_parts(x);
    lemma_step_vars(x);
    lemma_step_arrs(x);
    lemma_step_conss(x);
    lemma_step_outs(x);
    lemma_step_solve(x);
    lemma_step_version(x);
    assert(read_after(x, 0) == reading_start()) by {
        assert(read_after(x, 0).seen =~= Seq::<Seq<char>>::empty());
    }
    assert(read_after(x, 6) == reading_of(x)) by {
        assert(read_after(x, 6).seen =~= reading_of(x).seen);
    }
    let g5 = f.drop_first().drop_first().drop_first().drop_first().drop_first();
    assert(g5.drop_first() =~= Seq::<(Seq<char>, SJson)>::empty());
    assert(top_spec(read_after(x, 6), g5.drop_first()) == Ok::<Reading, Seq<char>>(reading_of(x)));
    assert(g5[0] == f[5]);
    assert(top_spec(read_after(x, 5), g5) == Ok::<Reading, Seq<char>>(reading_of(x)));
    let g4 = f.drop_first().drop_first().drop_first().drop_first();
    assert(g4[0] == f[4] && g4.drop_first() == g5);
    assert(top_spec(read_after(x, 4), g4) == Ok::<Reading, Seq<char>>(reading_of(x)));
    let g3 = f.drop_first().drop_first().drop_first();
    assert(g3[0] == f[3] && g3.drop_first() == g4);
    assert(top_spec(read_after(x, 3), g3) == Ok::<Reading, Seq<char>>(reading_of(x)));
    let g2 = f.drop_first().drop_first();
    assert(g2[0] == f[2] && g2.drop_first() == g3);
    assert(top_spec(read_after(x, 2), g2) == Ok::<Reading, Seq<char>>(reading_of(x)));
    let g1 = f.drop_first();
    assert(g1[0] == f[1] && g1.drop_first() == g2);
    assert(top_spec(read_after(x, 1), g1) == Ok::<Reading, Seq<char>>(reading_of(x)));
    assert(top_spec(read_after(x, 0), f) == Ok::<Reading, Seq<char>>(reading_of(x)));
}

// ----- annotations that name variables, arrays and atoms -----

/// `m` is `n` with names added at the end.
pub open spec fn extends(n: Names, m: Names) -> bool {
    &&& n.len() <= m.len()
    &&& m.subrange(0, n.len() as int) == n
}

proof fn lemma_extends_trans(a: Names, b: Names, c: Names)
    requires
        extends(a, b),
        extends(b, c),
    ensures
        extends(a, c),
{
    assert(c.subrange(0, a.len() as int) =~= b.subrange(0, a.len() as int));
}

proof fn lemma_extends_refl(a: Names)
    ensures
        extends(a, a),
{
    assert(a.subrange(0, a.len() as int) =~= a);
}

/// An annotation of `x` that reads back and links as it is: the variables
/// it names are variables of `x`, the arrays arrays of `x`, and an atom
/// inside a call is no name that `x` declares.
pub open spec fn ann_ok(a: Annotation, x: FlatZinc) -> bool
    decreases a, 2nat,
{
    match a {
        Annotation::Atom(_) => true,
        Annotation::Call(c) => call_ok(c, x),
    }
}

pub open spec fn call_ok(c: AnnotationCall, x: FlatZinc) -> bool
    decreases c, 2nat,
{
    args_ok(c, 0, x)
}

pub open spec fn args_ok(c: AnnotationCall, k: int, x: FlatZinc) -> bool
    decreases c, 1nat, c.args@.len() - k,
{
    if k < 0 || k >= c.args@.len() {
        true
    } else {
        ann_arg_ok(c.args@[k], x) && args_ok(c, k + 1, x)
    }
}

pub open spec fn ann_arg_ok(a: Argument<AnnotationLiteral>, x: FlatZinc) -> bool
    decreases a, 2nat,
{
    match a {
        Argument::Array(v) => ann_lits_ok(v, 0, x),
        Argument::ArrayNamed(r) => arr_declared(r, x),
        Argument::Literal(l) => ann_lit_ok(l, x),
    }
}

pub open spec fn ann_lits_ok(v: Vec<AnnotationLiteral>, k: int, x: FlatZinc) -> bool
    decreases v, 1nat, v@.len() - k,
{
    if k < 0 || k >= v@.len() {
        true
    } else {
        ann_lit_ok(v@[k], x) && ann_lits_ok(v, k + 1, x)
    }
}

pub open spec fn ann_lit_ok(l: AnnotationLiteral, x: FlatZinc) -> bool
    decreases l, 2nat,
{
    match l {
        AnnotationLiteral::Literal(y) => !(y is Variable) && lit_readable(y, Seq::empty()),
        AnnotationLiteral::Variable(r) => var_names(x).contains(r@),
        AnnotationLiteral::Annotation(Annotation::Atom(t)) => !table(x).contains(t@),
        AnnotationLiteral::Annotation(Annotation::Call(c)) => call_ok(c, x),
    }
}

/// An annotation as it reads back into the name table `n`, with the table
/// after.
pub open spec fn ann_rd(a: Annotation, n: Names) -> (SpecAnnotation, Names)
    decreases a, 2nat,
{
    match a {
        Annotation::Atom(t) => (SpecAnnotation::Atom(t@), n),
        Annotation::Call(c) => {
            let r = call_rd(c, n);
            (SpecAnnotation::Call(r.0), r.1)
        },
    }
}

pub open spec fn call_rd(c: AnnotationCall, n: Names) -> (SpecAnnotationCall, Names)
    decreases c, 2nat,
{
    let r = args_rd(c, 0, n);
    (SpecAnnotationCall { id: c.id@, args: r.0 }, r.1)
}

pub open spec fn args_rd(c: AnnotationCall, k: int, n: Names) -> (Seq<SpecArgument<SpecAnnotationLiteral>>, Names)
    decreases c, 1nat, c.args@.len() - k,
{
    if k < 0 || k >= c.args@.len() {
        (Seq::empty(), n)
    } else {
        let a = ann_arg_rd(c.args@[k], n);
        let r = args_rd(c, k + 1, a.1);
        (seq![a.0] + r.0, r.1)
    }
}

pub open spec fn ann_arg_rd(a: Argument<AnnotationLiteral>, n: Names) -> (SpecArgument<SpecAnnotationLiteral>, Names)
    decreases a, 2nat,
{
    match a {
        Argument::Array(v) => {
            let r = lits_rd(v, 0, n);
            (SpecArgument::Array(r.0), r.1)
        },
        Argument::ArrayNamed(r) => (
            SpecArgument::Literal(SpecAnnotationLiteral::Literal(SpecLiteral::Reference(intern_spec(n, r.name@).1))),
            intern_spec(n, r.name@).0,
        ),
        Argument::Literal(l) => {
            let r = ann_lit_rd(l, n);
            (SpecArgument::Literal(r.0), r.1)
        },
    }
}

pub open spec fn lits_rd(v: Vec<AnnotationLiteral>, k: int, n: Names) -> (Seq<SpecAnnotationLiteral>, Names)
    decreases v, 1nat, v@.len() - k,
{
    if k < 0 || k >= v@.len() {
        (Seq::empty(), n)
    } else {
        let a = ann_lit_rd(v@[k], n);
        let r = lits_rd(v, k + 1, a.1);
        (seq![a.0] + r.0, r.1)
    }
}

pub open spec fn ann_lit_rd(l: AnnotationLiteral, n: Names) -> (SpecAnnotationLiteral, Names)
    decreases l, 2nat,
{
    match l {
        AnnotationLiteral::Literal(y) => (SpecAnnotationLiteral::Literal(lit_read(y, Seq::empty())), n),
        AnnotationLiteral::Variable(r) => (
            SpecAnnotationLiteral::Literal(SpecLiteral::Reference(intern_spec(n, r@).1)),
            intern_spec(n, r@).0,
        ),
        AnnotationLiteral::Annotation(Annotation::Atom(t)) => (
            SpecAnnotationLiteral::Literal(SpecLiteral::Reference(intern_spec(n, t@).1)),
            intern_spec(n, t@).0,
        ),
        AnnotationLiteral::Annotation(Annotation::Call(c)) => {
            let r = call_rd(c, n);
            (SpecAnnotationLiteral::Annotation(r.0), r.1)
        },
    }
}

/// A list of annotations as it reads back into the name table `n`.
pub open spec fn anns_rd(v: Seq<Annotation>, n: Names) -> (Seq<SpecAnnotation>, Names)
    decreases v.len(),
{
    if v.len() == 0 {
        (Seq::empty(), n)
    } else {
        let a = ann_rd(v[0], n);
        let r = anns_rd(v.drop_first(), a.1);
        (seq![a.0] + r.0, r.1)
    }
}

proof fn lemma_intern_grows(n: Names, t: Seq<char>)
    requires
        distinct_names(n),
    ensures
        extends(n, intern_spec(n, t).0),
        distinct_names(intern_spec(n, t).0),
        intern_spec(n, t).0[intern_spec(n, t).1 as int] == t,
        intern_spec(n, t).1 < intern_spec(n, t).0.len(),
{
    crate::names::lemma_intern_keeps(n, t);
}

proof fn lemma_ann_rd_grows(a: Annotation, n: Names)
    requires
        distinct_names(n),
    ensures
        extends(n, ann_rd(a, n).1),
        distinct_names(ann_rd(a, n).1),
    decreases a, 2nat,
{
    match a {
        Annotation::Atom(_) => lemma_extends_refl(n),
        Annotation::Call(c) => lemma_call_rd_grows(c, n),
    }
}

proof fn lemma_call_rd_grows(c: AnnotationCall, n: Names)
    requires
        distinct_names(n),
    ensures
        extends(n, call_rd(c, n).1),
        distinct_names(call_rd(c, n).1),
    decreases c, 2nat,
{
    lemma_args_rd_grows(c, 0, n);
}

proof fn lemma_args_rd_grows(c: AnnotationCall, k: int, n: Names)
    requires
        distinct_names(n),
        0 <= k,
    ensures
        extends(n, args_rd(c, k, n).1),
        distinct_names(args_rd(c, k, n).1),
    decreases c, 1nat, c.args@.len() - k,
{
    if k >= c.args@.len() {
        lemma_extends_refl(n);
    } else {
        assert(decreases_to!(c => c.args));
        assert(decreases_to!(c.args => c.args@));
        assert(decreases_to!(c.args@ => c.args@[k]));
        lemma_ann_arg_rd_grows(c.args@[k], n);
        let a = ann_arg_rd(c.args@[k], n);
        lemma_args_rd_grows(c, k + 1, a.1);
        lemma_extends_trans(n, a.1, args_rd(c, k + 1, a.1).1);
    }
}

proof fn lemma_ann_arg_rd_grows(a: Argument<AnnotationLiteral>, n: Names)
    requires
        distinct_names(n),
    ensures
        extends(n, ann_arg_rd(a, n).1),
        distinct_names(ann_arg_rd(a, n).1),
    decreases a, 2nat,
{
    match a {
        Argument::Array(v) => lemma_lits_rd_grows(v, 0, n),
        Argument::ArrayNamed(r) => lemma_intern_grows(n, r.name@),
        Argument::Literal(l) => lemma_ann_lit_rd_grows(l, n),
    }
}

proof fn lemma_lits_rd_grows(v: Vec<AnnotationLiteral>, k: int, n: Names)
    requires
        distinct_names(n),
        0 <= k,
    ensures
        extends(n, lits_rd(v, k, n).1),
        distinct_names(lits_rd(v, k, n).1),
    decreases v, 1nat, v@.len() - k,
{
    if k >= v@.len() {
        lemma_extends_refl(n);
    } else {
        assert(decreases_to!(v => v@));
        assert(decreases_to!(v@ => v@[k]));
        lemma_ann_lit_rd_grows(v@[k], n);
        let a = ann_lit_rd(v@[k], n);
        lemma_lits_rd_grows(v, k + 1, a.1);
        lemma_extends_trans(n, a.1, lits_rd(v, k + 1, a.1).1);
    }
}

proof fn lemma_ann_lit_rd_grows(l: AnnotationLiteral, n: Names)
    requires
        distinct_names(n),
    ensures
        extends(n, ann_lit_rd(l, n).1),
        distinct_names(ann_lit_rd(l, n).1),
    decreases l, 2nat,
{
    match l {
        AnnotationLiteral::Literal(_) => lemma_extends_refl(n),
        AnnotationLiteral::Variable(r) => lemma_intern_grows(n, r@),
        AnnotationLiteral::Annotation(Annotation::Atom(t)) => lemma_intern_grows(n, t@),
        AnnotationLiteral::Annotation(Annotation::Call(c)) => lemma_call_rd_grows(c, n),
    }
}

proof fn lemma_anns_rd_grows(v: Seq<Annotation>, n: Names)
    requires
        distinct_names(n),
    ensures
        extends(n, anns_rd(v, n).1),
        distinct_names(anns_rd(v, n).1),
    decreases v.len(),
{
    if v.len() == 0 {
        lemma_extends_refl(n);
    } else {
        lemma_ann_rd_grows(v[0], n);
        let a = ann_rd(v[0], n);
        lemma_anns_rd_grows(v.drop_first(), a.1);
        lemma_extends_trans(n, a.1, anns_rd(v.drop_first(), a.1).1);
    }
}

proof fn lemma_rd_ann(a: Annotation, n: Names, x: FlatZinc)
    requires
        ann_ok(a, x),
    ensures
        ann_spec(ann_json(a), n) == (Ok::<SpecAnnotation, Seq<char>>(ann_rd(a, n).0), ann_rd(a, n).1),
    decreases a, 2nat,
{
    if let Annotation::Call(c) = a {
        lemma_rd_call(c, n, x);
    }
}

proof fn lemma_rd_call(c: AnnotationCall, n: Names, x: FlatZinc)
    requires
        call_ok(c, x),
    ensures
        call_spec(call_json(c), n) == (Ok::<SpecAnnotationCall, Seq<char>>(call_rd(c, n).0), call_rd(c, n).1),
    decreases c, 2nat,
{
    lemma_key_texts();
    let f = seq![("id"@, SJson::Str(c.id@)), ("args"@, SJson::Array(call_args_json(c)))];
    let keys = seq!["id"@, "args"@];
    assert forall|i: int| 0 <= i < f.len() implies keys.contains(#[trigger] f[i].0) by {
        if i == 0 {
            assert(keys[0] == f[i].0);
        } else {
            assert(keys[1] == f[i].0);
        }
    }
    lemma_keys_fine(f, keys);
    lemma_key_at(f, "id"@, 0);
    lemma_key_at(f, "args"@, 1);
    lemma_rd_args_from(c, 0, n, x);
    assert(call_args_json(c).skip(0) =~= call_args_json(c));
}

proof fn lemma_rd_args_from(c: AnnotationCall, k: int, n: Names, x: FlatZinc)
    requires
        args_ok(c, k, x),
        0 <= k <= c.args@.len(),
    ensures
        ann_args_spec(call_args_json(c).skip(k), n) == (
            Ok::<Seq<SpecArgument<SpecAnnotationLiteral>>, Seq<char>>(args_rd(c, k, n).0),
            args_rd(c, k, n).1,
        ),
    decreases c, 1nat, c.args@.len() - k,
{
    let items = call_args_json(c);
    if k < c.args@.len() {
        assert(items.skip(k)[0] == ann_arg_json(c.args@[k]));
        assert(items.skip(k).drop_first() =~= items.skip(k + 1));
        assert(decreases_to!(c => c.args));
        assert(decreases_to!(c.args => c.args@));
        assert(decreases_to!(c.args@ => c.args@[k]));
        lemma_rd_ann_arg(c.args@[k], n, x);
        let a = ann_arg_rd(c.args@[k], n);
        lemma_rd_args_from(c, k + 1, a.1, x);
    } else {
        assert(items.skip(k) =~= Seq::<SJson>::empty());
    }
}

proof fn lemma_rd_ann_arg(a: Argument<AnnotationLiteral>, n: Names, x: FlatZinc)
    requires
        ann_arg_ok(a, x),
    ensures
        ann_arg_spec(ann_arg_json(a), n) == (
            Ok::<SpecArgument<SpecAnnotationLiteral>, Seq<char>>(ann_arg_rd(a, n).0),
            ann_arg_rd(a, n).1,
        ),
    decreases a, 2nat,
{
    match a {
        Argument::Array(v) => {
            lemma_rd_lits_from(v, 0, n, x);
            assert(ann_lits_json(v).skip(0) =~= ann_lits_json(v));
        },
        Argument::ArrayNamed(_) => {},
        Argument::Literal(l) => {
            lemma_rd_ann_lit(l, n, x);
        },
    }
}

proof fn lemma_rd_lits_from(v: Vec<AnnotationLiteral>, k: int, n: Names, x: FlatZinc)
    requires
        ann_lits_ok(v, k, x),
        0 <= k <= v@.len(),
    ensures
        ann_lits_spec(ann_lits_json(v).skip(k), n) == (
            Ok::<Seq<SpecAnnotationLiteral>, Seq<char>>(lits_rd(v, k, n).0),
            lits_rd(v, k, n).1,
        ),
    decreases v, 1nat, v@.len() - k,
{
    let items = ann_lits_json(v);
    if k < v@.len() {
        assert(items.skip(k)[0] == ann_lit_json(v@[k]));
        assert(items.skip(k).drop_first() =~= items.skip(k + 1));
        assert(decreases_to!(v => v@));
        assert(decreases_to!(v@ => v@[k]));
        lemma_rd_ann_lit(v@[k], n, x);
        let a = ann_lit_rd(v@[k], n);
        lemma_rd_lits_from(v, k + 1, a.1, x);
    } else {
        assert(items.skip(k) =~= Seq::<SJson>::empty());
    }
}

proof fn lemma_rd_ann_lit(l: AnnotationLiteral, n: Names, x: FlatZinc)
    requires
        ann_lit_ok(l, x),
    ensures
        ann_lit_spec(ann_lit_json(l), n) == (Ok::<SpecAnnotationLiteral, Seq<char>>(ann_lit_rd(l, n).0), ann_lit_rd(l, n).1),
    decreases l, 2nat,
{
    lemma_key_texts();
    match l {
        AnnotationLiteral::Literal(y) => {
            lemma_read_plain_lit(y, n);
            if lit_json(y) is Object {
                assert(lit_json(y)->Object_0.len() == 1);
                assert(lit_json(y) != SJson::Object(Seq::empty()));
            }
        },
        AnnotationLiteral::Annotation(Annotation::Call(c)) => {
            lemma_rd_call(c, n, x);
            assert(call_json(c) != SJson::Object(Seq::empty())) by {
                assert(call_json(c)->Object_0.len() == 2);
            }
        },
        _ => {},
    }
}

proof fn lemma_rd_anns(v: Seq<Annotation>, n: Names, x: FlatZinc)
    requires
        forall|i: int| 0 <= i < v.len() ==> ann_ok(#[trigger] v[i], x),
    ensures
        anns_spec(v.map_values(|a: Annotation| ann_json(a)), n) == (
            Ok::<Seq<SpecAnnotation>, Seq<char>>(anns_rd(v, n).0),
            anns_rd(v, n).1,
        ),
    decreases v.len(),
{
    let items = v.map_values(|a: Annotation| ann_json(a));
    if v.len() > 0 {
        assert(ann_ok(v[0], x));
        lemma_rd_ann(v[0], n, x);
        assert(items.drop_first() =~= v.drop_first().map_values(|a: Annotation| ann_json(a)));
        assert forall|i: int| 0 <= i < v.drop_first().len() implies ann_ok(#[trigger] v.drop_first()[i], x) by {
            assert(v.drop_first()[i] == v[i + 1]);
        }
        let a = ann_rd(v[0], n);
        lemma_rd_anns(v.drop_first(), a.1, x);
    }
}

// ----- linking what was read -----

/// The declaration that slot `j` of the table of `x` links to.
pub open spec fn target(x: FlatZinc, j: int) -> PNamed {
    if j < x.variables@.len() {
        PNamed::Variable(var_view(*x.variables@[j]))
    } else {
        PNamed::Array(array_view(*x.arrays@[j - x.variables@.len()]))
    }
}

/// The state has the size of the table of `x`, and the declarations of its
/// first `i` slots built as `x` has them.
pub open spec fn built(st: LinkState, x: FlatZinc, i: int) -> bool {
    &&& !st.self_ref
    &&& st.entries.len() == fin(x).len()
    &&& st.memo.len() == fin(x).len()
    &&& st.in_progress.len() == fin(x).len()
    &&& forall|j: int| 0 <= j < i && j < table(x).len() ==> st.memo[j] == Some(#[trigger] target(x, j))
}

/// Beyond `built`, the slots from `i` on are as linking starts them, and
/// each slot after the declarations is the atom of its name.
pub open spec fn fresh_from(st: LinkState, x: FlatZinc, i: int) -> bool {
    &&& built(st, x, i)
    &&& !st.self_ref
    &&& st.atoms == fin(x)
    &&& forall|j: int|
        table(x).len() <= j < fin(x).len() ==> (#[trigger] st.memo[j]) is None && !st.in_progress[j]
            && st.entries[j] == (fin(x)[j], SpecDeclaration::Uninit)
    &&& forall|j: int|
        i <= j < table(x).len() ==> (#[trigger] st.memo[j]) is None && !st.in_progress[j] && st.entries[j] == (
            table(x)[j],
            decls_read(x)[j],
        )
}

proof fn lemma_type_back(t: Type)
    ensures
        link_type(type_read(t)) == type_view(t),
{
}

proof fn lemma_lit_back(st: LinkState, l: Literal, x: FlatZinc, depth: nat)
    requires
        readable_parts(x),
        built(st, x, x.variables@.len() as int),
        lit_declared(l, x),
    ensures
        link_lit(st, lit_read(l, table(x)), fin(x).len(), depth) == (Ok::<PLit, SpecLinkError>(lit_view(l)), st),
{
    lemma_tables(x);
    if let Literal::Variable(v) = l {
        let j = choose|j: int| 0 <= j < x.variables@.len() && var_view(*x.variables@[j]) == var_view(*v);
        assert(table(x)[j] == v.name@);
        lemma_slot_at(table(x), j);
        assert(st.memo[j] == Some(target(x, j)));
    }
}

proof fn lemma_lits_back(st: LinkState, ls: Seq<Literal>, x: FlatZinc, depth: nat)
    requires
        readable_parts(x),
        built(st, x, x.variables@.len() as int),
        forall|i: int| 0 <= i < ls.len() ==> lit_declared(#[trigger] ls[i], x),
    ensures
        link_lits(st, ls.map_values(|l: Literal| lit_read(l, table(x))), fin(x).len(), depth) == (
            Ok::<Seq<PLit>, SpecLinkError>(ls.map_values(|l: Literal| lit_view(l))),
            st,
        ),
    decreases ls.len(),
{
    lemma_tables(x);
    let t = table(x);
    let v = ls.map_values(|l: Literal| lit_read(l, t));
    if ls.len() > 0 {
        assert(lit_declared(ls[0], x));
        lemma_lit_back(st, ls[0], x, depth);
        assert(v[0] == lit_read(ls[0], t));
        assert(v.drop_first() =~= ls.drop_first().map_values(|l: Literal| lit_read(l, t)));
        assert forall|i: int| 0 <= i < ls.drop_first().len() implies lit_declared(#[trigger] ls.drop_first()[i], x) by {
            assert(ls.drop_first()[i] == ls[i + 1]);
        }
        lemma_lits_back(st, ls.drop_first(), x, depth);
        assert(ls.map_values(|l: Literal| lit_view(l)) =~= seq![lit_view(ls[0])] + ls.drop_first().map_values(
            |l: Literal| lit_view(l),
        ));
    } else {
        assert(ls.map_values(|l: Literal| lit_view(l)) =~= Seq::<PLit>::empty());
    }
}

/// Resolving the next variable slot builds it as `x` has it.
proof fn lemma_build_var(st: LinkState, x: FlatZinc, i: int)
    requires
        readable_parts(x),
        fresh_from(st, x, i),
        0 <= i < x.variables@.len(),
    ensures
        resolve(st, i as nat, fin(x).len(), 0).0 == Ok::<PNamed, SpecLinkError>(target(x, i)),
        fresh_from(resolve(st, i as nat, fin(x).len(), 0).1, x, i + 1),
{
    lemma_tables(x);
    let t = table(x);
    let v = x.variables@[i];
    assert(decls_read(x)[i] == SpecDeclaration::Variable(var_read(*v)));
    assert(st.memo[i] is None);
    assert(st.entries[i] == (t[i], decls_read(x)[i]));
    assert(t[i] == v.name@);
    lemma_type_back(var_of(v).ty);
    let st1 = LinkState {
        entries: st.entries.update(i, (Seq::empty(), SpecDeclaration::Uninit)),
        in_progress: st.in_progress.update(i, true),
        ..st
    };
    assert(anns_plain(var_of(v).ann@));
    lemma_link_anns_plain(st1, var_of(v).ann@, fin(x).len(), 1);
    assert(var_view(*v).ann =~= var_of(v).ann@.map_values(|b: Annotation| ann_view(b)));
    let r = resolve(st, i as nat, fin(x).len(), 0);
    assert(r.0 == Ok::<PNamed, SpecLinkError>(target(x, i)));
    assert forall|j: int| 0 <= j < i + 1 && j < t.len() implies r.1.memo[j] == Some(#[trigger] target(x, j)) by {
        if j < i {
            assert(st.memo[j] == Some(target(x, j)));
        }
    }
    assert forall|j: int| i + 1 <= j < t.len() implies (#[trigger] r.1.memo[j]) is None && !r.1.in_progress[j]
        && r.1.entries[j] == (t[j], decls_read(x)[j]) by {
        assert(st.memo[j] is None);
    }
}

/// Resolving the next array slot builds it as `x` has it.
proof fn lemma_build_arr(st: LinkState, x: FlatZinc, i: int)
    requires
        readable_parts(x),
        json_readable(x),
        fresh_from(st, x, i),
        x.variables@.len() <= i < table(x).len(),
    ensures
        resolve(st, i as nat, fin(x).len(), 0).0 == Ok::<PNamed, SpecLinkError>(target(x, i)),
        fresh_from(resolve(st, i as nat, fin(x).len(), 0).1, x, i + 1),
{
    lemma_tables(x);
    let t = table(x);
    let nv = x.variables@.len() as int;
    let k = i - nv;
    let a = x.arrays@[k];
    assert(decls_read(x)[i] == SpecDeclaration::Array(arr_read(*a, t)));
    assert(st.memo[i] is None);
    assert(st.entries[i] == (t[i], decls_read(x)[i]));
    assert(t[i] == a.name@);
    let st1 = LinkState {
        entries: st.entries.update(i, (Seq::empty(), SpecDeclaration::Uninit)),
        in_progress: st.in_progress.update(i, true),
        ..st
    };
    assert(built(st1, x, nv));
    lemma_lits_back(st1, arr_of(a).contents@, x, 1);
    assert(array_view(*a).contents =~= arr_of(a).contents@.map_values(|l: Literal| lit_view(l)));
    assert(anns_plain(arr_of(a).ann@));
    lemma_link_anns_plain(st1, arr_of(a).ann@, fin(x).len(), 1);
    assert(array_view(*a).ann =~= arr_of(a).ann@.map_values(|b: Annotation| ann_view(b)));
    let r = resolve(st, i as nat, fin(x).len(), 0);
    assert(r.0 == Ok::<PNamed, SpecLinkError>(target(x, i)));
    assert forall|j: int| 0 <= j < i + 1 && j < t.len() implies r.1.memo[j] == Some(#[trigger] target(x, j)) by {
        if j < i {
            assert(st.memo[j] == Some(target(x, j)));
        }
    }
    assert forall|j: int| i + 1 <= j < t.len() implies (#[trigger] r.1.memo[j]) is None && !r.1.in_progress[j]
        && r.1.entries[j] == (t[j], decls_read(x)[j]) by {
        assert(st.memo[j] is None);
    }
}

proof fn lemma_vars_skip_arrays(st: LinkState, x: FlatZinc, i: int)
    requires
        x.variables@.len() <= i <= fin(x).len(),
        table(x).len() <= fin(x).len(),
    ensures
        link_variables(st, dfin(x), i as nat, fin(x).len()) == (
            Ok::<Seq<PVar>, SpecLinkError>(Seq::empty()),
            st,
        ),
    decreases fin(x).len() - i,
{
    if i < fin(x).len() {
        assert(!(dfin(x)[i] is Variable));
        lemma_vars_skip_arrays(st, x, i + 1);
    }
}

proof fn lemma_link_vars(st: LinkState, x: FlatZinc, i: int)
    requires
        readable_parts(x),
        fresh_from(st, x, i),
        0 <= i <= x.variables@.len(),
    ensures
        link_variables(st, dfin(x), i as nat, fin(x).len()).0 == Ok::<Seq<PVar>, SpecLinkError>(
            x.variables@.skip(i).map_values(|v: Arc<Variable>| var_view(*v)),
        ),
        fresh_from(link_variables(st, dfin(x), i as nat, fin(x).len()).1, x, x.variables@.len() as int),
    decreases x.variables@.len() - i,
{
    lemma_tables(x);
    let nv = x.variables@.len() as int;
    if i == nv {
        lemma_vars_skip_arrays(st, x, i);
        assert(x.variables@.skip(i).map_values(|v: Arc<Variable>| var_view(*v)) =~= Seq::<PVar>::empty());
    } else {
        assert(dfin(x)[i] is Variable);
        lemma_build_var(st, x, i);
        let r = resolve(st, i as nat, fin(x).len(), 0);
        lemma_link_vars(r.1, x, i + 1);
        assert(x.variables@.skip(i).map_values(|v: Arc<Variable>| var_view(*v)) =~= seq![var_view(*x.variables@[i])]
            + x.variables@.skip(i + 1).map_values(|v: Arc<Variable>| var_view(*v)));
    }
}

proof fn lemma_arrs_skip_vars(st: LinkState, x: FlatZinc, i: int)
    requires
        0 <= i <= x.variables@.len(),
    ensures
        link_arrays(st, dfin(x), i as nat, fin(x).len()) == link_arrays(
            st,
            dfin(x),
            x.variables@.len(),
            fin(x).len(),
        ),
    decreases x.variables@.len() - i,
{
    if i < x.variables@.len() {
        assert(dfin(x)[i] is Variable);
        lemma_arrs_skip_vars(st, x, i + 1);
    }
}

proof fn lemma_arrs_skip_tail(st: LinkState, x: FlatZinc, i: int)
    requires
        table(x).len() <= i <= fin(x).len(),
    ensures
        link_arrays(st, dfin(x), i as nat, fin(x).len()) == (Ok::<Seq<PArray>, SpecLinkError>(Seq::empty()), st),
    decreases fin(x).len() - i,
{
    if i < fin(x).len() {
        assert(dfin(x)[i] is Uninit);
        lemma_arrs_skip_tail(st, x, i + 1);
    }
}

proof fn lemma_link_arrs(st: LinkState, x: FlatZinc, i: int)
    requires
        readable_parts(x),
        json_readable(x),
        fresh_from(st, x, i),
        x.variables@.len() <= i <= table(x).len(),
    ensures
        link_arrays(st, dfin(x), i as nat, fin(x).len()).0 == Ok::<Seq<PArray>, SpecLinkError>(
            x.arrays@.skip(i - x.variables@.len()).map_values(|a: Arc<Array>| array_view(*a)),
        ),
        fresh_from(link_arrays(st, dfin(x), i as nat, fin(x).len()).1, x, table(x).len() as int),
    decreases table(x).len() - i,
{
    lemma_tables(x);
    let nv = x.variables@.len() as int;
    if i == table(x).len() {
        lemma_arrs_skip_tail(st, x, i);
        assert(x.arrays@.skip(i - nv).map_values(|a: Arc<Array>| array_view(*a)) =~= Seq::<PArray>::empty());
    } else {
        assert(dfin(x)[i] is Array);
        lemma_build_arr(st, x, i);
        let r = resolve(st, i as nat, fin(x).len(), 0);
        lemma_link_arrs(r.1, x, i + 1);
        assert(x.arrays@.skip(i - nv).map_values(|a: Arc<Array>| array_view(*a)) =~= seq![
            array_view(*x.arrays@[i - nv]),
        ] + x.arrays@.skip(i + 1 - nv).map_values(|a: Arc<Array>| array_view(*a)));
    }
}

proof fn lemma_built_less(st: LinkState, x: FlatZinc, i: int, j: int)
    requires
        built(st, x, i),
        0 <= j <= i,
    ensures
        built(st, x, j),
{
}

proof fn lemma_named_back(st: LinkState, r: NamedRef, x: FlatZinc, depth: nat)
    requires
        readable_parts(x),
        built(st, x, table(x).len() as int),
        named_declared(r, x),
    ensures
        resolve(st, slot(table(x), named_name(r)), fin(x).len(), depth) == (Ok::<PNamed, SpecLinkError>(r@), st),
{
    lemma_tables(x);
    let t = table(x);
    let nv = x.variables@.len() as int;
    match r {
        NamedRef::Variable(v) => {
            let j = choose|j: int| 0 <= j < x.variables@.len() && var_view(*x.variables@[j]) == var_view(*v);
            assert(t[j] == v.name@);
            lemma_slot_at(t, j);
            assert(st.memo[j] == Some(target(x, j)));
        },
        NamedRef::Array(a) => {
            let k = choose|k: int| 0 <= k < x.arrays@.len() && array_view(*x.arrays@[k]) == array_view(*a);
            assert(t[nv + k] == a.name@);
            lemma_slot_at(t, nv + k);
            assert(st.memo[nv + k] == Some(target(x, nv + k)));
        },
    }
}

proof fn lemma_con_arg_back(st: LinkState, a: Argument<Literal>, x: FlatZinc)
    requires
        readable_parts(x),
        built(st, x, table(x).len() as int),
        arg_declared(a, x),
    ensures
        link_con_arg(st, arg_read(a, table(x)), fin(x).len(), 0) == (Ok::<PArg<PLit>, SpecLinkError>(a@), st),
{
    let t = table(x);
    lemma_built_less(st, x, t.len() as int, x.variables@.len() as int);
    match a {
        Argument::Array(v) => {
            lemma_lits_back(st, v@, x, 0);
            assert(v@.map_values(|l: Literal| lit_view(l)) =~= views(v@));
        },
        Argument::ArrayNamed(r) => {
            lemma_named_back(st, NamedRef::Array(r), x, 0);
        },
        Argument::Literal(l) => {
            match l {
                Literal::Variable(v) => {
                    lemma_named_back(st, NamedRef::Variable(v), x, 0);
                },
                _ => {
                    lemma_lit_back(st, l, x, 0);
                },
            }
        },
    }
}

proof fn lemma_con_args_back(st: LinkState, v: Seq<Argument<Literal>>, x: FlatZinc)
    requires
        readable_parts(x),
        built(st, x, table(x).len() as int),
        forall|i: int| 0 <= i < v.len() ==> arg_declared(#[trigger] v[i], x),
    ensures
        link_con_args(st, v.map_values(|a: Argument<Literal>| arg_read(a, table(x))), fin(x).len(), 0) == (
            Ok::<Seq<PArg<PLit>>, SpecLinkError>(views(v)),
            st,
        ),
    decreases v.len(),
{
    let t = table(x);
    let w = v.map_values(|a: Argument<Literal>| arg_read(a, t));
    if v.len() > 0 {
        assert(arg_declared(v[0], x));
        lemma_con_arg_back(st, v[0], x);
        assert(w[0] == arg_read(v[0], t));
        assert(w.drop_first() =~= v.drop_first().map_values(|a: Argument<Literal>| arg_read(a, t)));
        assert forall|i: int| 0 <= i < v.drop_first().len() implies arg_declared(#[trigger] v.drop_first()[i], x) by {
            assert(v.drop_first()[i] == v[i + 1]);
        }
        lemma_con_args_back(st, v.drop_first(), x);
        assert(views(v) =~= seq![v[0]@] + views(v.drop_first()));
    } else {
        assert(views(v) =~= Seq::<PArg<PLit>>::empty());
    }
}

/// Once every declaration is built, the state is one in which annotations
/// that name things link.
proof fn lemma_ext(st: LinkState, x: FlatZinc)
    requires
        readable_parts(x),
        fresh_from(st, x, table(x).len() as int),
    ensures
        ext(st, x, fin(x)),
{
    lemma_tables(x);
    assert forall|j: int| table(x).len() <= j < fin(x).len() implies (#[trigger] st.memo[j]) is None
        && !st.in_progress[j] && st.entries[j].1 is Uninit && st.entries[j].0 == fin(x)[j] by {}
}

proof fn lemma_constraint_back(st: LinkState, c: Constraint, n: Names, x: FlatZinc)
    requires
        readable_parts(x),
        built(st, x, table(x).len() as int),
        ext(st, x, fin(x)),
        forall|i: int| 0 <= i < c.ann@.len() ==> ann_ok(#[trigger] c.ann@[i], x),
        forall|i: int| 0 <= i < c.args@.len() ==> arg_declared(#[trigger] c.args@[i], x),
        c.defines matches Some(r) ==> named_declared(r, x),
        distinct_names(n),
        extends(cons_rd(c, table(x), n).1, fin(x)),
    ensures
        link_constraint(st, cons_rd(c, table(x), n).0, fin(x).len()) == (Ok::<PConstraint, SpecLinkError>(c@), st),
{
    lemma_con_args_back(st, c.args@, x);
    if let Some(r) = c.defines {
        lemma_named_back(st, r, x, 0);
    }
    lemma_link_rd_anns(st, c.ann@, n, x, fin(x), 0);
    assert(views(c.ann@) =~= c.ann@.map_values(|b: Annotation| ann_view(b)));
}

proof fn lemma_constraints_back(st: LinkState, x: FlatZinc, k: int, n: Names)
    requires
        readable_parts(x),
        json_readable(x),
        built(st, x, table(x).len() as int),
        ext(st, x, fin(x)),
        0 <= k <= x.constraints@.len(),
        distinct_names(n),
        extends(conss_rd(x, k, n).1, fin(x)),
    ensures
        link_constraints(st, conss_rd(x, k, n).0, fin(x).len()) == (
            Ok::<Seq<PConstraint>, SpecLinkError>(views(x.constraints@.skip(k))),
            st,
        ),
    decreases x.constraints@.len() - k,
{
    let cs = x.constraints@;
    if k < cs.len() {
        let c = cons_rd(cs[k], table(x), n);
        let r = conss_rd(x, k + 1, c.1);
        lemma_anns_rd_grows(cs[k].ann@, n);
        lemma_conss_rd_grows(x, k + 1, c.1);
        lemma_extends_trans(c.1, r.1, fin(x));
        assert({
            let cc = cs[k];
            &&& forall|i: int| 0 <= i < cc.ann@.len() ==> ann_ok(#[trigger] cc.ann@[i], x)
            &&& forall|i: int| 0 <= i < cc.args@.len() ==> arg_declared(#[trigger] cc.args@[i], x)
            &&& (cc.defines matches Some(d) ==> named_declared(d, x))
        });
        lemma_constraint_back(st, cs[k], n, x);
        lemma_constraints_back(st, x, k + 1, c.1);
        let w = conss_rd(x, k, n).0;
        assert(w[0] == c.0);
        assert(w.drop_first() =~= r.0);
        assert(views(cs.skip(k)) =~= seq![cs[k]@] + views(cs.skip(k + 1)));
    } else {
        assert(views(cs.skip(k)) =~= Seq::<PConstraint>::empty());
    }
}

proof fn lemma_output_back(st: LinkState, os: Seq<NamedRef>, x: FlatZinc)
    requires
        readable_parts(x),
        built(st, x, table(x).len() as int),
        forall|i: int| 0 <= i < os.len() ==> named_declared(#[trigger] os[i], x),
    ensures
        link_output(st, os.map_values(|r: NamedRef| slot(table(x), named_name(r))), fin(x).len()) == (
            Ok::<Seq<PNamed>, SpecLinkError>(views(os)),
            st,
        ),
    decreases os.len(),
{
    let t = table(x);
    let w = os.map_values(|r: NamedRef| slot(t, named_name(r)));
    if os.len() > 0 {
        assert(named_declared(os[0], x));
        lemma_named_back(st, os[0], x, 0);
        assert(w[0] == slot(t, named_name(os[0])));
        assert(w.drop_first() =~= os.drop_first().map_values(|r: NamedRef| slot(t, named_name(r))));
        assert forall|i: int| 0 <= i < os.drop_first().len() implies named_declared(#[trigger] os.drop_first()[i], x) by {
            assert(os.drop_first()[i] == os[i + 1]);
        }
        lemma_output_back(st, os.drop_first(), x);
        assert(views(os) =~= seq![os[0]@] + views(os.drop_first()));
    } else {
        assert(views(os) =~= Seq::<PNamed>::empty());
    }
}

proof fn lemma_solve_back(st: LinkState, x: FlatZinc)
    requires
        readable_parts(x),
        json_readable(x),
        built(st, x, table(x).len() as int),
        ext(st, x, fin(x)),
    ensures
        link_solve(
            st,
            solve_rd(x.solve, table(x), names_c(x)).method,
            anns_rd(x.solve.ann@, names_c(x)).0,
            fin(x).len(),
        ).0 == Ok::<PSolve, SpecLinkError>(x.solve@),
{
    lemma_built_less(st, x, table(x).len() as int, x.variables@.len() as int);
    match x.solve.method {
        Method::Minimize(o) => lemma_lit_back(st, o, x, 0),
        Method::Maximize(o) => lemma_lit_back(st, o, x, 0),
        _ => {},
    }
    lemma_tables(x);
    lemma_extends_refl(fin(x));
    lemma_link_rd_anns(st, x.solve.ann@, names_c(x), x, fin(x), 0);
    assert(views(x.solve.ann@) =~= x.solve.ann@.map_values(|b: Annotation| ann_view(b)));
}

/// Writing a model as JSON and reading that back gives the model again: its
/// declarations, constraints, output, solve item and version, all linked as
/// before. This holds of a model whose variables and arrays have distinct
/// names, whose every reference is to one of its own variables and arrays,
/// whose float domains and float sets each have a range, whose variables and
/// arrays have annotations that name nothing inside their calls, and whose
/// constraints and solve item have annotations that name only its variables
/// and arrays and atoms that are no name it declares.
pub proof fn law_json_round_trip(x: FlatZinc)
    requires
        json_readable(x),
    ensures
        fzn_json(x) matches SJson::Object(f) && read_model_spec(f) == Ok::<PFlatZinc, Seq<char>>(x@),
{
    lemma_read_model(x);
    lemma_parts(x);
    lemma_tables(x);
    let t = table(x);
    let ft = fin(x);
    let d = dfin(x);
    let st0 = link_start(ft, d, ft);
    assert(decls_read(x).len() == t.len());
    assert(d.len() == ft.len());
    assert forall|j: int| 0 <= j < t.len() implies ft[j] == t[j] && d[j] == decls_read(x)[j] by {
        assert(ft[j] == ft.subrange(0, t.len() as int)[j]);
    }
    assert(fresh_from(st0, x, 0));
    lemma_link_vars(st0, x, 0);
    let rv = link_variables(st0, d, 0, ft.len());
    assert(x.variables@.skip(0).map_values(|v: Arc<Variable>| var_view(*v)) =~= views(x.variables@));
    lemma_arrs_skip_vars(rv.1, x, 0);
    lemma_link_arrs(rv.1, x, x.variables@.len() as int);
    let ra = link_arrays(rv.1, d, 0, ft.len());
    assert(x.arrays@.skip(0).map_values(|a: Arc<Array>| array_view(*a)) =~= views(x.arrays@));
    lemma_ext(ra.1, x);
    assert(prefix_of(t, t)) by {
        assert(t.subrange(0, t.len() as int) =~= t);
    }
    lemma_constraints_back(ra.1, x, 0, t);
    assert(x.constraints@.skip(0) =~= x.constraints@);
    assert forall|i: int| 0 <= i < x.output@.len() implies named_declared(#[trigger] x.output@[i], x) by {}
    lemma_output_back(ra.1, x.output@, x);
    lemma_solve_back(ra.1, x);
    let f = fzn_json(x)->Object_0;
    assert(read_model_spec(f) == finish_reading_spec(reading_of(x)));
}

// ----- linking annotations that name things -----

/// The state of linking after every declaration of `x` is built, in the
/// final name table `t`: the slots after the declarations are names that
/// nothing declares, each the atom of its own text.
pub open spec fn ext(st: LinkState, x: FlatZinc, t: Names) -> bool {
    &&& prefix_of(table(x), t)
    &&& st.entries.len() == t.len()
    &&& st.memo.len() == t.len()
    &&& st.in_progress.len() == t.len()
    &&& !st.self_ref
    &&& st.atoms == t
    &&& forall|j: int| 0 <= j < table(x).len() ==> st.memo[j] == Some(#[trigger] target(x, j))
    &&& forall|j: int|
        table(x).len() <= j < t.len() ==> (#[trigger] st.memo[j]) is None && !st.in_progress[j]
            && st.entries[j].1 is Uninit && st.entries[j].0 == t[j]
}

/// The slot of name `s` as interned into `m`, in the final table `t`.
proof fn lemma_interned_slot(x: FlatZinc, t: Names, m: Names, s: Seq<char>)
    requires
        prefix_of(table(x), t),
        distinct_names(m),
        extends(intern_spec(m, s).0, t),
    ensures
        intern_spec(m, s).1 < t.len(),
        t[intern_spec(m, s).1 as int] == s,
        table(x).contains(s) ==> intern_spec(m, s).1 < table(x).len() && table(x)[intern_spec(m, s).1 as int] == s,
        !table(x).contains(s) ==> intern_spec(m, s).1 >= table(x).len(),
{
    lemma_intern_grows(m, s);
    let m2 = intern_spec(m, s).0;
    let id = intern_spec(m, s).1 as int;
    assert(t[id] == m2[id]);
    if table(x).contains(s) {
        let j = choose|j: int| 0 <= j < table(x).len() && table(x)[j] == s;
        assert(t[j] == table(x)[j]);
    } else {
        if id < table(x).len() {
            assert(table(x)[id] == t[id]);
        }
    }
}

proof fn lemma_var_slot(x: FlatZinc, s: Seq<char>) -> (j: int)
    requires
        var_names(x).contains(s),
    ensures
        0 <= j < x.variables@.len(),
        table(x)[j] == s,
        target(x, j) == PNamed::Variable(var_view(*x.variables@[j])),
        var_view(*x.variables@[j]).name == s,
{
    let j = choose|j: int| 0 <= j < var_names(x).len() && var_names(x)[j] == s;
    assert(table(x)[j] == var_names(x)[j]);
    j
}

proof fn lemma_link_rd_ann(st: LinkState, a: Annotation, n: Names, x: FlatZinc, t: Names, depth: nat)
    requires
        ext(st, x, t),
        ann_ok(a, x),
        distinct_names(n),
        extends(ann_rd(a, n).1, t),
    ensures
        link_ann(st, ann_rd(a, n).0, t.len(), depth) == (Ok::<PAnn, SpecLinkError>(ann_view(a)), st),
    decreases a, 2nat,
{
    if let Annotation::Call(c) = a {
        lemma_link_rd_call(st, c, n, x, t, depth);
    }
}

proof fn lemma_link_rd_call(st: LinkState, c: AnnotationCall, n: Names, x: FlatZinc, t: Names, depth: nat)
    requires
        ext(st, x, t),
        call_ok(c, x),
        distinct_names(n),
        extends(call_rd(c, n).1, t),
    ensures
        link_call(st, call_rd(c, n).0, t.len(), depth) == (Ok::<PCall, SpecLinkError>(call_view(c)), st),
    decreases c, 2nat,
{
    lemma_link_rd_args_from(st, c, 0, n, x, t, depth);
    assert(call_view(c).args.skip(0) =~= call_view(c).args);
}

proof fn lemma_link_rd_args_from(st: LinkState, c: AnnotationCall, k: int, n: Names, x: FlatZinc, t: Names, depth: nat)
    requires
        ext(st, x, t),
        args_ok(c, k, x),
        0 <= k <= c.args@.len(),
        distinct_names(n),
        extends(args_rd(c, k, n).1, t),
    ensures
        link_ann_args(st, args_rd(c, k, n).0, t.len(), depth) == (
            Ok::<Seq<PArg<PAnnLit>>, SpecLinkError>(call_view(c).args.skip(k)),
            st,
        ),
    decreases c, 1nat, c.args@.len() - k,
{
    if k < c.args@.len() {
        assert(decreases_to!(c => c.args));
        assert(decreases_to!(c.args => c.args@));
        assert(decreases_to!(c.args@ => c.args@[k]));
        let a = ann_arg_rd(c.args@[k], n);
        let r = args_rd(c, k + 1, a.1);
        lemma_ann_arg_rd_grows(c.args@[k], n);
        lemma_args_rd_grows(c, k + 1, a.1);
        lemma_extends_trans(a.1, r.1, t);
        lemma_link_rd_ann_arg(st, c.args@[k], n, x, t, depth);
        lemma_link_rd_args_from(st, c, k + 1, a.1, x, t, depth);
        let v = args_rd(c, k, n).0;
        assert(v[0] == a.0);
        assert(v.drop_first() =~= r.0);
        assert(call_view(c).args.skip(k) =~= seq![ann_arg_view(c.args@[k])] + call_view(c).args.skip(k + 1));
    } else {
        assert(call_view(c).args.skip(k) =~= Seq::<PArg<PAnnLit>>::empty());
    }
}

proof fn lemma_link_rd_ann_arg(st: LinkState, a: Argument<AnnotationLiteral>, n: Names, x: FlatZinc, t: Names, depth: nat)
    requires
        ext(st, x, t),
        ann_arg_ok(a, x),
        distinct_names(n),
        extends(ann_arg_rd(a, n).1, t),
    ensures
        link_ann_arg(st, ann_arg_rd(a, n).0, t.len(), depth) == (Ok::<PArg<PAnnLit>, SpecLinkError>(ann_arg_view(a)), st),
    decreases a, 2nat,
{
    let nv = x.variables@.len() as int;
    match a {
        Argument::Array(v) => {
            lemma_link_rd_lits_from(st, v, 0, n, x, t, depth);
            assert(ann_arg_view(a)->Array_0.skip(0) =~= ann_arg_view(a)->Array_0);
        },
        Argument::ArrayNamed(r) => {
            let k = choose|k: int| 0 <= k < x.arrays@.len() && array_view(*x.arrays@[k]) == array_view(*r);
            assert(table(x)[nv + k] == r.name@);
            assert(table(x).contains(r.name@));
            lemma_interned_slot(x, t, n, r.name@);
            let id = intern_spec(n, r.name@).1 as int;
            assert(id == nv + k);
            assert(st.memo[nv + k] == Some(target(x, nv + k)));
        },
        Argument::Literal(l) => {
            match l {
                AnnotationLiteral::Variable(r) => {
                    let j = lemma_var_slot(x, r@);
                    assert(table(x).contains(r@));
                    lemma_interned_slot(x, t, n, r@);
                    assert(st.memo[j] == Some(target(x, j)));
                },
                AnnotationLiteral::Annotation(Annotation::Atom(s)) => {
                    lemma_interned_slot(x, t, n, s@);
                    let id = intern_spec(n, s@).1 as int;
                    assert(st.memo[id] is None);
                },
                _ => {
                    lemma_link_rd_ann_lit(st, l, n, x, t, depth);
                },
            }
        },
    }
}

proof fn lemma_link_rd_lits_from(st: LinkState, v: Vec<AnnotationLiteral>, k: int, n: Names, x: FlatZinc, t: Names, depth: nat)
    requires
        ext(st, x, t),
        ann_lits_ok(v, k, x),
        0 <= k <= v@.len(),
        distinct_names(n),
        extends(lits_rd(v, k, n).1, t),
    ensures
        link_ann_lits(st, lits_rd(v, k, n).0, t.len(), depth) == (
            Ok::<Seq<PAnnLit>, SpecLinkError>(ann_arg_view(Argument::Array(v))->Array_0.skip(k)),
            st,
        ),
    decreases v, 1nat, v@.len() - k,
{
    let want = ann_arg_view(Argument::Array(v))->Array_0;
    if k < v@.len() {
        assert(decreases_to!(v => v@));
        assert(decreases_to!(v@ => v@[k]));
        let a = ann_lit_rd(v@[k], n);
        let r = lits_rd(v, k + 1, a.1);
        lemma_ann_lit_rd_grows(v@[k], n);
        lemma_lits_rd_grows(v, k + 1, a.1);
        lemma_extends_trans(a.1, r.1, t);
        lemma_link_rd_ann_lit(st, v@[k], n, x, t, depth);
        lemma_link_rd_lits_from(st, v, k + 1, a.1, x, t, depth);
        let w = lits_rd(v, k, n).0;
        assert(w[0] == a.0);
        assert(w.drop_first() =~= r.0);
        assert(want.skip(k) =~= seq![ann_lit_view(v@[k])] + want.skip(k + 1));
    } else {
        assert(want.skip(k) =~= Seq::<PAnnLit>::empty());
    }
}

proof fn lemma_link_rd_ann_lit(st: LinkState, l: AnnotationLiteral, n: Names, x: FlatZinc, t: Names, depth: nat)
    requires
        ext(st, x, t),
        ann_lit_ok(l, x),
        distinct_names(n),
        extends(ann_lit_rd(l, n).1, t),
    ensures
        link_ann_lit(st, ann_lit_rd(l, n).0, t.len(), depth) == (Ok::<PAnnLit, SpecLinkError>(ann_lit_view(l)), st),
    decreases l, 2nat,
{
    match l {
        AnnotationLiteral::Literal(y) => {
            lemma_link_plain_lit(st, y, t.len(), depth);
        },
        AnnotationLiteral::Variable(r) => {
            let j = lemma_var_slot(x, r@);
            assert(table(x).contains(r@));
            lemma_interned_slot(x, t, n, r@);
            assert(st.memo[j] == Some(target(x, j)));
        },
        AnnotationLiteral::Annotation(Annotation::Atom(s)) => {
            lemma_interned_slot(x, t, n, s@);
            let id = intern_spec(n, s@).1 as int;
            assert(st.memo[id] is None);
        },
        AnnotationLiteral::Annotation(Annotation::Call(c)) => {
            lemma_link_rd_call(st, c, n, x, t, depth);
        },
    }
}

proof fn lemma_link_rd_anns(st: LinkState, v: Seq<Annotation>, n: Names, x: FlatZinc, t: Names, depth: nat)
    requires
        ext(st, x, t),
        forall|i: int| 0 <= i < v.len() ==> ann_ok(#[trigger] v[i], x),
        distinct_names(n),
        extends(anns_rd(v, n).1, t),
    ensures
        link_anns(st, anns_rd(v, n).0, t.len(), depth) == (
            Ok::<Seq<PAnn>, SpecLinkError>(v.map_values(|a: Annotation| ann_view(a))),
            st,
        ),
    decreases v.len(),
{
    if v.len() > 0 {
        assert(ann_ok(v[0], x));
        let a = ann_rd(v[0], n);
        let r = anns_rd(v.drop_first(), a.1);
        lemma_ann_rd_grows(v[0], n);
        lemma_anns_rd_grows(v.drop_first(), a.1);
        lemma_extends_trans(a.1, r.1, t);
        assert(LinkState { self_ref: false, ..st } == st);
        lemma_link_rd_ann(st, v[0], n, x, t, depth);
        assert forall|i: int| 0 <= i < v.drop_first().len() implies ann_ok(#[trigger] v.drop_first()[i], x) by {
            assert(v.drop_first()[i] == v[i + 1]);
        }
        lemma_link_rd_anns(st, v.drop_first(), a.1, x, t, depth);
        let w = anns_rd(v, n).0;
        assert(w[0] == a.0);
        assert(w.drop_first() =~= r.0);
        assert(v.map_values(|b: Annotation| ann_view(b)) =~= seq![ann_view(v[0])] + v.drop_first().map_values(
            |b: Annotation| ann_view(b),
        ));
    } else {
        assert(v.map_values(|b: Annotation| ann_view(b)) =~= Seq::<PAnn>::empty());
    }
}

/// Reading a model from JSON, writing it as JSON and reading that again gives
/// the same model, for the models that the round trip above is stated for.
pub proof fn law_json_read_write_read(f: Seq<(Seq<char>, SJson)>, x: FlatZinc)
    requires
        read_model_spec(f) == Ok::<PFlatZinc, Seq<char>>(x@),
        json_readable(x),
    ensures
        fzn_json(x) matches SJson::Object(g) && read_model_spec(g) == read_model_spec(f),
{
    law_json_round_trip(x);
}

} // verus!
