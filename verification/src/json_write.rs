//! Writing a model in the FlatZinc JSON form, as a JSON value. Turning the
//! value into text is left to the caller.
use std::sync::Arc;
use vstd::prelude::*;

use crate::intermediate::{float_pairs_view, views};
use crate::json_read::{entries_view, lemma_array_view, lemma_object_view, Json, SJson};
use crate::model::{
    int_ranges, Annotation, AnnotationCall, AnnotationLiteral, Argument, Array, Constraint, FlatZinc,
    Literal, Method, NamedRef, SolveObjective, Type, Variable,
};
use crate::print::int_range_pairs;
use rangelist::RangeList;

verus! {

/// An inclusive integer range as a JSON pair.
pub open spec fn int_pair_json(p: (i64, i64)) -> SJson {
    SJson::Array(seq![SJson::Int(p.0), SJson::Int(p.1)])
}

/// An inclusive float range as a JSON pair of numbers, each kept as its text.
pub open spec fn float_pair_json(p: (Seq<char>, Seq<char>)) -> SJson {
    SJson::Array(seq![SJson::Float(p.0), SJson::Float(p.1)])
}

/// Integer ranges as a JSON list of pairs, in order.
pub open spec fn int_ranges_json(v: Seq<(i64, i64)>) -> SJson {
    SJson::Array(v.map_values(|p: (i64, i64)| int_pair_json(p)))
}

/// Float ranges as a JSON list of pairs, in order.
pub open spec fn float_ranges_json(v: Seq<(Seq<char>, Seq<char>)>) -> SJson {
    SJson::Array(v.map_values(|p: (Seq<char>, Seq<char>)| float_pair_json(p)))
}

/// A literal: a number, a boolean or the name of a variable stands for
/// itself; a set and a string are wrapped in an object of one key.
pub open spec fn lit_json(l: Literal) -> SJson {
    match l {
        Literal::Int(i) => SJson::Int(i),
        Literal::Float(t) => SJson::Float(t@),
        Literal::Variable(v) => SJson::Str(v.name@),
        Literal::Bool(b) => SJson::Bool(b),
        Literal::IntSet(r) => SJson::Object(seq![("set"@, int_ranges_json(int_ranges(r)))]),
        Literal::FloatSet(v) => SJson::Object(seq![("set"@, float_ranges_json(float_pairs_view(v@)))]),
        Literal::String(s) => SJson::Object(seq![("string"@, SJson::Str(s@))]),
    }
}

/// An annotation: an atom is its name, a call an object of `id` and `args`.
pub open spec fn ann_json(a: Annotation) -> SJson
    decreases a, 0nat,
{
    match a {
        Annotation::Atom(t) => SJson::Str(t@),
        Annotation::Call(c) => call_json(c),
    }
}

/// The arguments of an annotation call, each as JSON.
pub open spec fn call_args_json(c: AnnotationCall) -> Seq<SJson>
    decreases c, 0nat,
{
    Seq::new(
        c.args@.len(),
        |i: int|
            if 0 <= i < c.args@.len() {
                ann_arg_json(c.args@[i])
            } else {
                SJson::Null
            },
    )
}

pub open spec fn call_json(c: AnnotationCall) -> SJson
    decreases c, 1nat,
{
    SJson::Object(seq![("id"@, SJson::Str(c.id@)), ("args"@, SJson::Array(call_args_json(c)))])
}

/// The elements of an array of annotation literals, each as JSON.
pub open spec fn ann_lits_json(v: Vec<AnnotationLiteral>) -> Seq<SJson>
    decreases v, 0nat,
{
    Seq::new(
        v@.len(),
        |i: int|
            if 0 <= i < v@.len() {
                ann_lit_json(v@[i])
            } else {
                SJson::Null
            },
    )
}

pub open spec fn ann_arg_json(a: Argument<AnnotationLiteral>) -> SJson
    decreases a, 1nat,
{
    match a {
        Argument::Array(v) => SJson::Array(ann_lits_json(v)),
        Argument::ArrayNamed(r) => SJson::Str(r.name@),
        Argument::Literal(l) => ann_lit_json(l),
    }
}

pub open spec fn ann_lit_json(l: AnnotationLiteral) -> SJson
    decreases l, 0nat,
{
    match l {
        AnnotationLiteral::Literal(x) => lit_json(x),
        AnnotationLiteral::Variable(r) => SJson::Str(r@),
        AnnotationLiteral::Annotation(a) => ann_json(a),
    }
}

/// A list of annotations.
pub open spec fn anns_json(v: Seq<Annotation>) -> SJson {
    SJson::Array(v.map_values(|a: Annotation| ann_json(a)))
}

/// A list of literals.
pub open spec fn lits_json(v: Seq<Literal>) -> SJson {
    SJson::Array(v.map_values(|l: Literal| lit_json(l)))
}

/// A constraint argument: an array of literals, the name of an array, or a
/// literal.
pub open spec fn arg_json(a: Argument<Literal>) -> SJson {
    match a {
        Argument::Array(v) => lits_json(v@),
        Argument::ArrayNamed(r) => SJson::Str(r.name@),
        Argument::Literal(l) => lit_json(l),
    }
}

/// The entry `ann` when there are annotations.
pub open spec fn ann_entry(ann: Seq<Annotation>) -> Seq<(Seq<char>, SJson)> {
    if ann.len() > 0 {
        seq![("ann"@, anns_json(ann))]
    } else {
        Seq::empty()
    }
}

/// The entry `k: true` when `b` holds.
pub open spec fn flag_entry(k: Seq<char>, b: bool) -> Seq<(Seq<char>, SJson)> {
    if b {
        seq![(k, SJson::Bool(true))]
    } else {
        Seq::empty()
    }
}

/// The entries a variable or an array has after its own: `ann` when there are
/// annotations, `defined` and `introduced` when set.
pub open spec fn flags_json(ann: Seq<Annotation>, defined: bool, introduced: bool) -> Seq<(Seq<char>, SJson)> {
    ann_entry(ann) + flag_entry("defined"@, defined) + flag_entry("introduced"@, introduced)
}

/// The entry `domain` when there is one.
pub open spec fn domain_entry(d: Option<SJson>) -> Seq<(Seq<char>, SJson)> {
    match d {
        Some(j) => seq![("domain"@, j)],
        None => Seq::empty(),
    }
}

/// The entries of a variable's type: `type`, and `domain` when it has one.
pub open spec fn type_json(t: Type) -> Seq<(Seq<char>, SJson)> {
    match t {
        Type::Bool => seq![("type"@, SJson::Str("bool"@))],
        Type::Int(d) => seq![("type"@, SJson::Str("int"@))] + domain_entry(
            match d {
                Some(r) => Some(int_ranges_json(int_ranges(r))),
                None => None,
            },
        ),
        Type::Float(d) => seq![("type"@, SJson::Str("float"@))] + domain_entry(
            match d {
                Some(v) => Some(float_ranges_json(float_pairs_view(v@))),
                None => None,
            },
        ),
        Type::IntSet(d) => seq![("type"@, SJson::Str("set of int"@))] + domain_entry(
            match d {
                Some(r) => Some(int_ranges_json(int_ranges(r))),
                None => None,
            },
        ),
    }
}

pub open spec fn var_json(v: Variable) -> SJson {
    SJson::Object(type_json(v.ty) + flags_json(v.ann@, v.defined, v.introduced))
}

pub open spec fn array_json(a: Array) -> SJson {
    SJson::Object(seq![("a"@, lits_json(a.contents@))] + flags_json(a.ann@, a.defined, a.introduced))
}

/// The name a reference carries.
pub open spec fn named_name(r: NamedRef) -> Seq<char> {
    match r {
        NamedRef::Variable(v) => v.name@,
        NamedRef::Array(a) => a.name@,
    }
}

pub open spec fn constraint_json(c: Constraint) -> SJson {
    SJson::Object(
        seq![
            ("id"@, SJson::Str(c.id@)),
            ("args"@, SJson::Array(c.args@.map_values(|a: Argument<Literal>| arg_json(a)))),
        ] + match c.defines {
            Some(r) => seq![("defines"@, SJson::Str(named_name(r)))],
            None => Seq::empty(),
        } + ann_entry(c.ann@),
    )
}

/// The entries of the method: `method`, and `objective` when it optimises.
pub open spec fn method_json(m: Method) -> Seq<(Seq<char>, SJson)> {
    match m {
        Method::Satisfy => seq![("method"@, SJson::Str("satisfy"@))],
        Method::Minimize(o) => seq![("method"@, SJson::Str("minimize"@)), ("objective"@, lit_json(o))],
        Method::Maximize(o) => seq![("method"@, SJson::Str("maximize"@)), ("objective"@, lit_json(o))],
    }
}

pub open spec fn solve_json(s: SolveObjective) -> SJson {
    SJson::Object(method_json(s.method) + ann_entry(s.ann@))
}

/// A model in the FlatZinc JSON form: its variables and arrays as objects
/// keyed by name, its constraints and output names as lists, its solve item
/// and its version, in that order.
pub open spec fn fzn_json(f: FlatZinc) -> SJson {
    SJson::Object(
        seq![
            ("variables"@, SJson::Object(f.variables@.map_values(|v: Arc<Variable>| (v.name@, var_json(*v))))),
            ("arrays"@, SJson::Object(f.arrays@.map_values(|a: Arc<Array>| (a.name@, array_json(*a))))),
            ("constraints"@, SJson::Array(f.constraints@.map_values(|c: Constraint| constraint_json(c)))),
            ("output"@, SJson::Array(f.output@.map_values(|r: NamedRef| SJson::Str(named_name(r))))),
            ("solve"@, solve_json(f.solve)),
            ("version"@, SJson::Str(f.version@)),
        ],
    )
}

// ----- building the values -----

/// A JSON array of the given values.
fn json_array(v: Vec<Json>) -> (r: Json)
    ensures
        r@ == SJson::Array(views(v@)),
{
    proof {
        lemma_array_view(v);
    }
    Json::Array(v)
}

/// A JSON object of the given entries.
fn json_object(f: Vec<(String, Json)>) -> (r: Json)
    ensures
        r@ == SJson::Object(entries_view(f@)),
{
    proof {
        lemma_object_view(f);
    }
    Json::Object(f)
}

/// A JSON object of one entry.
fn single(k: &str, v: Json) -> (r: Json)
    ensures
        r@ == SJson::Object(seq![(k@, v@)]),
{
    let f = vec![(k.to_owned(), v)];
    proof {
        assert(entries_view(f@) =~= seq![(k@, v@)]);
    }
    json_object(f)
}

/// Integer ranges as a JSON list of pairs.
fn int_ranges_value(r: &RangeList<i64>) -> (j: Json)
    ensures
        j@ == int_ranges_json(int_ranges(*r)),
{
    let v = int_range_pairs(r);
    let ghost want = v@.map_values(|p: (i64, i64)| int_pair_json(p));
    let mut out: Vec<Json> = Vec::new();
    let mut k: usize = 0;
    while k < v.len()
        invariant
            k <= v@.len(),
            want == v@.map_values(|p: (i64, i64)| int_pair_json(p)),
            views(out@) == want.take(k as int),
        decreases v@.len() - k,
    {
        let (a, b) = v[k];
        let inner = vec![Json::Int(a), Json::Int(b)];
        let pair = json_array(inner);
        proof {
            assert(views(inner@) =~= seq![SJson::Int(a), SJson::Int(b)]);
        }
        let ghost before = out@;
        out.push(pair);
        proof {
            assert(views(out@) =~= views(before).push(pair@));
            assert(want.take(k + 1) =~= want.take(k as int).push(want[k as int]));
        }
        k = k + 1;
    }
    proof {
        assert(want.take(v@.len() as int) =~= want);
    }
    json_array(out)
}

/// Float ranges as a JSON list of pairs, each number kept as its text.
fn float_ranges_value(v: &Vec<(String, String)>) -> (j: Json)
    ensures
        j@ == float_ranges_json(float_pairs_view(v@)),
{
    let ghost want = float_pairs_view(v@).map_values(|p: (Seq<char>, Seq<char>)| float_pair_json(p));
    let mut out: Vec<Json> = Vec::new();
    let mut k: usize = 0;
    while k < v.len()
        invariant
            k <= v@.len(),
            want == float_pairs_view(v@).map_values(|p: (Seq<char>, Seq<char>)| float_pair_json(p)),
            views(out@) == want.take(k as int),
        decreases v@.len() - k,
    {
        let inner = vec![Json::Float(v[k].0.clone()), Json::Float(v[k].1.clone())];
        let pair = json_array(inner);
        proof {
            assert(views(inner@) =~= seq![SJson::Float(v@[k as int].0@), SJson::Float(v@[k as int].1@)]);
        }
        let ghost before = out@;
        out.push(pair);
        proof {
            assert(views(out@) =~= views(before).push(pair@));
            assert(want.take(k + 1) =~= want.take(k as int).push(want[k as int]));
        }
        k = k + 1;
    }
    proof {
        assert(want.take(v@.len() as int) =~= want);
    }
    json_array(out)
}

/// A literal as JSON.
pub fn literal_value(l: &Literal) -> (j: Json)
    ensures
        j@ == lit_json(*l),
{
    match l {
        Literal::Int(i) => Json::Int(*i),
        Literal::Float(t) => Json::Float(t.clone()),
        Literal::Variable(v) => Json::Str(v.name.clone()),
        Literal::Bool(b) => Json::Bool(*b),
        Literal::IntSet(r) => single("set", int_ranges_value(r)),
        Literal::FloatSet(v) => single("set", float_ranges_value(v)),
        Literal::String(s) => single("string", Json::Str(s.clone())),
    }
}

/// An annotation as JSON.
pub fn annotation_value(a: &Annotation) -> (j: Json)
    ensures
        j@ == ann_json(*a),
    decreases a, 0nat,
{
    match a {
        Annotation::Atom(t) => Json::Str(t.clone()),
        Annotation::Call(c) => call_value(c),
    }
}

fn call_value(c: &AnnotationCall) -> (j: Json)
    ensures
        j@ == call_json(*c),
    decreases c, 1nat,
{
    let ghost xs = call_args_json(*c);
    let mut out: Vec<Json> = Vec::new();
    let mut k: usize = 0;
    while k < c.args.len()
        invariant
            k <= c.args@.len(),
            xs.len() == c.args@.len(),
            forall|i: int| 0 <= i < c.args@.len() ==> #[trigger] xs[i] == ann_arg_json(c.args@[i]),
            views(out@) == xs.take(k as int),
        decreases c.args@.len() - k,
    {
        let x = ann_arg_value(&c.args[k]);
        let ghost before = out@;
        out.push(x);
        proof {
            assert(views(out@) =~= views(before).push(x@));
            assert(xs.take(k + 1) =~= xs.take(k as int).push(xs[k as int]));
        }
        k = k + 1;
    }
    proof {
        assert(xs.take(c.args@.len() as int) =~= xs);
    }
    let args = json_array(out);
    let f = vec![("id".to_owned(), Json::Str(c.id.clone())), ("args".to_owned(), args)];
    proof {
        assert(entries_view(f@) =~= seq![("id"@, SJson::Str(c.id@)), ("args"@, SJson::Array(xs))]);
    }
    json_object(f)
}

fn ann_arg_value(a: &Argument<AnnotationLiteral>) -> (j: Json)
    ensures
        j@ == ann_arg_json(*a),
    decreases a, 1nat,
{
    match a {
        Argument::Array(v) => {
            let ghost xs = ann_lits_json(*v);
            let mut out: Vec<Json> = Vec::new();
            let mut k: usize = 0;
            while k < v.len()
                invariant
                    k <= v@.len(),
                    xs.len() == v@.len(),
                    forall|i: int| 0 <= i < v@.len() ==> #[trigger] xs[i] == ann_lit_json(v@[i]),
                    views(out@) == xs.take(k as int),
                    *a == Argument::<AnnotationLiteral>::Array(*v),
                decreases v@.len() - k,
            {
                proof {
                    assert(decreases_to!(*a => a->Array_0));
                    assert(decreases_to!(a->Array_0 => a->Array_0@));
                    assert(decreases_to!(a->Array_0@ => a->Array_0@[k as int]));
                }
                let x = ann_lit_value(&v[k]);
                let ghost before = out@;
                out.push(x);
                proof {
                    assert(views(out@) =~= views(before).push(x@));
                    assert(xs.take(k + 1) =~= xs.take(k as int).push(xs[k as int]));
                }
                k = k + 1;
            }
            proof {
                assert(xs.take(v@.len() as int) =~= xs);
            }
            json_array(out)
        },
        Argument::ArrayNamed(r) => Json::Str(r.name.clone()),
        Argument::Literal(l) => ann_lit_value(l),
    }
}

fn ann_lit_value(l: &AnnotationLiteral) -> (j: Json)
    ensures
        j@ == ann_lit_json(*l),
    decreases l, 0nat,
{
    match l {
        AnnotationLiteral::Literal(x) => literal_value(x),
        AnnotationLiteral::Variable(r) => Json::Str(r.name()),
        AnnotationLiteral::Annotation(a) => annotation_value(a),
    }
}

/// A list of annotations as JSON.
fn annotations_value(v: &Vec<Annotation>) -> (j: Json)
    ensures
        j@ == anns_json(v@),
{
    let ghost want = v@.map_values(|a: Annotation| ann_json(a));
    let mut out: Vec<Json> = Vec::new();
    let mut k: usize = 0;
    while k < v.len()
        invariant
            k <= v@.len(),
            want == v@.map_values(|a: Annotation| ann_json(a)),
            views(out@) == want.take(k as int),
        decreases v@.len() - k,
    {
        let x = annotation_value(&v[k]);
        let ghost before = out@;
        out.push(x);
        proof {
            assert(views(out@) =~= views(before).push(x@));
            assert(want.take(k + 1) =~= want.take(k as int).push(want[k as int]));
        }
        k = k + 1;
    }
    proof {
        assert(want.take(v@.len() as int) =~= want);
    }
    json_array(out)
}

/// A list of literals as JSON.
fn literals_value(v: &Vec<Literal>) -> (j: Json)
    ensures
        j@ == lits_json(v@),
{
    let ghost want = v@.map_values(|l: Literal| lit_json(l));
    let mut out: Vec<Json> = Vec::new();
    let mut k: usize = 0;
    while k < v.len()
        invariant
            k <= v@.len(),
            want == v@.map_values(|l: Literal| lit_json(l)),
            views(out@) == want.take(k as int),
        decreases v@.len() - k,
    {
        let x = literal_value(&v[k]);
        let ghost before = out@;
        out.push(x);
        proof {
            assert(views(out@) =~= views(before).push(x@));
            assert(want.take(k + 1) =~= want.take(k as int).push(want[k as int]));
        }
        k = k + 1;
    }
    proof {
        assert(want.take(v@.len() as int) =~= want);
    }
    json_array(out)
}

/// A constraint argument as JSON.
fn argument_value(a: &Argument<Literal>) -> (j: Json)
    ensures
        j@ == arg_json(*a),
{
    match a {
        Argument::Array(v) => literals_value(v),
        Argument::ArrayNamed(r) => Json::Str(r.name.clone()),
        Argument::Literal(l) => literal_value(l),
    }
}

/// Append the entry `ann` when there are annotations.
fn push_ann_entry(f: &mut Vec<(String, Json)>, ann: &Vec<Annotation>)
    ensures
        entries_view(final(f)@) == entries_view(old(f)@) + ann_entry(ann@),
{
    let ghost before = f@;
    if ann.len() > 0 {
        let x = annotations_value(ann);
        f.push(("ann".to_owned(), x));
        proof {
            assert(entries_view(f@) =~= entries_view(before) + ann_entry(ann@));
        }
    } else {
        proof {
            assert(entries_view(f@) =~= entries_view(before) + ann_entry(ann@));
        }
    }
}

/// Append the entry `k: true` when `b` holds.
fn push_flag_entry(f: &mut Vec<(String, Json)>, k: &str, b: bool)
    ensures
        entries_view(final(f)@) == entries_view(old(f)@) + flag_entry(k@, b),
{
    let ghost before = f@;
    if b {
        f.push((k.to_owned(), Json::Bool(true)));
    }
    proof {
        assert(entries_view(f@) =~= entries_view(before) + flag_entry(k@, b));
    }
}

/// Append the entries after a variable's or an array's own.
fn push_flags(f: &mut Vec<(String, Json)>, ann: &Vec<Annotation>, defined: bool, introduced: bool)
    ensures
        entries_view(final(f)@) == entries_view(old(f)@) + flags_json(ann@, defined, introduced),
{
    let ghost before = entries_view(f@);
    push_ann_entry(f, ann);
    push_flag_entry(f, "defined", defined);
    push_flag_entry(f, "introduced", introduced);
    proof {
        assert(entries_view(f@) =~= before + flags_json(ann@, defined, introduced));
    }
}

/// A variable as JSON.
pub fn variable_value(v: &Variable) -> (j: Json)
    ensures
        j@ == var_json(*v),
{
    let mut f: Vec<(String, Json)> = Vec::new();
    match &v.ty {
        Type::Bool => {
            f.push(("type".to_owned(), Json::Str("bool".to_owned())));
        },
        Type::Int(d) => {
            f.push(("type".to_owned(), Json::Str("int".to_owned())));
            match d {
                Some(r) => f.push(("domain".to_owned(), int_ranges_value(r))),
                None => {},
            }
        },
        Type::Float(d) => {
            f.push(("type".to_owned(), Json::Str("float".to_owned())));
            match d {
                Some(r) => f.push(("domain".to_owned(), float_ranges_value(r))),
                None => {},
            }
        },
        Type::IntSet(d) => {
            f.push(("type".to_owned(), Json::Str("set of int".to_owned())));
            match d {
                Some(r) => f.push(("domain".to_owned(), int_ranges_value(r))),
                None => {},
            }
        },
    }
    proof {
        assert(entries_view(f@) =~= type_json(v.ty));
    }
    push_flags(&mut f, &v.ann, v.defined, v.introduced);
    json_object(f)
}

/// An array as JSON.
pub fn array_value(a: &Array) -> (j: Json)
    ensures
        j@ == array_json(*a),
{
    let mut f: Vec<(String, Json)> = Vec::new();
    f.push(("a".to_owned(), literals_value(&a.contents)));
    proof {
        assert(entries_view(f@) =~= seq![("a"@, lits_json(a.contents@))]);
    }
    push_flags(&mut f, &a.ann, a.defined, a.introduced);
    json_object(f)
}

/// The name a reference carries.
fn named_text(r: &NamedRef) -> (t: String)
    ensures
        t@ == named_name(*r),
{
    match r {
        NamedRef::Variable(v) => v.name.clone(),
        NamedRef::Array(a) => a.name.clone(),
    }
}

/// A constraint as JSON.
pub fn constraint_value(c: &Constraint) -> (j: Json)
    ensures
        j@ == constraint_json(*c),
{
    let ghost want = c.args@.map_values(|a: Argument<Literal>| arg_json(a));
    let mut out: Vec<Json> = Vec::new();
    let mut k: usize = 0;
    while k < c.args.len()
        invariant
            k <= c.args@.len(),
            want == c.args@.map_values(|a: Argument<Literal>| arg_json(a)),
            views(out@) == want.take(k as int),
        decreases c.args@.len() - k,
    {
        let x = argument_value(&c.args[k]);
        let ghost before = out@;
        out.push(x);
        proof {
            assert(views(out@) =~= views(before).push(x@));
            assert(want.take(k + 1) =~= want.take(k as int).push(want[k as int]));
        }
        k = k + 1;
    }
    proof {
        assert(want.take(c.args@.len() as int) =~= want);
    }
    let args = json_array(out);
    let mut f: Vec<(String, Json)> = Vec::new();
    f.push(("id".to_owned(), Json::Str(c.id.clone())));
    f.push(("args".to_owned(), args));
    match &c.defines {
        Some(r) => f.push(("defines".to_owned(), Json::Str(named_text(r)))),
        None => {},
    }
    proof {
        assert(entries_view(f@) =~= seq![("id"@, SJson::Str(c.id@)), ("args"@, SJson::Array(want))]
            + match c.defines {
            Some(r) => seq![("defines"@, SJson::Str(named_name(r)))],
            None => Seq::<(Seq<char>, SJson)>::empty(),
        });
    }
    push_ann_entry(&mut f, &c.ann);
    json_object(f)
}

/// A solve item as JSON.
pub fn solve_value(s: &SolveObjective) -> (j: Json)
    ensures
        j@ == solve_json(*s),
{
    let mut f: Vec<(String, Json)> = Vec::new();
    match &s.method {
        Method::Satisfy => {
            f.push(("method".to_owned(), Json::Str("satisfy".to_owned())));
        },
        Method::Minimize(o) => {
            f.push(("method".to_owned(), Json::Str("minimize".to_owned())));
            f.push(("objective".to_owned(), literal_value(o)));
        },
        Method::Maximize(o) => {
            f.push(("method".to_owned(), Json::Str("maximize".to_owned())));
            f.push(("objective".to_owned(), literal_value(o)));
        },
    }
    proof {
        assert(entries_view(f@) =~= method_json(s.method));
    }
    push_ann_entry(&mut f, &s.ann);
    json_object(f)
}

/// The model in the FlatZinc JSON form.
pub fn to_json(m: &FlatZinc) -> (j: Json)
    ensures
        j@ == fzn_json(*m),
{
    let ghost wv = m.variables@.map_values(|v: Arc<Variable>| (v.name@, var_json(*v)));
    let mut vars: Vec<(String, Json)> = Vec::new();
    let mut k: usize = 0;
    while k < m.variables.len()
        invariant
            k <= m.variables@.len(),
            wv == m.variables@.map_values(|v: Arc<Variable>| (v.name@, var_json(*v))),
            entries_view(vars@) == wv.take(k as int),
        decreases m.variables@.len() - k,
    {
        let v = &m.variables[k];
        let x = variable_value(v);
        let ghost before = vars@;
        vars.push((v.name.clone(), x));
        proof {
            assert(entries_view(vars@) =~= entries_view(before).push((v.name@, x@)));
            assert(wv.take(k + 1) =~= wv.take(k as int).push(wv[k as int]));
        }
        k = k + 1;
    }
    proof {
        assert(wv.take(m.variables@.len() as int) =~= wv);
    }
    let ghost wa = m.arrays@.map_values(|a: Arc<Array>| (a.name@, array_json(*a)));
    let mut arrays: Vec<(String, Json)> = Vec::new();
    let mut k: usize = 0;
    while k < m.arrays.len()
        invariant
            k <= m.arrays@.len(),
            wa == m.arrays@.map_values(|a: Arc<Array>| (a.name@, array_json(*a))),
            entries_view(arrays@) == wa.take(k as int),
        decreases m.arrays@.len() - k,
    {
        let a = &m.arrays[k];
        let x = array_value(a);
        let ghost before = arrays@;
        arrays.push((a.name.clone(), x));
        proof {
            assert(entries_view(arrays@) =~= entries_view(before).push((a.name@, x@)));
            assert(wa.take(k + 1) =~= wa.take(k as int).push(wa[k as int]));
        }
        k = k + 1;
    }
    proof {
        assert(wa.take(m.arrays@.len() as int) =~= wa);
    }
    let ghost wc = m.constraints@.map_values(|c: Constraint| constraint_json(c));
    let mut cons: Vec<Json> = Vec::new();
    let mut k: usize = 0;
    while k < m.constraints.len()
        invariant
            k <= m.constraints@.len(),
            wc == m.constraints@.map_values(|c: Constraint| constraint_json(c)),
            views(cons@) == wc.take(k as int),
        decreases m.constraints@.len() - k,
    {
        let x = constraint_value(&m.constraints[k]);
        let ghost before = cons@;
        cons.push(x);
        proof {
            assert(views(cons@) =~= views(before).push(x@));
            assert(wc.take(k + 1) =~= wc.take(k as int).push(wc[k as int]));
        }
        k = k + 1;
    }
    proof {
        assert(wc.take(m.constraints@.len() as int) =~= wc);
    }
    let ghost wo = m.output@.map_values(|r: NamedRef| SJson::Str(named_name(r)));
    let mut out: Vec<Json> = Vec::new();
    let mut k: usize = 0;
    while k < m.output.len()
        invariant
            k <= m.output@.len(),
            wo == m.output@.map_values(|r: NamedRef| SJson::Str(named_name(r))),
            views(out@) == wo.take(k as int),
        decreases m.output@.len() - k,
    {
        let x = Json::Str(named_text(&m.output[k]));
        let ghost before = out@;
        out.push(x);
        proof {
            assert(views(out@) =~= views(before).push(x@));
            assert(wo.take(k + 1) =~= wo.take(k as int).push(wo[k as int]));
        }
        k = k + 1;
    }
    proof {
        assert(wo.take(m.output@.len() as int) =~= wo);
    }
    let vj = json_object(vars);
    let aj = json_object(arrays);
    let cj = json_array(cons);
    let oj = json_array(out);
    let sj = solve_value(&m.solve);
    let top = vec![
        ("variables".to_owned(), vj),
        ("arrays".to_owned(), aj),
        ("constraints".to_owned(), cj),
        ("output".to_owned(), oj),
        ("solve".to_owned(), sj),
        ("version".to_owned(), Json::Str(m.version.clone())),
    ];
    proof {
        assert(entries_view(top@) =~= fzn_json(*m)->Object_0);
    }
    json_object(top)
}

} // verus!
