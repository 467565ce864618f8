//! Writing a model in the textual `.fzn` format.
//!
//! The text is produced as a list of pieces; floating point values are pieces
//! of their own, kept as the text they were read from, so that whoever puts
//! the pieces together can print them in its own floating point format.
use std::sync::Arc;

use rangelist::RangeList;
use vstd::hash_map::StringHashMap;
use vstd::prelude::*;

use crate::intermediate::{float_pairs_view, views};
use crate::model::{
    int_ranges, named_name, Annotation, AnnotationCall, AnnotationLiteral, Argument, Array,
    Constraint, FlatZinc, Literal, Method, NamedRef, SolveObjective, Type, Variable,
};

verus! {

/// A piece of text.
#[derive(PartialEq, Debug)]
pub enum Piece {
    /// Text, as it is.
    Text(String),
    /// A floating point value, as the text that wrote it.
    Float(String),
    /// A set of floating point values, as the ranges that wrote it, each
    /// bound as its text.
    FloatSet(Vec<(String, String)>),
}

pub ghost enum SpecPiece {
    Text(Seq<char>),
    Float(Seq<char>),
    FloatSet(Seq<(Seq<char>, Seq<char>)>),
}

impl View for Piece {
    type V = SpecPiece;

    open spec fn view(&self) -> SpecPiece {
        match self {
            Piece::Text(t) => SpecPiece::Text(t@),
            Piece::Float(t) => SpecPiece::Float(t@),
            Piece::FloatSet(v) => SpecPiece::FloatSet(float_pairs_view(v@)),
        }
    }
}

/// The decimal digits of `n`.
pub open spec fn digits(n: nat) -> Seq<char>
    decreases n,
{
    if n < 10 {
        seq![(48 + n) as char]
    } else {
        digits(n / 10).push((48 + n % 10) as char)
    }
}

/// The decimal text of `i`.
pub open spec fn decimal(i: int) -> Seq<char> {
    if i < 0 {
        seq!['-'] + digits((-i) as nat)
    } else {
        digits(i as nat)
    }
}

/// The text that Rust's `Debug` format gives a string: quoted, with escapes.
pub uninterp spec fn debug_text(s: Seq<char>) -> Seq<char>;

/// The text of one decimal digit.
fn digit_text(d: u64) -> (r: &'static str)
    requires
        d < 10,
    ensures
        r@ == seq![(48 + d) as char],
{
    proof {
        reveal_strlit("0");
        reveal_strlit("1");
        reveal_strlit("2");
        reveal_strlit("3");
        reveal_strlit("4");
        reveal_strlit("5");
        reveal_strlit("6");
        reveal_strlit("7");
        reveal_strlit("8");
        reveal_strlit("9");
    }
    match d {
        0 => "0",
        1 => "1",
        2 => "2",
        3 => "3",
        4 => "4",
        5 => "5",
        6 => "6",
        7 => "7",
        8 => "8",
        _ => "9",
    }
}

/// Append the decimal digits of `n`.
fn push_digits(out: &mut String, n: u64)
    ensures
        final(out)@ == old(out)@ + digits(n as nat),
    decreases n,
{
    if n >= 10 {
        push_digits(out, n / 10);
    }
    out.append(digit_text(n % 10));
    proof {
        if n >= 10 {
            assert(digits(n as nat) == digits((n / 10) as nat).push((48 + n % 10) as char));
        }
        assert(out@ =~= old(out)@ + digits(n as nat));
    }
}

/// The decimal text of `i`, as `i64::to_string` gives it.
pub(crate) fn i64_text(i: i64) -> (r: String)
    ensures
        r@ == decimal(i as int),
{
    let mut out = String::new();
    if i < 0 {
        out.append("-");
        let u: u64 = (-(i as i128)) as u64;
        push_digits(&mut out, u);
        proof {
            reveal_strlit("-");
            assert(out@ =~= seq!['-'] + digits((-i) as nat));
        }
    } else {
        push_digits(&mut out, i as u64);
        proof {
            assert(out@ =~= digits(i as nat));
        }
    }
    out
}

/// The decimal text of `n`, as `usize::to_string` gives it.
fn usize_text(n: usize) -> (r: String)
    ensures
        r@ == decimal(n as int),
{
    let mut out = String::new();
    push_digits(&mut out, n as u64);
    proof {
        assert(out@ =~= digits(n as nat));
    }
    out
}

/// `format!("{:?}", s)` of a string.
#[verifier::external_body]
fn debug_string(s: &String) -> (r: String)
    ensures
        r@ == debug_text(s@),
{
    format!("{s:?}")
}

/// `RangeList::iter`: the ranges of an integer range list, in order.
#[verifier::external_body]
pub(crate) fn int_range_pairs(r: &RangeList<i64>) -> (v: Vec<(i64, i64)>)
    ensures
        v@ == int_ranges(*r),
{
    r.iter().map(|x| (*x.start(), *x.end())).collect()
}

/// A single text piece.
pub open spec fn text(s: Seq<char>) -> Seq<SpecPiece> {
    seq![SpecPiece::Text(s)]
}

/// The pieces of each element, with `sep` between two elements.
pub open spec fn join(xs: Seq<Seq<SpecPiece>>, sep: Seq<char>) -> Seq<SpecPiece>
    decreases xs.len(),
{
    if xs.len() == 0 {
        Seq::empty()
    } else if xs.len() == 1 {
        xs[0]
    } else {
        join(xs.drop_last(), sep) + text(sep) + xs.last()
    }
}

/// The pieces of each element, one after the other.
pub open spec fn concat(xs: Seq<Seq<SpecPiece>>) -> Seq<SpecPiece>
    decreases xs.len(),
{
    if xs.len() == 0 {
        Seq::empty()
    } else {
        concat(xs.drop_last()) + xs.last()
    }
}

/// An integer set: its ranges `a..b` joined by ` union `, or `1..0` when empty.
pub open spec fn int_set_pcs(v: Seq<(i64, i64)>) -> Seq<SpecPiece> {
    if v.len() == 0 {
        text("1..0"@)
    } else {
        join(
            Seq::new(
                v.len(),
                |i: int| text(decimal(v[i].0 as int)) + text(".."@) + text(decimal(v[i].1 as int)),
            ),
            " union "@,
        )
    }
}

pub open spec fn lit_pcs(l: Literal) -> Seq<SpecPiece> {
    match l {
        Literal::Int(i) => text(decimal(i as int)),
        Literal::Float(t) => seq![SpecPiece::Float(t@)],
        Literal::Variable(v) => text(v.name@),
        Literal::Bool(b) => text(
            if b {
                "true"@
            } else {
                "false"@
            },
        ),
        Literal::IntSet(r) => int_set_pcs(int_ranges(r)),
        Literal::FloatSet(v) => seq![SpecPiece::FloatSet(float_pairs_view(v@))],
        Literal::String(s) => text(debug_text(s@)),
    }
}

pub open spec fn ann_pcs(a: Annotation) -> Seq<SpecPiece>
    decreases a, 0nat,
{
    match a {
        Annotation::Atom(t) => text(t@),
        Annotation::Call(c) => call_pcs(c),
    }
}

/// The pieces of each argument of an annotation call.
pub open spec fn call_args_pcs(c: AnnotationCall) -> Seq<Seq<SpecPiece>>
    decreases c, 0nat,
{
    Seq::new(
        c.args@.len(),
        |i: int|
            if 0 <= i < c.args@.len() {
                ann_arg_pcs(c.args@[i])
            } else {
                Seq::empty()
            },
    )
}

pub open spec fn call_pcs(c: AnnotationCall) -> Seq<SpecPiece>
    decreases c, 1nat,
{
    text(c.id@) + text("("@) + join(call_args_pcs(c), ", "@) + text(")"@)
}

/// The pieces of each element of an array of annotation literals.
pub open spec fn arg_lits_pcs(v: Vec<AnnotationLiteral>) -> Seq<Seq<SpecPiece>>
    decreases v, 0nat,
{
    Seq::new(
        v@.len(),
        |i: int|
            if 0 <= i < v@.len() {
                ann_lit_pcs(v@[i])
            } else {
                Seq::empty()
            },
    )
}

pub open spec fn ann_arg_pcs(a: Argument<AnnotationLiteral>) -> Seq<SpecPiece>
    decreases a, 1nat,
{
    match a {
        Argument::Array(v) => text("["@) + join(arg_lits_pcs(v), ", "@) + text("]"@),
        Argument::ArrayNamed(r) => text(r.name@),
        Argument::Literal(l) => ann_lit_pcs(l),
    }
}

pub open spec fn ann_lit_pcs(l: AnnotationLiteral) -> Seq<SpecPiece>
    decreases l, 0nat,
{
    match l {
        AnnotationLiteral::Literal(x) => lit_pcs(x),
        AnnotationLiteral::Variable(r) => text(r@),
        AnnotationLiteral::Annotation(a) => ann_pcs(a),
    }
}

/// The literals of `v`, joined by `, `.
pub open spec fn lits_pcs(v: Seq<Literal>) -> Seq<SpecPiece> {
    join(Seq::new(v.len(), |i: int| lit_pcs(v[i])), ", "@)
}

pub open spec fn con_arg_pcs(a: Argument<Literal>) -> Seq<SpecPiece> {
    match a {
        Argument::Array(v) => text("["@) + lits_pcs(v@) + text("]"@),
        Argument::ArrayNamed(r) => text(r.name@),
        Argument::Literal(l) => lit_pcs(l),
    }
}

/// Each annotation, after ` ::`.
pub open spec fn anns_suffix(v: Seq<Annotation>) -> Seq<SpecPiece> {
    concat(Seq::new(v.len(), |i: int| text(" ::"@) + ann_pcs(v[i])))
}

pub open spec fn type_pcs(t: Type) -> Seq<SpecPiece> {
    match t {
        Type::Bool => text("bool"@),
        Type::Int(Some(r)) => int_set_pcs(int_ranges(r)),
        Type::Int(None) => text("int"@),
        Type::Float(Some(v)) => seq![SpecPiece::FloatSet(float_pairs_view(v@))],
        Type::Float(None) => text("float"@),
        Type::IntSet(Some(r)) => text("set of "@) + int_set_pcs(int_ranges(r)),
        Type::IntSet(None) => text("set of int"@),
    }
}

/// `s` when `b` holds, else nothing.
pub open spec fn when(b: bool, s: Seq<SpecPiece>) -> Seq<SpecPiece> {
    if b {
        s
    } else {
        Seq::empty()
    }
}

/// A variable declaration, one line.
pub open spec fn var_pcs(v: Variable, in_output: bool) -> Seq<SpecPiece> {
    text("var "@) + type_pcs(v.ty) + text(": "@) + text(v.name@) + when(
        in_output,
        text(" ::output_var"@),
    ) + when(v.defined, text(" ::is_defined_var"@)) + when(
        v.introduced,
        text(" ::var_is_introduced"@),
    ) + anns_suffix(v.ann@) + text(";\n"@)
}

/// The name of the base type of a variable.
pub open spec fn base_name(t: Type) -> Seq<char> {
    match t {
        Type::Bool => "bool"@,
        Type::Int(_) => "int"@,
        Type::Float(_) => "float"@,
        Type::IntSet(_) => "set of int"@,
    }
}

/// The element type of a non-empty array, by its first element, and whether
/// it holds a variable.
pub open spec fn array_type(a: Array) -> (Seq<char>, bool) {
    let is_var = exists|i: int| 0 <= i < a.contents@.len() && #[trigger] a.contents@[i] is Variable;
    match a.contents@[0] {
        Literal::Int(_) => ("int"@, is_var),
        Literal::Float(_) => ("float"@, is_var),
        Literal::Variable(v) => (base_name(v.ty), true),
        Literal::Bool(_) => ("bool"@, is_var),
        Literal::IntSet(_) => ("set of int"@, is_var),
        Literal::FloatSet(_) => ("set of float"@, is_var),
        Literal::String(_) => ("string"@, is_var),
    }
}

/// The start of an array declaration: its length, element type and name.
pub open spec fn array_head_pcs(a: Array) -> Seq<SpecPiece> {
    let (ty, is_var) = array_type(a);
    text("array[1.."@) + text(decimal(a.contents@.len() as int)) + text("] of "@) + when(
        is_var,
        text("var "@),
    ) + text(ty) + text(": "@) + text(a.name@)
}

/// The marks of an array declaration: output, defined, introduced.
pub open spec fn array_flags_pcs(a: Array, in_output: bool) -> Seq<SpecPiece> {
    when(
        in_output,
        text(" ::output_array([1.."@) + text(decimal(a.contents@.len() as int)) + text("])"@),
    ) + when(a.defined, text(" ::is_defined_var"@)) + when(
        a.introduced,
        text(" ::var_is_introduced"@),
    )
}

/// An array declaration, one line.
pub open spec fn array_pcs(a: Array, in_output: bool) -> Seq<SpecPiece> {
    array_head_pcs(a) + array_flags_pcs(a, in_output) + anns_suffix(a.ann@) + text(" = ["@)
        + lits_pcs(a.contents@) + text("];\n"@)
}

/// A constraint: its predicate, its arguments, the variable it defines and
/// its annotations.
pub open spec fn constraint_body_pcs(c: Constraint) -> Seq<SpecPiece> {
    text(c.id@) + text("("@) + join(
        Seq::new(c.args@.len(), |i: int| con_arg_pcs(c.args@[i])),
        ", "@,
    ) + text(")"@) + (match c.defines {
        Some(d) => text(" ::defines_var("@) + text(named_name(d@)) + text(")"@),
        None => Seq::empty(),
    }) + anns_suffix(c.ann@)
}

/// A constraint item, one line.
pub open spec fn constraint_pcs(c: Constraint) -> Seq<SpecPiece> {
    text("constraint "@) + constraint_body_pcs(c) + text(";\n"@)
}

pub open spec fn method_pcs(m: Method) -> Seq<SpecPiece> {
    match m {
        Method::Satisfy => text("satisfy"@),
        Method::Minimize(l) => text("minimize "@) + lit_pcs(l),
        Method::Maximize(l) => text("maximize "@) + lit_pcs(l),
    }
}

/// The solve item: its annotations and its method.
pub open spec fn solve_body_pcs(s: SolveObjective) -> Seq<SpecPiece> {
    text("solve "@) + concat(Seq::new(s.ann@.len(), |i: int| text("::"@) + ann_pcs(s.ann@[i]) + text(" "@)))
        + method_pcs(s.method)
}

/// The solve item, one line.
pub open spec fn solve_pcs(s: SolveObjective) -> Seq<SpecPiece> {
    solve_body_pcs(s) + text(";\n"@)
}

/// Some output reference has name `n`.
pub open spec fn in_output(f: FlatZinc, n: Seq<char>) -> bool {
    exists|j: int| 0 <= j < f.output@.len() && named_name(#[trigger] f.output@[j]@) == n
}

/// The whole model: its variables, arrays, constraints and solve item.
pub open spec fn fzn_pcs(f: FlatZinc) -> Seq<SpecPiece> {
    concat(
        Seq::new(
            f.variables@.len(),
            |i: int| var_pcs(*f.variables@[i], in_output(f, f.variables@[i].name@)),
        ),
    ) + concat(
        Seq::new(
            f.arrays@.len(),
            |i: int| array_pcs(*f.arrays@[i], in_output(f, f.arrays@[i].name@)),
        ),
    ) + concat(Seq::new(f.constraints@.len(), |i: int| constraint_pcs(f.constraints@[i])))
        + solve_pcs(f.solve)
}

proof fn lemma_join_step(xs: Seq<Seq<SpecPiece>>, sep: Seq<char>, k: int)
    requires
        0 <= k < xs.len(),
    ensures
        join(xs.take(k + 1), sep) == join(xs.take(k), sep) + (if k > 0 {
            text(sep)
        } else {
            Seq::empty()
        }) + xs[k],
{
    let ys = xs.take(k + 1);
    assert(ys.drop_last() =~= xs.take(k));
    assert(ys.last() == xs[k]);
    if k == 0 {
        assert(xs.take(0) =~= Seq::<Seq<SpecPiece>>::empty());
        assert(Seq::<SpecPiece>::empty() + Seq::<SpecPiece>::empty() + xs[0] =~= xs[0]);
    }
}

proof fn lemma_concat_step(xs: Seq<Seq<SpecPiece>>, k: int)
    requires
        0 <= k < xs.len(),
    ensures
        concat(xs.take(k + 1)) == concat(xs.take(k)) + xs[k],
{
    let ys = xs.take(k + 1);
    assert(ys.drop_last() =~= xs.take(k));
    assert(ys.last() == xs[k]);
}

fn push_text(out: &mut Vec<Piece>, s: &str)
    ensures
        views(final(out)@) == views(old(out)@) + text(s@),
{
    let ghost before = out@;
    out.push(Piece::Text(s.to_owned()));
    proof {
        assert(views(out@) =~= views(before) + text(s@));
    }
}

fn push_string(out: &mut Vec<Piece>, s: String)
    ensures
        views(final(out)@) == views(old(out)@) + text(s@),
{
    let ghost before = out@;
    out.push(Piece::Text(s));
    proof {
        assert(views(out@) =~= views(before) + text(s@));
    }
}

fn int_set_x(r: &RangeList<i64>, out: &mut Vec<Piece>)
    ensures
        views(final(out)@) == views(old(out)@) + int_set_pcs(int_ranges(*r)),
{
    let v = int_range_pairs(r);
    if v.len() == 0 {
        push_text(out, "1..0");
        return;
    }
    let ghost xs = Seq::new(
        v@.len(),
        |i: int| text(decimal(v@[i].0 as int)) + text(".."@) + text(decimal(v@[i].1 as int)),
    );
    let ghost start = views(out@);
    let mut k: usize = 0;
    proof {
        assert(xs.take(0) =~= Seq::<Seq<SpecPiece>>::empty());
        assert(start + Seq::<SpecPiece>::empty() =~= start);
    }
    while k < v.len()
        invariant
            k <= v@.len(),
            xs.len() == v@.len(),
            forall|i: int| 0 <= i < v@.len() ==> #[trigger] xs[i] == text(decimal(v@[i].0 as int)) + text(".."@) + text(decimal(v@[i].1 as int)),
            views(out@) == start + join(xs.take(k as int), " union "@),
        decreases v@.len() - k,
    {
        proof {
            lemma_join_step(xs, " union "@, k as int);
        }
        if k > 0 {
            push_text(out, " union ");
        }
        let (a, b) = v[k];
        push_string(out, i64_text(a));
        push_text(out, "..");
        push_string(out, i64_text(b));
        proof {
            assert(views(out@) =~= start + join(xs.take(k + 1), " union "@));
        }
        k = k + 1;
    }
    proof {
        assert(xs.take(v@.len() as int) =~= xs);
    }
}

fn float_set_x(v: &Vec<(String, String)>, out: &mut Vec<Piece>)
    ensures
        views(final(out)@) == views(old(out)@) + seq![SpecPiece::FloatSet(float_pairs_view(v@))],
{
    let mut copy: Vec<(String, String)> = Vec::new();
    let mut k: usize = 0;
    while k < v.len()
        invariant
            k <= v@.len(),
            float_pairs_view(copy@) == float_pairs_view(v@.take(k as int)),
        decreases v@.len() - k,
    {
        let a = v[k].0.clone();
        let b = v[k].1.clone();
        let ghost before = copy@;
        copy.push((a, b));
        proof {
            assert(float_pairs_view(copy@) =~= float_pairs_view(before).push((v@[k as int].0@, v@[k as int].1@)));
            assert(float_pairs_view(v@.take(k + 1)) =~= float_pairs_view(v@.take(k as int)).push((v@[k as int].0@, v@[k as int].1@)));
        }
        k = k + 1;
    }
    proof {
        assert(v@.take(v@.len() as int) =~= v@);
    }
    let ghost before = out@;
    out.push(Piece::FloatSet(copy));
    proof {
        assert(views(out@) =~= views(before) + seq![SpecPiece::FloatSet(float_pairs_view(v@))]);
    }
}

fn lit_x(l: &Literal, out: &mut Vec<Piece>)
    ensures
        views(final(out)@) == views(old(out)@) + lit_pcs(*l),
{
    match l {
        Literal::Int(i) => push_string(out, i64_text(*i)),
        Literal::Float(t) => {
            let ghost before = out@;
            out.push(Piece::Float(t.clone()));
            proof {
                assert(views(out@) =~= views(before) + seq![SpecPiece::Float(t@)]);
            }
        },
        Literal::Variable(v) => push_string(out, v.name.clone()),
        Literal::Bool(b) => {
            if *b {
                push_text(out, "true");
            } else {
                push_text(out, "false");
            }
        },
        Literal::IntSet(r) => int_set_x(r, out),
        Literal::FloatSet(v) => float_set_x(v, out),
        Literal::String(s) => push_string(out, debug_string(s)),
    }
}

fn ann_x(a: &Annotation, out: &mut Vec<Piece>)
    ensures
        views(final(out)@) == views(old(out)@) + ann_pcs(*a),
    decreases a, 0nat,
{
    match a {
        Annotation::Atom(t) => push_string(out, t.clone()),
        Annotation::Call(c) => call_x(c, out),
    }
}

fn call_x(c: &AnnotationCall, out: &mut Vec<Piece>)
    ensures
        views(final(out)@) == views(old(out)@) + call_pcs(*c),
    decreases c, 1nat,
{
    let ghost xs = call_args_pcs(*c);
    let ghost start = views(out@);
    push_string(out, c.id.clone());
    push_text(out, "(");
    let ghost mid = views(out@);
    let mut k: usize = 0;
    proof {
        assert(xs.take(0) =~= Seq::<Seq<SpecPiece>>::empty());
        assert(mid + Seq::<SpecPiece>::empty() =~= mid);
    }
    while k < c.args.len()
        invariant
            k <= c.args@.len(),
            xs.len() == c.args@.len(),
            forall|i: int| 0 <= i < c.args@.len() ==> #[trigger] xs[i] == ann_arg_pcs(c.args@[i]),
            views(out@) == mid + join(xs.take(k as int), ", "@),
        decreases c.args@.len() - k,
    {
        proof {
            lemma_join_step(xs, ", "@, k as int);
        }
        if k > 0 {
            push_text(out, ", ");
        }
        ann_arg_x(&c.args[k], out);
        proof {
            assert(views(out@) =~= mid + join(xs.take(k + 1), ", "@));
        }
        k = k + 1;
    }
    push_text(out, ")");
    proof {
        assert(xs.take(c.args@.len() as int) =~= xs);
        assert(views(out@) =~= start + call_pcs(*c));
    }
}

fn ann_arg_x(a: &Argument<AnnotationLiteral>, out: &mut Vec<Piece>)
    ensures
        views(final(out)@) == views(old(out)@) + ann_arg_pcs(*a),
    decreases a, 1nat,
{
    match a {
        Argument::Array(v) => {
            let ghost xs = arg_lits_pcs(*v);
            let ghost start = views(out@);
            push_text(out, "[");
            let ghost mid = views(out@);
            let mut k: usize = 0;
            proof {
                assert(xs.take(0) =~= Seq::<Seq<SpecPiece>>::empty());
                assert(mid + Seq::<SpecPiece>::empty() =~= mid);
            }
            while k < v.len()
                invariant
                    k <= v@.len(),
                    xs.len() == v@.len(),
                    forall|i: int| 0 <= i < v@.len() ==> #[trigger] xs[i] == ann_lit_pcs(v@[i]),
                    views(out@) == mid + join(xs.take(k as int), ", "@),
                    *a == Argument::<AnnotationLiteral>::Array(*v),
                decreases v@.len() - k,
            {
                proof {
                    lemma_join_step(xs, ", "@, k as int);
                }
                if k > 0 {
                    push_text(out, ", ");
                }
                proof {
                    assert(decreases_to!(*a => a->Array_0));
                    assert(decreases_to!(a->Array_0 => a->Array_0@));
                    assert(decreases_to!(a->Array_0@ => a->Array_0@[k as int]));
                }
                ann_lit_x(&v[k], out);
                proof {
                    assert(views(out@) =~= mid + join(xs.take(k + 1), ", "@));
                }
                k = k + 1;
            }
            push_text(out, "]");
            proof {
                assert(xs.take(v@.len() as int) =~= xs);
                assert(views(out@) =~= start + ann_arg_pcs(*a));
            }
        },
        Argument::ArrayNamed(r) => push_string(out, r.name.clone()),
        Argument::Literal(l) => ann_lit_x(l, out),
    }
}

fn ann_lit_x(l: &AnnotationLiteral, out: &mut Vec<Piece>)
    ensures
        views(final(out)@) == views(old(out)@) + ann_lit_pcs(*l),
    decreases l, 0nat,
{
    match l {
        AnnotationLiteral::Literal(x) => lit_x(x, out),
        AnnotationLiteral::Variable(r) => push_string(out, r.name()),
        AnnotationLiteral::Annotation(a) => ann_x(a, out),
    }
}

fn lits_x(v: &Vec<Literal>, out: &mut Vec<Piece>)
    ensures
        views(final(out)@) == views(old(out)@) + lits_pcs(v@),
{
    let ghost xs = Seq::new(v@.len(), |i: int| lit_pcs(v@[i]));
    let ghost start = views(out@);
    let mut k: usize = 0;
    proof {
        assert(xs.take(0) =~= Seq::<Seq<SpecPiece>>::empty());
        assert(start + Seq::<SpecPiece>::empty() =~= start);
    }
    while k < v.len()
        invariant
            k <= v@.len(),
            xs == Seq::new(v@.len(), |i: int| lit_pcs(v@[i])),
            views(out@) == start + join(xs.take(k as int), ", "@),
        decreases v@.len() - k,
    {
        proof {
            lemma_join_step(xs, ", "@, k as int);
        }
        if k > 0 {
            push_text(out, ", ");
        }
        lit_x(&v[k], out);
        proof {
            assert(views(out@) =~= start + join(xs.take(k + 1), ", "@));
        }
        k = k + 1;
    }
    proof {
        assert(xs.take(v@.len() as int) =~= xs);
    }
}

fn con_arg_x(a: &Argument<Literal>, out: &mut Vec<Piece>)
    ensures
        views(final(out)@) == views(old(out)@) + con_arg_pcs(*a),
{
    let ghost start = views(out@);
    match a {
        Argument::Array(v) => {
            push_text(out, "[");
            lits_x(v, out);
            push_text(out, "]");
            proof {
                assert(views(out@) =~= start + con_arg_pcs(*a));
            }
        },
        Argument::ArrayNamed(r) => push_string(out, r.name.clone()),
        Argument::Literal(l) => lit_x(l, out),
    }
}

fn anns_suffix_x(v: &Vec<Annotation>, out: &mut Vec<Piece>)
    ensures
        views(final(out)@) == views(old(out)@) + anns_suffix(v@),
{
    let ghost xs = Seq::new(v@.len(), |i: int| text(" ::"@) + ann_pcs(v@[i]));
    let ghost start = views(out@);
    let mut k: usize = 0;
    proof {
        assert(xs.take(0) =~= Seq::<Seq<SpecPiece>>::empty());
        assert(start + Seq::<SpecPiece>::empty() =~= start);
    }
    while k < v.len()
        invariant
            k <= v@.len(),
            xs == Seq::new(v@.len(), |i: int| text(" ::"@) + ann_pcs(v@[i])),
            views(out@) == start + concat(xs.take(k as int)),
        decreases v@.len() - k,
    {
        proof {
            lemma_concat_step(xs, k as int);
        }
        push_text(out, " ::");
        ann_x(&v[k], out);
        proof {
            assert(views(out@) =~= start + concat(xs.take(k + 1)));
        }
        k = k + 1;
    }
    proof {
        assert(xs.take(v@.len() as int) =~= xs);
    }
}

fn type_x(t: &Type, out: &mut Vec<Piece>)
    ensures
        views(final(out)@) == views(old(out)@) + type_pcs(*t),
{
    let ghost start = views(out@);
    match t {
        Type::Bool => push_text(out, "bool"),
        Type::Int(Some(r)) => int_set_x(r, out),
        Type::Int(None) => push_text(out, "int"),
        Type::Float(Some(v)) => float_set_x(v, out),
        Type::Float(None) => push_text(out, "float"),
        Type::IntSet(Some(r)) => {
            push_text(out, "set of ");
            int_set_x(r, out);
            proof {
                assert(views(out@) =~= start + type_pcs(*t));
            }
        },
        Type::IntSet(None) => push_text(out, "set of int"),
    }
}

fn var_x(v: &Variable, in_out: bool, out: &mut Vec<Piece>)
    ensures
        views(final(out)@) == views(old(out)@) + var_pcs(*v, in_out),
{
    let ghost start = views(out@);
    push_text(out, "var ");
    type_x(&v.ty, out);
    push_text(out, ": ");
    push_string(out, v.name.clone());
    let ghost p1 = views(out@);
    if in_out {
        push_text(out, " ::output_var");
    }
    let ghost p2 = views(out@);
    if v.defined {
        push_text(out, " ::is_defined_var");
    }
    let ghost p3 = views(out@);
    if v.introduced {
        push_text(out, " ::var_is_introduced");
    }
    let ghost p4 = views(out@);
    anns_suffix_x(&v.ann, out);
    push_text(out, ";\n");
    proof {
        assert(p2 =~= p1 + when(in_out, text(" ::output_var"@)));
        assert(p3 =~= p2 + when(v.defined, text(" ::is_defined_var"@)));
        assert(p4 =~= p3 + when(v.introduced, text(" ::var_is_introduced"@)));
        assert(views(out@) =~= start + var_pcs(*v, in_out));
    }
}

fn base_name_x(t: &Type) -> (r: &'static str)
    ensures
        r@ == base_name(*t),
{
    match t {
        Type::Bool => "bool",
        Type::Int(_) => "int",
        Type::Float(_) => "float",
        Type::IntSet(_) => "set of int",
    }
}

fn array_type_x(a: &Array) -> (r: (&'static str, bool))
    requires
        a.contents@.len() > 0,
    ensures
        (r.0@, r.1) == array_type(*a),
{
    let mut is_var = false;
    let mut k: usize = 0;
    while k < a.contents.len()
        invariant
            k <= a.contents@.len(),
            is_var == exists|i: int| 0 <= i < k && #[trigger] a.contents@[i] is Variable,
        decreases a.contents@.len() - k,
    {
        if let Literal::Variable(_) = &a.contents[k] {
            is_var = true;
        }
        k = k + 1;
    }
    match &a.contents[0] {
        Literal::Int(_) => ("int", is_var),
        Literal::Float(_) => ("float", is_var),
        Literal::Variable(v) => (base_name_x(&v.ty), true),
        Literal::Bool(_) => ("bool", is_var),
        Literal::IntSet(_) => ("set of int", is_var),
        Literal::FloatSet(_) => ("set of float", is_var),
        Literal::String(_) => ("string", is_var),
    }
}

fn array_head_x(a: &Array, out: &mut Vec<Piece>)
    requires
        a.contents@.len() > 0,
    ensures
        views(final(out)@) == views(old(out)@) + array_head_pcs(*a),
{
    let ghost start = views(out@);
    let (ty, is_var) = array_type_x(a);
    push_text(out, "array[1..");
    push_string(out, usize_text(a.contents.len()));
    push_text(out, "] of ");
    let ghost p1 = views(out@);
    if is_var {
        push_text(out, "var ");
    }
    let ghost p2 = views(out@);
    push_text(out, ty);
    push_text(out, ": ");
    push_string(out, a.name.clone());
    proof {
        assert(p2 =~= p1 + when(is_var, text("var "@)));
        assert(views(out@) =~= start + array_head_pcs(*a));
    }
}

fn array_flags_x(a: &Array, in_out: bool, out: &mut Vec<Piece>)
    ensures
        views(final(out)@) == views(old(out)@) + array_flags_pcs(*a, in_out),
{
    let ghost start = views(out@);
    if in_out {
        push_text(out, " ::output_array([1..");
        push_string(out, usize_text(a.contents.len()));
        push_text(out, "])");
    }
    let ghost p1 = views(out@);
    if a.defined {
        push_text(out, " ::is_defined_var");
    }
    let ghost p2 = views(out@);
    if a.introduced {
        push_text(out, " ::var_is_introduced");
    }
    proof {
        let n = decimal(a.contents@.len() as int);
        assert(p1 =~= start + when(in_out, text(" ::output_array([1.."@) + text(n) + text("])"@)));
        assert(p2 =~= p1 + when(a.defined, text(" ::is_defined_var"@)));
        assert(views(out@) =~= start + array_flags_pcs(*a, in_out));
    }
}

fn array_x(a: &Array, in_out: bool, out: &mut Vec<Piece>)
    requires
        a.contents@.len() > 0,
    ensures
        views(final(out)@) == views(old(out)@) + array_pcs(*a, in_out),
{
    let ghost start = views(out@);
    array_head_x(a, out);
    array_flags_x(a, in_out, out);
    anns_suffix_x(&a.ann, out);
    push_text(out, " = [");
    lits_x(&a.contents, out);
    push_text(out, "];\n");
    proof {
        assert(views(out@) =~= start + array_pcs(*a, in_out));
    }
}

fn constraint_x(c: &Constraint, out: &mut Vec<Piece>)
    ensures
        views(final(out)@) == views(old(out)@) + constraint_pcs(*c),
{
    let ghost start = views(out@);
    push_text(out, "constraint ");
    let ghost p0 = views(out@);
    constraint_body_x(c, out);
    let ghost p1 = views(out@);
    push_text(out, ";\n");
    proof {
        assert(p1 == p0 + constraint_body_pcs(*c));
        assert(views(out@) =~= start + constraint_pcs(*c));
    }
}

fn constraint_body_x(c: &Constraint, out: &mut Vec<Piece>)
    ensures
        views(final(out)@) == views(old(out)@) + constraint_body_pcs(*c),
{
    let ghost xs = Seq::new(c.args@.len(), |i: int| con_arg_pcs(c.args@[i]));
    let ghost start = views(out@);
    push_string(out, c.id.clone());
    push_text(out, "(");
    let ghost mid = views(out@);
    let mut k: usize = 0;
    proof {
        assert(xs.take(0) =~= Seq::<Seq<SpecPiece>>::empty());
        assert(mid + Seq::<SpecPiece>::empty() =~= mid);
    }
    while k < c.args.len()
        invariant
            k <= c.args@.len(),
            xs == Seq::new(c.args@.len(), |i: int| con_arg_pcs(c.args@[i])),
            views(out@) == mid + join(xs.take(k as int), ", "@),
        decreases c.args@.len() - k,
    {
        proof {
            lemma_join_step(xs, ", "@, k as int);
        }
        if k > 0 {
            push_text(out, ", ");
        }
        con_arg_x(&c.args[k], out);
        proof {
            assert(views(out@) =~= mid + join(xs.take(k + 1), ", "@));
        }
        k = k + 1;
    }
    push_text(out, ")");
    let ghost p1 = views(out@);
    match &c.defines {
        Some(d) => {
            push_text(out, " ::defines_var(");
            push_string(out, d.name());
            push_text(out, ")");
        },
        None => {},
    }
    let ghost p2 = views(out@);
    anns_suffix_x(&c.ann, out);
    proof {
        assert(xs.take(c.args@.len() as int) =~= xs);
        assert(p2 =~= p1 + (match c.defines {
            Some(d) => text(" ::defines_var("@) + text(named_name(d@)) + text(")"@),
            None => Seq::empty(),
        }));
        assert(views(out@) =~= start + constraint_body_pcs(*c));
    }
}

fn solve_x(s: &SolveObjective, out: &mut Vec<Piece>)
    ensures
        views(final(out)@) == views(old(out)@) + solve_pcs(*s),
{
    let ghost start = views(out@);
    solve_body_x(s, out);
    let ghost p1 = views(out@);
    push_text(out, ";\n");
    proof {
        assert(views(out@) =~= start + solve_pcs(*s));
    }
}

fn method_x(m: &Method, out: &mut Vec<Piece>)
    ensures
        views(final(out)@) == views(old(out)@) + method_pcs(*m),
{
    let ghost start = views(out@);
    match m {
        Method::Satisfy => push_text(out, "satisfy"),
        Method::Minimize(l) => {
            push_text(out, "minimize ");
            lit_x(l, out);
            proof {
                assert(views(out@) =~= start + method_pcs(*m));
            }
        },
        Method::Maximize(l) => {
            push_text(out, "maximize ");
            lit_x(l, out);
            proof {
                assert(views(out@) =~= start + method_pcs(*m));
            }
        },
    }
}

fn solve_body_x(s: &SolveObjective, out: &mut Vec<Piece>)
    ensures
        views(final(out)@) == views(old(out)@) + solve_body_pcs(*s),
{
    let ghost xs = Seq::new(s.ann@.len(), |i: int| text("::"@) + ann_pcs(s.ann@[i]) + text(" "@));
    let ghost start = views(out@);
    push_text(out, "solve ");
    let ghost mid = views(out@);
    let mut k: usize = 0;
    proof {
        assert(xs.take(0) =~= Seq::<Seq<SpecPiece>>::empty());
        assert(mid + Seq::<SpecPiece>::empty() =~= mid);
    }
    while k < s.ann.len()
        invariant
            k <= s.ann@.len(),
            xs == Seq::new(s.ann@.len(), |i: int| text("::"@) + ann_pcs(s.ann@[i]) + text(" "@)),
            views(out@) == mid + concat(xs.take(k as int)),
        decreases s.ann@.len() - k,
    {
        proof {
            lemma_concat_step(xs, k as int);
        }
        push_text(out, "::");
        ann_x(&s.ann[k], out);
        push_text(out, " ");
        proof {
            assert(views(out@) =~= mid + concat(xs.take(k + 1)));
        }
        k = k + 1;
    }
    let ghost p1 = views(out@);
    method_x(&s.method, out);
    proof {
        assert(xs.take(s.ann@.len() as int) =~= xs);
        assert(views(out@) =~= start + solve_body_pcs(*s));
    }
}

proof fn lemma_no_prefix(x: Seq<SpecPiece>)
    ensures
        Seq::<SpecPiece>::empty() + x == x,
{
    assert(Seq::<SpecPiece>::empty() + x =~= x);
}

impl Literal {
    /// The literal in the textual `.fzn` format, as pieces.
    pub fn to_fzn(&self) -> (r: Vec<Piece>)
        ensures
            views(r@) == lit_pcs(*self),
    {
        let mut out: Vec<Piece> = Vec::new();
        proof {
            assert(views(out@) =~= Seq::<SpecPiece>::empty());
        }
        lit_x(self, &mut out);
        proof {
            lemma_no_prefix(lit_pcs(*self));
        }
        out
    }
}

impl Annotation {
    /// The annotation in the textual `.fzn` format, as pieces.
    pub fn to_fzn(&self) -> (r: Vec<Piece>)
        ensures
            views(r@) == ann_pcs(*self),
    {
        let mut out: Vec<Piece> = Vec::new();
        proof {
            assert(views(out@) =~= Seq::<SpecPiece>::empty());
        }
        ann_x(self, &mut out);
        proof {
            lemma_no_prefix(ann_pcs(*self));
        }
        out
    }
}

impl AnnotationCall {
    /// The annotation call in the textual `.fzn` format, as pieces.
    pub fn to_fzn(&self) -> (r: Vec<Piece>)
        ensures
            views(r@) == call_pcs(*self),
    {
        let mut out: Vec<Piece> = Vec::new();
        proof {
            assert(views(out@) =~= Seq::<SpecPiece>::empty());
        }
        call_x(self, &mut out);
        proof {
            lemma_no_prefix(call_pcs(*self));
        }
        out
    }
}

impl AnnotationLiteral {
    /// The annotation argument literal in the textual `.fzn` format, as pieces.
    pub fn to_fzn(&self) -> (r: Vec<Piece>)
        ensures
            views(r@) == ann_lit_pcs(*self),
    {
        let mut out: Vec<Piece> = Vec::new();
        proof {
            assert(views(out@) =~= Seq::<SpecPiece>::empty());
        }
        ann_lit_x(self, &mut out);
        proof {
            lemma_no_prefix(ann_lit_pcs(*self));
        }
        out
    }
}

impl Argument<Literal> {
    /// The constraint argument in the textual `.fzn` format, as pieces.
    pub fn to_fzn(&self) -> (r: Vec<Piece>)
        ensures
            views(r@) == con_arg_pcs(*self),
    {
        let mut out: Vec<Piece> = Vec::new();
        proof {
            assert(views(out@) =~= Seq::<SpecPiece>::empty());
        }
        con_arg_x(self, &mut out);
        proof {
            lemma_no_prefix(con_arg_pcs(*self));
        }
        out
    }
}

impl Argument<AnnotationLiteral> {
    /// The annotation argument in the textual `.fzn` format, as pieces.
    pub fn to_fzn(&self) -> (r: Vec<Piece>)
        ensures
            views(r@) == ann_arg_pcs(*self),
    {
        let mut out: Vec<Piece> = Vec::new();
        proof {
            assert(views(out@) =~= Seq::<SpecPiece>::empty());
        }
        ann_arg_x(self, &mut out);
        proof {
            lemma_no_prefix(ann_arg_pcs(*self));
        }
        out
    }
}

impl Type {
    /// The type in the textual `.fzn` format, as pieces.
    pub fn to_fzn(&self) -> (r: Vec<Piece>)
        ensures
            views(r@) == type_pcs(*self),
    {
        let mut out: Vec<Piece> = Vec::new();
        proof {
            assert(views(out@) =~= Seq::<SpecPiece>::empty());
        }
        type_x(self, &mut out);
        proof {
            lemma_no_prefix(type_pcs(*self));
        }
        out
    }
}

impl Method {
    /// The solve method in the textual `.fzn` format, as pieces.
    pub fn to_fzn(&self) -> (r: Vec<Piece>)
        ensures
            views(r@) == method_pcs(*self),
    {
        let mut out: Vec<Piece> = Vec::new();
        proof {
            assert(views(out@) =~= Seq::<SpecPiece>::empty());
        }
        method_x(self, &mut out);
        proof {
            lemma_no_prefix(method_pcs(*self));
        }
        out
    }
}

impl Constraint {
    /// The constraint, without the `constraint` keyword and the closing `;`, in the textual `.fzn` format, as pieces.
    pub fn to_fzn(&self) -> (r: Vec<Piece>)
        ensures
            views(r@) == constraint_body_pcs(*self),
    {
        let mut out: Vec<Piece> = Vec::new();
        proof {
            assert(views(out@) =~= Seq::<SpecPiece>::empty());
        }
        constraint_body_x(self, &mut out);
        proof {
            lemma_no_prefix(constraint_body_pcs(*self));
        }
        out
    }
}

impl SolveObjective {
    /// The solve item, without the closing `;`, in the textual `.fzn` format, as pieces.
    pub fn to_fzn(&self) -> (r: Vec<Piece>)
        ensures
            views(r@) == solve_body_pcs(*self),
    {
        let mut out: Vec<Piece> = Vec::new();
        proof {
            assert(views(out@) =~= Seq::<SpecPiece>::empty());
        }
        solve_body_x(self, &mut out);
        proof {
            lemma_no_prefix(solve_body_pcs(*self));
        }
        out
    }
}

impl FlatZinc {
    /// The model in the textual `.fzn` format, as pieces: its variables, its
    /// arrays, its constraints and its solve item, one per line, with the
    /// output declarations marked.
    pub fn to_fzn(&self) -> (r: Vec<Piece>)
        requires
            forall|i: int| 0 <= i < self.arrays@.len() ==> (#[trigger] self.arrays@[i]).contents@.len() > 0,
        ensures
            views(r@) == fzn_pcs(*self),
    {
        let mut names: StringHashMap<bool> = StringHashMap::new();
        let mut j: usize = 0;
        while j < self.output.len()
            invariant
                j <= self.output@.len(),
                forall|n: Seq<char>| #[trigger] names@.contains_key(n) <==> exists|i: int|
                    0 <= i < j && named_name(#[trigger] self.output@[i]@) == n,
            decreases self.output@.len() - j,
        {
            let n = self.output[j].name();
            names.insert(n, true);
            proof {
                assert forall|m: Seq<char>| #[trigger] names@.contains_key(m) <==> exists|i: int|
                    0 <= i < j + 1 && named_name(#[trigger] self.output@[i]@) == m by {
                    if names@.contains_key(m) && m != n@ {
                        let i = choose|i: int| 0 <= i < j && named_name(#[trigger] self.output@[i]@) == m;
                    }
                    if exists|i: int| 0 <= i < j + 1 && named_name(#[trigger] self.output@[i]@) == m {
                        let i = choose|i: int| 0 <= i < j + 1 && named_name(#[trigger] self.output@[i]@) == m;
                        if i < j {
                            assert(names@.contains_key(m) || m == n@);
                        }
                    }
                }
            }
            j = j + 1;
        }
        let mut out: Vec<Piece> = Vec::new();
        let ghost vs = Seq::new(
            self.variables@.len(),
            |i: int| var_pcs(*self.variables@[i], in_output(*self, self.variables@[i].name@)),
        );
        let mut k: usize = 0;
        proof {
            assert(vs.take(0) =~= Seq::<Seq<SpecPiece>>::empty());
            assert(views(out@) =~= concat(vs.take(0)));
        }
        while k < self.variables.len()
            invariant
                k <= self.variables@.len(),
                vs == Seq::new(
                    self.variables@.len(),
                    |i: int| var_pcs(*self.variables@[i], in_output(*self, self.variables@[i].name@)),
                ),
                forall|n: Seq<char>| #[trigger] names@.contains_key(n) <==> in_output(*self, n),
                views(out@) == concat(vs.take(k as int)),
            decreases self.variables@.len() - k,
        {
            proof {
                lemma_concat_step(vs, k as int);
            }
            let v: &Arc<Variable> = &self.variables[k];
            let in_out = names.contains_key(v.name.as_str());
            var_x(v, in_out, &mut out);
            k = k + 1;
        }
        let ghost p1 = views(out@);
        let ghost ars = Seq::new(
            self.arrays@.len(),
            |i: int| array_pcs(*self.arrays@[i], in_output(*self, self.arrays@[i].name@)),
        );
        let mut k: usize = 0;
        proof {
            assert(vs.take(self.variables@.len() as int) =~= vs);
            assert(ars.take(0) =~= Seq::<Seq<SpecPiece>>::empty());
            assert(p1 + concat(ars.take(0)) =~= p1);
        }
        while k < self.arrays.len()
            invariant
                k <= self.arrays@.len(),
                ars == Seq::new(
                    self.arrays@.len(),
                    |i: int| array_pcs(*self.arrays@[i], in_output(*self, self.arrays@[i].name@)),
                ),
                forall|i: int| 0 <= i < self.arrays@.len() ==> (#[trigger] self.arrays@[i]).contents@.len() > 0,
                forall|n: Seq<char>| #[trigger] names@.contains_key(n) <==> in_output(*self, n),
                views(out@) == p1 + concat(ars.take(k as int)),
            decreases self.arrays@.len() - k,
        {
            proof {
                lemma_concat_step(ars, k as int);
            }
            let a: &Arc<Array> = &self.arrays[k];
            let in_out = names.contains_key(a.name.as_str());
            array_x(a, in_out, &mut out);
            proof {
                assert(views(out@) =~= p1 + concat(ars.take(k + 1)));
            }
            k = k + 1;
        }
        let ghost p2 = views(out@);
        let ghost cs = Seq::new(self.constraints@.len(), |i: int| constraint_pcs(self.constraints@[i]));
        let mut k: usize = 0;
        proof {
            assert(ars.take(self.arrays@.len() as int) =~= ars);
            assert(cs.take(0) =~= Seq::<Seq<SpecPiece>>::empty());
            assert(p2 + concat(cs.take(0)) =~= p2);
        }
        while k < self.constraints.len()
            invariant
                k <= self.constraints@.len(),
                cs == Seq::new(self.constraints@.len(), |i: int| constraint_pcs(self.constraints@[i])),
                views(out@) == p2 + concat(cs.take(k as int)),
            decreases self.constraints@.len() - k,
        {
            proof {
                lemma_concat_step(cs, k as int);
            }
            constraint_x(&self.constraints[k], &mut out);
            proof {
                assert(views(out@) =~= p2 + concat(cs.take(k + 1)));
            }
            k = k + 1;
        }
        proof {
            assert(cs.take(self.constraints@.len() as int) =~= cs);
        }
        solve_x(&self.solve, &mut out);
        proof {
            assert(views(out@) =~= fzn_pcs(*self));
        }
        out
    }
}

// ----- laws of the printed text -----

/// A set-of-integers type with a domain prints as `set of ` followed by the
/// domain, that is, as the integer type with the same domain with `set of `
/// in front; so the two never print alike.
pub proof fn law_set_type_printed_as_set_of(r: RangeList<i64>)
    ensures
        type_pcs(Type::IntSet(Some(r))) == text("set of "@) + type_pcs(Type::Int(Some(r))),
        type_pcs(Type::IntSet(Some(r))) != type_pcs(Type::Int(Some(r))),
{
    let a = type_pcs(Type::IntSet(Some(r)));
    let b = type_pcs(Type::Int(Some(r)));
    assert(a.len() == b.len() + 1);
}

/// A type without its domain: the base type a declaration is of.
pub open spec fn without_domain(t: Type) -> Type {
    match t {
        Type::Bool => Type::Bool,
        Type::Int(_) => Type::Int(None),
        Type::Float(_) => Type::Float(None),
        Type::IntSet(_) => Type::IntSet(None),
    }
}

/// The element type printed for an array whose first element is a variable
/// is that variable's type without its domain, printed as a variable
/// declaration prints a type, and the array is printed as one of variables:
/// an array of `bool` variables is printed as `array[..] of var bool`.
pub proof fn law_array_of_variables_element_type(a: Array)
    requires
        a.contents@.len() > 0,
        a.contents@[0] is Variable,
    ensures
        ({
            let v = a.contents@[0]->Variable_0;
            &&& text(array_type(a).0) == type_pcs(without_domain(v.ty))
            &&& array_type(a).1
            &&& v.ty == Type::Bool ==> text(array_type(a).0) == type_pcs(v.ty)
        }),
{
}

/// The type of the values a literal stands for, where the model has one: a
/// variable's type without its domain, or the parameter type of a constant.
pub open spec fn literal_base_type(l: Literal) -> Option<Type> {
    match l {
        Literal::Variable(v) => Some(without_domain(v.ty)),
        Literal::Int(_) => Some(Type::Int(None)),
        Literal::Float(_) => Some(Type::Float(None)),
        Literal::Bool(_) => Some(Type::Bool),
        Literal::IntSet(_) => Some(Type::IntSet(None)),
        _ => None,
    }
}

/// The element type printed for an array is the type of the values its first
/// element stands for, printed as a declaration prints that type.
pub proof fn law_array_element_type(a: Array)
    requires
        a.contents@.len() > 0,
    ensures
        literal_base_type(a.contents@[0]) matches Some(t) ==> text(array_type(a).0) == type_pcs(t),
{
}

} // verus!
