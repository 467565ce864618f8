//! Copies of model values. A copy has the view of what it copies; a shared
//! declaration is not copied, the copy shares it too.
use std::sync::Arc;

use rangelist::RangeList;
use vstd::prelude::*;

use crate::intermediate::{float_pairs_view, views};
use crate::model::{
    int_ranges, lemma_ann_arg_array_view, lemma_array_view, lemma_call_view, lemma_var_view,
    share, Annotation, AnnotationCall, AnnotationLiteral, Argument, Array, Constraint, FlatZinc,
    Literal, Method, NamedRef, SolveObjective, Type, Variable,
};

verus! {

/// `Clone::clone` of an integer range list, which `derive` writes as a copy of
/// its ranges: the same ranges, in the same order.
#[verifier::external_body]
fn copy_int_ranges(r: &RangeList<i64>) -> (c: RangeList<i64>)
    ensures
        int_ranges(c) == int_ranges(*r),
{
    r.clone()
}

/// A copy of a list of float bounds.
fn copy_float_pairs(v: &Vec<(String, String)>) -> (r: Vec<(String, String)>)
    ensures
        r@ == v@,
        float_pairs_view(r@) == float_pairs_view(v@),
{
    let mut r: Vec<(String, String)> = Vec::new();
    let mut i: usize = 0;
    while i < v.len()
        invariant
            i <= v@.len(),
            r@ == v@.take(i as int),
        decreases v@.len() - i,
    {
        let a = v[i].0.clone();
        let b = v[i].1.clone();
        r.push((a, b));
        proof {
            assert(v@.take(i + 1) =~= v@.take(i as int).push(v@[i as int]));
        }
        i = i + 1;
    }
    proof {
        assert(v@.take(v@.len() as int) =~= v@);
    }
    r
}

impl Clone for Type {
    fn clone(&self) -> (r: Self)
        ensures
            r@ == self@,
    {
        match self {
            Type::Bool => Type::Bool,
            Type::Int(Some(d)) => Type::Int(Some(copy_int_ranges(d))),
            Type::Int(None) => Type::Int(None),
            Type::Float(Some(d)) => Type::Float(Some(copy_float_pairs(d))),
            Type::Float(None) => Type::Float(None),
            Type::IntSet(Some(d)) => Type::IntSet(Some(copy_int_ranges(d))),
            Type::IntSet(None) => Type::IntSet(None),
        }
    }
}

impl Clone for Literal {
    fn clone(&self) -> (r: Self)
        ensures
            r@ == self@,
    {
        match self {
            Literal::Int(i) => Literal::Int(*i),
            Literal::Float(t) => Literal::Float(t.clone()),
            Literal::Variable(v) => Literal::Variable(share(v)),
            Literal::Bool(b) => Literal::Bool(*b),
            Literal::IntSet(d) => Literal::IntSet(copy_int_ranges(d)),
            Literal::FloatSet(d) => Literal::FloatSet(copy_float_pairs(d)),
            Literal::String(t) => Literal::String(t.clone()),
        }
    }
}

impl Clone for NamedRef {
    fn clone(&self) -> (r: Self)
        ensures
            r@ == self@,
    {
        match self {
            NamedRef::Variable(v) => NamedRef::Variable(share(v)),
            NamedRef::Array(a) => NamedRef::Array(share(a)),
        }
    }
}

fn copy_ann(a: &Annotation) -> (r: Annotation)
    ensures
        r@ == a@,
    decreases a, 0nat,
{
    match a {
        Annotation::Atom(t) => Annotation::Atom(t.clone()),
        Annotation::Call(c) => Annotation::Call(copy_call(c)),
    }
}

fn copy_call(c: &AnnotationCall) -> (r: AnnotationCall)
    ensures
        r@ == c@,
    decreases c, 1nat,
{
    let mut args: Vec<Argument<AnnotationLiteral>> = Vec::new();
    let mut k: usize = 0;
    while k < c.args.len()
        invariant
            k <= c.args@.len(),
            views(args@) == views(c.args@.take(k as int)),
        decreases c.args@.len() - k,
    {
        let x = copy_ann_arg(&c.args[k]);
        proof {
            assert(c.args@.take(k + 1) =~= c.args@.take(k as int).push(c.args@[k as int]));
            assert(views(args@.push(x)) =~= views(args@).push(x@));
            assert(views(c.args@.take(k + 1)) =~= views(c.args@.take(k as int)).push(
                c.args@[k as int]@,
            ));
        }
        args.push(x);
        k = k + 1;
    }
    let r = AnnotationCall { id: c.id.clone(), args };
    proof {
        assert(c.args@.take(c.args@.len() as int) =~= c.args@);
        lemma_call_view(*c);
        lemma_call_view(r);
    }
    r
}

fn copy_ann_arg(a: &Argument<AnnotationLiteral>) -> (r: Argument<AnnotationLiteral>)
    ensures
        r@ == a@,
    decreases a, 1nat,
{
    match a {
        Argument::Array(v) => {
            let mut w: Vec<AnnotationLiteral> = Vec::new();
            let mut k: usize = 0;
            while k < v.len()
                invariant
                    k <= v@.len(),
                    views(w@) == views(v@.take(k as int)),
                    *a == Argument::<AnnotationLiteral>::Array(*v),
                decreases v@.len() - k,
            {
                proof {
                    assert(decreases_to!(*a => a->Array_0));
                    assert(decreases_to!(a->Array_0 => a->Array_0@));
                    assert(decreases_to!(a->Array_0@ => a->Array_0@[k as int]));
                }
                let x = copy_ann_lit(&v[k]);
                proof {
                    assert(v@.take(k + 1) =~= v@.take(k as int).push(v@[k as int]));
                    assert(views(w@.push(x)) =~= views(w@).push(x@));
                    assert(views(v@.take(k + 1)) =~= views(v@.take(k as int)).push(v@[k as int]@));
                }
                w.push(x);
                k = k + 1;
            }
            proof {
                assert(v@.take(v@.len() as int) =~= v@);
                lemma_ann_arg_array_view(*v);
                lemma_ann_arg_array_view(w);
            }
            Argument::Array(w)
        },
        Argument::ArrayNamed(x) => Argument::ArrayNamed(share(x)),
        Argument::Literal(l) => Argument::Literal(copy_ann_lit(l)),
    }
}

fn copy_ann_lit(l: &AnnotationLiteral) -> (r: AnnotationLiteral)
    ensures
        r@ == l@,
    decreases l, 0nat,
{
    match l {
        AnnotationLiteral::Literal(x) => AnnotationLiteral::Literal(x.clone()),
        AnnotationLiteral::Variable(r) => AnnotationLiteral::Variable(r.clone()),
        AnnotationLiteral::Annotation(a) => AnnotationLiteral::Annotation(copy_ann(a)),
    }
}

impl Clone for Annotation {
    fn clone(&self) -> (r: Self)
        ensures
            r@ == self@,
    {
        copy_ann(self)
    }
}

impl Clone for AnnotationCall {
    fn clone(&self) -> (r: Self)
        ensures
            r@ == self@,
    {
        copy_call(self)
    }
}

impl Clone for AnnotationLiteral {
    fn clone(&self) -> (r: Self)
        ensures
            r@ == self@,
    {
        copy_ann_lit(self)
    }
}

impl Clone for Argument<AnnotationLiteral> {
    fn clone(&self) -> (r: Self)
        ensures
            r@ == self@,
    {
        copy_ann_arg(self)
    }
}

/// A copy of a list of annotations.
fn copy_anns(v: &Vec<Annotation>) -> (r: Vec<Annotation>)
    ensures
        views(r@) == views(v@),
{
    let r = v.clone();
    proof {
        assert forall|i: int| 0 <= i < v@.len() implies #[trigger] r@[i]@ == v@[i]@ by {
            assert(cloned::<Annotation>(v@[i], r@[i]));
        }
        assert(views(r@) =~= views(v@));
    }
    r
}

/// A copy of a list of literals.
fn copy_lits(v: &Vec<Literal>) -> (r: Vec<Literal>)
    ensures
        views(r@) == views(v@),
{
    let r = v.clone();
    proof {
        assert forall|i: int| 0 <= i < v@.len() implies #[trigger] r@[i]@ == v@[i]@ by {
            assert(cloned::<Literal>(v@[i], r@[i]));
        }
        assert(views(r@) =~= views(v@));
    }
    r
}

impl Clone for Variable {
    fn clone(&self) -> (r: Self)
        ensures
            r@ == self@,
    {
        let r = Variable {
            name: self.name.clone(),
            ty: self.ty.clone(),
            ann: copy_anns(&self.ann),
            defined: self.defined,
            introduced: self.introduced,
        };
        proof {
            lemma_var_view(*self);
            lemma_var_view(r);
        }
        r
    }
}

impl Clone for Array {
    fn clone(&self) -> (r: Self)
        ensures
            r@ == self@,
    {
        let r = Array {
            name: self.name.clone(),
            contents: copy_lits(&self.contents),
            ann: copy_anns(&self.ann),
            defined: self.defined,
            introduced: self.introduced,
        };
        proof {
            lemma_array_view(*self);
            lemma_array_view(r);
        }
        r
    }
}

impl Clone for Argument<Literal> {
    fn clone(&self) -> (r: Self)
        ensures
            r@ == self@,
    {
        match self {
            Argument::Array(v) => Argument::Array(copy_lits(v)),
            Argument::ArrayNamed(x) => Argument::ArrayNamed(share(x)),
            Argument::Literal(l) => Argument::Literal(l.clone()),
        }
    }
}

impl Clone for Constraint {
    fn clone(&self) -> (r: Self)
        ensures
            r@ == self@,
    {
        let args = self.args.clone();
        proof {
            assert forall|i: int| 0 <= i < self.args@.len() implies #[trigger] args@[i]@
                == self.args@[i]@ by {
                assert(cloned::<Argument<Literal>>(self.args@[i], args@[i]));
            }
            assert(views(args@) =~= views(self.args@));
        }
        let defines = match &self.defines {
            Some(d) => Some(d.clone()),
            None => None,
        };
        Constraint { id: self.id.clone(), args, defines, ann: copy_anns(&self.ann) }
    }
}

impl Clone for Method {
    fn clone(&self) -> (r: Self)
        ensures
            r@ == self@,
    {
        match self {
            Method::Satisfy => Method::Satisfy,
            Method::Minimize(l) => Method::Minimize(l.clone()),
            Method::Maximize(l) => Method::Maximize(l.clone()),
        }
    }
}

impl Clone for SolveObjective {
    fn clone(&self) -> (r: Self)
        ensures
            r@ == self@,
    {
        SolveObjective { method: self.method.clone(), ann: copy_anns(&self.ann) }
    }
}

/// Copies of shared handles: each copy points to the declaration that the
/// handle it copies points to.
fn share_all<T: View>(v: &Vec<Arc<T>>) -> (r: Vec<Arc<T>>)
    ensures
        r@.len() == v@.len(),
        forall|i: int| 0 <= i < v@.len() ==> *#[trigger] r@[i] == *v@[i],
{
    let mut r: Vec<Arc<T>> = Vec::new();
    let mut i: usize = 0;
    while i < v.len()
        invariant
            i <= v@.len(),
            r@.len() == i,
            forall|j: int| 0 <= j < i ==> *#[trigger] r@[j] == *v@[j],
        decreases v@.len() - i,
    {
        r.push(share(&v[i]));
        i = i + 1;
    }
    r
}

impl Clone for FlatZinc {
    /// A copy of the model whose variables and arrays are those of `self`:
    /// shared, not copied.
    fn clone(&self) -> (r: Self)
        ensures
            r@ == self@,
    {
        let variables = share_all(&self.variables);
        let arrays = share_all(&self.arrays);
        let constraints = self.constraints.clone();
        let output = self.output.clone();
        let solve = self.solve.clone();
        proof {
            assert(views(variables@) =~= views(self.variables@));
            assert(views(arrays@) =~= views(self.arrays@));
            assert forall|i: int| 0 <= i < self.constraints@.len() implies #[trigger] constraints@[i]@
                == self.constraints@[i]@ by {
                assert(cloned::<Constraint>(self.constraints@[i], constraints@[i]));
            }
            assert(views(constraints@) =~= views(self.constraints@));
            assert forall|i: int| 0 <= i < self.output@.len() implies #[trigger] output@[i]@
                == self.output@[i]@ by {
                assert(cloned::<NamedRef>(self.output@[i], output@[i]));
            }
            assert(views(output@) =~= views(self.output@));
        }
        FlatZinc { variables, arrays, constraints, output, solve, version: self.version.clone() }
    }
}

} // verus!
