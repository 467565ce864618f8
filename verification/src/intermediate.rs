//! Parse-time representation of a model, before names are linked to their
//! declarations.
//!
//! Every variable and array name of the model is interned once into a single
//! table; the parse-time items refer to names by their index in that table.
use vstd::prelude::*;

verus! {

/// Index of an interned model name.
pub type NameId = usize;

/// A parse-time literal.
#[derive(PartialEq, Debug)]
pub enum Literal {
    /// Integer value.
    Int(i64),
    /// Floating point value, as the text that wrote it.
    Float(String),
    /// A name that must link to a variable or an array.
    Reference(NameId),
    /// Boolean value.
    Bool(bool),
    /// Integer set, as the inclusive ranges that wrote it.
    IntSet(Vec<(i64, i64)>),
    /// Floating point set, as the inclusive ranges that wrote it.
    FloatSet(Vec<(String, String)>),
    /// String value.
    Str(String),
}

/// A parse-time argument: one literal or an array of literals.
#[derive(PartialEq, Debug)]
pub enum Argument<L> {
    /// An array of literals.
    Array(Vec<L>),
    /// A single literal.
    Literal(L),
}

/// A parse-time annotation call.
#[derive(PartialEq, Debug)]
pub struct AnnotationCall {
    /// Annotation identifier.
    pub id: String,
    /// Annotation arguments.
    pub args: Vec<Argument<AnnotationLiteral>>,
}

/// A parse-time annotation literal: a literal or a nested annotation call.
#[derive(PartialEq, Debug)]
pub enum AnnotationLiteral {
    /// A regular literal.
    Literal(Literal),
    /// A nested annotation call.
    Annotation(AnnotationCall),
}

/// A parse-time annotation.
#[derive(PartialEq, Debug)]
pub enum Annotation {
    /// Atom annotation.
    Atom(String),
    /// Call annotation.
    Call(AnnotationCall),
}

/// The type of a decision variable, with its domain as written.
#[derive(PartialEq, Debug)]
pub enum VarType {
    /// Boolean.
    Bool,
    /// Integer, with an optional domain.
    Int(Option<Vec<(i64, i64)>>),
    /// Floating point, with an optional domain.
    Float(Option<Vec<(String, String)>>),
    /// Set of integers, with an optional domain.
    IntSet(Option<Vec<(i64, i64)>>),
}

/// A parse-time array declaration.
#[derive(PartialEq, Debug)]
pub struct Array {
    /// Array contents.
    pub contents: Vec<Literal>,
    /// Array annotations.
    pub ann: Vec<Annotation>,
    /// Whether a constraint defines the array.
    pub defined: bool,
    /// Whether the compiler introduced the array.
    pub introduced: bool,
}

/// A parse-time variable declaration.
#[derive(PartialEq, Debug)]
pub struct Variable {
    /// Variable type and domain.
    pub ty: VarType,
    /// Variable annotations.
    pub ann: Vec<Annotation>,
    /// Whether a constraint defines the variable.
    pub defined: bool,
    /// Whether the compiler introduced the variable.
    pub introduced: bool,
}

/// A parse-time constraint.
#[derive(PartialEq, Debug)]
pub struct Constraint {
    /// Predicate identifier.
    pub id: String,
    /// Arguments.
    pub args: Vec<Argument<Literal>>,
    /// The name of the variable that the constraint defines.
    pub defines: Option<NameId>,
    /// Annotations.
    pub ann: Vec<Annotation>,
}

/// A parse-time solve method.
#[derive(PartialEq, Debug)]
pub enum Method {
    /// Find any solution.
    Satisfy,
    /// Minimize the objective.
    Minimize(Literal),
    /// Maximize the objective.
    Maximize(Literal),
}

/// A parse-time solve item.
#[derive(PartialEq, Debug)]
pub struct SolveObjective {
    /// Solve method.
    pub method: Method,
    /// Solve annotations.
    pub ann: Vec<Annotation>,
}

/// The declaration state of an interned name.
#[derive(PartialEq, Debug)]
pub enum Declaration {
    /// Referenced but not declared.
    Uninit,
    /// Declared as a variable.
    Variable(Variable),
    /// Declared as an array.
    Array(Array),
}

// ----- the mathematical model of the parse-time items -----

pub ghost enum SpecLiteral {
    Int(i64),
    Float(Seq<char>),
    Reference(nat),
    Bool(bool),
    IntSet(Seq<(i64, i64)>),
    FloatSet(Seq<(Seq<char>, Seq<char>)>),
    Str(Seq<char>),
}

pub ghost enum SpecArgument<V> {
    Array(Seq<V>),
    Literal(V),
}

pub ghost struct SpecAnnotationCall {
    pub id: Seq<char>,
    pub args: Seq<SpecArgument<SpecAnnotationLiteral>>,
}

pub ghost enum SpecAnnotationLiteral {
    Literal(SpecLiteral),
    Annotation(SpecAnnotationCall),
}

pub ghost enum SpecAnnotation {
    Atom(Seq<char>),
    Call(SpecAnnotationCall),
}

pub ghost enum SpecVarType {
    Bool,
    Int(Option<Seq<(i64, i64)>>),
    Float(Option<Seq<(Seq<char>, Seq<char>)>>),
    IntSet(Option<Seq<(i64, i64)>>),
}

pub ghost struct SpecArray {
    pub contents: Seq<SpecLiteral>,
    pub ann: Seq<SpecAnnotation>,
    pub defined: bool,
    pub introduced: bool,
}

pub ghost struct SpecVariable {
    pub ty: SpecVarType,
    pub ann: Seq<SpecAnnotation>,
    pub defined: bool,
    pub introduced: bool,
}

pub ghost struct SpecConstraint {
    pub id: Seq<char>,
    pub args: Seq<SpecArgument<SpecLiteral>>,
    pub defines: Option<nat>,
    pub ann: Seq<SpecAnnotation>,
}

pub ghost enum SpecMethod {
    Satisfy,
    Minimize(SpecLiteral),
    Maximize(SpecLiteral),
}

pub ghost struct SpecSolve {
    pub method: SpecMethod,
    pub ann: Seq<SpecAnnotation>,
}

pub ghost enum SpecDeclaration {
    Uninit,
    Variable(SpecVariable),
    Array(SpecArray),
}

/// The text of each endpoint of float ranges.
pub open spec fn float_pairs_view(v: Seq<(String, String)>) -> Seq<(Seq<char>, Seq<char>)> {
    v.map_values(|p: (String, String)| (p.0@, p.1@))
}

impl View for Literal {
    type V = SpecLiteral;

    open spec fn view(&self) -> SpecLiteral {
        match self {
            Literal::Int(i) => SpecLiteral::Int(*i),
            Literal::Float(t) => SpecLiteral::Float(t@),
            Literal::Reference(n) => SpecLiteral::Reference(*n as nat),
            Literal::Bool(b) => SpecLiteral::Bool(*b),
            Literal::IntSet(r) => SpecLiteral::IntSet(r@),
            Literal::FloatSet(r) => SpecLiteral::FloatSet(float_pairs_view(r@)),
            Literal::Str(t) => SpecLiteral::Str(t@),
        }
    }
}

/// The model of a sequence of values.
pub open spec fn views<T: View>(v: Seq<T>) -> Seq<T::V> {
    v.map_values(|x: T| x@)
}

pub proof fn lemma_views_push<T: View>(a: Seq<T>, y: T)
    ensures
        views(a.push(y)) == views(a).push(y@),
{
    assert(views(a.push(y)) =~= views(a).push(y@));
}

pub proof fn lemma_views_remove_first<T: View>(a: Seq<T>)
    requires
        a.len() > 0,
    ensures
        views(a.remove(0)) == views(a).subrange(1, a.len() as int),
        views(a)[0] == a[0]@,
{
    assert(views(a.remove(0)) =~= views(a).subrange(1, a.len() as int));
}

impl<L: View> View for Argument<L> {
    type V = SpecArgument<L::V>;

    open spec fn view(&self) -> SpecArgument<L::V> {
        match self {
            Argument::Array(v) => SpecArgument::Array(views(v@)),
            Argument::Literal(l) => SpecArgument::Literal(l@),
        }
    }
}

pub open spec fn ann_call_view(c: AnnotationCall) -> SpecAnnotationCall
    decreases c,
{
    SpecAnnotationCall {
        id: c.id@,
        args: Seq::new(
            c.args@.len(),
            |i: int|
                if 0 <= i < c.args@.len() {
                    ann_arg_view(c.args@[i])
                } else {
                    SpecArgument::Array(Seq::empty())
                },
        ),
    }
}

pub open spec fn ann_arg_view(a: Argument<AnnotationLiteral>) -> SpecArgument<
    SpecAnnotationLiteral,
>
    decreases a,
{
    match a {
        Argument::Array(v) => SpecArgument::Array(
            Seq::new(
                v@.len(),
                |i: int|
                    if 0 <= i < v@.len() {
                        ann_lit_view(v@[i])
                    } else {
                        SpecAnnotationLiteral::Literal(SpecLiteral::Bool(false))
                    },
            ),
        ),
        Argument::Literal(l) => SpecArgument::Literal(ann_lit_view(l)),
    }
}

pub open spec fn ann_lit_view(l: AnnotationLiteral) -> SpecAnnotationLiteral
    decreases l,
{
    match l {
        AnnotationLiteral::Literal(x) => SpecAnnotationLiteral::Literal(x@),
        AnnotationLiteral::Annotation(c) => SpecAnnotationLiteral::Annotation(ann_call_view(c)),
    }
}

impl View for AnnotationCall {
    type V = SpecAnnotationCall;

    open spec fn view(&self) -> SpecAnnotationCall {
        ann_call_view(*self)
    }
}

impl View for AnnotationLiteral {
    type V = SpecAnnotationLiteral;

    open spec fn view(&self) -> SpecAnnotationLiteral {
        ann_lit_view(*self)
    }
}

impl View for Annotation {
    type V = SpecAnnotation;

    open spec fn view(&self) -> SpecAnnotation {
        match self {
            Annotation::Atom(t) => SpecAnnotation::Atom(t@),
            Annotation::Call(c) => SpecAnnotation::Call(c@),
        }
    }
}

impl View for VarType {
    type V = SpecVarType;

    open spec fn view(&self) -> SpecVarType {
        match self {
            VarType::Bool => SpecVarType::Bool,
            VarType::Int(d) => SpecVarType::Int(
                match d {
                    Some(r) => Some(r@),
                    None => None,
                },
            ),
            VarType::Float(d) => SpecVarType::Float(
                match d {
                    Some(r) => Some(float_pairs_view(r@)),
                    None => None,
                },
            ),
            VarType::IntSet(d) => SpecVarType::IntSet(
                match d {
                    Some(r) => Some(r@),
                    None => None,
                },
            ),
        }
    }
}

impl View for Array {
    type V = SpecArray;

    open spec fn view(&self) -> SpecArray {
        SpecArray {
            contents: views(self.contents@),
            ann: views(self.ann@),
            defined: self.defined,
            introduced: self.introduced,
        }
    }
}

impl View for Variable {
    type V = SpecVariable;

    open spec fn view(&self) -> SpecVariable {
        SpecVariable {
            ty: self.ty@,
            ann: views(self.ann@),
            defined: self.defined,
            introduced: self.introduced,
        }
    }
}

impl View for Constraint {
    type V = SpecConstraint;

    open spec fn view(&self) -> SpecConstraint {
        SpecConstraint {
            id: self.id@,
            args: views(self.args@),
            defines: match self.defines {
                Some(n) => Some(n as nat),
                None => None,
            },
            ann: views(self.ann@),
        }
    }
}

impl View for Method {
    type V = SpecMethod;

    open spec fn view(&self) -> SpecMethod {
        match self {
            Method::Satisfy => SpecMethod::Satisfy,
            Method::Minimize(l) => SpecMethod::Minimize(l@),
            Method::Maximize(l) => SpecMethod::Maximize(l@),
        }
    }
}

impl View for SolveObjective {
    type V = SpecSolve;

    open spec fn view(&self) -> SpecSolve {
        SpecSolve { method: self.method@, ann: views(self.ann@) }
    }
}

impl View for Declaration {
    type V = SpecDeclaration;

    open spec fn view(&self) -> SpecDeclaration {
        match self {
            Declaration::Uninit => SpecDeclaration::Uninit,
            Declaration::Variable(v) => SpecDeclaration::Variable(v@),
            Declaration::Array(a) => SpecDeclaration::Array(a@),
        }
    }
}

} // verus!
