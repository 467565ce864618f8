//! The linked FlatZinc model: declarations are shared through `Arc`, so that
//! every reference to a variable or array reaches its one declaration.
use std::sync::{Arc, Weak};

use rangelist::RangeList;
use vstd::prelude::*;

use crate::helpers::ArcKey;
use crate::intermediate::{float_pairs_view, views};

verus! {

#[verifier::external_type_specification]
#[verifier::external_body]
#[verifier::reject_recursive_types(E)]
pub struct ExRangeList<E: PartialOrd>(RangeList<E>);

/// The ranges that a `RangeList<i64>` holds, in the order it keeps them.
pub uninterp spec fn int_ranges(r: RangeList<i64>) -> Seq<(i64, i64)>;

/// The integers that a list of inclusive ranges covers.
pub open spec fn range_elems(v: Seq<(i64, i64)>) -> Set<int> {
    Set::new(|x: int| exists|i: int| 0 <= i < v.len() && #[trigger] v[i].0 <= x <= v[i].1)
}

/// The ranges are non-empty, in increasing order, and neither overlap nor
/// touch.
pub open spec fn ranges_normalized(v: Seq<(i64, i64)>) -> bool {
    &&& forall|i: int| 0 <= i < v.len() ==> v[i].0 <= v[i].1
    &&& forall|i: int, j: int| 0 <= i < j < v.len() ==> v[i].1 + 1 < v[j].0
}

/// `RangeList::from_iter` on inclusive integer ranges: the result keeps the
/// integers that the non-empty input ranges cover, as normalized ranges.
#[verifier::external_body]
pub(crate) fn int_range_list(v: Vec<(i64, i64)>) -> (r: RangeList<i64>)
    ensures
        ranges_normalized(int_ranges(r)),
        range_elems(int_ranges(r)) == range_elems(v@),
{
    v.into_iter().map(|(a, b)| a..=b).collect()
}

/// A non-owning handle to a shared variable declaration: a `Weak<Variable>`,
/// kept opaque.
#[verifier::external_body]
#[derive(Debug)]
pub struct WeakVariable {
    handle: Weak<Variable>,
}

/// `Arc::downgrade`: a non-owning handle to the allocation of `v`.
#[verifier::external_body]
fn downgrade(v: &Arc<Variable>) -> (r: WeakVariable) {
    WeakVariable { handle: Arc::downgrade(v) }
}

/// `Weak::clone`: another non-owning handle to the same allocation.
#[verifier::external_body]
fn clone_weak(w: &WeakVariable) -> (r: WeakVariable) {
    WeakVariable { handle: Weak::clone(&w.handle) }
}

/// `Weak::upgrade`: an owning handle to the allocation, while it is alive.
#[verifier::external_body]
fn upgrade_weak(w: &WeakVariable) -> (r: Option<Arc<Variable>>) {
    w.handle.upgrade()
}

/// `Arc::clone`: another handle to the same shared value.
#[verifier::external_body]
pub(crate) fn share<T>(a: &Arc<T>) -> (r: Arc<T>)
    ensures
        *r == **a,
{
    Arc::clone(a)
}

/// `Arc::ptr_eq`: whether two handles point to the same allocation; when they
/// do, they hold the same value.
#[verifier::external_body]
pub(crate) fn same_allocation<T>(a: &Arc<T>, b: &Arc<T>) -> (r: bool)
    ensures
        r ==> **a == **b,
{
    Arc::ptr_eq(a, b)
}

/// Literal values.
#[derive(PartialEq, Debug)]
pub enum Literal {
    /// Integer value.
    Int(i64),
    /// Floating point value, as the text that wrote it.
    Float(String),
    /// Reference to a decision variable.
    Variable(Arc<Variable>),
    /// Boolean value.
    Bool(bool),
    /// Set of integers, as a list of integer ranges.
    IntSet(RangeList<i64>),
    /// Set of floating point values, as the ranges that wrote it, each bound
    /// as its text.
    FloatSet(Vec<(String, String)>),
    /// String value.
    String(String),
}

/// The type of a decision variable, with its domain when it has one.
#[derive(PartialEq, Debug)]
pub enum Type {
    /// Boolean decision variable.
    Bool,
    /// Integer decision variable.
    Int(Option<RangeList<i64>>),
    /// Floating point decision variable; a domain is one range, each bound as
    /// its text.
    Float(Option<Vec<(String, String)>>),
    /// Integer set decision variable.
    IntSet(Option<RangeList<i64>>),
}

/// The definition of a decision variable.
#[derive(PartialEq, Debug)]
pub struct Variable {
    /// The name of the decision variable.
    pub name: String,
    /// The type of the decision variable, and its domain.
    pub ty: Type,
    /// Annotations.
    pub ann: Vec<Annotation>,
    /// Whether a constraint is marked as defining this variable.
    pub defined: bool,
    /// Whether the compiler introduced this variable.
    pub introduced: bool,
}

/// A named array of literals.
#[derive(PartialEq, Debug)]
pub struct Array {
    /// The name of the array.
    pub name: String,
    /// The values of the array.
    pub contents: Vec<Literal>,
    /// Annotations.
    pub ann: Vec<Annotation>,
    /// Whether a constraint is marked as defining this array.
    pub defined: bool,
    /// Whether the compiler introduced this array.
    pub introduced: bool,
}

/// An argument: an array of literals, a named array, or one literal.
#[derive(PartialEq, Debug)]
pub enum Argument<L> {
    /// Sequence of literals.
    Array(Vec<L>),
    /// Named array.
    ArrayNamed(Arc<Array>),
    /// Literal.
    Literal(L),
}

/// An annotation.
#[derive(PartialEq, Debug)]
pub enum Annotation {
    /// Atom annotation: a single identifier.
    Atom(String),
    /// Call annotation.
    Call(AnnotationCall),
}

/// An annotation in the form of a call.
#[derive(PartialEq, Debug)]
pub struct AnnotationCall {
    /// Identifier of the annotation.
    pub id: String,
    /// Arguments of the annotation.
    pub args: Vec<Argument<AnnotationLiteral>>,
}

/// Literal values as arguments of annotation calls: literals, references to
/// variables, or nested annotations.
#[derive(PartialEq, Debug)]
pub enum AnnotationLiteral {
    /// A regular literal value; not a variable, which has a variant of its own.
    Literal(Literal),
    /// A non-owning reference to a decision variable.
    Variable(VarRef),
    /// An annotation.
    Annotation(Annotation),
}

/// A non-owning reference to a shared variable declaration, as annotations
/// hold them: an annotation never keeps a declaration alive, so a declaration
/// whose annotations name it forms no cycle of owners.
#[derive(Debug)]
pub struct VarRef {
    target: WeakVariable,
    name: String,
}

/// Reference to a named top-level declaration. References compare by the
/// name of the declaration.
#[derive(Debug)]
pub enum NamedRef {
    /// Reference to a variable.
    Variable(Arc<Variable>),
    /// Reference to an array.
    Array(Arc<Array>),
}

/// A constraint.
#[derive(PartialEq, Debug)]
pub struct Constraint {
    /// Identifier of the constraint predicate.
    pub id: String,
    /// Arguments of the constraint.
    pub args: Vec<Argument<Literal>>,
    /// The declaration that the constraint defines.
    pub defines: Option<NamedRef>,
    /// Annotations.
    pub ann: Vec<Annotation>,
}

/// Goal of solving a FlatZinc instance.
#[derive(PartialEq, Debug)]
pub enum Method {
    /// Find any solution.
    Satisfy,
    /// Find the solution with the lowest value of the objective.
    Minimize(Literal),
    /// Find the solution with the highest value of the objective.
    Maximize(Literal),
}

/// The solve item of a FlatZinc instance.
#[derive(PartialEq, Debug)]
pub struct SolveObjective {
    /// The solve method.
    pub method: Method,
    /// Annotations of the solve item, search annotations among them.
    pub ann: Vec<Annotation>,
}

/// A FlatZinc instance.
#[derive(PartialEq, Debug)]
pub struct FlatZinc {
    /// The decision variables, in the order their names first occur.
    pub variables: Vec<Arc<Variable>>,
    /// The named arrays, in the order their names first occur.
    pub arrays: Vec<Arc<Array>>,
    /// The constraints, in source order.
    pub constraints: Vec<Constraint>,
    /// The declarations for which a solver reports values.
    pub output: Vec<NamedRef>,
    /// The goal of solving.
    pub solve: SolveObjective,
    /// The version of the FlatZinc serialization format.
    pub version: String,
}

// ----- the mathematical model of a linked instance -----

pub ghost enum PLit {
    Int(i64),
    Float(Seq<char>),
    Variable(PVar),
    Bool(bool),
    IntSet(Set<int>),
    FloatSet(Seq<(Seq<char>, Seq<char>)>),
    Str(Seq<char>),
}

pub ghost enum PType {
    Bool,
    Int(Option<Set<int>>),
    Float(Option<Seq<(Seq<char>, Seq<char>)>>),
    IntSet(Option<Set<int>>),
}

pub ghost struct PVar {
    pub name: Seq<char>,
    pub ty: PType,
    pub ann: Seq<PAnn>,
    pub defined: bool,
    pub introduced: bool,
}

pub ghost struct PArray {
    pub name: Seq<char>,
    pub contents: Seq<PLit>,
    pub ann: Seq<PAnn>,
    pub defined: bool,
    pub introduced: bool,
}

pub ghost enum PArg<L> {
    Array(Seq<L>),
    ArrayNamed(PArray),
    Literal(L),
}

pub ghost enum PAnn {
    Atom(Seq<char>),
    Call(PCall),
}

pub ghost struct PCall {
    pub id: Seq<char>,
    pub args: Seq<PArg<PAnnLit>>,
}

pub ghost enum PAnnLit {
    Literal(PLit),
    Variable(Seq<char>),
    Annotation(PAnn),
}

pub ghost enum PNamed {
    Variable(PVar),
    Array(PArray),
}

pub ghost struct PConstraint {
    pub id: Seq<char>,
    pub args: Seq<PArg<PLit>>,
    pub defines: Option<PNamed>,
    pub ann: Seq<PAnn>,
}

pub ghost enum PMethod {
    Satisfy,
    Minimize(PLit),
    Maximize(PLit),
}

pub ghost struct PSolve {
    pub method: PMethod,
    pub ann: Seq<PAnn>,
}

pub ghost struct PFlatZinc {
    pub variables: Seq<PVar>,
    pub arrays: Seq<PArray>,
    pub constraints: Seq<PConstraint>,
    pub output: Seq<PNamed>,
    pub solve: PSolve,
    pub version: Seq<char>,
}

/// The integers of an optional integer domain.
pub open spec fn opt_elems(d: Option<RangeList<i64>>) -> Option<Set<int>> {
    match d {
        Some(r) => Some(range_elems(int_ranges(r))),
        None => None,
    }
}

pub open spec fn type_view(t: Type) -> PType {
    match t {
        Type::Bool => PType::Bool,
        Type::Int(d) => PType::Int(opt_elems(d)),
        Type::Float(d) => PType::Float(
            match d {
                Some(v) => Some(float_pairs_view(v@)),
                None => None,
            },
        ),
        Type::IntSet(d) => PType::IntSet(opt_elems(d)),
    }
}

pub open spec fn lit_view(l: Literal) -> PLit
    decreases l,
{
    match l {
        Literal::Int(i) => PLit::Int(i),
        Literal::Float(t) => PLit::Float(t@),
        Literal::Variable(v) => PLit::Variable(var_view(*v)),
        Literal::Bool(b) => PLit::Bool(b),
        Literal::IntSet(r) => PLit::IntSet(range_elems(int_ranges(r))),
        Literal::FloatSet(v) => PLit::FloatSet(float_pairs_view(v@)),
        Literal::String(t) => PLit::Str(t@),
    }
}

pub open spec fn var_view(v: Variable) -> PVar
    decreases v,
{
    PVar {
        name: v.name@,
        ty: type_view(v.ty),
        ann: Seq::new(
            v.ann@.len(),
            |i: int|
                if 0 <= i < v.ann@.len() {
                    ann_view(v.ann@[i])
                } else {
                    PAnn::Atom(Seq::empty())
                },
        ),
        defined: v.defined,
        introduced: v.introduced,
    }
}

pub open spec fn array_view(a: Array) -> PArray
    decreases a,
{
    PArray {
        name: a.name@,
        contents: Seq::new(
            a.contents@.len(),
            |i: int|
                if 0 <= i < a.contents@.len() {
                    lit_view(a.contents@[i])
                } else {
                    PLit::Bool(false)
                },
        ),
        ann: Seq::new(
            a.ann@.len(),
            |i: int|
                if 0 <= i < a.ann@.len() {
                    ann_view(a.ann@[i])
                } else {
                    PAnn::Atom(Seq::empty())
                },
        ),
        defined: a.defined,
        introduced: a.introduced,
    }
}

pub open spec fn ann_view(a: Annotation) -> PAnn
    decreases a,
{
    match a {
        Annotation::Atom(t) => PAnn::Atom(t@),
        Annotation::Call(c) => PAnn::Call(call_view(c)),
    }
}

pub open spec fn call_view(c: AnnotationCall) -> PCall
    decreases c,
{
    PCall {
        id: c.id@,
        args: Seq::new(
            c.args@.len(),
            |i: int|
                if 0 <= i < c.args@.len() {
                    ann_arg_view(c.args@[i])
                } else {
                    PArg::Array(Seq::empty())
                },
        ),
    }
}

pub open spec fn ann_arg_view(a: Argument<AnnotationLiteral>) -> PArg<PAnnLit>
    decreases a,
{
    match a {
        Argument::Array(v) => PArg::Array(
            Seq::new(
                v@.len(),
                |i: int|
                    if 0 <= i < v@.len() {
                        ann_lit_view(v@[i])
                    } else {
                        PAnnLit::Literal(PLit::Bool(false))
                    },
            ),
        ),
        Argument::ArrayNamed(r) => PArg::ArrayNamed(array_view(*r)),
        Argument::Literal(l) => PArg::Literal(ann_lit_view(l)),
    }
}

pub open spec fn ann_lit_view(l: AnnotationLiteral) -> PAnnLit
    decreases l,
{
    match l {
        AnnotationLiteral::Literal(x) => PAnnLit::Literal(lit_view(x)),
        AnnotationLiteral::Variable(r) => PAnnLit::Variable(r@),
        AnnotationLiteral::Annotation(a) => PAnnLit::Annotation(ann_view(a)),
    }
}

impl View for Literal {
    type V = PLit;

    open spec fn view(&self) -> PLit {
        lit_view(*self)
    }
}

impl View for Type {
    type V = PType;

    open spec fn view(&self) -> PType {
        type_view(*self)
    }
}

impl View for Variable {
    type V = PVar;

    open spec fn view(&self) -> PVar {
        var_view(*self)
    }
}

impl View for Array {
    type V = PArray;

    open spec fn view(&self) -> PArray {
        array_view(*self)
    }
}

impl View for Annotation {
    type V = PAnn;

    open spec fn view(&self) -> PAnn {
        ann_view(*self)
    }
}

impl View for AnnotationCall {
    type V = PCall;

    open spec fn view(&self) -> PCall {
        call_view(*self)
    }
}

impl View for AnnotationLiteral {
    type V = PAnnLit;

    open spec fn view(&self) -> PAnnLit {
        ann_lit_view(*self)
    }
}

impl View for Argument<AnnotationLiteral> {
    type V = PArg<PAnnLit>;

    open spec fn view(&self) -> PArg<PAnnLit> {
        ann_arg_view(*self)
    }
}

impl View for Argument<Literal> {
    type V = PArg<PLit>;

    open spec fn view(&self) -> PArg<PLit> {
        match self {
            Argument::Array(v) => PArg::Array(views(v@)),
            Argument::ArrayNamed(r) => PArg::ArrayNamed(array_view(**r)),
            Argument::Literal(l) => PArg::Literal(l@),
        }
    }
}

impl View for NamedRef {
    type V = PNamed;

    open spec fn view(&self) -> PNamed {
        match self {
            NamedRef::Variable(v) => PNamed::Variable(var_view(**v)),
            NamedRef::Array(a) => PNamed::Array(array_view(**a)),
        }
    }
}

impl View for Constraint {
    type V = PConstraint;

    open spec fn view(&self) -> PConstraint {
        PConstraint {
            id: self.id@,
            args: views(self.args@),
            defines: match &self.defines {
                Some(n) => Some(n@),
                None => None,
            },
            ann: views(self.ann@),
        }
    }
}

impl View for Method {
    type V = PMethod;

    open spec fn view(&self) -> PMethod {
        match self {
            Method::Satisfy => PMethod::Satisfy,
            Method::Minimize(l) => PMethod::Minimize(l@),
            Method::Maximize(l) => PMethod::Maximize(l@),
        }
    }
}

impl View for SolveObjective {
    type V = PSolve;

    open spec fn view(&self) -> PSolve {
        PSolve { method: self.method@, ann: views(self.ann@) }
    }
}

impl View for FlatZinc {
    type V = PFlatZinc;

    open spec fn view(&self) -> PFlatZinc {
        PFlatZinc {
            variables: views(self.variables@),
            arrays: views(self.arrays@),
            constraints: views(self.constraints@),
            output: views(self.output@),
            solve: self.solve@,
            version: self.version@,
        }
    }
}

pub proof fn lemma_var_view(v: Variable)
    ensures
        var_view(v).ann == views(v.ann@),
{
    assert(var_view(v).ann =~= views(v.ann@));
}

pub proof fn lemma_array_view(a: Array)
    ensures
        array_view(a).contents == views(a.contents@),
        array_view(a).ann == views(a.ann@),
{
    assert(array_view(a).contents =~= views(a.contents@));
    assert(array_view(a).ann =~= views(a.ann@));
}

pub proof fn lemma_call_view(c: AnnotationCall)
    ensures
        call_view(c).args == views(c.args@),
{
    assert(call_view(c).args =~= views(c.args@));
}

pub proof fn lemma_ann_arg_array_view(v: Vec<AnnotationLiteral>)
    ensures
        ann_arg_view(Argument::Array(v)) == PArg::<PAnnLit>::Array(views(v@)),
{
    let w = ann_arg_view(Argument::Array(v))->Array_0;
    assert(w =~= views(v@));
}

/// The name of a referenced declaration.
pub open spec fn named_name(n: PNamed) -> Seq<char> {
    match n {
        PNamed::Variable(v) => v.name,
        PNamed::Array(a) => a.name,
    }
}

impl NamedRef {
    /// The name of the referenced declaration.
    pub fn name(&self) -> (r: String)
        ensures
            r@ == named_name(self@),
    {
        match self {
            NamedRef::Variable(v) => v.name.clone(),
            NamedRef::Array(a) => a.name.clone(),
        }
    }
}

impl PartialEq for NamedRef {
    fn eq(&self, other: &Self) -> (r: bool) {
        self.name() == other.name()
    }
}

impl vstd::std_specs::cmp::PartialEqSpecImpl for NamedRef {
    open spec fn obeys_eq_spec() -> bool {
        true
    }

    open spec fn eq_spec(&self, other: &Self) -> bool {
        named_name(self@) == named_name(other@)
    }
}

impl Eq for NamedRef {
}

/// `Hash::hash` of a string.
#[verifier::external_body]
fn hash_text<H: std::hash::Hasher>(s: &String, state: &mut H) {
    std::hash::Hash::hash(s, state)
}

impl std::hash::Hash for NamedRef {
    /// Hashes the name of the referenced declaration, as `==` compares it.
    fn hash<H: std::hash::Hasher>(&self, state: &mut H) {
        hash_text(&self.name(), state)
    }
}

impl From<Arc<Variable>> for NamedRef {
    fn from(v: Arc<Variable>) -> (r: NamedRef) {
        NamedRef::Variable(v)
    }
}

impl vstd::std_specs::convert::FromSpecImpl<Arc<Variable>> for NamedRef {
    open spec fn obeys_from_spec() -> bool {
        true
    }

    open spec fn from_spec(v: Arc<Variable>) -> NamedRef {
        NamedRef::Variable(v)
    }
}

impl From<Arc<Array>> for NamedRef {
    fn from(a: Arc<Array>) -> (r: NamedRef) {
        NamedRef::Array(a)
    }
}

impl vstd::std_specs::convert::FromSpecImpl<Arc<Array>> for NamedRef {
    open spec fn obeys_from_spec() -> bool {
        true
    }

    open spec fn from_spec(a: Arc<Array>) -> NamedRef {
        NamedRef::Array(a)
    }
}

impl VarRef {
    /// A reference to the variable that `v` shares.
    pub fn new(v: &Arc<Variable>) -> (r: VarRef)
        ensures
            r@ == v.name@,
    {
        VarRef { target: downgrade(v), name: v.name.clone() }
    }

    /// The name of the referenced variable.
    pub fn name(&self) -> (r: String)
        ensures
            r@ == self@,
    {
        self.name.clone()
    }

    /// The referenced variable, while a model still holds it: whether one
    /// does depends on what else holds the declaration. A variable it gives
    /// back has the name of the reference.
    pub fn upgrade(&self) -> (r: Option<Arc<Variable>>)
        ensures
            r matches Some(v) ==> v.name@ == self@,
    {
        match upgrade_weak(&self.target) {
            Some(v) => {
                if v.name == self.name {
                    Some(v)
                } else {
                    None
                }
            },
            None => None,
        }
    }
}

impl View for VarRef {
    /// A reference is known by the name of the variable it refers to: names
    /// are unique in a model.
    type V = Seq<char>;

    closed spec fn view(&self) -> Seq<char> {
        self.name@
    }
}

impl Clone for VarRef {
    fn clone(&self) -> (r: Self)
        ensures
            r@ == self@,
    {
        VarRef { target: clone_weak(&self.target), name: self.name.clone() }
    }
}

impl PartialEq for VarRef {
    fn eq(&self, other: &Self) -> (r: bool) {
        self.name == other.name
    }
}

impl vstd::std_specs::cmp::PartialEqSpecImpl for VarRef {
    open spec fn obeys_eq_spec() -> bool {
        true
    }

    open spec fn eq_spec(&self, other: &Self) -> bool {
        self@ == other@
    }
}

impl From<Literal> for AnnotationLiteral {
    fn from(l: Literal) -> (r: AnnotationLiteral) {
        AnnotationLiteral::Literal(l)
    }
}

impl vstd::std_specs::convert::FromSpecImpl<Literal> for AnnotationLiteral {
    open spec fn obeys_from_spec() -> bool {
        true
    }

    open spec fn from_spec(l: Literal) -> AnnotationLiteral {
        AnnotationLiteral::Literal(l)
    }
}

impl Variable {
    /// A key for this shared variable that identifies it by its allocation.
    pub fn cloned_key(self: &Arc<Self>) -> (r: ArcKey<Self>)
        ensures
            r@ == **self,
    {
        ArcKey::new(share(self))
    }
}

impl Array {
    /// A key for this shared array that identifies it by its allocation.
    pub fn cloned_key(self: &Arc<Self>) -> (r: ArcKey<Self>)
        ensures
            r@ == **self,
    {
        ArcKey::new(share(self))
    }
}

impl Default for Method {
    fn default() -> (r: Self)
        ensures
            r@ == PMethod::Satisfy,
    {
        Method::Satisfy
    }
}

impl Default for SolveObjective {
    fn default() -> (r: Self)
        ensures
            r@ == (PSolve { method: PMethod::Satisfy, ann: Seq::empty() }),
    {
        let r = SolveObjective { method: Method::Satisfy, ann: Vec::new() };
        proof {
            assert(r@.ann =~= Seq::<PAnn>::empty());
        }
        r
    }
}

impl Default for FlatZinc {
    fn default() -> (r: Self)
        ensures
            r@ == (PFlatZinc {
                variables: Seq::empty(),
                arrays: Seq::empty(),
                constraints: Seq::empty(),
                output: Seq::empty(),
                solve: PSolve { method: PMethod::Satisfy, ann: Seq::empty() },
                version: "1.0"@,
            }),
    {
        let r = FlatZinc {
            variables: Vec::new(),
            arrays: Vec::new(),
            constraints: Vec::new(),
            output: Vec::new(),
            solve: SolveObjective::default(),
            version: "1.0".to_owned(),
        };
        proof {
            assert(r@.variables =~= Seq::<PVar>::empty());
            assert(r@.arrays =~= Seq::<PArray>::empty());
            assert(r@.constraints =~= Seq::<PConstraint>::empty());
            assert(r@.output =~= Seq::<PNamed>::empty());
        }
        r
    }
}

} // verus!
