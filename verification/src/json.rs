//! The decisions of reading the JSON form of a model: base types and their
//! domains, numeric sets, and solve methods.
use vstd::prelude::*;
use vstd::string::StringExecFns;

use crate::intermediate::{float_pairs_view, Literal, Method, SpecLiteral, SpecMethod, SpecVarType, VarType};
use crate::print::{decimal, i64_text};

verus! {

/// The base type of a variable in the JSON form.
#[derive(Clone, Copy, PartialEq, Eq, Structural, Debug)]
pub enum BaseType {
    /// `"bool"`
    Bool,
    /// `"int"`
    Int,
    /// `"float"`
    Float,
    /// `"set of int"`
    IntSet,
}

/// The base type named `name`, if any.
pub open spec fn base_type_spec(name: Seq<char>) -> Option<BaseType> {
    if name == "bool"@ {
        Some(BaseType::Bool)
    } else if name == "int"@ {
        Some(BaseType::Int)
    } else if name == "float"@ {
        Some(BaseType::Float)
    } else if name == "set of int"@ {
        Some(BaseType::IntSet)
    } else {
        None
    }
}

/// The base type that `name` names.
pub fn base_type(name: &str) -> (r: Option<BaseType>)
    ensures
        r == base_type_spec(name@),
{
    let n = name.to_owned();
    if n == "bool".to_owned() {
        Some(BaseType::Bool)
    } else if n == "int".to_owned() {
        Some(BaseType::Int)
    } else if n == "float".to_owned() {
        Some(BaseType::Float)
    } else if n == "set of int".to_owned() {
        Some(BaseType::IntSet)
    } else {
        None
    }
}

/// A number of the JSON form: an integer, or a float as its text.
#[derive(PartialEq, Debug)]
pub enum Number {
    /// An integer.
    Int(i64),
    /// A floating point number, as its text.
    Float(String),
}

/// A set of numbers, as inclusive ranges.
#[derive(PartialEq, Debug)]
pub enum NumericSet {
    /// Integer ranges.
    Int(Vec<(i64, i64)>),
    /// Floating point ranges, each bound as its text.
    Float(Vec<(String, String)>),
}

pub ghost enum SpecNumber {
    Int(i64),
    Float(Seq<char>),
}

pub ghost enum SpecNumericSet {
    Int(Seq<(i64, i64)>),
    Float(Seq<(Seq<char>, Seq<char>)>),
}

impl View for Number {
    type V = SpecNumber;

    open spec fn view(&self) -> SpecNumber {
        match self {
            Number::Int(i) => SpecNumber::Int(*i),
            Number::Float(t) => SpecNumber::Float(t@),
        }
    }
}

impl View for NumericSet {
    type V = SpecNumericSet;

    open spec fn view(&self) -> SpecNumericSet {
        match self {
            NumericSet::Int(v) => SpecNumericSet::Int(v@),
            NumericSet::Float(v) => SpecNumericSet::Float(float_pairs_view(v@)),
        }
    }
}

/// The text of a number as a float bound: an integer is written in decimal.
pub open spec fn float_text(n: SpecNumber) -> Seq<char> {
    match n {
        SpecNumber::Int(i) => decimal(i as int),
        SpecNumber::Float(t) => t,
    }
}

/// A set with a float bound is a float set; otherwise it is an integer set.
pub open spec fn numeric_set_spec(v: Seq<(SpecNumber, SpecNumber)>) -> SpecNumericSet {
    if exists|i: int| 0 <= i < v.len() && (#[trigger] v[i].0 is Float || v[i].1 is Float) {
        SpecNumericSet::Float(Seq::new(v.len(), |i: int| (float_text(v[i].0), float_text(v[i].1))))
    } else {
        SpecNumericSet::Int(
            Seq::new(v.len(), |i: int| (v[i].0->Int_0, v[i].1->Int_0)),
        )
    }
}

fn number_text(n: &Number) -> (r: String)
    ensures
        r@ == float_text(n@),
{
    match n {
        Number::Int(i) => i64_text(*i),
        Number::Float(t) => t.clone(),
    }
}

/// The numeric set of the given ranges.
pub fn numeric_set(v: Vec<(Number, Number)>) -> (r: NumericSet)
    ensures
        r@ == numeric_set_spec(v@.map_values(|p: (Number, Number)| (p.0@, p.1@))),
{
    let ghost sv = v@.map_values(|p: (Number, Number)| (p.0@, p.1@));
    let mut any_float = false;
    let mut k: usize = 0;
    while k < v.len()
        invariant
            k <= v@.len(),
            sv == v@.map_values(|p: (Number, Number)| (p.0@, p.1@)),
            any_float == exists|i: int| 0 <= i < k && (#[trigger] sv[i].0 is Float || sv[i].1 is Float),
        decreases v@.len() - k,
    {
        let is_float = match (&v[k].0, &v[k].1) {
            (Number::Int(_), Number::Int(_)) => false,
            _ => true,
        };
        proof {
            assert(sv[k as int] == (v@[k as int].0@, v@[k as int].1@));
            assert(is_float == (sv[k as int].0 is Float || sv[k as int].1 is Float));
            if is_float {
                assert(sv[k as int].0 is Float || sv[k as int].1 is Float);
            }
            if exists|i: int| 0 <= i < k + 1 && (#[trigger] sv[i].0 is Float || sv[i].1 is Float) {
                let i = choose|i: int| 0 <= i < k + 1 && (#[trigger] sv[i].0 is Float || sv[i].1 is Float);
                if i < k {
                    assert(any_float);
                }
            }
        }
        any_float = any_float || is_float;
        k = k + 1;
    }
    if any_float {
        let mut out: Vec<(String, String)> = Vec::new();
        let mut k: usize = 0;
        while k < v.len()
            invariant
                k <= v@.len(),
                sv == v@.map_values(|p: (Number, Number)| (p.0@, p.1@)),
                out@.len() == k,
                float_pairs_view(out@) == Seq::new(k as nat, |i: int| (float_text(sv[i].0), float_text(sv[i].1))),
            decreases v@.len() - k,
        {
            let a = number_text(&v[k].0);
            let b = number_text(&v[k].1);
            let ghost before = out@;
            out.push((a, b));
            proof {
                assert(sv[k as int] == (v@[k as int].0@, v@[k as int].1@));
                let nw = Seq::new((k + 1) as nat, |i: int| (float_text(sv[i].0), float_text(sv[i].1)));
                assert forall|i: int| 0 <= i < k + 1 implies float_pairs_view(out@)[i] == nw[i] by {
                    if i < k {
                        assert(out@[i] == before[i]);
                        assert(float_pairs_view(before)[i] == (before[i].0@, before[i].1@));
                        assert(float_pairs_view(out@)[i] == (out@[i].0@, out@[i].1@));
                    } else {
                        assert(float_pairs_view(out@)[i] == (out@[i].0@, out@[i].1@));
                    }
                }
                assert(float_pairs_view(out@) =~= nw);
            }
            k = k + 1;
        }
        NumericSet::Float(out)
    } else {
        let mut out: Vec<(i64, i64)> = Vec::new();
        let mut k: usize = 0;
        while k < v.len()
            invariant
                k <= v@.len(),
                sv == v@.map_values(|p: (Number, Number)| (p.0@, p.1@)),
                !(exists|i: int| 0 <= i < v@.len() && (#[trigger] sv[i].0 is Float || sv[i].1 is Float)),
                out@ == Seq::new(k as nat, |i: int| (sv[i].0->Int_0, sv[i].1->Int_0)),
            decreases v@.len() - k,
        {
            proof {
                assert(sv[k as int] == (v@[k as int].0@, v@[k as int].1@));
                assert(!(sv[k as int].0 is Float || sv[k as int].1 is Float));
            }
            let (a, b) = match (&v[k].0, &v[k].1) {
                (Number::Int(a), Number::Int(b)) => (*a, *b),
                _ => {
                    proof {
                        assert(false);
                    }
                    (0, 0)
                },
            };
            out.push((a, b));
            proof {
                assert(out@ =~= Seq::new((k + 1) as nat, |i: int| (sv[i].0->Int_0, sv[i].1->Int_0)));
            }
            k = k + 1;
        }
        NumericSet::Int(out)
    }
}

/// The type of a variable of a base type with an optional domain, or why the
/// domain does not fit the type.
pub open spec fn into_type_spec(base: BaseType, domain: Option<SpecNumericSet>) -> Result<SpecVarType, Seq<char>> {
    match (base, domain) {
        (BaseType::Bool, None) => Ok(SpecVarType::Bool),
        (BaseType::Bool, Some(_)) => Err("bool variables cannot have a domain"@),
        (BaseType::Int, None) => Ok(SpecVarType::Int(None)),
        (BaseType::Int, Some(SpecNumericSet::Int(d))) => Ok(SpecVarType::Int(Some(d))),
        (BaseType::Int, Some(SpecNumericSet::Float(_))) => Err("int variables require an int domain"@),
        (BaseType::Float, None) => Ok(SpecVarType::Float(None)),
        (BaseType::Float, Some(SpecNumericSet::Float(d))) => Ok(SpecVarType::Float(Some(d))),
        (BaseType::Float, Some(SpecNumericSet::Int(_))) => Err("float variables require a float domain"@),
        (BaseType::IntSet, None) => Ok(SpecVarType::IntSet(None)),
        (BaseType::IntSet, Some(SpecNumericSet::Int(d))) => Ok(SpecVarType::IntSet(Some(d))),
        (BaseType::IntSet, Some(SpecNumericSet::Float(_))) => Err(
            "set of int variables require an int domain"@,
        ),
    }
}

/// The type of a variable of base type `base` with domain `domain`.
pub fn into_type(base: BaseType, domain: Option<NumericSet>) -> (r: Result<VarType, String>)
    ensures
        match into_type_spec(
            base,
            match domain {
                Some(d) => Some(d@),
                None => None,
            },
        ) {
            Ok(t) => r matches Ok(x) && x@ == t,
            Err(m) => r matches Err(x) && x@ == m,
        },
{
    match (base, domain) {
        (BaseType::Bool, None) => Ok(VarType::Bool),
        (BaseType::Bool, Some(_)) => Err("bool variables cannot have a domain".to_owned()),
        (BaseType::Int, None) => Ok(VarType::Int(None)),
        (BaseType::Int, Some(NumericSet::Int(d))) => Ok(VarType::Int(Some(d))),
        (BaseType::Int, Some(NumericSet::Float(_))) => Err("int variables require an int domain".to_owned()),
        (BaseType::Float, None) => Ok(VarType::Float(None)),
        (BaseType::Float, Some(NumericSet::Float(d))) => Ok(VarType::Float(Some(d))),
        (BaseType::Float, Some(NumericSet::Int(_))) => Err("float variables require a float domain".to_owned()),
        (BaseType::IntSet, None) => Ok(VarType::IntSet(None)),
        (BaseType::IntSet, Some(NumericSet::Int(d))) => Ok(VarType::IntSet(Some(d))),
        (BaseType::IntSet, Some(NumericSet::Float(_))) => Err(
            "set of int variables require an int domain".to_owned(),
        ),
    }
}

/// The solve method named `method` with an optional objective, or why they do
/// not fit.
pub open spec fn solve_method_spec(method: Seq<char>, objective: Option<SpecLiteral>) -> Result<SpecMethod, Seq<char>> {
    if method == "satisfy"@ {
        match objective {
            None => Ok(SpecMethod::Satisfy),
            Some(_) => Err("satisfy solve items cannot have an objective"@),
        }
    } else if method == "minimize"@ {
        match objective {
            Some(o) => Ok(SpecMethod::Minimize(o)),
            None => Err("minimize solve items require an objective"@),
        }
    } else if method == "maximize"@ {
        match objective {
            Some(o) => Ok(SpecMethod::Maximize(o)),
            None => Err("maximize solve items require an objective"@),
        }
    } else {
        Err("unknown solve method `"@ + method + "`"@)
    }
}

/// The solve method named `method` with objective `objective`.
pub fn solve_method(method: &str, objective: Option<Literal>) -> (r: Result<Method, String>)
    ensures
        match solve_method_spec(
            method@,
            match objective {
                Some(o) => Some(o@),
                None => None,
            },
        ) {
            Ok(m) => r matches Ok(x) && x@ == m,
            Err(m) => r matches Err(x) && x@ == m,
        },
{
    let m = method.to_owned();
    if m == "satisfy".to_owned() {
        match objective {
            None => Ok(Method::Satisfy),
            Some(_) => Err("satisfy solve items cannot have an objective".to_owned()),
        }
    } else if m == "minimize".to_owned() {
        match objective {
            Some(o) => Ok(Method::Minimize(o)),
            None => Err("minimize solve items require an objective".to_owned()),
        }
    } else if m == "maximize".to_owned() {
        match objective {
            Some(o) => Ok(Method::Maximize(o)),
            None => Err("maximize solve items require an objective".to_owned()),
        }
    } else {
        let mut e = "unknown solve method `".to_owned();
        e.append(method);
        e.append("`");
        Err(e)
    }
}

} // verus!
