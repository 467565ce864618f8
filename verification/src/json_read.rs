//! Reading a model from its JSON form. A JSON document arrives as a `Json`
//! value, objects as their entries in order, repeated keys included; the
//! functions here decide what the FlatZinc JSON format makes of it.
use vstd::prelude::*;

use crate::intermediate as im;
use crate::intermediate::{
    float_pairs_view, lemma_views_push, views, SpecAnnotation, SpecAnnotationCall, SpecAnnotationLiteral,
    SpecArgument, SpecArray, SpecConstraint, SpecDeclaration, SpecLiteral, SpecSolve,
    SpecVariable,
};
use crate::json::{base_type_spec, into_type_spec, numeric_set, solve_method_spec, numeric_set_spec, Number, NumericSet, SpecNumber, SpecNumericSet};
use crate::error::LinkError;
use crate::intern::{
    accepted, accepted_values, atoms_rn, atoms_x, conss_ids, conss_rn, constraints_ids_x, decls_ids, decls_rn,
    find_refused, first_refused, names_ids_x, rn_constraints_x, rn_names_x, rn_opt_solve_x, solve_ids,
    lemma_own_identifiers, model_atoms, model_ids, model_rn, solve_ids_x, solve_rn, uninit_ids_x,
    uninit_names,
};
use crate::fzn::{Phase, SpecReader};
use crate::link::{link, link_error_is, link_model, link_model_with, link_with_atoms, SpecLinkError};
use crate::model::{FlatZinc, PFlatZinc};
use crate::names::{extend_uninit, grown, intern_spec, lemma_grown_refl, lemma_grown_trans, NameStore, Names};

verus! {

/// A JSON value.
#[derive(PartialEq, Debug)]
pub enum Json {
    /// `null`
    Null,
    /// `true` or `false`
    Bool(bool),
    /// An integer.
    Int(i64),
    /// A number that is not an integer, as its text.
    Float(String),
    /// A string.
    Str(String),
    /// An array.
    Array(Vec<Json>),
    /// An object: its entries in the order they come, repeated keys included.
    Object(Vec<(String, Json)>),
}

/// The model of a JSON value.
pub ghost enum SJson {
    Null,
    Bool(bool),
    Int(i64),
    Float(Seq<char>),
    Str(Seq<char>),
    Array(Seq<SJson>),
    Object(Seq<(Seq<char>, SJson)>),
}

pub open spec fn json_view(j: Json) -> SJson
    decreases j,
{
    match j {
        Json::Null => SJson::Null,
        Json::Bool(b) => SJson::Bool(b),
        Json::Int(i) => SJson::Int(i),
        Json::Float(t) => SJson::Float(t@),
        Json::Str(t) => SJson::Str(t@),
        Json::Array(v) => SJson::Array(
            Seq::new(
                v@.len(),
                |i: int|
                    if 0 <= i < v@.len() {
                        json_view(v@[i])
                    } else {
                        SJson::Null
                    },
            ),
        ),
        Json::Object(f) => SJson::Object(
            Seq::new(
                f@.len(),
                |i: int|
                    if 0 <= i < f@.len() {
                        (f@[i].0@, json_view(f@[i].1))
                    } else {
                        (Seq::empty(), SJson::Null)
                    },
            ),
        ),
    }
}

impl View for Json {
    type V = SJson;

    open spec fn view(&self) -> SJson {
        json_view(*self)
    }
}

/// The model of the entries of an object.
pub open spec fn entries_view(f: Seq<(String, Json)>) -> Seq<(Seq<char>, SJson)> {
    f.map_values(|p: (String, Json)| (p.0@, p.1@))
}

pub proof fn lemma_array_view(v: Vec<Json>)
    ensures
        json_view(Json::Array(v)) == SJson::Array(views(v@)),
{
    assert(json_view(Json::Array(v))->Array_0 =~= views(v@));
}

pub proof fn lemma_object_view(f: Vec<(String, Json)>)
    ensures
        json_view(Json::Object(f)) == SJson::Object(entries_view(f@)),
{
    assert(json_view(Json::Object(f))->Object_0 =~= entries_view(f@));
}

// ----- objects -----

/// The index of the first entry with key `k`, or -1.
pub open spec fn key_index(f: Seq<(Seq<char>, SJson)>, k: Seq<char>) -> int
    decreases f.len(),
{
    if f.len() == 0 {
        -1
    } else if f[0].0 == k {
        0
    } else {
        let r = key_index(f.drop_first(), k);
        if r < 0 {
            -1
        } else {
            r + 1
        }
    }
}

proof fn lemma_key_index(f: Seq<(Seq<char>, SJson)>, k: Seq<char>)
    ensures
        -1 <= key_index(f, k) < f.len(),
        key_index(f, k) >= 0 ==> f[key_index(f, k)].0 == k,
        key_index(f, k) >= 0 ==> forall|i: int| 0 <= i < key_index(f, k) ==> f[i].0 != k,
        key_index(f, k) < 0 ==> forall|i: int| 0 <= i < f.len() ==> f[i].0 != k,
    decreases f.len(),
{
    if f.len() > 0 && f[0].0 != k {
        lemma_key_index(f.drop_first(), k);
        assert forall|i: int| 1 <= i < f.len() implies f[i] == f.drop_first()[i - 1] by {}
    }
}


/// The allowed keys `names`, each quoted, separated by commas.
pub open spec fn quoted_list(names: Seq<Seq<char>>) -> Seq<char>
    decreases names.len(),
{
    if names.len() == 0 {
        Seq::empty()
    } else if names.len() == 1 {
        "`"@ + names[0] + "`"@
    } else {
        quoted_list(names.drop_last()) + ", "@ + "`"@ + names[names.len() - 1] + "`"@
    }
}

/// What an unknown key was expected to be: the one allowed key, the two
/// joined by `or`, or `one of` the list.
pub open spec fn one_of(names: Seq<Seq<char>>) -> Seq<char> {
    if names.len() == 1 {
        "`"@ + names[0] + "`"@
    } else if names.len() == 2 {
        "`"@ + names[0] + "`"@ + " or "@ + "`"@ + names[1] + "`"@
    } else {
        "one of "@ + quoted_list(names)
    }
}

/// The refusal of key `k`, which is not among `allowed`.
pub open spec fn unknown_message(k: Seq<char>, allowed: Seq<Seq<char>>) -> Seq<char> {
    if allowed.len() == 0 {
        "unknown field `"@ + k + "`"@ + ", there are no fields"@
    } else {
        "unknown field `"@ + k + "`"@ + ", expected "@ + one_of(allowed)
    }
}

/// What is wrong with the keys of an object: the first key that is not
/// among `allowed` is an unknown field, the first that comes a second time a
/// duplicate field.
pub open spec fn key_error(f: Seq<(Seq<char>, SJson)>, allowed: Seq<Seq<char>>) -> Option<Seq<char>>
    decreases f.len(),
{
    if f.len() == 0 {
        None
    } else {
        match key_error(f.drop_last(), allowed) {
            Some(m) => Some(m),
            None => {
                let k = f[f.len() - 1].0;
                if !allowed.contains(k) {
                    Some(unknown_message(k, allowed))
                } else if f.drop_last().map_values(|e: (Seq<char>, SJson)| e.0).contains(k) {
                    Some("duplicate field `"@ + k + "`"@)
                } else {
                    None
                }
            },
        }
    }
}

/// A fault in the keys of a part of an object is the fault of the whole.
proof fn lemma_key_error_prefix(f: Seq<(Seq<char>, SJson)>, allowed: Seq<Seq<char>>, i: int)
    requires
        0 <= i <= f.len(),
        key_error(f.take(i), allowed) is Some,
    ensures
        key_error(f, allowed) == key_error(f.take(i), allowed),
    decreases f.len(),
{
    if i == f.len() {
        assert(f.take(i) =~= f);
    } else {
        assert(f.drop_last().take(i) =~= f.take(i));
        lemma_key_error_prefix(f.drop_last(), allowed, i);
    }
}

/// The keys `allowed`, as an unknown key was expected to be one of them.
fn one_of_text(allowed: &Vec<String>) -> (r: String)
    requires
        allowed@.len() > 0,
    ensures
        r@ == one_of(allowed@.map_values(|s: String| s@)),
{
    let ghost al = allowed@.map_values(|s: String| s@);
    proof {
        assert(al[0] == allowed@[0]@);
    }
    if allowed.len() == 1 {
        let mut m = String::from_str("`");
        m.append(allowed[0].as_str());
        m.append("`");
        proof {
            assert(m@ =~= one_of(al));
        }
        return m;
    }
    proof {
        assert(al[1] == allowed@[1]@);
    }
    if allowed.len() == 2 {
        let mut m = String::from_str("`");
        m.append(allowed[0].as_str());
        m.append("`");
        m.append(" or ");
        m.append("`");
        m.append(allowed[1].as_str());
        m.append("`");
        proof {
            assert(m@ =~= one_of(al));
        }
        return m;
    }
    let mut m = String::from_str("one of ");
    let mut i: usize = 0;
    proof {
        assert(quoted_list(al.take(0)) =~= Seq::<char>::empty());
        assert(m@ =~= "one of "@ + quoted_list(al.take(0)));
    }
    while i < allowed.len()
        invariant
            i <= allowed@.len(),
            allowed@.len() > 2,
            al == allowed@.map_values(|s: String| s@),
            m@ == "one of "@ + quoted_list(al.take(i as int)),
        decreases allowed@.len() - i,
    {
        let ghost before = m@;
        proof {
            assert(al[i as int] == allowed@[i as int]@);
            assert(al.take(i + 1).drop_last() =~= al.take(i as int));
            assert(al.take(i + 1)[i as int] == al[i as int]);
        }
        if i > 0 {
            m.append(", ");
        }
        m.append("`");
        m.append(allowed[i].as_str());
        m.append("`");
        proof {
            assert(m@ =~= "one of "@ + quoted_list(al.take(i + 1)));
        }
        i = i + 1;
    }
    proof {
        assert(al.take(allowed@.len() as int) =~= al);
    }
    m
}

/// Check the keys of an object: each among `allowed`, none twice.
fn key_check(f: &Vec<(String, Json)>, allowed: &Vec<String>) -> (r: Option<String>)
    ensures
        match key_error(entries_view(f@), allowed@.map_values(|s: String| s@)) {
            Some(m) => r matches Some(e) && e@ == m,
            None => r is None,
        },
{
    let ghost ev = entries_view(f@);
    let ghost al = allowed@.map_values(|s: String| s@);
    let mut i: usize = 0;
    proof {
        assert(ev.take(0) =~= Seq::<(Seq<char>, SJson)>::empty());
    }
    while i < f.len()
        invariant
            i <= f@.len(),
            ev == entries_view(f@),
            al == allowed@.map_values(|s: String| s@),
            key_error(ev.take(i as int), al) is None,
        decreases f@.len() - i,
    {
        let ghost pre = ev.take(i as int);
        proof {
            assert(ev.take(i + 1).drop_last() =~= pre);
            assert(ev.take(i + 1)[i as int] == ev[i as int]);
            assert(ev[i as int].0 == f@[i as int].0@);
        }
        let mut found = false;
        let mut j: usize = 0;
        while j < allowed.len()
            invariant
                j <= allowed@.len(),
                i < f@.len(),
                ev == entries_view(f@),
                al == allowed@.map_values(|s: String| s@),
                found <==> exists|b: int| 0 <= b < j && al[b] == ev[i as int].0,
            decreases allowed@.len() - j,
        {
            proof {
                assert(al[j as int] == allowed@[j as int]@);
            }
            if allowed[j] == f[i].0 {
                found = true;
            }
            j = j + 1;
        }
        proof {
            if found {
                let b = choose|b: int| 0 <= b < j && al[b] == ev[i as int].0;
                assert(al.contains(ev[i as int].0));
            } else if al.contains(ev[i as int].0) {
                let b = choose|b: int| 0 <= b < al.len() && al[b] == ev[i as int].0;
                assert(al[b] == ev[i as int].0);
            }
        }
        if !found {
            let mut m = "unknown field `".to_owned();
            m.append(f[i].0.as_str());
            m.append("`");
            if allowed.len() == 0 {
                m.append(", there are no fields");
            } else {
                m.append(", expected ");
                let e = one_of_text(allowed);
                m.append(e.as_str());
            }
            proof {
                lemma_key_error_prefix(ev, al, i + 1);
            }
            return Some(m);
        }
        let ghost keys = pre.map_values(|e: (Seq<char>, SJson)| e.0);
        let mut a: usize = 0;
        while a < i
            invariant
                a <= i,
                i < f@.len(),
                ev == entries_view(f@),
                pre == ev.take(i as int),
                keys == pre.map_values(|e: (Seq<char>, SJson)| e.0),
                al == allowed@.map_values(|s: String| s@),
                al.contains(ev[i as int].0),
                key_error(pre, al) is None,
                forall|c: int| 0 <= c < a ==> keys[c] != ev[i as int].0,
            decreases i - a,
        {
            proof {
                assert(ev[a as int].0 == f@[a as int].0@);
                assert(keys[a as int] == ev[a as int].0);
            }
            if f[a].0 == f[i].0 {
                proof {
                    assert(keys.contains(ev[i as int].0));
                    assert(ev.take(i + 1).drop_last() =~= pre);
                    assert(ev.take(i + 1)[i as int] == ev[i as int]);
                }
                let mut m = "duplicate field `".to_owned();
                m.append(f[i].0.as_str());
                m.append("`");
                proof {
                    lemma_key_error_prefix(ev, al, i + 1);
                }
                return Some(m);
            }
            a = a + 1;
        }
        proof {
            if keys.contains(ev[i as int].0) {
                let c = choose|c: int| 0 <= c < keys.len() && keys[c] == ev[i as int].0;
                assert(keys[c] != ev[i as int].0);
            }
        }
        i = i + 1;
    }
    proof {
        assert(ev.take(ev.len() as int) =~= ev);
    }
    None
}

/// The index of the entry with key `k`.
fn key_pos(f: &Vec<(String, Json)>, k: &str) -> (r: Option<usize>)
    ensures
        match r {
            Some(i) => i < f@.len() && key_index(entries_view(f@), k@) == i,
            None => key_index(entries_view(f@), k@) < 0,
        },
{
    let ghost ev = entries_view(f@);
    let key = k.to_owned();
    let mut i: usize = 0;
    while i < f.len()
        invariant
            i <= f@.len(),
            ev == entries_view(f@),
            key@ == k@,
            forall|j: int| 0 <= j < i ==> ev[j].0 != k@,
        decreases f@.len() - i,
    {
        if f[i].0 == key {
            proof {
                lemma_key_index(ev, k@);
                if key_index(ev, k@) < 0 {
                    assert(ev[i as int].0 == k@);
                } else if key_index(ev, k@) < i {
                    let x = key_index(ev, k@);
                    assert(ev[x].0 == k@);
                } else if key_index(ev, k@) > i {
                    assert(ev[i as int].0 == k@);
                }
            }
            return Some(i);
        }
        i = i + 1;
    }
    proof {
        lemma_key_index(ev, k@);
        if key_index(ev, k@) >= 0 {
            let x = key_index(ev, k@);
            assert(ev[x].0 == k@);
        }
    }
    None
}

// ----- numbers and literals -----

/// A number.
pub open spec fn num_spec(j: SJson) -> Option<SpecNumber> {
    match j {
        SJson::Int(i) => Some(SpecNumber::Int(i)),
        SJson::Float(t) => Some(SpecNumber::Float(t)),
        _ => None,
    }
}

/// Ranges, each a list of two numbers.
pub open spec fn pairs_spec(items: Seq<SJson>) -> Option<Seq<(SpecNumber, SpecNumber)>>
    decreases items.len(),
{
    if items.len() == 0 {
        Some(Seq::empty())
    } else {
        match pairs_spec(items.drop_last()) {
            None => None,
            Some(ps) => match items.last() {
                SJson::Array(p) => if p.len() == 2 && num_spec(p[0]) is Some && num_spec(p[1]) is Some {
                    Some(ps.push((num_spec(p[0])->Some_0, num_spec(p[1])->Some_0)))
                } else {
                    None
                },
                _ => None,
            },
        }
    }
}

/// A set of numbers: a list of ranges.
pub open spec fn ranges_spec(j: SJson) -> Option<SpecNumericSet> {
    match j {
        SJson::Array(items) => match pairs_spec(items) {
            Some(ps) => Some(numeric_set_spec(ps)),
            None => None,
        },
        _ => None,
    }
}

fn read_number(j: &Json) -> (r: Option<Number>)
    ensures
        match num_spec(j@) {
            Some(n) => r matches Some(x) && x@ == n,
            None => r is None,
        },
{
    match j {
        Json::Int(i) => Some(Number::Int(*i)),
        Json::Float(t) => Some(Number::Float(t.clone())),
        _ => None,
    }
}

/// A set of numbers from a list of ranges.
fn read_ranges(j: &Json) -> (r: Option<NumericSet>)
    ensures
        match ranges_spec(j@) {
            Some(s) => r matches Some(x) && x@ == s,
            None => r is None,
        },
{
    match j {
        Json::Array(items) => {
            proof {
                lemma_array_view(*items);
            }
            let ghost iv = views(items@);
            let mut out: Vec<(Number, Number)> = Vec::new();
            let mut k: usize = 0;
            proof {
                assert(iv.take(0) =~= Seq::<SJson>::empty());
                assert(out@.map_values(|p: (Number, Number)| (p.0@, p.1@)) =~= Seq::<(SpecNumber, SpecNumber)>::empty());
            }
            while k < items.len()
                invariant
                    k <= items@.len(),
                    iv == views(items@),
                    j@ == SJson::Array(iv),
                    pairs_spec(iv.take(k as int)) == Some(
                        out@.map_values(|p: (Number, Number)| (p.0@, p.1@)),
                    ),
                decreases items@.len() - k,
            {
                proof {
                    assert(iv.take(k + 1).drop_last() =~= iv.take(k as int));
                    assert(iv.take(k + 1).last() == items@[k as int]@);
                }
                match &items[k] {
                    Json::Array(p) => {
                        proof {
                            lemma_array_view(*p);
                        }
                        if p.len() != 2 {
                            proof {
                                assert(iv.take(k + 1).last() == SJson::Array(views(p@)));
                                assert(pairs_spec(iv.take(k + 1)) is None);
                                lemma_pairs_stop(iv, k as int);
                                assert(pairs_spec(iv) is None);
                                assert(j@ == SJson::Array(iv));
                            }
                            return None;
                        }
                        let a = read_number(&p[0]);
                        let b = read_number(&p[1]);
                        match (a, b) {
                            (Some(a), Some(b)) => {
                                proof {
                                    assert(views(p@)[0] == p@[0]@);
                                    assert(views(p@)[1] == p@[1]@);
                                }
                                let ghost before = out@;
                                out.push((a, b));
                                proof {
                                    assert(out@.map_values(|p: (Number, Number)| (p.0@, p.1@))
                                        =~= before.map_values(|p: (Number, Number)| (p.0@, p.1@)).push(
                                        (out@.last().0@, out@.last().1@),
                                    ));
                                }
                            },
                            _ => {
                                proof {
                                    assert(iv.take(k + 1).last() == SJson::Array(views(p@)));
                                    assert(views(p@)[0] == p@[0]@);
                                    assert(views(p@)[1] == p@[1]@);
                                    assert(pairs_spec(iv.take(k + 1)) is None);
                                    lemma_pairs_stop(iv, k as int);
                                    assert(pairs_spec(iv) is None);
                                    assert(j@ == SJson::Array(iv));
                                }
                                return None;
                            },
                        }
                    },
                    _ => {
                        proof {
                            assert(pairs_spec(iv.take(k + 1)) is None);
                            lemma_pairs_stop(iv, k as int);
                        }
                        return None;
                    },
                }
                k = k + 1;
            }
            proof {
                assert(iv.take(items@.len() as int) =~= iv);
            }
            Some(numeric_set(out))
        },
        _ => None,
    }
}

proof fn lemma_pairs_stop(iv: Seq<SJson>, k: int)
    requires
        0 <= k < iv.len(),
        pairs_spec(iv.take(k + 1)) is None,
    ensures
        pairs_spec(iv) is None,
    decreases iv.len() - k,
{
    if k + 1 < iv.len() {
        assert(iv.take(k + 2).drop_last() =~= iv.take(k + 1));
        lemma_pairs_stop(iv, k + 1);
    } else {
        assert(iv.take(k + 1) =~= iv);
    }
}


// ----- literals and annotations -----

/// `xs` before the list that `r` reads, or the failure of `r`.
pub open spec fn cons_all<T>(xs: Seq<T>, r: (Result<Seq<T>, Seq<char>>, Names)) -> (Result<Seq<T>, Seq<char>>, Names) {
    match r.0 {
        Ok(ys) => (Ok(xs + ys), r.1),
        Err(m) => (Err(m), r.1),
    }
}

proof fn lemma_cons_nothing<T>(r: (Result<Seq<T>, Seq<char>>, Names))
    ensures
        cons_all(Seq::<T>::empty(), r) == r,
{
    match r.0 {
        Ok(ys) => {
            assert(Seq::<T>::empty() + ys =~= ys);
        },
        Err(_) => {},
    }
}

proof fn lemma_cons_step<T>(xs: Seq<T>, x: T, r: (Result<Seq<T>, Seq<char>>, Names))
    ensures
        cons_all(xs, cons_all(seq![x], r)) == cons_all(xs.push(x), r),
{
    match r.0 {
        Ok(ys) => {
            assert(xs + (seq![x] + ys) =~= xs.push(x) + ys);
        },
        Err(_) => {},
    }
}

/// A literal: a boolean, a number, a name (interned), `{"set": ranges}` or
/// `{"string": text}`.
pub open spec fn lit_spec(j: SJson, n: Names) -> (Result<SpecLiteral, Seq<char>>, Names) {
    match j {
        SJson::Bool(b) => (Ok(SpecLiteral::Bool(b)), n),
        SJson::Int(i) => (Ok(SpecLiteral::Int(i)), n),
        SJson::Float(t) => (Ok(SpecLiteral::Float(t)), n),
        SJson::Str(s) => (Ok(SpecLiteral::Reference(intern_spec(n, s).1)), intern_spec(n, s).0),
        SJson::Object(f) => if f.len() > 0 && f[0].0 == "set"@ {
            match ranges_spec(f[0].1) {
                None => (Err("expected a list of ranges after `set`"@), n),
                Some(_) if f.len() > 1 => (Err(wrapper_extra_message()), n),
                Some(SpecNumericSet::Int(r)) => (Ok(SpecLiteral::IntSet(r)), n),
                Some(SpecNumericSet::Float(r)) => (Ok(SpecLiteral::FloatSet(r)), n),
            }
        } else if f.len() > 0 && f[0].0 == "string"@ {
            match f[0].1 {
                SJson::Str(s) => if f.len() > 1 {
                    (Err(wrapper_extra_message()), n)
                } else {
                    (Ok(SpecLiteral::Str(s)), n)
                },
                _ => (Err("expected a string after `string`"@), n),
            }
        } else {
            (Err("expected a string or set literal object"@), n)
        },
        _ => (Err("expected a literal"@), n),
    }
}

/// The refusal of a `set` or `string` wrapper object with more keys.
pub open spec fn wrapper_extra_message() -> Seq<char> {
    "unexpected extra fields in FlatZinc wrapper object"@
}

/// Read a literal.
pub fn read_literal(j: &Json, names: &mut NameStore) -> (r: Result<im::Literal, String>)
    requires
        old(names).wf(),
    ensures
        grown(old(names), final(names)),
        final(names).names() == lit_spec(j@, old(names).names()).1,
        match lit_spec(j@, old(names).names()).0 {
            Ok(x) => r matches Ok(y) && y@ == x,
            Err(m) => r matches Err(e) && e@ == m,
        },
{
    proof {
        lemma_grown_refl(names);
    }
    match j {
        Json::Bool(b) => Ok(im::Literal::Bool(*b)),
        Json::Int(i) => Ok(im::Literal::Int(*i)),
        Json::Float(t) => Ok(im::Literal::Float(t.clone())),
        Json::Str(s) => Ok(im::Literal::Reference(names.intern(s.clone()))),
        Json::Object(f) => {
            proof {
                lemma_object_view(*f);
            }
            if f.len() > 0 && f[0].0 == "set".to_owned() {
                match read_ranges(&f[0].1) {
                    None => Err("expected a list of ranges after `set`".to_owned()),
                    Some(_) if f.len() > 1 => Err("unexpected extra fields in FlatZinc wrapper object".to_owned()),
                    Some(NumericSet::Int(r)) => Ok(im::Literal::IntSet(r)),
                    Some(NumericSet::Float(r)) => Ok(im::Literal::FloatSet(r)),
                }
            } else if f.len() > 0 && f[0].0 == "string".to_owned() {
                match &f[0].1 {
                    Json::Str(s) => if f.len() > 1 {
                        Err("unexpected extra fields in FlatZinc wrapper object".to_owned())
                    } else {
                        Ok(im::Literal::Str(s.clone()))
                    },
                    _ => Err("expected a string after `string`".to_owned()),
                }
            } else {
                Err("expected a string or set literal object".to_owned())
            }
        },
        _ => Err("expected a literal".to_owned()),
    }
}

/// A constraint argument: a list of literals, or a literal.
pub open spec fn arg_spec(j: SJson, n: Names) -> (Result<SpecArgument<SpecLiteral>, Seq<char>>, Names) {
    match j {
        SJson::Array(items) => {
            let r = lits_spec(items, n);
            match r.0 {
                Ok(xs) => (Ok(SpecArgument::Array(xs)), r.1),
                Err(m) => (Err(m), r.1),
            }
        },
        _ => {
            let r = lit_spec(j, n);
            match r.0 {
                Ok(x) => (Ok(SpecArgument::Literal(x)), r.1),
                Err(m) => (Err(m), r.1),
            }
        },
    }
}

/// Read a constraint argument.
pub fn read_argument(j: &Json, names: &mut NameStore) -> (r: Result<im::Argument<im::Literal>, String>)
    requires
        old(names).wf(),
    ensures
        grown(old(names), final(names)),
        final(names).names() == arg_spec(j@, old(names).names()).1,
        match arg_spec(j@, old(names).names()).0 {
            Ok(x) => r matches Ok(y) && y@ == x,
            Err(m) => r matches Err(e) && e@ == m,
        },
{
    match j {
        Json::Array(items) => {
            proof {
                lemma_array_view(*items);
            }
            match read_literals(items, names) {
                Ok(xs) => Ok(im::Argument::Array(xs)),
                Err(e) => Err(e),
            }
        },
        _ => match read_literal(j, names) {
            Ok(x) => Ok(im::Argument::Literal(x)),
            Err(e) => Err(e),
        },
    }
}

/// An annotation literal: an object with an `id` or an `args` key is an
/// annotation call; anything else is a literal.
pub open spec fn ann_lit_spec(j: SJson, n: Names) -> (Result<SpecAnnotationLiteral, Seq<char>>, Names)
    decreases j, 2nat,
{
    let is_call = match j {
        SJson::Object(f) => f.len() > 0 && (f[0].0 == "id"@ || f[0].0 == "args"@),
        _ => false,
    };
    let unknown_first = match j {
        SJson::Object(f) => f.len() > 0 && !(f[0].0 == "id"@ || f[0].0 == "args"@ || f[0].0 == "set"@
            || f[0].0 == "string"@),
        _ => false,
    };
    if j == SJson::Object(Seq::empty()) {
        (Err("expected an annotation literal object"@), n)
    } else if unknown_first {
        (Err("expected a set, string, or annotation-call object"@), n)
    } else if is_call {
        let r = call_spec(j, n);
        match r.0 {
            Ok(c) => (Ok(SpecAnnotationLiteral::Annotation(c)), r.1),
            Err(m) => (Err(m), r.1),
        }
    } else {
        let r = lit_spec(j, n);
        match r.0 {
            Ok(x) => (Ok(SpecAnnotationLiteral::Literal(x)), r.1),
            Err(m) => (Err(m), r.1),
        }
    }
}

/// The refusal of an object that lacks key `k`.
pub open spec fn missing_message(k: Seq<char>) -> Seq<char> {
    "missing field `"@ + k + "`"@
}

/// The refusal of an object that lacks key `k`.
fn missing_field(k: &str) -> (r: String)
    ensures
        r@ == missing_message(k@),
{
    let mut m = String::from_str("missing field `");
    m.append(k);
    m.append("`");
    m
}

/// An annotation call: an object of exactly the keys `id`, a string, and
/// `args`, a list of annotation arguments.
pub open spec fn call_spec(j: SJson, n: Names) -> (Result<SpecAnnotationCall, Seq<char>>, Names)
    decreases j, 1nat,
{
    match j {
        SJson::Object(f) => {
            let ii = key_index(f, "id"@);
            let ai = key_index(f, "args"@);
            if key_error(f, seq!["id"@, "args"@]) is Some {
                (Err(key_error(f, seq!["id"@, "args"@])->Some_0), n)
            } else if !(0 <= ii < f.len()) {
                (Err(missing_message("id"@)), n)
            } else if !(0 <= ai < f.len()) {
                (Err(missing_message("args"@)), n)
            } else {
                match f[ii].1 {
                    SJson::Str(id) => match f[ai].1 {
                        SJson::Array(items) => {
                            let r = ann_args_spec(items, n);
                            match r.0 {
                                Ok(args) => (Ok(SpecAnnotationCall { id, args }), r.1),
                                Err(m) => (Err(m), r.1),
                            }
                        },
                        _ => (Err("expected a list after `args`"@), n),
                    },
                    _ => (Err("expected a string after `id`"@), n),
                }
            }
        },
        _ => (Err("expected an annotation call"@), n),
    }
}

/// An annotation argument: a list of annotation literals, or one.
pub open spec fn ann_arg_spec(j: SJson, n: Names) -> (Result<SpecArgument<SpecAnnotationLiteral>, Seq<char>>, Names)
    decreases j, 3nat,
{
    match j {
        SJson::Array(items) => {
            let r = ann_lits_spec(items, n);
            match r.0 {
                Ok(xs) => (Ok(SpecArgument::Array(xs)), r.1),
                Err(m) => (Err(m), r.1),
            }
        },
        _ => {
            let r = ann_lit_spec(j, n);
            match r.0 {
                Ok(x) => (Ok(SpecArgument::Literal(x)), r.1),
                Err(m) => (Err(m), r.1),
            }
        },
    }
}

/// An annotation: a string is an atom, an object a call.
pub open spec fn ann_spec(j: SJson, n: Names) -> (Result<SpecAnnotation, Seq<char>>, Names) {
    match j {
        SJson::Str(s) => (Ok(SpecAnnotation::Atom(s)), n),
        SJson::Object(_) => {
            let r = call_spec(j, n);
            match r.0 {
                Ok(c) => (Ok(SpecAnnotation::Call(c)), r.1),
                Err(m) => (Err(m), r.1),
            }
        },
        _ => (Err("expected an annotation"@), n),
    }
}

/// The allowed keys of an annotation call.
fn call_keys() -> (r: Vec<String>)
    ensures
        r@.map_values(|s: String| s@) == seq!["id"@, "args"@],
{
    let r = vec!["id".to_owned(), "args".to_owned()];
    proof {
        assert(r@.map_values(|s: String| s@) =~= seq!["id"@, "args"@]);
    }
    r
}

/// Read an annotation literal.
pub fn read_annotation_literal(j: &Json, names: &mut NameStore) -> (r: Result<im::AnnotationLiteral, String>)
    requires
        old(names).wf(),
    ensures
        grown(old(names), final(names)),
        final(names).names() == ann_lit_spec(j@, old(names).names()).1,
        match ann_lit_spec(j@, old(names).names()).0 {
            Ok(x) => r matches Ok(y) && y@ == x,
            Err(m) => r matches Err(e) && e@ == m,
        },
    decreases j, 2nat,
{
    let (is_empty, is_call, unknown_first) = match j {
        Json::Object(f) => {
            proof {
                lemma_object_view(*f);
            }
            if f.len() == 0 {
                proof {
                    assert(entries_view(f@) =~= Seq::<(Seq<char>, SJson)>::empty());
                }
                (true, false, false)
            } else {
                proof {
                    assert(entries_view(f@)[0].0 == f@[0].0@);
                    assert(entries_view(f@).len() > 0);
                    assert(j@ != SJson::Object(Seq::empty()));
                }
                let k = &f[0].0;
                let call = *k == "id".to_owned() || *k == "args".to_owned();
                let other = !(call || *k == "set".to_owned() || *k == "string".to_owned());
                (false, call, other)
            }
        },
        _ => (false, false, false),
    };
    proof {
        lemma_grown_refl(names);
    }
    if is_empty {
        return Err("expected an annotation literal object".to_owned());
    }
    if unknown_first {
        return Err("expected a set, string, or annotation-call object".to_owned());
    }
    if is_call {
        match read_call(j, names) {
            Ok(c) => Ok(im::AnnotationLiteral::Annotation(c)),
            Err(e) => Err(e),
        }
    } else {
        match read_literal(j, names) {
            Ok(x) => Ok(im::AnnotationLiteral::Literal(x)),
            Err(e) => Err(e),
        }
    }
}

/// Read an annotation call.
pub fn read_call(j: &Json, names: &mut NameStore) -> (r: Result<im::AnnotationCall, String>)
    requires
        old(names).wf(),
    ensures
        grown(old(names), final(names)),
        final(names).names() == call_spec(j@, old(names).names()).1,
        match call_spec(j@, old(names).names()).0 {
            Ok(x) => r matches Ok(y) && y@ == x,
            Err(m) => r matches Err(e) && e@ == m,
        },
    decreases j, 1nat,
{
    proof {
        lemma_grown_refl(names);
    }
    match j {
        Json::Object(f) => {
            proof {
                lemma_object_view(*f);
            }
            match key_check(f, &call_keys()) {
                Some(m) => return Err(m),
                None => {},
            }
            let ii = match key_pos(f, "id") {
                Some(i) => i,
                None => return Err(missing_field("id")),
            };
            let ai = match key_pos(f, "args") {
                Some(i) => i,
                None => return Err(missing_field("args")),
            };
            proof {
                assert(entries_view(f@)[ii as int].1 == f@[ii as int].1@);
                assert(entries_view(f@)[ai as int].1 == f@[ai as int].1@);
            }
            let id = match &f[ii].1 {
                Json::Str(s) => s.clone(),
                _ => return Err("expected a string after `id`".to_owned()),
            };
            match &f[ai].1 {
                Json::Array(items) => {
                    proof {
                        lemma_array_view(*items);
                        assert(decreases_to!(*j => *f));
                        assert(decreases_to!(*f => f@));
                        assert(decreases_to!(f@ => f@[ai as int]));
                        assert(decreases_to!(f@[ai as int] => f@[ai as int].1));
                        assert(decreases_to!(f@[ai as int].1 => *items));
                    }
                    match read_ann_arguments(items, names) {
                        Ok(args) => {
                            let c = im::AnnotationCall { id, args };
                            proof {
                                crate::fzn::annotations::lemma_ann_views(c);
                            }
                            Ok(c)
                        },
                        Err(e) => Err(e),
                    }
                },
                _ => Err("expected a list after `args`".to_owned()),
            }
        },
        _ => Err("expected an annotation call".to_owned()),
    }
}

/// Read an annotation argument.
pub fn read_ann_argument(j: &Json, names: &mut NameStore) -> (r: Result<im::Argument<im::AnnotationLiteral>, String>)
    requires
        old(names).wf(),
    ensures
        grown(old(names), final(names)),
        final(names).names() == ann_arg_spec(j@, old(names).names()).1,
        match ann_arg_spec(j@, old(names).names()).0 {
            Ok(x) => r matches Ok(y) && y@ == x,
            Err(m) => r matches Err(e) && e@ == m,
        },
    decreases j, 3nat,
{
    match j {
        Json::Array(items) => {
            proof {
                lemma_array_view(*items);
            }
            match read_ann_literals(items, names) {
                Ok(xs) => Ok(im::Argument::Array(xs)),
                Err(e) => Err(e),
            }
        },
        _ => match read_annotation_literal(j, names) {
            Ok(x) => Ok(im::Argument::Literal(x)),
            Err(e) => Err(e),
        },
    }
}

/// Read an annotation.
pub fn read_annotation(j: &Json, names: &mut NameStore) -> (r: Result<im::Annotation, String>)
    requires
        old(names).wf(),
    ensures
        grown(old(names), final(names)),
        final(names).names() == ann_spec(j@, old(names).names()).1,
        match ann_spec(j@, old(names).names()).0 {
            Ok(x) => r matches Ok(y) && y@ == x,
            Err(m) => r matches Err(e) && e@ == m,
        },
{
    proof {
        lemma_grown_refl(names);
    }
    match j {
        Json::Str(s) => Ok(im::Annotation::Atom(s.clone())),
        Json::Object(_) => match read_call(j, names) {
            Ok(c) => Ok(im::Annotation::Call(c)),
            Err(e) => Err(e),
        },
        _ => Err("expected an annotation".to_owned()),
    }
}

/// Literals in order.
pub open spec fn lits_spec(items: Seq<SJson>, n: Names) -> (Result<Seq<SpecLiteral>, Seq<char>>, Names)
    decreases items.len(),
{
    if items.len() == 0 {
        (Ok(Seq::empty()), n)
    } else {
        let a = lit_spec(items[0], n);
        match a.0 {
            Err(m) => (Err(m), a.1),
            Ok(x) => cons_all(seq![x], lits_spec(items.drop_first(), a.1)),
        }
    }
}

/// Literals in order.
fn read_literals(items: &Vec<Json>, names: &mut NameStore) -> (r: Result<Vec<im::Literal>, String>)
    requires
        old(names).wf(),
    ensures
        grown(old(names), final(names)),
        final(names).names() == lits_spec(views(items@), old(names).names()).1,
        match lits_spec(views(items@), old(names).names()).0 {
            Ok(xs) => r matches Ok(v) && views(v@) == xs,
            Err(m) => r matches Err(e) && e@ == m,
        },
{
    let ghost iv = views(items@);
    let ghost g0: NameStore = *names;
    let mut out: Vec<im::Literal> = Vec::new();
    let mut k: usize = 0;
    proof {
        lemma_grown_refl(names);
        assert(iv.subrange(0, iv.len() as int) =~= iv);
        assert(views(out@) =~= Seq::<<im::Literal as View>::V>::empty());
        lemma_cons_nothing(lits_spec(iv, g0.names()));
    }
    while k < items.len()
        invariant
            k <= items@.len(),
            iv == views(items@),
            g0.wf(),
            g0 == *old(names),
            grown(&g0, names),
            lits_spec(iv, g0.names()) == cons_all(
                views(out@),
                lits_spec(iv.subrange(k as int, iv.len() as int), names.names()),
            ),
        decreases items@.len() - k,
    {
        let ghost before: NameStore = *names;
        let ghost rest = iv.subrange(k as int, iv.len() as int);
        proof {
            assert(rest[0] == items@[k as int]@);
            assert(rest.drop_first() =~= iv.subrange(k + 1, iv.len() as int));
        }
        match read_literal(&items[k], names) {
            Ok(x) => {
                proof {
                    lemma_grown_trans(&g0, &before, names);
                    lemma_views_push(out@, x);
                    lemma_cons_step(views(out@), x@, lits_spec(iv.subrange(k + 1, iv.len() as int), names.names()));
                }
                out.push(x);
            },
            Err(e) => {
                proof {
                    lemma_grown_trans(&g0, &before, names);
                }
                return Err(e);
            },
        }
        k = k + 1;
    }
    proof {
        assert(iv.subrange(iv.len() as int, iv.len() as int) =~= Seq::<SJson>::empty());
        assert(views(out@) + Seq::<<im::Literal as View>::V>::empty() =~= views(out@));
    }
    Ok(out)
}

/// Constraint arguments in order.
pub open spec fn args_spec(items: Seq<SJson>, n: Names) -> (Result<Seq<SpecArgument<SpecLiteral>>, Seq<char>>, Names)
    decreases items.len(),
{
    if items.len() == 0 {
        (Ok(Seq::empty()), n)
    } else {
        let a = arg_spec(items[0], n);
        match a.0 {
            Err(m) => (Err(m), a.1),
            Ok(x) => cons_all(seq![x], args_spec(items.drop_first(), a.1)),
        }
    }
}

/// Constraint arguments in order.
fn read_arguments(items: &Vec<Json>, names: &mut NameStore) -> (r: Result<Vec<im::Argument<im::Literal>>, String>)
    requires
        old(names).wf(),
    ensures
        grown(old(names), final(names)),
        final(names).names() == args_spec(views(items@), old(names).names()).1,
        match args_spec(views(items@), old(names).names()).0 {
            Ok(xs) => r matches Ok(v) && views(v@) == xs,
            Err(m) => r matches Err(e) && e@ == m,
        },
{
    let ghost iv = views(items@);
    let ghost g0: NameStore = *names;
    let mut out: Vec<im::Argument<im::Literal>> = Vec::new();
    let mut k: usize = 0;
    proof {
        lemma_grown_refl(names);
        assert(iv.subrange(0, iv.len() as int) =~= iv);
        assert(views(out@) =~= Seq::<<im::Argument<im::Literal> as View>::V>::empty());
        lemma_cons_nothing(args_spec(iv, g0.names()));
    }
    while k < items.len()
        invariant
            k <= items@.len(),
            iv == views(items@),
            g0.wf(),
            g0 == *old(names),
            grown(&g0, names),
            args_spec(iv, g0.names()) == cons_all(
                views(out@),
                args_spec(iv.subrange(k as int, iv.len() as int), names.names()),
            ),
        decreases items@.len() - k,
    {
        let ghost before: NameStore = *names;
        let ghost rest = iv.subrange(k as int, iv.len() as int);
        proof {
            assert(rest[0] == items@[k as int]@);
            assert(rest.drop_first() =~= iv.subrange(k + 1, iv.len() as int));
        }
        match read_argument(&items[k], names) {
            Ok(x) => {
                proof {
                    lemma_grown_trans(&g0, &before, names);
                    lemma_views_push(out@, x);
                    lemma_cons_step(views(out@), x@, args_spec(iv.subrange(k + 1, iv.len() as int), names.names()));
                }
                out.push(x);
            },
            Err(e) => {
                proof {
                    lemma_grown_trans(&g0, &before, names);
                }
                return Err(e);
            },
        }
        k = k + 1;
    }
    proof {
        assert(iv.subrange(iv.len() as int, iv.len() as int) =~= Seq::<SJson>::empty());
        assert(views(out@) + Seq::<<im::Argument<im::Literal> as View>::V>::empty() =~= views(out@));
    }
    Ok(out)
}

/// Annotation arguments in order.
pub open spec fn ann_args_spec(items: Seq<SJson>, n: Names) -> (Result<Seq<SpecArgument<SpecAnnotationLiteral>>, Seq<char>>, Names)
    decreases items, 0nat,
{
    if items.len() == 0 {
        (Ok(Seq::empty()), n)
    } else {
        let a = ann_arg_spec(items[0], n);
        match a.0 {
            Err(m) => (Err(m), a.1),
            Ok(x) => cons_all(seq![x], ann_args_spec(items.drop_first(), a.1)),
        }
    }
}

/// Annotation arguments in order.
fn read_ann_arguments(items: &Vec<Json>, names: &mut NameStore) -> (r: Result<Vec<im::Argument<im::AnnotationLiteral>>, String>)
    requires
        old(names).wf(),
    ensures
        grown(old(names), final(names)),
        final(names).names() == ann_args_spec(views(items@), old(names).names()).1,
        match ann_args_spec(views(items@), old(names).names()).0 {
            Ok(xs) => r matches Ok(v) && views(v@) == xs,
            Err(m) => r matches Err(e) && e@ == m,
        },
    decreases items, 0nat,
{
    let ghost iv = views(items@);
    let ghost g0: NameStore = *names;
    let mut out: Vec<im::Argument<im::AnnotationLiteral>> = Vec::new();
    let mut k: usize = 0;
    proof {
        lemma_grown_refl(names);
        assert(iv.subrange(0, iv.len() as int) =~= iv);
        assert(views(out@) =~= Seq::<<im::Argument<im::AnnotationLiteral> as View>::V>::empty());
        lemma_cons_nothing(ann_args_spec(iv, g0.names()));
    }
    while k < items.len()
        invariant
            k <= items@.len(),
            iv == views(items@),
            g0.wf(),
            g0 == *old(names),
            grown(&g0, names),
            ann_args_spec(iv, g0.names()) == cons_all(
                views(out@),
                ann_args_spec(iv.subrange(k as int, iv.len() as int), names.names()),
            ),
        decreases items@.len() - k,
    {
        let ghost before: NameStore = *names;
        let ghost rest = iv.subrange(k as int, iv.len() as int);
        proof {
            assert(rest[0] == items@[k as int]@);
            assert(rest.drop_first() =~= iv.subrange(k + 1, iv.len() as int));
        }
            proof {
                assert(decreases_to!(*items => items@));
                assert(decreases_to!(items@ => items@[k as int]));
            }
        match read_ann_argument(&items[k], names) {
            Ok(x) => {
                proof {
                    lemma_grown_trans(&g0, &before, names);
                    lemma_views_push(out@, x);
                    lemma_cons_step(views(out@), x@, ann_args_spec(iv.subrange(k + 1, iv.len() as int), names.names()));
                }
                out.push(x);
            },
            Err(e) => {
                proof {
                    lemma_grown_trans(&g0, &before, names);
                }
                return Err(e);
            },
        }
        k = k + 1;
    }
    proof {
        assert(iv.subrange(iv.len() as int, iv.len() as int) =~= Seq::<SJson>::empty());
        assert(views(out@) + Seq::<<im::Argument<im::AnnotationLiteral> as View>::V>::empty() =~= views(out@));
    }
    Ok(out)
}

/// Annotation literals in order.
pub open spec fn ann_lits_spec(items: Seq<SJson>, n: Names) -> (Result<Seq<SpecAnnotationLiteral>, Seq<char>>, Names)
    decreases items, 0nat,
{
    if items.len() == 0 {
        (Ok(Seq::empty()), n)
    } else {
        let a = ann_lit_spec(items[0], n);
        match a.0 {
            Err(m) => (Err(m), a.1),
            Ok(x) => cons_all(seq![x], ann_lits_spec(items.drop_first(), a.1)),
        }
    }
}

/// Annotation literals in order.
fn read_ann_literals(items: &Vec<Json>, names: &mut NameStore) -> (r: Result<Vec<im::AnnotationLiteral>, String>)
    requires
        old(names).wf(),
    ensures
        grown(old(names), final(names)),
        final(names).names() == ann_lits_spec(views(items@), old(names).names()).1,
        match ann_lits_spec(views(items@), old(names).names()).0 {
            Ok(xs) => r matches Ok(v) && views(v@) == xs,
            Err(m) => r matches Err(e) && e@ == m,
        },
    decreases items, 0nat,
{
    let ghost iv = views(items@);
    let ghost g0: NameStore = *names;
    let mut out: Vec<im::AnnotationLiteral> = Vec::new();
    let mut k: usize = 0;
    proof {
        lemma_grown_refl(names);
        assert(iv.subrange(0, iv.len() as int) =~= iv);
        assert(views(out@) =~= Seq::<<im::AnnotationLiteral as View>::V>::empty());
        lemma_cons_nothing(ann_lits_spec(iv, g0.names()));
    }
    while k < items.len()
        invariant
            k <= items@.len(),
            iv == views(items@),
            g0.wf(),
            g0 == *old(names),
            grown(&g0, names),
            ann_lits_spec(iv, g0.names()) == cons_all(
                views(out@),
                ann_lits_spec(iv.subrange(k as int, iv.len() as int), names.names()),
            ),
        decreases items@.len() - k,
    {
        let ghost before: NameStore = *names;
        let ghost rest = iv.subrange(k as int, iv.len() as int);
        proof {
            assert(rest[0] == items@[k as int]@);
            assert(rest.drop_first() =~= iv.subrange(k + 1, iv.len() as int));
        }
            proof {
                assert(decreases_to!(*items => items@));
                assert(decreases_to!(items@ => items@[k as int]));
            }
        match read_annotation_literal(&items[k], names) {
            Ok(x) => {
                proof {
                    lemma_grown_trans(&g0, &before, names);
                    lemma_views_push(out@, x);
                    lemma_cons_step(views(out@), x@, ann_lits_spec(iv.subrange(k + 1, iv.len() as int), names.names()));
                }
                out.push(x);
            },
            Err(e) => {
                proof {
                    lemma_grown_trans(&g0, &before, names);
                }
                return Err(e);
            },
        }
        k = k + 1;
    }
    proof {
        assert(iv.subrange(iv.len() as int, iv.len() as int) =~= Seq::<SJson>::empty());
        assert(views(out@) + Seq::<<im::AnnotationLiteral as View>::V>::empty() =~= views(out@));
    }
    Ok(out)
}

/// Annotations in order.
pub open spec fn anns_spec(items: Seq<SJson>, n: Names) -> (Result<Seq<SpecAnnotation>, Seq<char>>, Names)
    decreases items.len(),
{
    if items.len() == 0 {
        (Ok(Seq::empty()), n)
    } else {
        let a = ann_spec(items[0], n);
        match a.0 {
            Err(m) => (Err(m), a.1),
            Ok(x) => cons_all(seq![x], anns_spec(items.drop_first(), a.1)),
        }
    }
}

/// Annotations in order.
fn read_annotation_list(items: &Vec<Json>, names: &mut NameStore) -> (r: Result<Vec<im::Annotation>, String>)
    requires
        old(names).wf(),
    ensures
        grown(old(names), final(names)),
        final(names).names() == anns_spec(views(items@), old(names).names()).1,
        match anns_spec(views(items@), old(names).names()).0 {
            Ok(xs) => r matches Ok(v) && views(v@) == xs,
            Err(m) => r matches Err(e) && e@ == m,
        },
{
    let ghost iv = views(items@);
    let ghost g0: NameStore = *names;
    let mut out: Vec<im::Annotation> = Vec::new();
    let mut k: usize = 0;
    proof {
        lemma_grown_refl(names);
        assert(iv.subrange(0, iv.len() as int) =~= iv);
        assert(views(out@) =~= Seq::<<im::Annotation as View>::V>::empty());
        lemma_cons_nothing(anns_spec(iv, g0.names()));
    }
    while k < items.len()
        invariant
            k <= items@.len(),
            iv == views(items@),
            g0.wf(),
            g0 == *old(names),
            grown(&g0, names),
            anns_spec(iv, g0.names()) == cons_all(
                views(out@),
                anns_spec(iv.subrange(k as int, iv.len() as int), names.names()),
            ),
        decreases items@.len() - k,
    {
        let ghost before: NameStore = *names;
        let ghost rest = iv.subrange(k as int, iv.len() as int);
        proof {
            assert(rest[0] == items@[k as int]@);
            assert(rest.drop_first() =~= iv.subrange(k + 1, iv.len() as int));
        }
        match read_annotation(&items[k], names) {
            Ok(x) => {
                proof {
                    lemma_grown_trans(&g0, &before, names);
                    lemma_views_push(out@, x);
                    lemma_cons_step(views(out@), x@, anns_spec(iv.subrange(k + 1, iv.len() as int), names.names()));
                }
                out.push(x);
            },
            Err(e) => {
                proof {
                    lemma_grown_trans(&g0, &before, names);
                }
                return Err(e);
            },
        }
        k = k + 1;
    }
    proof {
        assert(iv.subrange(iv.len() as int, iv.len() as int) =~= Seq::<SJson>::empty());
        assert(views(out@) + Seq::<<im::Annotation as View>::V>::empty() =~= views(out@));
    }
    Ok(out)
}

// ----- declarations, constraints and the solve item -----

/// The annotations under key `ann`, none when the key is absent.
pub open spec fn opt_anns_spec(f: Seq<(Seq<char>, SJson)>, n: Names) -> (Result<Seq<SpecAnnotation>, Seq<char>>, Names) {
    let i = key_index(f, "ann"@);
    if 0 <= i < f.len() {
        match f[i].1 {
            SJson::Array(items) => anns_spec(items, n),
            _ => (Err("expected a list after `ann`"@), n),
        }
    } else {
        (Ok(Seq::empty()), n)
    }
}

/// The boolean under key `k`, false when the key is absent.
pub open spec fn flag_spec(f: Seq<(Seq<char>, SJson)>, k: Seq<char>) -> Result<bool, Seq<char>> {
    let i = key_index(f, k);
    if 0 <= i < f.len() {
        match f[i].1 {
            SJson::Bool(b) => Ok(b),
            _ => Err("expected a boolean flag"@),
        }
    } else {
        Ok(false)
    }
}

fn read_opt_anns(f: &Vec<(String, Json)>, names: &mut NameStore) -> (r: Result<Vec<im::Annotation>, String>)
    requires
        old(names).wf(),
    ensures
        grown(old(names), final(names)),
        final(names).names() == opt_anns_spec(entries_view(f@), old(names).names()).1,
        match opt_anns_spec(entries_view(f@), old(names).names()).0 {
            Ok(xs) => r matches Ok(v) && views(v@) == xs,
            Err(m) => r matches Err(e) && e@ == m,
        },
{
    proof {
        lemma_grown_refl(names);
    }
    match key_pos(f, "ann") {
        Some(i) => {
            proof {
                assert(entries_view(f@)[i as int].1 == f@[i as int].1@);
            }
            match &f[i].1 {
                Json::Array(items) => {
                    proof {
                        lemma_array_view(*items);
                    }
                    read_annotation_list(items, names)
                },
                _ => Err("expected a list after `ann`".to_owned()),
            }
        },
        None => {
            let v: Vec<im::Annotation> = Vec::new();
            proof {
                assert(views(v@) =~= Seq::<SpecAnnotation>::empty());
            }
            Ok(v)
        },
    }
}

fn read_flag(f: &Vec<(String, Json)>, k: &str) -> (r: Result<bool, String>)
    ensures
        match flag_spec(entries_view(f@), k@) {
            Ok(b) => r == Ok::<bool, String>(b),
            Err(m) => r matches Err(e) && e@ == m,
        },
{
    match key_pos(f, k) {
        Some(i) => {
            proof {
                assert(entries_view(f@)[i as int].1 == f@[i as int].1@);
            }
            match &f[i].1 {
                Json::Bool(b) => Ok(*b),
                _ => Err("expected a boolean flag".to_owned()),
            }
        },
        None => Ok(false),
    }
}

/// The keys of a variable object.
pub open spec fn var_keys() -> Seq<Seq<char>> {
    seq!["type"@, "domain"@, "ann"@, "defined"@, "introduced"@]
}

/// A variable: `type`, an optional `domain` of ranges, optional `ann`, and
/// the flags `defined` and `introduced`; no other key, none twice.
pub open spec fn var_spec(j: SJson, n: Names) -> (Result<SpecVariable, Seq<char>>, Names) {
    match j {
        SJson::Object(f) => {
            let ti = key_index(f, "type"@);
            let di = key_index(f, "domain"@);
            if key_error(f, var_keys()) is Some {
                (Err(key_error(f, var_keys())->Some_0), n)
            } else if !(0 <= ti < f.len()) {
                (Err(missing_message("type"@)), n)
            } else if !(f[ti].1 is Str) {
                (Err("expected a string after `type`"@), n)
            } else if base_type_spec(f[ti].1->Str_0) is None {
                (Err("unknown variable type"@), n)
            } else if 0 <= di < f.len() && ranges_spec(f[di].1) is None {
                (Err("expected a list of ranges after `domain`"@), n)
            } else {
                let base = base_type_spec(f[ti].1->Str_0)->Some_0;
                let dom = if 0 <= di < f.len() {
                    Some(ranges_spec(f[di].1)->Some_0)
                } else {
                    None
                };
                let a = opt_anns_spec(f, n);
                match a.0 {
                    Err(m) => (Err(m), a.1),
                    Ok(ann) => match into_type_spec(base, dom) {
                        Err(m) => (Err(m), a.1),
                        Ok(ty) => match flag_spec(f, "defined"@) {
                            Err(m) => (Err(m), a.1),
                            Ok(defined) => match flag_spec(f, "introduced"@) {
                                Err(m) => (Err(m), a.1),
                                Ok(introduced) => (Ok(SpecVariable { ty, ann, defined, introduced }), a.1),
                            },
                        },
                    },
                }
            }
        },
        _ => (Err("expected a variable object"@), n),
    }
}

fn keys_of(a: &str, b: &str, c: &str, d: &str, e: Option<&str>) -> (r: Vec<String>)
    ensures
        r@.map_values(|s: String| s@) == (match e {
            Some(x) => seq![a@, b@, c@, d@, x@],
            None => seq![a@, b@, c@, d@],
        }),
{
    let mut r = vec![a.to_owned(), b.to_owned(), c.to_owned(), d.to_owned()];
    match e {
        Some(x) => {
            r.push(x.to_owned());
        },
        None => {},
    }
    proof {
        assert(r@.map_values(|s: String| s@) =~= (match e {
            Some(x) => seq![a@, b@, c@, d@, x@],
            None => seq![a@, b@, c@, d@],
        }));
    }
    r
}

/// Read a variable.
pub fn read_variable(j: &Json, names: &mut NameStore) -> (r: Result<im::Variable, String>)
    requires
        old(names).wf(),
    ensures
        grown(old(names), final(names)),
        final(names).names() == var_spec(j@, old(names).names()).1,
        match var_spec(j@, old(names).names()).0 {
            Ok(x) => r matches Ok(y) && y@ == x,
            Err(m) => r matches Err(e) && e@ == m,
        },
{
    proof {
        lemma_grown_refl(names);
    }
    let Json::Object(f) = j else { return Err("expected a variable object".to_owned()) };
    proof {
        lemma_object_view(*f);
        reveal_strlit("type");
        reveal_strlit("domain");
    }
    match key_check(f, &keys_of("type", "domain", "ann", "defined", Some("introduced"))) {
        Some(m) => return Err(m),
        None => {},
    }
    let base = match key_pos(f, "type") {
        Some(i) => {
            proof {
                assert(entries_view(f@)[i as int].1 == f@[i as int].1@);
            }
            match &f[i].1 {
                Json::Str(t) => match crate::json::base_type(t.as_str()) {
                    Some(b) => b,
                    None => return Err("unknown variable type".to_owned()),
                },
                _ => return Err("expected a string after `type`".to_owned()),
            }
        },
        None => return Err(missing_field("type")),
    };
    let dom = match key_pos(f, "domain") {
        Some(i) => {
            proof {
                assert(entries_view(f@)[i as int].1 == f@[i as int].1@);
            }
            match read_ranges(&f[i].1) {
                Some(d) => Some(d),
                None => return Err("expected a list of ranges after `domain`".to_owned()),
            }
        },
        None => None,
    };
    let ann = match read_opt_anns(f, names) {
        Ok(a) => a,
        Err(e) => return Err(e),
    };
    let ty = match crate::json::into_type(base, dom) {
        Ok(t) => t,
        Err(e) => return Err(e),
    };
    let defined = match read_flag(f, "defined") {
        Ok(b) => b,
        Err(e) => return Err(e),
    };
    let introduced = match read_flag(f, "introduced") {
        Ok(b) => b,
        Err(e) => return Err(e),
    };
    Ok(im::Variable { ty, ann, defined, introduced })
}


/// An array: `a`, a list of literals, optional `ann`, and the flags
/// `defined` and `introduced`; no other key, none twice.
pub open spec fn arr_spec(j: SJson, n: Names) -> (Result<SpecArray, Seq<char>>, Names) {
    match j {
        SJson::Object(f) => {
            let ci = key_index(f, "a"@);
            let keys = seq!["a"@, "ann"@, "defined"@, "introduced"@];
            if key_error(f, keys) is Some {
                (Err(key_error(f, keys)->Some_0), n)
            } else if !(0 <= ci < f.len()) {
                (Err(missing_message("a"@)), n)
            } else {
                match f[ci].1 {
                    SJson::Array(items) => {
                        let c = lits_spec(items, n);
                        match c.0 {
                            Err(m) => (Err(m), c.1),
                            Ok(contents) => {
                                let a = opt_anns_spec(f, c.1);
                                match a.0 {
                                    Err(m) => (Err(m), a.1),
                                    Ok(ann) => match flag_spec(f, "defined"@) {
                                        Err(m) => (Err(m), a.1),
                                        Ok(defined) => match flag_spec(f, "introduced"@) {
                                            Err(m) => (Err(m), a.1),
                                            Ok(introduced) => (
                                                Ok(SpecArray { contents, ann, defined, introduced }),
                                                a.1,
                                            ),
                                        },
                                    },
                                }
                            },
                        }
                    },
                    _ => (Err("expected a list after `a`"@), n),
                }
            }
        },
        _ => (Err("expected an array object"@), n),
    }
}

/// Read an array.
pub fn read_array(j: &Json, names: &mut NameStore) -> (r: Result<im::Array, String>)
    requires
        old(names).wf(),
    ensures
        grown(old(names), final(names)),
        final(names).names() == arr_spec(j@, old(names).names()).1,
        match arr_spec(j@, old(names).names()).0 {
            Ok(x) => r matches Ok(y) && y@ == x,
            Err(m) => r matches Err(e) && e@ == m,
        },
{
    proof {
        lemma_grown_refl(names);
    }
    let Json::Object(f) = j else { return Err("expected an array object".to_owned()) };
    proof {
        lemma_object_view(*f);
    }
    match key_check(f, &keys_of("a", "ann", "defined", "introduced", None)) {
        Some(m) => return Err(m),
        None => {},
    }
    let ci = match key_pos(f, "a") {
        Some(i) => i,
        None => return Err(missing_field("a")),
    };
    proof {
        assert(entries_view(f@)[ci as int].1 == f@[ci as int].1@);
    }
    let contents = match &f[ci].1 {
        Json::Array(items) => {
            proof {
                lemma_array_view(*items);
            }
            match read_literals(items, names) {
                Ok(c) => c,
                Err(e) => return Err(e),
            }
        },
        _ => return Err("expected a list after `a`".to_owned()),
    };
    let ghost mid: NameStore = *names;
    let ann = match read_opt_anns(f, names) {
        Ok(a) => a,
        Err(e) => {
            proof {
                lemma_grown_trans(old(names), &mid, names);
            }
            return Err(e);
        },
    };
    proof {
        lemma_grown_trans(old(names), &mid, names);
    }
    let defined = match read_flag(f, "defined") {
        Ok(b) => b,
        Err(e) => return Err(e),
    };
    let introduced = match read_flag(f, "introduced") {
        Ok(b) => b,
        Err(e) => return Err(e),
    };
    Ok(im::Array { contents, ann, defined, introduced })
}

/// A constraint: `id`, `args`, an optional `defines` naming what it
/// defines, and optional `ann`; no other key, none twice.
pub open spec fn cons_spec(j: SJson, n: Names) -> (Result<SpecConstraint, Seq<char>>, Names) {
    match j {
        SJson::Object(f) => {
            let ii = key_index(f, "id"@);
            let ai = key_index(f, "args"@);
            let di = key_index(f, "defines"@);
            let keys = seq!["id"@, "args"@, "defines"@, "ann"@];
            if key_error(f, keys) is Some {
                (Err(key_error(f, keys)->Some_0), n)
            } else if !(0 <= ii < f.len()) {
                (Err(missing_message("id"@)), n)
            } else if !(0 <= ai < f.len()) {
                (Err(missing_message("args"@)), n)
            } else if !(f[ii].1 is Str) {
                (Err("expected a string after `id`"@), n)
            } else if !(f[ai].1 is Array) {
                (Err("expected a list after `args`"@), n)
            } else {
                let id = f[ii].1->Str_0;
                let g = args_spec(f[ai].1->Array_0, n);
                match g.0 {
                    Err(m) => (Err(m), g.1),
                    Ok(args) => {
                        let d: (Result<Option<nat>, Seq<char>>, Names) = if 0 <= di < f.len() {
                            match f[di].1 {
                                SJson::Str(s) => (Ok(Some(intern_spec(g.1, s).1)), intern_spec(g.1, s).0),
                                _ => (Err("expected a name after `defines`"@), g.1),
                            }
                        } else {
                            (Ok(None), g.1)
                        };
                        match d.0 {
                            Err(m) => (Err(m), d.1),
                            Ok(defines) => {
                                let a = opt_anns_spec(f, d.1);
                                match a.0 {
                                    Ok(ann) => (Ok(SpecConstraint { id, args, defines, ann }), a.1),
                                    Err(m) => (Err(m), a.1),
                                }
                            },
                        }
                    },
                }
            }
        },
        _ => (Err("expected a constraint object"@), n),
    }
}

/// Read a constraint.
pub fn read_constraint(j: &Json, names: &mut NameStore) -> (r: Result<im::Constraint, String>)
    requires
        old(names).wf(),
    ensures
        grown(old(names), final(names)),
        final(names).names() == cons_spec(j@, old(names).names()).1,
        match cons_spec(j@, old(names).names()).0 {
            Ok(x) => r matches Ok(y) && y@ == x,
            Err(m) => r matches Err(e) && e@ == m,
        },
{
    proof {
        lemma_grown_refl(names);
    }
    let Json::Object(f) = j else { return Err("expected a constraint object".to_owned()) };
    proof {
        lemma_object_view(*f);
    }
    match key_check(f, &keys_of("id", "args", "defines", "ann", None)) {
        Some(m) => return Err(m),
        None => {},
    }
    let ii = match key_pos(f, "id") {
        Some(i) => i,
        None => return Err(missing_field("id")),
    };
    let ai = match key_pos(f, "args") {
        Some(i) => i,
        None => return Err(missing_field("args")),
    };
    proof {
        assert(entries_view(f@)[ii as int].1 == f@[ii as int].1@);
        assert(entries_view(f@)[ai as int].1 == f@[ai as int].1@);
    }
    let id = match &f[ii].1 {
        Json::Str(s) => s.clone(),
        _ => return Err("expected a string after `id`".to_owned()),
    };
    let args = match &f[ai].1 {
        Json::Array(items) => {
            proof {
                lemma_array_view(*items);
            }
            match read_arguments(items, names) {
                Ok(a) => a,
                Err(e) => return Err(e),
            }
        },
        _ => return Err("expected a list after `args`".to_owned()),
    };
    let ghost mid: NameStore = *names;
    let defines = match key_pos(f, "defines") {
        Some(i) => {
            proof {
                assert(entries_view(f@)[i as int].1 == f@[i as int].1@);
            }
            match &f[i].1 {
                Json::Str(s) => Some(names.intern(s.clone())),
                _ => return Err("expected a name after `defines`".to_owned()),
            }
        },
        None => {
            proof {
                lemma_grown_refl(names);
            }
            None
        },
    };
    proof {
        lemma_grown_trans(old(names), &mid, names);
    }
    let ghost mid2: NameStore = *names;
    let ann = match read_opt_anns(f, names) {
        Ok(a) => a,
        Err(e) => {
            proof {
                lemma_grown_trans(old(names), &mid2, names);
            }
            return Err(e);
        },
    };
    proof {
        lemma_grown_trans(old(names), &mid2, names);
    }
    Ok(im::Constraint { id, args, defines, ann })
}

/// The solve item: `method`, an optional `objective` literal, and optional
/// `ann`; no other key, none twice.
pub open spec fn solve_spec(j: SJson, n: Names) -> (Result<SpecSolve, Seq<char>>, Names) {
    match j {
        SJson::Object(f) => {
            let mi = key_index(f, "method"@);
            let oi = key_index(f, "objective"@);
            let keys = seq!["method"@, "objective"@, "ann"@];
            if key_error(f, keys) is Some {
                (Err(key_error(f, keys)->Some_0), n)
            } else if !(0 <= mi < f.len()) {
                (Err(missing_message("method"@)), n)
            } else {
                match f[mi].1 {
                    SJson::Str(m) => {
                        let o: (Result<Option<SpecLiteral>, Seq<char>>, Names) = if 0 <= oi < f.len() {
                            let l = lit_spec(f[oi].1, n);
                            match l.0 {
                                Ok(x) => (Ok(Some(x)), l.1),
                                Err(e) => (Err(e), l.1),
                            }
                        } else {
                            (Ok(None), n)
                        };
                        match o.0 {
                            Err(e) => (Err(e), o.1),
                            Ok(objective) => {
                                let a = opt_anns_spec(f, o.1);
                                match a.0 {
                                    Err(e) => (Err(e), a.1),
                                    Ok(ann) => match solve_method_spec(m, objective) {
                                        Ok(method) => (Ok(SpecSolve { method, ann }), a.1),
                                        Err(e) => (Err(e), a.1),
                                    },
                                }
                            },
                        }
                    },
                    _ => (Err("expected a string after `method`"@), n),
                }
            }
        },
        _ => (Err("expected a solve object"@), n),
    }
}

/// Read the solve item.
pub fn read_solve(j: &Json, names: &mut NameStore) -> (r: Result<im::SolveObjective, String>)
    requires
        old(names).wf(),
    ensures
        grown(old(names), final(names)),
        final(names).names() == solve_spec(j@, old(names).names()).1,
        match solve_spec(j@, old(names).names()).0 {
            Ok(x) => r matches Ok(y) && y@ == x,
            Err(m) => r matches Err(e) && e@ == m,
        },
{
    proof {
        lemma_grown_refl(names);
    }
    let Json::Object(f) = j else { return Err("expected a solve object".to_owned()) };
    proof {
        lemma_object_view(*f);
    }
    let keys = vec!["method".to_owned(), "objective".to_owned(), "ann".to_owned()];
    proof {
        assert(keys@.map_values(|s: String| s@) =~= seq!["method"@, "objective"@, "ann"@]);
    }
    match key_check(f, &keys) {
        Some(m) => return Err(m),
        None => {},
    }
    let mi = match key_pos(f, "method") {
        Some(i) => i,
        None => return Err(missing_field("method")),
    };
    proof {
        assert(entries_view(f@)[mi as int].1 == f@[mi as int].1@);
    }
    let method = match &f[mi].1 {
        Json::Str(s) => s.clone(),
        _ => return Err("expected a string after `method`".to_owned()),
    };
    let objective = match key_pos(f, "objective") {
        Some(i) => {
            proof {
                assert(entries_view(f@)[i as int].1 == f@[i as int].1@);
            }
            match read_literal(&f[i].1, names) {
                Ok(x) => Some(x),
                Err(e) => return Err(e),
            }
        },
        None => None,
    };
    let ghost mid: NameStore = *names;
    let ann = match read_opt_anns(f, names) {
        Ok(a) => a,
        Err(e) => {
            proof {
                lemma_grown_trans(old(names), &mid, names);
            }
            return Err(e);
        },
    };
    proof {
        lemma_grown_trans(old(names), &mid, names);
    }
    match crate::json::solve_method(method.as_str(), objective) {
        Ok(m) => Ok(im::SolveObjective { method: m, ann }),
        Err(e) => Err(e),
    }
}


// ----- the whole model -----

/// What has been read of a model so far.
pub ghost struct Reading {
    pub names: Names,
    pub decls: Seq<SpecDeclaration>,
    pub constraints: Seq<SpecConstraint>,
    pub output: Seq<nat>,
    pub solve: Option<SpecSolve>,
    pub version: Option<Seq<char>>,
    pub seen: Seq<Seq<char>>,
}

/// The message for a name declared a second time.
pub open spec fn duplicate_message(n: Seq<char>) -> Seq<char> {
    "duplicate definition of `"@ + n + "`"@
}

/// One declaration `(name, value)`: the name is interned, the value read as
/// a variable or an array, and the name declared; a name declared twice is
/// refused.
pub open spec fn decl_spec(st: Reading, e: (Seq<char>, SJson), arrays: bool) -> Result<Reading, Seq<char>> {
    let (n1, id) = intern_spec(st.names, e.0);
    let d: (Result<SpecDeclaration, Seq<char>>, Names) = if arrays {
        let a = arr_spec(e.1, n1);
        (
            match a.0 {
                Ok(x) => Ok(SpecDeclaration::Array(x)),
                Err(m) => Err(m),
            },
            a.1,
        )
    } else {
        let v = var_spec(e.1, n1);
        (
            match v.0 {
                Ok(x) => Ok(SpecDeclaration::Variable(x)),
                Err(m) => Err(m),
            },
            v.1,
        )
    };
    let decls = extend_uninit(st.decls, d.1.len());
    match d.0 {
        Ok(x) => if decls[id as int] is Uninit {
            Ok(Reading { names: d.1, decls: decls.update(id as int, x), ..st })
        } else {
            Err(duplicate_message(e.0))
        },
        Err(m) => Err(m),
    }
}

/// The declarations of an object, in order.
pub open spec fn decls_spec(st: Reading, f: Seq<(Seq<char>, SJson)>, arrays: bool) -> Result<Reading, Seq<char>>
    decreases f.len(),
{
    if f.len() == 0 {
        Ok(st)
    } else {
        match decl_spec(st, f[0], arrays) {
            Ok(st2) => decls_spec(st2, f.drop_first(), arrays),
            Err(m) => Err(m),
        }
    }
}

/// The constraints of a list, in order.
pub open spec fn cons_list_spec(st: Reading, items: Seq<SJson>) -> Result<Reading, Seq<char>>
    decreases items.len(),
{
    if items.len() == 0 {
        Ok(st)
    } else {
        let c = cons_spec(items[0], st.names);
        match c.0 {
            Ok(x) => cons_list_spec(
                Reading {
                    names: c.1,
                    decls: extend_uninit(st.decls, c.1.len()),
                    constraints: st.constraints.push(x),
                    ..st
                },
                items.drop_first(),
            ),
            Err(m) => Err(m),
        }
    }
}

/// The message for an output entry that is not a name.
pub open spec fn output_message() -> Seq<char> {
    "expected a name in `output`"@
}

/// The output names of a list, each interned, in order.
pub open spec fn output_spec(st: Reading, items: Seq<SJson>) -> Result<Reading, Seq<char>>
    decreases items.len(),
{
    if items.len() == 0 {
        Ok(st)
    } else {
        match items[0] {
            SJson::Str(s) => {
                let (n1, id) = intern_spec(st.names, s);
                output_spec(
                    Reading {
                        names: n1,
                        decls: extend_uninit(st.decls, n1.len()),
                        output: st.output.push(id),
                        ..st
                    },
                    items.drop_first(),
                )
            },
            _ => Err(output_message()),
        }
    }
}

/// The keys of the top-level object that the format knows.
pub open spec fn top_key(k: Seq<char>) -> bool {
    k == "variables"@ || k == "arrays"@ || k == "constraints"@ || k == "output"@ || k == "solve"@
        || k == "version"@
}

/// The message for a key of the top-level object that comes twice.
pub open spec fn repeated_message(k: Seq<char>) -> Seq<char> {
    "duplicate field `"@ + k + "`"@
}

/// The message for the value of a known top-level key that has the wrong
/// kind.
pub open spec fn top_kind_message(k: Seq<char>) -> Seq<char> {
    if k == "variables"@ || k == "arrays"@ {
        "expected an object of declarations"@
    } else if k == "constraints"@ {
        "expected a list of constraints"@
    } else if k == "output"@ {
        "expected a list of output names"@
    } else {
        "expected a string after `version`"@
    }
}

/// One entry of the top-level object. A known key may come once; an unknown
/// key is passed over.
pub open spec fn top_step(st: Reading, e: (Seq<char>, SJson)) -> Result<Reading, Seq<char>> {
    if !top_key(e.0) {
        Ok(st)
    } else if st.seen.contains(e.0) {
        Err(repeated_message(e.0))
    } else {
        let st1 = Reading { seen: st.seen.push(e.0), ..st };
        if e.0 == "variables"@ || e.0 == "arrays"@ {
            match e.1 {
                SJson::Object(f) => decls_spec(st1, f, e.0 == "arrays"@),
                _ => Err(top_kind_message(e.0)),
            }
        } else if e.0 == "constraints"@ {
            match e.1 {
                SJson::Array(items) => cons_list_spec(st1, items),
                _ => Err(top_kind_message(e.0)),
            }
        } else if e.0 == "output"@ {
            match e.1 {
                SJson::Array(items) => output_spec(st1, items),
                _ => Err(top_kind_message(e.0)),
            }
        } else if e.0 == "solve"@ {
            let s = solve_spec(e.1, st1.names);
            match s.0 {
                Ok(x) => Ok(
                    Reading {
                        names: s.1,
                        decls: extend_uninit(st1.decls, s.1.len()),
                        solve: Some(x),
                        ..st1
                    },
                ),
                Err(m) => Err(m),
            }
        } else {
            match e.1 {
                SJson::Str(t) => Ok(Reading { version: Some(t), ..st1 }),
                _ => Err(top_kind_message(e.0)),
            }
        }
    }
}

/// The entries of the top-level object, in order.
pub open spec fn top_spec(st: Reading, f: Seq<(Seq<char>, SJson)>) -> Result<Reading, Seq<char>>
    decreases f.len(),
{
    if f.len() == 0 {
        Ok(st)
    } else {
        match top_step(st, f[0]) {
            Ok(st2) => top_spec(st2, f.drop_first()),
            Err(m) => Err(m),
        }
    }
}

/// An entry with a key that the top-level object does not know, put in
/// anywhere, leaves the reading of the entries as it was.
proof fn lemma_top_spec_insert(st: Reading, f: Seq<(Seq<char>, SJson)>, p: int, e: (Seq<char>, SJson))
    requires
        0 <= p <= f.len(),
        !top_key(e.0),
    ensures
        top_spec(st, f.insert(p, e)) == top_spec(st, f),
    decreases p,
{
    let g = f.insert(p, e);
    if p == 0 {
        assert(g[0] == e);
        assert(g.drop_first() =~= f);
    } else {
        assert(g[0] == f[0]);
        assert(g.drop_first() =~= f.drop_first().insert(p - 1, e));
        match top_step(st, f[0]) {
            Ok(st2) => {
                lemma_top_spec_insert(st2, f.drop_first(), p - 1, e);
            },
            Err(_) => {},
        }
    }
}

/// A key outside `allowed` makes the keys of an object faulty.
proof fn lemma_unknown_key(f: Seq<(Seq<char>, SJson)>, allowed: Seq<Seq<char>>, i: int)
    requires
        0 <= i < f.len(),
        !allowed.contains(f[i].0),
    ensures
        key_error(f, allowed) is Some,
    decreases f.len(),
{
    if i < f.len() - 1 {
        assert(f.drop_last()[i] == f[i]);
        lemma_unknown_key(f.drop_last(), allowed, i);
    }
}

/// An entry whose key the format does not know, added anywhere to the
/// top-level object of a model, leaves what is read the same: the model, or
/// the same error.
pub proof fn law_unknown_top_key_ignored(f: Seq<(Seq<char>, SJson)>, p: int, e: (Seq<char>, SJson))
    requires
        0 <= p <= f.len(),
        !top_key(e.0),
    ensures
        read_model_spec(f.insert(p, e)) == read_model_spec(f),
{
    lemma_top_spec_insert(reading_start(), f, p, e);
}

/// A key that the format does not know, in a variable, an array, a
/// constraint, a solve item or an annotation call, makes reading that
/// object fail.
pub proof fn law_unknown_inner_key_refused(f: Seq<(Seq<char>, SJson)>, n: Names, i: int)
    requires
        0 <= i < f.len(),
    ensures
        !var_keys().contains(f[i].0) ==> var_spec(SJson::Object(f), n).0 is Err,
        !seq!["a"@, "ann"@, "defined"@, "introduced"@].contains(f[i].0) ==> arr_spec(
            SJson::Object(f),
            n,
        ).0 is Err,
        !seq!["id"@, "args"@, "defines"@, "ann"@].contains(f[i].0) ==> cons_spec(SJson::Object(f), n).0 is Err,
        !seq!["method"@, "objective"@, "ann"@].contains(f[i].0) ==> solve_spec(SJson::Object(f), n).0 is Err,
        !seq!["id"@, "args"@].contains(f[i].0) ==> call_spec(SJson::Object(f), n).0 is Err,
{
    if !var_keys().contains(f[i].0) {
        lemma_unknown_key(f, var_keys(), i);
    }
    if !seq!["a"@, "ann"@, "defined"@, "introduced"@].contains(f[i].0) {
        lemma_unknown_key(f, seq!["a"@, "ann"@, "defined"@, "introduced"@], i);
    }
    if !seq!["id"@, "args"@, "defines"@, "ann"@].contains(f[i].0) {
        lemma_unknown_key(f, seq!["id"@, "args"@, "defines"@, "ann"@], i);
    }
    if !seq!["method"@, "objective"@, "ann"@].contains(f[i].0) {
        lemma_unknown_key(f, seq!["method"@, "objective"@, "ann"@], i);
    }
    if !seq!["id"@, "args"@].contains(f[i].0) {
        lemma_unknown_key(f, seq!["id"@, "args"@], i);
    }
}

/// Nothing read yet.
pub open spec fn reading_start() -> Reading {
    Reading {
        names: Seq::empty(),
        decls: Seq::empty(),
        constraints: Seq::empty(),
        output: Seq::empty(),
        solve: None,
        version: None,
        seen: Seq::empty(),
    }
}

/// The message of a failure to link the names of a model.
pub open spec fn link_failure_message(k: SpecLinkError) -> Seq<char> {
    match k {
        SpecLinkError::Unknown(n) => "unknown FlatZinc variable or array `"@ + n + "`"@,
        SpecLinkError::Nested(n) => "array identifier `"@ + n + "` used as part of an array"@,
    }
}

/// A model from the entries of the top-level JSON object: they are read in
/// order, a solve item is required, a missing version is empty, and the
/// names are then linked.
pub open spec fn read_model_spec(f: Seq<(Seq<char>, SJson)>) -> Result<PFlatZinc, Seq<char>> {
    match top_spec(reading_start(), f) {
        Err(m) => Err(m),
        Ok(st) => finish_reading_spec(st),
    }
}

/// A model read from JSON whose names are not linked yet.
pub struct Reader {
    names: NameStore,
    constraints: Vec<im::Constraint>,
    output: Vec<im::NameId>,
    solve: Option<im::SolveObjective>,
    version: Option<String>,
    seen: Vec<String>,
}

impl Reader {
    /// The name table is consistent.
    pub closed spec fn wf(&self) -> bool {
        self.names.wf()
    }

    /// What has been read.
    pub closed spec fn model(&self) -> Reading {
        Reading {
            names: self.names.names(),
            decls: self.names.decls(),
            constraints: views(self.constraints@),
            output: self.output@.map_values(|i: im::NameId| i as nat),
            solve: match self.solve {
                Some(s) => Some(s@),
                None => None,
            },
            version: match self.version {
                Some(t) => Some(t@),
                None => None,
            },
            seen: self.seen@.map_values(|s: String| s@),
        }
    }
}

proof fn lemma_extend_same(d: Seq<SpecDeclaration>)
    ensures
        extend_uninit(d, d.len()) == d,
{
    assert(extend_uninit(d, d.len()) =~= d);
}

proof fn lemma_extend_twice(d: Seq<SpecDeclaration>, a: nat, b: nat)
    requires
        d.len() <= a <= b,
    ensures
        extend_uninit(extend_uninit(d, a), b) == extend_uninit(d, b),
{
    assert(extend_uninit(extend_uninit(d, a), b) =~= extend_uninit(d, b));
}

/// Read one declaration into the reader.
fn read_declaration(rd: &mut Reader, name: &String, value: &Json, arrays: bool) -> (r: Result<(), String>)
    requires
        old(rd).wf(),
    ensures
        final(rd).wf(),
        match decl_spec(old(rd).model(), (name@, value@), arrays) {
            Ok(st) => r is Ok && final(rd).model() == st,
            Err(m) => r matches Err(e) && e@ == m,
        },
{
    let ghost st = rd.model();
    let ghost n0: NameStore = rd.names;
    let id = rd.names.intern(name.clone());
    let ghost n1: NameStore = rd.names;
    let decl = if arrays {
        match read_array(value, &mut rd.names) {
            Ok(a) => im::Declaration::Array(a),
            Err(e) => return Err(e),
        }
    } else {
        match read_variable(value, &mut rd.names) {
            Ok(v) => im::Declaration::Variable(v),
            Err(e) => return Err(e),
        }
    };
    proof {
        lemma_grown_trans(&n0, &n1, &rd.names);
        n0.lemma_lens();
        lemma_extend_twice(n0.decls(), n1.names().len(), rd.names.names().len());
    }
    match rd.names.define_name(id, decl) {
        Ok(()) => {
            proof {
                assert(rd.model() =~= decl_spec(st, (name@, value@), arrays)->Ok_0);
            }
            Ok(())
        },
        Err(e) => Err(e.message()),
    }
}

/// Read the declarations of an object into the reader.
fn read_declarations(rd: &mut Reader, f: &Vec<(String, Json)>, arrays: bool) -> (r: Result<(), String>)
    requires
        old(rd).wf(),
    ensures
        final(rd).wf(),
        match decls_spec(old(rd).model(), entries_view(f@), arrays) {
            Ok(st) => r is Ok && final(rd).model() == st,
            Err(m) => r matches Err(e) && e@ == m,
        },
{
    let ghost ev = entries_view(f@);
    let ghost st0 = rd.model();
    let mut k: usize = 0;
    proof {
        assert(ev.subrange(0, ev.len() as int) =~= ev);
    }
    while k < f.len()
        invariant
            k <= f@.len(),
            ev == entries_view(f@),
            rd.wf(),
            decls_spec(st0, ev, arrays) == decls_spec(rd.model(), ev.subrange(k as int, ev.len() as int), arrays),
            st0 == old(rd).model(),
        decreases f@.len() - k,
    {
        let ghost rest = ev.subrange(k as int, ev.len() as int);
        proof {
            assert(rest[0] == (f@[k as int].0@, f@[k as int].1@));
            assert(rest.drop_first() =~= ev.subrange(k + 1, ev.len() as int));
        }
        match read_declaration(rd, &f[k].0, &f[k].1, arrays) {
            Ok(()) => {},
            Err(e) => return Err(e),
        }
        k = k + 1;
    }
    proof {
        assert(ev.subrange(ev.len() as int, ev.len() as int) =~= Seq::<(Seq<char>, SJson)>::empty());
    }
    Ok(())
}

/// Read the constraints of a list into the reader.
fn read_constraints(rd: &mut Reader, items: &Vec<Json>) -> (r: Result<(), String>)
    requires
        old(rd).wf(),
    ensures
        final(rd).wf(),
        match cons_list_spec(old(rd).model(), views(items@)) {
            Ok(st) => r is Ok && final(rd).model() == st,
            Err(m) => r matches Err(e) && e@ == m,
        },
{
    let ghost iv = views(items@);
    let ghost st0 = rd.model();
    let mut k: usize = 0;
    proof {
        assert(iv.subrange(0, iv.len() as int) =~= iv);
    }
    while k < items.len()
        invariant
            k <= items@.len(),
            iv == views(items@),
            rd.wf(),
            cons_list_spec(st0, iv) == cons_list_spec(rd.model(), iv.subrange(k as int, iv.len() as int)),
            st0 == old(rd).model(),
        decreases items@.len() - k,
    {
        let ghost rest = iv.subrange(k as int, iv.len() as int);
        let ghost n0: NameStore = rd.names;
        let ghost before = rd.model();
        proof {
            assert(rest[0] == items@[k as int]@);
            assert(rest.drop_first() =~= iv.subrange(k + 1, iv.len() as int));
        }
        match read_constraint(&items[k], &mut rd.names) {
            Ok(c) => {
                let ghost cs = rd.constraints@;
                rd.constraints.push(c);
                proof {
                    lemma_views_push(cs, c);
                    assert(rd.model() =~= Reading {
                        names: rd.names.names(),
                        decls: extend_uninit(before.decls, rd.names.names().len()),
                        constraints: before.constraints.push(c@),
                        ..before
                    });
                }
            },
            Err(e) => return Err(e),
        }
        k = k + 1;
    }
    proof {
        assert(iv.subrange(iv.len() as int, iv.len() as int) =~= Seq::<SJson>::empty());
    }
    Ok(())
}

/// Read the output names of a list into the reader.
fn read_output(rd: &mut Reader, items: &Vec<Json>) -> (r: Result<(), String>)
    requires
        old(rd).wf(),
    ensures
        final(rd).wf(),
        match output_spec(old(rd).model(), views(items@)) {
            Ok(st) => r is Ok && final(rd).model() == st,
            Err(m) => r matches Err(e) && e@ == m,
        },
{
    let ghost iv = views(items@);
    let ghost st0 = rd.model();
    let mut k: usize = 0;
    proof {
        assert(iv.subrange(0, iv.len() as int) =~= iv);
    }
    while k < items.len()
        invariant
            k <= items@.len(),
            iv == views(items@),
            rd.wf(),
            output_spec(st0, iv) == output_spec(rd.model(), iv.subrange(k as int, iv.len() as int)),
            st0 == old(rd).model(),
        decreases items@.len() - k,
    {
        let ghost rest = iv.subrange(k as int, iv.len() as int);
        let ghost before = rd.model();
        proof {
            assert(rest[0] == items@[k as int]@);
            assert(rest.drop_first() =~= iv.subrange(k + 1, iv.len() as int));
        }
        match &items[k] {
            Json::Str(s) => {
                let id = rd.names.intern(s.clone());
                let ghost out = rd.output@;
                rd.output.push(id);
                proof {
                    assert(rd.output@.map_values(|i: im::NameId| i as nat) =~= out.map_values(
                        |i: im::NameId| i as nat,
                    ).push(id as nat));
                    assert(rd.model() =~= Reading {
                        names: rd.names.names(),
                        decls: extend_uninit(before.decls, rd.names.names().len()),
                        output: before.output.push(id as nat),
                        ..before
                    });
                }
            },
            _ => return Err("expected a name in `output`".to_owned()),
        }
        k = k + 1;
    }
    proof {
        assert(iv.subrange(iv.len() as int, iv.len() as int) =~= Seq::<SJson>::empty());
    }
    Ok(())
}

/// Whether `k` is a key of the top-level object that the format knows.
fn is_top_key(k: &String) -> (r: bool)
    ensures
        r == top_key(k@),
{
    *k == "variables".to_owned() || *k == "arrays".to_owned() || *k == "constraints".to_owned()
        || *k == "output".to_owned() || *k == "solve".to_owned() || *k == "version".to_owned()
}

/// Whether `k` is among `seen`.
fn seen_before(seen: &Vec<String>, k: &String) -> (r: bool)
    ensures
        r == seen@.map_values(|s: String| s@).contains(k@),
{
    let ghost sv = seen@.map_values(|s: String| s@);
    let mut i: usize = 0;
    while i < seen.len()
        invariant
            i <= seen@.len(),
            sv == seen@.map_values(|s: String| s@),
            forall|j: int| 0 <= j < i ==> sv[j] != k@,
        decreases seen@.len() - i,
    {
        proof {
            assert(sv[i as int] == seen@[i as int]@);
        }
        if seen[i] == *k {
            return true;
        }
        i = i + 1;
    }
    proof {
        if sv.contains(k@) {
            let j = choose|j: int| 0 <= j < sv.len() && sv[j] == k@;
            assert(sv[j] == k@);
        }
    }
    false
}

/// Read one entry of the top-level object into the reader.
fn read_top_entry(rd: &mut Reader, key: &String, value: &Json) -> (r: Result<(), String>)
    requires
        old(rd).wf(),
    ensures
        final(rd).wf(),
        match top_step(old(rd).model(), (key@, value@)) {
            Ok(st) => r is Ok && final(rd).model() == st,
            Err(m) => r matches Err(e) && e@ == m,
        },
{
    if !is_top_key(key) {
        return Ok(());
    }
    if seen_before(&rd.seen, key) {
        let mut m = String::from_str("duplicate field `");
        m.append(key.as_str());
        m.append("`");
        return Err(m);
    }
    let ghost sv = rd.seen@;
    rd.seen.push(key.clone());
    proof {
        assert(rd.seen@.map_values(|s: String| s@) =~= sv.map_values(|s: String| s@).push(key@));
    }
    let ghost st1 = rd.model();
    if *key == "variables".to_owned() || *key == "arrays".to_owned() {
        let arrays = *key == "arrays".to_owned();
        match value {
            Json::Object(f) => {
                proof {
                    lemma_object_view(*f);
                }
                read_declarations(rd, f, arrays)
            },
            _ => Err("expected an object of declarations".to_owned()),
        }
    } else if *key == "constraints".to_owned() {
        match value {
            Json::Array(items) => {
                proof {
                    lemma_array_view(*items);
                }
                read_constraints(rd, items)
            },
            _ => Err("expected a list of constraints".to_owned()),
        }
    } else if *key == "output".to_owned() {
        match value {
            Json::Array(items) => {
                proof {
                    lemma_array_view(*items);
                }
                read_output(rd, items)
            },
            _ => Err("expected a list of output names".to_owned()),
        }
    } else if *key == "solve".to_owned() {
        match read_solve(value, &mut rd.names) {
            Ok(s) => {
                rd.solve = Some(s);
                proof {
                    assert(rd.model() =~= Reading {
                        names: rd.names.names(),
                        decls: extend_uninit(st1.decls, rd.names.names().len()),
                        solve: Some(s@),
                        ..st1
                    });
                }
                Ok(())
            },
            Err(e) => Err(e),
        }
    } else {
        match value {
            Json::Str(t) => {
                rd.version = Some(t.clone());
                proof {
                    assert(rd.model() =~= Reading { version: Some(t@), ..st1 });
                }
                Ok(())
            },
            _ => Err("expected a string after `version`".to_owned()),
        }
    }
}

/// Read the entries of the top-level JSON object, without linking.
pub fn read_entries(fields: Vec<(String, Json)>) -> (r: Result<Reader, String>)
    ensures
        match top_spec(reading_start(), entries_view(fields@)) {
            Ok(st) => r matches Ok(rd) && rd.wf() && rd.model() == st,
            Err(m) => r matches Err(e) && e@ == m,
        },
{
    let ghost ev = entries_view(fields@);
    let mut rd = Reader {
        names: NameStore::new(),
        constraints: Vec::new(),
        output: Vec::new(),
        solve: None,
        version: None,
        seen: Vec::new(),
    };
    proof {
        assert(views(rd.constraints@) =~= Seq::<SpecConstraint>::empty());
        assert(rd.output@.map_values(|i: im::NameId| i as nat) =~= Seq::<nat>::empty());
        assert(rd.seen@.map_values(|s: String| s@) =~= Seq::<Seq<char>>::empty());
        assert(rd.model() =~= reading_start());
        assert(ev.subrange(0, ev.len() as int) =~= ev);
    }
    let mut k: usize = 0;
    while k < fields.len()
        invariant
            k <= fields@.len(),
            ev == entries_view(fields@),
            rd.wf(),
            top_spec(reading_start(), ev) == top_spec(rd.model(), ev.subrange(k as int, ev.len() as int)),
        decreases fields@.len() - k,
    {
        let ghost rest = ev.subrange(k as int, ev.len() as int);
        proof {
            assert(rest[0] == (fields@[k as int].0@, fields@[k as int].1@));
            assert(rest.drop_first() =~= ev.subrange(k + 1, ev.len() as int));
        }
        match read_top_entry(&mut rd, &fields[k].0, &fields[k].1) {
            Ok(()) => {},
            Err(e) => return Err(e),
        }
        k = k + 1;
    }
    proof {
        assert(ev.subrange(ev.len() as int, ev.len() as int) =~= Seq::<(Seq<char>, SJson)>::empty());
    }
    Ok(rd)
}

/// The end of reading: a solve item is required, a missing version is
/// empty, and the names are then linked.
pub open spec fn finish_reading_spec(st: Reading) -> Result<PFlatZinc, Seq<char>> {
    finish_reading_spec_with(st, st.names)
}

/// The identifiers a model read from JSON hands to an interner, in the order
/// that `model_ids` gives for a model read from text.
pub open spec fn reading_ids(st: Reading) -> Seq<Seq<char>> {
    decls_ids(st.decls) + conss_ids(st.constraints) + solve_ids(st.solve) + uninit_names(st.names, st.decls)
}

/// The atom text of each slot of a model read from JSON, with the interned
/// identifiers `ids` in the order of `reading_ids`.
pub open spec fn reading_atoms(st: Reading, ids: Seq<Seq<char>>) -> Seq<Seq<char>> {
    let c = (decls_ids(st.decls).len() + conss_ids(st.constraints).len() + solve_ids(st.solve).len()) as int;
    atoms_rn(st.names, st.decls, ids.subrange(c, ids.len() as int))
}

/// The end of reading as `finish_reading_spec`, an undeclared name in an
/// annotation becoming the atom of its slot in `atoms`.
pub open spec fn finish_reading_spec_with(st: Reading, atoms: Seq<Seq<char>>) -> Result<PFlatZinc, Seq<char>> {
    match st.solve {
        None => Err(missing_message("solve"@)),
        Some(sv) => match link_model_with(
            st.names,
            st.decls,
            atoms,
            st.constraints,
            st.output,
            sv.method,
            sv.ann,
            match st.version {
                Some(t) => t,
                None => Seq::empty(),
            },
        ) {
            Ok(p) => Ok(p),
            Err(k) => Err(link_failure_message(k)),
        },
    }
}

/// A model read from JSON with the interned identifiers `ids` in place.
pub open spec fn reading_rn(st: Reading, ids: Seq<Seq<char>>) -> Reading {
    let a = decls_ids(st.decls).len() as int;
    let b = a + conss_ids(st.constraints).len();
    let c = b + solve_ids(st.solve).len();
    Reading {
        decls: decls_rn(st.decls, ids.subrange(0, a)),
        constraints: conss_rn(st.constraints, ids.subrange(a, b)),
        solve: solve_rn(st.solve, ids.subrange(b, c)),
        ..st
    }
}

/// Reading with an interner that takes each identifier as it is gives the
/// model, or the error, that reading without an interner gives.
pub proof fn law_identity_interner_json(st: Reading)
    requires
        st.decls.len() == st.names.len(),
    ensures
        finish_reading_spec_with(reading_rn(st, reading_ids(st)), reading_atoms(st, reading_ids(st)))
            == finish_reading_spec(st),
{
    let m = SpecReader {
        names: st.names,
        decls: st.decls,
        constraints: st.constraints,
        output: st.output,
        solve: st.solve,
        phase: Phase::Solve,
    };
    lemma_own_identifiers(m);
    assert(reading_ids(st) == model_ids(m));
    assert(model_rn(m, model_ids(m)).decls == m.decls);
    assert(reading_rn(st, reading_ids(st)) =~= st);
}

impl Reader {
    /// Finish reading: link the names.
    pub fn finish(self) -> (r: Result<FlatZinc, String>)
        requires
            self.wf(),
        ensures
            match finish_reading_spec(self.model()) {
                Ok(m) => r matches Ok(f) && f@ == m,
                Err(m) => r matches Err(e) && e@ == m,
            },
    {
        let Reader { names, constraints, output, solve, version, seen: _ } = self;
        let solve = match solve {
            Some(s) => s,
            None => return Err(missing_field("solve")),
        };
        let version = match version {
            Some(t) => t,
            None => String::new(),
        };
        match link(names, constraints, output, solve, version) {
            Ok(f) => Ok(f),
            Err(e) => Err(e.message()),
        }
    }

    /// Finish reading as `finish` does, an undeclared name in an annotation
    /// becoming the atom of its slot in `atoms`.
    fn finish_with_atoms(self, atoms: Vec<String>) -> (r: Result<FlatZinc, String>)
        requires
            self.wf(),
            atoms@.len() == self.model().names.len(),
        ensures
            match finish_reading_spec_with(self.model(), views(atoms@)) {
                Ok(m) => r matches Ok(f) && f@ == m,
                Err(m) => r matches Err(e) && e@ == m,
            },
    {
        let Reader { names, constraints, output, solve, version, seen: _ } = self;
        let solve = match solve {
            Some(s) => s,
            None => return Err(missing_field("solve")),
        };
        let version = match version {
            Some(t) => t,
            None => String::new(),
        };
        match link_with_atoms(names, atoms, constraints, output, solve, version) {
            Ok(f) => Ok(f),
            Err(e) => Err(e.message()),
        }
    }

    /// The identifiers that an interner takes, in order.
    pub fn identifiers(&self) -> (r: Vec<String>)
        requires
            self.wf(),
        ensures
            views(r@) == reading_ids(self.model()),
    {
        let mut out: Vec<String> = Vec::new();
        proof {
            assert(views(out@) =~= Seq::<Seq<char>>::empty());
        }
        names_ids_x(&self.names, &mut out);
        constraints_ids_x(&self.constraints, &mut out);
        solve_ids_x(&self.solve, &mut out);
        uninit_ids_x(&self.names, &mut out);
        proof {
            assert(views(out@) =~= reading_ids(self.model()));
        }
        out
    }

    /// Finish reading with the identifiers interned: `ids` holds what the
    /// interner made of each of `identifiers()`, in order. The first
    /// identifier the interner refused is reported; otherwise the interned
    /// identifiers are put in place and the names linked.
    pub fn finish_interned(self, ids: Vec<Result<String, String>>) -> (r: Result<FlatZinc, String>)
        requires
            self.wf(),
            ids@.len() == reading_ids(self.model()).len(),
        ensures
            first_refused(ids@) >= 0 ==> (r matches Err(m) && m@ == "failed to intern identifier `"@
                + reading_ids(self.model())[first_refused(ids@)] + "`: "@ + ids@[first_refused(
                ids@,
            )]->Err_0@),
            first_refused(ids@) < 0 ==> match finish_reading_spec_with(
                reading_rn(self.model(), accepted(ids@)),
                reading_atoms(self.model(), accepted(ids@)),
            ) {
                Ok(m) => r matches Ok(f) && f@ == m,
                Err(m) => r matches Err(e) && e@ == m,
            },
    {
        proof {
            crate::intern::lemma_first_refused(ids@);
        }
        match find_refused(&ids) {
            Some(i) => {
                let all = self.identifiers();
                let ident = all[i].clone();
                let err = match &ids[i] {
                    Err(e) => e.clone(),
                    Ok(_) => String::new(),
                };
                proof {
                    assert(views(all@)[i as int] == all@[i as int]@);
                }
                Err(LinkError::IdentifierError { ident, err }.message())
            },
            None => {
                let ghost m = self.model();
                let vals = accepted_values(ids);
                let mut undeclared: Vec<String> = Vec::new();
                uninit_ids_x(&self.names, &mut undeclared);
                let mut apos = vals.len() - undeclared.len();
                let atoms = atoms_x(&self.names, &vals, &mut apos);
                let Reader { mut names, constraints, output, solve, version, seen } = self;
                let mut pos: usize = 0;
                rn_names_x(&mut names, &vals, &mut pos);
                let constraints = rn_constraints_x(&constraints, &vals, &mut pos);
                let solve = rn_opt_solve_x(&solve, &vals, &mut pos);
                let rd = Reader { names, constraints, output, solve, version, seen };
                proof {
                    assert(rd.model() =~= reading_rn(m, accepted(ids@)));
                }
                rd.finish_with_atoms(atoms)
            },
        }
    }
}

/// Read a model from the entries of its top-level JSON object.
pub fn read_model(fields: Vec<(String, Json)>) -> (r: Result<FlatZinc, String>)
    ensures
        match read_model_spec(entries_view(fields@)) {
            Ok(m) => r matches Ok(f) && f@ == m,
            Err(m) => r matches Err(e) && e@ == m,
        },
{
    match read_entries(fields) {
        Ok(rd) => rd.finish(),
        Err(e) => Err(e),
    }
}

} // verus!
