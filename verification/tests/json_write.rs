use flatzinc_serde::json_read::{read_model, Json};
use flatzinc_serde::json_write::{literal_value, to_json};
use flatzinc_serde::{Array, FlatZinc, Literal, Method, NamedRef, RangeList, SolveObjective, Type, Variable};
use std::sync::Arc;

fn s(t: &str) -> Json {
    Json::Str(t.to_owned())
}

fn entry<'a>(j: &'a Json, k: &str) -> &'a Json {
    match j {
        Json::Object(f) => &f.iter().find(|(key, _)| key == k).expect("key").1,
        _ => panic!("expected an object"),
    }
}

#[test]
fn a_model_is_written_as_json() {
    let source = "var 1..3: x :: output_var;\nvar bool: b :: is_defined_var :: var_is_introduced;\narray [1..2] of var int: xs :: output_array([1..2]) = [x, x];\nconstraint int_le(x, 2) :: defines_var(b) :: domain;\nsolve :: int_search(xs, input_order, indomain_min) minimize x;\n";
    let fzn = FlatZinc::from_fzn(source.as_bytes()).expect("model");
    let j = to_json(&fzn);
    let Json::Object(top) = &j else { panic!("expected an object") };
    let keys: Vec<&str> = top.iter().map(|(k, _)| k.as_str()).collect();
    assert_eq!(keys, vec!["variables", "arrays", "constraints", "output", "solve", "version"]);
    let x = entry(entry(&j, "variables"), "x");
    assert_eq!(entry(x, "type"), &s("int"));
    assert_eq!(entry(x, "domain"), &Json::Array(vec![Json::Array(vec![Json::Int(1), Json::Int(3)])]));
    let b = entry(entry(&j, "variables"), "b");
    assert_eq!(entry(b, "introduced"), &Json::Bool(true));
    let xs = entry(entry(&j, "arrays"), "xs");
    assert_eq!(entry(xs, "a"), &Json::Array(vec![s("x"), s("x")]));
    let Json::Array(cs) = entry(&j, "constraints") else { panic!("expected a list") };
    assert_eq!(entry(&cs[0], "id"), &s("int_le"));
    assert_eq!(entry(&cs[0], "args"), &Json::Array(vec![s("x"), Json::Int(2)]));
    assert_eq!(entry(&cs[0], "defines"), &s("b"));
    assert_eq!(entry(&cs[0], "ann"), &Json::Array(vec![s("domain")]));
    let solve = entry(&j, "solve");
    assert_eq!(entry(solve, "method"), &s("minimize"));
    assert_eq!(entry(solve, "objective"), &s("x"));
    assert_eq!(
        entry(solve, "ann"),
        &Json::Array(vec![Json::Object(vec![
            ("id".to_owned(), s("int_search")),
            ("args".to_owned(), Json::Array(vec![s("xs"), s("input_order"), s("indomain_min")])),
        ])])
    );
}

#[test]
fn json_written_is_read_back() {
    let source = "var 1..3: x :: output_var;\nvar bool: b;\nconstraint int_le(x, 2);\nsolve satisfy;\n";
    let fzn = FlatZinc::from_fzn(source.as_bytes()).expect("model");
    let Json::Object(top) = to_json(&fzn) else { panic!("expected an object") };
    let back = read_model(top).expect("model read back");
    assert_eq!(back.to_fzn().len(), fzn.to_fzn().len());
    assert_eq!(back.variables.len(), 2);
    assert_eq!(back.constraints[0].id, "int_le");
}

#[test]
fn literal_wrappers() {
    let r: RangeList<i64> = vec![1..=2, 5..=5].into_iter().collect();
    assert_eq!(
        literal_value(&Literal::IntSet(r)),
        Json::Object(vec![(
            "set".to_owned(),
            Json::Array(vec![
                Json::Array(vec![Json::Int(1), Json::Int(2)]),
                Json::Array(vec![Json::Int(5), Json::Int(5)])
            ])
        )])
    );
    assert_eq!(
        literal_value(&Literal::String("hi".to_owned())),
        Json::Object(vec![("string".to_owned(), s("hi"))])
    );
    assert_eq!(literal_value(&Literal::Float("1.5".to_owned())), Json::Float("1.5".to_owned()));
    assert_eq!(literal_value(&Literal::Int(-7)), Json::Int(-7));
}

#[test]
fn test_json_shape_preserves_named_objects() {
    let x = Arc::new(Variable { name: "x".to_owned(), ty: Type::Int(None), ann: vec![], defined: false, introduced: false });
    let y = Arc::new(Array {
        name: "y".to_owned(),
        contents: vec![Literal::Int(1), Literal::Variable(Arc::clone(&x))],
        ann: vec![],
        defined: false,
        introduced: false,
    });
    let fzn = FlatZinc {
        variables: vec![Arc::clone(&x)],
        arrays: vec![Arc::clone(&y)],
        constraints: vec![],
        output: vec![NamedRef::Variable(Arc::clone(&x)), NamedRef::Array(Arc::clone(&y))],
        solve: SolveObjective { method: Method::Satisfy, ann: vec![] },
        version: "1.0".to_owned(),
    };
    let o = |v: Vec<(&str, Json)>| Json::Object(v.into_iter().map(|(k, v)| (k.to_owned(), v)).collect());
    assert_eq!(
        to_json(&fzn),
        o(vec![
            ("variables", o(vec![("x", o(vec![("type", s("int"))]))])),
            ("arrays", o(vec![("y", o(vec![("a", Json::Array(vec![Json::Int(1), s("x")]))]))])),
            ("constraints", Json::Array(vec![])),
            ("output", Json::Array(vec![s("x"), s("y")])),
            ("solve", o(vec![("method", s("satisfy"))])),
            ("version", s("1.0")),
        ])
    );
    let Json::Object(top) = to_json(&fzn) else { panic!("expected an object") };
    let back = read_model(top).expect("model");
    assert_eq!(back.to_fzn(), fzn.to_fzn());
}

#[test]
fn json_written_with_annotations_is_read_back_as_the_model() {
    let source = "var 1..3: x :: output_var :: mark;\narray [1..2] of var int: xs :: output_array([1..2]) = [x, 2];\nconstraint int_le(x, 2) :: domain :: weight(3);\nsolve :: restart_none maximize x;\n";
    let fzn = FlatZinc::from_fzn(source.as_bytes()).expect("model");
    let Json::Object(top) = to_json(&fzn) else { panic!("expected an object") };
    let back = read_model(top).expect("model read back");
    assert_eq!(back.to_fzn(), fzn.to_fzn());
    assert_eq!(back.variables.len(), fzn.variables.len());
    assert_eq!(back.arrays.len(), fzn.arrays.len());
    assert_eq!(back.constraints.len(), fzn.constraints.len());
}

#[test]
fn json_written_with_annotations_naming_declarations_is_read_back() {
    let source = "var 1..3: x;\nvar 1..3: y;\narray [1..2] of var int: xs :: output_array([1..2]) = [x, y];\nconstraint int_lin_le([1, 1], [x, y], 4) :: defines_var(y);\nsolve :: int_search(xs, input_order, indomain_min) satisfy;\n";
    let fzn = FlatZinc::from_fzn(source.as_bytes()).expect("model");
    let Json::Object(top) = to_json(&fzn) else { panic!("expected an object") };
    let back = read_model(top).expect("model read back");
    assert_eq!(back.to_fzn(), fzn.to_fzn());
    assert_eq!(back.variables.len(), 2);
    assert_eq!(back.variables[0].name, "x");
    assert_eq!(back.variables[1].name, "y");
    assert_eq!(back.arrays[0].name, "xs");
}
