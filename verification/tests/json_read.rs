use flatzinc_serde::intermediate::{
    AnnotationCall as ICall, AnnotationLiteral as IAnnLit, Argument as IArg,
    Literal as ILit,
};
use flatzinc_serde::json_read::{
    read_annotation_literal, read_array, read_constraint, read_entries, read_model, read_solve, read_variable, Json,
};
use flatzinc_serde::names::NameStore;
use flatzinc_serde::{Annotation, AnnotationLiteral, Argument, Literal, Method, Type};

fn s(t: &str) -> Json {
    Json::Str(t.to_owned())
}

fn obj(entries: Vec<(&str, Json)>) -> Json {
    Json::Object(entries.into_iter().map(|(k, v)| (k.to_owned(), v)).collect())
}

fn entries(j: Json) -> Vec<(String, Json)> {
    match j {
        Json::Object(f) => f,
        _ => unreachable!(),
    }
}

fn model() -> Json {
    obj(vec![
        (
            "variables",
            obj(vec![
                ("x", obj(vec![("type", s("int")), ("domain", Json::Array(vec![Json::Array(vec![Json::Int(1), Json::Int(3)])]))])),
                ("b", obj(vec![("type", s("bool")), ("introduced", Json::Bool(true))])),
            ]),
        ),
        ("arrays", obj(vec![("xs", obj(vec![("a", Json::Array(vec![s("x"), Json::Int(2)]))]))])),
        (
            "constraints",
            Json::Array(vec![obj(vec![
                ("id", s("int_le")),
                ("args", Json::Array(vec![s("x"), Json::Int(2)])),
                ("defines", s("b")),
                ("ann", Json::Array(vec![s("domain")])),
            ])]),
        ),
        ("output", Json::Array(vec![s("x")])),
        (
            "solve",
            obj(vec![
                ("method", s("minimize")),
                ("objective", s("x")),
                (
                    "ann",
                    Json::Array(vec![obj(vec![
                        ("id", s("int_search")),
                        ("args", Json::Array(vec![s("xs"), s("input_order"), Json::Array(vec![s("x")])])),
                    ])]),
                ),
            ]),
        ),
        ("version", s("1.0")),
        ("metadata", Json::Null),
    ])
}

#[test]
fn a_json_model_is_read_and_linked() {
    let fzn = read_model(entries(model())).expect("model");
    assert_eq!(fzn.variables.len(), 2);
    assert_eq!(fzn.variables[0].name, "x");
    assert_eq!(fzn.variables[0].ty, Type::Int(Some(flatzinc_serde::RangeList::from(1..=3))));
    assert!(fzn.variables[1].introduced);
    assert!(!fzn.variables[1].defined);
    assert_eq!(fzn.constraints[0].defines.as_ref().map(|d| d.name()), Some("b".to_owned()));
    assert_eq!(fzn.arrays[0].name, "xs");
    assert_eq!(fzn.constraints[0].id, "int_le");
    assert_eq!(fzn.output[0].name(), "x");
    assert_eq!(fzn.version, "1.0");
    let Method::Minimize(Literal::Variable(v)) = &fzn.solve.method else { panic!("expected minimize") };
    assert_eq!(v.name, "x");
    let Annotation::Call(c) = &fzn.solve.ann[0] else { panic!("expected a call") };
    assert!(matches!(&c.args[0], Argument::ArrayNamed(a) if a.name == "xs"));
    assert!(matches!(&c.args[1], Argument::Literal(AnnotationLiteral::Annotation(Annotation::Atom(a))) if a == "input_order"));
    let Argument::Array(v) = &c.args[2] else { panic!("expected an array") };
    assert!(matches!(&v[0], AnnotationLiteral::Variable(r) if r.name() == "x"));
}

#[test]
fn repeated_top_level_keys_are_refused() {
    let mut f = entries(model());
    f.push(("version".to_owned(), s("2.0")));
    assert_eq!(read_model(f).map(|_| ()), Err("duplicate field `version`".to_owned()));
}

#[test]
fn unknown_top_level_keys_are_ignored_but_inner_ones_refused() {
    let f = entries(model());
    assert!(read_model(f).is_ok());
    let bad = obj(vec![
        ("variables", obj(vec![("x", obj(vec![("type", s("int")), ("colour", s("red"))]))])),
        ("solve", obj(vec![("method", s("satisfy"))])),
    ]);
    assert_eq!(read_model(entries(bad)).map(|_| ()), Err("unknown field `colour`, expected one of `type`, `domain`, `ann`, `defined`, `introduced`".to_owned()));
}

#[test]
fn repeated_inner_keys_are_refused() {
    let mut names = NameStore::new();
    let v = obj(vec![("type", s("int")), ("type", s("bool"))]);
    assert_eq!(read_variable(&v, &mut names).map(|_| ()), Err("duplicate field `type`".to_owned()));
    let ok = obj(vec![("type", s("float")), ("domain", Json::Array(vec![Json::Array(vec![Json::Float("1.5".to_owned()), Json::Int(2)])]))]);
    assert!(read_variable(&ok, &mut names).is_ok());
}

#[test]
fn a_model_without_solve_item_is_refused() {
    let f = entries(obj(vec![("variables", obj(vec![]))]));
    assert_eq!(read_model(f).map(|_| ()), Err("missing field `solve`".to_owned()));
}

#[test]
fn duplicate_declarations_are_reported() {
    let f = entries(obj(vec![
        ("variables", obj(vec![("x", obj(vec![("type", s("int"))]))])),
        ("arrays", obj(vec![("x", obj(vec![("a", Json::Array(vec![]))]))])),
        ("solve", obj(vec![("method", s("satisfy"))])),
    ]));
    assert_eq!(read_model(f).map(|_| ()), Err("duplicate definition of `x`".to_owned()));
}

#[test]
fn annotation_literal_shapes() {
    let mut names = NameStore::new();
    let set = obj(vec![("set", Json::Array(vec![Json::Array(vec![Json::Int(1), Json::Int(2)])]))]);
    assert_eq!(read_annotation_literal(&set, &mut names), Ok(IAnnLit::Literal(ILit::IntSet(vec![(1, 2)]))));
    let text = obj(vec![("string", s("hi"))]);
    assert_eq!(read_annotation_literal(&text, &mut names), Ok(IAnnLit::Literal(ILit::Str("hi".to_owned()))));
    let call = obj(vec![("id", s("f")), ("args", Json::Array(vec![Json::Int(1)]))]);
    assert_eq!(
        read_annotation_literal(&call, &mut names),
        Ok(IAnnLit::Annotation(ICall {
            id: "f".to_owned(),
            args: vec![IArg::Literal(IAnnLit::Literal(ILit::Int(1)))]
        }))
    );
    let missing_args = obj(vec![("id", s("f"))]);
    assert_eq!(
        read_annotation_literal(&missing_args, &mut names).map(|_| ()),
        Err("missing field `args`".to_owned())
    );
    let extra = obj(vec![("id", s("f")), ("args", Json::Array(vec![])), ("x", Json::Null)]);
    assert_eq!(read_annotation_literal(&extra, &mut names).map(|_| ()), Err("unknown field `x`, expected `id` or `args`".to_owned()));
    let repeated = obj(vec![("id", s("f")), ("args", Json::Array(vec![])), ("id", s("g"))]);
    assert_eq!(read_annotation_literal(&repeated, &mut names).map(|_| ()), Err("duplicate field `id`".to_owned()));
    let wrapped = obj(vec![("string", s("hi")), ("set", Json::Array(vec![]))]);
    assert_eq!(
        read_annotation_literal(&wrapped, &mut names).map(|_| ()),
        Err("unexpected extra fields in FlatZinc wrapper object".to_owned())
    );
    let name = s("y");
    assert_eq!(read_annotation_literal(&name, &mut names), Ok(IAnnLit::Literal(ILit::Reference(0))));
}

#[test]
fn json_identifiers_are_interned() {
    let rd = read_entries(entries(model())).expect("entries");
    assert_eq!(rd.identifiers(), vec!["int_le", "domain", "int_search", "input_order"]);
    let ids: Vec<Result<String, String>> = rd.identifiers().iter().map(|s| Ok(format!("{s}!"))).collect();
    let fzn = rd.finish_interned(ids).expect("model");
    assert_eq!(fzn.constraints[0].id, "int_le!");
    let rd = read_entries(entries(model())).expect("entries");
    let ids: Vec<Result<String, String>> = rd
        .identifiers()
        .iter()
        .map(|s| if s == "domain" { Err("no".to_owned()) } else { Ok(s.clone()) })
        .collect();
    assert_eq!(rd.finish_interned(ids).map(|_| ()), Err("failed to intern identifier `domain`: no".to_owned()));
    let rd = read_entries(entries(model())).expect("entries");
    let ids: Vec<Result<String, String>> = rd
        .identifiers()
        .iter()
        .map(|s| if s == "input_order" { Err("atom refused".to_owned()) } else { Ok(s.clone()) })
        .collect();
    assert_eq!(
        rd.finish_interned(ids).map(|_| ()),
        Err("failed to intern identifier `input_order`: atom refused".to_owned())
    );
}

#[test]
fn test_deserialize_with_interner_rejects_variable_rhs() {
    let f = entries(obj(vec![
        ("variables", obj(vec![("y", obj(vec![("type", s("int")), ("rhs", Json::Int(5))]))])),
        ("constraints", Json::Array(vec![])),
        ("solve", obj(vec![("method", s("satisfy"))])),
        ("version", s("1.0")),
    ]));
    let rd = read_entries(f);
    let err = rd.map(|_| ()).expect_err("expected variable rhs to be rejected");
    assert!(err.contains("unknown field `rhs`"));
}

#[test]
fn json_interning_identifiers_as_themselves_changes_nothing() {
    let plain = read_model(entries(model())).expect("model");
    let rd = read_entries(entries(model())).expect("entries");
    let ids: Vec<Result<String, String>> = rd.identifiers().into_iter().map(Ok).collect();
    let interned = rd.finish_interned(ids).expect("model");
    assert_eq!(interned.to_fzn(), plain.to_fzn());
}

#[test]
fn unknown_inner_keys_name_what_was_expected() {
    let mut names = NameStore::new();
    let solve = obj(vec![("method", s("satisfy")), ("goal", Json::Null)]);
    assert_eq!(
        read_solve(&solve, &mut names).map(|_| ()),
        Err("unknown field `goal`, expected one of `method`, `objective`, `ann`".to_owned())
    );
    let array = obj(vec![("a", Json::Array(vec![])), ("b", Json::Null)]);
    assert_eq!(
        read_array(&array, &mut names).map(|_| ()),
        Err("unknown field `b`, expected one of `a`, `ann`, `defined`, `introduced`".to_owned())
    );
    let constraint = obj(vec![("id", s("f")), ("args", Json::Array(vec![])), ("why", Json::Null)]);
    assert_eq!(
        read_constraint(&constraint, &mut names).map(|_| ()),
        Err("unknown field `why`, expected one of `id`, `args`, `defines`, `ann`".to_owned())
    );
}

#[test]
fn unknown_top_level_keys_anywhere_leave_the_model() {
    let plain = read_model(entries(model())).expect("model");
    let mut f = entries(model());
    f.insert(0, ("comment".to_owned(), Json::Array(vec![Json::Null])));
    f.insert(3, ("x-extra".to_owned(), s("y")));
    let extended = read_model(f).expect("model");
    assert_eq!(extended.to_fzn(), plain.to_fzn());
}

#[test]
fn annotation_literal_objects_are_told_apart_by_their_first_key() {
    let mut names = NameStore::new();
    let set_first = obj(vec![
        ("set", Json::Array(vec![Json::Array(vec![Json::Int(1), Json::Int(2)])])),
        ("id", s("f")),
        ("args", Json::Array(vec![])),
    ]);
    assert_eq!(
        read_annotation_literal(&set_first, &mut names).map(|_| ()),
        Err("unexpected extra fields in FlatZinc wrapper object".to_owned())
    );
    let args_first = obj(vec![("args", Json::Array(vec![])), ("id", s("f"))]);
    assert_eq!(
        read_annotation_literal(&args_first, &mut names),
        Ok(IAnnLit::Annotation(ICall { id: "f".to_owned(), args: vec![] }))
    );
    assert_eq!(
        read_annotation_literal(&obj(vec![]), &mut names).map(|_| ()),
        Err("expected an annotation literal object".to_owned())
    );
    assert_eq!(
        read_annotation_literal(&obj(vec![("x", Json::Null)]), &mut names).map(|_| ()),
        Err("expected a set, string, or annotation-call object".to_owned())
    );
}

#[test]
fn test_deserialize_with_custom_interner() {
    let f = entries(obj(vec![
        ("variables", obj(vec![("x", obj(vec![("type", s("int"))]))])),
        ("constraints", Json::Array(vec![obj(vec![("id", s("int_eq")), ("args", Json::Array(vec![s("x"), Json::Int(1)]))])])),
        ("solve", obj(vec![("method", s("satisfy"))])),
        ("output", Json::Array(vec![s("x")])),
        ("version", s("1.0")),
    ]));
    let rd = read_entries(f).expect("entries");
    let ids: Vec<Result<String, String>> = rd.identifiers().iter().map(|s| Ok(format!("intern:{s}"))).collect();
    let fzn = rd.finish_interned(ids).unwrap();
    assert_eq!(fzn.output.iter().map(|r| r.name()).collect::<Vec<_>>(), vec!["x"]);
    assert_eq!(fzn.constraints[0].id, "intern:int_eq");
    assert_eq!(fzn.variables.len(), 1);
    let Argument::Literal(Literal::Variable(variable)) = &fzn.constraints[0].args[0] else { unreachable!() };
    assert!(std::sync::Arc::ptr_eq(variable, &fzn.variables[0]));
    assert_eq!(fzn.constraints[0].args[1], Argument::Literal(Literal::Int(1)));
}
