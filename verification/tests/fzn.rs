use std::sync::Arc;

use flatzinc_serde::fzn::items::{
    array_item_x, constraint_item_x, predicate_item_x, solve_item_x, var_decl_x,
};
use flatzinc_serde::intermediate::{
    Annotation, AnnotationCall, AnnotationLiteral, Argument, Array, Constraint, Declaration,
    Literal, Method, SolveObjective, VarType, Variable,
};
use flatzinc_serde::names::NameStore;
use flatzinc_serde::{FlatZinc, FznParseError, NamedRef, RangeList, VarRef};
use flatzinc_serde::{
    Annotation as PAnnotation, AnnotationCall as PCall, AnnotationLiteral as PAnnLit,
    Argument as PArgument, Literal as PLiteral, Method as PMethod,
};

fn name_id(names: &NameStore, expected: &str) -> usize {
    (0..names.len())
        .find(|&i| names.name_of(i) == expected)
        .unwrap_or_else(|| panic!("expected interned name `{expected}`"))
}

fn reference(names: &NameStore, name: &str) -> Literal {
    Literal::Reference(name_id(names, name))
}

fn annotation_identifier(names: &NameStore, name: &str) -> AnnotationLiteral {
    AnnotationLiteral::Literal(reference(names, name))
}

type DeclParser = fn(&[u8], usize, &mut NameStore) -> Option<((usize, Declaration, bool), usize)>;

fn parse_decl(parser: DeclParser, input: &str) -> ((usize, Declaration, bool), NameStore) {
    let mut names = NameStore::new();
    let (d, _) = parser(input.as_bytes(), 0, &mut names)
        .unwrap_or_else(|| panic!("parser returned unexpected error on `{input}`"));
    (d, names)
}

fn parse_constraint(input: &str) -> (Constraint, NameStore) {
    let mut names = NameStore::new();
    let (c, _) = constraint_item_x(input.as_bytes(), 0, &mut names)
        .unwrap_or_else(|| panic!("parser returned unexpected error on `{input}`"));
    (c, names)
}

fn parse_solve(input: &str) -> (SolveObjective, NameStore) {
    let mut names = NameStore::new();
    let (s, _) = solve_item_x(input.as_bytes(), 0, &mut names)
        .unwrap_or_else(|| panic!("parser returned unexpected error on `{input}`"));
    (s, names)
}

fn ranges(v: &[(i64, i64)]) -> RangeList<i64> {
    v.iter().map(|&(a, b)| a..=b).collect()
}

fn int_domain(ty: &VarType) -> Option<RangeList<i64>> {
    match ty {
        VarType::Int(Some(v)) | VarType::IntSet(Some(v)) => Some(ranges(v)),
        _ => None,
    }
}

fn parse(source: &str) -> Result<FlatZinc, FznParseError> {
    FlatZinc::from_fzn(source.as_bytes())
}

fn has_array(fzn: &FlatZinc, name: &str) -> bool {
    fzn.arrays.iter().any(|array| array.name == name)
}

fn has_variable(fzn: &FlatZinc, name: &str) -> bool {
    fzn.variables.iter().any(|variable| variable.name == name)
}

fn output_names(fzn: &FlatZinc) -> Vec<String> {
    fzn.output.iter().map(NamedRef::name).collect()
}

#[test]
fn scalar_parameter_declarations_are_rejected() {
    let err = parse("int: y = 5;\nsolve satisfy;")
        .expect_err("expected scalar parameter declaration to be rejected");

    assert!(matches!(err, FznParseError::SyntaxError(_)));
}

#[test]
fn arrays_and_variables_are_linked_in_public_ast() {
    let fzn = parse("var int: x;\narray [1..2] of var int: xs = [x, x];\nsolve satisfy;")
        .expect("failed to parse model with array references");

    assert!(has_variable(&fzn, "x"));
    assert!(has_array(&fzn, "xs"));
    assert_eq!(fzn.arrays[0].contents.len(), 2);
}

#[test]
fn arrays_are_parsed_and_promoted() {
    let (actual, names) = parse_decl(
        array_item_x,
        "array [1..2] of var int: xs :: output_array([1..2]) :: var_is_introduced = [x, y];",
    );
    assert_eq!(
        actual,
        (
            name_id(&names, "xs"),
            Declaration::Array(Array {
                contents: vec![reference(&names, "x"), reference(&names, "y")],
                ann: vec![],
                defined: false,
                introduced: true,
            }),
            true,
        ),
    );

    let fzn = parse(
        "var int: x;\nvar int: y;\narray [1..2] of var int: xs :: output_array([1..2]) = [x, y];\nsolve satisfy;",
    )
    .expect("failed to parse output array model");
    assert_eq!(output_names(&fzn), vec!["xs"]);
}

#[test]
fn basic_constraint_with_array_argument() {
    let (actual, names) = parse_constraint("constraint all_different([x, y]);");
    assert_eq!(
        actual,
        Constraint {
            id: "all_different".into(),
            args: vec![Argument::Array(vec![reference(&names, "x"), reference(&names, "y")])],
            defines: None,
            ann: vec![],
        },
    );
}

#[test]
fn basic_constraint_with_identifier_arguments() {
    let (actual, names) = parse_constraint("constraint int_lt(x, y);");
    assert_eq!(
        actual,
        Constraint {
            id: "int_lt".into(),
            args: vec![
                Argument::Literal(reference(&names, "x")),
                Argument::Literal(reference(&names, "y")),
            ],
            defines: None,
            ann: vec![],
        },
    );
}

#[test]
fn basic_constraint_with_identifier_arguments_and_annotation() {
    let (actual, names) = parse_constraint("constraint int_lt(x, y) :: domain_consistent;");
    assert_eq!(
        actual,
        Constraint {
            id: "int_lt".into(),
            args: vec![
                Argument::Literal(reference(&names, "x")),
                Argument::Literal(reference(&names, "y")),
            ],
            defines: None,
            ann: vec![Annotation::Atom("domain_consistent".to_owned())],
        },
    );
}

#[test]
fn constraint_defines_var_annotation_is_promoted() {
    let (actual, names) = parse_constraint("constraint bool2int(b, x) :: defines_var(x);");
    assert_eq!(
        actual,
        Constraint {
            id: "bool2int".into(),
            args: vec![
                Argument::Literal(reference(&names, "b")),
                Argument::Literal(reference(&names, "x")),
            ],
            defines: Some(name_id(&names, "x")),
            ann: vec![],
        },
    );
}

#[test]
fn constraint_keeps_non_semantic_annotations_after_promotion() {
    let (actual, names) = parse_constraint(
        "constraint int_lin_eq([400, 450, -1], [b, c, obj], 0) :: defines_var(obj) :: ctx_pos;",
    );
    assert_eq!(
        actual,
        Constraint {
            id: "int_lin_eq".into(),
            args: vec![
                Argument::Array(vec![Literal::Int(400), Literal::Int(450), Literal::Int(-1)]),
                Argument::Array(vec![
                    reference(&names, "b"),
                    reference(&names, "c"),
                    reference(&names, "obj"),
                ]),
                Argument::Literal(Literal::Int(0)),
            ],
            defines: Some(name_id(&names, "obj")),
            ann: vec![Annotation::Atom("ctx_pos".to_owned())],
        },
    );
}

#[test]
fn introduced_array_of_variables() {
    let (actual, names) = parse_decl(
        array_item_x,
        "array [1..3] of var int: X_INTRODUCED_1_ ::var_is_introduced  = [x,y,z];",
    );
    assert_eq!(
        actual,
        (
            name_id(&names, "X_INTRODUCED_1_"),
            Declaration::Array(Array {
                contents: vec![
                    reference(&names, "x"),
                    reference(&names, "y"),
                    reference(&names, "z"),
                ],
                ann: vec![],
                defined: false,
                introduced: true,
            }),
            false,
        ),
    );
}

#[test]
fn output_variable_annotation_is_promoted() {
    let (actual, names) =
        parse_decl(var_decl_x, "var int: x :: output_var :: var_is_introduced;");
    assert_eq!(
        actual,
        (
            name_id(&names, "x"),
            Declaration::Variable(Variable {
                ty: VarType::Int(None),
                ann: vec![],
                defined: false,
                introduced: true,
            }),
            true,
        ),
    );

    let fzn = parse("var int: x :: output_var;\nsolve satisfy;")
        .expect("failed to parse output variable model");
    assert_eq!(output_names(&fzn), vec!["x"]);
}

#[test]
fn scalar_variable_assignments_are_rejected() {
    let err = parse("var int: x = 1;\nsolve satisfy;")
        .expect_err("expected scalar variable assignment to be rejected");

    assert!(matches!(err, FznParseError::SyntaxError(_)));
}

#[test]
fn parse_allows_comments() {
    let fzn = parse(
        "/* leading block comment with ; inside */\nvar int: x;\nconstraint int_eq(x, x) /* inline block ; comment */;\n% before solve\nsolve satisfy;",
    )
    .expect("failed to parse model with comments");

    assert!(has_variable(&fzn, "x"));
    assert_eq!(fzn.constraints.len(), 1);
    assert_eq!(fzn.solve.method, flatzinc_serde::Method::Satisfy);
}

#[test]
fn parse_rejects_invalid_item_ordering() {
    let error = parse("solve satisfy;\nconstraint int_eq(x, x);")
        .expect_err("expected parse to reject constraints after solve");
    assert!(matches!(error, FznParseError::SyntaxError(_)));

    let error = parse("constraint int_eq(x, x);\nvar int: x;\nsolve satisfy;")
        .expect_err("expected parse to reject declarations after constraints");
    assert!(matches!(error, FznParseError::SyntaxError(_)));

    let error = parse("var int: x;\npredicate p(var int: y);\nsolve satisfy;")
        .expect_err("expected parse to reject predicates after declarations");
    assert!(matches!(error, FznParseError::SyntaxError(_)));
}

#[test]
fn parse_rejects_multiple_solve_items() {
    let error = parse("solve satisfy;\nsolve minimize x;")
        .expect_err("expected parse to reject multiple solve items");
    assert!(matches!(error, FznParseError::MultipleSolveItems));
}

#[test]
fn predicate_items_are_parsed_but_ignored() {
    let input = "predicate array_int_minimum(var int: m,array [int] of var int: x);";
    assert_eq!(predicate_item_x(input.as_bytes(), 0), Some(input.len()));
    let input = "predicate my_float_set_in(var float: x,set of float: y);";
    assert_eq!(predicate_item_x(input.as_bytes(), 0), Some(input.len()));
}

#[test]
fn solve_annotations_round_trip_to_public_ast() {
    let fzn = parse(
        "var int: x;\nsolve :: int_search([x], input_order, indomain_min, complete) maximize x;",
    )
    .expect("failed to parse solve annotations");

    assert_eq!(
        fzn.solve.method,
        PMethod::Maximize(PLiteral::Variable(Arc::clone(&fzn.variables[0])))
    );
    assert_eq!(
        fzn.solve.ann,
        vec![PAnnotation::Call(PCall {
            id: "int_search".to_owned(),
            args: vec![
                PArgument::Array(vec![PAnnLit::Variable(VarRef::new(&fzn.variables[0]))]),
                PArgument::Literal(PAnnLit::Annotation(PAnnotation::Atom(
                    "input_order".to_owned()
                ))),
                PArgument::Literal(PAnnLit::Annotation(PAnnotation::Atom(
                    "indomain_min".to_owned()
                ))),
                PArgument::Literal(PAnnLit::Annotation(PAnnotation::Atom("complete".to_owned()))),
            ],
        })]
    );
    let PAnnotation::Call(c) = &fzn.solve.ann[0] else { panic!("expected a call") };
    let PArgument::Array(v) = &c.args[0] else { panic!("expected an array") };
    let PAnnLit::Variable(r) = &v[0] else { panic!("expected a variable reference") };
    assert!(Arc::ptr_eq(&r.upgrade().expect("alive"), &fzn.variables[0]));
    assert_eq!(Arc::strong_count(&fzn.variables[0]), 2);
}

#[test]
fn solve_items_are_parsed() {
    let (actual, names) = parse_solve("solve minimize w;");
    assert_eq!(
        actual,
        SolveObjective { method: Method::Minimize(reference(&names, "w")), ann: vec![] },
    );

    let (actual, names) =
        parse_solve("solve :: int_search([x, y, z], first_fail, indomain_split, complete) satisfy;");
    assert_eq!(
        actual,
        SolveObjective {
            method: Method::Satisfy,
            ann: vec![Annotation::Call(AnnotationCall {
                id: "int_search".to_owned(),
                args: vec![
                    Argument::Array(vec![
                        annotation_identifier(&names, "x"),
                        annotation_identifier(&names, "y"),
                        annotation_identifier(&names, "z"),
                    ]),
                    Argument::Literal(annotation_identifier(&names, "first_fail")),
                    Argument::Literal(annotation_identifier(&names, "indomain_split")),
                    Argument::Literal(annotation_identifier(&names, "complete")),
                ],
            })],
        },
    );
}

#[test]
fn solve_optimize() {
    let (actual, names) = parse_solve("solve minimize w;");
    assert_eq!(
        actual,
        SolveObjective { method: Method::Minimize(reference(&names, "w")), ann: vec![] },
    );

    let (actual, names) = parse_solve("solve maximize w;");
    assert_eq!(
        actual,
        SolveObjective { method: Method::Maximize(reference(&names, "w")), ann: vec![] },
    );
}

#[test]
fn solve_satisfy() {
    let (actual, _) = parse_solve("solve satisfy;");
    assert_eq!(actual, SolveObjective { method: Method::Satisfy, ann: vec![] });
}

#[test]
fn solve_with_annotations() {
    let (actual, names) =
        parse_solve("solve :: int_search(xs, input_order, indomain_min, complete) satisfy;");
    assert_eq!(
        actual,
        SolveObjective {
            method: Method::Satisfy,
            ann: vec![Annotation::Call(AnnotationCall {
                id: "int_search".to_owned(),
                args: vec![
                    Argument::Literal(annotation_identifier(&names, "xs")),
                    Argument::Literal(annotation_identifier(&names, "input_order")),
                    Argument::Literal(annotation_identifier(&names, "indomain_min")),
                    Argument::Literal(annotation_identifier(&names, "complete")),
                ],
            })],
        },
    );

    let (actual, names) =
        parse_solve("solve :: int_search([x, y, z], first_fail, indomain_split, complete) maximize x;");
    assert_eq!(
        actual,
        SolveObjective {
            method: Method::Maximize(reference(&names, "x")),
            ann: vec![Annotation::Call(AnnotationCall {
                id: "int_search".to_owned(),
                args: vec![
                    Argument::Array(vec![
                        annotation_identifier(&names, "x"),
                        annotation_identifier(&names, "y"),
                        annotation_identifier(&names, "z"),
                    ]),
                    Argument::Literal(annotation_identifier(&names, "first_fail")),
                    Argument::Literal(annotation_identifier(&names, "indomain_split")),
                    Argument::Literal(annotation_identifier(&names, "complete")),
                ],
            })],
        },
    );
}

#[test]
fn some_parameter_array_items() {
    let (actual, names) =
        parse_decl(array_item_x, "array [1..3] of int: some_param = [5, 3, 10];");
    assert_eq!(
        actual,
        (
            name_id(&names, "some_param"),
            Declaration::Array(Array {
                contents: vec![Literal::Int(5), Literal::Int(3), Literal::Int(10)],
                ann: vec![],
                defined: false,
                introduced: false,
            }),
            false,
        ),
    );

    let (actual, names) =
        parse_decl(array_item_x, "array [1..2] of int: X_INTRODUCED_4_ = [-1,1];");
    assert_eq!(
        actual,
        (
            name_id(&names, "X_INTRODUCED_4_"),
            Declaration::Array(Array {
                contents: vec![Literal::Int(-1), Literal::Int(1)],
                ann: vec![],
                defined: false,
                introduced: false,
            }),
            false,
        ),
    );
}

#[test]
fn variable_introduced_and_or_defined() {
    let (actual, names) = parse_decl(var_decl_x, "var int: x :: var_is_introduced;");
    assert_eq!(
        actual,
        (
            name_id(&names, "x"),
            Declaration::Variable(Variable {
                ty: VarType::Int(None),
                ann: vec![],
                defined: false,
                introduced: true,
            }),
            false,
        ),
    );

    let (actual, names) = parse_decl(var_decl_x, "var int: x :: is_defined_var;");
    assert_eq!(
        actual,
        (
            name_id(&names, "x"),
            Declaration::Variable(Variable {
                ty: VarType::Int(None),
                ann: vec![],
                defined: true,
                introduced: false,
            }),
            false,
        ),
    );

    let (actual, names) =
        parse_decl(var_decl_x, "var bool: x :: is_defined_var :: var_is_introduced;");
    assert_eq!(
        actual,
        (
            name_id(&names, "x"),
            Declaration::Variable(Variable {
                ty: VarType::Bool,
                ann: vec![],
                defined: true,
                introduced: true,
            }),
            false,
        ),
    );
}

#[test]
fn variable_with_bounded_float_domain() {
    let (actual, names) = parse_decl(var_decl_x, "var 1.0..5.5: x;");
    let (id, decl, output) = actual;
    assert_eq!((id, output), (name_id(&names, "x"), false));
    let Declaration::Variable(v) = decl else { panic!("expected a variable") };
    let VarType::Float(Some(domain)) = &v.ty else { panic!("expected a float domain") };
    let domain: RangeList<f64> = domain
        .iter()
        .map(|(a, b)| a.parse::<f64>().unwrap()..=b.parse::<f64>().unwrap())
        .collect();
    assert_eq!(domain, RangeList::from(1.0..=5.5));
    assert_eq!((v.ann.len(), v.defined, v.introduced), (0, false, false));
}

#[test]
fn variable_with_bounded_int_domain() {
    let (actual, names) = parse_decl(var_decl_x, "var 1..5: x;");
    let (id, decl, output) = actual;
    assert_eq!((id, output), (name_id(&names, "x"), false));
    let Declaration::Variable(v) = decl else { panic!("expected a variable") };
    assert!(matches!(v.ty, VarType::Int(Some(_))));
    assert_eq!(int_domain(&v.ty), Some(RangeList::from(1..=5)));
    assert_eq!((v.ann.len(), v.defined, v.introduced), (0, false, false));

    let (actual, names) = parse_decl(var_decl_x, "var {1, 4, 6}: x;");
    let (id, decl, output) = actual;
    assert_eq!((id, output), (name_id(&names, "x"), false));
    let Declaration::Variable(v) = decl else { panic!("expected a variable") };
    assert!(matches!(v.ty, VarType::Int(Some(_))));
    assert_eq!(int_domain(&v.ty), Some(RangeList::from_iter([1..=1, 4..=4, 6..=6])));
    assert_eq!((v.ann.len(), v.defined, v.introduced), (0, false, false));
}

#[test]
fn variable_with_int_set_domain() {
    let (actual, names) = parse_decl(var_decl_x, "var set of 1..5: x;");
    let (id, decl, output) = actual;
    assert_eq!((id, output), (name_id(&names, "x"), false));
    let Declaration::Variable(v) = decl else { panic!("expected a variable") };
    assert!(matches!(v.ty, VarType::IntSet(Some(_))));
    assert_eq!(int_domain(&v.ty), Some(RangeList::from(1..=5)));

    let (actual, names) = parse_decl(var_decl_x, "var set of {1, 3}: x;");
    let (id, decl, output) = actual;
    assert_eq!((id, output), (name_id(&names, "x"), false));
    let Declaration::Variable(v) = decl else { panic!("expected a variable") };
    assert!(matches!(v.ty, VarType::IntSet(Some(_))));
    assert_eq!(int_domain(&v.ty), Some(RangeList::from_iter([1..=1, 3..=3])));
}

#[test]
fn variable_with_named_domain() {
    let (actual, names) = parse_decl(var_decl_x, "var int: x;");
    assert_eq!(
        actual,
        (
            name_id(&names, "x"),
            Declaration::Variable(Variable {
                ty: VarType::Int(None),
                ann: vec![],
                defined: false,
                introduced: false,
            }),
            false,
        ),
    );

    let (actual, names) = parse_decl(var_decl_x, "var float: x;");
    assert_eq!(
        actual,
        (
            name_id(&names, "x"),
            Declaration::Variable(Variable {
                ty: VarType::Float(None),
                ann: vec![],
                defined: false,
                introduced: false,
            }),
            false,
        ),
    );

    let (actual, names) = parse_decl(var_decl_x, "var set of int: x;");
    assert_eq!(
        actual,
        (
            name_id(&names, "x"),
            Declaration::Variable(Variable {
                ty: VarType::IntSet(None),
                ann: vec![],
                defined: false,
                introduced: false,
            }),
            false,
        ),
    );
}

#[test]
fn variables_are_parsed_with_domains_and_annotations() {
    let (actual, names) = parse_decl(var_decl_x, "var 1..5: x :: mip;");
    let (id, decl, output) = actual;
    assert_eq!((id, output), (name_id(&names, "x"), false));
    let Declaration::Variable(v) = decl else { panic!("expected a variable") };
    assert_eq!(int_domain(&v.ty), Some(RangeList::from(1..=5)));
    assert_eq!(v.ann, vec![Annotation::Atom("mip".to_owned())]);
    assert_eq!((v.defined, v.introduced), (false, false));
}

/// Read a source statement by statement and finish with `interner` applied
/// to the identifiers the reader lists.
fn parse_interned(
    source: &str,
    interner: impl Fn(&str) -> Result<String, String>,
) -> Result<FlatZinc, FznParseError> {
    let mut reader = flatzinc_serde::fzn::FznReader::new();
    let mut rest = source.as_bytes();
    while !rest.is_empty() {
        let k = flatzinc_serde::fzn::statement_len(rest).unwrap_or(rest.len());
        reader.read_statement(&rest[..k])?;
        rest = &rest[k..];
    }
    let ids = reader.identifiers().iter().map(|s| interner(s)).collect();
    reader.finish_interned(ids)
}

#[test]
fn parse_reports_identifier_parse_errors() {
    let error = parse_interned("var int: x;\nconstraint int_eq(x, x);\nsolve satisfy;", |s| {
        if s.starts_with('x') { Ok(s.to_owned()) } else { Err("identifier must start with x".to_owned()) }
    })
    .expect_err("expected parse to reject unsupported identifiers");
    assert!(matches!(
        error,
        FznParseError::LinkError(flatzinc_serde::LinkError::IdentifierError { .. })
    ));
}

#[test]
fn parse_supports_custom_identifier_types() {
    let fzn = parse_interned("var int: x :: output_var;\nconstraint int_eq(x, x);\nsolve satisfy;", |s| {
        Ok(s.to_owned())
    })
    .expect("failed to parse model with interned identifiers");
    assert!(has_variable(&fzn, "x"));
    assert_eq!(output_names(&fzn), vec!["x"]);
    assert_eq!(fzn.constraints[0].id, "int_eq");
}

#[test]
fn parse_supports_custom_interner_functions() {
    let fzn = parse_interned("var int: x :: output_var;\nconstraint int_eq(x, x);\nsolve satisfy;", |s| {
        Ok(format!("id:{s}"))
    })
    .expect("failed to parse model with custom interner");
    assert!(has_variable(&fzn, "x"));
    assert_eq!(output_names(&fzn), vec!["x"]);
    assert_eq!(fzn.constraints[0].id, "id:int_eq");
}

#[test]
fn interning_identifiers_as_themselves_changes_nothing() {
    let source = "var 1..3: x :: output_var :: mark;\nconstraint int_le(x, 2) :: domain;\nsolve :: int_search([x], input_order, indomain_min) satisfy;\n";
    let plain = FlatZinc::from_fzn(source.as_bytes()).expect("model");
    let interned = parse_interned(source, |s| Ok(s.to_owned())).expect("model");
    assert_eq!(interned.to_fzn(), plain.to_fzn());
    assert_eq!(interned.constraints[0].id, "int_le");
}
