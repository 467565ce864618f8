use std::sync::Arc;

use flatzinc_serde::fzn::{statement_len, FznReader};
use flatzinc_serde::{
    Annotation, AnnotationLiteral, Argument, FlatZinc, FznParseError, LinkError, Literal, Method,
    NamedRef, RangeList, Type, Variable,
};

fn parse(source: &str) -> Result<FlatZinc, FznParseError> {
    FlatZinc::from_fzn(source.as_bytes())
}

#[test]
fn test_default_flatzinc() {
    let fzn = FlatZinc::default();
    assert!(fzn.variables.is_empty());
    assert!(fzn.arrays.is_empty());
    assert!(fzn.constraints.is_empty());
    assert!(fzn.output.is_empty());
    assert_eq!(fzn.solve.method, Method::Satisfy);
    assert!(fzn.solve.ann.is_empty());
    assert_eq!(fzn.version, "1.0");
}

#[test]
fn statement_len_skips_semicolons_in_comments() {
    assert_eq!(statement_len(b"var int: x; var int: y;"), Some(11));
    assert_eq!(statement_len(b"% a; b\nvar int: x;"), Some(18));
    assert_eq!(statement_len(b"/* ; */ solve satisfy;"), Some(22));
    assert_eq!(statement_len(b"/* ** ; **/;"), Some(12));
    assert_eq!(statement_len(b"solve satisfy"), None);
    assert_eq!(statement_len(b"% only ;"), None);
    assert_eq!(statement_len(b""), None);
}

#[test]
fn reading_statement_by_statement_matches_whole_source() {
    let source = "var 1..3: x :: output_var;\n% comment ;\nconstraint int_le(x, 2);\nsolve maximize x;\n";
    let whole = parse(source).expect("whole source");
    let mut reader = FznReader::new();
    let mut rest = source.as_bytes();
    while !rest.is_empty() {
        let k = statement_len(rest).unwrap_or(rest.len());
        reader.read_statement(&rest[..k]).expect("statement");
        rest = &rest[k..];
    }
    let streamed = reader.finish().expect("finish");
    assert_eq!(whole, streamed);
    assert_eq!(whole.variables.len(), 1);
    assert_eq!(whole.variables[0].ty, Type::Int(Some(RangeList::from(1..=3))));
}

#[test]
fn missing_solve_item_is_reported() {
    let err = parse("var int: x;\n").expect_err("no solve item");
    assert!(matches!(err, FznParseError::MissingSolveItem));
    let err = parse("").expect_err("empty source");
    assert!(matches!(err, FznParseError::MissingSolveItem));
}

#[test]
fn invalid_utf8_is_reported() {
    let err = FlatZinc::from_fzn(b"var int: \xff;\nsolve satisfy;").expect_err("bad bytes");
    assert!(matches!(err, FznParseError::Utf8Error(_)));
}

#[test]
fn duplicate_definitions_are_reported() {
    let err = parse("var int: x;\nvar bool: x;\nsolve satisfy;").expect_err("duplicate");
    match err {
        FznParseError::LinkError(LinkError::DuplicateDefinition(n)) => assert_eq!(n, "x"),
        other => panic!("unexpected error {other:?}"),
    }
}

#[test]
fn unknown_references_in_constraints_are_reported() {
    let err = parse("constraint int_eq(y, 1);\nsolve satisfy;").expect_err("unknown");
    match err {
        FznParseError::LinkError(LinkError::UnknownReference(n)) => assert_eq!(n, "y"),
        other => panic!("unexpected error {other:?}"),
    }
}

#[test]
fn named_arrays_as_literals_are_reported() {
    let err = parse("array [1..1] of int: a = [1];\narray [1..1] of int: b = [a];\nsolve satisfy;")
        .expect_err("nested array");
    assert!(matches!(err, FznParseError::LinkError(LinkError::NestedArray(n)) if n == "a"));
    let err = parse("array [1..1] of int: b = [a];\narray [1..1] of int: a = [1];\nsolve satisfy;")
        .expect_err("nested array before its declaration");
    assert!(matches!(err, FznParseError::LinkError(LinkError::NestedArray(n)) if n == "a"));
}

#[test]
fn unknown_names_in_annotations_become_atoms() {
    let fzn = parse("var int: x;\nsolve :: int_search([x], first_fail, indomain_min) satisfy;")
        .expect("model");
    let Annotation::Call(c) = &fzn.solve.ann[0] else { panic!("expected a call") };
    assert_eq!(
        c.args[1],
        Argument::Literal(AnnotationLiteral::Annotation(Annotation::Atom("first_fail".to_owned())))
    );
}

#[test]
fn references_share_the_declaration() {
    let fzn = parse("var int: x;\narray [1..2] of var int: xs = [x, x];\nconstraint int_le(x, 3);\nsolve minimize x;")
        .expect("model");
    let Literal::Variable(a) = &fzn.arrays[0].contents[0] else { panic!("expected a variable") };
    let Literal::Variable(b) = &fzn.arrays[0].contents[1] else { panic!("expected a variable") };
    assert!(Arc::ptr_eq(a, b));
    assert!(Arc::ptr_eq(a, &fzn.variables[0]));
    let Argument::Literal(Literal::Variable(c)) = &fzn.constraints[0].args[0] else {
        panic!("expected a variable")
    };
    assert!(Arc::ptr_eq(c, &fzn.variables[0]));
    let Method::Minimize(Literal::Variable(d)) = &fzn.solve.method else { panic!("expected minimize") };
    assert!(Arc::ptr_eq(d, &fzn.variables[0]));
}

#[test]
fn variables_are_listed_in_order_of_first_mention() {
    let fzn = parse("var int: x :: ann(y);\nvar int: y;\nsolve satisfy;").expect("model");
    let names: Vec<&str> = fzn.variables.iter().map(|v| v.name.as_str()).collect();
    assert_eq!(names, vec!["y", "x"]);
}

#[test]
fn annotations_that_lead_back_to_their_declaration_are_dropped() {
    let fzn = parse("var int: x :: ann(x) :: keep;\nsolve satisfy;").expect("model");
    assert_eq!(fzn.variables[0].ann, vec![Annotation::Atom("keep".to_owned())]);
}

#[test]
fn int_sets_are_normalized() {
    let fzn = parse("var {3, 1, 2, 7}: x;\nconstraint set_in(x, 5..4 union {9, 8});\nsolve satisfy;")
        .expect("model");
    assert_eq!(fzn.variables[0].ty, Type::Int(Some(RangeList::from_iter([1..=3, 7..=7]))));
    assert_eq!(
        fzn.constraints[0].args[1],
        Argument::Literal(Literal::IntSet(RangeList::from(8..=9)))
    );
}

#[test]
fn defines_var_with_another_argument_keeps_an_empty_call() {
    let fzn = parse("var int: x;\nconstraint int_eq(x, 1) :: defines_var(3);\nsolve satisfy;")
        .expect("model");
    assert!(fzn.constraints[0].defines.is_none());
    let Annotation::Call(c) = &fzn.constraints[0].ann[0] else { panic!("expected a call") };
    assert_eq!(c.id, "defines_var");
    assert!(c.args.is_empty());
}

#[test]
fn defines_var_names_the_defined_variable() {
    let fzn = parse("var int: x :: is_defined_var;\nconstraint int_eq(x, 1) :: defines_var(x);\nsolve satisfy;")
        .expect("model");
    assert_eq!(fzn.constraints[0].defines.as_ref().map(|n| n.name()), Some("x".to_owned()));
    assert!(fzn.variables[0].defined);
}

#[test]
fn string_and_float_literals_keep_their_text() {
    let fzn = parse("constraint c(\"a b\", 1.5e3, true);\nsolve satisfy;").expect("model");
    assert_eq!(
        fzn.constraints[0].args,
        vec![
            Argument::Literal(Literal::String("a b".to_owned())),
            Argument::Literal(Literal::Float("1.5e3".to_owned())),
            Argument::Literal(Literal::Bool(true)),
        ]
    );
}

#[test]
fn predicates_are_accepted_before_declarations_only() {
    let fzn = parse("predicate p(var int: y);\nvar int: x;\nsolve satisfy;").expect("model");
    assert_eq!(fzn.variables.len(), 1);
    let err = parse("predicate p(var int y);\nsolve satisfy;").expect_err("bad predicate");
    assert!(matches!(err, FznParseError::SyntaxError(_)));
}

#[test]
fn link_errors_have_messages() {
    assert_eq!(
        LinkError::UnknownReference("x".to_owned()).message(),
        "unknown FlatZinc variable or array `x`"
    );
    assert_eq!(
        LinkError::NestedArray("a".to_owned()).message(),
        "array identifier `a` used as part of an array"
    );
    assert_eq!(LinkError::DuplicateDefinition("y".to_owned()).message(), "duplicate definition of `y`");
    assert_eq!(
        LinkError::IdentifierError { ident: "p".to_owned(), err: "too long".to_owned() }.message(),
        "failed to intern identifier `p`: too long"
    );
}

#[test]
fn parse_errors_have_messages() {
    assert_eq!(FznParseError::MissingSolveItem.message(), "missing solve item");
    assert_eq!(FznParseError::MultipleSolveItems.message(), "multiple solve items");
    assert_eq!(FznParseError::SyntaxError("bad".to_owned()).message(), "syntax error: bad");
    assert_eq!(
        FznParseError::LinkError(LinkError::DuplicateDefinition("y".to_owned())).message(),
        "error linking model: duplicate definition of `y`"
    );
    let io = FznParseError::Io(std::io::Error::new(std::io::ErrorKind::Other, "gone"));
    assert_eq!(io.message(), "error reading from source: gone");
    let bytes: Vec<u8> = vec![0x66, 0xff];
    let utf8 = match std::str::from_utf8(&bytes) {
        Err(e) => FznParseError::Utf8Error(e),
        Ok(_) => unreachable!(),
    };
    assert!(utf8.message().starts_with("invalid utf8: "));
    assert_eq!(
        utf8.message(),
        "invalid utf8: invalid utf-8 sequence of 1 bytes from index 1"
    );
}

#[test]
fn a_cloned_model_shares_its_declarations() {
    let fzn = parse(
        "var 1..3: x :: output_var;\narray [1..2] of var int: xs = [x, x];\nconstraint int_le(x, 2) :: domain;\nsolve :: int_search(xs, input_order, indomain_min) minimize x;",
    )
    .expect("model");
    let copy = fzn.clone();
    assert_eq!(copy, fzn);
    assert!(Arc::ptr_eq(&copy.variables[0], &fzn.variables[0]));
    assert!(Arc::ptr_eq(&copy.arrays[0], &fzn.arrays[0]));
    match &copy.constraints[0].args[0] {
        Argument::Literal(Literal::Variable(v)) => assert!(Arc::ptr_eq(v, &fzn.variables[0])),
        other => panic!("unexpected argument {other:?}"),
    }
    let ann = fzn.solve.ann[0].clone();
    assert_eq!(ann, fzn.solve.ann[0]);
    let ty = Type::Int(Some(RangeList::from(1..=3)));
    assert_eq!(ty.clone(), ty);
    let lit = Literal::FloatSet(vec![("1.5".to_owned(), "2.5".to_owned())]);
    assert_eq!(lit.clone(), lit);
}

#[test]
fn named_refs_are_keyed_by_name() {
    let fzn = parse("var int: x :: output_var;\narray [1..1] of var int: xs :: output_array([1..1]) = [x];\nsolve satisfy;")
        .expect("model");
    let x = NamedRef::from(Arc::clone(&fzn.variables[0]));
    let xs: NamedRef = Arc::clone(&fzn.arrays[0]).into();
    assert_eq!(x.name(), "x");
    assert_eq!(xs.name(), "xs");
    let other = Arc::new(Variable {
        name: "x".to_owned(),
        ty: Type::Bool,
        ann: Vec::new(),
        defined: false,
        introduced: false,
    });
    let mut set = std::collections::HashSet::new();
    assert!(set.insert(x.clone()));
    assert!(set.insert(xs));
    assert!(!set.insert(NamedRef::Variable(other)));
    assert_eq!(set.len(), 2);
    assert!(set.contains(&fzn.output[0]));
}

#[test]
fn literals_convert_into_annotation_literals() {
    let l: AnnotationLiteral = Literal::Int(7).into();
    assert_eq!(l, AnnotationLiteral::Literal(Literal::Int(7)));
}

#[test]
fn variable_references_in_annotations_do_not_own() {
    let fzn = parse("var int: x;\nvar int: y :: my_ann(x);\nsolve satisfy;").expect("model");
    let y = &fzn.variables[1];
    let Annotation::Call(c) = &y.ann[0] else { panic!("expected a call") };
    let Argument::Literal(AnnotationLiteral::Variable(r)) = &c.args[0] else {
        panic!("expected a variable reference")
    };
    assert_eq!(r.name(), "x");
    let held = r.clone();
    drop(fzn);
    assert!(held.upgrade().is_none());
}

#[test]
fn statements_put_together_are_the_source() {
    let source = b"var int: x; % a ; in a comment\n/* ; */ constraint c(x);\nsolve satisfy; trailing";
    let mut rest: &[u8] = source;
    let mut joined = Vec::new();
    let mut count = 0;
    while !rest.is_empty() {
        let k = statement_len(rest).unwrap_or(rest.len());
        assert!(k > 0);
        joined.extend_from_slice(&rest[..k]);
        rest = &rest[k..];
        count += 1;
    }
    assert_eq!(joined, source.to_vec());
    assert_eq!(count, 4);
}

#[test]
fn identifiers_are_listed_for_an_interner() {
    let mut reader = FznReader::new();
    for t in [
        "var int: x :: output_var :: my_ann(x, other);",
        "constraint int_le(x, 3) :: domain;",
        "solve :: int_search([x], input_order, indomain_min) satisfy;",
    ] {
        reader.read_statement(t.as_bytes()).expect("statement");
    }
    assert_eq!(
        reader.identifiers(),
        vec!["my_ann", "int_le", "domain", "int_search", "other", "input_order", "indomain_min"]
    );
    let ids: Vec<Result<String, String>> =
        reader.identifiers().iter().map(|s| Ok(s.to_uppercase())).collect();
    let fzn = reader.finish_interned(ids).expect("model");
    assert_eq!(fzn.constraints[0].id, "INT_LE");
    assert!(matches!(&fzn.constraints[0].ann[0], Annotation::Atom(a) if a == "DOMAIN"));
    assert!(matches!(&fzn.solve.ann[0], Annotation::Call(c) if c.id == "INT_SEARCH"));
    let Annotation::Call(c) = &fzn.solve.ann[0] else { unreachable!() };
    assert!(matches!(&c.args[1], Argument::Literal(AnnotationLiteral::Annotation(Annotation::Atom(a))) if a == "INPUT_ORDER"));
    assert_eq!(fzn.output.len(), 1);
}

#[test]
fn a_refused_identifier_is_reported() {
    let mut reader = FznReader::new();
    for t in ["var int: x;", "constraint int_eq(x, x);", "solve satisfy;"] {
        reader.read_statement(t.as_bytes()).expect("statement");
    }
    let ids: Vec<Result<String, String>> = reader
        .identifiers()
        .iter()
        .map(|s| if s.starts_with('x') { Ok(s.clone()) } else { Err(format!("cannot intern {s}")) })
        .collect();
    match reader.finish_interned(ids) {
        Err(FznParseError::LinkError(LinkError::IdentifierError { ident, err })) => {
            assert_eq!(ident, "int_eq");
            assert_eq!(err, "cannot intern int_eq");
        },
        other => panic!("unexpected {other:?}"),
    }
}

#[test]
fn an_annotation_naming_its_own_declaration_is_dropped() {
    let fzn = parse("var int: x :: mark(x) :: other;\nsolve satisfy;").expect("model");
    assert_eq!(fzn.variables.len(), 1);
    assert_eq!(fzn.variables[0].ann.len(), 1);
    assert!(matches!(&fzn.variables[0].ann[0], Annotation::Atom(a) if a == "other"));
}

#[test]
fn unknown_references_in_arrays_are_reported_by_name() {
    let err = parse("array [1..2] of var int: xs = [1, z];\nsolve satisfy;").expect_err("unknown");
    match err {
        FznParseError::LinkError(LinkError::UnknownReference(n)) => assert_eq!(n, "z"),
        other => panic!("unexpected error {other:?}"),
    }
}
