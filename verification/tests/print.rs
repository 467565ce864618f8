use flatzinc_serde::json::{base_type, into_type, numeric_set, solve_method, BaseType, Number, NumericSet};
use flatzinc_serde::intermediate::{Literal as ILiteral, Method as IMethod, VarType};
use std::sync::Arc;

use flatzinc_serde::print::Piece;
use flatzinc_serde::{
    Annotation, AnnotationCall, AnnotationLiteral, Argument, Array, FlatZinc, Literal, Method,
    NamedRef, RangeList, SolveObjective, Type, Variable,
};

fn render(fzn: &FlatZinc) -> String {
    render_pieces(fzn.to_fzn())
}

fn render_pieces(pieces: Vec<Piece>) -> String {
    let mut s = String::new();
    for p in pieces {
        match p {
            Piece::Text(t) => s.push_str(&t),
            Piece::Float(t) => s.push_str(&format!("{:?}", t.parse::<f64>().unwrap())),
            Piece::FloatSet(v) => {
                let r: RangeList<f64> = v
                    .iter()
                    .map(|(a, b)| a.parse::<f64>().unwrap()..=b.parse::<f64>().unwrap())
                    .collect();
                s.push_str(&r.to_string())
            },
        }
    }
    s
}

#[test]
fn model_is_written_back_as_fzn() {
    let source = "var 1..3: x :: output_var;\nvar bool: b :: is_defined_var :: var_is_introduced;\narray [1..2] of var int: xs :: output_array([1..2]) = [x, x];\nconstraint int_le(x, 2) :: defines_var(b) :: domain;\nsolve :: int_search(xs, input_order, indomain_min) minimize x;\n";
    let fzn = FlatZinc::from_fzn(source.as_bytes()).expect("model");
    assert_eq!(
        render(&fzn),
        "var 1..3: x ::output_var;\nvar bool: b ::is_defined_var ::var_is_introduced;\narray[1..2] of var int: xs ::output_array([1..2]) = [x, x];\nconstraint int_le(x, 2) ::defines_var(b) ::domain;\nsolve ::int_search(xs, input_order, indomain_min) minimize x;\n"
    );
}

#[test]
fn literals_are_written_in_fzn_form() {
    let source = "array [1..5] of int: a = [1, -2, 3, 4, 5];\nconstraint c(a, {1, 3, 2, 7}, 5e-1, \"a\\b\", true, 1.0..2.5);\nsolve satisfy;";
    let fzn = FlatZinc::from_fzn(source.as_bytes()).expect("model");
    assert_eq!(
        render(&fzn),
        "array[1..5] of int: a = [1, -2, 3, 4, 5];\nconstraint c(a, 1..3 union 7..7, 0.5, \"a\\\\b\", true, 1.0..2.5);\nsolve satisfy;\n"
    );
}

#[test]
fn empty_sets_and_float_domains_are_written() {
    let source = "var 1.5..2.5: f;\nvar set of int: s;\nconstraint c(3..1);\nsolve maximize f;";
    let fzn = FlatZinc::from_fzn(source.as_bytes()).expect("model");
    assert_eq!(
        render(&fzn),
        "var 1.5..2.5: f;\nvar set of int: s;\nconstraint c(1..0);\nsolve maximize f;\n"
    );
}

#[test]
fn json_base_types_are_named() {
    assert_eq!(base_type("bool"), Some(BaseType::Bool));
    assert_eq!(base_type("int"), Some(BaseType::Int));
    assert_eq!(base_type("float"), Some(BaseType::Float));
    assert_eq!(base_type("set of int"), Some(BaseType::IntSet));
    assert_eq!(base_type("string"), None);
}

#[test]
fn json_numeric_sets_are_float_when_a_bound_is() {
    assert_eq!(
        numeric_set(vec![(Number::Int(1), Number::Int(3))]),
        NumericSet::Int(vec![(1, 3)])
    );
    assert_eq!(
        numeric_set(vec![(Number::Int(1), Number::Float("2.5".to_owned())), (Number::Int(-4), Number::Int(7))]),
        NumericSet::Float(vec![
            ("1".to_owned(), "2.5".to_owned()),
            ("-4".to_owned(), "7".to_owned())
        ])
    );
}

#[test]
fn json_domains_must_fit_the_type() {
    assert_eq!(into_type(BaseType::Int, None), Ok(VarType::Int(None)));
    assert_eq!(
        into_type(BaseType::Int, Some(NumericSet::Int(vec![(1, 2)]))),
        Ok(VarType::Int(Some(vec![(1, 2)])))
    );
    assert_eq!(
        into_type(BaseType::Bool, Some(NumericSet::Int(vec![(0, 1)]))),
        Err("bool variables cannot have a domain".to_owned())
    );
    assert_eq!(
        into_type(BaseType::Int, Some(NumericSet::Float(vec![]))),
        Err("int variables require an int domain".to_owned())
    );
    assert_eq!(
        into_type(BaseType::Float, Some(NumericSet::Int(vec![]))),
        Err("float variables require a float domain".to_owned())
    );
    assert_eq!(
        into_type(BaseType::IntSet, Some(NumericSet::Float(vec![]))),
        Err("set of int variables require an int domain".to_owned())
    );
}

#[test]
fn json_solve_methods() {
    assert_eq!(solve_method("satisfy", None), Ok(IMethod::Satisfy));
    assert_eq!(solve_method("minimize", Some(ILiteral::Int(3))), Ok(IMethod::Minimize(ILiteral::Int(3))));
    assert_eq!(
        solve_method("satisfy", Some(ILiteral::Int(3))),
        Err("satisfy solve items cannot have an objective".to_owned())
    );
    assert_eq!(
        solve_method("maximize", None),
        Err("maximize solve items require an objective".to_owned())
    );
    assert_eq!(solve_method("other", None), Err("unknown solve method `other`".to_owned()));
}

#[test]
fn test_print_flatzinc() {
    let ann = Annotation::Call(AnnotationCall {
        id: "bool_search".to_owned(),
        args: vec![
            Argument::Literal(AnnotationLiteral::Annotation(Annotation::Atom("input_order".to_owned()))),
            Argument::Literal(AnnotationLiteral::Annotation(Annotation::Atom("indomain_min".to_owned()))),
        ],
    });
    assert_eq!(render_pieces(ann.to_fzn()), "bool_search(input_order, indomain_min)");

    assert_eq!(render_pieces(Type::Bool.to_fzn()), "bool");
    assert_eq!(render_pieces(Type::Int(None).to_fzn()), "int");
    assert_eq!(render_pieces(Type::Float(None).to_fzn()), "float");
    assert_eq!(render_pieces(Type::IntSet(None).to_fzn()), "set of int");
    let ty = Type::Float(Some(vec![("1.0".to_owned(), "4.0".to_owned())]));
    assert_eq!(render_pieces(ty.to_fzn()), "1.0..4.0");

    assert_eq!(render_pieces(Literal::Int(1).to_fzn()), "1");
    assert_eq!(render_pieces(Literal::Float("1.0".to_owned()).to_fzn()), "1.0");
    let x = Arc::new(Variable {
        name: "x".to_owned(),
        ty: Type::IntSet(None),
        ann: vec![Annotation::Atom("special".to_owned())],
        defined: false,
        introduced: true,
    });
    assert_eq!(render_pieces(Literal::Variable(Arc::clone(&x)).to_fzn()), "x");
    assert_eq!(render_pieces(Literal::Bool(true).to_fzn()), "true");
    assert_eq!(render_pieces(Literal::IntSet(RangeList::from(2..=3)).to_fzn()), "2..3");
    let fs = Literal::FloatSet(vec![("2.0".to_owned(), "3.0".to_owned())]);
    assert_eq!(render_pieces(fs.to_fzn()), "2.0..3.0");
    assert_eq!(render_pieces(Literal::String("hello".to_owned()).to_fzn()), "\"hello\"");

    let y = Arc::new(Array {
        name: "y".to_owned(),
        ann: vec![Annotation::Atom("special".to_owned())],
        contents: vec![Literal::Int(1), Literal::Int(2), Literal::Int(3)],
        introduced: true,
        defined: true,
    });
    let fzn = FlatZinc {
        variables: vec![Arc::clone(&x)],
        arrays: vec![Arc::clone(&y)],
        output: vec![NamedRef::Array(Arc::clone(&y))],
        ..Default::default()
    };
    assert_eq!(
        render(&fzn),
        "var set of int: x ::var_is_introduced ::special;\narray[1..3] of int: y ::output_array([1..3]) ::is_defined_var ::var_is_introduced ::special = [1, 2, 3];\nsolve satisfy;\n"
    );

    let sat = SolveObjective { method: Method::Minimize(Literal::Variable(x)), ann: vec![ann] };
    assert_eq!(render_pieces(sat.to_fzn()), "solve ::bool_search(input_order, indomain_min) minimize x");
}

#[test]
fn constraints_and_arguments_are_written_alone() {
    let source = "array [1..2] of var int: xs = [x, y];\nvar int: x;\nvar int: y;\nconstraint int_lin_le(xs, [1, 2], 3) :: defines_var(x) :: domain;\nsolve maximize y;";
    let fzn = FlatZinc::from_fzn(source.as_bytes()).expect("model");
    let c = &fzn.constraints[0];
    assert_eq!(render_pieces(c.to_fzn()), "int_lin_le(xs, [1, 2], 3) ::defines_var(x) ::domain");
    assert_eq!(render_pieces(c.args[1].to_fzn()), "[1, 2]");
    assert_eq!(render_pieces(c.args[0].to_fzn()), "xs");
    assert_eq!(render_pieces(fzn.solve.method.to_fzn()), "maximize y");
    let arg = Argument::Array(vec![
        AnnotationLiteral::Literal(Literal::Int(4)),
        AnnotationLiteral::Annotation(Annotation::Atom("first_fail".to_owned())),
    ]);
    assert_eq!(render_pieces(arg.to_fzn()), "[4, first_fail]");
    assert_eq!(render_pieces(AnnotationLiteral::Literal(Literal::Bool(false)).to_fzn()), "false");
}

#[test]
fn integers_are_written_in_decimal() {
    let source = "var -42..1000000: x;\nconstraint int_le(x, 0);\nconstraint int_le(-9223372036854775807, x);\nsolve satisfy;\n";
    let fzn = FlatZinc::from_fzn(source.as_bytes()).expect("model");
    assert_eq!(
        render(&fzn),
        "var -42..1000000: x;\nconstraint int_le(x, 0);\nconstraint int_le(-9223372036854775807, x);\nsolve satisfy;\n"
    );
}
