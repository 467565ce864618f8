use flatzinc_serde::fzn::literals::literal_x;
use flatzinc_serde::intermediate::Literal;
use flatzinc_serde::names::NameStore;
use flatzinc_serde::RangeList;

fn parse_with_names(input: &str) -> (Literal, NameStore) {
    let mut names = NameStore::new();
    let (l, end) = literal_x(input.as_bytes(), 0, &mut names)
        .unwrap_or_else(|| panic!("parser returned unexpected error on `{input}`"));
    assert_eq!(end, input.len(), "literal `{input}` not read to the end");
    (l, names)
}

fn name_id(names: &NameStore, expected: &str) -> usize {
    (0..names.len())
        .find(|&i| names.name_of(i) == expected)
        .unwrap_or_else(|| panic!("expected interned name `{expected}`"))
}

fn float(input: &str) -> f64 {
    match parse_with_names(input).0 {
        Literal::Float(t) => t.parse().unwrap(),
        other => panic!("expected a float literal, got {other:?}"),
    }
}

fn int_set(input: &str) -> RangeList<i64> {
    match parse_with_names(input).0 {
        Literal::IntSet(r) => r.iter().map(|&(a, b)| a..=b).collect(),
        other => panic!("expected an integer set, got {other:?}"),
    }
}

fn float_set(input: &str) -> RangeList<f64> {
    match parse_with_names(input).0 {
        Literal::FloatSet(r) => r
            .iter()
            .map(|(a, b)| a.parse::<f64>().unwrap()..=b.parse::<f64>().unwrap())
            .collect(),
        other => panic!("expected a float set, got {other:?}"),
    }
}

#[test]
fn boolean_literal() {
    assert_eq!(parse_with_names("true").0, Literal::Bool(true));
    assert_eq!(parse_with_names("false").0, Literal::Bool(false));
}

#[test]
fn float_literal() {
    assert_eq!(float("3.02"), 3.02);
    assert_eq!(float("-34.85"), -34.85);
    assert_eq!(float("5e-1"), 5e-1);
    assert_eq!(float("5e12"), 5e12);
    assert_eq!(float("-11e3"), -11e3);
    assert_eq!(float("5E-1"), 5e-1);
    assert_eq!(float("5E12"), 5e12);
    assert_eq!(float("-11E3"), -11e3);
    assert_eq!(float("5.2E-1"), 5.2e-1);
    assert_eq!(float("5.54E12"), 5.54e12);
    assert_eq!(float("-11E+3"), -11e3);
}

#[test]
fn float_set_literal() {
    assert_eq!(int_set("1..5"), RangeList::from(1..=5));
    assert_eq!(
        float_set("{1.3, 4e3, -4.8}"),
        RangeList::from_iter([1.3..=1.3, 4e3..=4e3, -4.8..=-4.8])
    );
    assert_eq!(
        float_set("2.0..2.0 union 2.5..3.0"),
        RangeList::from_iter([2.0..=2.0, 2.5..=3.0])
    );
    assert_eq!(
        float_set("{1.0} union 2.5..3.0"),
        RangeList::from_iter([1.0..=1.0, 2.5..=3.0])
    );
}

#[test]
fn identifier_literal() {
    let (actual, names) = parse_with_names("some_name");
    assert_eq!(actual, Literal::Reference(name_id(&names, "some_name")));

    let (actual, names) = parse_with_names("_some_name");
    assert_eq!(actual, Literal::Reference(name_id(&names, "_some_name")));

    let (actual, names) = parse_with_names("_SomeName283");
    assert_eq!(actual, Literal::Reference(name_id(&names, "_SomeName283")));
}

#[test]
fn int_literal() {
    assert_eq!(parse_with_names("0").0, Literal::Int(0));
    assert_eq!(parse_with_names("420").0, Literal::Int(420));
    assert_eq!(parse_with_names("-38").0, Literal::Int(-38));
    assert_eq!(parse_with_names("0xff32a").0, Literal::Int(0xff32a));
    assert_eq!(parse_with_names("-0xadc20").0, Literal::Int(-0xadc20));
    assert_eq!(parse_with_names("0o12356").0, Literal::Int(0o12356));
    assert_eq!(parse_with_names("-0o230").0, Literal::Int(-0o230));
}

#[test]
fn int_set_literal() {
    assert_eq!(int_set("1..5"), RangeList::from(1..=5));
    assert_eq!(int_set("{1, 4, 6}"), RangeList::from_iter([1..=1, 4..=4, 6..=6]));
    assert_eq!(int_set("1..2 union 4..6"), RangeList::from_iter([1..=2, 4..=6]));
    assert_eq!(int_set("{1} union 4..5"), RangeList::from_iter([1..=1, 4..=5]));
}
