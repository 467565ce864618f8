use flatzinc_serde::fzn::annotations::{general_anns_x, raw_anns_x};
use flatzinc_serde::intermediate::{Annotation, AnnotationCall, AnnotationLiteral, Argument, Literal};
use flatzinc_serde::names::NameStore;
use flatzinc_serde::RangeList;

fn general_annotations(input: &str) -> (Vec<Annotation>, NameStore) {
    let mut names = NameStore::new();
    let (raw, end) = raw_anns_x(input.as_bytes(), 0, &mut names);
    assert_eq!(end, input.len(), "annotations of `{input}` not read to the end");
    (general_anns_x(raw), names)
}

fn name_id(names: &NameStore, expected: &str) -> usize {
    (0..names.len())
        .find(|&i| names.name_of(i) == expected)
        .unwrap_or_else(|| panic!("expected interned name `{expected}`"))
}

#[test]
fn annotation_call_with_array_argument() {
    let (actual, _) = general_annotations(":: some_annotation([other_annotation(5), 3.4])");
    assert_eq!(
        actual,
        vec![Annotation::Call(AnnotationCall {
            id: "some_annotation".to_owned(),
            args: vec![Argument::Array(vec![
                AnnotationLiteral::Annotation(AnnotationCall {
                    id: "other_annotation".to_owned(),
                    args: vec![Argument::Literal(AnnotationLiteral::Literal(Literal::Int(5)))],
                }),
                AnnotationLiteral::Literal(Literal::Float("3.4".to_owned())),
            ])],
        })],
    );
    let Annotation::Call(c) = &actual[0] else { panic!("expected a call") };
    let Argument::Array(v) = &c.args[0] else { panic!("expected an array") };
    let AnnotationLiteral::Literal(Literal::Float(t)) = &v[1] else { panic!("expected a float") };
    assert_eq!(t.parse::<f64>().unwrap(), 3.4);
}

#[test]
fn annotation_call_with_literal_argument() {
    let (actual, names) = general_annotations(":: some_annotation(other_annotation)");
    assert_eq!(
        actual,
        vec![Annotation::Call(AnnotationCall {
            id: "some_annotation".to_owned(),
            args: vec![Argument::Literal(AnnotationLiteral::Literal(Literal::Reference(
                name_id(&names, "other_annotation")
            )))],
        })],
    );

    let (actual, _) = general_annotations(":: some_annotation(1..5)");
    let Annotation::Call(c) = &actual[0] else { panic!("expected a call") };
    assert_eq!(c.id, "some_annotation");
    assert_eq!(c.args.len(), 1);
    let Argument::Literal(AnnotationLiteral::Literal(Literal::IntSet(r))) = &c.args[0] else {
        panic!("expected an integer set")
    };
    let r: RangeList<i64> = r.iter().map(|&(a, b)| a..=b).collect();
    assert_eq!(r, RangeList::from(1..=5));
}

#[test]
fn annotation_call_with_nested_annotation_call_argument() {
    let (actual, _) = general_annotations(":: some_annotation(other_annotation(5))");
    assert_eq!(
        actual,
        vec![Annotation::Call(AnnotationCall {
            id: "some_annotation".to_owned(),
            args: vec![Argument::Literal(AnnotationLiteral::Annotation(AnnotationCall {
                id: "other_annotation".to_owned(),
                args: vec![Argument::Literal(AnnotationLiteral::Literal(Literal::Int(5)))],
            }))],
        })],
    );

    let (actual, _) = general_annotations(":: some_annotation(another_annotation ())");
    assert_eq!(
        actual,
        vec![Annotation::Call(AnnotationCall {
            id: "some_annotation".to_owned(),
            args: vec![Argument::Literal(AnnotationLiteral::Annotation(AnnotationCall {
                id: "another_annotation".to_owned(),
                args: vec![],
            }))],
        })],
    );
}

#[test]
fn atom_annotation() {
    let (actual, _) = general_annotations(":: output_var");
    assert_eq!(actual, vec![Annotation::Atom("output_var".to_owned())]);
}
