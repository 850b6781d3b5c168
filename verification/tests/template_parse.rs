//! The template mini-language: directives split from literal text at
//! `$`, each running to its first `)`, with exact parse errors.

use transformer_scope::element::Element;
use transformer_scope::errors::ParseError;
use transformer_scope::neuron_template::NeuronTemplate;

#[test]
fn parses_heatmap_directive() {
    let el = Element::parse("heatmap(activation)").unwrap();
    assert!(matches!(el, Element::Heatmap(name) if name == "activation"));
}

#[test]
fn parses_value_directive_with_whitespace() {
    let el = Element::parse("  value(  variance  )  ").unwrap();
    assert!(matches!(el, Element::Value(name) if name == "variance"));
}

#[test]
fn parses_focus_sequences_directive() {
    let el = Element::parse("focus_sequences(acts, steps)").unwrap();
    match el {
        Element::FocusSequences { activations, step_names } => {
            assert_eq!(activations, "acts");
            assert_eq!(step_names, "steps");
        },
        _ => panic!("wrong element kind"),
    }
}

#[test]
fn empty_argument_parses_as_empty_name() {
    let el = Element::parse("value()").unwrap();
    assert!(matches!(el, Element::Value(name) if name.is_empty()));
}

#[test]
fn unknown_directive_is_reported() {
    let err = Element::parse("table(x)").unwrap_err();
    assert!(matches!(err, ParseError::UnknownElement(name) if name == "table"));
}

#[test]
fn missing_parenthesis_is_unterminated() {
    assert!(matches!(Element::parse("value x)"), Err(ParseError::Unterminated)));
}

#[test]
fn too_many_arguments_are_counted() {
    let err = Element::parse("heatmap(a, b)").unwrap_err();
    match err {
        ParseError::WrongArgumentCount { element_name, required, found } => {
            assert_eq!(element_name, "heatmap");
            assert_eq!(required, 1);
            assert_eq!(found, 2);
        },
        _ => panic!("wrong error kind"),
    }
}

#[test]
fn too_few_arguments_are_counted() {
    let err = Element::parse("focus_sequences(a)").unwrap_err();
    match err {
        ParseError::WrongArgumentCount { element_name, required, found } => {
            assert_eq!(element_name, "focus_sequences");
            assert_eq!(required, 2);
            assert_eq!(found, 1);
        },
        _ => panic!("wrong error kind"),
    }
}

#[test]
fn template_without_marker_is_all_prefix() {
    let t = NeuronTemplate::parse("<h1>plain page</h1>").unwrap();
    assert_eq!(t.prefix(), "<h1>plain page</h1>");
    assert_eq!(t.segment_count(), 0);
}

#[test]
fn template_splits_literals_around_directives() {
    let t = NeuronTemplate::parse("pre$value(x)mid$heatmap(h)post").unwrap();
    assert_eq!(t.prefix(), "pre");
    assert_eq!(t.segment_count(), 2);
    let (first, first_suffix) = t.segment_at(0);
    assert!(matches!(first, Element::Value(name) if name == "x"));
    assert_eq!(first_suffix, "mid");
    let (second, second_suffix) = t.segment_at(1);
    assert!(matches!(second, Element::Heatmap(name) if name == "h"));
    assert_eq!(second_suffix, "post");
}

#[test]
fn literal_may_contain_closing_parentheses() {
    let t = NeuronTemplate::parse("$value(x)a)b").unwrap();
    let (_, suffix) = t.segment_at(0);
    assert_eq!(suffix, "a)b");
}

#[test]
fn unterminated_directive_fails_template_parse() {
    assert!(matches!(NeuronTemplate::parse("pre$value(x"), Err(ParseError::Unterminated)));
}

#[test]
fn bad_directive_inside_template_is_reported() {
    let err = NeuronTemplate::parse("a$nope(x)b").unwrap_err();
    assert!(matches!(err, ParseError::UnknownElement(name) if name == "nope"));
}
