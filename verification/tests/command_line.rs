use snipx_core::cli::{exit_status, parse_ambient, select_input_form, AmbientError};
use snipx_core::{export_json, ExportRequest, InputForm, Value};

fn export(source: &str, input_form: InputForm, target: Option<&str>, lint: bool) -> snipx_core::ExportDocument {
    export_json(ExportRequest {
        source: source.to_owned(),
        input_form,
        target_text: target.map(str::to_owned),
        profile: None,
        path: None,
        target_uri: None,
        ambient_subject: None,
        lint,
    })
}

#[test]
fn input_form_defaults_to_commentaria() {
    assert_eq!(select_input_form(&[]), Some(InputForm::Commentaria));
}

#[test]
fn agreeing_input_form_selectors_are_allowed() {
    assert_eq!(
        select_input_form(&[InputForm::Marginalia, InputForm::Marginalia]),
        Some(InputForm::Marginalia)
    );
    assert_eq!(
        select_input_form(&[InputForm::Intralinea]),
        Some(InputForm::Intralinea)
    );
}

#[test]
fn conflicting_input_form_selectors_are_refused() {
    assert_eq!(
        select_input_form(&[InputForm::Commentaria, InputForm::Marginalia]),
        None
    );
    assert_eq!(
        select_input_form(&[InputForm::Intralinea, InputForm::Intralinea, InputForm::Commentaria]),
        None
    );
}

#[test]
fn ambient_empty_brackets_are_the_whole_document() {
    assert!(matches!(parse_ambient("[]"), Ok(Value::WholeDocument)));
}

#[test]
fn ambient_empty_expression_is_refused() {
    assert_eq!(parse_ambient("").err(), Some(AmbientError::Empty));
}

#[test]
fn ambient_values_must_consume_one_complete_expression() {
    for expression in ["[Alice]junk", "\"unterminated", "Alice Bob"] {
        assert_eq!(
            parse_ambient(expression).err(),
            Some(AmbientError::Invalid),
            "{expression:?}"
        );
    }
}

#[test]
fn ambient_values_use_the_core_expression_grammar() {
    assert!(matches!(parse_ambient("Alice"), Ok(Value::Name(name)) if name == "Alice"));
    assert!(matches!(parse_ambient("[Alice]"), Ok(Value::Snippet(s)) if s.source == "[Alice]"));
    assert!(
        matches!(parse_ambient("~[Alice]"), Ok(Value::TextSpanSnippet(s)) if s.source == "[Alice]")
    );
    assert!(matches!(parse_ambient("<chapter.txt>"), Ok(Value::Uri(uri)) if uri == "chapter.txt"));
    assert!(matches!(parse_ambient("\"note\""), Ok(Value::String(text)) if text == "note"));
    assert!(matches!(parse_ambient("true"), Ok(Value::Boolean(true))));
    assert!(matches!(parse_ambient("-1"), Ok(Value::Number(text)) if text == "-1"));
}

#[test]
fn exit_status_is_zero_for_a_clean_document() {
    let document = export("Alice a Character.\n", InputForm::Commentaria, None, false);
    assert_eq!(exit_status(&document, false), 0);
    assert_eq!(exit_status(&document, true), 0);
}

#[test]
fn exit_status_is_one_for_errors() {
    let document = export(
        "[Alice] a Character.\n",
        InputForm::Commentaria,
        Some("Bob waited."),
        false,
    );
    assert!(document.has_errors());
    assert_eq!(exit_status(&document, false), 1);
}

#[test]
fn warnings_fail_only_when_strict() {
    let document = export("[Bob] a Character.\n", InputForm::Commentaria, Some("Bob waited."), true);
    assert!(document.has_warnings());
    assert!(!document.has_errors());
    assert_eq!(exit_status(&document, false), 0);
    assert_eq!(exit_status(&document, true), 1);
}

#[test]
fn unsupported_profile_directive_exits_with_code_four() {
    let document = export(
        "@profile rtf-loose\n\nAlice a Character.\n",
        InputForm::Commentaria,
        None,
        false,
    );
    assert!(document.has_unsupported_features());
    assert_eq!(exit_status(&document, false), 4);
}
