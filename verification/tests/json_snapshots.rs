use snipx_core::{
    export_json, ExportDocument, ExportRequest, InputForm, JsonDiagnostic, JsonSpan, JsonValue,
    Profile, Value,
};

fn span(start: usize, end: usize) -> JsonSpan {
    JsonSpan { start, end }
}

fn request(source: &str, input_form: InputForm) -> ExportRequest {
    ExportRequest {
        lint: false,
        source: source.to_owned(),
        input_form,
        target_text: None,
        profile: Some(Profile::Plain),
        path: None,
        target_uri: None,
        ambient_subject: None,
    }
}

fn codes(document: &ExportDocument) -> Vec<String> {
    document
        .diagnostics
        .iter()
        .map(|diagnostic| diagnostic.code.clone())
        .collect()
}

fn is_name(value: &JsonValue, expected: &str) -> bool {
    matches!(value, JsonValue::Name { value } if value == expected)
}

fn is_predicate(value: &JsonValue, expected: &str) -> bool {
    matches!(value, JsonValue::Predicate { value } if value == expected)
}

#[test]
fn unresolved_snippets_remain_in_partial_facts() {
    let document = export_json(ExportRequest {
        lint: false,
        source: "[Alice] a Character.\n".to_owned(),
        input_form: InputForm::Commentaria,
        target_text: Some("Bob waited.".to_owned()),
        profile: Some(Profile::Plain),
        path: Some("notes.snipx".to_owned()),
        target_uri: Some("chapter.txt".to_owned()),
        ambient_subject: None,
    });

    assert_eq!(document.snipx_version, "0.1");
    assert_eq!(document.implementation.name, "snipx");
    assert_eq!(document.implementation.version, "0.1.1");
    assert_eq!(document.input.form, "commentaria");
    assert_eq!(document.input.path.as_deref(), Some("notes.snipx"));
    let target = document.target.as_ref().expect("target");
    assert_eq!(target.uri.as_deref(), Some("chapter.txt"));
    assert_eq!(target.profile, "plain");
    let visible = document.visible_text.as_ref().expect("visible text");
    assert_eq!(visible.normalisation, "NFC");
    assert_eq!(visible.length, 11);

    assert_eq!(document.facts.len(), 1);
    let fact = &document.facts[0];
    assert!(matches!(&fact.subject, JsonValue::UnresolvedSnippet { source } if source == "[Alice]"));
    assert!(is_predicate(&fact.predicate, "a"));
    assert!(is_name(&fact.object, "Character"));
    assert_eq!(fact.source.statement, span(0, 20));
    assert_eq!(fact.source.subject, Some(span(0, 7)));
    assert_eq!(fact.source.predicate, Some(span(8, 9)));
    assert_eq!(fact.source.object, Some(span(10, 19)));
    assert!(document.resolutions.is_empty());

    assert_eq!(document.diagnostics.len(), 1);
    let JsonDiagnostic {
        code,
        severity,
        message,
        span: diagnostic_span,
        related,
    } = &document.diagnostics[0];
    assert_eq!(code, "SNIPPET_NOT_FOUND");
    assert_eq!(severity, "error");
    assert_eq!(message, "Snippet did not match: [Alice]");
    assert_eq!(*diagnostic_span, Some(span(0, 7)));
    assert!(related.is_empty());
}

#[test]
fn resolved_export_includes_visible_text_facts_and_resolutions() {
    let document = export_json(ExportRequest {
        lint: false,
        source: "[Alice] friend Bob.\n".to_owned(),
        input_form: InputForm::Commentaria,
        target_text: Some("Alice waited.".to_owned()),
        profile: Some(Profile::Plain),
        path: None,
        target_uri: Some("chapter.txt".to_owned()),
        ambient_subject: None,
    });

    let visible = document.visible_text.as_ref().expect("visible text");
    assert_eq!(visible.normalisation, "NFC");
    assert_eq!(visible.length, 13);
    let resolution = &document.resolutions[0];
    assert_eq!(resolution.source, "[Alice]");
    assert_eq!(resolution.source_span, Some(span(0, 7)));
    assert_eq!(resolution.spans, vec![span(0, 5)]);
    assert_eq!(document.facts[0].source.subject, Some(span(0, 7)));
    assert_eq!(document.facts[0].source.statement, span(0, 19));
    assert_eq!(document.facts[0].source.predicate, Some(span(8, 14)));
    assert!(document.diagnostics.is_empty());
}

#[test]
fn export_uses_ambient_subject_and_preserves_parser_diagnostics() {
    let mut request = request("/// a Character.\n", InputForm::Marginalia);
    request.ambient_subject = Some(Value::WholeDocument);
    let document = export_json(request);

    assert!(matches!(document.facts[0].subject, JsonValue::WholeDocument));
    assert!(document.diagnostics.is_empty());
}

#[test]
fn targetless_export_still_reports_the_effective_profile() {
    let mut request = request("Alice a Character.\n", InputForm::Commentaria);
    request.profile = Some(Profile::PlainLoose);
    let document = export_json(request);

    let target = document.target.as_ref().expect("target");
    assert_eq!(target.profile, "plain-loose");
    assert_eq!(target.uri, None);
}

#[test]
fn programmatic_non_finite_numbers_are_diagnostic_partial_values() {
    let mut request = request("/// a Character.\n", InputForm::Marginalia);
    request.ambient_subject = Some(Value::Number(f64::NAN.to_string()));
    let document = export_json(request);

    assert!(matches!(&document.facts[0].subject, JsonValue::UnresolvedNumber { source } if source == "NaN"));
    assert_eq!(document.diagnostics[0].code, "INVALID_NUMBER");
}

#[test]
fn intralinea_uses_host_text_as_its_implicit_target() {
    let mut request = request("Alice waited. {{[Alice] a Character.}}", InputForm::Intralinea);
    request.path = Some("chapter.txt".to_owned());
    let document = export_json(request);

    let visible = document.visible_text.as_ref().expect("visible text");
    assert_eq!(visible.normalisation, "NFC");
    assert_eq!(visible.length, 14);
    let resolution = &document.resolutions[0];
    assert_eq!(resolution.source, "[Alice]");
    assert_eq!(resolution.source_span, Some(span(16, 23)));
    assert_eq!(resolution.spans, vec![span(0, 5)]);
    assert!(document.diagnostics.is_empty());
}

#[test]
fn overflowing_source_number_preserves_its_lexeme_and_span() {
    let literal = "9".repeat(400);
    let document = export_json(request(
        &format!("Alice score {literal}.\n"),
        InputForm::Commentaria,
    ));

    assert!(matches!(&document.facts[0].object, JsonValue::UnresolvedNumber { source } if *source == literal));
    assert_eq!(document.diagnostics[0].code, "INVALID_NUMBER");
    assert_eq!(document.diagnostics[0].span, Some(span(12, 412)));
}

#[test]
fn export_honours_profile_directive_when_no_profile_is_requested() {
    let mut request = request(
        "@profile plain-loose\n\n[Alice b] a Character.\n",
        InputForm::Commentaria,
    );
    request.target_text = Some("Alice   b waited.".to_owned());
    request.profile = None;
    let document = export_json(request);

    assert_eq!(document.target.as_ref().expect("target").profile, "plain-loose");
    assert!(document.diagnostics.is_empty());
    assert_eq!(document.resolutions[0].spans, vec![span(0, 9)]);
}

#[test]
fn requested_profile_overrides_profile_directive() {
    let mut request = request(
        "@profile plain-loose\n\n[Alice b] a Character.\n",
        InputForm::Commentaria,
    );
    request.target_text = Some("Alice   b waited.".to_owned());
    let document = export_json(request);

    assert_eq!(document.target.as_ref().expect("target").profile, "plain");
    assert_eq!(document.diagnostics[0].code, "SNIPPET_NOT_FOUND");
}

#[test]
fn unsupported_profile_directive_is_diagnosed_and_falls_back_to_plain() {
    let mut request = request("@profile rtf-loose\n\nAlice a Character.\n", InputForm::Commentaria);
    request.profile = None;
    let document = export_json(request);

    assert_eq!(document.target.as_ref().expect("target").profile, "plain");
    assert_eq!(document.diagnostics[0].code, "UNSUPPORTED_PROFILE");
    assert_eq!(document.diagnostics[0].severity, "error");
    assert!(document.diagnostics[0].span.is_some());
    assert!(document.has_unsupported_features());
}

#[test]
fn target_directive_supplies_the_effective_target_uri() {
    let mut request = request("@target <chapter.txt>\n\nAlice a Character.\n", InputForm::Commentaria);
    request.profile = None;
    let document = export_json(request);

    assert_eq!(
        document.target.as_ref().expect("target").uri.as_deref(),
        Some("chapter.txt")
    );
}

#[test]
fn duplicate_directives_warn_and_first_occurrence_wins() {
    let mut request = request(
        "@profile plain\n@profile plain-loose\n\nAlice a Character.\n",
        InputForm::Commentaria,
    );
    request.profile = None;
    let document = export_json(request);

    assert_eq!(document.target.as_ref().expect("target").profile, "plain");
    assert_eq!(document.diagnostics[0].code, "DUPLICATE_DIRECTIVE");
    assert_eq!(document.diagnostics[0].severity, "warning");
}

#[test]
fn directives_outside_commentaria_do_not_select_the_profile() {
    let mut request = request(
        "```\n@profile plain-loose\nAlice a Character.\n```\n",
        InputForm::Marginalia,
    );
    request.profile = None;
    let document = export_json(request);

    assert_eq!(document.target.as_ref().expect("target").profile, "plain");
}

#[test]
fn markdown_export_includes_non_fatal_extraction_warnings() {
    let mut request = request("[Alice] a Character.\n", InputForm::Commentaria);
    request.target_text = Some("Alice <span>waited</span>.\n".to_owned());
    request.profile = Some(Profile::Markdown);
    request.target_uri = Some("chapter.md".to_owned());
    let document = export_json(request);

    assert_eq!(document.target.as_ref().expect("target").profile, "markdown");
    assert_eq!(document.resolutions[0].spans[0], span(0, 5));
    assert!(document.diagnostics.iter().any(|diagnostic| {
        diagnostic.code == "RAW_HTML_OMITTED"
            && diagnostic.severity == "warning"
            && diagnostic.span.is_some()
    }));
}

#[test]
fn quantified_text_span_facts_distribute_per_span() {
    let mut request = request("~[Alice]+ highlight true.\n", InputForm::Commentaria);
    request.target_text = Some("Alice met Alice.".to_owned());
    let document = export_json(request);

    assert_eq!(document.snipx_version, "0.1");
    assert_eq!(document.input.form, "commentaria");
    assert_eq!(document.input.path, None);
    let target = document.target.as_ref().expect("target");
    assert_eq!(target.profile, "plain");
    assert_eq!(target.uri, None);
    assert_eq!(document.visible_text.as_ref().expect("visible text").length, 16);
    assert_eq!(document.facts.len(), 2);
    for (fact, expected) in document.facts.iter().zip([span(0, 5), span(10, 15)]) {
        assert!(matches!(
            &fact.subject,
            JsonValue::TextSpanSnippet { source, span: Some(found) }
                if source == "[Alice]+" && *found == expected
        ));
        assert!(is_predicate(&fact.predicate, "highlight"));
        assert!(matches!(fact.object, JsonValue::Boolean { value: true }));
        assert_eq!(fact.source.statement, span(0, 25));
        assert_eq!(fact.source.subject, Some(span(0, 9)));
        assert_eq!(fact.source.predicate, Some(span(10, 19)));
        assert_eq!(fact.source.object, Some(span(20, 24)));
    }
    assert_eq!(document.resolutions.len(), 1);
    assert_eq!(document.resolutions[0].source, "[Alice]+");
    assert_eq!(document.resolutions[0].source_span, Some(span(0, 9)));
    assert_eq!(document.resolutions[0].spans, vec![span(0, 5), span(10, 15)]);
    assert!(document.diagnostics.is_empty());
    assert!(codes(&document).is_empty());
}

#[test]
fn export_keeps_parse_errors_first_without_a_target() {
    let document = export_json(request("Alice friend Bob\n", InputForm::Commentaria));

    assert!(!document.diagnostics.is_empty());
    assert_eq!(document.diagnostics[0].code, "PARSE_ERROR");
    assert_eq!(document.diagnostics[0].severity, "error");
    assert_eq!(document.facts.len(), 1);
}
