use snipx_core::{export_json, ExportDocument, ExportRequest, InputForm, JsonValue};

fn export(source: &str) -> ExportDocument {
    export_json(ExportRequest {
        lint: false,
        source: source.to_owned(),
        input_form: InputForm::Intralinea,
        target_text: None,
        profile: None,
        path: None,
        target_uri: None,
        ambient_subject: None,
    })
}

/// Slice the resolved span (Unicode scalar offsets) out of the visible text.
fn resolved_text(document: &ExportDocument, index: usize, visible: &str) -> String {
    let span = &document.resolutions[index].spans[0];
    visible
        .chars()
        .skip(span.start)
        .take(span.end - span.start)
        .collect()
}

fn local_subject(value: &JsonValue) -> Option<(&str, &str, &str, &str)> {
    match value {
        JsonValue::LocalSubject { marker, scope, region } => {
            Some(("localSubject", marker, scope, region))
        }
        JsonValue::TextSpanLocalSubject { marker, scope, region } => {
            Some(("textSpanLocalSubject", marker, scope, region))
        }
        _ => None,
    }
}

#[test]
fn sentence_before_marker_selects_the_preceding_sentence() {
    let value = export("Alice promised to return before dawn. {{< a Promise}} Bob waited.");
    let visible = "Alice promised to return before dawn.  Bob waited.";

    assert!(value.diagnostics.is_empty());
    assert_eq!(
        local_subject(&value.facts[0].subject),
        Some(("localSubject", "<", "sentence", "before"))
    );
    assert_eq!(
        resolved_text(&value, 0, visible),
        "Alice promised to return before dawn."
    );
}

#[test]
fn sentence_after_marker_selects_the_following_sentence_text() {
    let value = export("One. {{theme Endings >}} Two two. Three.");
    let visible = "One.  Two two. Three.";

    assert!(value.diagnostics.is_empty());
    assert_eq!(local_subject(&value.facts[0].subject).map(|s| s.3), Some("after"));
    assert_eq!(resolved_text(&value, 0, visible), "Two two.");
}

#[test]
fn whole_sentence_marker_mid_sentence_selects_the_current_sentence() {
    let value = export("Alice opened {{<> theme Doors}} the door. Bob waited.");
    let visible = "Alice opened  the door. Bob waited.";

    assert!(value.diagnostics.is_empty());
    assert_eq!(resolved_text(&value, 0, visible), "Alice opened  the door.");
}

#[test]
fn whole_paragraph_marker_selects_the_current_paragraph() {
    let value = export(
        "Para one line.\n\nSecond para {{<<>> theme Entrapment}} continues here.\n\nThird para.",
    );
    let visible = "Para one line.\n\nSecond para  continues here.\n\nThird para.";

    assert!(value.diagnostics.is_empty());
    assert_eq!(local_subject(&value.facts[0].subject).map(|s| s.2), Some("paragraph"));
    assert_eq!(
        resolved_text(&value, 0, visible),
        "Second para  continues here."
    );
}

#[test]
fn paragraph_before_and_after_markers_split_the_paragraph() {
    let before = export("First bit. {{<< theme Start}} Second bit.");
    let before_visible = "First bit.  Second bit.";
    assert!(before.diagnostics.is_empty());
    assert_eq!(resolved_text(&before, 0, before_visible), "First bit.");

    let after = export("First bit. {{theme End >>}} Second bit.");
    let after_visible = "First bit.  Second bit.";
    assert!(after.diagnostics.is_empty());
    assert_eq!(resolved_text(&after, 0, after_visible), "Second bit.");
}

#[test]
fn tilde_marker_is_a_text_span_subject() {
    let value = export("Alice waited. {{~<> highlight true. }}");

    assert!(value.diagnostics.is_empty());
    assert_eq!(
        local_subject(&value.facts[0].subject),
        Some(("textSpanLocalSubject", "~<>", "sentence", "whole"))
    );
    assert_eq!(value.resolutions[0].source, "~<>");
}

#[test]
fn local_subject_with_no_text_is_diagnosed() {
    let value = export("{{< a Promise}} Alice waited.");

    assert_eq!(value.diagnostics[0].code, "EMPTY_LOCAL_SUBJECT");
    assert!(matches!(
        value.facts[0].subject,
        JsonValue::UnresolvedLocalSubject { .. }
    ));
}

#[test]
fn local_subject_takes_precedence_over_ambient_subject() {
    let document = export_json(ExportRequest {
        lint: false,
        source: "Alice waited. {{< a Promise}}".to_owned(),
        input_form: InputForm::Intralinea,
        target_text: None,
        profile: None,
        path: None,
        target_uri: None,
        ambient_subject: Some(snipx_core::Value::WholeDocument),
    });

    assert_eq!(
        local_subject(&document.facts[0].subject).map(|s| s.0),
        Some("localSubject")
    );
}

#[test]
fn multiple_blocks_resolve_against_their_own_anchors() {
    let value = export("One one. {{< a First}} Two two. {{< a Second}}");
    let visible = "One one.  Two two. ";

    assert!(value.diagnostics.is_empty());
    assert_eq!(resolved_text(&value, 0, visible), "One one.");
    assert_eq!(resolved_text(&value, 1, visible), "Two two.");
}
