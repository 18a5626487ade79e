use snipx_core::ast::{AstNode, Directive};
use snipx_core::format::FormatOptions;
use snipx_core::fragility::decimal;
use snipx_core::number::classify_number;
use snipx_core::scan::{find_intralinea_close, snippet_contains_range};
use snipx_core::visible_text::{markdown_items, MdEvent};
use snipx_core::{
    expand, export_json, extract_visible_text, parse, resolve, DiagnosticCode, ExpandOptions,
    ExportRequest, InputForm, ParseOptions, Profile, ResolveOptions, Severity, TextSpan, Value,
};

const OVERFLOW_THRESHOLD: &str = "179769313486231580793728971405303415079934132710037826936173778980444968292764750946649017977587207096330286416692887910946555547851940402630657488671505820681908902000708383676273854845817711531764475730270069855571366959622842914819860834936475292719074168444365510704342711559699508093042880177904174497792";

fn chars(text: &str) -> Vec<char> {
    text.chars().collect()
}

fn commentaria(source: &str) -> snipx_core::Parse {
    parse(
        source,
        ParseOptions {
            input_form: InputForm::Commentaria,
        },
    )
}

fn request(source: &str, target: Option<&str>, lint: bool) -> ExportRequest {
    ExportRequest {
        source: source.to_owned(),
        input_form: InputForm::Commentaria,
        target_text: target.map(str::to_owned),
        profile: None,
        path: None,
        target_uri: None,
        ambient_subject: None,
        lint,
    }
}

#[test]
fn decimal_writes_base_ten_digits() {
    assert_eq!(decimal(0), "0");
    assert_eq!(decimal(7), "7");
    assert_eq!(decimal(10), "10");
    assert_eq!(decimal(1234567890), "1234567890");
}

#[test]
fn number_literals_are_finite_below_the_rounding_threshold() {
    let threshold = OVERFLOW_THRESHOLD.to_owned();
    let mut below = threshold.clone();
    below.replace_range(below.len() - 1.., "1");

    assert_eq!(classify_number(&chars("42")), Some(true));
    assert_eq!(classify_number(&chars("-0.25")), Some(true));
    assert_eq!(classify_number(&chars(&below)), Some(true));
    assert_eq!(classify_number(&chars(&format!("{below}.999"))), Some(true));
    assert_eq!(classify_number(&chars(&threshold)), Some(false));
    assert_eq!(classify_number(&chars(&format!("-{threshold}.5"))), Some(false));

    assert!(below.parse::<f64>().unwrap().is_finite());
    assert!(threshold.parse::<f64>().unwrap().is_infinite());
}

#[test]
fn malformed_number_literals_are_not_numbers() {
    for text in ["", "-", "1.", ".5", "1.2.3", "1e5", "--1", "12a"] {
        assert_eq!(classify_number(&chars(text)), None, "{text:?}");
    }
}

#[test]
fn intralinea_close_points_at_the_closing_braces() {
    let src = chars("a \"}}\" b }} c");
    let close = find_intralinea_close(&src, 0).expect("closed");
    assert_eq!(close, 9);
    assert_eq!(&src[close..close + 2], &['}', '}']);

    assert_eq!(find_intralinea_close(&chars("never closed"), 0), None);
}

#[test]
fn intralinea_close_skips_capture_braces_and_comments() {
    assert_eq!(find_intralinea_close(&chars("a {b}}} c"), 0), Some(5));
    assert_eq!(find_intralinea_close(&chars("// }} \n x }}"), 0), Some(10));
    assert_eq!(find_intralinea_close(&chars("[a}} b"), 0), Some(2));
    assert_eq!(find_intralinea_close(&chars("/* }} */ }}"), 0), Some(9));
}

#[test]
fn range_snippets_need_a_bare_top_level_separator() {
    let check = |text: &str| {
        let src = chars(text);
        snippet_contains_range(&src, 0, src.len(), false)
    };
    assert!(check("[a..b]"));
    assert!(!check("[\"a..b\"]"));
    assert!(!check("[a]..b"));
    assert!(!check("[{a..b}]"));
    assert!(!check("[a\n..b]"));
    let src = chars("[a}}..b]");
    assert!(!snippet_contains_range(&src, 0, src.len(), true));
    assert!(snippet_contains_range(&src, 0, src.len(), false));
}

#[test]
fn text_span_subject_and_object_distribute_as_a_product() {
    let parsed = commentaria("~[Alice]+ meets ~[Bob]+.\n");
    let expanded = expand(&parsed, ExpandOptions::default());
    let visible = extract_visible_text("Alice Bob Alice Bob", Profile::Plain).unwrap();
    let resolved = resolve(&expanded, &visible, ResolveOptions::default());

    assert_eq!(resolved.statements.len(), 4);
    let pairs: Vec<(TextSpan, TextSpan)> = resolved
        .statements
        .iter()
        .map(|statement| match (&statement.subject, &statement.object) {
            (
                Value::ResolvedTextSpan { span: subject, .. },
                Value::ResolvedTextSpan { span: object, .. },
            ) => (*subject, *object),
            other => panic!("unexpected values {other:?}"),
        })
        .collect();
    let alice = [TextSpan { start: 0, end: 5 }, TextSpan { start: 10, end: 15 }];
    let bob = [TextSpan { start: 6, end: 9 }, TextSpan { start: 16, end: 19 }];
    assert_eq!(
        pairs,
        vec![
            (alice[0], bob[0]),
            (alice[0], bob[1]),
            (alice[1], bob[0]),
            (alice[1], bob[1]),
        ]
    );
    assert!(resolved.diagnostics.is_empty());
}

#[test]
fn unresolved_snippets_still_yield_one_fact() {
    let parsed = commentaria("~[Carol]+ meets [Bob].\n");
    let expanded = expand(&parsed, ExpandOptions::default());
    let visible = extract_visible_text("Alice Bob", Profile::Plain).unwrap();
    let resolved = resolve(&expanded, &visible, ResolveOptions::default());

    assert_eq!(resolved.statements.len(), 1);
    assert!(matches!(&resolved.statements[0].subject, Value::Unresolved(source) if source == "[Carol]+"));
    assert!(matches!(resolved.statements[0].object, Value::Snippet(_)));
    assert_eq!(resolved.diagnostics.len(), 1);
    assert_eq!(resolved.diagnostics[0].code, DiagnosticCode::SnippetNotFound);
    assert_eq!(resolved.resolutions.len(), 1);
    assert_eq!(resolved.resolutions[0].source, "[Bob]");
}

#[test]
fn formatting_source_with_parse_errors_returns_it_unchanged() {
    let source = "[Alice   a Character.\n";
    let formatted = snipx_core::format::format(
        source,
        FormatOptions {
            input_form: InputForm::Commentaria,
        },
    );

    assert_eq!(formatted.output, source);
    assert_eq!(
        formatted.diagnostics,
        commentaria(source).diagnostics().to_vec()
    );
}

#[test]
fn expansion_keeps_parse_diagnostics_first() {
    let parsed = commentaria("[Alice a Character.\nAlice friend Bob ::note.\n");
    let expanded = expand(&parsed, ExpandOptions::default());

    let parse_codes: Vec<_> = parsed.diagnostics().iter().map(|d| d.code).collect();
    assert!(!parse_codes.is_empty());
    let expanded_codes: Vec<_> = expanded.diagnostics.iter().map(|d| d.code).collect();
    assert_eq!(&expanded_codes[..parse_codes.len()], &parse_codes[..]);
    assert!(expanded_codes[parse_codes.len()..].contains(&DiagnosticCode::InvalidDecorationTarget));
}

#[test]
fn decoration_without_a_string_is_an_invalid_target() {
    let parsed = commentaria("Alice friend Bob ::note.\n");
    let expanded = expand(&parsed, ExpandOptions::default());

    assert!(expanded
        .diagnostics
        .iter()
        .any(|d| d.code == DiagnosticCode::InvalidDecorationTarget && d.severity == Severity::Error));
}

#[test]
fn lint_only_adds_warnings_and_never_changes_results() {
    let source = "[Bob] a Character.\n";
    let target = "Bob met Alice.";
    let plain = export_json(request(source, Some(target), false));
    let linted = export_json(request(source, Some(target), true));

    assert_eq!(format!("{:?}", plain.facts), format!("{:?}", linted.facts));
    assert_eq!(
        format!("{:?}", plain.resolutions),
        format!("{:?}", linted.resolutions)
    );
    assert_eq!(
        format!("{:?}", &linted.diagnostics[..plain.diagnostics.len()]),
        format!("{:?}", &plain.diagnostics[..])
    );
    let extra = &linted.diagnostics[plain.diagnostics.len()..];
    assert!(!extra.is_empty());
    for diagnostic in extra {
        assert!(diagnostic.code.starts_with("FRAGILE_"));
        assert_eq!(diagnostic.severity, "warning");
    }
}

#[test]
fn every_exported_diagnostic_is_an_error_or_a_warning() {
    let document = export_json(request(
        "@profile fancy\n[Alice a Character.\n~[Nobody] a Ghost.\n",
        Some("Alice"),
        true,
    ));

    assert!(!document.diagnostics.is_empty());
    for diagnostic in &document.diagnostics {
        assert!(diagnostic.severity == "error" || diagnostic.severity == "warning");
    }
    assert!(document
        .diagnostics
        .iter()
        .any(|d| d.code == "UNSUPPORTED_PROFILE"));
}

#[test]
fn without_target_text_nothing_is_resolved() {
    let document = export_json(request("[Alice] a Character.\n", None, false));

    assert!(document.visible_text.is_none());
    assert!(document.resolutions.is_empty());
    assert_eq!(document.facts.len(), 1);
}

#[test]
fn profile_names_round_trip() {
    for name in ["plain", "plain-loose", "markdown", "markdown-loose"] {
        let profile = Profile::from_name(name).expect("known profile");
        assert_eq!(snipx_core::json::profile_name(profile), name);
    }
    assert_eq!(Profile::from_name("html"), None);
    assert!(Profile::PlainLoose.is_loose());
    assert!(!Profile::Markdown.is_loose());
}

#[test]
fn nfc_composes_decomposed_text_in_markdown_too() {
    let visible = extract_visible_text("*Cafe\u{301}*\n", Profile::Markdown).unwrap();
    assert_eq!(visible.text, "Caf\u{e9}\n");
    assert_eq!(visible.normalisation, "NFC");
}

#[test]
fn header_directives_keep_the_first_of_each_and_flag_the_rest() {
    let source = "@profile loose\n@target <doc.txt>\n@profile plain\n@target <other.txt>\nAlice a Character.\n@profile late\n";
    let parsed = commentaria(source);
    let header = snipx_core::ast::Root {
        syntax: parsed.syntax(),
    }
    .header_directives();

    let profile = header.profile.expect("profile");
    assert_eq!(profile.value, "loose");
    assert_eq!((profile.span.start, profile.span.end), (0, 14));
    let target = header.target.expect("target");
    assert_eq!(target.value, "doc.txt");
    assert_eq!((target.span.start, target.span.end), (15, 32));
    let duplicates: Vec<_> = header
        .diagnostics
        .iter()
        .map(|d| (d.code, d.span.as_ref().map(|s| (s.start, s.end))))
        .collect();
    assert_eq!(
        duplicates,
        vec![
            (DiagnosticCode::DuplicateDirective, Some((33, 47))),
            (DiagnosticCode::DuplicateDirective, Some((48, 67))),
        ]
    );
}

#[test]
fn directive_name_is_its_first_identifier() {
    let parsed = commentaria("@profile loose\n@custom value\n");
    let names: Vec<_> = parsed
        .syntax()
        .children_of(&[
            snipx_core::SyntaxKind::ProfileDirective,
            snipx_core::SyntaxKind::Directive,
        ])
        .into_iter()
        .filter_map(Directive::cast)
        .map(|directive| directive.name())
        .collect();
    assert_eq!(names, vec![Some("profile".to_owned()), Some("custom".to_owned())]);
    assert!(<Directive as AstNode>::can_cast(snipx_core::SyntaxKind::TargetDirective));
    assert!(!<Directive as AstNode>::can_cast(snipx_core::SyntaxKind::Statement));
}

#[test]
fn formatting_a_tree_rewrites_only_snipx_containers() {
    let source = "Prose   stays   as   it is.\n\n///   [Alice]   a   Character.\n\nMore   prose.\n";
    let parsed = parse(
        source,
        ParseOptions {
            input_form: InputForm::Marginalia,
        },
    );
    let output: String = snipx_core::format::format_tree(&parsed, InputForm::Marginalia)
        .into_iter()
        .collect();
    assert_eq!(
        output,
        "Prose   stays   as   it is.\n\n///   [Alice] a Character.\n\nMore   prose.\n"
    );
}

#[test]
fn intralinea_host_text_drops_blocks_and_anchors_them() {
    let source = "Before {{Alice a Character.}} After";
    let parsed = parse(
        source,
        ParseOptions {
            input_form: InputForm::Intralinea,
        },
    );
    let (text, anchors) = snipx_core::json::intralinea_visible_source(&parsed);
    assert_eq!(text, "Before  After");
    assert_eq!(anchors.len(), 1);
    assert_eq!(anchors[0].visible_offset, 7);
    assert_eq!(
        (anchors[0].block_span.start, anchors[0].block_span.end),
        (7, 29)
    );
}

#[test]
fn markdown_items_carry_source_ranges_in_order() {
    let items = markdown_items("# Title\n\ntext");
    assert_eq!(items.len(), 6);
    assert_eq!(items[0].start, 0);
    assert_eq!(items[4].event, MdEvent::Text("text".to_string()));
    assert_eq!((items[4].start, items[4].end), (9, 13));
}

#[test]
fn unclosed_marginalia_fence_warns_to_the_end_of_the_source() {
    let src = "```\n[Alice] a Character.\n";
    let parsed = parse(
        src,
        ParseOptions {
            input_form: InputForm::Marginalia,
        },
    );
    assert_eq!(parsed.diagnostics().len(), 1);
    let d = &parsed.diagnostics()[0];
    assert_eq!(d.code, DiagnosticCode::ParseError);
    assert_eq!(d.severity, Severity::Warning);
    assert_eq!(d.span, Some(snipx_core::SourceSpan { start: 0, end: 25 }));
}
