use snipx_core::{SnipxLanguage, SyntaxKind};

#[test]
fn every_kind_round_trips_through_raw() {
    for (index, &kind) in SyntaxKind::all().iter().enumerate() {
        let raw = SnipxLanguage::kind_to_raw(kind);
        assert_eq!(
            usize::from(raw),
            index,
            "raw value of {kind:?} must equal its declaration index"
        );
        assert_eq!(
            SnipxLanguage::kind_from_raw(raw),
            kind,
            "{kind:?} must survive a raw round-trip"
        );
    }
}

#[test]
fn out_of_range_raw_maps_to_error() {
    let raw = SyntaxKind::all().len() as u16;
    assert_eq!(SnipxLanguage::kind_from_raw(raw), SyntaxKind::Error);
    assert_eq!(SnipxLanguage::kind_from_raw(u16::MAX), SyntaxKind::Error);
}

#[test]
fn kinds_are_listed_once_each_in_declaration_order() {
    let all = SyntaxKind::all();
    assert_eq!(all.first(), Some(&SyntaxKind::Root));
    assert_eq!(all.last(), Some(&SyntaxKind::Dot));
    for (i, a) in all.iter().enumerate() {
        for b in &all[i + 1..] {
            assert_ne!(a, b);
        }
    }
}

#[test]
fn debug_names_are_upper_snake_case() {
    assert_eq!(SyntaxKind::Identifier.debug_name(), "IDENT");
    assert_eq!(SyntaxKind::QuotedSnippetPart.debug_name(), "QUOTED_SNIPPET_PART");
    assert_eq!(SyntaxKind::SlashSlashSlash.debug_name(), "SLASH_SLASH_SLASH");
}
