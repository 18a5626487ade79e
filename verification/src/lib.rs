//! SnipX: a text annotation language. This crate parses SnipX sources
//! losslessly, expands statements into facts, resolves snippets against a
//! target's visible text, lints fragile anchors, formats sources and
//! exports the canonical JSON document model.
pub mod ast;
pub mod cli;
pub mod diagnostic;
pub mod directives;
pub mod expand;
pub mod format;
pub mod fragility;
pub mod input;
pub mod json;
pub mod matching;
pub mod number;
pub mod parser;
pub mod resolve;
pub mod scan;
pub mod snippet;
pub mod syntax;
pub mod text;
pub mod tree;
pub mod visible_text;

pub use diagnostic::{Diagnostic, DiagnosticCode, RelatedSpan, Severity, SourceSpan};
pub use expand::{
    expand, ExpandOptions, ExpandResult, ExpandedStatement, LocalRegion, LocalScope, LocalSubject,
    Value,
};
pub use format::{FormatOptions, FormatResult};
pub use input::{InputForm, ParseOptions, ParseResult};
pub use json::{
    export_json, ExportDocument, ExportRequest, JsonDiagnostic, JsonFact, JsonFactSource,
    JsonImplementation, JsonInput, JsonRelatedSpan, JsonResolution, JsonSpan, JsonTarget,
    JsonValue, JsonVisibleText, SPEC_VERSION,
};
pub use matching::{match_snippet, TextSpan};
pub use parser::{parse, Parse};
pub use resolve::{resolve, IntralineaAnchor, ResolveOptions, ResolveResult, SnippetResolution};
pub use snippet::{Cardinality, SnippetPart, SnippetValue};
pub use syntax::{SnipxLanguage, SyntaxKind};
pub use tree::{Element, SyntaxNode};
pub use visible_text::{extract_visible_text, Profile, VisibleText};
