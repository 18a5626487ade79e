//! The command line's decisions that do not touch the outside world:
//! which input form the selectors ask for, what an ambient subject
//! expression denotes, and the exit status a document earns.
use vstd::prelude::*;
use crate::expand::{
    errors_view, expand, expansion_errors, expansion_facts, facts_view, ExpandOptions, ExpandResult, Value,
    ValueView,
};
use crate::input::{InputForm, ParseOptions};
use crate::json::ExportDocument;
use crate::parser::{parse, parsed_from, Parse};
use crate::syntax::SyntaxKind;
use crate::text::{byte_offsets, chars_of, same_str, utf8_len};
use crate::tree::{selection, tokens_text};

verus! {

/// The input form that the selectors ask for: commentaria when none is
/// given, the selected form when all agree, nothing when they conflict.
pub open spec fn selected_form(selected: Seq<InputForm>) -> Option<InputForm> {
    if selected.len() == 0 {
        Some(InputForm::Commentaria)
    } else if forall|k: int| 0 <= k < selected.len() ==> #[trigger] selected[k] == selected[0] {
        Some(selected[0])
    } else {
        None
    }
}

/// Chooses the input form from the selectors given on the command line,
/// in any number and order; `None` when they disagree.
pub fn select_input_form(selected: &[InputForm]) -> (r: Option<InputForm>)
    ensures
        r == selected_form(selected@),
{
    if selected.len() == 0 {
        return Some(InputForm::Commentaria);
    }
    let first = selected[0];
    let mut k: usize = 1;
    while k < selected.len()
        invariant
            1 <= k <= selected@.len(),
            first == selected@[0],
            forall|t: int| 0 <= t < k ==> #[trigger] selected@[t] == first,
        decreases selected@.len() - k,
    {
        if selected[k] != first {
            return None;
        }
        k = k + 1;
    }
    Some(first)
}

/// Why an ambient subject expression was refused.
#[derive(Debug, Clone, Copy, PartialEq, Eq, Structural)]
pub enum AmbientError {
    /// The expression is empty.
    Empty,
    /// The expression is not one complete SnipX subject.
    Invalid,
}

/// An expansion gives an ambient subject when it holds exactly one fact,
/// no diagnostic, and a subject spanning the whole expression.
pub open spec fn gives_ambient(parse_clean: bool, expanded: ExpandResult, expression_len: int) -> bool {
    &&& parse_clean
    &&& expanded.diagnostics@.len() == 0
    &&& expanded.statements@.len() == 1
    &&& expanded.statements@[0].subject_span matches Some(span) && span.start == 0 && span.end
        == expression_len
}

/// The ambient subject that the expansion of `{expression} ambient
/// Ambient.` yields, where `parse_clean` says whether parsing it reported
/// nothing and `expression_len` is the expression's length in bytes.
pub fn ambient_from_expansion(parse_clean: bool, expanded: ExpandResult, expression_len: usize) -> (r:
    Result<Value, AmbientError>)
    ensures
        gives_ambient(parse_clean, expanded, expression_len as int) ==> (r matches Ok(v) && v@
            == expanded.statements@[0].subject@),
        !gives_ambient(parse_clean, expanded, expression_len as int) ==> r == Err::<
            Value,
            AmbientError,
        >(AmbientError::Invalid),
{
    if !parse_clean || expanded.diagnostics.len() != 0 || expanded.statements.len() != 1 {
        return Err(AmbientError::Invalid);
    }
    let spans_whole = match &expanded.statements[0].subject_span {
        Some(span) => span.start == 0 && span.end == expression_len,
        None => false,
    };
    if !spans_whole {
        return Err(AmbientError::Invalid);
    }
    let mut statements = expanded.statements;
    let statement = statements.remove(0);
    Ok(statement.subject)
}

/// The ambient subject that the parse `p` of `{expression} ambient
/// Ambient.` gives, for an expression of `expression_len` bytes: the
/// subject of its one fact, when the parse and the expansion report
/// nothing and that subject spans the whole expression.
pub open spec fn ambient_outcome(p: Parse, expression_len: int) -> Option<ValueView> {
    let stmts = selection(p.tree.events@, 0, seq![SyntaxKind::Statement], true);
    let facts = expansion_facts(&p.tree, stmts, 0, None);
    let errors = expansion_errors(&p.tree, stmts, 0, None);
    if p.diagnostics@.len() == 0 && errors.len() == 0 && facts.len() == 1 && (facts[0].subject_span matches Some(
        span,
    ) && span.start == 0 && span.end == expression_len) {
        Some(facts[0].subject)
    } else {
        None
    }
}

/// `r` is what reading `expression` gives by way of the parse `p` (as
/// `parse` states it) of `{expression} ambient Ambient.`.
pub open spec fn ambient_read_by(expression: Seq<char>, p: Parse, r: Result<Value, AmbientError>) -> bool {
    &&& parsed_from(expression + " ambient Ambient.\n"@, InputForm::Commentaria, p)
    &&& match ambient_outcome(p, utf8_len(expression) as int) {
        Some(v) => r matches Ok(x) && x@ == v,
        None => r == Err::<Value, AmbientError>(AmbientError::Invalid),
    }
}

/// Reads an ambient subject expression: `[]` is the whole document, any
/// other must be one complete SnipX subject. Number literals are read by
/// the caller, which alone handles floating point.
pub fn parse_ambient(expression: &str) -> (r: Result<Value, AmbientError>)
    ensures
        expression@ == "[]"@ ==> (r matches Ok(v) && v@ == ValueView::WholeDocument),
        expression@.len() == 0 <==> r == Err::<Value, AmbientError>(AmbientError::Empty),
        expression@.len() > 0 && expression@ != "[]"@ ==> exists|p: Parse| #[trigger] ambient_read_by(expression@, p, r),
{
    proof {
        reveal_strlit("[]");
    }
    if chars_of(expression).len() == 0 {
        return Err(AmbientError::Empty);
    }
    if same_str(expression, "[]") {
        return Ok(Value::WholeDocument);
    }
    let mut source = expression.to_owned();
    source.append(" ambient Ambient.\n");
    let parsed = parse(source.as_str(), ParseOptions { input_form: InputForm::Commentaria });
    let parse_clean = parsed.diagnostics().len() == 0;
    let expanded = expand(&parsed, ExpandOptions { ambient_subject: None });
    let chars = chars_of(expression);
    let offsets = byte_offsets(chars.as_slice());
    let expression_len = offsets[chars.len()];
    proof {
        let n0 = parsed.diagnostics@.len() as int;
        let d = expanded.diagnostics@;
        let sub = d.subrange(n0, d.len() as int);
        assert(errors_view(sub).len() == sub.len());
        assert(facts_view(expanded.statements@).len() == expanded.statements@.len());
        if expanded.statements@.len() > 0 {
            assert(facts_view(expanded.statements@)[0] == expanded.statements@[0]@);
        }
        assert(expression_len == utf8_len(expression@));
    }
    let r = ambient_from_expansion(parse_clean, expanded, expression_len);
    assert(ambient_read_by(expression@, parsed, r));
    r
}

/// The exit status a document earns: 4 when it reports an unsupported
/// profile, else 1 on an error, or on a warning when `strict`, else 0.
#[verifier::spinoff_prover]
pub fn exit_status(document: &ExportDocument, strict: bool) -> (r: u8)
    ensures
        ({
            let diagnostics = document.diagnostics@;
            let unsupported = exists|k: int| 0 <= k < diagnostics.len() && #[trigger] diagnostics[k].code@ == "UNSUPPORTED_PROFILE"@;
            let errors = exists|k: int| 0 <= k < diagnostics.len() && #[trigger] diagnostics[k].severity@ == "error"@;
            let warnings = exists|k: int| 0 <= k < diagnostics.len() && #[trigger] diagnostics[k].severity@ == "warning"@;
            r == if unsupported {
                4u8
            } else if errors || (strict && warnings) {
                1u8
            } else {
                0u8
            }
        }),
{
    if document.has_unsupported_features() {
        4
    } else if document.has_errors() || (strict && document.has_warnings()) {
        1
    } else {
        0
    }
}

} // verus!
