//! The three SnipX input forms and parse options.
use vstd::prelude::*;
use crate::diagnostic::Diagnostic;

verus! {

#[derive(Debug, Clone, Copy, PartialEq, Eq, Structural)]
pub enum InputForm {
    Commentaria,
    Marginalia,
    Intralinea,
}

#[derive(Debug, Clone, Copy, PartialEq, Eq, Structural)]
pub struct ParseOptions {
    pub input_form: InputForm,
}

#[derive(Debug, Clone, PartialEq, Eq)]
pub struct ParseResult {
    pub input_form: InputForm,
    pub diagnostics: Vec<Diagnostic>,
    pub debug_tree: String,
}

} // verus!
