//! Syntax kinds and the event encoding of a lossless syntax tree.
use vstd::prelude::*;
use crate::text::string_of;

verus! {

#[derive(Debug, Clone, Copy, PartialEq, Eq, Hash, Structural)]
pub enum SyntaxKind {
    Root,
    Directive,
    TargetDirective,
    ProfileDirective,
    Statement,
    Subject,
    Predicate,
    Object,
    ObjectList,
    Decoration,
    Snippet,
    RangeSnippet,
    QuotedSnippetPart,
    Capture,
    Quantifier,
    Uri,
    String,
    TripleString,
    Number,
    Boolean,
    BacktickPredicate,
    LineComment,
    BlockComment,
    MarginaliaText,
    Fence,
    FenceInfo,
    FenceBody,
    IntralineaText,
    IntralineaBlock,
    LocalSubjectMarker,
    Identifier,
    Whitespace,
    Error,
    Text,
    LBrack,
    RBrack,
    LBrace,
    RBrace,
    LAngle,
    RAngle,
    ColonColon,
    At,
    Tilde,
    Quote,
    Backtick,
    SlashSlashSlash,
    Semicolon,
    Comma,
    Dot,
}

/// The upper-snake name that debug trees give a kind.
pub open spec fn kind_name(kind: SyntaxKind) -> Seq<char> {
    match kind {
        SyntaxKind::Root => seq!['R', 'O', 'O', 'T'],
        SyntaxKind::Directive => seq!['D', 'I', 'R', 'E', 'C', 'T', 'I', 'V', 'E'],
        SyntaxKind::TargetDirective => seq!['T', 'A', 'R', 'G', 'E', 'T', '_', 'D', 'I', 'R', 'E', 'C', 'T', 'I', 'V', 'E'],
        SyntaxKind::ProfileDirective => seq!['P', 'R', 'O', 'F', 'I', 'L', 'E', '_', 'D', 'I', 'R', 'E', 'C', 'T', 'I', 'V', 'E'],
        SyntaxKind::Statement => seq!['S', 'T', 'A', 'T', 'E', 'M', 'E', 'N', 'T'],
        SyntaxKind::Subject => seq!['S', 'U', 'B', 'J', 'E', 'C', 'T'],
        SyntaxKind::Predicate => seq!['P', 'R', 'E', 'D', 'I', 'C', 'A', 'T', 'E'],
        SyntaxKind::Object => seq!['O', 'B', 'J', 'E', 'C', 'T'],
        SyntaxKind::ObjectList => seq!['O', 'B', 'J', 'E', 'C', 'T', '_', 'L', 'I', 'S', 'T'],
        SyntaxKind::Decoration => seq!['D', 'E', 'C', 'O', 'R', 'A', 'T', 'I', 'O', 'N'],
        SyntaxKind::Snippet => seq!['S', 'N', 'I', 'P', 'P', 'E', 'T'],
        SyntaxKind::RangeSnippet => seq!['R', 'A', 'N', 'G', 'E', '_', 'S', 'N', 'I', 'P', 'P', 'E', 'T'],
        SyntaxKind::QuotedSnippetPart => seq!['Q', 'U', 'O', 'T', 'E', 'D', '_', 'S', 'N', 'I', 'P', 'P', 'E', 'T', '_', 'P', 'A', 'R', 'T'],
        SyntaxKind::Capture => seq!['C', 'A', 'P', 'T', 'U', 'R', 'E'],
        SyntaxKind::Quantifier => seq!['Q', 'U', 'A', 'N', 'T', 'I', 'F', 'I', 'E', 'R'],
        SyntaxKind::Uri => seq!['U', 'R', 'I'],
        SyntaxKind::String => seq!['S', 'T', 'R', 'I', 'N', 'G'],
        SyntaxKind::TripleString => seq!['T', 'R', 'I', 'P', 'L', 'E', '_', 'S', 'T', 'R', 'I', 'N', 'G'],
        SyntaxKind::Number => seq!['N', 'U', 'M', 'B', 'E', 'R'],
        SyntaxKind::Boolean => seq!['B', 'O', 'O', 'L', 'E', 'A', 'N'],
        SyntaxKind::BacktickPredicate => seq!['B', 'A', 'C', 'K', 'T', 'I', 'C', 'K', '_', 'P', 'R', 'E', 'D', 'I', 'C', 'A', 'T', 'E'],
        SyntaxKind::LineComment => seq!['L', 'I', 'N', 'E', '_', 'C', 'O', 'M', 'M', 'E', 'N', 'T'],
        SyntaxKind::BlockComment => seq!['B', 'L', 'O', 'C', 'K', '_', 'C', 'O', 'M', 'M', 'E', 'N', 'T'],
        SyntaxKind::MarginaliaText => seq!['M', 'A', 'R', 'G', 'I', 'N', 'A', 'L', 'I', 'A', '_', 'T', 'E', 'X', 'T'],
        SyntaxKind::Fence => seq!['F', 'E', 'N', 'C', 'E'],
        SyntaxKind::FenceInfo => seq!['F', 'E', 'N', 'C', 'E', '_', 'I', 'N', 'F', 'O'],
        SyntaxKind::FenceBody => seq!['F', 'E', 'N', 'C', 'E', '_', 'B', 'O', 'D', 'Y'],
        SyntaxKind::IntralineaText => seq!['I', 'N', 'T', 'R', 'A', 'L', 'I', 'N', 'E', 'A', '_', 'T', 'E', 'X', 'T'],
        SyntaxKind::IntralineaBlock => seq!['I', 'N', 'T', 'R', 'A', 'L', 'I', 'N', 'E', 'A', '_', 'B', 'L', 'O', 'C', 'K'],
        SyntaxKind::LocalSubjectMarker => seq!['L', 'O', 'C', 'A', 'L', '_', 'S', 'U', 'B', 'J', 'E', 'C', 'T', '_', 'M', 'A', 'R', 'K', 'E', 'R'],
        SyntaxKind::Identifier => seq!['I', 'D', 'E', 'N', 'T'],
        SyntaxKind::Whitespace => seq!['W', 'H', 'I', 'T', 'E', 'S', 'P', 'A', 'C', 'E'],
        SyntaxKind::Error => seq!['E', 'R', 'R', 'O', 'R'],
        SyntaxKind::Text => seq!['T', 'E', 'X', 'T'],
        SyntaxKind::LBrack => seq!['L', '_', 'B', 'R', 'A', 'C', 'K'],
        SyntaxKind::RBrack => seq!['R', '_', 'B', 'R', 'A', 'C', 'K'],
        SyntaxKind::LBrace => seq!['L', '_', 'B', 'R', 'A', 'C', 'E'],
        SyntaxKind::RBrace => seq!['R', '_', 'B', 'R', 'A', 'C', 'E'],
        SyntaxKind::LAngle => seq!['L', '_', 'A', 'N', 'G', 'L', 'E'],
        SyntaxKind::RAngle => seq!['R', '_', 'A', 'N', 'G', 'L', 'E'],
        SyntaxKind::ColonColon => seq!['C', 'O', 'L', 'O', 'N', '_', 'C', 'O', 'L', 'O', 'N'],
        SyntaxKind::At => seq!['A', 'T'],
        SyntaxKind::Tilde => seq!['T', 'I', 'L', 'D', 'E'],
        SyntaxKind::Quote => seq!['Q', 'U', 'O', 'T', 'E'],
        SyntaxKind::Backtick => seq!['B', 'A', 'C', 'K', 'T', 'I', 'C', 'K'],
        SyntaxKind::SlashSlashSlash => seq!['S', 'L', 'A', 'S', 'H', '_', 'S', 'L', 'A', 'S', 'H', '_', 'S', 'L', 'A', 'S', 'H'],
        SyntaxKind::Semicolon => seq!['S', 'E', 'M', 'I', 'C', 'O', 'L', 'O', 'N'],
        SyntaxKind::Comma => seq!['C', 'O', 'M', 'M', 'A'],
        SyntaxKind::Dot => seq!['D', 'O', 'T'],
    }
}

impl SyntaxKind {
    /// The upper-snake name used by debug trees.
    pub fn debug_name(self) -> (r: String)
        ensures
            r@ == kind_name(self),
    {
        let r = match self {
            SyntaxKind::Root => string_of(&['R', 'O', 'O', 'T']),
            SyntaxKind::Directive => string_of(&['D', 'I', 'R', 'E', 'C', 'T', 'I', 'V', 'E']),
            SyntaxKind::TargetDirective => string_of(&['T', 'A', 'R', 'G', 'E', 'T', '_', 'D', 'I', 'R', 'E', 'C', 'T', 'I', 'V', 'E']),
            SyntaxKind::ProfileDirective => string_of(&['P', 'R', 'O', 'F', 'I', 'L', 'E', '_', 'D', 'I', 'R', 'E', 'C', 'T', 'I', 'V', 'E']),
            SyntaxKind::Statement => string_of(&['S', 'T', 'A', 'T', 'E', 'M', 'E', 'N', 'T']),
            SyntaxKind::Subject => string_of(&['S', 'U', 'B', 'J', 'E', 'C', 'T']),
            SyntaxKind::Predicate => string_of(&['P', 'R', 'E', 'D', 'I', 'C', 'A', 'T', 'E']),
            SyntaxKind::Object => string_of(&['O', 'B', 'J', 'E', 'C', 'T']),
            SyntaxKind::ObjectList => string_of(&['O', 'B', 'J', 'E', 'C', 'T', '_', 'L', 'I', 'S', 'T']),
            SyntaxKind::Decoration => string_of(&['D', 'E', 'C', 'O', 'R', 'A', 'T', 'I', 'O', 'N']),
            SyntaxKind::Snippet => string_of(&['S', 'N', 'I', 'P', 'P', 'E', 'T']),
            SyntaxKind::RangeSnippet => string_of(&['R', 'A', 'N', 'G', 'E', '_', 'S', 'N', 'I', 'P', 'P', 'E', 'T']),
            SyntaxKind::QuotedSnippetPart => string_of(&['Q', 'U', 'O', 'T', 'E', 'D', '_', 'S', 'N', 'I', 'P', 'P', 'E', 'T', '_', 'P', 'A', 'R', 'T']),
            SyntaxKind::Capture => string_of(&['C', 'A', 'P', 'T', 'U', 'R', 'E']),
            SyntaxKind::Quantifier => string_of(&['Q', 'U', 'A', 'N', 'T', 'I', 'F', 'I', 'E', 'R']),
            SyntaxKind::Uri => string_of(&['U', 'R', 'I']),
            SyntaxKind::String => string_of(&['S', 'T', 'R', 'I', 'N', 'G']),
            SyntaxKind::TripleString => string_of(&['T', 'R', 'I', 'P', 'L', 'E', '_', 'S', 'T', 'R', 'I', 'N', 'G']),
            SyntaxKind::Number => string_of(&['N', 'U', 'M', 'B', 'E', 'R']),
            SyntaxKind::Boolean => string_of(&['B', 'O', 'O', 'L', 'E', 'A', 'N']),
            SyntaxKind::BacktickPredicate => string_of(&['B', 'A', 'C', 'K', 'T', 'I', 'C', 'K', '_', 'P', 'R', 'E', 'D', 'I', 'C', 'A', 'T', 'E']),
            SyntaxKind::LineComment => string_of(&['L', 'I', 'N', 'E', '_', 'C', 'O', 'M', 'M', 'E', 'N', 'T']),
            SyntaxKind::BlockComment => string_of(&['B', 'L', 'O', 'C', 'K', '_', 'C', 'O', 'M', 'M', 'E', 'N', 'T']),
            SyntaxKind::MarginaliaText => string_of(&['M', 'A', 'R', 'G', 'I', 'N', 'A', 'L', 'I', 'A', '_', 'T', 'E', 'X', 'T']),
            SyntaxKind::Fence => string_of(&['F', 'E', 'N', 'C', 'E']),
            SyntaxKind::FenceInfo => string_of(&['F', 'E', 'N', 'C', 'E', '_', 'I', 'N', 'F', 'O']),
            SyntaxKind::FenceBody => string_of(&['F', 'E', 'N', 'C', 'E', '_', 'B', 'O', 'D', 'Y']),
            SyntaxKind::IntralineaText => string_of(&['I', 'N', 'T', 'R', 'A', 'L', 'I', 'N', 'E', 'A', '_', 'T', 'E', 'X', 'T']),
            SyntaxKind::IntralineaBlock => string_of(&['I', 'N', 'T', 'R', 'A', 'L', 'I', 'N', 'E', 'A', '_', 'B', 'L', 'O', 'C', 'K']),
            SyntaxKind::LocalSubjectMarker => string_of(&['L', 'O', 'C', 'A', 'L', '_', 'S', 'U', 'B', 'J', 'E', 'C', 'T', '_', 'M', 'A', 'R', 'K', 'E', 'R']),
            SyntaxKind::Identifier => string_of(&['I', 'D', 'E', 'N', 'T']),
            SyntaxKind::Whitespace => string_of(&['W', 'H', 'I', 'T', 'E', 'S', 'P', 'A', 'C', 'E']),
            SyntaxKind::Error => string_of(&['E', 'R', 'R', 'O', 'R']),
            SyntaxKind::Text => string_of(&['T', 'E', 'X', 'T']),
            SyntaxKind::LBrack => string_of(&['L', '_', 'B', 'R', 'A', 'C', 'K']),
            SyntaxKind::RBrack => string_of(&['R', '_', 'B', 'R', 'A', 'C', 'K']),
            SyntaxKind::LBrace => string_of(&['L', '_', 'B', 'R', 'A', 'C', 'E']),
            SyntaxKind::RBrace => string_of(&['R', '_', 'B', 'R', 'A', 'C', 'E']),
            SyntaxKind::LAngle => string_of(&['L', '_', 'A', 'N', 'G', 'L', 'E']),
            SyntaxKind::RAngle => string_of(&['R', '_', 'A', 'N', 'G', 'L', 'E']),
            SyntaxKind::ColonColon => string_of(&['C', 'O', 'L', 'O', 'N', '_', 'C', 'O', 'L', 'O', 'N']),
            SyntaxKind::At => string_of(&['A', 'T']),
            SyntaxKind::Tilde => string_of(&['T', 'I', 'L', 'D', 'E']),
            SyntaxKind::Quote => string_of(&['Q', 'U', 'O', 'T', 'E']),
            SyntaxKind::Backtick => string_of(&['B', 'A', 'C', 'K', 'T', 'I', 'C', 'K']),
            SyntaxKind::SlashSlashSlash => string_of(&['S', 'L', 'A', 'S', 'H', '_', 'S', 'L', 'A', 'S', 'H', '_', 'S', 'L', 'A', 'S', 'H']),
            SyntaxKind::Semicolon => string_of(&['S', 'E', 'M', 'I', 'C', 'O', 'L', 'O', 'N']),
            SyntaxKind::Comma => string_of(&['C', 'O', 'M', 'M', 'A']),
            SyntaxKind::Dot => string_of(&['D', 'O', 'T']),
        };
        proof {
            assert(r@ =~= kind_name(self));
        }
        r
    }
}

/// The language marker of SnipX syntax trees.
#[derive(Debug, Clone, Copy, PartialEq, Eq, Hash)]
pub enum SnipxLanguage {
    Snipx,
}

/// Every kind in declaration order; a kind's raw value is its index here.
pub open spec fn all_kinds() -> Seq<SyntaxKind> {
    seq![
        SyntaxKind::Root,
        SyntaxKind::Directive,
        SyntaxKind::TargetDirective,
        SyntaxKind::ProfileDirective,
        SyntaxKind::Statement,
        SyntaxKind::Subject,
        SyntaxKind::Predicate,
        SyntaxKind::Object,
        SyntaxKind::ObjectList,
        SyntaxKind::Decoration,
        SyntaxKind::Snippet,
        SyntaxKind::RangeSnippet,
        SyntaxKind::QuotedSnippetPart,
        SyntaxKind::Capture,
        SyntaxKind::Quantifier,
        SyntaxKind::Uri,
        SyntaxKind::String,
        SyntaxKind::TripleString,
        SyntaxKind::Number,
        SyntaxKind::Boolean,
        SyntaxKind::BacktickPredicate,
        SyntaxKind::LineComment,
        SyntaxKind::BlockComment,
        SyntaxKind::MarginaliaText,
        SyntaxKind::Fence,
        SyntaxKind::FenceInfo,
        SyntaxKind::FenceBody,
        SyntaxKind::IntralineaText,
        SyntaxKind::IntralineaBlock,
        SyntaxKind::LocalSubjectMarker,
        SyntaxKind::Identifier,
        SyntaxKind::Whitespace,
        SyntaxKind::Error,
        SyntaxKind::Text,
        SyntaxKind::LBrack,
        SyntaxKind::RBrack,
        SyntaxKind::LBrace,
        SyntaxKind::RBrace,
        SyntaxKind::LAngle,
        SyntaxKind::RAngle,
        SyntaxKind::ColonColon,
        SyntaxKind::At,
        SyntaxKind::Tilde,
        SyntaxKind::Quote,
        SyntaxKind::Backtick,
        SyntaxKind::SlashSlashSlash,
        SyntaxKind::Semicolon,
        SyntaxKind::Comma,
        SyntaxKind::Dot,
    ]
}

/// The declaration index of a kind.
pub open spec fn kind_index(kind: SyntaxKind) -> int {
    match kind {
        SyntaxKind::Root => 0,
        SyntaxKind::Directive => 1,
        SyntaxKind::TargetDirective => 2,
        SyntaxKind::ProfileDirective => 3,
        SyntaxKind::Statement => 4,
        SyntaxKind::Subject => 5,
        SyntaxKind::Predicate => 6,
        SyntaxKind::Object => 7,
        SyntaxKind::ObjectList => 8,
        SyntaxKind::Decoration => 9,
        SyntaxKind::Snippet => 10,
        SyntaxKind::RangeSnippet => 11,
        SyntaxKind::QuotedSnippetPart => 12,
        SyntaxKind::Capture => 13,
        SyntaxKind::Quantifier => 14,
        SyntaxKind::Uri => 15,
        SyntaxKind::String => 16,
        SyntaxKind::TripleString => 17,
        SyntaxKind::Number => 18,
        SyntaxKind::Boolean => 19,
        SyntaxKind::BacktickPredicate => 20,
        SyntaxKind::LineComment => 21,
        SyntaxKind::BlockComment => 22,
        SyntaxKind::MarginaliaText => 23,
        SyntaxKind::Fence => 24,
        SyntaxKind::FenceInfo => 25,
        SyntaxKind::FenceBody => 26,
        SyntaxKind::IntralineaText => 27,
        SyntaxKind::IntralineaBlock => 28,
        SyntaxKind::LocalSubjectMarker => 29,
        SyntaxKind::Identifier => 30,
        SyntaxKind::Whitespace => 31,
        SyntaxKind::Error => 32,
        SyntaxKind::Text => 33,
        SyntaxKind::LBrack => 34,
        SyntaxKind::RBrack => 35,
        SyntaxKind::LBrace => 36,
        SyntaxKind::RBrace => 37,
        SyntaxKind::LAngle => 38,
        SyntaxKind::RAngle => 39,
        SyntaxKind::ColonColon => 40,
        SyntaxKind::At => 41,
        SyntaxKind::Tilde => 42,
        SyntaxKind::Quote => 43,
        SyntaxKind::Backtick => 44,
        SyntaxKind::SlashSlashSlash => 45,
        SyntaxKind::Semicolon => 46,
        SyntaxKind::Comma => 47,
        SyntaxKind::Dot => 48,
    }
}

/// A kind's raw value leads back to the kind.
pub proof fn lemma_raw_round_trip(kind: SyntaxKind)
    ensures
        0 <= kind_index(kind) < all_kinds().len(),
        all_kinds()[kind_index(kind)] == kind,
{
    let s = all_kinds();
    match kind {
        SyntaxKind::Root => { assert(s[0] == SyntaxKind::Root); },
        SyntaxKind::Directive => { assert(s[1] == SyntaxKind::Directive); },
        SyntaxKind::TargetDirective => { assert(s[2] == SyntaxKind::TargetDirective); },
        SyntaxKind::ProfileDirective => { assert(s[3] == SyntaxKind::ProfileDirective); },
        SyntaxKind::Statement => { assert(s[4] == SyntaxKind::Statement); },
        SyntaxKind::Subject => { assert(s[5] == SyntaxKind::Subject); },
        SyntaxKind::Predicate => { assert(s[6] == SyntaxKind::Predicate); },
        SyntaxKind::Object => { assert(s[7] == SyntaxKind::Object); },
        SyntaxKind::ObjectList => { assert(s[8] == SyntaxKind::ObjectList); },
        SyntaxKind::Decoration => { assert(s[9] == SyntaxKind::Decoration); },
        SyntaxKind::Snippet => { assert(s[10] == SyntaxKind::Snippet); },
        SyntaxKind::RangeSnippet => { assert(s[11] == SyntaxKind::RangeSnippet); },
        SyntaxKind::QuotedSnippetPart => { assert(s[12] == SyntaxKind::QuotedSnippetPart); },
        SyntaxKind::Capture => { assert(s[13] == SyntaxKind::Capture); },
        SyntaxKind::Quantifier => { assert(s[14] == SyntaxKind::Quantifier); },
        SyntaxKind::Uri => { assert(s[15] == SyntaxKind::Uri); },
        SyntaxKind::String => { assert(s[16] == SyntaxKind::String); },
        SyntaxKind::TripleString => { assert(s[17] == SyntaxKind::TripleString); },
        SyntaxKind::Number => { assert(s[18] == SyntaxKind::Number); },
        SyntaxKind::Boolean => { assert(s[19] == SyntaxKind::Boolean); },
        SyntaxKind::BacktickPredicate => { assert(s[20] == SyntaxKind::BacktickPredicate); },
        SyntaxKind::LineComment => { assert(s[21] == SyntaxKind::LineComment); },
        SyntaxKind::BlockComment => { assert(s[22] == SyntaxKind::BlockComment); },
        SyntaxKind::MarginaliaText => { assert(s[23] == SyntaxKind::MarginaliaText); },
        SyntaxKind::Fence => { assert(s[24] == SyntaxKind::Fence); },
        SyntaxKind::FenceInfo => { assert(s[25] == SyntaxKind::FenceInfo); },
        SyntaxKind::FenceBody => { assert(s[26] == SyntaxKind::FenceBody); },
        SyntaxKind::IntralineaText => { assert(s[27] == SyntaxKind::IntralineaText); },
        SyntaxKind::IntralineaBlock => { assert(s[28] == SyntaxKind::IntralineaBlock); },
        SyntaxKind::LocalSubjectMarker => { assert(s[29] == SyntaxKind::LocalSubjectMarker); },
        SyntaxKind::Identifier => { assert(s[30] == SyntaxKind::Identifier); },
        SyntaxKind::Whitespace => { assert(s[31] == SyntaxKind::Whitespace); },
        SyntaxKind::Error => { assert(s[32] == SyntaxKind::Error); },
        SyntaxKind::Text => { assert(s[33] == SyntaxKind::Text); },
        SyntaxKind::LBrack => { assert(s[34] == SyntaxKind::LBrack); },
        SyntaxKind::RBrack => { assert(s[35] == SyntaxKind::RBrack); },
        SyntaxKind::LBrace => { assert(s[36] == SyntaxKind::LBrace); },
        SyntaxKind::RBrace => { assert(s[37] == SyntaxKind::RBrace); },
        SyntaxKind::LAngle => { assert(s[38] == SyntaxKind::LAngle); },
        SyntaxKind::RAngle => { assert(s[39] == SyntaxKind::RAngle); },
        SyntaxKind::ColonColon => { assert(s[40] == SyntaxKind::ColonColon); },
        SyntaxKind::At => { assert(s[41] == SyntaxKind::At); },
        SyntaxKind::Tilde => { assert(s[42] == SyntaxKind::Tilde); },
        SyntaxKind::Quote => { assert(s[43] == SyntaxKind::Quote); },
        SyntaxKind::Backtick => { assert(s[44] == SyntaxKind::Backtick); },
        SyntaxKind::SlashSlashSlash => { assert(s[45] == SyntaxKind::SlashSlashSlash); },
        SyntaxKind::Semicolon => { assert(s[46] == SyntaxKind::Semicolon); },
        SyntaxKind::Comma => { assert(s[47] == SyntaxKind::Comma); },
        SyntaxKind::Dot => { assert(s[48] == SyntaxKind::Dot); },
    }
}

/// The kind declared at index `i` has raw value `i`.
pub proof fn lemma_declared_index(i: int)
    requires
        0 <= i < all_kinds().len(),
    ensures
        kind_index(all_kinds()[i]) == i,
{
    let s = all_kinds();
    if i == 0 {
        assert(kind_index(s[0]) == 0);
    } else if i == 1 {
        assert(kind_index(s[1]) == 1);
    } else if i == 2 {
        assert(kind_index(s[2]) == 2);
    } else if i == 3 {
        assert(kind_index(s[3]) == 3);
    } else if i == 4 {
        assert(kind_index(s[4]) == 4);
    } else if i == 5 {
        assert(kind_index(s[5]) == 5);
    } else if i == 6 {
        assert(kind_index(s[6]) == 6);
    } else if i == 7 {
        assert(kind_index(s[7]) == 7);
    } else if i == 8 {
        assert(kind_index(s[8]) == 8);
    } else if i == 9 {
        assert(kind_index(s[9]) == 9);
    } else if i == 10 {
        assert(kind_index(s[10]) == 10);
    } else if i == 11 {
        assert(kind_index(s[11]) == 11);
    } else if i == 12 {
        assert(kind_index(s[12]) == 12);
    } else if i == 13 {
        assert(kind_index(s[13]) == 13);
    } else if i == 14 {
        assert(kind_index(s[14]) == 14);
    } else if i == 15 {
        assert(kind_index(s[15]) == 15);
    } else if i == 16 {
        assert(kind_index(s[16]) == 16);
    } else if i == 17 {
        assert(kind_index(s[17]) == 17);
    } else if i == 18 {
        assert(kind_index(s[18]) == 18);
    } else if i == 19 {
        assert(kind_index(s[19]) == 19);
    } else if i == 20 {
        assert(kind_index(s[20]) == 20);
    } else if i == 21 {
        assert(kind_index(s[21]) == 21);
    } else if i == 22 {
        assert(kind_index(s[22]) == 22);
    } else if i == 23 {
        assert(kind_index(s[23]) == 23);
    } else if i == 24 {
        assert(kind_index(s[24]) == 24);
    } else if i == 25 {
        assert(kind_index(s[25]) == 25);
    } else if i == 26 {
        assert(kind_index(s[26]) == 26);
    } else if i == 27 {
        assert(kind_index(s[27]) == 27);
    } else if i == 28 {
        assert(kind_index(s[28]) == 28);
    } else if i == 29 {
        assert(kind_index(s[29]) == 29);
    } else if i == 30 {
        assert(kind_index(s[30]) == 30);
    } else if i == 31 {
        assert(kind_index(s[31]) == 31);
    } else if i == 32 {
        assert(kind_index(s[32]) == 32);
    } else if i == 33 {
        assert(kind_index(s[33]) == 33);
    } else if i == 34 {
        assert(kind_index(s[34]) == 34);
    } else if i == 35 {
        assert(kind_index(s[35]) == 35);
    } else if i == 36 {
        assert(kind_index(s[36]) == 36);
    } else if i == 37 {
        assert(kind_index(s[37]) == 37);
    } else if i == 38 {
        assert(kind_index(s[38]) == 38);
    } else if i == 39 {
        assert(kind_index(s[39]) == 39);
    } else if i == 40 {
        assert(kind_index(s[40]) == 40);
    } else if i == 41 {
        assert(kind_index(s[41]) == 41);
    } else if i == 42 {
        assert(kind_index(s[42]) == 42);
    } else if i == 43 {
        assert(kind_index(s[43]) == 43);
    } else if i == 44 {
        assert(kind_index(s[44]) == 44);
    } else if i == 45 {
        assert(kind_index(s[45]) == 45);
    } else if i == 46 {
        assert(kind_index(s[46]) == 46);
    } else if i == 47 {
        assert(kind_index(s[47]) == 47);
    } else if i == 48 {
        assert(kind_index(s[48]) == 48);
    }
}

impl SyntaxKind {
    /// Every kind, in declaration order.
    pub fn all() -> (r: Vec<SyntaxKind>)
        ensures
            r@ == all_kinds(),
    {
        let r = vec![
            SyntaxKind::Root,
            SyntaxKind::Directive,
            SyntaxKind::TargetDirective,
            SyntaxKind::ProfileDirective,
            SyntaxKind::Statement,
            SyntaxKind::Subject,
            SyntaxKind::Predicate,
            SyntaxKind::Object,
            SyntaxKind::ObjectList,
            SyntaxKind::Decoration,
            SyntaxKind::Snippet,
            SyntaxKind::RangeSnippet,
            SyntaxKind::QuotedSnippetPart,
            SyntaxKind::Capture,
            SyntaxKind::Quantifier,
            SyntaxKind::Uri,
            SyntaxKind::String,
            SyntaxKind::TripleString,
            SyntaxKind::Number,
            SyntaxKind::Boolean,
            SyntaxKind::BacktickPredicate,
            SyntaxKind::LineComment,
            SyntaxKind::BlockComment,
            SyntaxKind::MarginaliaText,
            SyntaxKind::Fence,
            SyntaxKind::FenceInfo,
            SyntaxKind::FenceBody,
            SyntaxKind::IntralineaText,
            SyntaxKind::IntralineaBlock,
            SyntaxKind::LocalSubjectMarker,
            SyntaxKind::Identifier,
            SyntaxKind::Whitespace,
            SyntaxKind::Error,
            SyntaxKind::Text,
            SyntaxKind::LBrack,
            SyntaxKind::RBrack,
            SyntaxKind::LBrace,
            SyntaxKind::RBrace,
            SyntaxKind::LAngle,
            SyntaxKind::RAngle,
            SyntaxKind::ColonColon,
            SyntaxKind::At,
            SyntaxKind::Tilde,
            SyntaxKind::Quote,
            SyntaxKind::Backtick,
            SyntaxKind::SlashSlashSlash,
            SyntaxKind::Semicolon,
            SyntaxKind::Comma,
            SyntaxKind::Dot,
        ];
        proof {
            assert(r@ =~= all_kinds());
        }
        r
    }
}

impl SnipxLanguage {
    /// The raw value of a kind: its declaration index.
    pub fn kind_to_raw(kind: SyntaxKind) -> (r: u16)
        ensures
            r == kind_index(kind),
    {
        match kind {
            SyntaxKind::Root => 0,
            SyntaxKind::Directive => 1,
            SyntaxKind::TargetDirective => 2,
            SyntaxKind::ProfileDirective => 3,
            SyntaxKind::Statement => 4,
            SyntaxKind::Subject => 5,
            SyntaxKind::Predicate => 6,
            SyntaxKind::Object => 7,
            SyntaxKind::ObjectList => 8,
            SyntaxKind::Decoration => 9,
            SyntaxKind::Snippet => 10,
            SyntaxKind::RangeSnippet => 11,
            SyntaxKind::QuotedSnippetPart => 12,
            SyntaxKind::Capture => 13,
            SyntaxKind::Quantifier => 14,
            SyntaxKind::Uri => 15,
            SyntaxKind::String => 16,
            SyntaxKind::TripleString => 17,
            SyntaxKind::Number => 18,
            SyntaxKind::Boolean => 19,
            SyntaxKind::BacktickPredicate => 20,
            SyntaxKind::LineComment => 21,
            SyntaxKind::BlockComment => 22,
            SyntaxKind::MarginaliaText => 23,
            SyntaxKind::Fence => 24,
            SyntaxKind::FenceInfo => 25,
            SyntaxKind::FenceBody => 26,
            SyntaxKind::IntralineaText => 27,
            SyntaxKind::IntralineaBlock => 28,
            SyntaxKind::LocalSubjectMarker => 29,
            SyntaxKind::Identifier => 30,
            SyntaxKind::Whitespace => 31,
            SyntaxKind::Error => 32,
            SyntaxKind::Text => 33,
            SyntaxKind::LBrack => 34,
            SyntaxKind::RBrack => 35,
            SyntaxKind::LBrace => 36,
            SyntaxKind::RBrace => 37,
            SyntaxKind::LAngle => 38,
            SyntaxKind::RAngle => 39,
            SyntaxKind::ColonColon => 40,
            SyntaxKind::At => 41,
            SyntaxKind::Tilde => 42,
            SyntaxKind::Quote => 43,
            SyntaxKind::Backtick => 44,
            SyntaxKind::SlashSlashSlash => 45,
            SyntaxKind::Semicolon => 46,
            SyntaxKind::Comma => 47,
            SyntaxKind::Dot => 48,
        }
    }

    /// The kind with the given raw value; `Error` past the last kind.
    pub fn kind_from_raw(raw: u16) -> (r: SyntaxKind)
        ensures
            raw < all_kinds().len() ==> r == all_kinds()[raw as int],
            raw >= all_kinds().len() ==> r == SyntaxKind::Error,
    {
        let all = SyntaxKind::all();
        let i = raw as usize;
        if i < all.len() {
            all[i]
        } else {
            SyntaxKind::Error
        }
    }
}

/// One step of a pre-order walk over a syntax tree: a node opens, a
/// token covers the source characters `start..end`, or a node closes.
#[derive(Debug, Clone, Copy, PartialEq, Eq, Structural)]
pub enum TreeEvent {
    Start(SyntaxKind),
    Token(SyntaxKind, usize, usize),
    Finish,
}

/// Tokens of `events` cover the character range `a..b` contiguously,
/// in order, without gaps or overlaps.
pub open spec fn tiles(events: Seq<TreeEvent>, a: int, b: int) -> bool
    decreases events.len(),
{
    if events.len() == 0 {
        a == b
    } else {
        match events.last() {
            TreeEvent::Token(_, s, e) => s <= e && e == b && tiles(events.drop_last(), a, s as int),
            _ => tiles(events.drop_last(), a, b),
        }
    }
}

/// The end of the range covered by the tokens of `events` when they
/// start at `a`.
pub open spec fn tile_end(events: Seq<TreeEvent>, a: int) -> int
    decreases events.len(),
{
    if events.len() == 0 {
        a
    } else {
        match events.last() {
            TreeEvent::Token(_, s, e) => e as int,
            _ => tile_end(events.drop_last(), a),
        }
    }
}

pub proof fn lemma_tiles_end(events: Seq<TreeEvent>, a: int, b: int)
    requires
        tiles(events, a, b),
    ensures
        tile_end(events, a) == b,
        a <= b,
    decreases events.len(),
{
    if events.len() > 0 {
        match events.last() {
            TreeEvent::Token(_, s, e) => {
                lemma_tiles_end(events.drop_last(), a, s as int);
            },
            _ => {
                lemma_tiles_end(events.drop_last(), a, b);
            },
        }
    }
}

/// Appending a tiling of `b..c` to a tiling of `a..b` tiles `a..c`.
pub proof fn lemma_tiles_concat(x: Seq<TreeEvent>, y: Seq<TreeEvent>, a: int, b: int, c: int)
    requires
        tiles(x, a, b),
        tiles(y, b, c),
    ensures
        tiles(x + y, a, c),
    decreases y.len(),
{
    if y.len() == 0 {
        assert(x + y =~= x);
    } else {
        assert((x + y).drop_last() =~= x + y.drop_last());
        match y.last() {
            TreeEvent::Token(_, s, e) => {
                lemma_tiles_concat(x, y.drop_last(), a, b, s as int);
            },
            _ => {
                lemma_tiles_concat(x, y.drop_last(), a, b, c);
            },
        }
    }
}


/// Reading `events` from nesting depth `d`: the depth reached, or `None`
/// when some `Finish` finds no open node to close.
pub open spec fn nest_from(events: Seq<TreeEvent>, d: int) -> Option<int>
    decreases events.len(),
{
    if events.len() == 0 {
        Some(d)
    } else {
        match nest_from(events.drop_last(), d) {
            None => None,
            Some(e) => match events.last() {
                TreeEvent::Start(_) => Some(e + 1),
                TreeEvent::Finish => if e == 0 {
                    None
                } else {
                    Some(e - 1)
                },
                TreeEvent::Token(_, _, _) => Some(e),
            },
        }
    }
}

/// The nesting depth after one event, read from depth `d`.
pub open spec fn nest_step(e: TreeEvent, d: int) -> int {
    match e {
        TreeEvent::Start(_) => d + 1,
        TreeEvent::Finish => d - 1,
        TreeEvent::Token(_, _, _) => d,
    }
}

/// `b` is `a` followed by events that close every node they close only
/// after opening it, and leave `d` nodes open.
pub open spec fn grown(a: Seq<TreeEvent>, b: Seq<TreeEvent>, d: int) -> bool {
    &&& 0 <= d
    &&& a.len() <= b.len()
    &&& b.take(a.len() as int) == a
    &&& nest_from(b.skip(a.len() as int), 0) == Some(d)
}

/// `b` extends `a` with a balanced run of events: whatever `a` had grown
/// into from an earlier sequence, `b` has too.
pub open spec fn extends_balanced(a: Seq<TreeEvent>, b: Seq<TreeEvent>) -> bool {
    &&& a.len() <= b.len()
    &&& forall|o: Seq<TreeEvent>, d: int| #[trigger] grown(o, a, d) ==> grown(o, b, d)
}

/// A sequence has grown from itself with no node open.
pub proof fn lemma_grown_refl(a: Seq<TreeEvent>)
    ensures
        grown(a, a, 0),
{
    assert(a.take(a.len() as int) =~= a);
    assert(a.skip(a.len() as int) =~= Seq::<TreeEvent>::empty());
}

/// One more event: a start opens a node, a finish closes one.
pub proof fn lemma_grown_push(o: Seq<TreeEvent>, a: Seq<TreeEvent>, d: int, e: TreeEvent)
    requires
        grown(o, a, d),
        e is Finish ==> d >= 1,
    ensures
        grown(o, a.push(e), nest_step(e, d)),
{
    assert(a.push(e).take(o.len() as int) =~= o);
    assert(a.push(e).skip(o.len() as int).drop_last() =~= a.skip(o.len() as int));
}

/// Every node that the events open is closed again, and no event closes a
/// node that was never opened.
pub open spec fn balanced(events: Seq<TreeEvent>) -> bool {
    nest_from(events, 0) == Some(0int)
}

/// Growing from nothing is reading the events from depth zero.
pub proof fn lemma_grown_empty(events: Seq<TreeEvent>, d: int)
    ensures
        grown(Seq::empty(), events, d) <==> (0 <= d && nest_from(events, 0) == Some(d)),
{
    assert(events.take(0) =~= Seq::<TreeEvent>::empty());
    assert(events.skip(0) =~= events);
}

/// A balanced extension keeps what it extends as a prefix.
pub proof fn lemma_extends_prefix(a: Seq<TreeEvent>, b: Seq<TreeEvent>)
    requires
        extends_balanced(a, b),
    ensures
        a.len() <= b.len(),
        b.take(a.len() as int) == a,
{
    lemma_grown_refl(a);
}

} // verus!
