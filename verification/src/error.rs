//! Error and warning kinds: scanning errors, parsing errors, and the
//! non-fatal warnings the session machine accumulates.

use vstd::prelude::*;

verus! {

/// Errors found while scanning a line into tokens. Each is position-bearing
/// where a position exists; the offending line is dropped and the session
/// continues.
#[derive(Debug, PartialEq, Eq, Clone)]
pub enum LexError {
    UnterminatedStringLiteral { pos: usize },
    UnterminatedStringLiteralAtEnd,
    ExpectCharAfter { pos: usize, expected: char, after: char, got: char },
    UnknownChar { pos: usize, got: char },
    NumberTooLarge { pos: usize },
}

/// Errors found while parsing a token stream into statements; parsing stops
/// at the first one.
#[derive(Debug)]
pub enum ParsingError {
    ExpectToken { expected: String, got: Option<String> },
    ExpectTokenAfter { expected: String, after: String, got: Option<String> },
    ExpectDepthValue,
    UnexpectedToken { got: Option<String> },
}

/// Mathematical model of a parsing error.
pub enum ParsingErrorView {
    ExpectToken { expected: Seq<char>, got: Option<Seq<char>> },
    ExpectTokenAfter { expected: Seq<char>, after: Seq<char>, got: Option<Seq<char>> },
    ExpectDepthValue,
    UnexpectedToken { got: Option<Seq<char>> },
}

/// The view of an optional token description.
pub open spec fn opt_view(o: Option<String>) -> Option<Seq<char>> {
    match o {
        Some(s) => Some(s@),
        None => None,
    }
}

impl View for ParsingError {
    type V = ParsingErrorView;

    open spec fn view(&self) -> ParsingErrorView {
        match self {
            ParsingError::ExpectToken { expected, got } => ParsingErrorView::ExpectToken {
                expected: expected@,
                got: opt_view(*got),
            },
            ParsingError::ExpectTokenAfter { expected, after, got } => {
                ParsingErrorView::ExpectTokenAfter {
                    expected: expected@,
                    after: after@,
                    got: opt_view(*got),
                }
            },
            ParsingError::ExpectDepthValue => ParsingErrorView::ExpectDepthValue,
            ParsingError::UnexpectedToken { got } => ParsingErrorView::UnexpectedToken {
                got: opt_view(*got),
            },
        }
    }
}

/// Non-fatal warnings the session machine emits for statements with no
/// effect in the current state, and for references to undefined rules.
#[derive(Debug)]
pub enum Warning {
    ExprHasNoEffect,
    ApplyRuleNoEffect,
    InLineRuleNoEffect,
    EndStmtHasNoEffect,
    RuleDoesNotExist(String),
}

/// Mathematical model of a warning.
pub enum WarningView {
    ExprHasNoEffect,
    ApplyRuleNoEffect,
    InLineRuleNoEffect,
    EndStmtHasNoEffect,
    RuleDoesNotExist(Seq<char>),
}

impl View for Warning {
    type V = WarningView;

    open spec fn view(&self) -> WarningView {
        match self {
            Warning::ExprHasNoEffect => WarningView::ExprHasNoEffect,
            Warning::ApplyRuleNoEffect => WarningView::ApplyRuleNoEffect,
            Warning::InLineRuleNoEffect => WarningView::InLineRuleNoEffect,
            Warning::EndStmtHasNoEffect => WarningView::EndStmtHasNoEffect,
            Warning::RuleDoesNotExist(s) => WarningView::RuleDoesNotExist(s@),
        }
    }
}

} // verus!
