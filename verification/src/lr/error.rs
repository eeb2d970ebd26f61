//! Errors of LR parsing and reports of grammar validation.
use vstd::prelude::*;
use crate::cfg::TerminalId;
use crate::lr::conflict::Conflict;
use crate::lr::goto::ItemSetId;
use crate::lr::grammar_type::LRGrammarType;

verus! {

/// What went wrong while building or running an LR parser.
#[derive(Debug, Clone, PartialEq, Eq)]
pub enum LRErrorKind {
    UnexpectedToken { expected: Vec<TerminalId>, found: TerminalId, state: ItemSetId },
    UnexpectedEndOfInput { expected: Vec<TerminalId>, state: ItemSetId },
    NoAction { state: ItemSetId, terminal: TerminalId },
    ConflictDetected { conflicts: Vec<Conflict> },
    InvalidGrammar { message: String },
    StackUnderflow,
    InvalidState { state: ItemSetId },
}

/// An LR error with an optional input position and context text.
#[derive(Debug, Clone)]
pub struct LRError {
    pub kind: LRErrorKind,
    pub position: Option<usize>,
    pub context: Option<String>,
}

impl LRError {
    pub fn new(kind: LRErrorKind) -> (res: Self)
        ensures
            res.kind == kind,
            res.position is None,
            res.context is None,
    {
        LRError { kind, position: None, context: None }
    }

    pub fn unexpected_token(expected: Vec<TerminalId>, found: TerminalId, state: ItemSetId) -> (res: Self)
        ensures
            res.kind == (LRErrorKind::UnexpectedToken { expected, found, state }),
            res.position is None,
            res.context is None,
    {
        LRError::new(LRErrorKind::UnexpectedToken { expected, found, state })
    }

    pub fn unexpected_end(expected: Vec<TerminalId>, state: ItemSetId) -> (res: Self)
        ensures
            res.kind == (LRErrorKind::UnexpectedEndOfInput { expected, state }),
            res.position is None,
            res.context is None,
    {
        LRError::new(LRErrorKind::UnexpectedEndOfInput { expected, state })
    }

    pub fn no_action(state: ItemSetId, terminal: TerminalId) -> (res: Self)
        ensures
            res.kind == (LRErrorKind::NoAction { state, terminal }),
            res.position is None,
            res.context is None,
    {
        LRError::new(LRErrorKind::NoAction { state, terminal })
    }

    pub fn conflict(conflicts: Vec<Conflict>) -> (res: Self)
        ensures
            res.kind == (LRErrorKind::ConflictDetected { conflicts }),
            res.position is None,
            res.context is None,
    {
        LRError::new(LRErrorKind::ConflictDetected { conflicts })
    }

    pub fn invalid_grammar(message: String) -> (res: Self)
        ensures
            res.kind == (LRErrorKind::InvalidGrammar { message }),
            res.position is None,
            res.context is None,
    {
        LRError::new(LRErrorKind::InvalidGrammar { message })
    }

    pub fn stack_underflow() -> (res: Self)
        ensures
            res.kind == LRErrorKind::StackUnderflow,
            res.position is None,
            res.context is None,
    {
        LRError::new(LRErrorKind::StackUnderflow)
    }

    pub fn invalid_state(state: ItemSetId) -> (res: Self)
        ensures
            res.kind == (LRErrorKind::InvalidState { state }),
            res.position is None,
            res.context is None,
    {
        LRError::new(LRErrorKind::InvalidState { state })
    }

    /// The same error, placed at `position`.
    pub fn with_position(self, position: usize) -> (res: Self)
        ensures
            res.kind == self.kind,
            res.position == Some(position),
            res.context == self.context,
    {
        LRError { kind: self.kind, position: Some(position), context: self.context }
    }

    /// The same error, with `context` attached.
    pub fn with_context(self, context: String) -> (res: Self)
        ensures
            res.kind == self.kind,
            res.position == self.position,
            res.context == Some(context),
    {
        LRError { kind: self.kind, position: self.position, context: Some(context) }
    }

    pub fn is_unexpected_token(&self) -> (res: bool)
        ensures
            res == (self.kind is UnexpectedToken),
    {
        matches!(self.kind, LRErrorKind::UnexpectedToken { .. })
    }

    pub fn is_conflict(&self) -> (res: bool)
        ensures
            res == (self.kind is ConflictDetected),
    {
        matches!(self.kind, LRErrorKind::ConflictDetected { .. })
    }

    pub fn is_invalid_grammar(&self) -> (res: bool)
        ensures
            res == (self.kind is InvalidGrammar),
    {
        matches!(self.kind, LRErrorKind::InvalidGrammar { .. })
    }
}

/// A reason why a grammar fails a validation.
#[derive(Debug, Clone, Copy, PartialEq, Eq, Structural)]
pub enum LRValidationError {
    ShiftReduceConflict { state: ItemSetId, terminal: TerminalId },
    ReduceReduceConflict { state: ItemSetId, terminal: TerminalId },
    NotLR0,
    NotSLR1,
    NotLALR1,
    NotLR1,
}

/// The outcome of validating a grammar.
#[derive(Debug, Clone)]
pub struct LRValidationReport {
    pub is_valid: bool,
    pub errors: Vec<LRValidationError>,
    pub warnings: Vec<String>,
    pub grammar_type: LRGrammarType,
}

impl LRValidationReport {
    /// The report is valid exactly when it lists no error.
    pub open spec fn consistent(&self) -> bool {
        self.is_valid == (self.errors@.len() == 0)
    }

    /// A valid report with nothing in it and an unknown grammar class.
    pub fn new() -> (res: Self)
        ensures
            res.consistent(),
            res.is_valid,
            res.errors@.len() == 0,
            res.warnings@.len() == 0,
            res.grammar_type == LRGrammarType::Unknown,
    {
        LRValidationReport {
            is_valid: true,
            errors: Vec::new(),
            warnings: Vec::new(),
            grammar_type: LRGrammarType::Unknown,
        }
    }

    /// Records an error; the report is then invalid.
    pub fn add_error(&mut self, error: LRValidationError)
        ensures
            final(self).consistent(),
            !final(self).is_valid,
            final(self).errors@ == old(self).errors@.push(error),
            final(self).warnings@ == old(self).warnings@,
            final(self).grammar_type == old(self).grammar_type,
    {
        self.is_valid = false;
        self.errors.push(error);
    }

    /// Records a warning; validity is unchanged.
    pub fn add_warning(&mut self, warning: String)
        ensures
            old(self).consistent() ==> final(self).consistent(),
            final(self).is_valid == old(self).is_valid,
            final(self).errors@ == old(self).errors@,
            final(self).warnings@ == old(self).warnings@.push(warning),
            final(self).grammar_type == old(self).grammar_type,
    {
        self.warnings.push(warning);
    }

    pub fn has_errors(&self) -> (res: bool)
        ensures
            res == (self.errors@.len() > 0),
    {
        self.errors.len() > 0
    }

    pub fn has_warnings(&self) -> (res: bool)
        ensures
            res == (self.warnings@.len() > 0),
    {
        self.warnings.len() > 0
    }
}

impl Default for LRValidationReport {
    fn default() -> (res: Self)
        ensures
            res.is_valid,
            res.errors@.len() == 0,
            res.warnings@.len() == 0,
            res.grammar_type == LRGrammarType::Unknown,
    {
        Self::new()
    }
}

} // verus!
