//! Building parsers step by step, and classifying grammars.
use vstd::prelude::*;
use crate::cfg::{ContextFreeGrammar, TerminalId};
use crate::lr::action::Action;
use crate::lr::augmented::{augments, AugmentedGrammar};
use crate::lr::error::{LRError, LRErrorKind, LRValidationError, LRValidationReport};
use crate::lr::goto::ItemSetId;
use crate::lr::grammar_type::LRGrammarType;
use crate::lr::parser::{built, LRParser, LRParserConfig};
use crate::lr::table::{slr_table_of, SLRTable, SLRTableBuilder};
use crate::lr::validator::{conflict_error, reports_conflicts};
use crate::text::{decimal, join, push_str, push_usize};

verus! {

/// The debug text of a validation error.
pub open spec fn validation_error_debug(e: LRValidationError) -> Seq<char> {
    match e {
        LRValidationError::ShiftReduceConflict { state, terminal } => "ShiftReduceConflict { state: ItemSetId("@
            + decimal(state.0 as nat) + "), terminal: TerminalId("@ + decimal(terminal.0 as nat) + ") }"@,
        LRValidationError::ReduceReduceConflict { state, terminal } => "ReduceReduceConflict { state: ItemSetId("@
            + decimal(state.0 as nat) + "), terminal: TerminalId("@ + decimal(terminal.0 as nat) + ") }"@,
        LRValidationError::NotLR0 => "NotLR0"@,
        LRValidationError::NotSLR1 => "NotSLR1"@,
        LRValidationError::NotLALR1 => "NotLALR1"@,
        LRValidationError::NotLR1 => "NotLR1"@,
    }
}

/// The debug text of a list of validation errors: `[a, b]`.
pub open spec fn validation_errors_debug(es: Seq<LRValidationError>) -> Seq<char> {
    "["@ + join(es.map_values(|e: LRValidationError| validation_error_debug(e)), ", "@) + "]"@
}

/// The message of a failed validation.
pub open spec fn validation_failed_text(es: Seq<LRValidationError>) -> Seq<char> {
    "Grammar validation failed: "@ + validation_errors_debug(es)
}

/// The message when no grammar was given.
pub open spec fn no_grammar_text() -> Seq<char> {
    "No grammar provided"@
}

/// Appends the debug text of a validation error.
fn push_validation_error(s: &mut String, e: LRValidationError)
    ensures
        final(s)@ == old(s)@ + validation_error_debug(e),
{
    match e {
        LRValidationError::ShiftReduceConflict { state, terminal } => {
            push_str(s, "ShiftReduceConflict { state: ItemSetId(");
            push_usize(s, state.0);
            push_str(s, "), terminal: TerminalId(");
            push_usize(s, terminal.0);
            push_str(s, ") }");
        },
        LRValidationError::ReduceReduceConflict { state, terminal } => {
            push_str(s, "ReduceReduceConflict { state: ItemSetId(");
            push_usize(s, state.0);
            push_str(s, "), terminal: TerminalId(");
            push_usize(s, terminal.0);
            push_str(s, ") }");
        },
        LRValidationError::NotLR0 => push_str(s, "NotLR0"),
        LRValidationError::NotSLR1 => push_str(s, "NotSLR1"),
        LRValidationError::NotLALR1 => push_str(s, "NotLALR1"),
        LRValidationError::NotLR1 => push_str(s, "NotLR1"),
    }
    proof {
        assert(final(s)@ =~= old(s)@ + validation_error_debug(e));
    }
}

/// The message of a failed validation.
fn validation_failed_message(errors: &Vec<LRValidationError>) -> (res: String)
    ensures
        res@ == validation_failed_text(errors@),
{
    let mut s = String::new();
    push_str(&mut s, "Grammar validation failed: ");
    push_str(&mut s, "[");
    let ghost prefix = s@;
    let mut i: usize = 0;
    while i < errors.len()
        invariant
            i <= errors@.len(),
            s@ == prefix + join(
                errors@.take(i as int).map_values(|e: LRValidationError| validation_error_debug(e)),
                ", "@,
            ),
        decreases errors@.len() - i,
    {
        let ghost before = s@;
        if i > 0 {
            push_str(&mut s, ", ");
        }
        push_validation_error(&mut s, errors[i]);
        proof {
            let parts = errors@.take(i + 1).map_values(|e: LRValidationError| validation_error_debug(e));
            assert(parts.drop_last() =~= errors@.take(i as int).map_values(
                |e: LRValidationError| validation_error_debug(e),
            ));
            if i == 0 {
                assert(errors@.take(0).map_values(|e: LRValidationError| validation_error_debug(e))
                    =~= Seq::<Seq<char>>::empty());
            }
            assert(s@ =~= prefix + join(parts, ", "@));
        }
        i = i + 1;
    }
    assert(errors@.take(errors@.len() as int) =~= errors@);
    push_str(&mut s, "]");
    proof {
        assert(s@ =~= validation_failed_text(errors@));
    }
    s
}

/// Collects a grammar and settings, then builds a parser.
pub struct LRParserBuilder {
    grammar: Option<ContextFreeGrammar>,
    config: LRParserConfig,
    validate: bool,
}

impl LRParserBuilder {
    pub closed spec fn spec_grammar(&self) -> Option<ContextFreeGrammar> {
        self.grammar
    }

    pub closed spec fn spec_config(&self) -> LRParserConfig {
        self.config
    }

    pub closed spec fn spec_validate(&self) -> bool {
        self.validate
    }

    /// No grammar, the default configuration, validation on.
    pub fn new() -> (res: Self)
        ensures
            res.spec_grammar() is None,
            res.spec_config() == LRParserConfig::default_spec(),
            res.spec_validate(),
    {
        LRParserBuilder {
            grammar: None,
            config: LRParserConfig {
                grammar_type: LRGrammarType::SLR1,
                error_recovery: false,
                max_errors: 10,
                trace: false,
            },
            validate: true,
        }
    }

    pub fn grammar(self, grammar: ContextFreeGrammar) -> (res: Self)
        ensures
            res.spec_grammar() == Some(grammar),
            res.spec_config() == self.spec_config(),
            res.spec_validate() == self.spec_validate(),
    {
        LRParserBuilder { grammar: Some(grammar), config: self.config, validate: self.validate }
    }

    pub fn grammar_type(self, grammar_type: LRGrammarType) -> (res: Self)
        ensures
            res.spec_grammar() == self.spec_grammar(),
            res.spec_config() == (LRParserConfig { grammar_type, ..self.spec_config() }),
            res.spec_validate() == self.spec_validate(),
    {
        LRParserBuilder {
            grammar: self.grammar,
            config: LRParserConfig { grammar_type, ..self.config },
            validate: self.validate,
        }
    }

    pub fn error_recovery(self, enabled: bool) -> (res: Self)
        ensures
            res.spec_grammar() == self.spec_grammar(),
            res.spec_config() == (LRParserConfig { error_recovery: enabled, ..self.spec_config() }),
            res.spec_validate() == self.spec_validate(),
    {
        LRParserBuilder {
            grammar: self.grammar,
            config: LRParserConfig { error_recovery: enabled, ..self.config },
            validate: self.validate,
        }
    }

    pub fn max_errors(self, max: usize) -> (res: Self)
        ensures
            res.spec_grammar() == self.spec_grammar(),
            res.spec_config() == (LRParserConfig { max_errors: max, ..self.spec_config() }),
            res.spec_validate() == self.spec_validate(),
    {
        LRParserBuilder {
            grammar: self.grammar,
            config: LRParserConfig { max_errors: max, ..self.config },
            validate: self.validate,
        }
    }

    pub fn trace(self, enabled: bool) -> (res: Self)
        ensures
            res.spec_grammar() == self.spec_grammar(),
            res.spec_config() == (LRParserConfig { trace: enabled, ..self.spec_config() }),
            res.spec_validate() == self.spec_validate(),
    {
        LRParserBuilder {
            grammar: self.grammar,
            config: LRParserConfig { trace: enabled, ..self.config },
            validate: self.validate,
        }
    }

    pub fn validate(self, validate: bool) -> (res: Self)
        ensures
            res.spec_grammar() == self.spec_grammar(),
            res.spec_config() == self.spec_config(),
            res.spec_validate() == validate,
    {
        LRParserBuilder { grammar: self.grammar, config: self.config, validate }
    }

    /// Builds the parser. Fails without a grammar; with validation on, fails when the
    /// grammar's SLR(1) table has conflicts; otherwise as `LRParser::with_config`.
    pub fn build(self) -> (res: Result<LRParser, LRError>)
        requires
            self.spec_grammar() matches Some(g) ==> g.wf() && g.non_terminals.len() + 1 < usize::MAX,
        ensures
            match self.spec_grammar() {
                None => res matches Err(e) && e.kind matches LRErrorKind::InvalidGrammar { message }
                    && message@ == no_grammar_text() && e.position is None && e.context is None,
                Some(g) => if self.spec_validate() {
                    exists|r: LRValidationReport|
                        #[trigger] lr_validation_of(&g, &r) && if r.is_valid {
                            built(&g, self.spec_config(), res)
                        } else {
                            res matches Err(e) && e.position is None && e.context is None && (e.kind matches LRErrorKind::InvalidGrammar { message }
                                && message@ == validation_failed_text(r.errors@))
                        }
                } else {
                    built(&g, self.spec_config(), res)
                },
            },
    {
        let grammar = match self.grammar {
            Some(g) => g,
            None => {
                let mut message = String::new();
                push_str(&mut message, "No grammar provided");
                return Err(LRError::invalid_grammar(message));
            },
        };
        if self.validate {
            let report = LRValidator::validate(&grammar);
            if !report.is_valid {
                let message = validation_failed_message(&report.errors);
                return Err(LRError::invalid_grammar(message));
            }
        }
        LRParser::with_config(grammar, self.config)
    }

    /// Builds the parser without validating the grammar (see `LRParser::with_config`).
    pub fn build_unchecked(self) -> (res: Result<LRParser, LRError>)
        requires
            self.spec_grammar() matches Some(g) ==> g.wf() && g.non_terminals.len() + 1 < usize::MAX,
        ensures
            match self.spec_grammar() {
                None => res matches Err(e) && e.kind matches LRErrorKind::InvalidGrammar { message }
                    && message@ == no_grammar_text() && e.position is None && e.context is None,
                Some(g) => built(&g, self.spec_config(), res),
            },
    {
        let grammar = match self.grammar {
            Some(g) => g,
            None => {
                let mut message = String::new();
                push_str(&mut message, "No grammar provided");
                return Err(LRError::invalid_grammar(message));
            },
        };
        LRParser::with_config(grammar, self.config)
    }
}

impl Default for LRParserBuilder {
    fn default() -> (res: Self)
        ensures
            res.spec_grammar() is None,
            res.spec_config() == LRParserConfig::default_spec(),
            res.spec_validate(),
    {
        Self::new()
    }
}

/// A row of the ACTION table holds both a shift and a reduction.
pub open spec fn row_mixes(row: Seq<Action>) -> bool {
    (exists|t: int| 0 <= t < row.len() && #[trigger] row[t] is Shift) && (exists|t: int|
        0 <= t < row.len() && #[trigger] row[t] is Reduce)
}

/// The class a conflict-free SLR(1) table shows: SLR(1) when some state both shifts
/// and reduces, LR(0) otherwise.
pub open spec fn slr_table_class(t: &SLRTable) -> LRGrammarType {
    if exists|s: int| 0 <= s < t.state_count && #[trigger] row_mixes(t.action.cells()[s]) {
        LRGrammarType::SLR1
    } else {
        LRGrammarType::LR0
    }
}

/// `r` is what `LRValidator::validate` reports for `g`: the conflicts of the SLR(1)
/// table of the augmented grammar, or its class when there is none.
pub open spec fn lr_validation_of(g: &ContextFreeGrammar, r: &LRValidationReport) -> bool {
    exists|a: AugmentedGrammar, t: SLRTable|
        augments(g, &a) && slr_table_of(&a.spec_grammar(), &t) && reports_conflicts(r, t.conflicts@, slr_table_class(&t))
}

/// Grammar classification by the SLR(1) construction.
pub struct LRValidator;

impl LRValidator {
    /// Builds the SLR(1) table of the augmented grammar and reports its conflicts; a
    /// conflict-free grammar is LR(0) or SLR(1) (see `slr_table_class`).
    pub fn validate(cfg: &ContextFreeGrammar) -> (res: LRValidationReport)
        requires
            cfg.wf(),
            cfg.non_terminals.len() + 1 < usize::MAX,
        ensures
            lr_validation_of(cfg, &res),
    {
        let copy = cfg.clone();
        let ghost c = copy;
        let augmented = AugmentedGrammar::new(copy);
        proof {
            crate::lr::augmented::lemma_augments_same(cfg, &c, &augmented);
        }
        let table = SLRTableBuilder::build(&augmented);
        let ghost g = augmented.spec_grammar();
        let mut report = LRValidationReport::new();
        let mut i: usize = 0;
        while i < table.conflicts.len()
            invariant
                i <= table.conflicts@.len(),
                report.errors@ == table.conflicts@.take(i as int).map_values(|c: crate::lr::conflict::Conflict| conflict_error(c)),
                report.is_valid == (i == 0),
                report.warnings@.len() == 0,
                report.grammar_type == LRGrammarType::Unknown,
            decreases table.conflicts@.len() - i,
        {
            let c = table.conflicts[i];
            let e = match c.kind {
                crate::lr::conflict::ConflictKind::ShiftReduce { terminal, .. } => LRValidationError::ShiftReduceConflict {
                    state: c.state,
                    terminal,
                },
                crate::lr::conflict::ConflictKind::ReduceReduce { terminal, .. } => LRValidationError::ReduceReduceConflict {
                    state: c.state,
                    terminal,
                },
            };
            report.add_error(e);
            assert(table.conflicts@.take(i + 1) =~= table.conflicts@.take(i as int).push(c));
            i = i + 1;
        }
        assert(table.conflicts@.take(table.conflicts@.len() as int) =~= table.conflicts@);
        if table.has_conflicts() {
            report.grammar_type = LRGrammarType::NotLR;
        } else {
            proof {
                lemma_slr_shape(&g, &table);
            }
            report.grammar_type = Self::determine_grammar_type(&table);
        }
        report
    }

    /// LR(0) unless some state both shifts and reduces, then SLR(1).
    fn determine_grammar_type(table: &SLRTable) -> (res: LRGrammarType)
        requires
            table.action.cells().len() == table.state_count,
            table.action.terminals() == table.terminal_count,
            table.action.shaped(table.state_count as nat),
        ensures
            res == slr_table_class(table),
    {
        let mut has_shift_reduce = false;
        let has_reduce_reduce = false;
        let mut state: usize = 0;
        while state < table.state_count
            invariant
                state <= table.state_count,
                table.action.cells().len() == table.state_count,
                table.action.terminals() == table.terminal_count,
                table.action.shaped(table.state_count as nat),
                !has_reduce_reduce,
                has_shift_reduce == exists|s: int| 0 <= s < state && #[trigger] row_mixes(table.action.cells()[s]),
            decreases table.state_count - state,
        {
            let ghost row = table.action.cells()[state as int];
            let limit = table.action.terminal_count() + 1;
            let mut has_shift = false;
            let mut has_reduce = false;
            let mut term: usize = 0;
            while term < limit
                invariant
                    state < table.state_count,
                    table.action.cells().len() == table.state_count,
                    table.action.shaped(table.state_count as nat),
                    row == table.action.cells()[state as int],
                    limit == row.len(),
                    term <= limit,
                    has_shift == exists|t: int| 0 <= t < term && #[trigger] row[t] is Shift,
                    has_reduce == exists|t: int| 0 <= t < term && #[trigger] row[t] is Reduce,
                decreases limit - term,
            {
                let action = table.action.get(ItemSetId(state), TerminalId(term));
                if action.is_shift() {
                    has_shift = true;
                }
                if action.is_reduce() {
                    has_reduce = true;
                }
                term = term + 1;
            }
            if has_shift && has_reduce {
                has_shift_reduce = true;
            }
            proof {
                assert(row_mixes(row) == (has_shift && has_reduce));
                assert forall|s: int| 0 <= s < state + 1 && #[trigger] row_mixes(table.action.cells()[s]) implies (s
                    < state || s == state) by {}
            }
            state = state + 1;
        }
        if has_reduce_reduce {
            LRGrammarType::NotLR
        } else if has_shift_reduce {
            LRGrammarType::SLR1
        } else {
            LRGrammarType::LR0
        }
    }

    /// Whether the grammar is LR(0) by this classification.
    pub fn is_lr0(cfg: &ContextFreeGrammar) -> (res: bool)
        requires
            cfg.wf(),
            cfg.non_terminals.len() + 1 < usize::MAX,
        ensures
            exists|r: LRValidationReport| #[trigger] lr_validation_of(cfg, &r) && res == (r.grammar_type is LR0),
    {
        let report = Self::validate(cfg);
        report.grammar_type.is_lr0()
    }

    /// Whether the grammar is SLR(1) (or LR(0)) by this classification.
    pub fn is_slr1(cfg: &ContextFreeGrammar) -> (res: bool)
        requires
            cfg.wf(),
            cfg.non_terminals.len() + 1 < usize::MAX,
        ensures
            exists|r: LRValidationReport|
                #[trigger] lr_validation_of(cfg, &r) && res == (r.grammar_type is SLR1 || r.grammar_type is LR0),
    {
        let report = Self::validate(cfg);
        report.grammar_type.is_slr1() || report.grammar_type.is_lr0()
    }

    /// Whether the grammar is LALR(1), SLR(1) or LR(0) by this classification.
    pub fn is_lalr1(cfg: &ContextFreeGrammar) -> (res: bool)
        requires
            cfg.wf(),
            cfg.non_terminals.len() + 1 < usize::MAX,
        ensures
            exists|r: LRValidationReport|
                #[trigger] lr_validation_of(cfg, &r) && res == (r.grammar_type is LALR1 || r.grammar_type is SLR1
                    || r.grammar_type is LR0),
    {
        let report = Self::validate(cfg);
        report.grammar_type.is_lalr1() || report.grammar_type.is_slr1() || report.grammar_type.is_lr0()
    }

    /// Whether the classification finds the grammar deterministic.
    pub fn is_lr1(cfg: &ContextFreeGrammar) -> (res: bool)
        requires
            cfg.wf(),
            cfg.non_terminals.len() + 1 < usize::MAX,
        ensures
            exists|r: LRValidationReport|
                #[trigger] lr_validation_of(cfg, &r) && res == (r.grammar_type is LR0 || r.grammar_type is SLR1
                    || r.grammar_type is LALR1 || r.grammar_type is LR1),
    {
        let report = Self::validate(cfg);
        report.grammar_type.is_deterministic()
    }

    /// The class the classification finds.
    pub fn get_grammar_type(cfg: &ContextFreeGrammar) -> (res: LRGrammarType)
        requires
            cfg.wf(),
            cfg.non_terminals.len() + 1 < usize::MAX,
        ensures
            exists|r: LRValidationReport| #[trigger] lr_validation_of(cfg, &r) && res == r.grammar_type,
    {
        let report = Self::validate(cfg);
        report.grammar_type
    }
}

/// An SLR(1) table has one ACTION row per state, each as wide as its terminals plus one.
proof fn lemma_slr_shape(g: &ContextFreeGrammar, t: &SLRTable)
    requires
        slr_table_of(g, t),
    ensures
        t.action.cells().len() == t.state_count,
        t.action.terminals() == t.terminal_count,
        t.action.shaped(t.state_count as nat),
{
}

} // verus!
