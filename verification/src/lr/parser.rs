//! The LR parser: table construction by grammar class and the shift/reduce driver.
use vstd::prelude::*;
use crate::cfg::{clone_names, ContextFreeGrammar, NonTerminalId, TerminalId, spec_is_epsilon_rhs};
use crate::lr::action::{Action, ProductionId};
use crate::lr::augmented::{augments, AugmentedGrammar};
use crate::lr::error::{LRError, LRErrorKind};
use crate::lr::goto::ItemSetId;
use crate::lr::grammar_type::{grammar_type_name, LRGrammarType};
use crate::lr::stack::{stack_symbol_text, top_state_of, LRStack, StackSymbol};
use crate::lr::table::{
    copy_conflicts, lalr1_table_of, lr0_table_of, lr1_table_of, slr_table_of, LALR1TableBuilder, LR0TableBuilder,
    LR1TableBuilder, LRTable, SLRTableBuilder,
};
use crate::lr::token_mapper::{TokenMapper, all_known, mapped_ids, unknown_token_error};
use crate::token_mapper::Token;
use crate::text::{decimal, join, join_strings, push_str, push_usize, views};

verus! {

/// How a parser is built and how it runs.
#[derive(Debug, Clone, Copy, PartialEq, Eq, Structural)]
pub struct LRParserConfig {
    pub grammar_type: LRGrammarType,
    pub error_recovery: bool,
    pub max_errors: usize,
    pub trace: bool,
}

impl Default for LRParserConfig {
    /// SLR(1), no error recovery, at most 10 errors, no trace.
    fn default() -> (res: Self)
        ensures
            res == (LRParserConfig {
                grammar_type: LRGrammarType::SLR1,
                error_recovery: false,
                max_errors: 10,
                trace: false,
            }),
    {
        LRParserConfig { grammar_type: LRGrammarType::SLR1, error_recovery: false, max_errors: 10, trace: false }
    }
}

/// One line of a parse trace.
#[derive(Debug, Clone)]
pub struct ParseStep {
    pub step: usize,
    pub stack: Vec<String>,
    pub input: String,
    pub action: String,
}

/// The lines of a parse trace.
#[derive(Debug, Clone)]
pub struct ParseTrace {
    steps: Vec<ParseStep>,
}

impl ParseTrace {
    /// The lines, in order.
    pub closed spec fn spec_steps(&self) -> Seq<ParseStep> {
        self.steps@
    }

    pub fn new() -> (res: Self)
        ensures
            res.spec_steps().len() == 0,
    {
        ParseTrace { steps: Vec::new() }
    }

    pub fn add_step(&mut self, step: ParseStep)
        ensures
            final(self).spec_steps() == old(self).spec_steps().push(step),
    {
        self.steps.push(step);
    }

    pub fn steps(&self) -> (res: &[ParseStep])
        ensures
            res@ == self.spec_steps(),
    {
        self.steps.as_slice()
    }

    pub fn is_empty(&self) -> (res: bool)
        ensures
            res == (self.spec_steps().len() == 0),
    {
        self.steps.len() == 0
    }

    /// Replaces the action text of the last line, if there is one.
    fn set_last_action(&mut self, action: String)
        ensures
            old(self).spec_steps().len() == 0 ==> final(self).spec_steps() == old(self).spec_steps(),
            old(self).spec_steps().len() > 0 ==> final(self).spec_steps() == old(self).spec_steps().update(
                old(self).spec_steps().len() - 1,
                ParseStep { action, ..old(self).spec_steps().last() },
            ),
    {
        let n = self.steps.len();
        if n > 0 {
            let last = self.steps.pop().unwrap();
            self.steps.push(ParseStep { step: last.step, stack: last.stack, input: last.input, action });
            assert(self.steps@ =~= old(self).spec_steps().update(
                old(self).spec_steps().len() - 1,
                ParseStep { action, ..old(self).spec_steps().last() },
            ));
        }
    }
}

impl Default for ParseTrace {
    fn default() -> (res: Self)
        ensures
            res.spec_steps().len() == 0,
    {
        Self::new()
    }
}

/// The outcome of a parse: success, trace, errors and the reductions made
/// (the last two only when tracing).
#[derive(Debug, Clone)]
pub struct ParseResult {
    pub success: bool,
    pub trace: ParseTrace,
    pub errors: Vec<LRError>,
    pub derivations: Vec<String>,
}

impl ParseResult {
    pub fn new() -> (res: Self)
        ensures
            res.success,
            res.trace.spec_steps().len() == 0,
            res.errors@.len() == 0,
            res.derivations@.len() == 0,
    {
        ParseResult { success: true, trace: ParseTrace::new(), errors: Vec::new(), derivations: Vec::new() }
    }

    /// Records an error; the parse then failed.
    pub fn add_error(&mut self, error: LRError)
        ensures
            !final(self).success,
            final(self).errors@ == old(self).errors@.push(error),
            final(self).trace == old(self).trace,
            final(self).derivations@ == old(self).derivations@,
    {
        self.success = false;
        self.errors.push(error);
    }

    pub fn has_errors(&self) -> (res: bool)
        ensures
            res == (self.errors@.len() > 0),
    {
        self.errors.len() > 0
    }
}

impl Default for ParseResult {
    fn default() -> (res: Self)
        ensures
            res.success,
            res.trace.spec_steps().len() == 0,
            res.errors@.len() == 0,
            res.derivations@.len() == 0,
    {
        Self::new()
    }
}

/// The four grammar classes a table can be built for.
pub open spec fn supported(kind: LRGrammarType) -> bool {
    kind is LR0 || kind is SLR1 || kind is LR1 || kind is LALR1
}

/// `t` is the table of class `kind` for `g`.
pub open spec fn builds(g: &ContextFreeGrammar, kind: LRGrammarType, t: &LRTable) -> bool {
    match kind {
        LRGrammarType::LR0 => t matches LRTable::LR0(x) && lr0_table_of(g, &x),
        LRGrammarType::SLR1 => t matches LRTable::SLR1(x) && slr_table_of(g, &x),
        LRGrammarType::LR1 => t matches LRTable::LR1(x) && lr1_table_of(g, &x),
        LRGrammarType::LALR1 => t matches LRTable::LALR1(x) && lalr1_table_of(g, &x),
        _ => false,
    }
}

/// The message for a class no table is built for.
pub open spec fn unsupported_text(kind: LRGrammarType) -> Seq<char> {
    "Unsupported grammar type: "@ + grammar_type_name(kind)
}

/// The message for a reduction by a production that does not exist.
pub open spec fn bad_production_text(p: ProductionId) -> Seq<char> {
    "Invalid production index: "@ + decimal(p.0 as nat)
}

/// What one step of the driver does.
#[derive(Debug, Clone, Copy, PartialEq, Eq, Structural)]
pub enum StepOutcome {
    /// Shift `token` and go to `target`.
    Shift { token: TerminalId, target: ItemSetId },
    /// Reduce by `production`: pop `pop` entries, push `lhs` and the GOTO `target`.
    Reduce { production: ProductionId, lhs: NonTerminalId, pop: usize, target: ItemSetId },
    Accept,
    /// No action for `token` in `state`.
    Reject { state: ItemSetId, token: TerminalId },
    /// After popping `pop` entries, `state` has no GOTO on the left-hand side.
    GotoMissing { state: ItemSetId, pop: usize },
    /// No state left on the stack after popping `pop` entries.
    Underflow { pop: usize },
    /// A reduction by a production the grammar does not have.
    BadProduction { production: ProductionId },
    /// A state (reached after popping `pop` entries) or token outside the table.
    OutOfTable { state: ItemSetId, pop: usize },
}

/// The token at `pos`, or the end marker past the input.
pub open spec fn token_at(input: Seq<TerminalId>, pos: int, end: TerminalId) -> TerminalId {
    if 0 <= pos < input.len() {
        input[pos]
    } else {
        end
    }
}

/// The number of symbols a production pops (none for an epsilon production).
pub open spec fn rhs_count(rhs: Seq<Symbol>) -> nat {
    if spec_is_epsilon_rhs(rhs) {
        0
    } else {
        rhs.len()
    }
}

use crate::cfg::Symbol;

/// What the driver does in one step with this stack and input position.
pub open spec fn spec_step(p: &LRParser, stack: Seq<StackSymbol>, input: Seq<TerminalId>, pos: int) -> StepOutcome {
    let action = p.spec_table().spec_action();
    let goto = p.spec_table().spec_goto();
    let g = p.spec_augmented().spec_grammar();
    match top_state_of(stack) {
        None => StepOutcome::Underflow { pop: 0 },
        Some(s) => {
            let t = token_at(input, pos, p.spec_end());
            if s.0 >= action.cells().len() || t.0 > action.terminals() {
                StepOutcome::OutOfTable { state: s, pop: 0 }
            } else {
                match action.cells()[s.0 as int][t.0 as int] {
                    Action::Shift(x) => StepOutcome::Shift { token: t, target: x },
                    Action::Reduce(pid) => if pid.0 >= g.productions.len() {
                        StepOutcome::BadProduction { production: pid }
                    } else {
                        let prod = g.productions@[pid.0 as int];
                        let k = rhs_count(prod.rhs@);
                        let pop = if 2 * k <= stack.len() {
                            (2 * k) as usize
                        } else {
                            stack.len() as usize
                        };
                        let rest = stack.subrange(0, stack.len() - pop);
                        match top_state_of(rest) {
                            None => StepOutcome::Underflow { pop },
                            Some(s2) => if s2.0 >= goto.rows().len() {
                                StepOutcome::OutOfTable { state: s2, pop }
                            } else {
                                match goto.entry(s2.0 as int, prod.lhs.0 as int) {
                                    Some(x) => StepOutcome::Reduce { production: pid, lhs: prod.lhs, pop, target: x },
                                    None => StepOutcome::GotoMissing { state: s2, pop },
                                }
                            },
                        }
                    },
                    Action::Accept => StepOutcome::Accept,
                    Action::Error => StepOutcome::Reject { state: s, token: t },
                }
            }
        },
    }
}

/// The stack after a step.
pub open spec fn stack_after(stack: Seq<StackSymbol>, out: StepOutcome) -> Seq<StackSymbol> {
    match out {
        StepOutcome::Shift { token, target } => stack.push(StackSymbol::Terminal(token)).push(
            StackSymbol::State(target),
        ),
        StepOutcome::Reduce { lhs, pop, target, .. } => stack.subrange(0, stack.len() - pop).push(
            StackSymbol::NonTerminal(lhs),
        ).push(StackSymbol::State(target)),
        StepOutcome::GotoMissing { pop, .. } => stack.subrange(0, stack.len() - pop),
        StepOutcome::Underflow { pop } => stack.subrange(0, stack.len() - pop),
        StepOutcome::OutOfTable { pop, .. } => stack.subrange(0, stack.len() - pop),
        _ => stack,
    }
}

/// An error the driver records.
pub enum ErrorView {
    Unexpected { found: TerminalId, state: ItemSetId, pos: int },
    UnexpectedEnd { state: ItemSetId, pos: int },
    InvalidState { state: ItemSetId },
}

/// A line of the trace: the step number, the stack, the input position, the state and
/// token looked up, and whether the step accepted.
pub struct TraceView {
    pub step: nat,
    pub stack: Seq<StackSymbol>,
    pub pos: int,
    pub state: ItemSetId,
    pub token: TerminalId,
    pub accepted: bool,
}

/// Whether the driver goes on, and if not, why.
pub enum RunStatus {
    Running,
    Accepted,
    Stopped,
    Underflow,
    BadProduction(ProductionId),
    OutOfTable(ItemSetId),
}

/// The driver's state between steps.
pub struct RunState {
    pub stack: Seq<StackSymbol>,
    pub pos: int,
    pub step_count: nat,
    pub errors: Seq<ErrorView>,
    pub derivations: Seq<NonTerminalId>,
    pub trace: Seq<TraceView>,
    pub status: RunStatus,
    /// A trace line was due while the position was past the end of the input.
    pub overrun: bool,
}

/// The state the driver starts in.
pub open spec fn initial_run() -> RunState {
    RunState {
        stack: seq![StackSymbol::State(ItemSetId(0))],
        pos: 0,
        step_count: 0,
        errors: Seq::empty(),
        derivations: Seq::empty(),
        trace: Seq::empty(),
        status: RunStatus::Running,
        overrun: false,
    }
}

/// One iteration of the driver.
pub open spec fn iterate(p: &LRParser, input: Seq<TerminalId>, st: RunState) -> RunState {
    match top_state_of(st.stack) {
        None => RunState { status: RunStatus::Underflow, ..st },
        Some(s) => {
            let tok = token_at(input, st.pos, p.spec_end());
            let tr = p.spec_config().trace;
            let st1 = RunState {
                trace: if tr {
                    st.trace.push(
                        TraceView { step: st.step_count, stack: st.stack, pos: st.pos, state: s, token: tok, accepted: false },
                    )
                } else {
                    st.trace
                },
                overrun: st.overrun || (tr && st.pos > input.len()),
                ..st
            };
            let out = spec_step(p, st.stack, input, st.pos);
            let stack2 = stack_after(st.stack, out);
            match out {
                StepOutcome::Shift { .. } => RunState {
                    stack: stack2,
                    pos: st.pos + 1,
                    step_count: st.step_count + 1,
                    ..st1
                },
                StepOutcome::Reduce { lhs, .. } => RunState {
                    stack: stack2,
                    derivations: if tr {
                        st.derivations.push(lhs)
                    } else {
                        st.derivations
                    },
                    step_count: st.step_count + 1,
                    ..st1
                },
                StepOutcome::Accept => RunState {
                    status: RunStatus::Accepted,
                    trace: if tr {
                        st1.trace.update(st1.trace.len() - 1, TraceView { accepted: true, ..st1.trace.last() })
                    } else {
                        st1.trace
                    },
                    ..st1
                },
                StepOutcome::Reject { state, token } => {
                    let e = if token == p.spec_end() {
                        ErrorView::UnexpectedEnd { state, pos: st.pos }
                    } else {
                        ErrorView::Unexpected { found: token, state, pos: st.pos }
                    };
                    let errs = st.errors.push(e);
                    if !p.spec_config().error_recovery || errs.len() >= p.spec_config().max_errors {
                        RunState { errors: errs, status: RunStatus::Stopped, ..st1 }
                    } else {
                        RunState { errors: errs, pos: st.pos + 1, ..st1 }
                    }
                },
                StepOutcome::GotoMissing { state, .. } => RunState {
                    stack: stack2,
                    errors: st.errors.push(ErrorView::InvalidState { state }),
                    status: RunStatus::Stopped,
                    ..st1
                },
                StepOutcome::Underflow { .. } => RunState { stack: stack2, status: RunStatus::Underflow, ..st1 },
                StepOutcome::BadProduction { production } => RunState {
                    status: RunStatus::BadProduction(production),
                    ..st1
                },
                StepOutcome::OutOfTable { state, .. } => RunState {
                    stack: stack2,
                    status: RunStatus::OutOfTable(state),
                    ..st1
                },
            }
        },
    }
}

/// At most `fuel` iterations of the driver, stopping once it no longer runs.
pub open spec fn run(p: &LRParser, input: Seq<TerminalId>, st: RunState, fuel: nat) -> RunState
    decreases fuel,
{
    if fuel == 0 || !(st.status is Running) {
        st
    } else {
        run(p, input, iterate(p, input, st), (fuel - 1) as nat)
    }
}

/// The driver on `tokens` followed by the end marker, for at most `usize::MAX` iterations.
pub open spec fn parse_run(p: &LRParser, tokens: Seq<TerminalId>) -> RunState {
    run(p, tokens.push(p.spec_end()), initial_run(), usize::MAX as nat)
}

/// The terminals that have an action in state `s`, among the first `n` columns.
pub open spec fn expected_upto(row: Seq<Action>, n: nat) -> Seq<TerminalId>
    decreases n,
{
    if n == 0 {
        Seq::empty()
    } else {
        let prev = expected_upto(row, (n - 1) as nat);
        if !(row[n - 1] is Error) {
            prev.push(TerminalId((n - 1) as usize))
        } else {
            prev
        }
    }
}

/// The terminals (and the end marker) that have an action in state `s`.
pub open spec fn spec_expected(p: &LRParser, s: ItemSetId) -> Seq<TerminalId> {
    expected_upto(p.spec_table().spec_action().cells()[s.0 as int], (p.spec_end().0 + 1) as nat)
}

/// The text of a terminal in a trace: `t` and its number.
pub open spec fn term_text(t: TerminalId) -> Seq<char> {
    seq!['t'] + decimal(t.0 as nat)
}

/// The text of the remaining input in a trace.
pub open spec fn input_text(ts: Seq<TerminalId>) -> Seq<char> {
    join(ts.map_values(|t: TerminalId| term_text(t)), seq![' '])
}

/// The action text of a trace line.
pub open spec fn step_action_text(v: TraceView) -> Seq<char> {
    if v.accepted {
        "Accept"@
    } else {
        "State "@ + decimal(v.state.0 as nat) + ", Token "@ + decimal(v.token.0 as nat)
    }
}

/// A trace line shows the recorded step.
pub open spec fn step_matches(s: ParseStep, v: TraceView, input: Seq<TerminalId>) -> bool {
    &&& s.step == v.step
    &&& views(s.stack@) == v.stack.map_values(|x: StackSymbol| stack_symbol_text(x))
    &&& s.input@ == input_text(input.skip(v.pos))
    &&& s.action@ == step_action_text(v)
}

/// An error shows the recorded error.
pub open spec fn error_matches(p: &LRParser, e: LRError, v: ErrorView) -> bool {
    &&& e.context is None
    &&& match v {
        ErrorView::Unexpected { found, state, pos } => {
            &&& e.kind matches LRErrorKind::UnexpectedToken { expected, found: f, state: s }
            &&& expected@ == spec_expected(p, state) && f == found && s == state
            &&& e.position == Some(pos as usize)
        },
        ErrorView::UnexpectedEnd { state, pos } => {
            &&& e.kind matches LRErrorKind::UnexpectedEndOfInput { expected, state: s }
            &&& expected@ == spec_expected(p, state) && s == state
            &&& e.position == Some(pos as usize)
        },
        ErrorView::InvalidState { state } => e.kind == LRErrorKind::InvalidState { state } && e.position is None,
    }
}

/// The text of a reduction in the list of derivations.
pub open spec fn derivation_text(g: &ContextFreeGrammar, lhs: NonTerminalId) -> Seq<char> {
    g.spec_non_terminal_name(lhs) + " -> ..."@
}

/// The result shows the final state of the driver.
pub open spec fn result_matches(p: &LRParser, input: Seq<TerminalId>, r: &ParseResult, st: RunState) -> bool {
    &&& r.success == (st.errors.len() == 0)
    &&& r.errors@.len() == st.errors.len()
    &&& forall|i: int| 0 <= i < st.errors.len() ==> #[trigger] error_matches(p, r.errors@[i], st.errors[i])
    &&& views(r.derivations@) == st.derivations.map_values(
        |n: NonTerminalId| derivation_text(&p.spec_augmented().spec_grammar(), n),
    )
    &&& r.trace.spec_steps().len() == st.trace.len()
    &&& forall|i: int| 0 <= i < st.trace.len() ==> #[trigger] step_matches(r.trace.spec_steps()[i], st.trace[i], input)
}

/// An LR parser for a grammar.
pub struct LRParser {
    table: LRTable,
    augmented: AugmentedGrammar,
    config: LRParserConfig,
    token_mapper: TokenMapper,
}

impl LRParser {
    #[verifier::type_invariant]
    spec fn end_fits(&self) -> bool {
        self.token_mapper.spec_end_marker().0 == self.table.spec_action().terminals()
    }

    pub closed spec fn spec_table(&self) -> LRTable {
        self.table
    }

    pub closed spec fn spec_augmented(&self) -> AugmentedGrammar {
        self.augmented
    }

    pub closed spec fn spec_config(&self) -> LRParserConfig {
        self.config
    }

    /// The end marker: the id one past the last terminal.
    pub closed spec fn spec_end(&self) -> TerminalId {
        self.token_mapper.spec_end_marker()
    }

    /// The names of the terminals with their ids, as tokens are looked up.
    pub closed spec fn spec_token_map(&self) -> Seq<(String, TerminalId)> {
        self.token_mapper.spec_map()
    }

    /// A parser with the default configuration (see `with_config`).
    pub fn new(cfg: ContextFreeGrammar) -> (res: Result<Self, LRError>)
        requires
            cfg.wf(),
            cfg.non_terminals.len() + 1 < usize::MAX,
        ensures
            built(&cfg, LRParserConfig::default_spec(), res),
    {
        let config = LRParserConfig {
            grammar_type: LRGrammarType::SLR1,
            error_recovery: false,
            max_errors: 10,
            trace: false,
        };
        Self::with_config(cfg, config)
    }

    /// Augments `cfg` and builds the table of the configured class. Fails with the
    /// table's conflicts when there are any, and on a class no table is built for.
    pub fn with_config(cfg: ContextFreeGrammar, config: LRParserConfig) -> (res: Result<Self, LRError>)
        requires
            cfg.wf(),
            cfg.non_terminals.len() + 1 < usize::MAX,
        ensures
            built(&cfg, config, res),
    {
        let ghost original = cfg;
        let augmented = AugmentedGrammar::new(cfg);
        let end_marker = TerminalId(augmented.terminals().len());
        let names = clone_names(&augmented.grammar().terminals);
        let token_mapper = TokenMapper::new(augmented.terminal_map(), names, end_marker);
        let ghost g = augmented.spec_grammar();
        let table = match config.grammar_type {
            LRGrammarType::LR0 => {
                let t = LR0TableBuilder::build(&augmented);
                if t.has_conflicts() {
                    let err = LRError::conflict(copy_conflicts(&t.conflicts));
                    proof {
                        assert(builds(&g, config.grammar_type, &LRTable::LR0(t)));
                    }
                    return Err(err);
                }
                LRTable::LR0(t)
            },
            LRGrammarType::SLR1 => {
                let t = SLRTableBuilder::build(&augmented);
                if t.has_conflicts() {
                    let err = LRError::conflict(copy_conflicts(&t.conflicts));
                    proof {
                        assert(builds(&g, config.grammar_type, &LRTable::SLR1(t)));
                    }
                    return Err(err);
                }
                LRTable::SLR1(t)
            },
            LRGrammarType::LR1 => {
                let t = LR1TableBuilder::build(&augmented);
                if t.has_conflicts() {
                    let err = LRError::conflict(copy_conflicts(&t.conflicts));
                    proof {
                        assert(builds(&g, config.grammar_type, &LRTable::LR1(t)));
                    }
                    return Err(err);
                }
                LRTable::LR1(t)
            },
            LRGrammarType::LALR1 => {
                let t = LALR1TableBuilder::build(&augmented);
                if t.has_conflicts() {
                    let err = LRError::conflict(copy_conflicts(&t.conflicts));
                    proof {
                        assert(builds(&g, config.grammar_type, &LRTable::LALR1(t)));
                    }
                    return Err(err);
                }
                LRTable::LALR1(t)
            },
            _ => {
                let mut message = String::new();
                push_str(&mut message, "Unsupported grammar type: ");
                push_str(&mut message, config.grammar_type.name());
                proof {
                    reveal_strlit("Unsupported grammar type: ");
                }
                return Err(LRError::invalid_grammar(message));
            },
        };
        proof {
            assert(builds(&g, config.grammar_type, &table));
            lemma_built_terminals(&g, config.grammar_type, &table);
        }
        Ok(LRParser { table, augmented, config, token_mapper })
    }

    /// One step of the driver (see `spec_step`).
    fn step(&self, stack: &mut LRStack, input: &Vec<TerminalId>, position: usize) -> (res: StepOutcome)
        ensures
            res == spec_step(self, old(stack)@, input@, position as int),
            final(stack)@ == stack_after(old(stack)@, res),
    {
        let action_table = self.table.action();
        let goto_table = self.table.goto();
        let end = self.token_mapper.end_marker();
        let current_state = match stack.top_state() {
            Some(s) => s,
            None => {
                return StepOutcome::Underflow { pop: 0 };
            },
        };
        let current_token = if position < input.len() {
            input[position]
        } else {
            end
        };
        if current_state.0 >= action_table.state_count() || current_token.0 > action_table.terminal_count() {
            return StepOutcome::OutOfTable { state: current_state, pop: 0 };
        }
        match *action_table.get(current_state, current_token) {
            Action::Shift(next_state) => {
                stack.push_terminal(current_token);
                stack.push_state(next_state);
                StepOutcome::Shift { token: current_token, target: next_state }
            },
            Action::Reduce(production_id) => {
                let production = match self.augmented.get_production(production_id.0) {
                    Some(p) => p,
                    None => {
                        return StepOutcome::BadProduction { production: production_id };
                    },
                };
                let rhs_len = if production.is_epsilon() {
                    0
                } else {
                    production.rhs.len()
                };
                let height = stack.len();
                let pop = if rhs_len <= height / 2 {
                    rhs_len * 2
                } else {
                    height
                };
                let ghost before = stack@;
                let popped = stack.pop_n(pop);
                assert(stack@ == before.subrange(0, before.len() - pop));
                let top_state = match stack.top_state() {
                    Some(s) => s,
                    None => {
                        return StepOutcome::Underflow { pop };
                    },
                };
                if top_state.0 >= goto_table.state_count() {
                    return StepOutcome::OutOfTable { state: top_state, pop };
                }
                match goto_table.get(top_state, production.lhs) {
                    Some(next_state) => {
                        stack.push_non_terminal(production.lhs);
                        stack.push_state(next_state);
                        StepOutcome::Reduce { production: production_id, lhs: production.lhs, pop, target: next_state }
                    },
                    None => StepOutcome::GotoMissing { state: top_state, pop },
                }
            },
            Action::Accept => StepOutcome::Accept,
            Action::Error => StepOutcome::Reject { state: current_state, token: current_token },
        }
    }

    /// The terminals (and the end marker) that have an action in `state`.
    fn get_expected_terminals(&self, state: ItemSetId) -> (res: Vec<TerminalId>)
        requires
            state.0 < self.spec_table().spec_action().cells().len(),
        ensures
            res@ == spec_expected(self, state),
    {
        proof {
            use_type_invariant(self);
        }
        let action_table = self.table.action();
        let end = self.token_mapper.end_marker();
        let limit = action_table.terminal_count() + 1;
        let mut expected: Vec<TerminalId> = Vec::new();
        let mut term_idx: usize = 0;
        while term_idx < limit
            invariant
                *action_table == self.spec_table().spec_action(),
                end == self.spec_end(),
                end.0 == action_table.terminals(),
                limit == end.0 + 1,
                state.0 < action_table.cells().len(),
                term_idx <= limit,
                expected@ == expected_upto(action_table.cells()[state.0 as int], term_idx as nat),
            decreases limit - term_idx,
        {
            let terminal = TerminalId(term_idx);
            let action = action_table.get(state, terminal);
            if !action.is_error() {
                expected.push(terminal);
            }
            term_idx = term_idx + 1;
        }
        expected
    }

    pub fn table(&self) -> (res: &LRTable)
        ensures
            *res == self.spec_table(),
    {
        &self.table
    }

    /// The augmented grammar.
    pub fn grammar(&self) -> (res: &ContextFreeGrammar)
        ensures
            *res == self.spec_augmented().spec_grammar(),
    {
        self.augmented.grammar()
    }

    pub fn config(&self) -> (res: &LRParserConfig)
        ensures
            *res == self.spec_config(),
    {
        &self.config
    }

    pub fn set_config(&mut self, config: LRParserConfig)
        ensures
            final(self).spec_config() == config,
            final(self).spec_table() == old(self).spec_table(),
            final(self).spec_augmented() == old(self).spec_augmented(),
            final(self).spec_end() == old(self).spec_end(),
    {
        proof {
            use_type_invariant(&*self);
        }
        self.config = config;
    }
}

/// The texts of the stack entries, bottom first.
fn stack_strings(stack: &LRStack) -> (res: Vec<String>)
    ensures
        views(res@) == stack@.map_values(|x: StackSymbol| stack_symbol_text(x)),
{
    let symbols = stack.symbols();
    let mut res: Vec<String> = Vec::new();
    let mut i: usize = 0;
    while i < symbols.len()
        invariant
            i <= symbols@.len(),
            symbols@ == stack@,
            views(res@) =~= symbols@.take(i as int).map_values(|x: StackSymbol| stack_symbol_text(x)),
        decreases symbols@.len() - i,
    {
        let t = symbols[i].to_string();
        let ghost before = res@;
        res.push(t);
        proof {
            assert(views(res@) =~= views(before).push(t@));
            assert(symbols@.take(i + 1) =~= symbols@.take(i as int).push(symbols@[i as int]));
        }
        i = i + 1;
    }
    assert(symbols@.take(symbols@.len() as int) =~= symbols@);
    res
}

/// The text of a terminal in a trace.
fn term_string(t: TerminalId) -> (res: String)
    ensures
        res@ == term_text(t),
{
    let mut s = String::new();
    push_str(&mut s, "t");
    push_usize(&mut s, t.0);
    proof {
        reveal_strlit("t");
        assert(s@ =~= term_text(t));
    }
    s
}

/// The text of the input from `pos` on.
fn input_string(input: &Vec<TerminalId>, pos: usize) -> (res: String)
    requires
        pos <= input@.len(),
    ensures
        res@ == input_text(input@.skip(pos as int)),
{
    let ghost rest = input@.skip(pos as int);
    let mut parts: Vec<String> = Vec::new();
    let mut i: usize = pos;
    while i < input.len()
        invariant
            pos <= i <= input@.len(),
            rest == input@.skip(pos as int),
            views(parts@) =~= rest.take(i - pos).map_values(|t: TerminalId| term_text(t)),
        decreases input@.len() - i,
    {
        let t = term_string(input[i]);
        let ghost before = parts@;
        parts.push(t);
        proof {
            assert(views(parts@) =~= views(before).push(t@));
            assert(rest.take(i + 1 - pos) =~= rest.take(i - pos).push(rest[i - pos]));
        }
        i = i + 1;
    }
    assert(rest.take(input@.len() - pos) =~= rest);
    let res = join_strings(&parts, " ");
    proof {
        reveal_strlit(" ");
        assert(" "@ =~= seq![' ']);
        assert(views(parts@) == rest.map_values(|t: TerminalId| term_text(t)));
    }
    res
}

/// The action text of a trace line before the step is taken.
fn state_token_string(s: ItemSetId, t: TerminalId) -> (res: String)
    ensures
        res@ == "State "@ + decimal(s.0 as nat) + ", Token "@ + decimal(t.0 as nat),
{
    let mut r = String::new();
    push_str(&mut r, "State ");
    push_usize(&mut r, s.0);
    push_str(&mut r, ", Token ");
    push_usize(&mut r, t.0);
    proof {
        assert(r@ =~= "State "@ + decimal(s.0 as nat) + ", Token "@ + decimal(t.0 as nat));
    }
    r
}

/// Once a trace line was due past the end of the input, that stays recorded.
/// Without a trace, the driver's run never overruns and records no trace line
/// and no derivation.
proof fn lemma_run_untraced(p: &LRParser, input: Seq<TerminalId>, st: RunState, fuel: nat)
    requires
        !p.spec_config().trace,
        !st.overrun,
    ensures
        !run(p, input, st, fuel).overrun,
        run(p, input, st, fuel).trace == st.trace,
        run(p, input, st, fuel).derivations == st.derivations,
    decreases fuel,
{
    if fuel > 0 && st.status is Running {
        lemma_run_untraced(p, input, iterate(p, input, st), (fuel - 1) as nat);
    }
}

/// A parser without a trace accepts every input for `parse`, and its run records
/// no trace line and no derivation.
pub proof fn lemma_untraced_parse(p: &LRParser, tokens: Seq<TerminalId>)
    requires
        !p.spec_config().trace,
    ensures
        !parse_run(p, tokens).overrun,
        parse_run(p, tokens).trace.len() == 0,
        parse_run(p, tokens).derivations.len() == 0,
{
    lemma_run_untraced(p, tokens.push(p.spec_end()), initial_run(), usize::MAX as nat);
}

proof fn lemma_run_overrun(p: &LRParser, input: Seq<TerminalId>, st: RunState, fuel: nat)
    requires
        st.overrun,
    ensures
        run(p, input, st, fuel).overrun,
    decreases fuel,
{
    if fuel > 0 && st.status is Running {
        lemma_run_overrun(p, input, iterate(p, input, st), (fuel - 1) as nat);
    }
}

/// `res` is what `parse` gives on `tokens`: the result of the driver's run, or
/// the error that stopped it.
pub open spec fn parse_outcome(p: &LRParser, tokens: Seq<TerminalId>, res: Result<ParseResult, LRError>) -> bool {
    let fin = parse_run(p, tokens);
    match fin.status {
        RunStatus::Underflow => res matches Err(e) && e.kind == LRErrorKind::StackUnderflow
            && e.position is None && e.context is None,
        RunStatus::BadProduction(pid) => res matches Err(e) && e.position is None && e.context is None
            && (e.kind matches LRErrorKind::InvalidGrammar { message } && message@ == bad_production_text(pid)),
        RunStatus::OutOfTable(s) => res matches Err(e) && e.kind == (LRErrorKind::InvalidState { state: s })
            && e.position is None && e.context is None,
        _ => res matches Ok(r) && result_matches(p, tokens.push(p.spec_end()), &r, fin),
    }
}

impl LRParser {
    /// Runs the driver on `tokens` followed by the end marker (see `parse_run`): shifts
    /// and reductions by the table until it accepts, stops on an error (or, with error
    /// recovery, on too many errors) or fails. The input must not lead the driver to
    /// a trace line past its end (see `try_parse`).
    pub fn parse(&self, tokens: &[TerminalId]) -> (res: Result<ParseResult, LRError>)
        requires
            !parse_run(self, tokens@).overrun,
        ensures
            parse_outcome(self, tokens@, res),
    {
        match self.try_parse(tokens) {
            Some(r) => r,
            None => Err(LRError::stack_underflow()),
        }
    }

    /// Maps the tokens to terminals (see `TokenMapper::tokenize`) and parses them:
    /// the error for the first unknown token, or what `parse` gives.
    pub fn parse_tokens(&self, tokens: &[Token]) -> (res: Result<ParseResult, LRError>)
        requires
            all_known(self.spec_token_map(), self.spec_end(), tokens@) ==> !parse_run(
                self,
                mapped_ids(self.spec_token_map(), self.spec_end(), tokens@),
            ).overrun,
        ensures
            all_known(self.spec_token_map(), self.spec_end(), tokens@) ==> parse_outcome(
                self,
                mapped_ids(self.spec_token_map(), self.spec_end(), tokens@),
                res,
            ),
            !all_known(self.spec_token_map(), self.spec_end(), tokens@) ==> (res matches Err(e)
                && unknown_token_error(self.spec_token_map(), self.spec_end(), tokens@, e)),
    {
        match self.token_mapper.tokenize(tokens) {
            Ok(ids) => self.parse(ids.as_slice()),
            Err(e) => Err(e),
        }
    }

    /// `parse` on any input: `None` exactly when the driver would write a trace
    /// line while past the end of the input, which `parse` rules out.
    pub fn try_parse(&self, tokens: &[TerminalId]) -> (res: Option<Result<ParseResult, LRError>>)
        ensures
            res is None <==> parse_run(self, tokens@).overrun,
            res matches Some(r) ==> parse_outcome(self, tokens@, r),
    {
        let end = self.token_mapper.end_marker();
        let mut input: Vec<TerminalId> = Vec::new();
        let mut k: usize = 0;
        while k < tokens.len()
            invariant
                k <= tokens@.len(),
                input@ == tokens@.take(k as int),
            decreases tokens@.len() - k,
        {
            input.push(tokens[k]);
            assert(tokens@.take(k + 1) =~= tokens@.take(k as int).push(tokens@[k as int]));
            k = k + 1;
        }
        assert(tokens@.take(tokens@.len() as int) =~= tokens@);
        input.push(end);
        let ghost inp = input@;
        let ghost fin = parse_run(self, tokens@);
        let ghost g = self.augmented.spec_grammar();
        let mut result = ParseResult::new();
        let mut stack = LRStack::new(ItemSetId(0));
        let mut position: usize = 0;
        let mut step_count: usize = 0;
        let mut remaining: usize = usize::MAX;
        let ghost mut st = initial_run();
        assert(views(result.derivations@) =~= st.derivations.map_values(
            |n: NonTerminalId| derivation_text(&self.spec_augmented().spec_grammar(), n),
        ));
        assert(result_matches(self, inp, &result, st));
        while remaining > 0
            invariant_except_break
                st.status is Running,
            invariant
                inp == tokens@.push(self.spec_end()),
                input@ == inp,
                end == self.spec_end(),
                g == self.spec_augmented().spec_grammar(),
                fin == run(self, inp, st, remaining as nat),
                fin == parse_run(self, tokens@),
                !st.overrun,
                st.status is Running || st.status is Accepted || st.status is Stopped,
                stack@ == st.stack,
                position == st.pos,
                step_count == st.step_count,
                position <= usize::MAX - remaining,
                step_count <= usize::MAX - remaining,
                result_matches(self, inp, &result, st),
            ensures
                !(st.status is Running) || remaining == 0,
            decreases remaining,
        {
            let ghost st0 = st;
            let ghost next = iterate(self, inp, st0);
            assert(fin == run(self, inp, next, (remaining - 1) as nat));
            let current_state = match stack.top_state() {
                Some(s) => s,
                None => {
                    assert(next.status is Underflow);
                    assert(run(self, inp, next, (remaining - 1) as nat) == next);
                    return Some(Err(LRError::stack_underflow()));
                },
            };
            if self.config.trace && position > input.len() {
                proof {
                    assert(next.overrun);
                    lemma_run_overrun(self, inp, next, (remaining - 1) as nat);
                }
                return None;
            }
            let current_token = if position < input.len() {
                input[position]
            } else {
                end
            };
            let ghost tv = TraceView {
                step: st0.step_count,
                stack: st0.stack,
                pos: st0.pos,
                state: current_state,
                token: current_token,
                accepted: false,
            };
            if self.config.trace {
                let stack_str = stack_strings(&stack);
                let input_str = input_string(&input, position);
                let action_str = state_token_string(current_state, current_token);
                result.trace.add_step(ParseStep { step: step_count, stack: stack_str, input: input_str, action: action_str });
                proof {
                    assert(step_matches(result.trace.spec_steps().last(), tv, inp));
                }
            }
            let out = self.step(&mut stack, &input, position);
            match out {
                StepOutcome::Shift { .. } => {
                    position = position + 1;
                    step_count = step_count + 1;
                },
                StepOutcome::Reduce { lhs, .. } => {
                    if self.config.trace {
                        let mut line = String::new();
                        push_str(&mut line, self.augmented.get_non_terminal_name(lhs));
                        push_str(&mut line, " -> ...");
                        let ghost before = result.derivations@;
                        result.derivations.push(line);
                        proof {
                            reveal_strlit(" -> ...");
                            assert(views(result.derivations@) =~= views(before).push(line@));
                        }
                    }
                    step_count = step_count + 1;
                },
                StepOutcome::Accept => {
                    if self.config.trace {
                        let mut text = String::new();
                        push_str(&mut text, "Accept");
                        result.trace.set_last_action(text);
                        proof {
                            reveal_strlit("Accept");
                        }
                    }
                    proof {
                        st = next;
                    }
                    remaining = remaining - 1;
                    break;
                },
                StepOutcome::Reject { state, token } => {
                    let expected = self.get_expected_terminals(state);
                    let error = if token == end {
                        LRError::unexpected_end(expected, state)
                    } else {
                        LRError::unexpected_token(expected, token, state)
                    };
                    result.add_error(error.with_position(position));
                    if !self.config.error_recovery || result.errors.len() >= self.config.max_errors {
                        proof {
                            st = next;
                        }
                        remaining = remaining - 1;
                        break;
                    }
                    position = position + 1;
                },
                StepOutcome::GotoMissing { state, .. } => {
                    result.add_error(LRError::invalid_state(state));
                    proof {
                        st = next;
                    }
                    remaining = remaining - 1;
                    break;
                },
                StepOutcome::Underflow { .. } => {
                    return Some(Err(LRError::stack_underflow()));
                },
                StepOutcome::BadProduction { production } => {
                    let mut message = String::new();
                    push_str(&mut message, "Invalid production index: ");
                    push_usize(&mut message, production.0);
                    proof {
                        reveal_strlit("Invalid production index: ");
                        assert(next.status == RunStatus::BadProduction(production));
                        assert(run(self, inp, next, (remaining - 1) as nat) == next);
                    }
                    return Some(Err(LRError::invalid_grammar(message)));
                },
                StepOutcome::OutOfTable { state, .. } => {
                    return Some(Err(LRError::invalid_state(state)));
                },
            }
            proof {
                st = next;
                assert(result.success == (st.errors.len() == 0));
                assert(result.errors@.len() == st.errors.len());
                assert(forall|i: int| 0 <= i < st.errors.len() ==> #[trigger] error_matches(self, result.errors@[i], st.errors[i]));
                assert(views(result.derivations@) == st.derivations.map_values(
                    |n: NonTerminalId| derivation_text(&self.spec_augmented().spec_grammar(), n),
                ));
                assert(result.trace.spec_steps().len() == st.trace.len());
                assert(forall|i: int| 0 <= i < st.trace.len() ==> #[trigger] step_matches(result.trace.spec_steps()[i], st.trace[i], inp));
            }
            remaining = remaining - 1;
        }
        Some(Ok(result))
    }
}

impl LRParserConfig {
    /// The default configuration.
    pub open spec fn default_spec() -> LRParserConfig {
        LRParserConfig { grammar_type: LRGrammarType::SLR1, error_recovery: false, max_errors: 10, trace: false }
    }
}

/// `res` is what building a parser for `cfg` with `config` gives.
pub open spec fn built(cfg: &ContextFreeGrammar, config: LRParserConfig, res: Result<LRParser, LRError>) -> bool {
    match res {
        Ok(p) => {
            &&& supported(config.grammar_type)
            &&& augments(cfg, &p.spec_augmented())
            &&& p.spec_config() == config
            &&& builds(&p.spec_augmented().spec_grammar(), config.grammar_type, &p.spec_table())
            &&& p.spec_table().spec_conflicts().len() == 0
            &&& p.spec_end() == TerminalId(cfg.terminals.len())
        },
        Err(e) => {
            &&& e.position is None
            &&& e.context is None
            &&& if supported(config.grammar_type) {
                exists|a: AugmentedGrammar, t: LRTable|
                    {
                        &&& augments(cfg, &a)
                        &&& builds(&a.spec_grammar(), config.grammar_type, &t)
                        &&& t.spec_conflicts().len() > 0
                        &&& e.kind matches LRErrorKind::ConflictDetected { conflicts }
                        &&& conflicts@ == t.spec_conflicts()
                    }
            } else {
                e.kind matches LRErrorKind::InvalidGrammar { message } && message@ == unsupported_text(
                    config.grammar_type,
                )
            }
        },
    }
}

/// A built table has one ACTION column per terminal of `g`, plus the end marker.
proof fn lemma_built_terminals(g: &ContextFreeGrammar, kind: LRGrammarType, t: &LRTable)
    requires
        builds(g, kind, t),
    ensures
        t.spec_action().terminals() == g.terminals.len(),
{
}

} // verus!
