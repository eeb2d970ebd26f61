//! Printed forms of conflicts, errors, tables and parse traces.
use vstd::prelude::*;
use crate::cfg::{Symbol, TerminalId};
use crate::lr::action::{action_text, Action, ActionTable};
use crate::lr::augmented::AugmentedGrammar;
use crate::lr::conflict::{Conflict, ConflictKind, ConflictReport};
use crate::lr::display::symbol_name;
use crate::lr::error::{LRError, LRErrorKind, LRValidationError, LRValidationReport};
use crate::lr::goto::{GotoTable, ItemSetId};
use crate::lr::grammar_type::LRGrammarType;
use crate::lr::parser::{ParseStep, ParseTrace};
use crate::lr::table::{LALR1Table, LR0Table, LR1Table, SLRTable};
use crate::lr::table_builders::LrTableCore;
use crate::text::{decimal, join, join_strings, push_str, push_usize, views};

verus! {

/// `n` blanks.
pub open spec fn blanks(n: nat) -> Seq<char> {
    Seq::new(n, |i: int| ' ')
}

/// `x` right-aligned in a field of width `w`.
pub open spec fn pad_left(x: Seq<char>, w: nat) -> Seq<char> {
    if x.len() < w {
        blanks((w - x.len()) as nat) + x
    } else {
        x
    }
}

/// `x` left-aligned in a field of width `w`.
pub open spec fn pad_right(x: Seq<char>, w: nat) -> Seq<char> {
    if x.len() < w {
        x + blanks((w - x.len()) as nat)
    } else {
        x
    }
}

pub(crate) fn push_blanks(s: &mut String, n: usize)
    ensures
        final(s)@ == old(s)@ + blanks(n as nat),
{
    let ghost start = s@;
    let mut i: usize = 0;
    while i < n
        invariant
            i <= n,
            s@ == start + blanks(i as nat),
        decreases n - i,
    {
        push_str(s, " ");
        proof {
            reveal_strlit(" ");
        }
        assert(blanks((i + 1) as nat) =~= blanks(i as nat) + " "@);
        i = i + 1;
    }
}

/// Appends `t` right-aligned in a field of width `w`.
pub(crate) fn push_pad_left(s: &mut String, t: &str, w: usize)
    ensures
        final(s)@ == old(s)@ + pad_left(t@, w as nat),
{
    let n = t.unicode_len();
    if n < w {
        push_blanks(s, w - n);
    }
    push_str(s, t);
    proof {
        assert(final(s)@ =~= old(s)@ + pad_left(t@, w as nat));
    }
}

/// Appends `t` left-aligned in a field of width `w`.
pub(crate) fn push_pad_right(s: &mut String, t: &str, w: usize)
    ensures
        final(s)@ == old(s)@ + pad_right(t@, w as nat),
{
    let n = t.unicode_len();
    push_str(s, t);
    if n < w {
        push_blanks(s, w - n);
    }
    proof {
        assert(final(s)@ =~= old(s)@ + pad_right(t@, w as nat));
    }
}

use vstd::string::StrSliceExecFns;

/// The printed form of a conflict.
pub open spec fn conflict_text(c: Conflict) -> Seq<char> {
    "State "@ + decimal(c.state.0 as nat) + ": "@ + match c.kind {
        ConflictKind::ShiftReduce { terminal, shift_state, reduce_production } => "Shift/Reduce conflict on terminal "@
            + decimal(terminal.0 as nat) + ": shift to state "@ + decimal(shift_state.0 as nat)
            + " or reduce by production "@ + decimal(reduce_production.0 as nat),
        ConflictKind::ReduceReduce { terminal, production1, production2 } => "Reduce/Reduce conflict on terminal "@
            + decimal(terminal.0 as nat) + ": reduce by production "@ + decimal(production1.0 as nat) + " or "@
            + decimal(production2.0 as nat),
    }
}

/// Each conflict on its own line, indented by two blanks.
pub open spec fn conflict_lines(cs: Seq<Conflict>) -> Seq<char>
    decreases cs.len(),
{
    if cs.len() == 0 {
        Seq::empty()
    } else {
        conflict_lines(cs.drop_last()) + "  "@ + conflict_text(cs.last()) + "\n"@
    }
}

impl Conflict {
    /// The printed form (see `conflict_text`).
    pub fn to_string(&self) -> (res: String)
        ensures
            res@ == conflict_text(*self),
    {
        let mut s = String::new();
        push_str(&mut s, "State ");
        push_usize(&mut s, self.state.0);
        push_str(&mut s, ": ");
        match self.kind {
            ConflictKind::ShiftReduce { terminal, shift_state, reduce_production } => {
                push_str(&mut s, "Shift/Reduce conflict on terminal ");
                push_usize(&mut s, terminal.0);
                push_str(&mut s, ": shift to state ");
                push_usize(&mut s, shift_state.0);
                push_str(&mut s, " or reduce by production ");
                push_usize(&mut s, reduce_production.0);
            },
            ConflictKind::ReduceReduce { terminal, production1, production2 } => {
                push_str(&mut s, "Reduce/Reduce conflict on terminal ");
                push_usize(&mut s, terminal.0);
                push_str(&mut s, ": reduce by production ");
                push_usize(&mut s, production1.0);
                push_str(&mut s, " or ");
                push_usize(&mut s, production2.0);
            },
        }
        proof {
            assert(s@ =~= conflict_text(*self));
        }
        s
    }
}

pub(crate) fn push_conflict_lines(s: &mut String, cs: &Vec<Conflict>)
    ensures
        final(s)@ == old(s)@ + conflict_lines(cs@),
{
    let ghost start = s@;
    let mut i: usize = 0;
    while i < cs.len()
        invariant
            i <= cs@.len(),
            s@ == start + conflict_lines(cs@.take(i as int)),
        decreases cs@.len() - i,
    {
        push_str(s, "  ");
        let t = cs[i].to_string();
        push_str(s, t.as_str());
        push_str(s, "\n");
        proof {
            assert(cs@.take(i + 1).drop_last() =~= cs@.take(i as int));
            assert(s@ =~= start + conflict_lines(cs@.take(i + 1)));
        }
        i = i + 1;
    }
    assert(cs@.take(cs@.len() as int) =~= cs@);
}

/// The printed form of a conflict report.
pub open spec fn report_text(r: &ConflictReport) -> Seq<char> {
    if r.conflicts@.len() == 0 {
        "No conflicts detected.\n"@
    } else {
        "Detected "@ + decimal(r.conflicts@.len()) + " conflict(s):\n"@ + "  Shift/Reduce: "@ + decimal(
            r.shift_reduce_count as nat,
        ) + "\n"@ + "  Reduce/Reduce: "@ + decimal(r.reduce_reduce_count as nat) + "\n"@ + "\n"@ + conflict_lines(
            r.conflicts@,
        )
    }
}

impl ConflictReport {
    /// The printed form (see `report_text`).
    pub fn to_string(&self) -> (res: String)
        ensures
            res@ == report_text(self),
    {
        let mut s = String::new();
        if self.conflicts.len() == 0 {
            push_str(&mut s, "No conflicts detected.\n");
        } else {
            push_str(&mut s, "Detected ");
            push_usize(&mut s, self.conflicts.len());
            push_str(&mut s, " conflict(s):\n");
            push_str(&mut s, "  Shift/Reduce: ");
            push_usize(&mut s, self.shift_reduce_count);
            push_str(&mut s, "\n");
            push_str(&mut s, "  Reduce/Reduce: ");
            push_usize(&mut s, self.reduce_reduce_count);
            push_str(&mut s, "\n");
            push_str(&mut s, "\n");
            push_conflict_lines(&mut s, &self.conflicts);
        }
        proof {
            assert(s@ =~= report_text(self));
        }
        s
    }
}

/// The debug form of a list of terminals: `[TerminalId(0), TerminalId(1)]`.
pub open spec fn terminals_debug(ts: Seq<TerminalId>) -> Seq<char> {
    "["@ + join(ts.map_values(|t: TerminalId| "TerminalId("@ + decimal(t.0 as nat) + ")"@), ", "@) + "]"@
}

fn push_terminals_debug(s: &mut String, ts: &Vec<TerminalId>)
    ensures
        final(s)@ == old(s)@ + terminals_debug(ts@),
{
    let mut parts: Vec<String> = Vec::new();
    let mut i: usize = 0;
    while i < ts.len()
        invariant
            i <= ts@.len(),
            views(parts@) =~= ts@.take(i as int).map_values(
                |t: TerminalId| "TerminalId("@ + decimal(t.0 as nat) + ")"@,
            ),
        decreases ts@.len() - i,
    {
        let mut p = String::new();
        push_str(&mut p, "TerminalId(");
        push_usize(&mut p, ts[i].0);
        push_str(&mut p, ")");
        let ghost before = parts@;
        parts.push(p);
        proof {
            assert(views(parts@) =~= views(before).push(p@));
            assert(ts@.take(i + 1) =~= ts@.take(i as int).push(ts@[i as int]));
        }
        i = i + 1;
    }
    assert(ts@.take(ts@.len() as int) =~= ts@);
    let body = join_strings(&parts, ", ");
    push_str(s, "[");
    push_str(s, body.as_str());
    push_str(s, "]");
    proof {
        assert(final(s)@ =~= old(s)@ + terminals_debug(ts@));
    }
}

/// The printed form of an error kind.
pub open spec fn error_kind_text(k: LRErrorKind) -> Seq<char> {
    match k {
        LRErrorKind::UnexpectedToken { expected, found, state } => "Unexpected token "@ + decimal(found.0 as nat)
            + " in state "@ + decimal(state.0 as nat) + ". Expected one of: "@ + terminals_debug(expected@),
        LRErrorKind::UnexpectedEndOfInput { expected, state } => "Unexpected end of input in state "@ + decimal(
            state.0 as nat,
        ) + ". Expected one of: "@ + terminals_debug(expected@),
        LRErrorKind::NoAction { state, terminal } => "No action defined for terminal "@ + decimal(terminal.0 as nat)
            + " in state "@ + decimal(state.0 as nat),
        LRErrorKind::ConflictDetected { conflicts } => "Grammar has "@ + decimal(conflicts@.len())
            + " conflict(s):\n"@ + conflict_lines(conflicts@),
        LRErrorKind::InvalidGrammar { message } => "Invalid grammar: "@ + message@,
        LRErrorKind::StackUnderflow => "Parser stack underflow"@,
        LRErrorKind::InvalidState { state } => "Invalid state: "@ + decimal(state.0 as nat),
    }
}

impl LRErrorKind {
    /// The printed form (see `error_kind_text`).
    pub fn to_string(&self) -> (res: String)
        ensures
            res@ == error_kind_text(*self),
    {
        let mut s = String::new();
        match self {
            LRErrorKind::UnexpectedToken { expected, found, state } => {
                push_str(&mut s, "Unexpected token ");
                push_usize(&mut s, found.0);
                push_str(&mut s, " in state ");
                push_usize(&mut s, state.0);
                push_str(&mut s, ". Expected one of: ");
                push_terminals_debug(&mut s, expected);
            },
            LRErrorKind::UnexpectedEndOfInput { expected, state } => {
                push_str(&mut s, "Unexpected end of input in state ");
                push_usize(&mut s, state.0);
                push_str(&mut s, ". Expected one of: ");
                push_terminals_debug(&mut s, expected);
            },
            LRErrorKind::NoAction { state, terminal } => {
                push_str(&mut s, "No action defined for terminal ");
                push_usize(&mut s, terminal.0);
                push_str(&mut s, " in state ");
                push_usize(&mut s, state.0);
            },
            LRErrorKind::ConflictDetected { conflicts } => {
                push_str(&mut s, "Grammar has ");
                push_usize(&mut s, conflicts.len());
                push_str(&mut s, " conflict(s):\n");
                push_conflict_lines(&mut s, conflicts);
            },
            LRErrorKind::InvalidGrammar { message } => {
                push_str(&mut s, "Invalid grammar: ");
                push_str(&mut s, message.as_str());
            },
            LRErrorKind::StackUnderflow => {
                push_str(&mut s, "Parser stack underflow");
            },
            LRErrorKind::InvalidState { state } => {
                push_str(&mut s, "Invalid state: ");
                push_usize(&mut s, state.0);
            },
        }
        proof {
            assert(s@ =~= error_kind_text(*self));
        }
        s
    }
}

/// The printed form of an error: the kind, then the position and the context when known.
pub open spec fn error_text(e: &LRError) -> Seq<char> {
    "LR Parse Error: "@ + error_kind_text(e.kind) + match e.position {
        Some(p) => " at position "@ + decimal(p as nat),
        None => Seq::empty(),
    } + match e.context {
        Some(c) => "\nContext: "@ + c@,
        None => Seq::empty(),
    }
}

impl LRError {
    /// The printed form (see `error_text`).
    pub fn to_string(&self) -> (res: String)
        ensures
            res@ == error_text(self),
    {
        let mut s = String::new();
        push_str(&mut s, "LR Parse Error: ");
        let k = self.kind.to_string();
        push_str(&mut s, k.as_str());
        match self.position {
            Some(p) => {
                push_str(&mut s, " at position ");
                push_usize(&mut s, p);
            },
            None => {},
        }
        match &self.context {
            Some(c) => {
                push_str(&mut s, "\nContext: ");
                push_str(&mut s, c.as_str());
            },
            None => {},
        }
        proof {
            assert(s@ =~= error_text(self));
        }
        s
    }
}

/// The printed form of a validation error.
pub open spec fn validation_error_text(e: LRValidationError) -> Seq<char> {
    match e {
        LRValidationError::ShiftReduceConflict { state, terminal } => "Shift/Reduce conflict in state "@ + decimal(
            state.0 as nat,
        ) + " on terminal "@ + decimal(terminal.0 as nat),
        LRValidationError::ReduceReduceConflict { state, terminal } => "Reduce/Reduce conflict in state "@ + decimal(
            state.0 as nat,
        ) + " on terminal "@ + decimal(terminal.0 as nat),
        LRValidationError::NotLR0 => "Grammar is not LR(0)"@,
        LRValidationError::NotSLR1 => "Grammar is not SLR(1)"@,
        LRValidationError::NotLALR1 => "Grammar is not LALR(1)"@,
        LRValidationError::NotLR1 => "Grammar is not LR(1)"@,
    }
}

impl LRValidationError {
    /// The printed form (see `validation_error_text`).
    pub fn to_string(&self) -> (res: String)
        ensures
            res@ == validation_error_text(*self),
    {
        let mut s = String::new();
        match self {
            LRValidationError::ShiftReduceConflict { state, terminal } => {
                push_str(&mut s, "Shift/Reduce conflict in state ");
                push_usize(&mut s, state.0);
                push_str(&mut s, " on terminal ");
                push_usize(&mut s, terminal.0);
            },
            LRValidationError::ReduceReduceConflict { state, terminal } => {
                push_str(&mut s, "Reduce/Reduce conflict in state ");
                push_usize(&mut s, state.0);
                push_str(&mut s, " on terminal ");
                push_usize(&mut s, terminal.0);
            },
            LRValidationError::NotLR0 => push_str(&mut s, "Grammar is not LR(0)"),
            LRValidationError::NotSLR1 => push_str(&mut s, "Grammar is not SLR(1)"),
            LRValidationError::NotLALR1 => push_str(&mut s, "Grammar is not LALR(1)"),
            LRValidationError::NotLR1 => push_str(&mut s, "Grammar is not LR(1)"),
        }
        proof {
            assert(s@ =~= validation_error_text(*self));
        }
        s
    }
}

/// The debug name of a grammar class.
pub open spec fn grammar_type_debug(t: LRGrammarType) -> Seq<char> {
    match t {
        LRGrammarType::LR0 => "LR0"@,
        LRGrammarType::SLR1 => "SLR1"@,
        LRGrammarType::LALR1 => "LALR1"@,
        LRGrammarType::LR1 => "LR1"@,
        LRGrammarType::NotLR => "NotLR"@,
        LRGrammarType::Unknown => "Unknown"@,
    }
}

/// Lines `    - x`, one per entry.
pub open spec fn dash_lines(xs: Seq<Seq<char>>) -> Seq<char>
    decreases xs.len(),
{
    if xs.len() == 0 {
        Seq::empty()
    } else {
        dash_lines(xs.drop_last()) + "    - "@ + xs.last() + "\n"@
    }
}

fn push_dash_lines(s: &mut String, xs: &Vec<String>)
    ensures
        final(s)@ == old(s)@ + dash_lines(views(xs@)),
{
    let ghost start = s@;
    let mut i: usize = 0;
    while i < xs.len()
        invariant
            i <= xs@.len(),
            s@ == start + dash_lines(views(xs@).take(i as int)),
        decreases xs@.len() - i,
    {
        push_str(s, "    - ");
        push_str(s, xs[i].as_str());
        push_str(s, "\n");
        proof {
            assert(views(xs@).take(i + 1).drop_last() =~= views(xs@).take(i as int));
            assert(s@ =~= start + dash_lines(views(xs@).take(i + 1)));
        }
        i = i + 1;
    }
    assert(views(xs@).take(xs@.len() as int) =~= views(xs@));
}

/// The printed form of a validation report.
pub open spec fn validation_report_text(r: &LRValidationReport) -> Seq<char> {
    "LR Grammar Validation Report\n"@ + "  Grammar Type: "@ + grammar_type_debug(r.grammar_type) + "\n"@
        + "  Valid: "@ + (if r.is_valid {
        "true"@
    } else {
        "false"@
    }) + "\n"@ + (if r.errors@.len() > 0 {
        "  Errors:\n"@ + dash_lines(r.errors@.map_values(|e: LRValidationError| validation_error_text(e)))
    } else {
        Seq::empty()
    }) + (if r.warnings@.len() > 0 {
        "  Warnings:\n"@ + dash_lines(views(r.warnings@))
    } else {
        Seq::empty()
    })
}

impl LRValidationReport {
    /// The printed form (see `validation_report_text`).
    pub fn to_string(&self) -> (res: String)
        ensures
            res@ == validation_report_text(self),
    {
        let mut s = String::new();
        push_str(&mut s, "LR Grammar Validation Report\n");
        push_str(&mut s, "  Grammar Type: ");
        let name: &str = match self.grammar_type {
            LRGrammarType::LR0 => "LR0",
            LRGrammarType::SLR1 => "SLR1",
            LRGrammarType::LALR1 => "LALR1",
            LRGrammarType::LR1 => "LR1",
            LRGrammarType::NotLR => "NotLR",
            LRGrammarType::Unknown => "Unknown",
        };
        push_str(&mut s, name);
        push_str(&mut s, "\n");
        push_str(&mut s, "  Valid: ");
        if self.is_valid {
            push_str(&mut s, "true");
        } else {
            push_str(&mut s, "false");
        }
        push_str(&mut s, "\n");
        let ghost mid = s@;
        if self.errors.len() > 0 {
            push_str(&mut s, "  Errors:\n");
            let mut texts: Vec<String> = Vec::new();
            let mut i: usize = 0;
            while i < self.errors.len()
                invariant
                    i <= self.errors@.len(),
                    views(texts@) =~= self.errors@.take(i as int).map_values(
                        |e: LRValidationError| validation_error_text(e),
                    ),
                decreases self.errors@.len() - i,
            {
                let t = self.errors[i].to_string();
                let ghost before = texts@;
                texts.push(t);
                proof {
                    assert(views(texts@) =~= views(before).push(t@));
                    assert(self.errors@.take(i + 1) =~= self.errors@.take(i as int).push(self.errors@[i as int]));
                }
                i = i + 1;
            }
            assert(self.errors@.take(self.errors@.len() as int) =~= self.errors@);
            push_dash_lines(&mut s, &texts);
        }
        let ghost mid2 = s@;
        if self.warnings.len() > 0 {
            push_str(&mut s, "  Warnings:\n");
            push_dash_lines(&mut s, &self.warnings);
        }
        proof {
            assert(s@ =~= validation_report_text(self));
        }
        s
    }
}

/// The printed form of the ACTION table: a header row of terminal numbers (right-
/// aligned in four columns, `$` last), then each state's actions.
pub open spec fn action_header(t: nat) -> Seq<char>
    decreases t,
{
    if t == 0 {
        Seq::empty()
    } else {
        action_header((t - 1) as nat) + pad_left(decimal((t - 1) as nat), 4) + " "@
    }
}

/// The actions of a row, each followed by a blank.
pub open spec fn action_row(row: Seq<Action>) -> Seq<char>
    decreases row.len(),
{
    if row.len() == 0 {
        Seq::empty()
    } else {
        action_row(row.drop_last()) + action_text(row.last()) + " "@
    }
}

pub open spec fn action_rows(cells: Seq<Seq<Action>>) -> Seq<char>
    decreases cells.len(),
{
    if cells.len() == 0 {
        Seq::empty()
    } else {
        action_rows(cells.drop_last()) + pad_left(decimal((cells.len() - 1) as nat), 3) + ": "@ + action_row(
            cells.last(),
        ) + "\n"@
    }
}

pub open spec fn action_table_text(a: &ActionTable) -> Seq<char> {
    "ACTION Table:\n"@ + "     "@ + action_header(a.terminals()) + "  $  "@ + "\n"@ + action_rows(a.cells())
}

impl ActionTable {
    /// The printed form (see `action_table_text`).
    pub fn to_string(&self) -> (res: String)
        ensures
            res@ == action_table_text(self),
    {
        let tc = self.terminal_count();
        let mut s = String::new();
        push_str(&mut s, "ACTION Table:\n");
        push_str(&mut s, "     ");
        let ghost h0 = s@;
        let mut t: usize = 0;
        while t < tc
            invariant
                t <= tc,
                s@ == h0 + action_header(t as nat),
            decreases tc - t,
        {
            let d = crate::text::usize_to_string(t);
            push_pad_left(&mut s, d.as_str(), 4);
            push_str(&mut s, " ");
            t = t + 1;
        }
        push_str(&mut s, "  $  ");
        push_str(&mut s, "\n");
        let ghost r0 = s@;
        let n = self.state_count();
        let mut state: usize = 0;
        while state < n
            invariant
                state <= n,
                n == self.cells().len(),
                tc == self.terminals(),
                tc < usize::MAX,
                self.shaped(n as nat),
                s@ == r0 + action_rows(self.cells().take(state as int)),
            decreases n - state,
        {
            let d = crate::text::usize_to_string(state);
            push_pad_left(&mut s, d.as_str(), 3);
            push_str(&mut s, ": ");
            let ghost row = self.cells()[state as int];
            let ghost c0 = s@;
            let mut t: usize = 0;
            while t <= tc
                invariant
                    t <= tc + 1,
                    tc < usize::MAX,
                    state < n,
                    n == self.cells().len(),
                    tc == self.terminals(),
                    row == self.cells()[state as int],
                    row.len() == tc + 1,
                    s@ == c0 + action_row(row.take(t as int)),
                decreases tc + 1 - t,
            {
                let a = self.get(ItemSetId(state), TerminalId(t));
                let at = a.to_string();
                push_str(&mut s, at.as_str());
                push_str(&mut s, " ");
                proof {
                    assert(row.take(t + 1).drop_last() =~= row.take(t as int));
                    assert(s@ =~= c0 + action_row(row.take(t + 1)));
                }
                t = t + 1;
            }
            push_str(&mut s, "\n");
            proof {
                assert(row.take(row.len() as int) =~= row);
                let cs = self.cells().take(state + 1);
                assert(cs.drop_last() =~= self.cells().take(state as int));
                assert(s@ =~= r0 + action_rows(cs));
            }
            state = state + 1;
        }
        proof {
            assert(self.cells().take(n as int) =~= self.cells());
            assert(s@ =~= action_table_text(self));
        }
        s
    }
}

/// The header row of the GOTO table: `N0   N1   ...`.
pub open spec fn goto_header(n: nat) -> Seq<char>
    decreases n,
{
    if n == 0 {
        Seq::empty()
    } else {
        goto_header((n - 1) as nat) + "N"@ + decimal((n - 1) as nat) + "   "@
    }
}

/// The printed entries of a GOTO row: a right-aligned state number or blanks.
pub open spec fn goto_row(row: Seq<Option<ItemSetId>>) -> Seq<char>
    decreases row.len(),
{
    if row.len() == 0 {
        Seq::empty()
    } else {
        goto_row(row.drop_last()) + match row.last() {
            Some(s) => pad_left(decimal(s.0 as nat), 4) + " "@,
            None => "     "@,
        }
    }
}

pub open spec fn goto_rows(rows: Seq<Seq<Option<ItemSetId>>>) -> Seq<char>
    decreases rows.len(),
{
    if rows.len() == 0 {
        Seq::empty()
    } else {
        goto_rows(rows.drop_last()) + pad_left(decimal((rows.len() - 1) as nat), 3) + ": "@ + goto_row(rows.last())
            + "\n"@
    }
}

pub open spec fn goto_table_text(g: &GotoTable) -> Seq<char> {
    "GOTO Table:\n"@ + "     "@ + goto_header(g.columns()) + "\n"@ + goto_rows(g.rows())
}

impl GotoTable {
    /// The printed form (see `goto_table_text`).
    pub fn to_string(&self) -> (res: String)
        ensures
            res@ == goto_table_text(self),
    {
        let nc = self.non_terminal_count();
        let mut s = String::new();
        push_str(&mut s, "GOTO Table:\n");
        push_str(&mut s, "     ");
        let ghost h0 = s@;
        let mut c: usize = 0;
        while c < nc
            invariant
                c <= nc,
                s@ == h0 + goto_header(c as nat),
            decreases nc - c,
        {
            push_str(&mut s, "N");
            push_usize(&mut s, c);
            push_str(&mut s, "   ");
            proof {
                assert(s@ =~= h0 + goto_header((c + 1) as nat));
            }
            c = c + 1;
        }
        push_str(&mut s, "\n");
        let ghost r0 = s@;
        let n = self.state_count();
        let mut state: usize = 0;
        while state < n
            invariant
                state <= n,
                n == self.rows().len(),
                nc == self.columns(),
                forall|k: int| 0 <= k < n ==> (#[trigger] self.rows()[k]).len() == nc,
                s@ == r0 + goto_rows(self.rows().take(state as int)),
            decreases n - state,
        {
            let d = crate::text::usize_to_string(state);
            push_pad_left(&mut s, d.as_str(), 3);
            push_str(&mut s, ": ");
            let ghost row = self.rows()[state as int];
            let ghost c0 = s@;
            let mut c: usize = 0;
            while c < nc
                invariant
                    c <= nc,
                    state < n,
                    n == self.rows().len(),
                    nc == self.columns(),
                    row == self.rows()[state as int],
                    row.len() == nc,
                    s@ == c0 + goto_row(row.take(c as int)),
                decreases nc - c,
            {
                match self.get(ItemSetId(state), crate::cfg::NonTerminalId(c)) {
                    Some(x) => {
                        let d = crate::text::usize_to_string(x.0);
                        push_pad_left(&mut s, d.as_str(), 4);
                        push_str(&mut s, " ");
                    },
                    None => {
                        push_str(&mut s, "     ");
                    },
                }
                proof {
                    assert(row.take(c + 1).drop_last() =~= row.take(c as int));
                    assert(row.take(c + 1).last() == row[c as int]);
                    assert(s@ =~= c0 + goto_row(row.take(c + 1)));
                }
                c = c + 1;
            }
            push_str(&mut s, "\n");
            proof {
                assert(row.take(row.len() as int) =~= row);
                let rs = self.rows().take(state + 1);
                assert(rs.drop_last() =~= self.rows().take(state as int));
                assert(s@ =~= r0 + goto_rows(rs));
            }
            state = state + 1;
        }
        proof {
            assert(self.rows().take(n as int) =~= self.rows());
            assert(s@ =~= goto_table_text(self));
        }
        s
    }
}

/// The printed form of a table: a title, ACTION and GOTO, and the conflicts under
/// a heading when there are any.
pub open spec fn table_text(title: Seq<char>, a: &ActionTable, g: &GotoTable, heading: Seq<char>, cs: Seq<Conflict>) -> Seq<char> {
    title + "\n"@ + action_table_text(a) + "\n"@ + goto_table_text(g) + "\n"@ + if cs.len() > 0 {
        "\n"@ + heading + "\n"@ + conflict_lines(cs)
    } else {
        Seq::empty()
    }
}

fn table_string(title: &str, a: &ActionTable, g: &GotoTable, heading: &str, cs: &Vec<Conflict>) -> (res: String)
    ensures
        res@ == table_text(title@, a, g, heading@, cs@),
{
    let mut s = String::new();
    push_str(&mut s, title);
    push_str(&mut s, "\n");
    let at = a.to_string();
    push_str(&mut s, at.as_str());
    push_str(&mut s, "\n");
    let gt = g.to_string();
    push_str(&mut s, gt.as_str());
    push_str(&mut s, "\n");
    if cs.len() > 0 {
        push_str(&mut s, "\n");
        push_str(&mut s, heading);
        push_str(&mut s, "\n");
        push_conflict_lines(&mut s, cs);
    }
    proof {
        assert(s@ =~= table_text(title@, a, g, heading@, cs@));
    }
    s
}

impl LR0Table {
    /// The printed form (see `table_text`).
    pub fn to_string(&self) -> (res: String)
        ensures
            res@ == table_text("LR(0) Parsing Table:"@, &self.action, &self.goto, "Conflicts:"@, self.conflicts@),
    {
        table_string("LR(0) Parsing Table:", &self.action, &self.goto, "Conflicts:", &self.conflicts)
    }
}

impl LR1Table {
    /// The printed form (see `table_text`).
    pub fn to_string(&self) -> (res: String)
        ensures
            res@ == table_text("LR(1) Parsing Table:"@, &self.action, &self.goto, "Conflicts:"@, self.conflicts@),
    {
        table_string("LR(1) Parsing Table:", &self.action, &self.goto, "Conflicts:", &self.conflicts)
    }
}

impl LALR1Table {
    /// The printed form (see `table_text`); the title gives the number of merged states.
    pub fn to_string(&self) -> (res: String)
        ensures
            res@ == table_text(
                "LALR(1) Parsing Table ("@ + decimal(self.merged_states as nat) + " merged states):"@,
                &self.action,
                &self.goto,
                "Conflicts introduced by merging:"@,
                self.conflicts@,
            ),
    {
        let mut title = String::new();
        push_str(&mut title, "LALR(1) Parsing Table (");
        push_usize(&mut title, self.merged_states);
        push_str(&mut title, " merged states):");
        table_string(title.as_str(), &self.action, &self.goto, "Conflicts introduced by merging:", &self.conflicts)
    }
}

impl SLRTable {
    /// The printed form: as `table_text`, with the conflicts settled by FOLLOW sets
    /// listed before the unresolved ones.
    pub fn to_string(&self) -> (res: String)
        ensures
            res@ == "SLR(1) Parsing Table:\n"@ + action_table_text(&self.action) + "\n"@ + goto_table_text(&self.goto)
                + "\n"@ + (if self.resolved_conflicts@.len() > 0 {
                "\nResolved conflicts by FOLLOW sets:\n"@ + conflict_lines(self.resolved_conflicts@)
            } else {
                Seq::empty()
            }) + (if self.conflicts@.len() > 0 {
                "\nUnresolved conflicts:\n"@ + conflict_lines(self.conflicts@)
            } else {
                Seq::empty()
            }),
    {
        let mut s = String::new();
        push_str(&mut s, "SLR(1) Parsing Table:\n");
        let at = self.action.to_string();
        push_str(&mut s, at.as_str());
        push_str(&mut s, "\n");
        let gt = self.goto.to_string();
        push_str(&mut s, gt.as_str());
        push_str(&mut s, "\n");
        let ghost mid = s@;
        if self.resolved_conflicts.len() > 0 {
            push_str(&mut s, "\nResolved conflicts by FOLLOW sets:\n");
            push_conflict_lines(&mut s, &self.resolved_conflicts);
        }
        let ghost mid2 = s@;
        if self.conflicts.len() > 0 {
            push_str(&mut s, "\nUnresolved conflicts:\n");
            push_conflict_lines(&mut s, &self.conflicts);
        }
        proof {
            assert(s@ =~= "SLR(1) Parsing Table:\n"@ + action_table_text(&self.action) + "\n"@ + goto_table_text(
                &self.goto,
            ) + "\n"@ + (if self.resolved_conflicts@.len() > 0 {
                "\nResolved conflicts by FOLLOW sets:\n"@ + conflict_lines(self.resolved_conflicts@)
            } else {
                Seq::empty()
            }) + (if self.conflicts@.len() > 0 {
                "\nUnresolved conflicts:\n"@ + conflict_lines(self.conflicts@)
            } else {
                Seq::empty()
            }));
        }
        s
    }
}

impl LrTableCore {
    /// `label`, then the ACTION and GOTO tables, each followed by a line break.
    pub fn fmt_header(&self, label: &str) -> (res: String)
        ensures
            res@ == label@ + "\n"@ + action_table_text(&self.action) + "\n"@ + goto_table_text(&self.goto) + "\n"@,
    {
        let mut s = String::new();
        push_str(&mut s, label);
        push_str(&mut s, "\n");
        let at = self.action.to_string();
        push_str(&mut s, at.as_str());
        push_str(&mut s, "\n");
        let gt = self.goto.to_string();
        push_str(&mut s, gt.as_str());
        push_str(&mut s, "\n");
        s
    }
}

/// The names of a right-hand side joined by blanks.
pub open spec fn rhs_text(g: &crate::cfg::ContextFreeGrammar, rhs: Seq<Symbol>) -> Seq<char> {
    join(rhs.map_values(|x: Symbol| symbol_name(g, x)), " "@)
}

/// The production lines of an augmented grammar.
pub open spec fn production_lines(g: &crate::cfg::ContextFreeGrammar, n: nat) -> Seq<char>
    decreases n,
{
    if n == 0 || n > g.productions.len() {
        Seq::empty()
    } else {
        let i = (n - 1) as int;
        let p = g.productions@[i];
        production_lines(g, (n - 1) as nat) + "    "@ + decimal(i as nat) + ": "@ + g.spec_non_terminal_name(p.lhs)
            + " -> "@ + rhs_text(g, p.rhs@) + (if i == 0 {
            " (augmented)"@
        } else {
            Seq::empty()
        }) + "\n"@
    }
}

/// The printed form of an augmented grammar: both start symbols, then the numbered
/// productions, the added one marked.
pub open spec fn augmented_text(a: &AugmentedGrammar) -> Seq<char> {
    let g = a.spec_grammar();
    "Augmented Grammar:\n"@ + "  Start: "@ + g.spec_non_terminal_name(a.spec_augmented_start()) + " (augmented)\n"@
        + "  Original Start: "@ + g.spec_non_terminal_name(a.spec_original_start()) + "\n"@ + "  Productions:\n"@
        + production_lines(&g, g.productions.len() as nat)
}

impl AugmentedGrammar {
    /// The printed form (see `augmented_text`).
    pub fn to_string(&self) -> (res: String)
        ensures
            res@ == augmented_text(self),
    {
        let g = self.grammar();
        let mut s = String::new();
        push_str(&mut s, "Augmented Grammar:\n");
        push_str(&mut s, "  Start: ");
        push_str(&mut s, g.get_non_terminal_name(self.augmented_start()));
        push_str(&mut s, " (augmented)\n");
        push_str(&mut s, "  Original Start: ");
        push_str(&mut s, g.get_non_terminal_name(self.original_start()));
        push_str(&mut s, "\n");
        push_str(&mut s, "  Productions:\n");
        let ghost p0 = s@;
        let mut i: usize = 0;
        while i < g.productions.len()
            invariant
                i <= g.productions@.len(),
                *g == self.spec_grammar(),
                s@ == p0 + production_lines(g, i as nat),
            decreases g.productions@.len() - i,
        {
            let production = &g.productions[i];
            push_str(&mut s, "    ");
            push_usize(&mut s, i);
            push_str(&mut s, ": ");
            push_str(&mut s, g.get_non_terminal_name(production.lhs));
            push_str(&mut s, " -> ");
            let mut names: Vec<String> = Vec::new();
            let mut k: usize = 0;
            while k < production.rhs.len()
                invariant
                    k <= production.rhs@.len(),
                    views(names@) =~= production.rhs@.take(k as int).map_values(|x: Symbol| symbol_name(g, x)),
                decreases production.rhs@.len() - k,
            {
                let mut t = String::new();
                match production.rhs[k] {
                    Symbol::NonTerminal(id) => push_str(&mut t, g.get_non_terminal_name(id)),
                    Symbol::Terminal(id) => push_str(&mut t, g.get_terminal_name(id)),
                    Symbol::Epsilon => push_str(&mut t, "ε"),
                }
                let ghost before = names@;
                names.push(t);
                proof {
                    assert(views(names@) =~= views(before).push(t@));
                    assert(production.rhs@.take(k + 1) =~= production.rhs@.take(k as int).push(production.rhs@[k as int]));
                }
                k = k + 1;
            }
            assert(production.rhs@.take(production.rhs@.len() as int) =~= production.rhs@);
            let body = join_strings(&names, " ");
            push_str(&mut s, body.as_str());
            if i == 0 {
                push_str(&mut s, " (augmented)");
            }
            push_str(&mut s, "\n");
            proof {
                assert(s@ =~= p0 + production_lines(g, (i + 1) as nat));
            }
            i = i + 1;
        }
        s
    }
}

/// A trace line: the step number right-aligned in five columns, the stack and the
/// input left-aligned in twenty, then the action.
pub open spec fn step_text(st: &ParseStep) -> Seq<char> {
    pad_left(decimal(st.step as nat), 5) + " | "@ + pad_right(join(views(st.stack@), " "@), 20) + " | "@ + pad_right(
        st.input@,
        20,
    ) + " | "@ + st.action@ + "\n"@
}

impl ParseStep {
    /// The printed form (see `step_text`).
    pub fn to_string(&self) -> (res: String)
        ensures
            res@ == step_text(self),
    {
        let mut s = String::new();
        let d = crate::text::usize_to_string(self.step);
        push_pad_left(&mut s, d.as_str(), 5);
        push_str(&mut s, " | ");
        let st = join_strings(&self.stack, " ");
        push_pad_right(&mut s, st.as_str(), 20);
        push_str(&mut s, " | ");
        push_pad_right(&mut s, self.input.as_str(), 20);
        push_str(&mut s, " | ");
        push_str(&mut s, self.action.as_str());
        push_str(&mut s, "\n");
        proof {
            assert(s@ =~= step_text(self));
        }
        s
    }
}

/// The trace lines in order.
pub open spec fn step_lines(steps: Seq<ParseStep>) -> Seq<char>
    decreases steps.len(),
{
    if steps.len() == 0 {
        Seq::empty()
    } else {
        step_lines(steps.drop_last()) + step_text(&steps.last())
    }
}

/// The printed form of a trace: a header line, a rule of sixty dashes, the lines.
pub open spec fn trace_text(t: &ParseTrace) -> Seq<char> {
    pad_right("Step"@, 5) + " | "@ + pad_right("Stack"@, 20) + " | "@ + pad_right("Input"@, 20) + " | "@ + "Action"@
        + "\n"@ + Seq::new(60, |i: int| '-') + "\n"@ + step_lines(t.spec_steps())
}

impl ParseTrace {
    /// The printed form (see `trace_text`).
    pub fn to_string(&self) -> (res: String)
        ensures
            res@ == trace_text(self),
    {
        let mut s = String::new();
        push_pad_right(&mut s, "Step", 5);
        push_str(&mut s, " | ");
        push_pad_right(&mut s, "Stack", 20);
        push_str(&mut s, " | ");
        push_pad_right(&mut s, "Input", 20);
        push_str(&mut s, " | ");
        push_str(&mut s, "Action");
        push_str(&mut s, "\n");
        let ghost d0 = s@;
        let mut k: usize = 0;
        while k < 60
            invariant
                k <= 60,
                s@ == d0 + Seq::new(k as nat, |i: int| '-'),
            decreases 60 - k,
        {
            push_str(&mut s, "-");
            proof {
                reveal_strlit("-");
                assert(s@ =~= d0 + Seq::new((k + 1) as nat, |i: int| '-'));
            }
            k = k + 1;
        }
        push_str(&mut s, "\n");
        let steps = self.steps();
        let ghost l0 = s@;
        let mut i: usize = 0;
        while i < steps.len()
            invariant
                i <= steps@.len(),
                steps@ == self.spec_steps(),
                s@ == l0 + step_lines(steps@.take(i as int)),
            decreases steps@.len() - i,
        {
            let t = steps[i].to_string();
            push_str(&mut s, t.as_str());
            proof {
                assert(steps@.take(i + 1).drop_last() =~= steps@.take(i as int));
                assert(s@ =~= l0 + step_lines(steps@.take(i + 1)));
            }
            i = i + 1;
        }
        proof {
            assert(steps@.take(steps@.len() as int) =~= steps@);
            assert(s@ =~= trace_text(self));
        }
        s
    }
}

} // verus!
