//! The text that the tables, item sets and collections write when printed: ACTION
//! and GOTO tables laid out in columns under the grammar's names.
use vstd::prelude::*;
use vstd::utf8::encode_utf8;
use crate::cfg::{ContextFreeGrammar, Symbol, TerminalId};
use crate::lr::all_items::{AllLR0Items, AllLR1Items};
use crate::lr::display::{item0_grammar_text, item1_grammar_text, symbol_name};
use crate::lr::item::{LR0Item, LR1Item};
use crate::lr::item_set::{LR0ItemSet, LR1ItemSet};
use crate::lr::sorting::{ordered1, ordered_transitions, sort_lr0, sort_lr1, sort_lr1_list, sort_transitions, sorted0, sorted1};
use crate::lr::states::{LR0ItemSetCollection, LR1ItemSetCollection, views0, views1};
use crate::lr::conflict::Conflict;
use crate::lr::table::{LALR1Table, LR0Table, LR1Table, SLRTable};
use crate::lr::table_builders::LrTableCore;
use crate::lr::action::{action_text, Action, ActionTable};
use crate::cfg::NonTerminalId;
use crate::lr::goto::{GotoTable, ItemSetId};
use crate::lr::report_text::{conflict_lines, pad_left, push_conflict_lines, push_pad_left};
use crate::text::{decimal, push_str, views};

verus! {

/// The length in bytes of the UTF-8 encoding of `s`, as `str::len` gives it.
pub open spec fn byte_len(s: Seq<char>) -> nat {
    (encode_utf8(s).len() as usize) as nat
}

/// `n` dashes.
pub open spec fn dashes(n: nat) -> Seq<char> {
    Seq::new(n, |i: int| '-')
}

pub open spec fn max_nat(a: nat, b: nat) -> nat {
    if a >= b {
        a
    } else {
        b
    }
}

fn push_dashes(s: &mut String, n: usize)
    ensures
        final(s)@ == old(s)@ + dashes(n as nat),
{
    let ghost start = s@;
    let mut i: usize = 0;
    while i < n
        invariant
            i <= n,
            s@ == start + dashes(i as nat),
        decreases n - i,
    {
        push_str(s, "-");
        proof {
            reveal_strlit("-");
        }
        assert(dashes((i + 1) as nat) =~= dashes(i as nat) + "-"@);
        i = i + 1;
    }
}

/// The heading of ACTION column `t`: the terminal's name (`T<t>` when no name is
/// given), and `$` for the last column.
pub open spec fn action_heading(names: Seq<Seq<char>>, tc: nat, t: int) -> Seq<char> {
    if t < tc {
        if t < names.len() {
            names[t]
        } else {
            seq!['T'] + decimal(t as nat)
        }
    } else {
        seq!['$']
    }
}

/// The width the heading of column `t` asks for: the name's length in bytes, 2
/// without a name, 1 for `$`.
pub open spec fn action_heading_width(names: Seq<Seq<char>>, tc: nat, t: int) -> nat {
    if t < tc {
        if t < names.len() {
            byte_len(names[t])
        } else {
            2
        }
    } else {
        1
    }
}

/// The longest action text in column `t` of the first `n` rows.
pub open spec fn widest_action(cells: Seq<Seq<Action>>, t: int, n: nat) -> nat
    decreases n,
{
    if n == 0 {
        0
    } else {
        let w: nat = if 0 <= t < cells[n - 1].len() {
            action_text(cells[n - 1][t]).len()
        } else {
            0
        };
        max_nat(widest_action(cells, t, (n - 1) as nat), w)
    }
}

/// The width of ACTION column `t`.
pub open spec fn action_width(a: &ActionTable, names: Seq<Seq<char>>, t: int) -> nat {
    max_nat(action_heading_width(names, a.terminals(), t), widest_action(a.cells(), t, a.cells().len()))
}

/// The headings of the first `k` columns, each as ` <heading> |`.
pub open spec fn action_heading_cells(a: &ActionTable, names: Seq<Seq<char>>, k: nat) -> Seq<char>
    decreases k,
{
    if k == 0 {
        Seq::empty()
    } else {
        action_heading_cells(a, names, (k - 1) as nat) + " "@ + pad_left(
            action_heading(names, a.terminals(), k - 1),
            action_width(a, names, k - 1),
        ) + " |"@
    }
}

/// The rule under the headings of the first `k` columns.
pub open spec fn action_rule_cells(a: &ActionTable, names: Seq<Seq<char>>, k: nat) -> Seq<char>
    decreases k,
{
    if k == 0 {
        Seq::empty()
    } else {
        action_rule_cells(a, names, (k - 1) as nat) + dashes(action_width(a, names, k - 1) + 2) + "|"@
    }
}

/// The first `k` entries of a row, each as ` <action> |`.
pub open spec fn action_entry_cells(a: &ActionTable, names: Seq<Seq<char>>, row: Seq<Action>, k: nat) -> Seq<char>
    decreases k,
{
    if k == 0 {
        Seq::empty()
    } else {
        action_entry_cells(a, names, row, (k - 1) as nat) + " "@ + pad_left(
            action_text(row[k - 1]),
            action_width(a, names, k - 1),
        ) + " |"@
    }
}

/// The lines of the first `n` states.
pub open spec fn action_state_lines(a: &ActionTable, names: Seq<Seq<char>>, n: nat) -> Seq<char>
    decreases n,
{
    if n == 0 {
        Seq::empty()
    } else {
        let row = a.cells()[n - 1];
        action_state_lines(a, names, (n - 1) as nat) + pad_left(decimal((n - 1) as nat), 5) + " |"@
            + action_entry_cells(a, names, row, row.len()) + "\n"@
    }
}

/// What `ActionTable::print` writes: a title, a heading line with the terminal names
/// and `$`, a rule, and a line per state, every column as wide as its widest entry.
pub open spec fn action_print_text(a: &ActionTable, names: Seq<Seq<char>>) -> Seq<char> {
    "ACTION Table:\n"@ + "State |"@ + action_heading_cells(a, names, a.terminals() + 1) + "\n"@ + "-----|"@
        + action_rule_cells(a, names, a.terminals() + 1) + "\n"@ + action_state_lines(a, names, a.cells().len())
}

/// The width of every ACTION column.
fn action_widths(a: &ActionTable, names: &[String]) -> (res: Vec<usize>)
    requires
        a.shaped(a.cells().len()),
    ensures
        res@.len() == a.terminals() + 1,
        forall|t: int| 0 <= t <= a.terminals() ==> #[trigger] res@[t] == action_width(a, views(names@), t),
{
    let tc = a.terminal_count();
    let n = a.state_count();
    let ghost nv = views(names@);
    let mut widths: Vec<usize> = Vec::new();
    let mut t: usize = 0;
    while t <= tc
        invariant
            t <= tc + 1,
            tc == a.terminals(),
            tc < usize::MAX,
            n == a.cells().len(),
            a.shaped(n as nat),
            nv == views(names@),
            widths@.len() == t,
            forall|k: int| 0 <= k < t ==> #[trigger] widths@[k] == action_width(a, nv, k),
        decreases tc + 1 - t,
    {
        let heading: usize = if t < tc {
            if t < names.len() {
                names[t].as_str().len()
            } else {
                2
            }
        } else {
            1
        };
        proof {
            if t < tc && t < names.len() {
                assert(nv[t as int] == names@[t as int]@);
            }
        }
        assert(heading == action_heading_width(nv, tc as nat, t as int));
        let mut widest: usize = 0;
        let mut s: usize = 0;
        while s < n
            invariant
                s <= n,
                t <= tc,
                tc == a.terminals(),
                n == a.cells().len(),
                a.shaped(n as nat),
                widest == widest_action(a.cells(), t as int, s as nat),
            decreases n - s,
        {
            let text = a.get(ItemSetId(s), TerminalId(t)).to_string();
            let len = text.as_str().unicode_len();
            if len > widest {
                widest = len;
            }
            s = s + 1;
        }
        let w = if heading >= widest {
            heading
        } else {
            widest
        };
        widths.push(w);
        t = t + 1;
    }
    widths
}

impl ActionTable {
    /// The text that printing the table under `terminal_names` writes (see
    /// `action_print_text`).
    pub fn print_text(&self, terminal_names: &[String]) -> (res: String)
        ensures
            res@ == action_print_text(self, views(terminal_names@)),
    {
        let tc = self.terminal_count();
        let n = self.state_count();
        let ghost nv = views(terminal_names@);
        let widths = action_widths(self, terminal_names);
        let mut s = String::new();
        push_str(&mut s, "ACTION Table:\n");
        push_str(&mut s, "State |");
        let ghost h0 = s@;
        let mut t: usize = 0;
        while t <= tc
            invariant
                t <= tc + 1,
                tc == self.terminals(),
                tc < usize::MAX,
                nv == views(terminal_names@),
                widths@.len() == tc + 1,
                forall|k: int| 0 <= k <= tc ==> #[trigger] widths@[k] == action_width(self, nv, k),
                s@ == h0 + action_heading_cells(self, nv, t as nat),
            decreases tc + 1 - t,
        {
            let heading: String = if t < tc {
                if t < terminal_names.len() {
                    terminal_names[t].clone()
                } else {
                    let mut h = String::new();
                    push_str(&mut h, "T");
                    crate::text::push_usize(&mut h, t);
                    proof {
                        reveal_strlit("T");
                    }
                    h
                }
            } else {
                let mut h = String::new();
                push_str(&mut h, "$");
                proof {
                    reveal_strlit("$");
                }
                h
            };
            assert(heading@ =~= action_heading(nv, tc as nat, t as int));
            push_str(&mut s, " ");
            push_pad_left(&mut s, heading.as_str(), widths[t]);
            push_str(&mut s, " |");
            proof {
                assert(s@ =~= h0 + action_heading_cells(self, nv, (t + 1) as nat));
            }
            t = t + 1;
        }
        push_str(&mut s, "\n");
        push_str(&mut s, "-----|");
        let ghost r0 = s@;
        let mut t: usize = 0;
        while t <= tc
            invariant
                t <= tc + 1,
                tc == self.terminals(),
                tc < usize::MAX,
                nv == views(terminal_names@),
                widths@.len() == tc + 1,
                forall|k: int| 0 <= k <= tc ==> #[trigger] widths@[k] == action_width(self, nv, k),
                s@ == r0 + action_rule_cells(self, nv, t as nat),
            decreases tc + 1 - t,
        {
            push_dashes(&mut s, widths[t]);
            push_str(&mut s, "--|");
            proof {
                reveal_strlit("--|");
                reveal_strlit("|");
                assert(dashes(widths@[t as int] as nat) + "--|"@ =~= dashes((widths@[t as int] + 2) as nat) + "|"@);
                assert(s@ =~= r0 + action_rule_cells(self, nv, (t + 1) as nat));
            }
            t = t + 1;
        }
        push_str(&mut s, "\n");
        let ghost l0 = s@;
        let mut state: usize = 0;
        while state < n
            invariant
                state <= n,
                n == self.cells().len(),
                tc == self.terminals(),
                tc < usize::MAX,
                self.shaped(n as nat),
                nv == views(terminal_names@),
                widths@.len() == tc + 1,
                forall|k: int| 0 <= k <= tc ==> #[trigger] widths@[k] == action_width(self, nv, k),
                s@ == l0 + action_state_lines(self, nv, state as nat),
            decreases n - state,
        {
            let d = crate::text::usize_to_string(state);
            push_pad_left(&mut s, d.as_str(), 5);
            push_str(&mut s, " |");
            let ghost row = self.cells()[state as int];
            let ghost c0 = s@;
            let mut t: usize = 0;
            while t <= tc
                invariant
                    t <= tc + 1,
                    tc < usize::MAX,
                    state < n,
                    n == self.cells().len(),
                    tc == self.terminals(),
                    self.shaped(n as nat),
                    nv == views(terminal_names@),
                    row == self.cells()[state as int],
                    row.len() == tc + 1,
                    widths@.len() == tc + 1,
                    forall|k: int| 0 <= k <= tc ==> #[trigger] widths@[k] == action_width(self, nv, k),
                    s@ == c0 + action_entry_cells(self, nv, row, t as nat),
                decreases tc + 1 - t,
            {
                let text = self.get(ItemSetId(state), TerminalId(t)).to_string();
                push_str(&mut s, " ");
                push_pad_left(&mut s, text.as_str(), widths[t]);
                push_str(&mut s, " |");
                proof {
                    assert(s@ =~= c0 + action_entry_cells(self, nv, row, (t + 1) as nat));
                }
                t = t + 1;
            }
            push_str(&mut s, "\n");
            proof {
                assert(s@ =~= l0 + action_state_lines(self, nv, (state + 1) as nat));
            }
            state = state + 1;
        }
        s
    }
}

/// The heading of GOTO column `nt`: the non-terminal's name, `N<nt>` when no name is given.
pub open spec fn goto_heading(names: Seq<Seq<char>>, nt: int) -> Seq<char> {
    if nt < names.len() {
        names[nt]
    } else {
        seq!['N'] + decimal(nt as nat)
    }
}

/// The width the heading of GOTO column `nt` asks for: the name's length in bytes,
/// 2 without a name.
pub open spec fn goto_heading_width(names: Seq<Seq<char>>, nt: int) -> nat {
    if nt < names.len() {
        byte_len(names[nt])
    } else {
        2
    }
}

/// The text of a GOTO entry: the state number, or nothing.
pub open spec fn goto_entry_text(e: Option<ItemSetId>) -> Seq<char> {
    match e {
        Some(s) => decimal(s.0 as nat),
        None => Seq::empty(),
    }
}

/// The longest state number in column `nt` of the first `n` rows, at least 1.
pub open spec fn widest_goto(rows: Seq<Seq<Option<ItemSetId>>>, nt: int, n: nat) -> nat
    decreases n,
{
    if n == 0 {
        1
    } else {
        let w: nat = if 0 <= nt < rows[n - 1].len() {
            match rows[n - 1][nt] {
                Some(s) => decimal(s.0 as nat).len(),
                None => 0,
            }
        } else {
            0
        };
        max_nat(widest_goto(rows, nt, (n - 1) as nat), w)
    }
}

/// The width of GOTO column `nt`.
pub open spec fn goto_width(g: &GotoTable, names: Seq<Seq<char>>, nt: int) -> nat {
    max_nat(goto_heading_width(names, nt), widest_goto(g.rows(), nt, g.rows().len()))
}

pub open spec fn goto_heading_cells(g: &GotoTable, names: Seq<Seq<char>>, k: nat) -> Seq<char>
    decreases k,
{
    if k == 0 {
        Seq::empty()
    } else {
        goto_heading_cells(g, names, (k - 1) as nat) + " "@ + pad_left(goto_heading(names, k - 1), goto_width(g, names, k - 1))
            + " |"@
    }
}

pub open spec fn goto_rule_cells(g: &GotoTable, names: Seq<Seq<char>>, k: nat) -> Seq<char>
    decreases k,
{
    if k == 0 {
        Seq::empty()
    } else {
        goto_rule_cells(g, names, (k - 1) as nat) + dashes(goto_width(g, names, k - 1) + 2) + "|"@
    }
}

pub open spec fn goto_entry_cells(g: &GotoTable, names: Seq<Seq<char>>, row: Seq<Option<ItemSetId>>, k: nat) -> Seq<char>
    decreases k,
{
    if k == 0 {
        Seq::empty()
    } else {
        goto_entry_cells(g, names, row, (k - 1) as nat) + " "@ + pad_left(goto_entry_text(row[k - 1]), goto_width(g, names, k - 1))
            + " |"@
    }
}

pub open spec fn goto_state_lines(g: &GotoTable, names: Seq<Seq<char>>, n: nat) -> Seq<char>
    decreases n,
{
    if n == 0 {
        Seq::empty()
    } else {
        let row = g.rows()[n - 1];
        goto_state_lines(g, names, (n - 1) as nat) + pad_left(decimal((n - 1) as nat), 5) + " |"@ + goto_entry_cells(
            g,
            names,
            row,
            row.len(),
        ) + "\n"@
    }
}

/// What `GotoTable::print` writes: a title, a heading line with the non-terminal
/// names, a rule, and a line per state, every column as wide as its widest entry.
pub open spec fn goto_print_text(g: &GotoTable, names: Seq<Seq<char>>) -> Seq<char> {
    "GOTO Table:\n"@ + "State |"@ + goto_heading_cells(g, names, g.columns()) + "\n"@ + "-----|"@ + goto_rule_cells(
        g,
        names,
        g.columns(),
    ) + "\n"@ + goto_state_lines(g, names, g.rows().len())
}

/// The width of every GOTO column.
fn goto_widths(g: &GotoTable, names: &[String]) -> (res: Vec<usize>)
    ensures
        res@.len() == g.columns(),
        forall|nt: int| 0 <= nt < g.columns() ==> #[trigger] res@[nt] == goto_width(g, views(names@), nt),
{
    let nc = g.non_terminal_count();
    let n = g.state_count();
    let ghost nv = views(names@);
    let mut widths: Vec<usize> = Vec::new();
    let mut nt: usize = 0;
    while nt < nc
        invariant
            nt <= nc,
            nc == g.columns(),
            n == g.rows().len(),
            forall|k: int| 0 <= k < n ==> (#[trigger] g.rows()[k]).len() == nc,
            nv == views(names@),
            widths@.len() == nt,
            forall|k: int| 0 <= k < nt ==> #[trigger] widths@[k] == goto_width(g, nv, k),
        decreases nc - nt,
    {
        let heading: usize = if nt < names.len() {
            names[nt].as_str().len()
        } else {
            2
        };
        proof {
            if nt < names.len() {
                assert(nv[nt as int] == names@[nt as int]@);
            }
        }
        assert(heading == goto_heading_width(nv, nt as int));
        let mut widest: usize = 1;
        let mut s: usize = 0;
        while s < n
            invariant
                s <= n,
                nt < nc,
                nc == g.columns(),
                n == g.rows().len(),
                forall|k: int| 0 <= k < n ==> (#[trigger] g.rows()[k]).len() == nc,
                widest == widest_goto(g.rows(), nt as int, s as nat),
            decreases n - s,
        {
            match g.get(ItemSetId(s), NonTerminalId(nt)) {
                Some(target) => {
                    let d = crate::text::usize_to_string(target.0);
                    let len = d.as_str().unicode_len();
                    if len > widest {
                        widest = len;
                    }
                },
                None => {},
            }
            s = s + 1;
        }
        let w = if heading >= widest {
            heading
        } else {
            widest
        };
        widths.push(w);
        nt = nt + 1;
    }
    widths
}

impl GotoTable {
    /// The text that printing the table under `non_terminal_names` writes (see
    /// `goto_print_text`).
    pub fn print_text(&self, non_terminal_names: &[String]) -> (res: String)
        ensures
            res@ == goto_print_text(self, views(non_terminal_names@)),
    {
        let nc = self.non_terminal_count();
        let n = self.state_count();
        let ghost nv = views(non_terminal_names@);
        let widths = goto_widths(self, non_terminal_names);
        let mut s = String::new();
        push_str(&mut s, "GOTO Table:\n");
        push_str(&mut s, "State |");
        let ghost h0 = s@;
        let mut nt: usize = 0;
        while nt < nc
            invariant
                nt <= nc,
                nc == self.columns(),
                nv == views(non_terminal_names@),
                widths@.len() == nc,
                forall|k: int| 0 <= k < nc ==> #[trigger] widths@[k] == goto_width(self, nv, k),
                s@ == h0 + goto_heading_cells(self, nv, nt as nat),
            decreases nc - nt,
        {
            let heading: String = if nt < non_terminal_names.len() {
                non_terminal_names[nt].clone()
            } else {
                let mut h = String::new();
                push_str(&mut h, "N");
                crate::text::push_usize(&mut h, nt);
                proof {
                    reveal_strlit("N");
                }
                h
            };
            assert(heading@ =~= goto_heading(nv, nt as int));
            push_str(&mut s, " ");
            push_pad_left(&mut s, heading.as_str(), widths[nt]);
            push_str(&mut s, " |");
            proof {
                assert(s@ =~= h0 + goto_heading_cells(self, nv, (nt + 1) as nat));
            }
            nt = nt + 1;
        }
        push_str(&mut s, "\n");
        push_str(&mut s, "-----|");
        let ghost r0 = s@;
        let mut nt: usize = 0;
        while nt < nc
            invariant
                nt <= nc,
                nc == self.columns(),
                nv == views(non_terminal_names@),
                widths@.len() == nc,
                forall|k: int| 0 <= k < nc ==> #[trigger] widths@[k] == goto_width(self, nv, k),
                s@ == r0 + goto_rule_cells(self, nv, nt as nat),
            decreases nc - nt,
        {
            push_dashes(&mut s, widths[nt]);
            push_str(&mut s, "--|");
            proof {
                reveal_strlit("--|");
                reveal_strlit("|");
                assert(dashes(widths@[nt as int] as nat) + "--|"@ =~= dashes((widths@[nt as int] + 2) as nat) + "|"@);
                assert(s@ =~= r0 + goto_rule_cells(self, nv, (nt + 1) as nat));
            }
            nt = nt + 1;
        }
        push_str(&mut s, "\n");
        let ghost l0 = s@;
        let mut state: usize = 0;
        while state < n
            invariant
                state <= n,
                n == self.rows().len(),
                nc == self.columns(),
                forall|k: int| 0 <= k < n ==> (#[trigger] self.rows()[k]).len() == nc,
                nv == views(non_terminal_names@),
                widths@.len() == nc,
                forall|k: int| 0 <= k < nc ==> #[trigger] widths@[k] == goto_width(self, nv, k),
                s@ == l0 + goto_state_lines(self, nv, state as nat),
            decreases n - state,
        {
            let d = crate::text::usize_to_string(state);
            push_pad_left(&mut s, d.as_str(), 5);
            push_str(&mut s, " |");
            let ghost row = self.rows()[state as int];
            let ghost c0 = s@;
            let mut nt: usize = 0;
            while nt < nc
                invariant
                    nt <= nc,
                    state < n,
                    n == self.rows().len(),
                    nc == self.columns(),
                    row == self.rows()[state as int],
                    row.len() == nc,
                    nv == views(non_terminal_names@),
                    widths@.len() == nc,
                    forall|k: int| 0 <= k < nc ==> #[trigger] widths@[k] == goto_width(self, nv, k),
                    s@ == c0 + goto_entry_cells(self, nv, row, nt as nat),
                decreases nc - nt,
            {
                let text: String = match self.get(ItemSetId(state), NonTerminalId(nt)) {
                    Some(target) => crate::text::usize_to_string(target.0),
                    None => String::new(),
                };
                assert(text@ =~= goto_entry_text(row[nt as int]));
                push_str(&mut s, " ");
                push_pad_left(&mut s, text.as_str(), widths[nt]);
                push_str(&mut s, " |");
                proof {
                    assert(s@ =~= c0 + goto_entry_cells(self, nv, row, (nt + 1) as nat));
                }
                nt = nt + 1;
            }
            push_str(&mut s, "\n");
            proof {
                assert(s@ =~= l0 + goto_state_lines(self, nv, (state + 1) as nat));
            }
            state = state + 1;
        }
        s
    }
}

/// The first part of what printing a table writes: the title and a blank line, the
/// ACTION table under the grammar's terminal names, a blank line, and the GOTO table
/// under its non-terminal names.
pub open spec fn table_print_head(title: Seq<char>, a: &ActionTable, g: &GotoTable, cfg: &ContextFreeGrammar) -> Seq<char> {
    title + "\n"@ + "\n"@ + action_print_text(a, views(cfg.terminals@)) + "\n"@ + goto_print_text(
        g,
        views(cfg.non_terminals@),
    )
}

/// A blank line, a heading and one line per conflict; nothing when there is none.
pub open spec fn conflict_block(heading: Seq<char>, cs: Seq<Conflict>) -> Seq<char> {
    if cs.len() > 0 {
        "\n"@ + heading + "\n"@ + conflict_lines(cs)
    } else {
        Seq::empty()
    }
}

fn push_table_head(s: &mut String, title: &str, a: &ActionTable, g: &GotoTable, cfg: &ContextFreeGrammar)
    ensures
        final(s)@ == old(s)@ + table_print_head(title@, a, g, cfg),
{
    push_str(s, title);
    push_str(s, "\n");
    push_str(s, "\n");
    let names = LrTableCore::terminal_names(cfg);
    let at = a.print_text(names.as_slice());
    push_str(s, at.as_str());
    push_str(s, "\n");
    let nt_names = LrTableCore::non_terminal_names(cfg);
    let gt = g.print_text(nt_names.as_slice());
    push_str(s, gt.as_str());
    proof {
        assert(final(s)@ =~= old(s)@ + table_print_head(title@, a, g, cfg));
    }
}

fn push_conflict_block(s: &mut String, heading: &str, cs: &Vec<Conflict>)
    ensures
        final(s)@ == old(s)@ + conflict_block(heading@, cs@),
{
    if cs.len() > 0 {
        push_str(s, "\n");
        push_str(s, heading);
        push_str(s, "\n");
        push_conflict_lines(s, cs);
        proof {
            assert(final(s)@ =~= old(s)@ + conflict_block(heading@, cs@));
        }
    } else {
        assert(old(s)@ + conflict_block(heading@, cs@) =~= old(s)@);
    }
}

impl LrTableCore {
    /// The text that printing the table's heading under `label` writes (see
    /// `table_print_head`).
    pub fn print_header_text(&self, cfg: &ContextFreeGrammar, label: &str) -> (res: String)
        ensures
            res@ == table_print_head(label@, &self.action, &self.goto, cfg),
    {
        let mut s = String::new();
        push_table_head(&mut s, label, &self.action, &self.goto, cfg);
        assert(s@ =~= table_print_head(label@, &self.action, &self.goto, cfg));
        s
    }
}

impl LR0Table {
    /// The text that printing the table writes: the heading, then the conflicts.
    pub fn print_text(&self, cfg: &ContextFreeGrammar) -> (res: String)
        ensures
            res@ == table_print_head("LR(0) Parsing Table:"@, &self.action, &self.goto, cfg) + conflict_block(
                "Conflicts:"@,
                self.conflicts@,
            ),
    {
        let mut s = String::new();
        push_table_head(&mut s, "LR(0) Parsing Table:", &self.action, &self.goto, cfg);
        push_conflict_block(&mut s, "Conflicts:", &self.conflicts);
        assert(s@ =~= table_print_head("LR(0) Parsing Table:"@, &self.action, &self.goto, cfg) + conflict_block(
            "Conflicts:"@,
            self.conflicts@,
        ));
        s
    }
}

impl SLRTable {
    /// The text that printing the table writes: the heading, the conflicts settled
    /// by FOLLOW sets, then those left unresolved.
    pub fn print_text(&self, cfg: &ContextFreeGrammar) -> (res: String)
        ensures
            res@ == table_print_head("SLR(1) Parsing Table:"@, &self.action, &self.goto, cfg) + conflict_block(
                "Resolved conflicts by FOLLOW sets:"@,
                self.resolved_conflicts@,
            ) + conflict_block("Unresolved conflicts:"@, self.conflicts@),
    {
        let mut s = String::new();
        push_table_head(&mut s, "SLR(1) Parsing Table:", &self.action, &self.goto, cfg);
        push_conflict_block(&mut s, "Resolved conflicts by FOLLOW sets:", &self.resolved_conflicts);
        push_conflict_block(&mut s, "Unresolved conflicts:", &self.conflicts);
        assert(s@ =~= table_print_head("SLR(1) Parsing Table:"@, &self.action, &self.goto, cfg) + conflict_block(
            "Resolved conflicts by FOLLOW sets:"@,
            self.resolved_conflicts@,
        ) + conflict_block("Unresolved conflicts:"@, self.conflicts@));
        s
    }
}

impl LR1Table {
    /// The text that printing the table writes: the heading, then the conflicts.
    pub fn print_text(&self, cfg: &ContextFreeGrammar) -> (res: String)
        ensures
            res@ == table_print_head("LR(1) Parsing Table:"@, &self.action, &self.goto, cfg) + conflict_block(
                "Conflicts:"@,
                self.conflicts@,
            ),
    {
        let mut s = String::new();
        push_table_head(&mut s, "LR(1) Parsing Table:", &self.action, &self.goto, cfg);
        push_conflict_block(&mut s, "Conflicts:", &self.conflicts);
        assert(s@ =~= table_print_head("LR(1) Parsing Table:"@, &self.action, &self.goto, cfg) + conflict_block(
            "Conflicts:"@,
            self.conflicts@,
        ));
        s
    }
}

/// The title of a printed LALR(1) table.
pub open spec fn lalr1_title(merged: usize) -> Seq<char> {
    "LALR(1) Parsing Table ("@ + decimal(merged as nat) + " merged states):"@
}

impl LALR1Table {
    /// The text that printing the table writes: the heading (with the number of
    /// merged states), then the conflicts that merging introduced.
    pub fn print_text(&self, cfg: &ContextFreeGrammar) -> (res: String)
        ensures
            res@ == table_print_head(lalr1_title(self.merged_states), &self.action, &self.goto, cfg)
                + conflict_block("Conflicts introduced by merging:"@, self.conflicts@),
    {
        let mut title = String::new();
        push_str(&mut title, "LALR(1) Parsing Table (");
        crate::text::push_usize(&mut title, self.merged_states);
        push_str(&mut title, " merged states):");
        assert(title@ =~= lalr1_title(self.merged_states));
        let mut s = String::new();
        push_table_head(&mut s, title.as_str(), &self.action, &self.goto, cfg);
        push_conflict_block(&mut s, "Conflicts introduced by merging:", &self.conflicts);
        assert(s@ =~= table_print_head(lalr1_title(self.merged_states), &self.action, &self.goto, cfg)
            + conflict_block("Conflicts introduced by merging:"@, self.conflicts@));
        s
    }
}

/// One line per item, written with the grammar's names and indented by two blanks.
pub open spec fn grammar_lines0(g: &ContextFreeGrammar, s: Seq<LR0Item>) -> Seq<char>
    decreases s.len(),
{
    if s.len() == 0 {
        Seq::empty()
    } else {
        grammar_lines0(g, s.drop_last()) + "  "@ + item0_grammar_text(g, s.last()) + "\n"@
    }
}

pub open spec fn grammar_lines1(g: &ContextFreeGrammar, s: Seq<LR1Item>) -> Seq<char>
    decreases s.len(),
{
    if s.len() == 0 {
        Seq::empty()
    } else {
        grammar_lines1(g, s.drop_last()) + "  "@ + item1_grammar_text(g, s.last()) + "\n"@
    }
}

fn push_grammar_lines0(out: &mut String, g: &ContextFreeGrammar, items: &Vec<LR0Item>)
    ensures
        final(out)@ == old(out)@ + grammar_lines0(g, items@),
{
    let ghost start = out@;
    let mut i: usize = 0;
    while i < items.len()
        invariant
            i <= items@.len(),
            out@ == start + grammar_lines0(g, items@.take(i as int)),
        decreases items@.len() - i,
    {
        push_str(out, "  ");
        let t = items[i].format_with_grammar(g);
        push_str(out, t.as_str());
        push_str(out, "\n");
        proof {
            assert(items@.take(i + 1).drop_last() =~= items@.take(i as int));
            assert(out@ =~= start + grammar_lines0(g, items@.take(i + 1)));
        }
        i = i + 1;
    }
    assert(items@.take(items@.len() as int) =~= items@);
}

fn push_grammar_lines1(out: &mut String, g: &ContextFreeGrammar, items: &Vec<LR1Item>)
    ensures
        final(out)@ == old(out)@ + grammar_lines1(g, items@),
{
    let ghost start = out@;
    let mut i: usize = 0;
    while i < items.len()
        invariant
            i <= items@.len(),
            out@ == start + grammar_lines1(g, items@.take(i as int)),
        decreases items@.len() - i,
    {
        push_str(out, "  ");
        let t = items[i].format_with_grammar(g);
        push_str(out, t.as_str());
        push_str(out, "\n");
        proof {
            assert(items@.take(i + 1).drop_last() =~= items@.take(i as int));
            assert(out@ =~= start + grammar_lines1(g, items@.take(i + 1)));
        }
        i = i + 1;
    }
    assert(items@.take(items@.len() as int) =~= items@);
}

/// What printing an LR(0) item set writes: a header with the item count, then the
/// items in increasing order, one per line, with the grammar's names.
pub open spec fn is_set0_print_text(g: &ContextFreeGrammar, set: Set<LR0Item>, t: Seq<char>) -> bool {
    exists|s: Seq<LR0Item>|
        sorted0(s) && s.to_set() == set && t == "LR(0) ItemSet ("@ + decimal(set.len()) + " items):\n"@
            + grammar_lines0(g, s)
}

pub open spec fn is_set1_print_text(g: &ContextFreeGrammar, set: Set<LR1Item>, t: Seq<char>) -> bool {
    exists|s: Seq<LR1Item>|
        sorted1(s) && s.to_set() == set && t == "LR(1) ItemSet ("@ + decimal(set.len()) + " items):\n"@
            + grammar_lines1(g, s)
}

impl LR0ItemSet {
    /// The text that printing the set with `cfg`'s names writes (see `is_set0_print_text`).
    pub fn print_text(&self, cfg: &ContextFreeGrammar) -> (res: String)
        ensures
            is_set0_print_text(cfg, self@, res@),
    {
        let sorted = sort_lr0(self.items());
        let mut s = String::new();
        push_str(&mut s, "LR(0) ItemSet (");
        crate::text::push_usize(&mut s, self.len());
        push_str(&mut s, " items):\n");
        push_grammar_lines0(&mut s, cfg, &sorted);
        proof {
            assert(s@ =~= "LR(0) ItemSet ("@ + decimal(self@.len()) + " items):\n"@ + grammar_lines0(cfg, sorted@));
        }
        s
    }
}

impl LR1ItemSet {
    /// The text that printing the set with `cfg`'s names writes (see `is_set1_print_text`).
    pub fn print_text(&self, cfg: &ContextFreeGrammar) -> (res: String)
        ensures
            is_set1_print_text(cfg, self@, res@),
    {
        let sorted = sort_lr1(self.items());
        let mut s = String::new();
        push_str(&mut s, "LR(1) ItemSet (");
        crate::text::push_usize(&mut s, self.len());
        push_str(&mut s, " items):\n");
        push_grammar_lines1(&mut s, cfg, &sorted);
        proof {
            assert(s@ =~= "LR(1) ItemSet ("@ + decimal(self@.len()) + " items):\n"@ + grammar_lines1(cfg, sorted@));
        }
        s
    }
}

impl AllLR0Items {
    /// The text that printing the list with `cfg`'s names writes: a header with the
    /// item count, then the items in list order, one per line.
    pub fn print_text(&self, cfg: &ContextFreeGrammar) -> (res: String)
        ensures
            res@ == "All LR(0) Items ("@ + decimal(self@.len()) + " items):\n"@ + grammar_lines0(cfg, self@),
    {
        let items = self.iter();
        let mut s = String::new();
        push_str(&mut s, "All LR(0) Items (");
        crate::text::push_usize(&mut s, self.len());
        push_str(&mut s, " items):\n");
        push_grammar_lines0(&mut s, cfg, &items);
        s
    }
}

impl AllLR1Items {
    /// The text that printing the list with `cfg`'s names writes: a header with the
    /// item count, then the items in increasing order (repetitions kept), one per line.
    pub fn print_text(&self, cfg: &ContextFreeGrammar) -> (res: String)
        ensures
            exists|s: Seq<LR1Item>|
                ordered1(s) && s.to_multiset() == self@.to_multiset() && res@ == "All LR(1) Items ("@ + decimal(
                    self@.len(),
                ) + " items):\n"@ + grammar_lines1(cfg, s),
    {
        let items = self.iter();
        let sorted = sort_lr1_list(&items);
        let mut s = String::new();
        push_str(&mut s, "All LR(1) Items (");
        crate::text::push_usize(&mut s, self.len());
        push_str(&mut s, " items):\n");
        push_grammar_lines1(&mut s, cfg, &sorted);
        s
    }
}

/// One line per transition: `  State <from> --<symbol>--> State <to>`.
pub open spec fn transition_lines(g: &ContextFreeGrammar, ts: Seq<(usize, Symbol, usize)>) -> Seq<char>
    decreases ts.len(),
{
    if ts.len() == 0 {
        Seq::empty()
    } else {
        let t = ts.last();
        transition_lines(g, ts.drop_last()) + "  State "@ + decimal(t.0 as nat) + " --"@ + symbol_name(g, t.1)
            + "--> State "@ + decimal(t.2 as nat) + "\n"@
    }
}

/// What printing a collection writes after its header, given the printed states:
/// each state under ` I<number>:` after a blank line.
pub open spec fn state_blocks(texts: Seq<Seq<char>>) -> Seq<char>
    decreases texts.len(),
{
    if texts.len() == 0 {
        Seq::empty()
    } else {
        state_blocks(texts.drop_last()) + "\n I"@ + decimal((texts.len() - 1) as nat) + ":\n"@ + texts.last()
    }
}

fn push_transition_lines(out: &mut String, g: &ContextFreeGrammar, ts: &Vec<(usize, Symbol, usize)>)
    ensures
        final(out)@ == old(out)@ + transition_lines(g, ts@),
{
    let ghost start = out@;
    let mut i: usize = 0;
    while i < ts.len()
        invariant
            i <= ts@.len(),
            out@ == start + transition_lines(g, ts@.take(i as int)),
        decreases ts@.len() - i,
    {
        let (from, sym, to) = ts[i];
        push_str(out, "  State ");
        crate::text::push_usize(out, from);
        push_str(out, " --");
        let name: &str = match sym {
            Symbol::Terminal(t) => g.get_terminal_name(t),
            Symbol::NonTerminal(n) => g.get_non_terminal_name(n),
            Symbol::Epsilon => {
                proof {
                    reveal_strlit("ε");
                }
                "ε"
            },
        };
        assert(name@ == symbol_name(g, sym));
        push_str(out, name);
        push_str(out, "--> State ");
        crate::text::push_usize(out, to);
        push_str(out, "\n");
        proof {
            assert(ts@.take(i + 1).drop_last() =~= ts@.take(i as int));
            assert(out@ =~= start + transition_lines(g, ts@.take(i + 1)));
        }
        i = i + 1;
    }
    assert(ts@.take(ts@.len() as int) =~= ts@);
}

impl LR0ItemSetCollection {
    /// The text that printing the collection with `cfg`'s names writes: a header
    /// with the state count, each state under its number, then the transitions
    /// ordered by source and target state.
    pub fn print_text(&self, cfg: &ContextFreeGrammar) -> (res: String)
        ensures
            exists|texts: Seq<Seq<char>>, ts: Seq<(usize, Symbol, usize)>|
                {
                    &&& texts.len() == self.spec_states().len()
                    &&& forall|i: int|
                        0 <= i < texts.len() ==> is_set0_print_text(cfg, self.spec_states()[i], #[trigger] texts[i])
                    &&& ordered_transitions(ts)
                    &&& ts.to_multiset() == self.spec_transitions().to_multiset()
                    &&& res@ == "LR(0) Item Set Collection ("@ + decimal(self.spec_states().len()) + " states):\n"@
                        + state_blocks(texts) + "\nTransitions: \n"@ + transition_lines(cfg, ts)
                },
    {
        let states = self.states();
        let mut s = String::new();
        push_str(&mut s, "LR(0) Item Set Collection (");
        crate::text::push_usize(&mut s, self.len());
        push_str(&mut s, " states):\n");
        let ghost header = s@;
        let ghost mut texts: Seq<Seq<char>> = Seq::empty();
        let mut i: usize = 0;
        while i < states.len()
            invariant
                i <= states@.len(),
                views0(states@) == self.spec_states(),
                texts.len() == i,
                forall|k: int| 0 <= k < i ==> is_set0_print_text(cfg, views0(states@)[k], #[trigger] texts[k]),
                s@ == header + state_blocks(texts),
            decreases states@.len() - i,
        {
            push_str(&mut s, "\n I");
            crate::text::push_usize(&mut s, i);
            push_str(&mut s, ":\n");
            let t = states[i].print_text(cfg);
            push_str(&mut s, t.as_str());
            proof {
                let old_texts = texts;
                texts = texts.push(t@);
                assert(texts.drop_last() =~= old_texts);
                assert(views0(states@)[i as int] == states@[i as int]@);
                assert forall|k: int| 0 <= k < i + 1 implies is_set0_print_text(
                    cfg,
                    views0(states@)[k],
                    #[trigger] texts[k],
                ) by {
                    if k < i {
                        assert(texts[k] == old_texts[k]);
                    }
                }
                assert(s@ =~= header + state_blocks(texts));
            }
            i = i + 1;
        }
        push_str(&mut s, "\nTransitions: \n");
        let sorted = sort_transitions(self.transitions());
        push_transition_lines(&mut s, cfg, &sorted);
        s
    }
}

impl LR1ItemSetCollection {
    /// The text that printing the collection with `cfg`'s names writes: a header
    /// with the state count, each state under its number, then the transitions
    /// ordered by source and target state.
    pub fn print_text(&self, cfg: &ContextFreeGrammar) -> (res: String)
        ensures
            exists|texts: Seq<Seq<char>>, ts: Seq<(usize, Symbol, usize)>|
                {
                    &&& texts.len() == self.spec_states().len()
                    &&& forall|i: int|
                        0 <= i < texts.len() ==> is_set1_print_text(cfg, self.spec_states()[i], #[trigger] texts[i])
                    &&& ordered_transitions(ts)
                    &&& ts.to_multiset() == self.spec_transitions().to_multiset()
                    &&& res@ == "LR(1) Item Set Collection ("@ + decimal(self.spec_states().len()) + " states):\n"@
                        + state_blocks(texts) + "\nTransitions: \n"@ + transition_lines(cfg, ts)
                },
    {
        let states = self.states();
        let mut s = String::new();
        push_str(&mut s, "LR(1) Item Set Collection (");
        crate::text::push_usize(&mut s, self.len());
        push_str(&mut s, " states):\n");
        let ghost header = s@;
        let ghost mut texts: Seq<Seq<char>> = Seq::empty();
        let mut i: usize = 0;
        while i < states.len()
            invariant
                i <= states@.len(),
                views1(states@) == self.spec_states(),
                texts.len() == i,
                forall|k: int| 0 <= k < i ==> is_set1_print_text(cfg, views1(states@)[k], #[trigger] texts[k]),
                s@ == header + state_blocks(texts),
            decreases states@.len() - i,
        {
            push_str(&mut s, "\n I");
            crate::text::push_usize(&mut s, i);
            push_str(&mut s, ":\n");
            let t = states[i].print_text(cfg);
            push_str(&mut s, t.as_str());
            proof {
                let old_texts = texts;
                texts = texts.push(t@);
                assert(texts.drop_last() =~= old_texts);
                assert(views1(states@)[i as int] == states@[i as int]@);
                assert forall|k: int| 0 <= k < i + 1 implies is_set1_print_text(
                    cfg,
                    views1(states@)[k],
                    #[trigger] texts[k],
                ) by {
                    if k < i {
                        assert(texts[k] == old_texts[k]);
                    }
                }
                assert(s@ =~= header + state_blocks(texts));
            }
            i = i + 1;
        }
        push_str(&mut s, "\nTransitions: \n");
        let sorted = sort_transitions(self.transitions());
        push_transition_lines(&mut s, cfg, &sorted);
        s
    }
}

} // verus!
