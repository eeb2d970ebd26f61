//! Printed forms of items, item sets, tables, conflicts and errors.
use vstd::prelude::*;
use crate::cfg::{ContextFreeGrammar, NonTerminalId, Production, Symbol, TerminalId, spec_is_epsilon_rhs};
use crate::lr::item::{Item, LR0Item, LR1Item};
use crate::text::{decimal, join, join_strings, push_str, push_usize, views};
use crate::lr::item_set::{LR0ItemSet, LR1ItemSet};
use crate::lr::lookahead::LookaheadSet;
use crate::lr::core_set::CoreSet;
use crate::lr::all_items::{AllLR0Items, AllLR1Items};
use crate::lr::states::{LR0ItemSetCollection, LR1ItemSetCollection, views0, views1};
use crate::lr::sorting::{lex_lt, sort_lr0, sort_lr1, sort_strings, sorted0, sorted1, sorted_lex};

verus! {

/// `[p · d]`
pub open spec fn item0_text(it: LR0Item) -> Seq<char> {
    "["@ + decimal(it.production_index as nat) + " · "@ + decimal(it.dot_position as nat) + "]"@
}

/// `[p · d, a]`
pub open spec fn item1_text(it: LR1Item) -> Seq<char> {
    "["@ + decimal(it.production_index as nat) + " · "@ + decimal(it.dot_position as nat) + ", "@ + decimal(
        it.lookahead.0 as nat,
    ) + "]"@
}

pub open spec fn item_text(it: Item) -> Seq<char> {
    match it {
        Item::LR0(i) => item0_text(i),
        Item::LR1(i) => item1_text(i),
    }
}

impl LR0Item {
    /// The printed form `[p · d]`.
    pub fn to_string(&self) -> (res: String)
        ensures
            res@ == item0_text(*self),
    {
        let mut s = String::new();
        push_str(&mut s, "[");
        push_usize(&mut s, self.production_index);
        push_str(&mut s, " · ");
        push_usize(&mut s, self.dot_position);
        push_str(&mut s, "]");
        proof {
            assert(s@ =~= item0_text(*self));
        }
        s
    }

    /// The item with the grammar's names: `[A -> α · β]` (see `item0_grammar_text`).
    pub fn format_with_grammar(&self, cfg: &ContextFreeGrammar) -> (res: String)
        ensures
            res@ == item0_grammar_text(cfg, *self),
    {
        if self.production_index < cfg.productions.len() {
            let production = &cfg.productions[self.production_index];
            let mut s = String::new();
            push_str(&mut s, "[");
            push_str(&mut s, cfg.get_non_terminal_name(production.lhs));
            push_str(&mut s, " -> ");
            let rhs = rhs_with_dot(cfg, production, self.dot_position);
            push_str(&mut s, rhs.as_str());
            push_str(&mut s, "]");
            proof {
                assert(s@ =~= item0_grammar_text(cfg, *self));
            }
            s
        } else {
            self.to_string()
        }
    }
}

impl LR1Item {
    /// The printed form `[p · d, a]`.
    pub fn to_string(&self) -> (res: String)
        ensures
            res@ == item1_text(*self),
    {
        let mut s = String::new();
        push_str(&mut s, "[");
        push_usize(&mut s, self.production_index);
        push_str(&mut s, " · ");
        push_usize(&mut s, self.dot_position);
        push_str(&mut s, ", ");
        push_usize(&mut s, self.lookahead.0);
        push_str(&mut s, "]");
        proof {
            assert(s@ =~= item1_text(*self));
        }
        s
    }

    /// The item with the grammar's names: `[A -> α · β, a]` (see `item1_grammar_text`).
    pub fn format_with_grammar(&self, cfg: &ContextFreeGrammar) -> (res: String)
        ensures
            res@ == item1_grammar_text(cfg, *self),
    {
        if self.production_index < cfg.productions.len() {
            let production = &cfg.productions[self.production_index];
            let mut s = String::new();
            push_str(&mut s, "[");
            push_str(&mut s, cfg.get_non_terminal_name(production.lhs));
            push_str(&mut s, " -> ");
            let rhs = rhs_with_dot(cfg, production, self.dot_position);
            push_str(&mut s, rhs.as_str());
            push_str(&mut s, ", ");
            push_str(&mut s, cfg.get_terminal_name(self.lookahead));
            push_str(&mut s, "]");
            proof {
                assert(s@ =~= item1_grammar_text(cfg, *self));
            }
            s
        } else {
            self.to_string()
        }
    }
}

impl Item {
    pub fn to_string(&self) -> (res: String)
        ensures
            res@ == item_text(*self),
    {
        match self {
            Item::LR0(i) => i.to_string(),
            Item::LR1(i) => i.to_string(),
        }
    }
}

/// The grammar's name for a symbol (`ε` for the empty string).
pub open spec fn symbol_name(g: &ContextFreeGrammar, sym: Symbol) -> Seq<char> {
    match sym {
        Symbol::NonTerminal(id) => g.spec_non_terminal_name(id),
        Symbol::Terminal(id) => g.spec_terminal_name(id),
        Symbol::Epsilon => "ε"@,
    }
}

/// A right-hand side with the dot: the names separated by blanks, `· ` before the
/// symbol at the dot, ` ·` at the end once the dot is past the last symbol; `· ε`
/// or `ε ·` for an epsilon production.
pub open spec fn dotted_rhs(names: Seq<Seq<char>>, rhs: Seq<Symbol>, dot: usize) -> Seq<char> {
    if spec_is_epsilon_rhs(rhs) {
        if dot == 0 {
            "· ε"@
        } else {
            "ε ·"@
        }
    } else {
        let parts = dotted_parts(names, dot);
        if dot >= rhs.len() {
            join(parts, " "@) + " ·"@
        } else {
            join(parts, " "@)
        }
    }
}

/// The names, the one at the dot marked with `· `.
pub open spec fn dotted_parts(names: Seq<Seq<char>>, dot: usize) -> Seq<Seq<char>> {
    Seq::new(names.len(), |i: int| if i == dot { "· "@ + names[i] } else { names[i] })
}

/// The names of the symbols of a right-hand side.
pub open spec fn rhs_names(g: &ContextFreeGrammar, rhs: Seq<Symbol>) -> Seq<Seq<char>> {
    rhs.map_values(|s: Symbol| symbol_name(g, s))
}

pub open spec fn item0_grammar_text(g: &ContextFreeGrammar, it: LR0Item) -> Seq<char> {
    if it.production_index < g.productions.len() {
        let p = g.productions@[it.production_index as int];
        "["@ + g.spec_non_terminal_name(p.lhs) + " -> "@ + dotted_rhs(rhs_names(g, p.rhs@), p.rhs@, it.dot_position)
            + "]"@
    } else {
        item0_text(it)
    }
}

pub open spec fn item1_grammar_text(g: &ContextFreeGrammar, it: LR1Item) -> Seq<char> {
    if it.production_index < g.productions.len() {
        let p = g.productions@[it.production_index as int];
        "["@ + g.spec_non_terminal_name(p.lhs) + " -> "@ + dotted_rhs(rhs_names(g, p.rhs@), p.rhs@, it.dot_position)
            + ", "@ + g.spec_terminal_name(it.lookahead) + "]"@
    } else {
        item1_text(it)
    }
}

/// The right-hand side of a production with its symbols named and the dot placed,
/// given the names of its symbols.
fn dotted(names: &Vec<String>, production: &Production, dot: usize) -> (res: String)
    requires
        names@.len() == production.rhs@.len(),
    ensures
        res@ == dotted_rhs(views(names@), production.rhs@, dot),
{
    let mut s = String::new();
    if production.is_epsilon() {
        if dot == 0 {
            push_str(&mut s, "· ε");
        } else {
            push_str(&mut s, "ε ·");
        }
        return s;
    }
    let ghost nv = views(names@);
    let mut parts: Vec<String> = Vec::new();
    let mut i: usize = 0;
    while i < names.len()
        invariant
            i <= names@.len(),
            nv == views(names@),
            views(parts@) =~= dotted_parts(nv, dot).take(i as int),
        decreases names@.len() - i,
    {
        let mut part = String::new();
        if i == dot {
            push_str(&mut part, "· ");
        }
        push_str(&mut part, names[i].as_str());
        let ghost before = parts@;
        parts.push(part);
        proof {
            assert(views(parts@) =~= views(before).push(part@));
        }
        i = i + 1;
    }
    let joined = join_strings(&parts, " ");
    push_str(&mut s, joined.as_str());
    if dot >= production.rhs.len() {
        push_str(&mut s, " ·");
    }
    proof {
        let full = dotted_parts(nv, dot);
        assert(full.take(nv.len() as int) =~= full);
        assert(views(parts@) == full);
        assert(joined@ == join(full, " "@));
        assert(s@ =~= dotted_rhs(nv, production.rhs@, dot));
    }
    s
}

/// The grammar's names for the symbols of a production.
fn rhs_name_strings(cfg: &ContextFreeGrammar, production: &Production) -> (res: Vec<String>)
    ensures
        views(res@) == rhs_names(cfg, production.rhs@),
{
    let mut res: Vec<String> = Vec::new();
    let mut i: usize = 0;
    while i < production.rhs.len()
        invariant
            i <= production.rhs@.len(),
            views(res@) =~= rhs_names(cfg, production.rhs@).take(i as int),
        decreases production.rhs@.len() - i,
    {
        let mut s = String::new();
        match production.rhs[i] {
            Symbol::NonTerminal(id) => push_str(&mut s, cfg.get_non_terminal_name(id)),
            Symbol::Terminal(id) => push_str(&mut s, cfg.get_terminal_name(id)),
            Symbol::Epsilon => push_str(&mut s, "ε"),
        }
        let ghost before = res@;
        res.push(s);
        proof {
            assert(views(res@) =~= views(before).push(s@));
        }
        i = i + 1;
    }
    assert(rhs_names(cfg, production.rhs@).take(production.rhs@.len() as int) =~= rhs_names(cfg, production.rhs@));
    res
}

/// The dotted right-hand side with the grammar's names.
fn rhs_with_dot(cfg: &ContextFreeGrammar, production: &Production, dot: usize) -> (res: String)
    ensures
        res@ == dotted_rhs(rhs_names(cfg, production.rhs@), production.rhs@, dot),
{
    let names = rhs_name_strings(cfg, production);
    dotted(&names, production, dot)
}

/// The names `format_item` gives the symbols of a production: `N` and the number
/// for a non-terminal, the given name for a terminal.
pub open spec fn item_rhs_names(rhs: Seq<Symbol>, terminal_names: Seq<String>) -> Seq<Seq<char>> {
    rhs.map_values(
        |s: Symbol|
            match s {
                Symbol::NonTerminal(id) => "N"@ + decimal(id.0 as nat),
                Symbol::Terminal(id) => terminal_names[id.0 as int]@,
                Symbol::Epsilon => "ε"@,
            },
    )
}

/// Every terminal of `rhs` has a name.
pub open spec fn names_cover(rhs: Seq<Symbol>, n: nat) -> bool {
    forall|i: int| 0 <= i < rhs.len() ==> (#[trigger] rhs[i] matches Symbol::Terminal(t) ==> t.0 < n)
}

/// `[A -> α · β]`, with `, a` before the bracket for an LR(1) item.
pub open spec fn format_item_text(item: Item, production: &Production, lhs_name: Seq<char>, terminal_names: Seq<String>) -> Seq<
    char,
> {
    let la = match item {
        Item::LR1(i) => ", "@ + terminal_names[i.lookahead.0 as int]@,
        _ => Seq::empty(),
    };
    "["@ + lhs_name + " -> "@ + dotted_rhs(
        item_rhs_names(production.rhs@, terminal_names),
        production.rhs@,
        item.spec_dot_position(),
    ) + la + "]"@
}

/// Prints an item with the given names for the left-hand side and the terminals
/// (non-terminals print as `N` and their number).
pub fn format_item(item: &Item, production: &Production, lhs_name: &str, terminal_names: &[String]) -> (res: String)
    requires
        names_cover(production.rhs@, terminal_names@.len() as nat),
        item matches Item::LR1(i) ==> i.lookahead.0 < terminal_names@.len(),
    ensures
        res@ == format_item_text(*item, production, lhs_name@, terminal_names@),
{
    let dot_pos = item.dot_position();
    let mut names: Vec<String> = Vec::new();
    let mut i: usize = 0;
    while i < production.rhs.len()
        invariant
            i <= production.rhs@.len(),
            names_cover(production.rhs@, terminal_names@.len() as nat),
            views(names@) =~= item_rhs_names(production.rhs@, terminal_names@).take(i as int),
        decreases production.rhs@.len() - i,
    {
        let mut s = String::new();
        let sym = production.rhs[i];
        assert(production.rhs@[i as int] == sym);
        match sym {
            Symbol::NonTerminal(id) => {
                push_str(&mut s, "N");
                push_usize(&mut s, id.0);
            },
            Symbol::Terminal(id) => push_str(&mut s, terminal_names[id.0].as_str()),
            Symbol::Epsilon => push_str(&mut s, "ε"),
        }
        let ghost before = names@;
        names.push(s);
        proof {
            assert(views(names@) =~= views(before).push(s@));
        }
        i = i + 1;
    }
    assert(item_rhs_names(production.rhs@, terminal_names@).take(production.rhs@.len() as int) =~= item_rhs_names(
        production.rhs@,
        terminal_names@,
    ));
    let rhs = dotted(&names, production, dot_pos);
    let mut s = String::new();
    push_str(&mut s, "[");
    push_str(&mut s, lhs_name);
    push_str(&mut s, " -> ");
    push_str(&mut s, rhs.as_str());
    match item {
        Item::LR1(i) => {
            push_str(&mut s, ", ");
            push_str(&mut s, terminal_names[i.lookahead.0].as_str());
        },
        _ => {},
    }
    push_str(&mut s, "]");
    proof {
        assert(s@ =~= format_item_text(*item, production, lhs_name@, terminal_names@));
    }
    s
}

/// One line per item: two blanks, the item, a line break.
pub open spec fn lines0(s: Seq<LR0Item>) -> Seq<char>
    decreases s.len(),
{
    if s.len() == 0 {
        Seq::empty()
    } else {
        lines0(s.drop_last()) + "  "@ + item0_text(s.last()) + "\n"@
    }
}

pub open spec fn lines1(s: Seq<LR1Item>) -> Seq<char>
    decreases s.len(),
{
    if s.len() == 0 {
        Seq::empty()
    } else {
        lines1(s.drop_last()) + "  "@ + item1_text(s.last()) + "\n"@
    }
}

/// The printed form of an LR(0) item set: a header with the item count, then the
/// items in increasing order, one per line.
pub open spec fn is_set0_text(set: Set<LR0Item>, t: Seq<char>) -> bool {
    exists|s: Seq<LR0Item>|
        sorted0(s) && s.to_set() == set && t == "LR(0) ItemSet ("@ + decimal(set.len()) + " items):\n"@ + lines0(s)
}

pub open spec fn is_set1_text(set: Set<LR1Item>, t: Seq<char>) -> bool {
    exists|s: Seq<LR1Item>|
        sorted1(s) && s.to_set() == set && t == "LR(1) ItemSet ("@ + decimal(set.len()) + " items):\n"@ + lines1(s)
}

fn push_lines0(out: &mut String, items: &Vec<LR0Item>)
    ensures
        final(out)@ == old(out)@ + lines0(items@),
{
    let ghost start = out@;
    let mut i: usize = 0;
    while i < items.len()
        invariant
            i <= items@.len(),
            out@ == start + lines0(items@.take(i as int)),
        decreases items@.len() - i,
    {
        push_str(out, "  ");
        let t = items[i].to_string();
        push_str(out, t.as_str());
        push_str(out, "\n");
        proof {
            assert(items@.take(i + 1).drop_last() =~= items@.take(i as int));
            assert(out@ =~= start + lines0(items@.take(i + 1)));
        }
        i = i + 1;
    }
    assert(items@.take(items@.len() as int) =~= items@);
}

fn push_lines1(out: &mut String, items: &Vec<LR1Item>)
    ensures
        final(out)@ == old(out)@ + lines1(items@),
{
    let ghost start = out@;
    let mut i: usize = 0;
    while i < items.len()
        invariant
            i <= items@.len(),
            out@ == start + lines1(items@.take(i as int)),
        decreases items@.len() - i,
    {
        push_str(out, "  ");
        let t = items[i].to_string();
        push_str(out, t.as_str());
        push_str(out, "\n");
        proof {
            assert(items@.take(i + 1).drop_last() =~= items@.take(i as int));
            assert(out@ =~= start + lines1(items@.take(i + 1)));
        }
        i = i + 1;
    }
    assert(items@.take(items@.len() as int) =~= items@);
}

impl LR0ItemSet {
    /// The printed form (see `is_set0_text`).
    pub fn to_string(&self) -> (res: String)
        ensures
            is_set0_text(self@, res@),
    {
        let sorted = sort_lr0(self.items());
        let mut s = String::new();
        push_str(&mut s, "LR(0) ItemSet (");
        push_usize(&mut s, self.len());
        push_str(&mut s, " items):\n");
        push_lines0(&mut s, &sorted);
        proof {
            assert(s@ =~= "LR(0) ItemSet ("@ + decimal(self@.len()) + " items):\n"@ + lines0(sorted@));
        }
        s
    }
}

impl LR1ItemSet {
    /// The printed form (see `is_set1_text`).
    pub fn to_string(&self) -> (res: String)
        ensures
            is_set1_text(self@, res@),
    {
        let sorted = sort_lr1(self.items());
        let mut s = String::new();
        push_str(&mut s, "LR(1) ItemSet (");
        push_usize(&mut s, self.len());
        push_str(&mut s, " items):\n");
        push_lines1(&mut s, &sorted);
        proof {
            assert(s@ =~= "LR(1) ItemSet ("@ + decimal(self@.len()) + " items):\n"@ + lines1(sorted@));
        }
        s
    }
}

/// The decimal numbers of a set of terminals.
pub open spec fn terminal_numbers(set: Set<TerminalId>) -> Set<Seq<char>> {
    set.map(|t: TerminalId| decimal(t.0 as nat))
}

/// The printed form of a lookahead set: `{ ` the numbers in string order separated by `, ` ` }`.
pub open spec fn is_lookahead_text(set: Set<TerminalId>, t: Seq<char>) -> bool {
    exists|s: Seq<Seq<char>>|
        sorted_lex(s) && s.to_set() == terminal_numbers(set) && t == "{ "@ + join(s, ", "@) + " }"@
}

impl LookaheadSet {
    /// The printed form (see `is_lookahead_text`).
    pub fn to_string(&self) -> (res: String)
        ensures
            is_lookahead_text(self@, res@),
    {
        let terms = self.terminals();
        let mut numbers: Vec<String> = Vec::new();
        let mut i: usize = 0;
        while i < terms.len()
            invariant
                i <= terms@.len(),
                numbers@.map_values(|s: String| s@) == terms@.take(i as int).map_values(|t: TerminalId| decimal(t.0 as nat)),
            decreases terms@.len() - i,
        {
            let d = crate::text::usize_to_string(terms[i].0);
            let ghost before = numbers@;
            numbers.push(d);
            proof {
                assert(numbers@.map_values(|s: String| s@) =~= before.map_values(|s: String| s@).push(d@));
                assert(terms@.take(i + 1) =~= terms@.take(i as int).push(terms@[i as int]));
                assert(terms@.take(i + 1).map_values(|t: TerminalId| decimal(t.0 as nat)) =~= terms@.take(i as int).map_values(
                    |t: TerminalId| decimal(t.0 as nat),
                ).push(decimal(terms@[i as int].0 as nat)));
            }
            i = i + 1;
        }
        assert(terms@.take(terms@.len() as int) =~= terms@);
        let sorted = sort_strings(&numbers);
        let body = join_strings(&sorted, ", ");
        let mut s = String::new();
        push_str(&mut s, "{ ");
        push_str(&mut s, body.as_str());
        push_str(&mut s, " }");
        proof {
            let nv = terms@.map_values(|t: TerminalId| decimal(t.0 as nat));
            assert(nv.to_set() =~= terminal_numbers(self@)) by {
                assert forall|x: Seq<char>| nv.to_set().contains(x) <==> terminal_numbers(self@).contains(x) by {
                    if nv.contains(x) {
                        let k = choose|k: int| 0 <= k < nv.len() && nv[k] == x;
                        assert(terms@.to_set().contains(terms@[k]));
                    }
                    if terminal_numbers(self@).contains(x) {
                        let t = choose|t: TerminalId| self@.contains(t) && decimal(t.0 as nat) == x;
                        assert(terms@.to_set().contains(t));
                        let k = choose|k: int| 0 <= k < terms@.len() && terms@[k] == t;
                        assert(nv[k] == x);
                    }
                }
            }
            assert(views(sorted@) == sorted@.map_values(|s: String| s@));
            assert(s@ =~= "{ "@ + join(sorted@.map_values(|s: String| s@), ", "@) + " }"@);
        }
        s
    }
}

/// The printed form of a core: `Core({ ` the items in increasing order separated by `, ` ` })`.
pub open spec fn is_core_text(set: Set<LR0Item>, t: Seq<char>) -> bool {
    exists|s: Seq<LR0Item>|
        sorted0(s) && s.to_set() == set && t == "Core({ "@ + join(s.map_values(|i: LR0Item| item0_text(i)), ", "@)
            + " })"@
}

impl CoreSet {
    /// The printed form (see `is_core_text`).
    pub fn to_string(&self) -> (res: String)
        ensures
            is_core_text(self@, res@),
    {
        let sorted = sort_lr0(self.items());
        let mut parts: Vec<String> = Vec::new();
        let mut i: usize = 0;
        while i < sorted.len()
            invariant
                i <= sorted@.len(),
                views(parts@) =~= sorted@.take(i as int).map_values(|x: LR0Item| item0_text(x)),
            decreases sorted@.len() - i,
        {
            let t = sorted[i].to_string();
            let ghost before = parts@;
            parts.push(t);
            proof {
                assert(views(parts@) =~= views(before).push(t@));
                assert(sorted@.take(i + 1) =~= sorted@.take(i as int).push(sorted@[i as int]));
            }
            i = i + 1;
        }
        assert(sorted@.take(sorted@.len() as int) =~= sorted@);
        let body = join_strings(&parts, ", ");
        let mut s = String::new();
        push_str(&mut s, "Core({ ");
        push_str(&mut s, body.as_str());
        push_str(&mut s, " })");
        proof {
            assert(views(parts@) == sorted@.map_values(|x: LR0Item| item0_text(x)));
            assert(s@ =~= "Core({ "@ + join(sorted@.map_values(|x: LR0Item| item0_text(x)), ", "@) + " })"@);
        }
        s
    }
}

impl AllLR0Items {
    /// A header with the count, then each item on its own line.
    pub fn to_string(&self) -> (res: String)
        ensures
            res@ == "All LR(0) Items ("@ + decimal(self@.len()) + " items):\n"@ + lines0(self@),
    {
        let items = self.iter();
        let mut s = String::new();
        push_str(&mut s, "All LR(0) Items (");
        push_usize(&mut s, self.len());
        push_str(&mut s, " items):\n");
        push_lines0(&mut s, &items);
        s
    }
}

impl AllLR1Items {
    /// A header with the count, then each item on its own line.
    pub fn to_string(&self) -> (res: String)
        ensures
            res@ == "All LR(1) Items ("@ + decimal(self@.len()) + " items):\n"@ + lines1(self@),
    {
        let items = self.iter();
        let mut s = String::new();
        push_str(&mut s, "All LR(1) Items (");
        push_usize(&mut s, self.len());
        push_str(&mut s, " items):\n");
        push_lines1(&mut s, &items);
        s
    }
}

/// The printed form of a collection of LR(0) states, given the printed states.
pub open spec fn collection_text(header: Seq<char>, texts: Seq<Seq<char>>) -> Seq<char>
    decreases texts.len(),
{
    if texts.len() == 0 {
        header
    } else {
        collection_text(header, texts.drop_last()) + "\n=== State "@ + decimal((texts.len() - 1) as nat) + " ===\n"@
            + texts.last()
    }
}

impl LR0ItemSetCollection {
    /// A header with the state count, then each state under its number.
    pub fn to_string(&self) -> (res: String)
        ensures
            exists|texts: Seq<Seq<char>>|
                texts.len() == self.spec_states().len() && (forall|i: int|
                    0 <= i < texts.len() ==> is_set0_text(self.spec_states()[i], #[trigger] texts[i])) && res@
                    == collection_text(
                    "LR(0) Item Set Collection ("@ + decimal(self.spec_states().len()) + " states):\n"@,
                    texts,
                ),
    {
        let states = self.states();
        let mut s = String::new();
        push_str(&mut s, "LR(0) Item Set Collection (");
        push_usize(&mut s, self.len());
        push_str(&mut s, " states):\n");
        let ghost header = s@;
        let ghost mut texts: Seq<Seq<char>> = Seq::empty();
        let mut i: usize = 0;
        while i < states.len()
            invariant
                i <= states@.len(),
                views0(states@) == self.spec_states(),
                texts.len() == i,
                forall|k: int| 0 <= k < i ==> is_set0_text(views0(states@)[k], #[trigger] texts[k]),
                s@ == collection_text(header, texts),
            decreases states@.len() - i,
        {
            push_str(&mut s, "\n=== State ");
            push_usize(&mut s, i);
            push_str(&mut s, " ===\n");
            let t = states[i].to_string();
            push_str(&mut s, t.as_str());
            proof {
                let old_texts = texts;
                texts = texts.push(t@);
                assert(texts.drop_last() =~= old_texts);
                assert(views0(states@)[i as int] == states@[i as int]@);
                assert forall|k: int| 0 <= k < i + 1 implies is_set0_text(views0(states@)[k], #[trigger] texts[k]) by {
                    if k < i {
                        assert(texts[k] == old_texts[k]);
                    }
                }
            }
            i = i + 1;
        }
        s
    }
}

impl LR1ItemSetCollection {
    /// A header with the state count, then each state under its number.
    pub fn to_string(&self) -> (res: String)
        ensures
            exists|texts: Seq<Seq<char>>|
                texts.len() == self.spec_states().len() && (forall|i: int|
                    0 <= i < texts.len() ==> is_set1_text(self.spec_states()[i], #[trigger] texts[i])) && res@
                    == collection_text(
                    "LR(1) Item Set Collection ("@ + decimal(self.spec_states().len()) + " states):\n"@,
                    texts,
                ),
    {
        let states = self.states();
        let mut s = String::new();
        push_str(&mut s, "LR(1) Item Set Collection (");
        push_usize(&mut s, self.len());
        push_str(&mut s, " states):\n");
        let ghost header = s@;
        let ghost mut texts: Seq<Seq<char>> = Seq::empty();
        let mut i: usize = 0;
        while i < states.len()
            invariant
                i <= states@.len(),
                views1(states@) == self.spec_states(),
                texts.len() == i,
                forall|k: int| 0 <= k < i ==> is_set1_text(views1(states@)[k], #[trigger] texts[k]),
                s@ == collection_text(header, texts),
            decreases states@.len() - i,
        {
            push_str(&mut s, "\n=== State ");
            push_usize(&mut s, i);
            push_str(&mut s, " ===\n");
            let t = states[i].to_string();
            push_str(&mut s, t.as_str());
            proof {
                let old_texts = texts;
                texts = texts.push(t@);
                assert(texts.drop_last() =~= old_texts);
                assert(views1(states@)[i as int] == states@[i as int]@);
                assert forall|k: int| 0 <= k < i + 1 implies is_set1_text(views1(states@)[k], #[trigger] texts[k]) by {
                    if k < i {
                        assert(texts[k] == old_texts[k]);
                    }
                }
            }
            i = i + 1;
        }
        s
    }
}

} // verus!
