//! Properties that relate several operations of the library.
use vstd::prelude::*;
use crate::cfg::{ContextFreeGrammar, TerminalId};
use crate::lr::action::{Action, ActionTable};
use crate::lr::closure::{is_lr0_closure, is_lr1_closure, lr0_closed, lr1_closed};
use crate::lr::goto::{GotoTable, ItemSetId};
use crate::lr::item::{LR0Item, LR1Item};
use crate::lr::lookahead::{LookaheadCalculator, LookaheadSet};
use crate::lr::stack::StackSymbol;
use crate::semantic::ir::{label_text, temp_text};
use crate::text::lemma_decimal_injective;
use crate::semantic::basic_block::{BasicBlock, block_end, block_starts, ends_block, is_leader, splits_into};
use crate::semantic::dag::{
    DagState, NodeView, add_node, attach, dag_run, dag_step, dag_wf, find_node, node_for, resolve,
};
use crate::semantic::quadruple::{Quadruple, cse_run, cse_step, signature};
use crate::semantic::tac::{Operand, TacInstr, same_instr, same_instrs};
use crate::lr::item_set::cores;
use crate::lr::table::{is_lalr_merge, numbered_in_order};
use crate::counting::lemma_distinct_in_range;

verus! {

/// Reading an ACTION cell after writing it gives the written action back, and every
/// other cell keeps its value (`after` is the table as `ActionTable::set` leaves it).
pub proof fn action_read_after_write(
    before: ActionTable,
    after: ActionTable,
    state: ItemSetId,
    terminal: TerminalId,
    action: Action,
    s: int,
    t: int,
)
    requires
        state.0 < before.cells().len(),
        terminal.0 <= before.terminals(),
        before.shaped(before.cells().len()),
        after.cells() == before.cells().update(
            state.0 as int,
            before.cells()[state.0 as int].update(terminal.0 as int, action),
        ),
        0 <= s < before.cells().len(),
        0 <= t <= before.terminals(),
    ensures
        after.cells()[s][t] == (if s == state.0 && t == terminal.0 {
            action
        } else {
            before.cells()[s][t]
        }),
        after.cells()[s].len() == before.cells()[s].len(),
{
}

/// Reading a GOTO entry after writing it gives the written state back, and every
/// other entry keeps its value (`after` is the table as `GotoTable::set` leaves it).
pub proof fn goto_read_after_write(
    before: GotoTable,
    after: GotoTable,
    state: ItemSetId,
    nt: usize,
    next: ItemSetId,
    s: int,
    n: int,
)
    requires
        state.0 < before.rows().len(),
        nt < before.columns(),
        forall|k: int| 0 <= k < before.rows().len() ==> (#[trigger] before.rows()[k]).len() == before.columns(),
        after.columns() == before.columns(),
        after.rows() == before.rows().update(
            state.0 as int,
            before.rows()[state.0 as int].update(nt as int, Some(next)),
        ),
        0 <= s < before.rows().len(),
    ensures
        after.entry(s, n) == (if s == state.0 && n == nt {
            Some(next)
        } else {
            before.entry(s, n)
        }),
{
}

/// Popping right after a push gives the pushed entry back and restores the stack.
pub proof fn pop_undoes_push(stack: Seq<StackSymbol>, symbol: StackSymbol)
    ensures
        stack.push(symbol).len() > 0,
        stack.push(symbol).last() == symbol,
        stack.push(symbol).drop_last() == stack,
{
    assert(stack.push(symbol).drop_last() =~= stack);
}

/// Lookahead sets obey the laws of finite sets: the part of `a` outside `b` and the
/// part inside it make up `a`, union and intersection are symmetric, and
/// `|a ∪ b| + |a ∩ b| == |a| + |b|`.
pub proof fn lookahead_set_algebra(a: LookaheadSet, b: LookaheadSet)
    requires
        a@.finite(),
        b@.finite(),
    ensures
        a@.difference(b@).union(a@.intersect(b@)) == a@,
        a@.union(b@) == b@.union(a@),
        a@.intersect(b@) == b@.intersect(a@),
        a@.union(b@).len() + a@.intersect(b@).len() == a@.len() + b@.len(),
{
    assert(a@.difference(b@).union(a@.intersect(b@)) =~= a@);
    assert(a@.union(b@) =~= b@.union(a@));
    assert(a@.intersect(b@) =~= b@.intersect(a@));
    vstd::set_lib::lemma_set_intersect_union_lens(a@, b@);
}

/// The core of an LR(1) item does not depend on its lookahead, and moving the dot
/// commutes with taking the core.
pub proof fn core_ignores_lookahead(item: LR1Item, lookahead: TerminalId)
    requires
        item.dot_position < usize::MAX,
    ensures
        (LR1Item { lookahead, ..item }).spec_core() == item.spec_core(),
        item.spec_advance().spec_core() == item.spec_core().spec_advance(),
{
}

/// The LR(0) closure of a set is unique, closing it again changes nothing, and a
/// larger set has a larger closure.
pub proof fn lr0_closure_laws(
    g: &ContextFreeGrammar,
    items: Set<LR0Item>,
    more: Set<LR0Item>,
    c: Set<LR0Item>,
    c2: Set<LR0Item>,
    d: Set<LR0Item>,
)
    requires
        is_lr0_closure(g, items, c),
        is_lr0_closure(g, items, c2),
        is_lr0_closure(g, more, d),
    ensures
        c == c2,
        is_lr0_closure(g, c, c),
        items.subset_of(more) ==> c.subset_of(d),
{
    assert(lr0_closed(g, c2) && items.subset_of(c2));
    assert(lr0_closed(g, c) && items.subset_of(c));
    assert(c =~= c2);
    assert forall|s: Set<LR0Item>| #[trigger] lr0_closed(g, s) && c.subset_of(s) implies c.subset_of(s) by {}
    if items.subset_of(more) {
        assert(lr0_closed(g, d));
        assert(items.subset_of(d));
    }
}

/// The LR(1) closure of a set is unique, closing it again changes nothing, and a
/// larger set has a larger closure.
pub proof fn lr1_closure_laws(
    g: &ContextFreeGrammar,
    calc: &LookaheadCalculator,
    items: Set<LR1Item>,
    more: Set<LR1Item>,
    c: Set<LR1Item>,
    c2: Set<LR1Item>,
    d: Set<LR1Item>,
)
    requires
        is_lr1_closure(g, calc, items, c),
        is_lr1_closure(g, calc, items, c2),
        is_lr1_closure(g, calc, more, d),
    ensures
        c == c2,
        is_lr1_closure(g, calc, c, c),
        items.subset_of(more) ==> c.subset_of(d),
{
    assert(lr1_closed(g, calc, c2) && items.subset_of(c2));
    assert(lr1_closed(g, calc, c) && items.subset_of(c));
    assert(c =~= c2);
    assert forall|s: Set<LR1Item>| #[trigger] lr1_closed(g, calc, s) && c.subset_of(s) implies c.subset_of(s) by {}
    if items.subset_of(more) {
        assert(lr1_closed(g, calc, d));
        assert(items.subset_of(d));
    }
}

/// Different temporaries have different names, and so do different labels.
pub proof fn fresh_names_are_distinct(a: usize, b: usize)
    ensures
        a != b ==> temp_text(a) != temp_text(b),
        a != b ==> label_text(a) != label_text(b),
{
    if temp_text(a) == temp_text(b) {
        assert(temp_text(a).skip(1) =~= crate::text::decimal(a as nat));
        assert(temp_text(b).skip(1) =~= crate::text::decimal(b as nat));
        lemma_decimal_injective(a as nat, b as nat);
    }
    if label_text(a) == label_text(b) {
        assert(label_text(a).skip(1) =~= crate::text::decimal(a as nat));
        assert(label_text(b).skip(1) =~= crate::text::decimal(b as nat));
        lemma_decimal_injective(a as nat, b as nat);
    }
}

/// The instructions of the blocks, one block after the other.
pub open spec fn block_instructions(blocks: Seq<BasicBlock>) -> Seq<TacInstr>
    decreases blocks.len(),
{
    if blocks.len() == 0 {
        Seq::empty()
    } else {
        block_instructions(blocks.drop_last()) + blocks.last().instructions@
    }
}

proof fn lemma_flatten_prefix(instrs: Seq<TacInstr>, blocks: Seq<BasicBlock>, starts: Seq<int>, k: int)
    requires
        block_starts(instrs, starts),
        blocks.len() == starts.len(),
        forall|j: int|
            0 <= j < blocks.len() ==> same_instrs(
                (#[trigger] blocks[j]).instructions@,
                instrs.subrange(starts[j], block_end(instrs, starts, j)),
            ),
        0 <= k <= blocks.len(),
    ensures
        same_instrs(block_instructions(blocks.take(k)), instrs.subrange(0, block_end(instrs, starts, k - 1))),
        k == 0 ==> block_instructions(blocks.take(k)).len() == 0,
    decreases k,
{
    if k == 0 {
        assert(blocks.take(0) =~= Seq::<BasicBlock>::empty());
    } else {
        lemma_flatten_prefix(instrs, blocks, starts, k - 1);
        assert(blocks.take(k).drop_last() =~= blocks.take(k - 1));
        let prev = block_instructions(blocks.take(k - 1));
        let cur = blocks[k - 1].instructions@;
        let lo = if k - 1 == 0 { 0 } else { block_end(instrs, starts, k - 2) };
        assert(k - 1 > 0 ==> block_end(instrs, starts, k - 2) == starts[k - 1]);
        assert(lo == starts[k - 1]);
        let hi = block_end(instrs, starts, k - 1);
        assert(starts[k - 1] <= hi <= instrs.len()) by {
            if k < starts.len() {
                assert(starts[k - 1] < starts[k]);
            }
        }
        assert forall|i: int| 0 <= i < hi implies same_instr(
            #[trigger] (prev + cur)[i],
            instrs.subrange(0, hi)[i],
        ) by {
            if i < lo {
                assert((prev + cur)[i] == prev[i]);
            } else {
                assert((prev + cur)[i] == cur[i - lo]);
                assert(instrs.subrange(starts[k - 1], hi)[i - lo] == instrs[i]);
            }
        }
    }
}

/// Splitting into basic blocks loses, adds and reorders nothing: the blocks' instructions,
/// one block after the other, are the instructions split. Every block is nonempty and
/// begins at a leader, and only its last instruction may be a jump or a return.
pub proof fn split_laws(instrs: Seq<TacInstr>, blocks: Seq<BasicBlock>)
    requires
        splits_into(instrs, blocks),
    ensures
        same_instrs(block_instructions(blocks), instrs),
        forall|k: int| 0 <= k < blocks.len() ==> (#[trigger] blocks[k]).instructions@.len() > 0,
        forall|k: int, m: int|
            0 <= k < blocks.len() && 0 <= m < blocks[k].instructions@.len() - 1 ==> !ends_block(
                #[trigger] blocks[k].instructions@[m],
            ),
{
    if instrs.len() == 0 {
        assert(block_instructions(blocks) =~= Seq::<TacInstr>::empty());
    } else {
        let starts = choose|starts: Seq<int>|
            #![trigger block_starts(instrs, starts)]
            block_starts(instrs, starts) && blocks.len() == starts.len() && forall|k: int|
                0 <= k < blocks.len() ==> same_instrs(
                    (#[trigger] blocks[k]).instructions@,
                    instrs.subrange(starts[k], block_end(instrs, starts, k)),
                ) && blocks[k].label == crate::semantic::basic_block::leading_label(
                    instrs.subrange(starts[k], block_end(instrs, starts, k)),
                );
        lemma_flatten_prefix(instrs, blocks, starts, blocks.len() as int);
        assert(blocks.take(blocks.len() as int) =~= blocks);
        assert(instrs.subrange(0, instrs.len() as int) =~= instrs);
        assert forall|k: int| 0 <= k < blocks.len() implies (#[trigger] blocks[k]).instructions@.len() > 0 by {
            if k + 1 < starts.len() {
                assert(starts[k] < starts[k + 1]);
            }
        }
        assert forall|k: int, m: int|
            0 <= k < blocks.len() && 0 <= m < blocks[k].instructions@.len() - 1 implies !ends_block(
            #[trigger] blocks[k].instructions@[m],
        ) by {
            let p = starts[k] + m;
            let end = block_end(instrs, starts, k);
            assert(same_instr(blocks[k].instructions@[m], instrs.subrange(starts[k], end)[m]));
            assert(instrs.subrange(starts[k], end)[m] == instrs[p]);
            if ends_block(instrs[p]) {
                assert(is_leader(instrs, p + 1));
                assert(starts.contains(p + 1));
                let j = choose|j: int| 0 <= j < starts.len() && starts[j] == p + 1;
                if j <= k {
                    if j < k {
                        assert(starts[j] < starts[k]);
                    }
                } else if j == k + 1 {
                } else {
                    assert(starts[k + 1] < starts[j]);
                }
            }
        }
    }
}

/// The interior nodes (those with children) compute different things: no two nodes
/// have the same operator over the same children.
pub open spec fn distinct_computations(nodes: Seq<NodeView>) -> bool {
    forall|i: int, j: int|
        0 <= i < j < nodes.len() && nodes[j].children.len() > 0 ==> !(#[trigger] nodes[i].op == #[trigger] nodes[j].op
            && nodes[i].children == nodes[j].children)
}

proof fn lemma_find_none(nodes: Seq<NodeView>, op: crate::semantic::ir::TacOp, children: Seq<usize>, n: int)
    requires
        0 <= n <= nodes.len(),
        find_node(nodes, op, children, n) is None,
    ensures
        forall|i: int| 0 <= i < n ==> !(#[trigger] nodes[i].op == op && nodes[i].children == children),
    decreases n,
{
    if n > 0 {
        assert(find_node(nodes, op, children, n - 1) is None);
        lemma_find_none(nodes, op, children, n - 1);
    }
}

proof fn lemma_find_some(nodes: Seq<NodeView>, op: crate::semantic::ir::TacOp, children: Seq<usize>, n: int)
    requires
        0 <= n <= nodes.len(),
        forall|i: int| 0 <= i < nodes.len() ==> (#[trigger] nodes[i]).id == i,
    ensures
        find_node(nodes, op, children, n) matches Some(k) ==> k < n,
    decreases n,
{
    if n > 0 {
        lemma_find_some(nodes, op, children, n - 1);
    }
}

proof fn lemma_add_node_ok(st: DagState, op: crate::semantic::ir::TacOp, children: Seq<usize>)
    requires
        dag_wf(st),
        distinct_computations(st.nodes),
        forall|c: int| 0 <= c < children.len() ==> children[c] < st.nodes.len(),
        children.len() == 0 || find_node(st.nodes, op, children, st.nodes.len() as int) is None,
        st.nodes.len() < usize::MAX,
    ensures
        dag_wf(add_node(st, op, children)),
        distinct_computations(add_node(st, op, children).nodes),
{
    let s2 = add_node(st, op, children);
    if children.len() > 0 {
        lemma_find_none(st.nodes, op, children, st.nodes.len() as int);
    }
    assert forall|i: int| 0 <= i < s2.nodes.len() implies (#[trigger] s2.nodes[i]).id == i by {
        if i < st.nodes.len() {
            assert(s2.nodes[i] == st.nodes[i]);
        }
    }
    assert forall|i: int, c: int| 0 <= i < s2.nodes.len() && 0 <= c < s2.nodes[i].children.len() implies #[trigger] s2.nodes[i].children[c] < i by {
        if i < st.nodes.len() {
            assert(s2.nodes[i] == st.nodes[i]);
        }
    }
    assert forall|i: int, j: int|
        0 <= i < j < s2.nodes.len() && s2.nodes[j].children.len() > 0 implies !(#[trigger] s2.nodes[i].op == #[trigger] s2.nodes[j].op
        && s2.nodes[i].children == s2.nodes[j].children) by {
        assert(s2.nodes[i] == st.nodes[i]);
        if j < st.nodes.len() {
            assert(s2.nodes[j] == st.nodes[j]);
        }
    }
}

proof fn lemma_resolve_ok(st: DagState, o: crate::semantic::tac::OperandView)
    requires
        dag_wf(st),
        distinct_computations(st.nodes),
        st.nodes.len() < usize::MAX,
    ensures
        dag_wf(resolve(st, o).0),
        distinct_computations(resolve(st, o).0.nodes),
        resolve(st, o).0.nodes.len() >= st.nodes.len(),
        resolve(st, o).0.nodes.len() <= st.nodes.len() + 1,
        resolve(st, o).1 matches Some(x) ==> x < resolve(st, o).0.nodes.len(),
{
    if crate::semantic::tac::dag_name(o) is None && !(o is Label) {
        lemma_add_node_ok(st, crate::semantic::ir::TacOp::Nop, Seq::empty());
    }
}

proof fn lemma_attach_ok(st: DagState, node: usize, o: crate::semantic::tac::OperandView)
    requires
        dag_wf(st),
        distinct_computations(st.nodes),
        node < st.nodes.len(),
    ensures
        dag_wf(attach(st, node, o)),
        distinct_computations(attach(st, node, o).nodes),
        attach(st, node, o).nodes.len() == st.nodes.len(),
{
    let s2 = attach(st, node, o);
    if crate::semantic::tac::dag_name(o) is Some {
        assert forall|i: int| 0 <= i < s2.nodes.len() implies #[trigger] s2.nodes[i].op == st.nodes[i].op
            && s2.nodes[i].children == st.nodes[i].children && s2.nodes[i].id == st.nodes[i].id by {}
        assert forall|i: int| 0 <= i < s2.nodes.len() implies (#[trigger] s2.nodes[i]).id == i by {
            assert(s2.nodes[i].id == st.nodes[i].id);
        }
        assert forall|i: int, c: int| 0 <= i < s2.nodes.len() && 0 <= c < s2.nodes[i].children.len() implies #[trigger] s2.nodes[i].children[c] < i by {
            assert(s2.nodes[i].children == st.nodes[i].children);
        }
        assert forall|i: int, j: int|
            0 <= i < j < s2.nodes.len() && s2.nodes[j].children.len() > 0 implies !(#[trigger] s2.nodes[i].op == #[trigger] s2.nodes[j].op
            && s2.nodes[i].children == s2.nodes[j].children) by {
            assert(s2.nodes[i].op == st.nodes[i].op && s2.nodes[i].children == st.nodes[i].children);
            assert(s2.nodes[j].op == st.nodes[j].op && s2.nodes[j].children == st.nodes[j].children);
        }
    }
}

proof fn lemma_node_for_ok(st: DagState, op: crate::semantic::ir::TacOp, children: Seq<usize>)
    requires
        dag_wf(st),
        distinct_computations(st.nodes),
        children.len() > 0,
        forall|c: int| 0 <= c < children.len() ==> children[c] < st.nodes.len(),
        st.nodes.len() < usize::MAX,
    ensures
        node_for(st, op, children).0.nodes.len() <= st.nodes.len() + 1,
        dag_wf(node_for(st, op, children).0),
        distinct_computations(node_for(st, op, children).0.nodes),
        node_for(st, op, children).1 < node_for(st, op, children).0.nodes.len(),
{
    lemma_find_some(st.nodes, op, children, st.nodes.len() as int);
    if find_node(st.nodes, op, children, st.nodes.len() as int) is None {
        lemma_add_node_ok(st, op, children);
    }
}

proof fn lemma_dag_step_ok(st: DagState, ins: TacInstr)
    requires
        dag_wf(st),
        distinct_computations(st.nodes),
        st.nodes.len() + 3 <= usize::MAX,
    ensures
        dag_step(st, ins).nodes.len() <= st.nodes.len() + 3,
        dag_wf(dag_step(st, ins)),
        distinct_computations(dag_step(st, ins).nodes),
{
    match ins {
        TacInstr::Binary { op, result, left, right } => {
            lemma_resolve_ok(st, left@);
            let (s1, l) = resolve(st, left@);
            lemma_resolve_ok(s1, right@);
            let (s2, r) = resolve(s1, right@);
            if l is Some && r is Some {
                let ch = seq![l->0, r->0];
                lemma_node_for_ok(s2, crate::semantic::tac::binary_tac_op(op), ch);
                let (s3, k) = node_for(s2, crate::semantic::tac::binary_tac_op(op), ch);
                lemma_attach_ok(s3, k, result@);
            }
        },
        TacInstr::Assign { target, source } => {
            lemma_resolve_ok(st, source@);
            let (s1, x) = resolve(st, source@);
            if x is Some {
                lemma_attach_ok(s1, x->0, target@);
            }
        },
        TacInstr::Unary { op, result, operand } => {
            lemma_resolve_ok(st, operand@);
            let (s1, x) = resolve(st, operand@);
            if x is Some {
                let ch = seq![x->0];
                lemma_node_for_ok(s1, crate::semantic::tac::unary_tac_op(op), ch);
                let (s2, k) = node_for(s1, crate::semantic::tac::unary_tac_op(op), ch);
                lemma_attach_ok(s2, k, result@);
            }
        },
        _ => {},
    }
}

/// The DAG of a block is a DAG: every node's id is its position and its children
/// come before it; every name stands for a node; and no two nodes compute the same
/// operator over the same children. Each instruction adds at most three nodes.
pub proof fn dag_laws(instrs: Seq<TacInstr>)
    requires
        3 * instrs.len() <= usize::MAX,
    ensures
        dag_run(instrs).nodes.len() <= 3 * instrs.len(),
        dag_wf(dag_run(instrs)),
        distinct_computations(dag_run(instrs).nodes),
    decreases instrs.len(),
{
    if instrs.len() > 0 {
        dag_laws(instrs.drop_last());
        lemma_dag_step_ok(dag_run(instrs.drop_last()), instrs.last());
    }
}

/// Elimination keeps at most one quadruple per signature: no more quadruples than it
/// was given, every signature of the input is recorded, and each recorded signature
/// points at a kept quadruple.
pub proof fn cse_laws(qs: Seq<Quadruple>)
    ensures
        cse_run(qs).kept.len() <= qs.len(),
        forall|i: int| 0 <= i < qs.len() ==> cse_run(qs).first.contains_key(signature(#[trigger] qs[i])),
        forall|sig| #[trigger] cse_run(qs).first.contains_key(sig) ==> 0 <= cse_run(qs).first[sig] < cse_run(qs).kept.len(),
    decreases qs.len(),
{
    if qs.len() > 0 {
        let rest = qs.drop_last();
        cse_laws(rest);
        assert forall|i: int| 0 <= i < qs.len() implies cse_run(qs).first.contains_key(signature(#[trigger] qs[i])) by {
            if i < rest.len() {
                assert(qs[i] == rest[i]);
                assert(cse_run(rest).first.contains_key(signature(rest[i])));
            }
        }
    }
}

/// LALR(1) merging: there are no more merged states than LR(1) states, every merged
/// state has the core of each LR(1) state merged into it, and different merged states
/// have different cores.
pub proof fn lalr_merge_laws(lr1: Seq<Set<LR1Item>>, mapping: Seq<usize>, merged: Seq<Set<LR1Item>>)
    requires
        is_lalr_merge(lr1, mapping, merged),
    ensures
        merged.len() <= lr1.len(),
        forall|i: int| 0 <= i < mapping.len() ==> cores(#[trigger] merged[mapping[i] as int]) == cores(lr1[i]),
        forall|m1: int, m2: int|
            0 <= m1 < merged.len() && 0 <= m2 < merged.len() && m1 != m2 ==> cores(#[trigger] merged[m1]) != cores(
                #[trigger] merged[m2],
            ),
{
    // A member of each merged state, each the first of its state.
    let firsts = Seq::new(
        merged.len(),
        |m: int| choose|i: int| 0 <= i < mapping.len() && mapping[i] == m && forall|j: int| 0 <= j < i ==> #[trigger] mapping[j] < m,
    );
    assert forall|m: int| 0 <= m < merged.len() implies 0 <= #[trigger] firsts[m] < lr1.len() && mapping[firsts[m]] == m by {
        assert(numbered_in_order(mapping, m));
    }
    assert(firsts.no_duplicates()) by {
        assert forall|a: int, b: int| 0 <= a < firsts.len() && 0 <= b < firsts.len() && a != b implies firsts[a] != firsts[b] by {
            assert(mapping[firsts[a]] == a);
            assert(mapping[firsts[b]] == b);
        }
    }
    lemma_distinct_in_range(firsts, lr1.len() as int);
    assert forall|i: int| 0 <= i < mapping.len() implies cores(#[trigger] merged[mapping[i] as int]) == cores(lr1[i]) by {
        let m = mapping[i] as int;
        assert forall|c: LR0Item| cores(merged[m]).contains(c) <==> cores(lr1[i]).contains(c) by {
            if cores(merged[m]).contains(c) {
                let x = choose|x: LR1Item| merged[m].contains(x) && x.spec_core() == c;
                let k = choose|k: int| 0 <= k < mapping.len() && mapping[k] == m && #[trigger] lr1[k].contains(x);
                assert(mapping[k] == mapping[i]);
                assert(cores(lr1[k]) == cores(lr1[i]));
                assert(cores(lr1[k]).contains(c));
            }
            if cores(lr1[i]).contains(c) {
                let x = choose|x: LR1Item| lr1[i].contains(x) && x.spec_core() == c;
                assert(merged[m].contains(x));
            }
        }
        assert(cores(merged[m]) =~= cores(lr1[i]));
    }
    assert forall|m1: int, m2: int|
        0 <= m1 < merged.len() && 0 <= m2 < merged.len() && m1 != m2 implies cores(#[trigger] merged[m1]) != cores(
        #[trigger] merged[m2],
    ) by {
        let i1 = firsts[m1];
        let i2 = firsts[m2];
        assert(mapping[i1] == m1 && mapping[i2] == m2);
        assert(cores(merged[mapping[i1] as int]) == cores(lr1[i1]));
        assert(cores(merged[mapping[i2] as int]) == cores(lr1[i2]));
        assert(mapping[i1] != mapping[i2]);
    }
}

/// The quadruple at `j` repeats the signature of an earlier one, so elimination drops it.
pub open spec fn cse_dropped(qs: Seq<Quadruple>, j: int) -> bool {
    exists|k: int| 0 <= k < j && #[trigger] signature(qs[k]) == signature(qs[j])
}

/// Every quadruple has a result, and no two results are the same operand.
pub open spec fn results_distinct(qs: Seq<Quadruple>) -> bool {
    &&& forall|i: int| 0 <= i < qs.len() ==> (#[trigger] qs[i]).result is Some
    &&& forall|i: int, j: int| 0 <= i < j < qs.len() ==> (#[trigger] qs[i]).result->0@ != (#[trigger] qs[j]).result->0@
}

/// `b` is the argument `a` as it reads after elimination of `qs`: where `a` names the
/// result of a dropped quadruple, it names instead the result of the first quadruple
/// with the same signature; any other argument is left as it is.
pub open spec fn renamed_arg(qs: Seq<Quadruple>, a: Option<Operand>, b: Option<Operand>) -> bool {
    match a {
        None => b is None,
        Some(x) => {
            ||| (b == a && forall|j: int| 0 <= j < qs.len() && cse_dropped(qs, j) ==> (#[trigger] qs[j]).result->0@ != x@)
            ||| exists|j: int, k: int|
                0 <= k < j < qs.len() && cse_dropped(qs, j) && !cse_dropped(qs, k) && #[trigger] signature(qs[k])
                    == #[trigger] signature(qs[j]) && qs[j].result->0@ == x@ && b == qs[k].result
        },
    }
}

proof fn lemma_cse_dropped_prefix(qs: Seq<Quadruple>)
    requires
        qs.len() > 0,
    ensures
        forall|j: int| 0 <= j < qs.len() - 1 ==> (cse_dropped(qs, j) <==> #[trigger] cse_dropped(qs.drop_last(), j)),
{
    let rest = qs.drop_last();
    assert forall|j: int| 0 <= j < qs.len() - 1 implies (cse_dropped(qs, j) <==> #[trigger] cse_dropped(rest, j)) by {
        if cse_dropped(qs, j) {
            let k = choose|k: int| 0 <= k < j && #[trigger] signature(qs[k]) == signature(qs[j]);
            assert(rest[k] == qs[k] && rest[j] == qs[j]);
        }
        if cse_dropped(rest, j) {
            let k = choose|k: int| 0 <= k < j && #[trigger] signature(rest[k]) == signature(rest[j]);
            assert(rest[k] == qs[k] && rest[j] == qs[j]);
        }
    }
}

/// What the state of elimination records, in terms of the input: each recorded
/// signature belongs to a first occurrence, whose kept copy has its result; each
/// replaced operand is the result of a dropped quadruple, and stands for the result
/// of the first quadruple with that signature.
proof fn lemma_cse_records(qs: Seq<Quadruple>)
    requires
        results_distinct(qs),
    ensures
        forall|sig| #[trigger] cse_run(qs).first.contains_key(sig) ==> exists|k: int|
            0 <= k < qs.len() && !cse_dropped(qs, k) && #[trigger] signature(qs[k]) == sig
                && cse_run(qs).kept[cse_run(qs).first[sig]].result == qs[k].result,
        forall|k: int| 0 <= k < qs.len() ==> cse_run(qs).first.contains_key(#[trigger] signature(qs[k])),
        forall|v| #[trigger] cse_run(qs).replaced.contains_key(v) ==> exists|j: int|
            0 <= j < qs.len() && cse_dropped(qs, j) && (#[trigger] qs[j]).result->0@ == v,
        forall|j: int| 0 <= j < qs.len() && cse_dropped(qs, j) ==> exists|k: int|
            0 <= k < j && !cse_dropped(qs, k) && #[trigger] signature(qs[k]) == #[trigger] signature(qs[j])
                && cse_run(qs).replaced.contains_key(qs[j].result->0@)
                && Some(cse_run(qs).replaced[qs[j].result->0@]) == qs[k].result,
    decreases qs.len(),
{
    if qs.len() > 0 {
        let rest = qs.drop_last();
        let n = rest.len() as int;
        let q = qs.last();
        assert forall|i: int| 0 <= i < rest.len() implies rest[i] == qs[i] by {}
        assert(results_distinct(rest)) by {
            assert forall|i: int| 0 <= i < rest.len() implies (#[trigger] rest[i]).result is Some by {
                assert(rest[i] == qs[i]);
            }
            assert forall|i: int, j: int| 0 <= i < j < rest.len() implies (#[trigger] rest[i]).result->0@ != (#[trigger] rest[j]).result->0@ by {
                assert(rest[i] == qs[i] && rest[j] == qs[j]);
            }
        }
        lemma_cse_records(rest);
        lemma_cse_dropped_prefix(qs);
        cse_laws(rest);
        let st = cse_run(rest);
        let st2 = cse_run(qs);
        assert(st2 == cse_step(st, q));
        let sig = signature(q);
        assert(q == qs[n]);
        if st.first.contains_key(sig) {
            let k0 = choose|k: int| 0 <= k < rest.len() && !cse_dropped(rest, k) && #[trigger] signature(rest[k]) == sig
                && st.kept[st.first[sig]].result == rest[k].result;
            assert(qs[k0] == rest[k0]);
            assert(cse_dropped(qs, n));
            assert(!cse_dropped(qs, k0));
            assert(qs[k0].result is Some);
            assert(q.result is Some);
            assert forall|s| #[trigger] st2.first.contains_key(s) implies exists|k: int|
                0 <= k < qs.len() && !cse_dropped(qs, k) && #[trigger] signature(qs[k]) == s
                    && st2.kept[st2.first[s]].result == qs[k].result by {
                let k = choose|k: int| 0 <= k < rest.len() && !cse_dropped(rest, k) && #[trigger] signature(rest[k]) == s
                    && st.kept[st.first[s]].result == rest[k].result;
                assert(qs[k] == rest[k]);
            }
            assert forall|k: int| 0 <= k < qs.len() implies st2.first.contains_key(#[trigger] signature(qs[k])) by {
                if k < n {
                    assert(qs[k] == rest[k]);
                    assert(st.first.contains_key(signature(rest[k])));
                }
            }
            assert forall|v| #[trigger] st2.replaced.contains_key(v) implies exists|j: int|
                0 <= j < qs.len() && cse_dropped(qs, j) && (#[trigger] qs[j]).result->0@ == v by {
                if v != q.result->0@ {
                    assert(st.replaced.contains_key(v));
                    let j = choose|j: int| 0 <= j < rest.len() && cse_dropped(rest, j) && (#[trigger] rest[j]).result->0@ == v;
                    assert(qs[j] == rest[j]);
                }
            }
            assert forall|j: int| 0 <= j < qs.len() && cse_dropped(qs, j) implies exists|k: int|
                0 <= k < j && !cse_dropped(qs, k) && #[trigger] signature(qs[k]) == #[trigger] signature(qs[j])
                    && st2.replaced.contains_key(qs[j].result->0@)
                    && Some(st2.replaced[qs[j].result->0@]) == qs[k].result by {
                if j == n {
                    assert(signature(qs[k0]) == signature(qs[j]));
                } else {
                    assert(cse_dropped(rest, j));
                    let k = choose|k: int| 0 <= k < j && !cse_dropped(rest, k) && #[trigger] signature(rest[k]) == #[trigger] signature(rest[j])
                        && st.replaced.contains_key(rest[j].result->0@)
                        && Some(st.replaced[rest[j].result->0@]) == rest[k].result;
                    assert(qs[k] == rest[k] && qs[j] == rest[j]);
                    assert(qs[j].result->0@ != qs[n].result->0@);
                    assert(!cse_dropped(qs, k));
                }
            }
        } else {
            assert(!cse_dropped(qs, n)) by {
                if cse_dropped(qs, n) {
                    let k = choose|k: int| 0 <= k < n && #[trigger] signature(qs[k]) == signature(qs[n]);
                    assert(rest[k] == qs[k]);
                    assert(st.first.contains_key(signature(rest[k])));
                }
            }
            assert forall|s| #[trigger] st2.first.contains_key(s) implies exists|k: int|
                0 <= k < qs.len() && !cse_dropped(qs, k) && #[trigger] signature(qs[k]) == s
                    && st2.kept[st2.first[s]].result == qs[k].result by {
                if s == sig {
                    assert(signature(qs[n]) == s);
                } else {
                    let k = choose|k: int| 0 <= k < rest.len() && !cse_dropped(rest, k) && #[trigger] signature(rest[k]) == s
                        && st.kept[st.first[s]].result == rest[k].result;
                    assert(qs[k] == rest[k]);
                    assert(st2.kept[st2.first[s]] == st.kept[st.first[s]]);
                }
            }
            assert forall|k: int| 0 <= k < qs.len() implies st2.first.contains_key(#[trigger] signature(qs[k])) by {
                if k < n {
                    assert(qs[k] == rest[k]);
                    assert(st.first.contains_key(signature(rest[k])));
                }
            }
            assert forall|v| #[trigger] st2.replaced.contains_key(v) implies exists|j: int|
                0 <= j < qs.len() && cse_dropped(qs, j) && (#[trigger] qs[j]).result->0@ == v by {
                let j = choose|j: int| 0 <= j < rest.len() && cse_dropped(rest, j) && (#[trigger] rest[j]).result->0@ == v;
                assert(qs[j] == rest[j]);
            }
            assert forall|j: int| 0 <= j < qs.len() && cse_dropped(qs, j) implies exists|k: int|
                0 <= k < j && !cse_dropped(qs, k) && #[trigger] signature(qs[k]) == #[trigger] signature(qs[j])
                    && st2.replaced.contains_key(qs[j].result->0@)
                    && Some(st2.replaced[qs[j].result->0@]) == qs[k].result by {
                assert(j < n);
                assert(cse_dropped(rest, j));
                let k = choose|k: int| 0 <= k < j && !cse_dropped(rest, k) && #[trigger] signature(rest[k]) == #[trigger] signature(rest[j])
                    && st.replaced.contains_key(rest[j].result->0@)
                    && Some(st.replaced[rest[j].result->0@]) == rest[k].result;
                assert(qs[k] == rest[k] && qs[j] == rest[j]);
                assert(!cse_dropped(qs, k));
            }
        }
    }
}

/// Elimination only appends: what it keeps of a prefix of the input is a prefix of what
/// it keeps of the whole input.
pub proof fn cse_keeps_prefix(qs: Seq<Quadruple>, n: int)
    requires
        0 <= n <= qs.len(),
    ensures
        cse_run(qs.take(n)).kept.len() <= cse_run(qs).kept.len(),
        cse_run(qs).kept.take(cse_run(qs.take(n)).kept.len() as int) == cse_run(qs.take(n)).kept,
    decreases qs.len(),
{
    if n == qs.len() {
        assert(qs.take(n) == qs);
    } else {
        let rest = qs.drop_last();
        assert(rest.take(n) == qs.take(n));
        cse_keeps_prefix(rest, n);
    }
}

/// A quadruple whose signature is new is kept, with its operator and result, and each
/// argument that names the result of a dropped quadruple is renamed to the result of the
/// first quadruple with the same signature (where every result is a distinct operand).
/// So no argument of a kept quadruple names a result that elimination removed.
pub proof fn cse_renames_dropped_results(qs: Seq<Quadruple>, q: Quadruple)
    requires
        results_distinct(qs),
        forall|k: int| 0 <= k < qs.len() ==> signature(#[trigger] qs[k]) != signature(q),
    ensures
        cse_run(qs.push(q)).kept.len() == cse_run(qs).kept.len() + 1,
        cse_run(qs.push(q)).kept.last().op == q.op,
        cse_run(qs.push(q)).kept.last().result == q.result,
        renamed_arg(qs, q.arg1, cse_run(qs.push(q)).kept.last().arg1),
        renamed_arg(qs, q.arg2, cse_run(qs.push(q)).kept.last().arg2),
        forall|j: int| 0 <= j < qs.len() && cse_dropped(qs, j) ==> {
            &&& cse_run(qs.push(q)).kept.last().arg1 != Some((#[trigger] qs[j]).result->0)
            &&& cse_run(qs.push(q)).kept.last().arg2 != Some(qs[j].result->0)
        },
{
    let all = qs.push(q);
    assert(all.drop_last() == qs);
    lemma_cse_records(qs);
    let st = cse_run(qs);
    assert(!st.first.contains_key(signature(q))) by {
        if st.first.contains_key(signature(q)) {
            let k = choose|k: int| 0 <= k < qs.len() && !cse_dropped(qs, k) && #[trigger] signature(qs[k]) == signature(q)
                && st.kept[st.first[signature(q)]].result == qs[k].result;
        }
    }
    let last = cse_run(all).kept.last();
    lemma_renamed(qs, q.arg1, last.arg1);
    lemma_renamed(qs, q.arg2, last.arg2);
}

proof fn lemma_renamed(qs: Seq<Quadruple>, a: Option<Operand>, b: Option<Operand>)
    requires
        results_distinct(qs),
        b == crate::semantic::quadruple::replace_arg(cse_run(qs).replaced, a),
    ensures
        renamed_arg(qs, a, b),
        forall|j: int| 0 <= j < qs.len() && cse_dropped(qs, j) ==> b != Some((#[trigger] qs[j]).result->0),
{
    lemma_cse_records(qs);
    let st = cse_run(qs);
    if let Some(x) = a {
        if st.replaced.contains_key(x@) {
            let j = choose|j: int| 0 <= j < qs.len() && cse_dropped(qs, j) && (#[trigger] qs[j]).result->0@ == x@;
            let k = choose|k: int| 0 <= k < j && !cse_dropped(qs, k) && #[trigger] signature(qs[k]) == #[trigger] signature(qs[j])
                && st.replaced.contains_key(qs[j].result->0@)
                && Some(st.replaced[qs[j].result->0@]) == qs[k].result;
            assert(b == qs[k].result);
            assert forall|j2: int| 0 <= j2 < qs.len() && cse_dropped(qs, j2) implies b != Some((#[trigger] qs[j2]).result->0) by {
                if j2 == k {
                } else if k < j2 {
                    assert(qs[k].result->0@ != qs[j2].result->0@);
                } else {
                    assert(qs[j2].result->0@ != qs[k].result->0@);
                }
            }
        } else {
            assert forall|j: int| 0 <= j < qs.len() && cse_dropped(qs, j) implies (#[trigger] qs[j]).result->0@ != x@ by {
                let k = choose|k: int| 0 <= k < j && !cse_dropped(qs, k) && #[trigger] signature(qs[k]) == #[trigger] signature(qs[j])
                    && st.replaced.contains_key(qs[j].result->0@)
                    && Some(st.replaced[qs[j].result->0@]) == qs[k].result;
            }
        }
    }
}

/// A copy `target = source`, where `source` names a node, adds no node: `target` then
/// names the same node as `source`, that node lists `target` among its identifiers, and
/// every other name keeps its node.
pub proof fn dag_copy_shares_node(st: DagState, target: crate::semantic::tac::Operand, source: crate::semantic::tac::Operand)
    requires
        dag_wf(st),
        crate::semantic::tac::dag_name(source@) matches Some(y) && st.names.contains_key(y),
        crate::semantic::tac::dag_name(target@) is Some,
    ensures
        ({
            let y = crate::semantic::tac::dag_name(source@)->0;
            let x = crate::semantic::tac::dag_name(target@)->0;
            let after = dag_step(st, TacInstr::Assign { target, source });
            &&& after.nodes.len() == st.nodes.len()
            &&& after.names.contains_key(x)
            &&& after.names[x] == st.names[y]
            &&& after.nodes[st.names[y] as int].identifiers == st.nodes[st.names[y] as int].identifiers.push(x)
            &&& after.nodes[st.names[y] as int].op == st.nodes[st.names[y] as int].op
            &&& after.nodes[st.names[y] as int].children == st.nodes[st.names[y] as int].children
            &&& forall|i: int| 0 <= i < st.nodes.len() && i != st.names[y] ==> after.nodes[i] == st.nodes[i]
            &&& forall|n: Seq<char>| n != x ==> after.names.contains_key(n) == st.names.contains_key(n)
                && after.names[n] == st.names[n]
        }),
{
}

/// How many stack entries a step pops (none for a step that pops nothing).
pub open spec fn entries_popped(out: crate::lr::parser::StepOutcome) -> nat {
    match out {
        crate::lr::parser::StepOutcome::Reduce { pop, .. } => pop as nat,
        crate::lr::parser::StepOutcome::GotoMissing { pop, .. } => pop as nat,
        crate::lr::parser::StepOutcome::Underflow { pop } => pop as nat,
        crate::lr::parser::StepOutcome::OutOfTable { pop, .. } => pop as nat,
        _ => 0,
    }
}

/// A reduction pops two stack entries (a grammar symbol and a state) for each symbol of
/// the production's right-hand side, and none at all for an ε-production (one whose
/// right-hand side is empty or the single symbol ε). Where the GOTO entry exists, the
/// stack then ends with the left-hand side and that GOTO state.
pub proof fn reduce_pops_handle(
    p: &crate::lr::parser::LRParser,
    stack: Seq<crate::lr::stack::StackSymbol>,
    input: Seq<TerminalId>,
    pos: int,
    state: ItemSetId,
    production: crate::lr::action::ProductionId,
)
    requires
        stack.len() <= usize::MAX,
        crate::lr::stack::top_state_of(stack) == Some(state),
        state.0 < p.spec_table().spec_action().cells().len(),
        crate::lr::parser::token_at(input, pos, p.spec_end()).0 <= p.spec_table().spec_action().terminals(),
        p.spec_table().spec_action().cells()[state.0 as int][crate::lr::parser::token_at(input, pos, p.spec_end()).0 as int]
            == Action::Reduce(production),
        production.0 < p.spec_augmented().spec_grammar().productions.len(),
    ensures
        ({
            let prod = p.spec_augmented().spec_grammar().productions@[production.0 as int];
            let rhs = prod.rhs@;
            let out = crate::lr::parser::spec_step(p, stack, input, pos);
            &&& out is Reduce || out is GotoMissing || out is Underflow || out is OutOfTable
            &&& (rhs == Seq::<crate::cfg::Symbol>::empty() || rhs == seq![crate::cfg::Symbol::Epsilon]) ==> entries_popped(out) == 0
            &&& ((forall|i: int| 0 <= i < rhs.len() ==> rhs[i] != crate::cfg::Symbol::Epsilon) && 2 * rhs.len() <= stack.len())
                ==> entries_popped(out) == 2 * rhs.len()
            &&& out matches crate::lr::parser::StepOutcome::Reduce { lhs, pop, target, .. } ==> {
                &&& lhs == prod.lhs
                &&& crate::lr::parser::stack_after(stack, out) == stack.subrange(0, stack.len() - pop).push(
                    crate::lr::stack::StackSymbol::NonTerminal(lhs),
                ).push(crate::lr::stack::StackSymbol::State(target))
                &&& crate::lr::stack::top_state_of(stack.subrange(0, stack.len() - pop)) matches Some(below)
                    && p.spec_table().spec_goto().entry(below.0 as int, lhs.0 as int) == Some(target)
            }
        }),
{
    let rhs = p.spec_augmented().spec_grammar().productions@[production.0 as int].rhs@;
    if rhs == seq![crate::cfg::Symbol::Epsilon] {
        assert(rhs.len() == 1 && rhs[0] == crate::cfg::Symbol::Epsilon);
    }
    if (forall|i: int| 0 <= i < rhs.len() ==> rhs[i] != crate::cfg::Symbol::Epsilon) && rhs.len() == 1 {
        assert(rhs[0] != crate::cfg::Symbol::Epsilon);
    }
}

/// Some state of the table both shifts on one terminal and reduces on another.
pub open spec fn some_state_shifts_and_reduces(t: &crate::lr::table::SLRTable) -> bool {
    exists|s: int, a: int, b: int|
        0 <= s < t.state_count && 0 <= a < t.action.cells()[s].len() && 0 <= b < t.action.cells()[s].len()
            && #[trigger] t.action.cells()[s][a] is Shift && #[trigger] t.action.cells()[s][b] is Reduce
}

/// A grammar that validation finds free of conflicts is classified by the SLR(1) table it
/// built: LR(0) exactly when no state of that table has both a shift entry and a reduce
/// entry, and SLR(1) exactly when some state has both.
pub proof fn conflict_free_class(g: &ContextFreeGrammar, r: &crate::lr::error::LRValidationReport)
    requires
        crate::lr::builder::lr_validation_of(g, r),
        r.is_valid,
    ensures
        exists|a: crate::lr::augmented::AugmentedGrammar, t: crate::lr::table::SLRTable|
            crate::lr::augmented::augments(g, &a) && crate::lr::table::slr_table_of(&a.spec_grammar(), &t)
                && t.conflicts@.len() == 0 && r.errors@.len() == 0
                && (r.grammar_type == crate::lr::grammar_type::LRGrammarType::LR0 <==> !some_state_shifts_and_reduces(&t))
                && (r.grammar_type == crate::lr::grammar_type::LRGrammarType::SLR1 <==> some_state_shifts_and_reduces(&t)),
{
    let (a, t) = choose|a: crate::lr::augmented::AugmentedGrammar, t: crate::lr::table::SLRTable|
        crate::lr::augmented::augments(g, &a) && crate::lr::table::slr_table_of(&a.spec_grammar(), &t)
            && crate::lr::validator::reports_conflicts(r, t.conflicts@, crate::lr::builder::slr_table_class(&t));
    if some_state_shifts_and_reduces(&t) {
        let (s, x, y) = choose|s: int, a: int, b: int|
            0 <= s < t.state_count && 0 <= a < t.action.cells()[s].len() && 0 <= b < t.action.cells()[s].len()
                && #[trigger] t.action.cells()[s][a] is Shift && #[trigger] t.action.cells()[s][b] is Reduce;
        assert(crate::lr::builder::row_mixes(t.action.cells()[s]));
    } else {
        assert forall|s: int| 0 <= s < t.state_count implies !#[trigger] crate::lr::builder::row_mixes(t.action.cells()[s]) by {
            if crate::lr::builder::row_mixes(t.action.cells()[s]) {
                let row = t.action.cells()[s];
                let x = choose|x: int| 0 <= x < row.len() && #[trigger] row[x] is Shift;
                let y = choose|y: int| 0 <= y < row.len() && #[trigger] row[y] is Reduce;
                assert(t.action.cells()[s][x] is Shift && t.action.cells()[s][y] is Reduce);
            }
        }
    }
    assert(r.errors@.len() == 0);
}

proof fn lemma_representative(mapping: Seq<usize>, m: int)
    requires
        exists|i: int| 0 <= i < mapping.len() && mapping[i] == m,
    ensures
        0 <= crate::lr::table::representative(mapping, m) < mapping.len(),
        mapping[crate::lr::table::representative(mapping, m)] == m,
    decreases mapping.len(),
{
    if mapping.last() != m {
        let i = choose|i: int| 0 <= i < mapping.len() && mapping[i] == m;
        assert(mapping.drop_last()[i] == m);
        lemma_representative(mapping.drop_last(), m);
    }
}

proof fn lemma_write_origin(row: Seq<Action>, w: Seq<(usize, Action)>, a: int)
    requires
        0 <= a < row.len(),
    ensures
        crate::lr::table::apply_writes(row, w).len() == row.len(),
        crate::lr::table::apply_writes(row, w)[a] == row[a] || exists|k: int|
            0 <= k < w.len() && (#[trigger] w[k]).0 == a && w[k].1 == crate::lr::table::apply_writes(row, w)[a],
    decreases w.len(),
{
    if w.len() > 0 {
        let before = w.drop_last();
        lemma_write_origin(row, before, a);
        let r = crate::lr::table::apply_writes(row, before);
        if w.last().0 == a {
            assert(w[w.len() - 1].0 == a);
        } else if r[a] != row[a] {
            let k = choose|k: int| 0 <= k < before.len() && (#[trigger] before[k]).0 == a && before[k].1 == r[a];
            assert(w[k] == before[k]);
        }
    }
}

proof fn lemma_lalr_shift_writes(
    g: &ContextFreeGrammar,
    trans: Seq<(usize, crate::cfg::Symbol, usize)>,
    mapping: Seq<usize>,
    rep: int,
    items: Seq<LR1Item>,
)
    ensures
        forall|k: int| 0 <= k < crate::lr::table::lalr_state_writes(g, trans, mapping, rep, items).len()
            ==> ((#[trigger] crate::lr::table::lalr_state_writes(g, trans, mapping, rep, items)[k]).1 matches Action::Shift(x)
            ==> crate::lr::table::merged_target(trans, mapping, rep, crate::cfg::Symbol::Terminal(TerminalId(
                crate::lr::table::lalr_state_writes(g, trans, mapping, rep, items)[k].0,
            ))) == Some(x.0)),
    decreases items.len(),
{
    if items.len() > 0 {
        lemma_lalr_shift_writes(g, trans, mapping, rep, items.drop_last());
        let before = crate::lr::table::lalr_state_writes(g, trans, mapping, rep, items.drop_last());
        let iw = crate::lr::table::lalr_item_writes(g, trans, mapping, rep, items.last());
        let w = crate::lr::table::lalr_state_writes(g, trans, mapping, rep, items);
        assert(w == before + iw);
        assert forall|k: int| 0 <= k < w.len() implies ((#[trigger] w[k]).1 matches Action::Shift(x)
            ==> crate::lr::table::merged_target(trans, mapping, rep, crate::cfg::Symbol::Terminal(TerminalId(w[k].0)))
                == Some(x.0)) by {
            if k < before.len() {
                assert(w[k] == before[k]);
            } else {
                assert(w[k] == iw[k - before.len()]);
            }
        }
    }
}

/// Every shift entry of an LALR(1) table leads to a merged state: in the row of merged
/// state `s`, a shift on terminal `a` goes to `mapping[i]`, where `i` is the LR(1) state
/// that the transition on `a` leads to from an LR(1) state merged into `s`; that merged
/// state is a state of the table, and has the core of LR(1) state `i`.
pub proof fn lalr_shifts_go_to_merged_states(
    g: &ContextFreeGrammar,
    lr1: Seq<Set<LR1Item>>,
    trans: Seq<(usize, crate::cfg::Symbol, usize)>,
    mapping: Seq<usize>,
    lists: Seq<Seq<LR1Item>>,
    t: &crate::lr::table::LALR1Table,
)
    requires
        is_lalr_merge(lr1, mapping, crate::lr::table::list_sets(lists)),
        crate::lr::table::is_lalr_table(g, lr1.len(), trans, mapping, lists, t),
    ensures
        forall|s: int, a: int|
            0 <= s < t.state_count && 0 <= a < t.action.cells()[s].len() ==> (#[trigger] t.action.cells()[s][a] matches Action::Shift(j)
                ==> exists|from: int, i: int|
                0 <= from < mapping.len() && mapping[from] == s && crate::lr::states::target(
                    trans,
                    from,
                    crate::cfg::Symbol::Terminal(TerminalId(a as usize)),
                ) == Some(i as usize) && 0 <= i < mapping.len() && j.0 == mapping[i] && j.0 < t.state_count
                    && cores(crate::lr::table::list_sets(lists)[j.0 as int]) == cores(lr1[i])),
{
    let n = lists.len();
    let merged = crate::lr::table::list_sets(lists);
    lalr_merge_laws(lr1, mapping, merged);
    assert forall|s: int, a: int|
        0 <= s < t.state_count && 0 <= a < t.action.cells()[s].len() implies (#[trigger] t.action.cells()[s][a] matches Action::Shift(j)
            ==> exists|from: int, i: int|
            0 <= from < mapping.len() && mapping[from] == s && crate::lr::states::target(
                trans,
                from,
                crate::cfg::Symbol::Terminal(TerminalId(a as usize)),
            ) == Some(i as usize) && 0 <= i < mapping.len() && j.0 == mapping[i] && j.0 < t.state_count
                && cores(merged[j.0 as int]) == cores(lr1[i])) by {
        if let Action::Shift(j) = t.action.cells()[s][a] {
            let rep = crate::lr::table::representative(mapping, s);
            let w = crate::lr::table::lalr_state_writes(g, trans, mapping, rep, lists[s]);
            let err = crate::lr::table::error_row((g.terminals.len() + 1) as nat);
            assert(t.action.cells()[s] == crate::lr::table::apply_writes(err, w));
            lemma_write_origin(err, w, a);
            assert(err[a] == Action::Error);
            let k = choose|k: int| 0 <= k < w.len() && (#[trigger] w[k]).0 == a && w[k].1 == crate::lr::table::apply_writes(err, w)[a];
            lemma_lalr_shift_writes(g, trans, mapping, rep, lists[s]);
            assert(w[k].1 == Action::Shift(j));
            assert(crate::lr::table::merged_target(trans, mapping, rep, crate::cfg::Symbol::Terminal(TerminalId(w[k].0))) == Some(j.0));
            assert(crate::lr::table::numbered_in_order(mapping, s));
            lemma_representative(mapping, s);
            let i = crate::lr::states::target(trans, rep, crate::cfg::Symbol::Terminal(TerminalId(a as usize)))->0 as int;
            assert(mapping[i] < merged.len());
        }
    }
}

/// The LALR(1) table that the builder gives never shifts off the table: every shift entry
/// names one of its merged states, as `lalr_shifts_go_to_merged_states` describes.
pub proof fn lalr_shift_targets_in_table(g: &ContextFreeGrammar, t: &crate::lr::table::LALR1Table)
    requires
        crate::lr::table::lalr1_table_of(g, t),
    ensures
        forall|s: int, a: int|
            0 <= s < t.state_count && 0 <= a < t.action.cells()[s].len() ==> (#[trigger] t.action.cells()[s][a] matches Action::Shift(j)
                ==> j.0 < t.state_count),
{
    let (calc, c, mapping, lists) = choose|calc: LookaheadCalculator, c: crate::lr::states::LR1ItemSetCollection, mapping: Seq<usize>, lists: Seq<Seq<LR1Item>>|
        crate::lr::table::is_calculator_for(g, &calc) && crate::lr::states::is_lr1_collection(
            g,
            &calc,
            c.spec_states(),
            c.spec_transitions(),
        ) && is_lalr_merge(c.spec_states(), mapping, crate::lr::table::list_sets(lists)) && crate::lr::table::is_lalr_table(
            g,
            c.spec_states().len(),
            c.spec_transitions(),
            mapping,
            lists,
            t,
        );
    lalr_shifts_go_to_merged_states(g, c.spec_states(), c.spec_transitions(), mapping, lists, t);
}

} // verus!
