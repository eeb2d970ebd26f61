//! Basic blocks: maximal runs of three-address instructions entered only at the
//! top and left only at the bottom.
use vstd::prelude::*;
use crate::semantic::tac::{TacInstr, same_instr, same_instrs};

verus! {

/// A basic block: its instructions, and the label its first instruction defines.
#[derive(Debug)]
pub struct BasicBlock {
    pub label: Option<usize>,
    pub instructions: Vec<TacInstr>,
}

/// The label a jump goes to.
pub open spec fn jump_target(ins: TacInstr) -> Option<usize> {
    match ins {
        TacInstr::Jump { label } => Some(label),
        TacInstr::CondJump { label, .. } => Some(label),
        _ => None,
    }
}

/// The instruction ends a block: a jump or a return.
pub open spec fn ends_block(ins: TacInstr) -> bool {
    ins is Jump || ins is CondJump || ins is Return
}

/// The position of the last definition of label `id` among the first `n` instructions.
pub open spec fn label_pos(instrs: Seq<TacInstr>, id: usize, n: int) -> Option<int>
    decreases n,
{
    if n <= 0 {
        None
    } else if instrs[n - 1] matches TacInstr::Label { id: x } && x == id {
        Some(n - 1)
    } else {
        label_pos(instrs, id, n - 1)
    }
}

/// Instruction `j` jumps to instruction `i`: `i` is the last definition of its label.
pub open spec fn jumps_to(instrs: Seq<TacInstr>, j: int, i: int) -> bool {
    match jump_target(instrs[j]) {
        Some(l) => label_pos(instrs, l, instrs.len() as int) == Some(i),
        None => false,
    }
}

/// Instruction `i` is the target of some jump.
pub open spec fn is_jump_target(instrs: Seq<TacInstr>, i: int) -> bool {
    exists|j: int| 0 <= j < instrs.len() && #[trigger] jumps_to(instrs, j, i)
}

/// Instruction `i` begins a block: it is the first, a jump target, or it follows a
/// jump or a return.
pub open spec fn is_leader(instrs: Seq<TacInstr>, i: int) -> bool {
    i == 0 || is_jump_target(instrs, i) || (i > 0 && ends_block(instrs[i - 1]))
}

/// `starts` lists the leaders of `instrs` in increasing order.
pub open spec fn block_starts(instrs: Seq<TacInstr>, starts: Seq<int>) -> bool {
    &&& starts.len() >= 1
    &&& starts[0] == 0
    &&& forall|a: int, b: int| 0 <= a < b < starts.len() ==> #[trigger] starts[a] < #[trigger] starts[b]
    &&& forall|k: int| 0 <= k < starts.len() ==> #[trigger] starts[k] < instrs.len()
    &&& forall|i: int| 0 <= i < instrs.len() ==> (is_leader(instrs, i) <==> #[trigger] starts.contains(i))
}

/// The end of block `k`: the start of the next one, or the end of the instructions.
pub open spec fn block_end(instrs: Seq<TacInstr>, starts: Seq<int>, k: int) -> int {
    if k + 1 < starts.len() {
        starts[k + 1]
    } else {
        instrs.len() as int
    }
}

/// The label defined by the first instruction, if any.
pub open spec fn leading_label(instrs: Seq<TacInstr>) -> Option<usize> {
    if instrs.len() > 0 && instrs[0] is Label {
        Some(instrs[0]->Label_id)
    } else {
        None
    }
}

/// `blocks` are the runs of `instrs` from each leader to the next.
pub open spec fn splits_into(instrs: Seq<TacInstr>, blocks: Seq<BasicBlock>) -> bool {
    if instrs.len() == 0 {
        blocks.len() == 0
    } else {
        exists|starts: Seq<int>|
            #![trigger block_starts(instrs, starts)]
            block_starts(instrs, starts) && blocks.len() == starts.len() && forall|k: int|
                0 <= k < blocks.len() ==> same_instrs(
                    (#[trigger] blocks[k]).instructions@,
                    instrs.subrange(starts[k], block_end(instrs, starts, k)),
                ) && blocks[k].label == leading_label(instrs.subrange(starts[k], block_end(instrs, starts, k)))
    }
}

proof fn lemma_label_pos_range(instrs: Seq<TacInstr>, id: usize, n: int)
    ensures
        label_pos(instrs, id, n) matches Some(p) ==> 0 <= p < n,
    decreases n,
{
    if n > 0 {
        lemma_label_pos_range(instrs, id, n - 1);
    }
}

/// The position of the last definition of label `id`.
fn find_label(instrs: &[TacInstr], id: usize) -> (res: Option<usize>)
    ensures
        res matches Some(p) ==> label_pos(instrs@, id, instrs@.len() as int) == Some(p as int),
        res is None ==> label_pos(instrs@, id, instrs@.len() as int) is None,
{
    let mut n: usize = instrs.len();
    while n > 0
        invariant
            n <= instrs@.len(),
            label_pos(instrs@, id, instrs@.len() as int) == label_pos(instrs@, id, n as int),
        decreases n,
    {
        match &instrs[n - 1] {
            TacInstr::Label { id: x } => {
                if *x == id {
                    return Some(n - 1);
                }
            },
            _ => {},
        }
        n = n - 1;
    }
    None
}

/// Copies of the instructions from `from` up to `to`.
fn copy_range(instrs: &[TacInstr], from: usize, to: usize) -> (res: Vec<TacInstr>)
    requires
        from <= to <= instrs@.len(),
    ensures
        same_instrs(res@, instrs@.subrange(from as int, to as int)),
{
    let mut res: Vec<TacInstr> = Vec::new();
    let mut i: usize = from;
    while i < to
        invariant
            from <= i <= to,
            to <= instrs@.len(),
            res@.len() == i - from,
            forall|k: int| 0 <= k < res@.len() ==> same_instr(#[trigger] res@[k], instrs@[from + k]),
        decreases to - i,
    {
        res.push(instrs[i].clone());
        i = i + 1;
    }
    res
}

/// The label the first instruction defines, if any.
fn first_label(instrs: &Vec<TacInstr>) -> (res: Option<usize>)
    ensures
        res == leading_label(instrs@),
{
    if instrs.len() > 0 {
        match &instrs[0] {
            TacInstr::Label { id } => Some(*id),
            _ => None,
        }
    } else {
        None
    }
}

impl BasicBlock {
    /// An empty block with the given label.
    pub fn new(label: Option<usize>) -> (res: Self)
        ensures
            res.label == label,
            res.instructions@.len() == 0,
    {
        BasicBlock { label, instructions: Vec::new() }
    }

    /// Splits a list of instructions into basic blocks: a block begins at the first
    /// instruction, at the target of every jump, and after every jump or return
    /// (see `splits_into`).
    pub fn split(instructions: &[TacInstr]) -> (res: Vec<BasicBlock>)
        ensures
            splits_into(instructions@, res@),
    {
        let n = instructions.len();
        if n == 0 {
            return Vec::new();
        }
        let ghost ins = instructions@;
        // Which instructions begin a block.
        let mut leaders: Vec<bool> = Vec::new();
        let mut i: usize = 0;
        while i < n
            invariant
                i <= n,
                n == ins.len(),
                ins == instructions@,
                leaders@.len() == i,
                forall|p: int| 0 <= p < i ==> #[trigger] leaders@[p] == (p == 0 || (p > 0 && ends_block(ins[p - 1]))),
            decreases n - i,
        {
            let lead = i == 0 || match &instructions[i - 1] {
                TacInstr::Jump { .. } => true,
                TacInstr::CondJump { .. } => true,
                TacInstr::Return { .. } => true,
                _ => false,
            };
            leaders.push(lead);
            i = i + 1;
        }
        let mut j: usize = 0;
        while j < n
            invariant
                j <= n,
                n == ins.len(),
                ins == instructions@,
                leaders@.len() == n,
                forall|p: int| 0 <= p < n ==> #[trigger] leaders@[p] == (p == 0 || (p > 0 && ends_block(ins[p - 1]))
                    || exists|q: int|
                    0 <= q < j && #[trigger] jumps_to(ins, q, p)),
            decreases n - j,
        {
            let target: Option<usize> = match &instructions[j] {
                TacInstr::Jump { label } => Some(*label),
                TacInstr::CondJump { label, .. } => Some(*label),
                _ => None,
            };
            assert(target == jump_target(ins[j as int]));
            let ghost before = leaders@;
            match target {
                Some(l) => match find_label(instructions, l) {
                    Some(p) => {
                        proof {
                            lemma_label_pos_range(ins, l, n as int);
                        }
                        leaders.set(p, true);
                    },
                    None => {},
                },
                None => {},
            }
            proof {
                assert forall|p: int| 0 <= p < n implies #[trigger] leaders@[p] == (p == 0 || (p > 0 && ends_block(
                    ins[p - 1],
                )) || exists|q: int|
                    0 <= q < j + 1 && #[trigger] jumps_to(ins, q, p)) by {
                    let e = exists|q: int|
                        0 <= q < j && #[trigger] jumps_to(ins, q, p);
                    let e2 = exists|q: int|
                        0 <= q < j + 1 && #[trigger] jumps_to(ins, q, p);
                    if e {
                        let q = choose|q: int|
                            0 <= q < j && #[trigger] jumps_to(ins, q, p);
                        assert(0 <= q < j + 1);
                    }
                    if e2 && !e {
                        let q = choose|q: int|
                            0 <= q < j + 1 && #[trigger] jumps_to(ins, q, p);
                        assert(q == j);
                    }
                    if jumps_to(ins, j as int, p) {
                        assert(e2);
                    }
                }
            }
            j = j + 1;
        }
        proof {
            assert forall|p: int| 0 <= p < n implies #[trigger] leaders@[p] == is_leader(ins, p) by {
                if is_jump_target(ins, p) {
                    let q = choose|q: int|
                        0 <= q < ins.len() && #[trigger] jumps_to(ins, q, p);
                    assert(0 <= q < n);
                }
            }
        }
        // The blocks, from each leader to the next.
        let mut blocks: Vec<BasicBlock> = Vec::new();
        let mut current_start: usize = 0;
        let ghost mut starts: Seq<int> = seq![0];
        let mut i: usize = 1;
        while i < n
            invariant
                1 <= i <= n,
                n == ins.len(),
                ins == instructions@,
                leaders@.len() == n,
                forall|p: int| 0 <= p < n ==> #[trigger] leaders@[p] == is_leader(ins, p),
                starts.len() == blocks@.len() + 1,
                starts.last() == current_start,
                current_start < i,
                starts[0] == 0,
                forall|a: int, b: int| 0 <= a < b < starts.len() ==> #[trigger] starts[a] < #[trigger] starts[b],
                forall|k: int| 0 <= k < starts.len() ==> #[trigger] starts[k] < i,
                forall|p: int| 0 <= p < i ==> (is_leader(ins, p) <==> #[trigger] starts.contains(p)),
                forall|k: int|
                    0 <= k < blocks@.len() ==> same_instrs(
                        (#[trigger] blocks@[k]).instructions@,
                        ins.subrange(starts[k], starts[k + 1]),
                    ) && blocks@[k].label == leading_label(ins.subrange(starts[k], starts[k + 1])),
            decreases n - i,
        {
            if leaders[i] {
                let block_instrs = copy_range(instructions, current_start, i);
                let label = first_label(&block_instrs);
                proof {
                    let sub = ins.subrange(current_start as int, i as int);
                    assert(same_instr(block_instrs@[0], sub[0]));
                }
                let ghost old_blocks = blocks@;
                let ghost old_starts = starts;
                blocks.push(BasicBlock { label, instructions: block_instrs });
                current_start = i;
                proof {
                    starts = starts.push(i as int);
                    assert forall|k: int| 0 <= k < blocks@.len() implies same_instrs(
                        (#[trigger] blocks@[k]).instructions@,
                        ins.subrange(starts[k], starts[k + 1]),
                    ) && blocks@[k].label == leading_label(ins.subrange(starts[k], starts[k + 1])) by {
                        if k < old_blocks.len() {
                            assert(blocks@[k] == old_blocks[k]);
                            assert(starts[k] == old_starts[k] && starts[k + 1] == old_starts[k + 1]);
                        }
                    }
                    assert forall|p: int| 0 <= p < i + 1 implies (is_leader(ins, p) <==> #[trigger] starts.contains(p)) by {
                        if p < i {
                            if old_starts.contains(p) {
                                let k = choose|k: int| 0 <= k < old_starts.len() && old_starts[k] == p;
                                assert(starts[k] == p);
                            }
                            if starts.contains(p) {
                                let k = choose|k: int| 0 <= k < starts.len() && starts[k] == p;
                                assert(k < old_starts.len());
                                assert(old_starts[k] == p);
                            }
                        } else {
                            assert(starts[starts.len() - 1] == p);
                        }
                    }
                }
            } else {
                proof {
                    assert(!starts.contains(i as int));
                }
            }
            i = i + 1;
        }
        let block_instrs = copy_range(instructions, current_start, n);
        let label = first_label(&block_instrs);
        proof {
            let sub = ins.subrange(current_start as int, n as int);
            assert(same_instr(block_instrs@[0], sub[0]));
        }
        let ghost old_blocks = blocks@;
        blocks.push(BasicBlock { label, instructions: block_instrs });
        proof {
            assert(block_starts(ins, starts));
            assert forall|k: int| 0 <= k < blocks@.len() implies same_instrs(
                (#[trigger] blocks@[k]).instructions@,
                ins.subrange(starts[k], block_end(ins, starts, k)),
            ) && blocks@[k].label == leading_label(ins.subrange(starts[k], block_end(ins, starts, k))) by {
                if k < old_blocks.len() {
                    assert(blocks@[k] == old_blocks[k]);
                }
            }
        }
        blocks
    }

    pub fn is_empty(&self) -> (res: bool)
        ensures
            res == (self.instructions@.len() == 0),
    {
        self.instructions.len() == 0
    }

    pub fn len(&self) -> (res: usize)
        ensures
            res == self.instructions@.len(),
    {
        self.instructions.len()
    }
}

} // verus!
