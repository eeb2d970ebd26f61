//! Quadruples, common-subexpression elimination over them, and triples.
use vstd::prelude::*;
use crate::semantic::ir::{TacOp, label_text, tac_op_text, temp_text};
use crate::text::{decimal, int_text, join, join_strings, push_i64, push_str, push_usize, views};
use crate::semantic::tac::{Operand, OperandView, TacInstr, binary_tac_op, clone_opt, opt_view, same_opt, unary_tac_op};

verus! {

/// A quadruple `(op, arg1, arg2, result)`.
#[derive(Debug)]
pub struct Quadruple {
    pub op: TacOp,
    pub arg1: Option<Operand>,
    pub arg2: Option<Operand>,
    pub result: Option<Operand>,
}

impl Quadruple {
    pub fn new(op: TacOp, arg1: Option<Operand>, arg2: Option<Operand>, result: Option<Operand>) -> (res: Self)
        ensures
            res == (Quadruple { op, arg1, arg2, result }),
    {
        Quadruple { op, arg1, arg2, result }
    }
}

/// The quadruple of an instruction. The arguments of a call are given as one operand
/// (`call_args`, standing for the whole list), since they are written out as text.
pub open spec fn instr_quadruple(instr: TacInstr, call_args: Option<Operand>) -> Quadruple {
    match instr {
        TacInstr::Binary { op, result, left, right } => Quadruple {
            op: binary_tac_op(op),
            arg1: Some(left),
            arg2: Some(right),
            result: Some(result),
        },
        TacInstr::Unary { op, result, operand } => Quadruple {
            op: unary_tac_op(op),
            arg1: Some(operand),
            arg2: None,
            result: Some(result),
        },
        TacInstr::Assign { target, source } => Quadruple {
            op: TacOp::Assign,
            arg1: Some(source),
            arg2: None,
            result: Some(target),
        },
        TacInstr::CondJump { condition, label } => Quadruple {
            op: TacOp::Jnz,
            arg1: Some(condition),
            arg2: Some(Operand::Label(label)),
            result: None,
        },
        TacInstr::Jump { label } => Quadruple { op: TacOp::Jmp, arg1: Some(Operand::Label(label)), arg2: None, result: None },
        TacInstr::Label { id } => Quadruple { op: TacOp::Label, arg1: Some(Operand::Label(id)), arg2: None, result: None },
        TacInstr::Call { result, func, args } => Quadruple { op: TacOp::Call, arg1: Some(func), arg2: call_args, result },
        TacInstr::Return { value } => Quadruple { op: TacOp::Ret, arg1: value, arg2: None, result: None },
        TacInstr::Nop => Quadruple { op: TacOp::Nop, arg1: None, arg2: None, result: None },
    }
}

impl Quadruple {
    /// The quadruple of an instruction (see `instr_quadruple`); `call_args` stands for
    /// the argument list of a call and is ignored for any other instruction.
    pub fn from_instr(instr: TacInstr, call_args: Option<Operand>) -> (res: Quadruple)
        ensures
            res == instr_quadruple(instr, call_args),
    {
        match instr {
            TacInstr::Binary { op, result, left, right } => Quadruple::new(op.to_tac(), Some(left), Some(right), Some(result)),
            TacInstr::Unary { op, result, operand } => Quadruple::new(op.to_tac(), Some(operand), None, Some(result)),
            TacInstr::Assign { target, source } => Quadruple::new(TacOp::Assign, Some(source), None, Some(target)),
            TacInstr::CondJump { condition, label } => Quadruple::new(
                TacOp::Jnz,
                Some(condition),
                Some(Operand::Label(label)),
                None,
            ),
            TacInstr::Jump { label } => Quadruple::new(TacOp::Jmp, Some(Operand::Label(label)), None, None),
            TacInstr::Label { id } => Quadruple::new(TacOp::Label, Some(Operand::Label(id)), None, None),
            TacInstr::Call { result, func, args } => Quadruple::new(TacOp::Call, Some(func), call_args, result),
            TacInstr::Return { value } => Quadruple::new(TacOp::Ret, value, None, None),
            TacInstr::Nop => Quadruple::new(TacOp::Nop, None, None, None),
        }
    }
}

impl Clone for Quadruple {
    fn clone(&self) -> (res: Self)
        ensures
            res == *self,
    {
        Quadruple {
            op: self.op,
            arg1: clone_opt(&self.arg1),
            arg2: clone_opt(&self.arg2),
            result: clone_opt(&self.result),
        }
    }
}

/// What elimination compares: the operator and both arguments.
pub open spec fn signature(q: Quadruple) -> (TacOp, Option<OperandView>, Option<OperandView>) {
    (q.op, opt_view(q.arg1), opt_view(q.arg2))
}

/// The signature recorded in an entry of the table of first occurrences.
pub open spec fn entry_sig(e: (TacOp, Option<Operand>, Option<Operand>, usize)) -> (TacOp, Option<OperandView>, Option<OperandView>) {
    (e.0, opt_view(e.1), opt_view(e.2))
}

/// The state of elimination after a prefix of the input: the quadruples kept, the
/// index among them of the first quadruple with each signature, and the operand
/// that stands for each result dropped so far.
pub struct CseState {
    pub kept: Seq<Quadruple>,
    pub first: Map<(TacOp, Option<OperandView>, Option<OperandView>), int>,
    pub replaced: Map<OperandView, Operand>,
}

/// An argument with a dropped result replaced by the one it stands for.
pub open spec fn replace_arg(m: Map<OperandView, Operand>, a: Option<Operand>) -> Option<Operand> {
    match a {
        Some(x) => Some(
            if m.contains_key(x@) {
                m[x@]
            } else {
                x
            },
        ),
        None => None,
    }
}

/// One step of elimination. A quadruple whose signature was seen is dropped, and
/// its result (if any) then stands for the result of the first one (if any); any
/// other is kept, its arguments replaced.
pub open spec fn cse_step(st: CseState, q: Quadruple) -> CseState {
    let sig = signature(q);
    if st.first.contains_key(sig) {
        let earlier = st.kept[st.first[sig]];
        match (q.result, earlier.result) {
            (Some(r), Some(e)) => CseState { replaced: st.replaced.insert(r@, e), ..st },
            _ => st,
        }
    } else {
        CseState {
            kept: st.kept.push(
                Quadruple {
                    op: q.op,
                    arg1: replace_arg(st.replaced, q.arg1),
                    arg2: replace_arg(st.replaced, q.arg2),
                    result: q.result,
                },
            ),
            first: st.first.insert(sig, st.kept.len() as int),
            replaced: st.replaced,
        }
    }
}

/// Elimination over the quadruples, in order.
pub open spec fn cse_run(qs: Seq<Quadruple>) -> CseState
    decreases qs.len(),
{
    if qs.len() == 0 {
        CseState { kept: Seq::empty(), first: Map::empty(), replaced: Map::empty() }
    } else {
        cse_step(cse_run(qs.drop_last()), qs.last())
    }
}

/// The kept quadruples are indexed by signature.
pub open spec fn cse_state_wf(st: CseState) -> bool {
    forall|sig| #[trigger] st.first.contains_key(sig) ==> 0 <= st.first[sig] < st.kept.len()
}

proof fn lemma_cse_wf(qs: Seq<Quadruple>)
    ensures
        cse_state_wf(cse_run(qs)),
    decreases qs.len(),
{
    if qs.len() > 0 {
        lemma_cse_wf(qs.drop_last());
    }
}

/// The operand standing for `a`, if it was replaced; `a` itself otherwise.
fn replace_in(replaced: &Vec<(Operand, Operand)>, a: &Option<Operand>, Ghost(m): Ghost<Map<OperandView, Operand>>) -> (res: Option<Operand>)
    requires
        forall|k: OperandView| #[trigger] m.contains_key(k) <==> exists|i: int| 0 <= i < replaced@.len() && replaced@[i].0@ == k,
        forall|i: int| 0 <= i < replaced@.len() ==> m.contains_key(#[trigger] replaced@[i].0@) && m[replaced@[i].0@] == replaced@[i].1,
    ensures
        res == replace_arg(m, *a),
{
    match a {
        Some(x) => {
            let mut i: usize = 0;
            while i < replaced.len()
                invariant
                    i <= replaced.len(),
                    *a == Some(*x),
                    forall|k: int| 0 <= k < i ==> replaced@[k].0@ != x@,
                    forall|k: int| 0 <= k < replaced@.len() ==> m.contains_key(#[trigger] replaced@[k].0@) && m[replaced@[k].0@]
                        == replaced@[k].1,
                decreases replaced.len() - i,
            {
                if replaced[i].0.same(x) {
                    assert(m.contains_key(replaced@[i as int].0@));
                    return Some(replaced[i].1.clone());
                }
                i = i + 1;
            }
            proof {
                if m.contains_key(x@) {
                    let k = choose|k: int| 0 <= k < replaced@.len() && replaced@[k].0@ == x@;
                    assert(replaced@[k].0@ != x@);
                }
            }
            Some(x.clone())
        },
        None => None,
    }
}

/// Common-subexpression elimination: scanning in order, a quadruple with the same
/// operator and arguments as an earlier one is dropped, and its result stands for
/// the earlier result in the arguments of later quadruples (see `cse_run`).
pub fn cse_quadruples(quads: &[Quadruple]) -> (res: Vec<Quadruple>)
    ensures
        res@ == cse_run(quads@).kept,
{
    let mut first: Vec<(TacOp, Option<Operand>, Option<Operand>, usize)> = Vec::new();
    let mut replaced: Vec<(Operand, Operand)> = Vec::new();
    let mut kept: Vec<Quadruple> = Vec::new();
    let mut i: usize = 0;
    assert(quads@.take(0) =~= Seq::<Quadruple>::empty());
    while i < quads.len()
        invariant
            i <= quads@.len(),
            ({
                let st = cse_run(quads@.take(i as int));
                &&& kept@ == st.kept
                &&& forall|sig| #[trigger] st.first.contains_key(sig) <==> exists|k: int|
                    0 <= k < first@.len() && entry_sig(first@[k]) == sig
                &&& forall|k: int| 0 <= k < first@.len() ==> st.first.contains_key(
                    entry_sig(#[trigger] first@[k]),
                ) && st.first[entry_sig(first@[k])] == first@[k].3 as int
                &&& forall|v: OperandView| #[trigger] st.replaced.contains_key(v) <==> exists|k: int|
                    0 <= k < replaced@.len() && replaced@[k].0@ == v
                &&& forall|k: int| 0 <= k < replaced@.len() ==> st.replaced.contains_key(#[trigger] replaced@[k].0@)
                    && st.replaced[replaced@[k].0@] == replaced@[k].1
                &&& forall|a: int, b: int| 0 <= a < b < replaced@.len() ==> #[trigger] replaced@[a].0@ != #[trigger] replaced@[b].0@
                &&& cse_state_wf(st)
            }),
        decreases quads@.len() - i,
    {
        let q = &quads[i];
        let ghost st = cse_run(quads@.take(i as int));
        proof {
            assert(quads@.take(i + 1).drop_last() =~= quads@.take(i as int));
            assert(quads@.take(i + 1).last() == quads@[i as int]);
            lemma_cse_wf(quads@.take(i as int));
        }
        let mut found: Option<usize> = None;
        let mut k: usize = 0;
        while k < first.len()
            invariant_except_break
                found is None,
            invariant
                k <= first.len(),
                forall|m: int| 0 <= m < k ==> (#[trigger] first@[m].0, opt_view(first@[m].1), opt_view(first@[m].2)) != signature(*q),
            ensures
                found matches Some(f) ==> f < first.len() && entry_sig(first@[f as int]) == signature(*q),
                found is None ==> forall|m: int| 0 <= m < first.len() ==> (#[trigger] first@[m].0, opt_view(first@[m].1), opt_view(first@[m].2)) != signature(*q),
            decreases first.len() - k,
        {
            if first[k].0 == q.op && same_opt(&first[k].1, &q.arg1) && same_opt(&first[k].2, &q.arg2) {
                found = Some(k);
                break;
            }
            k = k + 1;
        }
        match found {
            Some(f) => {
                let idx = first[f].3;
                proof {
                    assert(st.first.contains_key(signature(*q)));
                }
                match (&q.result, &kept[idx].result) {
                    (Some(r), Some(e)) => {
                        let e2 = e.clone();
                        let mut p: usize = 0;
                        let mut done = false;
                        while p < replaced.len()
                            invariant_except_break
                                !done,
                            invariant
                                p <= replaced.len(),
                                forall|m: int| 0 <= m < p ==> replaced@[m].0@ != r@,
                            ensures
                                done ==> p < replaced.len() && replaced@[p as int].0@ == r@,
                                !done ==> forall|m: int| 0 <= m < replaced.len() ==> replaced@[m].0@ != r@,
                            decreases replaced.len() - p,
                        {
                            if replaced[p].0.same(r) {
                                done = true;
                                break;
                            }
                            p = p + 1;
                        }
                        let ghost before = replaced@;
                        if done {
                            let key = replaced[p].0.clone();
                            replaced.set(p, (key, e2));
                        } else {
                            replaced.push((r.clone(), e2));
                        }
                        proof {
                            let st2 = cse_run(quads@.take(i + 1));
                            assert(st2.replaced == st.replaced.insert(r@, e2));
                            if done {
                                assert forall|a: int, b: int| 0 <= a < b < replaced@.len() implies #[trigger] replaced@[a].0@
                                    != #[trigger] replaced@[b].0@ by {
                                    assert(replaced@[a].0@ == before[a].0@);
                                    assert(replaced@[b].0@ == before[b].0@);
                                }
                                assert forall|v: OperandView| #[trigger] st2.replaced.contains_key(v) implies exists|m: int|
                                    0 <= m < replaced@.len() && replaced@[m].0@ == v by {
                                    if v == r@ {
                                        assert(replaced@[p as int].0@ == v);
                                    } else {
                                        let m = choose|m: int| 0 <= m < before.len() && before[m].0@ == v;
                                        assert(replaced@[m].0@ == before[m].0@);
                                    }
                                }
                                assert forall|m: int| 0 <= m < replaced@.len() implies st2.replaced.contains_key(
                                    #[trigger] replaced@[m].0@,
                                ) && st2.replaced[replaced@[m].0@] == replaced@[m].1 by {
                                    if m != p {
                                        assert(replaced@[m] == before[m]);
                                    }
                                }
                            } else {
                                assert forall|v: OperandView| #[trigger] st2.replaced.contains_key(v) implies exists|m: int|
                                    0 <= m < replaced@.len() && replaced@[m].0@ == v by {
                                    if v == r@ {
                                        assert(replaced@[before.len() as int].0@ == v);
                                    } else {
                                        let m = choose|m: int| 0 <= m < before.len() && before[m].0@ == v;
                                        assert(replaced@[m] == before[m]);
                                    }
                                }
                                assert forall|m: int| 0 <= m < replaced@.len() implies st2.replaced.contains_key(
                                    #[trigger] replaced@[m].0@,
                                ) && st2.replaced[replaced@[m].0@] == replaced@[m].1 by {
                                    if m < before.len() {
                                        assert(replaced@[m] == before[m]);
                                    }
                                }
                                assert forall|a: int, b: int| 0 <= a < b < replaced@.len() implies #[trigger] replaced@[a].0@
                                    != #[trigger] replaced@[b].0@ by {
                                    if b < before.len() {
                                        assert(replaced@[a] == before[a]);
                                        assert(replaced@[b] == before[b]);
                                    } else {
                                        assert(replaced@[a] == before[a]);
                                    }
                                }
                            }
                        }
                    },
                    _ => {},
                }
            },
            None => {
                let arg1 = replace_in(&replaced, &q.arg1, Ghost(st.replaced));
                let arg2 = replace_in(&replaced, &q.arg2, Ghost(st.replaced));
                let idx = kept.len();
                kept.push(Quadruple::new(q.op, arg1, arg2, clone_opt(&q.result)));
                let ghost before = first@;
                first.push((q.op, clone_opt(&q.arg1), clone_opt(&q.arg2), idx));
                proof {
                    let st2 = cse_run(quads@.take(i + 1));
                    assert(!st.first.contains_key(signature(*q)));
                    assert forall|sig| #[trigger] st2.first.contains_key(sig) implies exists|m: int|
                        0 <= m < first@.len() && entry_sig(first@[m]) == sig by {
                        if sig == signature(*q) {
                            assert(entry_sig(first@[before.len() as int]) == sig);
                        } else {
                            let m = choose|m: int| 0 <= m < before.len() && entry_sig(before[m]) == sig;
                            assert(first@[m] == before[m]);
                        }
                    }
                    assert forall|m: int| 0 <= m < first@.len() implies st2.first.contains_key(
                        entry_sig(#[trigger] first@[m]),
                    ) && st2.first[entry_sig(first@[m])] == first@[m].3 as int by {
                        if m < before.len() {
                            assert(first@[m] == before[m]);
                        }
                    }
                }
            },
        }
        i = i + 1;
    }
    assert(quads@.take(quads@.len() as int) =~= quads@);
    kept
}

/// A triple argument: an operand, or the position of the triple whose value it is.
#[derive(Debug)]
pub enum TripleRef {
    Operand(Operand),
    Index(usize),
}

/// A triple `(op, arg1, arg2)`: its value is named by its position.
#[derive(Debug)]
pub struct Triple {
    pub op: TacOp,
    pub arg1: Option<TripleRef>,
    pub arg2: Option<TripleRef>,
}

impl Triple {
    pub fn new(op: TacOp, arg1: Option<TripleRef>, arg2: Option<TripleRef>) -> (res: Self)
        ensures
            res == (Triple { op, arg1, arg2 }),
    {
        Triple { op, arg1, arg2 }
    }
}

/// The last quadruple (below `n`) whose result is temporary `t`.
pub open spec fn last_def(qs: Seq<Quadruple>, t: usize, n: int) -> Option<int>
    decreases n,
{
    if n <= 0 {
        None
    } else if qs[n - 1].result == Some(Operand::Temp(t)) {
        Some(n - 1)
    } else {
        last_def(qs, t, n - 1)
    }
}

/// A quadruple argument as a triple argument: a temporary that some quadruple
/// defines becomes the position of the last such quadruple.
pub open spec fn triple_arg(qs: Seq<Quadruple>, a: Option<Operand>) -> Option<TripleRef> {
    match a {
        Some(Operand::Temp(t)) => match last_def(qs, t, qs.len() as int) {
            Some(k) => Some(TripleRef::Index(k as usize)),
            None => Some(TripleRef::Operand(Operand::Temp(t))),
        },
        Some(x) => Some(TripleRef::Operand(x)),
        None => None,
    }
}

proof fn lemma_last_def_range(qs: Seq<Quadruple>, t: usize, n: int)
    ensures
        last_def(qs, t, n) matches Some(k) ==> 0 <= k < n && qs[k].result == Some(Operand::Temp(t)),
    decreases n,
{
    if n > 0 {
        lemma_last_def_range(qs, t, n - 1);
    }
}

/// The last quadruple (below `n`) that defines temporary `t`.
fn find_last_def(quads: &[Quadruple], t: usize) -> (res: Option<usize>)
    ensures
        res matches Some(k) ==> last_def(quads@, t, quads@.len() as int) == Some(k as int),
        res is None ==> last_def(quads@, t, quads@.len() as int) is None,
{
    let mut n: usize = quads.len();
    while n > 0
        invariant
            n <= quads@.len(),
            last_def(quads@, t, quads@.len() as int) == last_def(quads@, t, n as int),
        decreases n,
    {
        match &quads[n - 1].result {
            Some(Operand::Temp(x)) => {
                if *x == t {
                    return Some(n - 1);
                }
            },
            _ => {},
        }
        n = n - 1;
    }
    None
}

fn convert_arg(quads: &[Quadruple], a: &Option<Operand>) -> (res: Option<TripleRef>)
    ensures
        res == triple_arg(quads@, *a),
{
    match a {
        Some(Operand::Temp(t)) => match find_last_def(quads, *t) {
            Some(k) => Some(TripleRef::Index(k)),
            None => Some(TripleRef::Operand(Operand::Temp(*t))),
        },
        Some(x) => Some(TripleRef::Operand(x.clone())),
        None => None,
    }
}

/// The quadruples as triples: the same operators, and every argument that is a
/// temporary some quadruple defines replaced by the position of the last one.
pub fn quadruples_to_triples(quadruples: &[Quadruple]) -> (res: Vec<Triple>)
    ensures
        res@.len() == quadruples@.len(),
        forall|i: int| 0 <= i < res@.len() ==> #[trigger] res@[i] == (Triple {
            op: quadruples@[i].op,
            arg1: triple_arg(quadruples@, quadruples@[i].arg1),
            arg2: triple_arg(quadruples@, quadruples@[i].arg2),
        }),
{
    let mut res: Vec<Triple> = Vec::new();
    let mut i: usize = 0;
    while i < quadruples.len()
        invariant
            i <= quadruples@.len(),
            res@.len() == i,
            forall|k: int| 0 <= k < i ==> #[trigger] res@[k] == (Triple {
                op: quadruples@[k].op,
                arg1: triple_arg(quadruples@, quadruples@[k].arg1),
                arg2: triple_arg(quadruples@, quadruples@[k].arg2),
            }),
        decreases quadruples@.len() - i,
    {
        let q = &quadruples[i];
        let a1 = convert_arg(quadruples, &q.arg1);
        let a2 = convert_arg(quadruples, &q.arg2);
        res.push(Triple::new(q.op, a1, a2));
        i = i + 1;
    }
    res
}

/// Elimination, then conversion to triples.
pub fn cse_and_to_triples(quads: &[Quadruple]) -> (res: Vec<Triple>)
    ensures
        ({
            let kept = cse_run(quads@).kept;
            &&& res@.len() == kept.len()
            &&& forall|i: int| 0 <= i < res@.len() ==> #[trigger] res@[i] == (Triple {
                op: kept[i].op,
                arg1: triple_arg(kept, kept[i].arg1),
                arg2: triple_arg(kept, kept[i].arg2),
            })
        }),
{
    let kept = cse_quadruples(quads);
    quadruples_to_triples(kept.as_slice())
}

/// The printed form of an operand. A floating-point constant is shown as
/// `float_text`, which the caller supplies.
pub open spec fn operand_text(o: OperandView, float_text: Seq<char>) -> Seq<char> {
    match o {
        OperandView::Temp(id) => temp_text(id),
        OperandView::Name(n) => n,
        OperandView::IntConst(v) => int_text(v as int),
        OperandView::FloatConst(_) => float_text,
        OperandView::BoolConst(b) => if b {
            "true"@
        } else {
            "false"@
        },
        OperandView::StrConst(i) => "str#"@ + decimal(i as nat),
        OperandView::Label(id) => label_text(id),
    }
}

/// The printed form of an optional part: its text, or `—` when it is missing.
pub open spec fn part_text(o: Option<Seq<char>>) -> Seq<char> {
    match o {
        Some(t) => t,
        None => "—"@,
    }
}

/// The text of an optional operand.
pub open spec fn opt_operand_text(o: Option<OperandView>, float_text: Seq<char>) -> Option<Seq<char>> {
    match o {
        Some(x) => Some(operand_text(x, float_text)),
        None => None,
    }
}

/// The printed form of a triple argument: the operand, or `(position)`.
pub open spec fn triple_ref_text(r: TripleRef, float_text: Seq<char>) -> Seq<char> {
    match r {
        TripleRef::Operand(o) => operand_text(o@, float_text),
        TripleRef::Index(i) => "("@ + decimal(i as nat) + ")"@,
    }
}

/// The text of an optional triple argument.
pub open spec fn opt_ref_text(r: Option<TripleRef>, float_text: Seq<char>) -> Option<Seq<char>> {
    match r {
        Some(x) => Some(triple_ref_text(x, float_text)),
        None => None,
    }
}

impl Operand {
    /// The printed form (see `operand_text`); `float_text` is used only for a
    /// floating-point constant.
    pub fn text(&self, float_text: &str) -> (res: String)
        ensures
            res@ == operand_text(self@, float_text@),
    {
        let mut s = String::new();
        push_operand(&mut s, self, float_text);
        s
    }
}

/// Appends the printed form of an operand.
fn push_operand(s: &mut String, o: &Operand, float_text: &str)
    ensures
        final(s)@ == old(s)@ + operand_text(o@, float_text@),
{
    let ghost before = s@;
    match o {
        Operand::Temp(id) => {
            push_str(s, "t");
            push_usize(s, *id);
            proof {
                reveal_strlit("t");
                assert(s@ =~= before + temp_text(*id));
            }
        },
        Operand::Name(n) => {
            push_str(s, n.as_str());
        },
        Operand::IntConst(v) => {
            push_i64(s, *v);
        },
        Operand::FloatConst(_) => {
            push_str(s, float_text);
        },
        Operand::BoolConst(b) => {
            if *b {
                push_str(s, "true");
            } else {
                push_str(s, "false");
            }
        },
        Operand::StrConst(i) => {
            push_str(s, "str#");
            push_usize(s, *i);
            proof {
                assert(s@ =~= before + ("str#"@ + decimal(*i as nat)));
            }
        },
        Operand::Label(id) => {
            push_str(s, "L");
            push_usize(s, *id);
            proof {
                reveal_strlit("L");
                assert(s@ =~= before + label_text(*id));
            }
        },
    }
}

/// Appends `, ` and the printed form of an optional operand.
fn push_operand_part(s: &mut String, o: &Option<Operand>, float_text: &str)
    ensures
        final(s)@ == old(s)@ + ", "@ + part_text(opt_operand_text(opt_view(*o), float_text@)),
{
    let ghost before = s@;
    push_str(s, ", ");
    match o {
        Some(x) => push_operand(s, x, float_text),
        None => push_str(s, "—"),
    }
    assert(s@ =~= before + ", "@ + part_text(opt_operand_text(opt_view(*o), float_text@)));
}

/// Appends `, ` and the printed form of an optional triple argument.
fn push_ref_part(s: &mut String, r: &Option<TripleRef>, float_text: &str)
    ensures
        final(s)@ == old(s)@ + ", "@ + part_text(opt_ref_text(*r, float_text@)),
{
    let ghost before = s@;
    push_str(s, ", ");
    match r {
        Some(TripleRef::Operand(x)) => push_operand(s, x, float_text),
        Some(TripleRef::Index(i)) => {
            let ghost mid = s@;
            push_str(s, "(");
            push_usize(s, *i);
            push_str(s, ")");
            assert(s@ =~= mid + ("("@ + decimal(*i as nat) + ")"@));
        },
        None => push_str(s, "—"),
    }
    assert(s@ =~= before + ", "@ + part_text(opt_ref_text(*r, float_text@)));
}

impl Quadruple {
    /// The printed form `(op, arg1, arg2, result)`, `—` for a missing part. Each
    /// `*_float` text stands for that part when it is a floating-point constant.
    pub fn text(&self, arg1_float: &str, arg2_float: &str, result_float: &str) -> (res: String)
        ensures
            res@ == "("@ + tac_op_text(self.op) + ", "@ + part_text(opt_operand_text(opt_view(self.arg1), arg1_float@))
                + ", "@ + part_text(opt_operand_text(opt_view(self.arg2), arg2_float@)) + ", "@ + part_text(
                opt_operand_text(opt_view(self.result), result_float@),
            ) + ")"@,
    {
        let mut s = String::new();
        push_str(&mut s, "(");
        let op = self.op.to_string();
        push_str(&mut s, op.as_str());
        push_operand_part(&mut s, &self.arg1, arg1_float);
        push_operand_part(&mut s, &self.arg2, arg2_float);
        push_operand_part(&mut s, &self.result, result_float);
        push_str(&mut s, ")");
        assert(s@ =~= "("@ + tac_op_text(self.op) + ", "@ + part_text(opt_operand_text(opt_view(self.arg1), arg1_float@))
            + ", "@ + part_text(opt_operand_text(opt_view(self.arg2), arg2_float@)) + ", "@ + part_text(
            opt_operand_text(opt_view(self.result), result_float@),
        ) + ")"@);
        s
    }
}

impl TripleRef {
    /// The printed form (see `triple_ref_text`).
    pub fn text(&self, float_text: &str) -> (res: String)
        ensures
            res@ == triple_ref_text(*self, float_text@),
    {
        let mut s = String::new();
        match self {
            TripleRef::Operand(o) => push_operand(&mut s, o, float_text),
            TripleRef::Index(i) => {
                push_str(&mut s, "(");
                push_usize(&mut s, *i);
                push_str(&mut s, ")");
                assert(s@ =~= "("@ + decimal(*i as nat) + ")"@);
            },
        }
        assert(s@ =~= triple_ref_text(*self, float_text@));
        s
    }
}

impl Triple {
    /// The printed form `(op, arg1, arg2)`, `—` for a missing argument. Each
    /// `*_float` text stands for that argument when it is a floating-point constant.
    pub fn text(&self, arg1_float: &str, arg2_float: &str) -> (res: String)
        ensures
            res@ == "("@ + tac_op_text(self.op) + ", "@ + part_text(opt_ref_text(self.arg1, arg1_float@)) + ", "@
                + part_text(opt_ref_text(self.arg2, arg2_float@)) + ")"@,
    {
        let mut s = String::new();
        push_str(&mut s, "(");
        let op = self.op.to_string();
        push_str(&mut s, op.as_str());
        push_ref_part(&mut s, &self.arg1, arg1_float);
        push_ref_part(&mut s, &self.arg2, arg2_float);
        push_str(&mut s, ")");
        assert(s@ =~= "("@ + tac_op_text(self.op) + ", "@ + part_text(opt_ref_text(self.arg1, arg1_float@)) + ", "@
            + part_text(opt_ref_text(self.arg2, arg2_float@)) + ")"@);
        s
    }
}

/// The printed arguments of a call, `(a,b,...)`: each argument's text, with
/// `float_texts[i]` standing for argument `i` when it is a floating-point constant.
pub open spec fn call_args_text(args: Seq<Operand>, float_texts: Seq<String>) -> Seq<char> {
    "("@ + join(Seq::new(args.len(), |i: int| operand_text(args[i]@, float_texts[i]@)), ","@) + ")"@
}

/// The operand that stands for the arguments of a call in its quadruple: none
/// for no arguments, else the name `call_args_text`.
pub fn call_args_operand(args: &Vec<Operand>, float_texts: &Vec<String>) -> (res: Option<Operand>)
    requires
        float_texts.len() == args.len(),
    ensures
        args.len() == 0 <==> res is None,
        args.len() > 0 ==> (res matches Some(o) && o@ == OperandView::Name(call_args_text(args@, float_texts@))),
{
    if args.len() == 0 {
        return None;
    }
    let mut parts: Vec<String> = Vec::new();
    let mut i: usize = 0;
    while i < args.len()
        invariant
            i <= args@.len(),
            float_texts@.len() == args@.len(),
            views(parts@) == Seq::new(i as nat, |k: int| operand_text(args@[k]@, float_texts@[k]@)),
        decreases args@.len() - i,
    {
        let t = args[i].text(float_texts[i].as_str());
        let ghost before = parts@;
        parts.push(t);
        proof {
            assert(t@ == operand_text(args@[i as int]@, float_texts@[i as int]@));
            assert(views(parts@) =~= views(before).push(t@));
            assert(views(parts@) =~= Seq::new((i + 1) as nat, |k: int| operand_text(args@[k]@, float_texts@[k]@)));
        }
        i = i + 1;
    }
    let inner = join_strings(&parts, ",");
    let mut name = String::new();
    push_str(&mut name, "(");
    push_str(&mut name, inner.as_str());
    push_str(&mut name, ")");
    proof {
        assert(Seq::new(args@.len(), |k: int| operand_text(args@[k]@, float_texts@[k]@)) =~= views(parts@));
        assert(name@ =~= call_args_text(args@, float_texts@));
    }
    Some(Operand::Name(name))
}

} // verus!
