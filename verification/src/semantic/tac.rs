//! Three-address code: operands, operators and instructions.
use vstd::prelude::*;
use crate::semantic::ir::{TacOp, temp_text};
use crate::text::str_eq;

verus! {

/// An operand of a three-address instruction. A floating-point constant is held
/// by the bits of its IEEE 754 double: two such constants are the same operand
/// exactly when their bits are.
#[derive(Debug)]
pub enum Operand {
    Temp(usize),
    Name(String),
    IntConst(i64),
    FloatConst(u64),
    BoolConst(bool),
    StrConst(usize),
    Label(usize),
}

/// An operand as the logic sees it: a name by its characters.
pub enum OperandView {
    Temp(usize),
    Name(Seq<char>),
    IntConst(i64),
    FloatConst(u64),
    BoolConst(bool),
    StrConst(usize),
    Label(usize),
}

impl View for Operand {
    type V = OperandView;

    open spec fn view(&self) -> OperandView {
        match self {
            Operand::Temp(t) => OperandView::Temp(*t),
            Operand::Name(n) => OperandView::Name(n@),
            Operand::IntConst(v) => OperandView::IntConst(*v),
            Operand::FloatConst(b) => OperandView::FloatConst(*b),
            Operand::BoolConst(b) => OperandView::BoolConst(*b),
            Operand::StrConst(i) => OperandView::StrConst(*i),
            Operand::Label(l) => OperandView::Label(*l),
        }
    }
}

/// The view of an optional operand.
pub open spec fn opt_view(o: Option<Operand>) -> Option<OperandView> {
    match o {
        Some(x) => Some(x@),
        None => None,
    }
}

impl Clone for Operand {
    fn clone(&self) -> (res: Self)
        ensures
            res == *self,
    {
        match self {
            Operand::Temp(t) => Operand::Temp(*t),
            Operand::Name(n) => Operand::Name(n.clone()),
            Operand::IntConst(v) => Operand::IntConst(*v),
            Operand::FloatConst(b) => Operand::FloatConst(*b),
            Operand::BoolConst(b) => Operand::BoolConst(*b),
            Operand::StrConst(i) => Operand::StrConst(*i),
            Operand::Label(l) => Operand::Label(*l),
        }
    }
}

/// A copy of an optional operand.
pub fn clone_opt(o: &Option<Operand>) -> (res: Option<Operand>)
    ensures
        res == *o,
{
    match o {
        Some(x) => Some(x.clone()),
        None => None,
    }
}

impl Operand {
    /// Whether the two operands are the same: same kind and same value (the same
    /// bits for floating-point constants).
    pub fn same(&self, other: &Operand) -> (res: bool)
        ensures
            res == (self@ == other@),
    {
        match (self, other) {
            (Operand::Temp(a), Operand::Temp(b)) => *a == *b,
            (Operand::Name(a), Operand::Name(b)) => str_eq(a.as_str(), b.as_str()),
            (Operand::IntConst(a), Operand::IntConst(b)) => *a == *b,
            (Operand::FloatConst(a), Operand::FloatConst(b)) => *a == *b,
            (Operand::BoolConst(a), Operand::BoolConst(b)) => *a == *b,
            (Operand::StrConst(a), Operand::StrConst(b)) => *a == *b,
            (Operand::Label(a), Operand::Label(b)) => *a == *b,
            _ => false,
        }
    }
}

/// Whether two optional operands are the same.
pub fn same_opt(a: &Option<Operand>, b: &Option<Operand>) -> (res: bool)
    ensures
        res == (opt_view(*a) == opt_view(*b)),
{
    match (a, b) {
        (Some(x), Some(y)) => x.same(y),
        (None, None) => true,
        _ => false,
    }
}

/// A binary operator of the source language.
#[derive(Debug)]
pub enum BinaryOp {
    Add,
    Sub,
    Mul,
    Div,
    Mod,
    Eq,
    Ne,
    Lt,
    Le,
    Gt,
    Ge,
    And,
    Or,
    Custom(String),
}

/// A unary operator of the source language.
#[derive(Debug)]
pub enum UnaryOp {
    Neg,
    Not,
    Pos,
    Custom(String),
}

/// The quadruple operator of a binary operator; `Nop` for a custom one.
pub open spec fn binary_tac_op(op: BinaryOp) -> TacOp {
    match op {
        BinaryOp::Add => TacOp::Add,
        BinaryOp::Sub => TacOp::Sub,
        BinaryOp::Mul => TacOp::Mul,
        BinaryOp::Div => TacOp::Div,
        BinaryOp::Mod => TacOp::Mod,
        BinaryOp::Eq => TacOp::Eq,
        BinaryOp::Ne => TacOp::Ne,
        BinaryOp::Lt => TacOp::Lt,
        BinaryOp::Le => TacOp::Le,
        BinaryOp::Gt => TacOp::Gt,
        BinaryOp::Ge => TacOp::Ge,
        BinaryOp::And => TacOp::And,
        BinaryOp::Or => TacOp::Or,
        BinaryOp::Custom(_) => TacOp::Nop,
    }
}

/// The quadruple operator of a unary operator; `Nop` for a custom one.
pub open spec fn unary_tac_op(op: UnaryOp) -> TacOp {
    match op {
        UnaryOp::Neg => TacOp::Neg,
        UnaryOp::Not => TacOp::Not,
        UnaryOp::Pos => TacOp::Pos,
        UnaryOp::Custom(_) => TacOp::Nop,
    }
}

impl Clone for BinaryOp {
    fn clone(&self) -> (res: Self)
        ensures
            res == *self,
    {
        match self {
            BinaryOp::Add => BinaryOp::Add,
            BinaryOp::Sub => BinaryOp::Sub,
            BinaryOp::Mul => BinaryOp::Mul,
            BinaryOp::Div => BinaryOp::Div,
            BinaryOp::Mod => BinaryOp::Mod,
            BinaryOp::Eq => BinaryOp::Eq,
            BinaryOp::Ne => BinaryOp::Ne,
            BinaryOp::Lt => BinaryOp::Lt,
            BinaryOp::Le => BinaryOp::Le,
            BinaryOp::Gt => BinaryOp::Gt,
            BinaryOp::Ge => BinaryOp::Ge,
            BinaryOp::And => BinaryOp::And,
            BinaryOp::Or => BinaryOp::Or,
            BinaryOp::Custom(s) => BinaryOp::Custom(s.clone()),
        }
    }
}

impl Clone for UnaryOp {
    fn clone(&self) -> (res: Self)
        ensures
            res == *self,
    {
        match self {
            UnaryOp::Neg => UnaryOp::Neg,
            UnaryOp::Not => UnaryOp::Not,
            UnaryOp::Pos => UnaryOp::Pos,
            UnaryOp::Custom(s) => UnaryOp::Custom(s.clone()),
        }
    }
}

impl BinaryOp {
    /// The quadruple operator (see `binary_tac_op`).
    pub fn to_tac(&self) -> (res: TacOp)
        ensures
            res == binary_tac_op(*self),
    {
        match self {
            BinaryOp::Add => TacOp::Add,
            BinaryOp::Sub => TacOp::Sub,
            BinaryOp::Mul => TacOp::Mul,
            BinaryOp::Div => TacOp::Div,
            BinaryOp::Mod => TacOp::Mod,
            BinaryOp::Eq => TacOp::Eq,
            BinaryOp::Ne => TacOp::Ne,
            BinaryOp::Lt => TacOp::Lt,
            BinaryOp::Le => TacOp::Le,
            BinaryOp::Gt => TacOp::Gt,
            BinaryOp::Ge => TacOp::Ge,
            BinaryOp::And => TacOp::And,
            BinaryOp::Or => TacOp::Or,
            BinaryOp::Custom(_) => TacOp::Nop,
        }
    }
}

impl UnaryOp {
    /// The quadruple operator (see `unary_tac_op`).
    pub fn to_tac(&self) -> (res: TacOp)
        ensures
            res == unary_tac_op(*self),
    {
        match self {
            UnaryOp::Neg => TacOp::Neg,
            UnaryOp::Not => TacOp::Not,
            UnaryOp::Pos => TacOp::Pos,
            UnaryOp::Custom(_) => TacOp::Nop,
        }
    }
}

/// A three-address instruction.
#[derive(Debug)]
pub enum TacInstr {
    /// `result = left op right`
    Binary { op: BinaryOp, result: Operand, left: Operand, right: Operand },
    /// `result = op operand`
    Unary { op: UnaryOp, result: Operand, operand: Operand },
    /// `target = source`
    Assign { target: Operand, source: Operand },
    /// `if condition goto label`
    CondJump { condition: Operand, label: usize },
    /// `goto label`
    Jump { label: usize },
    /// `label:`
    Label { id: usize },
    /// `result = call func(args)`
    Call { result: Option<Operand>, func: Operand, args: Vec<Operand> },
    /// `return value`
    Return { value: Option<Operand> },
    Nop,
}

/// A copy of a list of operands.
pub fn clone_operands(v: &Vec<Operand>) -> (res: Vec<Operand>)
    ensures
        res@ == v@,
{
    let mut res: Vec<Operand> = Vec::new();
    let mut i: usize = 0;
    while i < v.len()
        invariant
            i <= v.len(),
            res@ == v@.take(i as int),
        decreases v.len() - i,
    {
        res.push(v[i].clone());
        assert(v@.take(i + 1) =~= v@.take(i as int).push(v@[i as int]));
        i = i + 1;
    }
    assert(v@.take(v.len() as int) =~= v@);
    res
}

/// The same instruction: same kind and fields, the arguments of a call element by element.
pub open spec fn same_instr(a: TacInstr, b: TacInstr) -> bool {
    match (a, b) {
        (
            TacInstr::Call { result: r1, func: f1, args: a1 },
            TacInstr::Call { result: r2, func: f2, args: a2 },
        ) => r1 == r2 && f1 == f2 && a1@ == a2@,
        _ => a == b,
    }
}

/// Two instruction lists with the same instructions in the same order.
pub open spec fn same_instrs(a: Seq<TacInstr>, b: Seq<TacInstr>) -> bool {
    a.len() == b.len() && forall|i: int| 0 <= i < a.len() ==> same_instr(#[trigger] a[i], b[i])
}

impl Clone for TacInstr {
    fn clone(&self) -> (res: Self)
        ensures
            same_instr(res, *self),
    {
        match self {
            TacInstr::Binary { op, result, left, right } => TacInstr::Binary {
                op: op.clone(),
                result: result.clone(),
                left: left.clone(),
                right: right.clone(),
            },
            TacInstr::Unary { op, result, operand } => TacInstr::Unary {
                op: op.clone(),
                result: result.clone(),
                operand: operand.clone(),
            },
            TacInstr::Assign { target, source } => TacInstr::Assign { target: target.clone(), source: source.clone() },
            TacInstr::CondJump { condition, label } => TacInstr::CondJump { condition: condition.clone(), label: *label },
            TacInstr::Jump { label } => TacInstr::Jump { label: *label },
            TacInstr::Label { id } => TacInstr::Label { id: *id },
            TacInstr::Call { result, func, args } => {
                let args2 = clone_operands(args);
                TacInstr::Call { result: clone_opt(result), func: func.clone(), args: args2 }
            },
            TacInstr::Return { value } => TacInstr::Return { value: clone_opt(value) },
            TacInstr::Nop => TacInstr::Nop,
        }
    }
}

/// The name under which a temporary or named operand is known in a DAG: `t<id>`
/// for a temporary, the name itself for a named one.
pub open spec fn dag_name(o: OperandView) -> Option<Seq<char>> {
    match o {
        OperandView::Temp(t) => Some(temp_text(t)),
        OperandView::Name(n) => Some(n),
        _ => None,
    }
}

} // verus!
