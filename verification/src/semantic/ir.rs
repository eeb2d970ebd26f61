//! Intermediate-code helpers: temporaries, labels and quadruple operators.
use vstd::prelude::*;
use crate::text::{decimal, push_str, push_usize};

verus! {

/// Hands out temporaries `t0`, `t1`, ... in order.
#[derive(Debug)]
pub struct TempManager {
    next_id: usize,
}

/// The name of temporary `id`.
pub open spec fn temp_text(id: usize) -> Seq<char> {
    seq!['t'] + decimal(id as nat)
}

/// The name of label `id`.
pub open spec fn label_text(id: usize) -> Seq<char> {
    seq!['L'] + decimal(id as nat)
}

impl TempManager {
    /// The number of temporaries handed out.
    pub closed spec fn spec_count(&self) -> usize {
        self.next_id
    }

    pub fn new() -> (res: Self)
        ensures
            res.spec_count() == 0,
    {
        TempManager { next_id: 0 }
    }

    /// A fresh temporary: the number of those handed out before.
    pub fn new_temp(&mut self) -> (res: usize)
        requires
            old(self).spec_count() < usize::MAX,
        ensures
            res == old(self).spec_count(),
            final(self).spec_count() == old(self).spec_count() + 1,
    {
        let id = self.next_id;
        self.next_id = self.next_id + 1;
        id
    }

    pub fn temp_name(id: usize) -> (res: String)
        ensures
            res@ == temp_text(id),
    {
        let mut s = String::new();
        push_str(&mut s, "t");
        push_usize(&mut s, id);
        proof {
            reveal_strlit("t");
            assert(s@ =~= temp_text(id));
        }
        s
    }

    pub fn reset(&mut self)
        ensures
            final(self).spec_count() == 0,
    {
        self.next_id = 0;
    }

    pub fn count(&self) -> (res: usize)
        ensures
            res == self.spec_count(),
    {
        self.next_id
    }
}

impl Default for TempManager {
    fn default() -> (res: Self)
        ensures
            res.spec_count() == 0,
    {
        Self::new()
    }
}

/// Hands out labels `L0`, `L1`, ... in order.
#[derive(Debug)]
pub struct LabelManager {
    next_id: usize,
}

impl LabelManager {
    /// The number of labels handed out.
    pub closed spec fn spec_count(&self) -> usize {
        self.next_id
    }

    pub fn new() -> (res: Self)
        ensures
            res.spec_count() == 0,
    {
        LabelManager { next_id: 0 }
    }

    /// A fresh label: the number of those handed out before.
    pub fn new_label(&mut self) -> (res: usize)
        requires
            old(self).spec_count() < usize::MAX,
        ensures
            res == old(self).spec_count(),
            final(self).spec_count() == old(self).spec_count() + 1,
    {
        let id = self.next_id;
        self.next_id = self.next_id + 1;
        id
    }

    pub fn label_name(id: usize) -> (res: String)
        ensures
            res@ == label_text(id),
    {
        let mut s = String::new();
        push_str(&mut s, "L");
        push_usize(&mut s, id);
        proof {
            reveal_strlit("L");
            assert(s@ =~= label_text(id));
        }
        s
    }

    pub fn reset(&mut self)
        ensures
            final(self).spec_count() == 0,
    {
        self.next_id = 0;
    }

    pub fn count(&self) -> (res: usize)
        ensures
            res == self.spec_count(),
    {
        self.next_id
    }
}

impl Default for LabelManager {
    fn default() -> (res: Self)
        ensures
            res.spec_count() == 0,
    {
        Self::new()
    }
}

/// The operator of a quadruple.
#[derive(Debug, Clone, Copy, PartialEq, Eq, Structural, Hash)]
pub enum TacOp {
    Add,
    Sub,
    Mul,
    Div,
    Mod,
    Eq,
    Ne,
    Lt,
    Le,
    Gt,
    Ge,
    And,
    Or,
    Not,
    Neg,
    Pos,
    Assign,
    Jmp,
    Jz,
    Jnz,
    Call,
    Ret,
    Label,
    Index,
    Nop,
}

/// The printed form of an operator.
pub open spec fn tac_op_text(op: TacOp) -> Seq<char> {
    match op {
        TacOp::Add => "+"@,
        TacOp::Sub => "-"@,
        TacOp::Mul => "*"@,
        TacOp::Div => "/"@,
        TacOp::Mod => "%"@,
        TacOp::Eq => "=="@,
        TacOp::Ne => "!="@,
        TacOp::Lt => "<"@,
        TacOp::Le => "<="@,
        TacOp::Gt => ">"@,
        TacOp::Ge => ">="@,
        TacOp::And => "&&"@,
        TacOp::Or => "||"@,
        TacOp::Not => "!"@,
        TacOp::Neg => "neg"@,
        TacOp::Pos => "pos"@,
        TacOp::Assign => "="@,
        TacOp::Jmp => "jmp"@,
        TacOp::Jz => "jz"@,
        TacOp::Jnz => "jnz"@,
        TacOp::Call => "call"@,
        TacOp::Ret => "ret"@,
        TacOp::Label => "label"@,
        TacOp::Index => "[]"@,
        TacOp::Nop => "nop"@,
    }
}

impl TacOp {
    /// The printed form (see `tac_op_text`).
    pub fn to_string(&self) -> (res: String)
        ensures
            res@ == tac_op_text(*self),
    {
        let text: &str = match self {
            TacOp::Add => "+",
            TacOp::Sub => "-",
            TacOp::Mul => "*",
            TacOp::Div => "/",
            TacOp::Mod => "%",
            TacOp::Eq => "==",
            TacOp::Ne => "!=",
            TacOp::Lt => "<",
            TacOp::Le => "<=",
            TacOp::Gt => ">",
            TacOp::Ge => ">=",
            TacOp::And => "&&",
            TacOp::Or => "||",
            TacOp::Not => "!",
            TacOp::Neg => "neg",
            TacOp::Pos => "pos",
            TacOp::Assign => "=",
            TacOp::Jmp => "jmp",
            TacOp::Jz => "jz",
            TacOp::Jnz => "jnz",
            TacOp::Call => "call",
            TacOp::Ret => "ret",
            TacOp::Label => "label",
            TacOp::Index => "[]",
            TacOp::Nop => "nop",
        };
        let mut s = String::new();
        push_str(&mut s, text);
        s
    }
}

} // verus!
