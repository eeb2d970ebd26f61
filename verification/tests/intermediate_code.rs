use starry::semantic::basic_block::BasicBlock;
use starry::semantic::dag::Dag;
use starry::semantic::ir::TacOp;
use starry::semantic::quadruple::{cse_and_to_triples, cse_quadruples, quadruples_to_triples, Quadruple, TripleRef};
use starry::semantic::tac::{BinaryOp, Operand, TacInstr, UnaryOp};

fn konst(v: i64) -> Option<Operand> {
    Some(Operand::IntConst(v))
}

fn temp(t: usize) -> Option<Operand> {
    Some(Operand::Temp(t))
}

fn is_temp(o: &Option<Operand>, t: usize) -> bool {
    matches!(o, Some(Operand::Temp(x)) if *x == t)
}

#[test]
fn cse_drops_repeated_computations_and_renames_their_results() {
    // t0 = 1 + 2; t1 = 1 + 2; t2 = t1 * 3
    let quads = vec![
        Quadruple::new(TacOp::Add, konst(1), konst(2), temp(0)),
        Quadruple::new(TacOp::Add, konst(1), konst(2), temp(1)),
        Quadruple::new(TacOp::Mul, temp(1), konst(3), temp(2)),
    ];
    let out = cse_quadruples(&quads);
    assert_eq!(out.len(), 2);
    assert_eq!(out[0].op, TacOp::Add);
    assert!(is_temp(&out[0].result, 0));
    assert_eq!(out[1].op, TacOp::Mul);
    assert!(is_temp(&out[1].arg1, 0));
    assert!(is_temp(&out[1].result, 2));
}

#[test]
fn cse_tells_float_constants_apart_by_bits() {
    let a = Some(Operand::FloatConst(1.5f64.to_bits()));
    let b = Some(Operand::FloatConst((-0.0f64).to_bits()));
    let c = Some(Operand::FloatConst(0.0f64.to_bits()));
    let quads = vec![
        Quadruple::new(TacOp::Add, a.clone(), b, temp(0)),
        Quadruple::new(TacOp::Add, a, c, temp(1)),
    ];
    assert_eq!(cse_quadruples(&quads).len(), 2);
}

#[test]
fn triples_refer_to_the_defining_position() {
    let quads = vec![
        Quadruple::new(TacOp::Add, Some(Operand::Name("a".to_string())), konst(2), temp(0)),
        Quadruple::new(TacOp::Mul, temp(0), temp(9), temp(1)),
    ];
    let triples = quadruples_to_triples(&quads);
    assert_eq!(triples.len(), 2);
    assert!(matches!(triples[1].arg1, Some(TripleRef::Index(0))));
    assert!(matches!(triples[1].arg2, Some(TripleRef::Operand(Operand::Temp(9)))));
    assert!(matches!(&triples[0].arg1, Some(TripleRef::Operand(Operand::Name(n))) if n == "a"));
    let optimised = cse_and_to_triples(&[
        Quadruple::new(TacOp::Sub, konst(4), konst(1), temp(0)),
        Quadruple::new(TacOp::Sub, konst(4), konst(1), temp(1)),
        Quadruple::new(TacOp::Neg, temp(1), None, temp(2)),
    ]);
    assert_eq!(optimised.len(), 2);
    assert!(matches!(optimised[1].arg1, Some(TripleRef::Index(0))));
}

#[test]
fn split_starts_blocks_at_leaders() {
    let instrs = vec![
        TacInstr::Assign { target: Operand::Name("x".to_string()), source: Operand::IntConst(0) },
        TacInstr::Label { id: 1 },
        TacInstr::CondJump { condition: Operand::Name("x".to_string()), label: 2 },
        TacInstr::Jump { label: 1 },
        TacInstr::Label { id: 2 },
        TacInstr::Return { value: None },
    ];
    let blocks = BasicBlock::split(&instrs);
    let sizes: Vec<usize> = blocks.iter().map(|b| b.len()).collect();
    assert_eq!(sizes, vec![1, 2, 1, 2]);
    let labels: Vec<Option<usize>> = blocks.iter().map(|b| b.label).collect();
    assert_eq!(labels, vec![None, Some(1), None, Some(2)]);
    assert!(BasicBlock::split(&[]).is_empty());
    assert!(BasicBlock::new(Some(3)).is_empty());
}

#[test]
fn dag_shares_common_subexpressions() {
    // a = b + c; d = b + c; e = -a
    let name = |s: &str| Operand::Name(s.to_string());
    let mut block = BasicBlock::new(None);
    block.instructions.push(TacInstr::Assign { target: name("b"), source: Operand::IntConst(1) });
    block.instructions.push(TacInstr::Assign { target: name("c"), source: Operand::IntConst(2) });
    block.instructions.push(TacInstr::Binary { op: BinaryOp::Add, result: name("a"), left: name("b"), right: name("c") });
    block.instructions.push(TacInstr::Binary { op: BinaryOp::Add, result: name("d"), left: name("b"), right: name("c") });
    block.instructions.push(TacInstr::Unary { op: UnaryOp::Neg, result: Operand::Temp(4), operand: name("a") });
    let dag = Dag::build_from_block(&block);
    assert_eq!(dag.node_count(), 4);
    let nodes = dag.nodes();
    assert_eq!(nodes[2].op, TacOp::Add);
    assert_eq!(nodes[2].children, vec![0, 1]);
    assert_eq!(nodes[2].identifiers, vec!["a".to_string(), "d".to_string()]);
    assert_eq!(nodes[3].op, TacOp::Neg);
    assert_eq!(nodes[3].identifiers, vec!["t4".to_string()]);
    assert_eq!(nodes[0].identifiers, vec!["b".to_string()]);
}

#[test]
fn quadruples_of_instructions() {
    let q = Quadruple::from_instr(TacInstr::Assign { target: Operand::Temp(1), source: Operand::IntConst(5) }, None);
    assert_eq!(q.op, TacOp::Assign);
    assert!(matches!(q.arg1, Some(Operand::IntConst(5))));
    assert!(is_temp(&q.result, 1));
    let j = Quadruple::from_instr(TacInstr::CondJump { condition: Operand::Temp(0), label: 7 }, None);
    assert_eq!(j.op, TacOp::Jnz);
    assert!(matches!(j.arg2, Some(Operand::Label(7))));
    assert!(j.result.is_none());
    let call = TacInstr::Call {
        result: Some(Operand::Temp(3)),
        func: Operand::Name("f".to_string()),
        args: vec![Operand::IntConst(1)],
    };
    let c = Quadruple::from_instr(call, Some(Operand::Name("(1)".to_string())));
    assert_eq!(c.op, TacOp::Call);
    assert!(matches!(&c.arg2, Some(Operand::Name(n)) if n == "(1)"));
    let b = Quadruple::from_instr(
        TacInstr::Binary { op: BinaryOp::Custom("^".to_string()), result: Operand::Temp(0), left: Operand::Temp(1), right: Operand::Temp(2) },
        None,
    );
    assert_eq!(b.op, TacOp::Nop);
}
