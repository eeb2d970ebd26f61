//! The DAG of a basic block: one node per distinct computation, with the names
//! that hold its value.
use vstd::prelude::*;
use crate::semantic::basic_block::BasicBlock;
use crate::semantic::ir::{TacOp, TempManager, temp_text};
use crate::semantic::tac::{
    Operand, OperandView, TacInstr, binary_tac_op, dag_name, same_instr, unary_tac_op,
};
use crate::text::{str_eq, views};

verus! {

/// A node of the DAG: an operator over child nodes, and the names that hold its value.
#[derive(Debug)]
pub struct DagNode {
    pub id: usize,
    pub op: TacOp,
    pub children: Vec<usize>,
    pub identifiers: Vec<String>,
}

/// A node as the logic sees it.
pub struct NodeView {
    pub id: usize,
    pub op: TacOp,
    pub children: Seq<usize>,
    pub identifiers: Seq<Seq<char>>,
}

impl DagNode {
    /// A node without children or names.
    pub fn new(id: usize, op: TacOp) -> (res: Self)
        ensures
            res.id == id,
            res.op == op,
            res.children@.len() == 0,
            res.identifiers@.len() == 0,
    {
        DagNode { id, op, children: Vec::new(), identifiers: Vec::new() }
    }

    pub open spec fn spec_view(&self) -> NodeView {
        NodeView { id: self.id, op: self.op, children: self.children@, identifiers: views(self.identifiers@) }
    }
}

/// The nodes as the logic sees them.
pub open spec fn node_views(nodes: Seq<DagNode>) -> Seq<NodeView> {
    Seq::new(nodes.len(), |i: int| nodes[i].spec_view())
}

/// The DAG while it is built: its nodes, and the node each name currently stands for.
pub struct DagState {
    pub nodes: Seq<NodeView>,
    pub names: Map<Seq<char>, usize>,
}

/// The first node with the operator and children, if any.
pub open spec fn find_node(nodes: Seq<NodeView>, op: TacOp, children: Seq<usize>, n: int) -> Option<usize>
    decreases n,
{
    if n <= 0 {
        None
    } else {
        match find_node(nodes, op, children, n - 1) {
            Some(k) => Some(k),
            None => if nodes[n - 1].op == op && nodes[n - 1].children == children {
                Some(nodes[n - 1].id)
            } else {
                None
            },
        }
    }
}

/// Adds a node with the operator and children; its id is its position.
pub open spec fn add_node(st: DagState, op: TacOp, children: Seq<usize>) -> DagState {
    DagState {
        nodes: st.nodes.push(
            NodeView { id: st.nodes.len() as usize, op, children, identifiers: Seq::empty() },
        ),
        names: st.names,
    }
}

/// The node for an operand: the node its name stands for (`None` when it stands
/// for none), a new leaf for a constant, `None` for a label.
pub open spec fn resolve(st: DagState, o: OperandView) -> (DagState, Option<usize>) {
    match dag_name(o) {
        Some(n) => (st, if st.names.contains_key(n) {
            Some(st.names[n])
        } else {
            None
        }),
        None => if o is Label {
            (st, None)
        } else {
            (add_node(st, TacOp::Nop, Seq::empty()), Some(st.nodes.len() as usize))
        },
    }
}

/// Attaches the name of a temporary or named operand to a node.
pub open spec fn attach(st: DagState, node: usize, o: OperandView) -> DagState {
    match dag_name(o) {
        Some(n) => DagState {
            nodes: st.nodes.update(
                node as int,
                NodeView { identifiers: st.nodes[node as int].identifiers.push(n), ..st.nodes[node as int] },
            ),
            names: st.names.insert(n, node),
        },
        None => st,
    }
}

/// The node computing `op` over `children`: an existing one, or a new one.
pub open spec fn node_for(st: DagState, op: TacOp, children: Seq<usize>) -> (DagState, usize) {
    match find_node(st.nodes, op, children, st.nodes.len() as int) {
        Some(k) => (st, k),
        None => (add_node(st, op, children), st.nodes.len() as usize),
    }
}

/// The DAG after one more instruction: a binary or unary operation gets the node
/// of its operator over its operands' nodes (when they all have one) and names it
/// by its result; a copy names the source's node by its target; anything else
/// changes nothing.
pub open spec fn dag_step(st: DagState, ins: TacInstr) -> DagState {
    match ins {
        TacInstr::Binary { op, result, left, right } => {
            let (s1, l) = resolve(st, left@);
            let (s2, r) = resolve(s1, right@);
            match (l, r) {
                (Some(a), Some(b)) => {
                    let (s3, k) = node_for(s2, binary_tac_op(op), seq![a, b]);
                    attach(s3, k, result@)
                },
                _ => s2,
            }
        },
        TacInstr::Assign { target, source } => {
            let (s1, x) = resolve(st, source@);
            match x {
                Some(a) => attach(s1, a, target@),
                None => s1,
            }
        },
        TacInstr::Unary { op, result, operand } => {
            let (s1, x) = resolve(st, operand@);
            match x {
                Some(a) => {
                    let (s2, k) = node_for(s1, unary_tac_op(op), seq![a]);
                    attach(s2, k, result@)
                },
                None => s1,
            }
        },
        _ => st,
    }
}

/// The DAG of a list of instructions.
pub open spec fn dag_run(instrs: Seq<TacInstr>) -> DagState
    decreases instrs.len(),
{
    if instrs.len() == 0 {
        DagState { nodes: Seq::empty(), names: Map::empty() }
    } else {
        dag_step(dag_run(instrs.drop_last()), instrs.last())
    }
}

/// Every node's id is its position, its children come before it, and every name
/// stands for an existing node.
pub open spec fn dag_wf(st: DagState) -> bool {
    &&& forall|i: int| 0 <= i < st.nodes.len() ==> (#[trigger] st.nodes[i]).id == i
    &&& forall|i: int, c: int|
        0 <= i < st.nodes.len() && 0 <= c < st.nodes[i].children.len() ==> #[trigger] st.nodes[i].children[c] < i
    &&& forall|n: Seq<char>| #[trigger] st.names.contains_key(n) ==> st.names[n] < st.nodes.len()
}

proof fn lemma_find_node(nodes: Seq<NodeView>, op: TacOp, children: Seq<usize>, n: int)
    requires
        0 <= n <= nodes.len(),
        forall|i: int| 0 <= i < nodes.len() ==> (#[trigger] nodes[i]).id == i,
    ensures
        find_node(nodes, op, children, n) matches Some(k) ==> k < n && nodes[k as int].op == op
            && nodes[k as int].children == children,
        find_node(nodes, op, children, n) is None ==> forall|i: int|
            0 <= i < n ==> !(#[trigger] nodes[i].op == op && nodes[i].children == children),
    decreases n,
{
    if n > 0 {
        lemma_find_node(nodes, op, children, n - 1);
    }
}

/// The DAG of a basic block.
#[derive(Debug)]
pub struct Dag {
    nodes: Vec<DagNode>,
}

impl Dag {
    /// The nodes, by id.
    pub closed spec fn spec_nodes(&self) -> Seq<DagNode> {
        self.nodes@
    }

    pub fn new() -> (res: Self)
        ensures
            res.spec_nodes().len() == 0,
    {
        Dag { nodes: Vec::new() }
    }

    pub fn nodes(&self) -> (res: &[DagNode])
        ensures
            res@ == self.spec_nodes(),
    {
        self.nodes.as_slice()
    }

    pub fn node_count(&self) -> (res: usize)
        ensures
            res == self.spec_nodes().len(),
    {
        self.nodes.len()
    }

    /// Builds the DAG of the block's instructions (see `dag_run`).
    pub fn build_from_block(block: &BasicBlock) -> (res: Self)
        ensures
            node_views(res.spec_nodes()) == dag_run(block.instructions@).nodes,
    {
        let mut b = DagBuilder { nodes: Vec::new(), names: Vec::new() };
        let ins = &block.instructions;
        let mut i: usize = 0;
        proof {
            assert(ins@.take(0) =~= Seq::<TacInstr>::empty());
            assert(b.state().nodes =~= dag_run(ins@.take(0)).nodes);
            assert(b.state().names =~= dag_run(ins@.take(0)).names);
        }
        while i < ins.len()
            invariant
                i <= ins@.len(),
                b.inv(),
                b.state() == dag_run(ins@.take(i as int)),
                dag_wf(b.state()),
            decreases ins@.len() - i,
        {
            proof {
                assert(ins@.take(i + 1).drop_last() =~= ins@.take(i as int));
                assert(ins@.take(i + 1).last() == ins@[i as int]);
            }
            b.process(&ins[i]);
            i = i + 1;
        }
        assert(ins@.take(ins@.len() as int) =~= ins@);
        Dag { nodes: b.nodes }
    }
}

impl Default for Dag {
    fn default() -> (res: Self)
        ensures
            res.spec_nodes().len() == 0,
    {
        Self::new()
    }
}

/// The DAG under construction, with the node each name stands for (each name listed once).
struct DagBuilder {
    nodes: Vec<DagNode>,
    names: Vec<(String, usize)>,
}

impl DagBuilder {
    spec fn name_map(&self) -> Map<Seq<char>, usize> {
        Map::new(
            |n: Seq<char>| exists|k: int| 0 <= k < self.names@.len() && self.names@[k].0@ == n,
            |n: Seq<char>| self.names@[choose|k: int| 0 <= k < self.names@.len() && self.names@[k].0@ == n].1,
        )
    }

    spec fn state(&self) -> DagState {
        DagState { nodes: node_views(self.nodes@), names: self.name_map() }
    }

    spec fn inv(&self) -> bool {
        forall|a: int, b: int| 0 <= a < b < self.names@.len() ==> #[trigger] self.names@[a].0@ != #[trigger] self.names@[b].0@
    }

    proof fn lemma_lookup(&self, k: int)
        requires
            self.inv(),
            0 <= k < self.names@.len(),
        ensures
            self.name_map().contains_key(self.names@[k].0@),
            self.name_map()[self.names@[k].0@] == self.names@[k].1,
    {
        let n = self.names@[k].0@;
        assert(self.name_map().contains_key(n));
        let c = choose|c: int| 0 <= c < self.names@.len() && self.names@[c].0@ == n;
        assert(c == k);
    }

    /// The node a name stands for.
    fn lookup(&self, name: &str) -> (res: Option<usize>)
        requires
            self.inv(),
        ensures
            res == (if self.name_map().contains_key(name@) {
                Some(self.name_map()[name@])
            } else {
                None::<usize>
            }),
    {
        let mut k: usize = 0;
        while k < self.names.len()
            invariant
                k <= self.names@.len(),
                self.inv(),
                forall|m: int| 0 <= m < k ==> self.names@[m].0@ != name@,
            decreases self.names@.len() - k,
        {
            if str_eq(self.names[k].0.as_str(), name) {
                proof {
                    self.lemma_lookup(k as int);
                }
                return Some(self.names[k].1);
            }
            k = k + 1;
        }
        None
    }

    /// The name of a temporary or named operand.
    fn name_of(o: &Operand) -> (res: Option<String>)
        ensures
            match res {
                Some(s) => dag_name(o@) == Some(s@),
                None => dag_name(o@) is None,
            },
    {
        match o {
            Operand::Temp(t) => Some(TempManager::temp_name(*t)),
            Operand::Name(n) => Some(n.clone()),
            _ => None,
        }
    }

    fn add_node(&mut self, op: TacOp, children: Vec<usize>) -> (res: usize)
        requires
            dag_wf(old(self).state()),
            forall|c: int| 0 <= c < children@.len() ==> children@[c] < old(self).nodes@.len(),
        ensures
            res == old(self).nodes@.len(),
            final(self).state() == add_node(old(self).state(), op, children@),
            final(self).names@ == old(self).names@,
            final(self).nodes@.len() == old(self).nodes@.len() + 1,
            dag_wf(final(self).state()),
    {
        let id = self.nodes.len();
        let ghost ch = children@;
        let mut node = DagNode::new(id, op);
        node.children = children;
        assert(views(node.identifiers@) =~= Seq::<Seq<char>>::empty());
        self.nodes.push(node);
        proof {
            assert(node_views(self.nodes@) =~= node_views(old(self).nodes@).push(
                NodeView { id: id, op, children: ch, identifiers: Seq::empty() },
            ));
            let st = self.state();
            let st0 = old(self).state();
            assert(st.names == st0.names);
            assert forall|i: int| 0 <= i < st.nodes.len() implies (#[trigger] st.nodes[i]).id == i by {
                if i < st0.nodes.len() {
                    assert(st.nodes[i] == st0.nodes[i]);
                }
            }
            assert forall|i: int, c: int|
                0 <= i < st.nodes.len() && 0 <= c < st.nodes[i].children.len() implies #[trigger] st.nodes[i].children[c]
                < i by {
                if i < st0.nodes.len() {
                    assert(st.nodes[i] == st0.nodes[i]);
                }
            }
        }
        id
    }

    fn resolve(&mut self, o: &Operand) -> (res: Option<usize>)
        requires
            old(self).inv(),
            dag_wf(old(self).state()),
        ensures
            (final(self).state(), res) == resolve(old(self).state(), o@),
            final(self).inv(),
            dag_wf(final(self).state()),
            final(self).nodes@.len() >= old(self).nodes@.len(),
            res matches Some(x) ==> x < final(self).nodes@.len(),
    {
        match Self::name_of(o) {
            Some(n) => self.lookup(n.as_str()),
            None => match o {
                Operand::Label(_) => None,
                _ => Some(self.add_node(TacOp::Nop, Vec::new())),
            },
        }
    }

    fn attach(&mut self, node: usize, o: &Operand)
        requires
            old(self).inv(),
            dag_wf(old(self).state()),
            node < old(self).nodes@.len(),
        ensures
            final(self).state() == attach(old(self).state(), node, o@),
            final(self).inv(),
            dag_wf(final(self).state()),
            final(self).nodes@.len() == old(self).nodes@.len(),
    {
        match Self::name_of(o) {
            Some(n) => {
                let ghost old_nodes = self.nodes@;
                let mut nodes: Vec<DagNode> = Vec::new();
                std::mem::swap(&mut nodes, &mut self.nodes);
                let mut target = DagNode::new(0, TacOp::Nop);
                std::mem::swap(&mut target, &mut nodes[node]);
                target.identifiers.push(n.clone());
                let ghost updated = target;
                std::mem::swap(&mut target, &mut nodes[node]);
                self.nodes = nodes;
                proof {
                    assert(views(updated.identifiers@) =~= views(old_nodes[node as int].identifiers@).push(n@));
                    assert(node_views(self.nodes@) =~= node_views(old_nodes).update(
                        node as int,
                        NodeView {
                            identifiers: node_views(old_nodes)[node as int].identifiers.push(n@),
                            ..node_views(old_nodes)[node as int]
                        },
                    ));
                }
                // The name now stands for `node`.
                let ghost old_names = self.names@;
                let mut k: usize = 0;
                let mut found = false;
                while k < self.names.len()
                    invariant_except_break
                        !found,
                    invariant
                        k <= self.names@.len(),
                        self.names@ == old_names,
                        forall|m: int| 0 <= m < k ==> self.names@[m].0@ != n@,
                    ensures
                        found ==> k < self.names@.len() && self.names@[k as int].0@ == n@,
                        !found ==> forall|m: int| 0 <= m < self.names@.len() ==> self.names@[m].0@ != n@,
                        self.names@ == old_names,
                    decreases self.names@.len() - k,
                {
                    if str_eq(self.names[k].0.as_str(), n.as_str()) {
                        found = true;
                        break;
                    }
                    k = k + 1;
                }
                if found {
                    let key = self.names[k].0.clone();
                    self.names.set(k, (key, node));
                } else {
                    self.names.push((n, node));
                }
                proof {
                    let m2 = old(self).state().names.insert(n@, node);
                    assert forall|a: int, b: int| 0 <= a < b < self.names@.len() implies #[trigger] self.names@[a].0@
                        != #[trigger] self.names@[b].0@ by {
                        if found {
                            assert(self.names@[a].0@ == old_names[a].0@);
                            assert(self.names@[b].0@ == old_names[b].0@);
                        } else if b < old_names.len() {
                            assert(self.names@[a] == old_names[a]);
                            assert(self.names@[b] == old_names[b]);
                        } else {
                            assert(self.names@[a] == old_names[a]);
                        }
                    }
                    assert forall|x: Seq<char>| #[trigger] self.name_map().contains_key(x) == m2.contains_key(x) by {
                        if m2.contains_key(x) {
                            if x == n@ {
                                if found {
                                    assert(self.names@[k as int].0@ == x);
                                } else {
                                    assert(self.names@[old_names.len() as int].0@ == x);
                                }
                            } else {
                                let c = choose|c: int| 0 <= c < old_names.len() && old_names[c].0@ == x;
                                assert(self.names@[c].0@ == old_names[c].0@);
                            }
                        }
                        if self.name_map().contains_key(x) {
                            let c = choose|c: int| 0 <= c < self.names@.len() && self.names@[c].0@ == x;
                            if x != n@ {
                                if found || c < old_names.len() {
                                    assert(old_names[c].0@ == x);
                                }
                            }
                        }
                    }
                    assert forall|x: Seq<char>| #[trigger] self.name_map().contains_key(x) implies self.name_map()[x]
                        == m2[x] by {
                        let c = choose|c: int| 0 <= c < self.names@.len() && self.names@[c].0@ == x;
                        self.lemma_lookup(c);
                        if x == n@ {
                        } else {
                            assert(old_names[c].0@ == x);
                            old(self).lemma_lookup(c);
                        }
                    }
                    assert(self.name_map() =~= m2);
                }
            },
            None => {},
        }
    }

    fn node_for(&mut self, op: TacOp, children: Vec<usize>) -> (res: usize)
        requires
            old(self).inv(),
            dag_wf(old(self).state()),
            forall|c: int| 0 <= c < children@.len() ==> children@[c] < old(self).nodes@.len(),
        ensures
            (final(self).state(), res) == node_for(old(self).state(), op, children@),
            final(self).inv(),
            dag_wf(final(self).state()),
            res < final(self).nodes@.len(),
    {
        let ghost st = self.state();
        proof {
            lemma_find_node(st.nodes, op, children@, st.nodes.len() as int);
        }
        let mut k: usize = 0;
        while k < self.nodes.len()
            invariant
                k <= self.nodes@.len(),
                self.nodes@ == old(self).nodes@,
                self.names@ == old(self).names@,
                old(self).inv(),
                st == self.state(),
                dag_wf(st),
                find_node(st.nodes, op, children@, st.nodes.len() as int) is None ==> forall|i: int|
                    0 <= i < st.nodes.len() ==> !(#[trigger] st.nodes[i].op == op && st.nodes[i].children == children@),
                find_node(st.nodes, op, children@, k as int) is None,
            decreases self.nodes@.len() - k,
        {
            let node = &self.nodes[k];
            let mut same = node.op == op && node.children.len() == children.len();
            if same {
                let mut c: usize = 0;
                while c < children.len()
                    invariant
                        c <= children@.len(),
                        node.children@.len() == children@.len(),
                        same ==> forall|d: int| 0 <= d < c ==> node.children@[d] == children@[d],
                        !same ==> exists|d: int| 0 <= d < c && node.children@[d] != children@[d],
                    decreases children@.len() - c,
                {
                    if node.children[c] != children[c] {
                        same = false;
                    }
                    c = c + 1;
                }
                if same {
                    assert(node.children@ =~= children@);
                } else {
                    assert(node.children@ != children@);
                }
            }
            proof {
                assert(st.nodes[k as int] == node.spec_view());
            }
            if same {
                assert(find_node(st.nodes, op, children@, k + 1) == Some(node.id));
                proof {
                    lemma_find_node_from(st.nodes, op, children@, (k + 1) as int, st.nodes.len() as int);
                }
                return node.id;
            }
            k = k + 1;
        }
        self.add_node(op, children)
    }

    fn process(&mut self, ins: &TacInstr)
        requires
            old(self).inv(),
            dag_wf(old(self).state()),
        ensures
            final(self).state() == dag_step(old(self).state(), *ins),
            final(self).inv(),
            dag_wf(final(self).state()),
    {
        match ins {
            TacInstr::Binary { op, result, left, right } => {
                let l = self.resolve(left);
                let r = self.resolve(right);
                match (l, r) {
                    (Some(a), Some(b)) => {
                        let mut children: Vec<usize> = Vec::new();
                        children.push(a);
                        children.push(b);
                        assert(children@ =~= seq![a, b]);
                        let k = self.node_for(op.to_tac(), children);
                        self.attach(k, result);
                    },
                    _ => {},
                }
            },
            TacInstr::Assign { target, source } => {
                let x = self.resolve(source);
                match x {
                    Some(a) => self.attach(a, target),
                    None => {},
                }
            },
            TacInstr::Unary { op, result, operand } => {
                let x = self.resolve(operand);
                match x {
                    Some(a) => {
                        let mut children: Vec<usize> = Vec::new();
                        children.push(a);
                        assert(children@ =~= seq![a]);
                        let k = self.node_for(op.to_tac(), children);
                        self.attach(k, result);
                    },
                    None => {},
                }
            },
            _ => {},
        }
    }
}

/// Once a node is found, searching further finds the same one.
proof fn lemma_find_node_from(nodes: Seq<NodeView>, op: TacOp, children: Seq<usize>, k: int, n: int)
    requires
        0 <= k <= n,
        find_node(nodes, op, children, k) is Some,
    ensures
        find_node(nodes, op, children, n) == find_node(nodes, op, children, k),
    decreases n - k,
{
    if n > k {
        lemma_find_node_from(nodes, op, children, k, n - 1);
    }
}

} // verus!
