//! Dependency ordering of named definitions.
//!
//! Each dependency `from -> to` says that `from` depends on `to`. A topological
//! order lists every name before the names it depends on; when there is none, a
//! cycle is reported.
use vstd::prelude::*;
use crate::text::{str_eq, views};
use crate::counting::{falses, lemma_falses_update};

verus! {

/// The number of times `x` occurs in `s`.
pub open spec fn occurrences(s: Seq<usize>, x: usize) -> nat
    decreases s.len(),
{
    if s.len() == 0 {
        0
    } else {
        occurrences(s.drop_last(), x) + if s.last() == x {
            1nat
        } else {
            0nat
        }
    }
}

/// The number of dependencies on node `j` from the first `n` nodes not yet done.
pub open spec fn pending_in(adj: Seq<Seq<usize>>, done: Seq<bool>, j: usize, n: nat) -> nat
    decreases n,
{
    if n == 0 || n > adj.len() {
        0
    } else {
        pending_in(adj, done, j, (n - 1) as nat) + if !done[n - 1] {
            occurrences(adj[n - 1], j)
        } else {
            0nat
        }
    }
}

/// The names the first `n` entries mention: each entry's name and its dependencies.
pub open spec fn mentioned(deps: Seq<(String, Vec<String>)>, n: int) -> Set<Seq<char>>
    decreases n,
{
    if n <= 0 {
        Set::empty()
    } else {
        mentioned(deps, n - 1).insert(deps[n - 1].0@).union(views(deps[n - 1].1@).to_set())
    }
}

/// The dependencies the first `n` entries list for `x`, in order.
pub open spec fn listed(deps: Seq<(String, Vec<String>)>, x: Seq<char>, n: int) -> Seq<Seq<char>>
    decreases n,
{
    if n <= 0 {
        Seq::empty()
    } else {
        listed(deps, x, n - 1) + if deps[n - 1].0@ == x {
            views(deps[n - 1].1@)
        } else {
            Seq::empty()
        }
    }
}

/// The names of the nodes that node `p` depends on, in order.
pub open spec fn dep_names(names: Seq<Seq<char>>, adj: Seq<Seq<usize>>, p: int) -> Seq<Seq<char>> {
    adj[p].map_values(|j: usize| names[j as int])
}

/// Nothing is listed for a name that was never mentioned.
proof fn lemma_listed_unmentioned(deps: Seq<(String, Vec<String>)>, x: Seq<char>, n: int)
    requires
        !mentioned(deps, n).contains(x),
    ensures
        listed(deps, x, n) == Seq::<Seq<char>>::empty(),
    decreases n,
{
    if n > 0 {
        lemma_listed_unmentioned(deps, x, n - 1);
        assert(listed(deps, x, n) =~= Seq::<Seq<char>>::empty());
    }
}

/// Adding names at the end does not change what the existing nodes depend on.
proof fn lemma_dep_names_stable(names: Seq<Seq<char>>, names2: Seq<Seq<char>>, adj: Seq<Seq<usize>>, p: int)
    requires
        0 <= p < adj.len(),
        names.len() <= names2.len(),
        forall|j: int| 0 <= j < names.len() ==> names2[j] == #[trigger] names[j],
        forall|k: int| 0 <= k < adj[p].len() ==> #[trigger] adj[p][k] < names.len(),
    ensures
        dep_names(names2, adj, p) == dep_names(names, adj, p),
{
    assert(dep_names(names2, adj, p) =~= dep_names(names, adj, p));
}

/// A dependency graph over named nodes.
#[derive(Debug)]
pub struct DependencyGraph {
    nodes: Vec<String>,
    adj: Vec<Vec<usize>>,
}

/// `o` lists every node once, each before the nodes it depends on.
pub open spec fn is_order(names: Seq<Seq<char>>, adj: Seq<Seq<usize>>, o: Seq<Seq<char>>) -> bool {
    &&& o.len() == names.len()
    &&& o.no_duplicates()
    &&& forall|i: int| 0 <= i < names.len() ==> #[trigger] o.contains(names[i])
    &&& forall|i: int, k: int|
        0 <= i < adj.len() && 0 <= k < adj[i].len() ==> comes_before(o, names[i], names[#[trigger] adj[i][k] as int])
}

/// `x` occurs in `o` before `y`.
pub open spec fn comes_before(o: Seq<Seq<char>>, x: Seq<char>, y: Seq<char>) -> bool {
    exists|p: int, q: int| 0 <= p < q < o.len() && #[trigger] o[p] == x && #[trigger] o[q] == y
}

/// Some node named `x` depends on a node named `y`.
pub open spec fn depends_on(names: Seq<Seq<char>>, adj: Seq<Seq<usize>>, x: Seq<char>, y: Seq<char>) -> bool {
    exists|i: int, j: int|
        0 <= i < adj.len() && 0 <= j < names.len() && #[trigger] adj[i].contains(j as usize) && names[i] == x
            && #[trigger] names[j] == y
}

/// `c` is a cycle of dependencies: each name depends on the next, and it ends
/// where it starts.
pub open spec fn is_cycle(names: Seq<Seq<char>>, adj: Seq<Seq<usize>>, c: Seq<Seq<char>>) -> bool {
    &&& c.len() >= 2
    &&& c[0] == c.last()
    &&& forall|k: int| 0 <= k < c.len() - 1 ==> #[trigger] depends_on(names, adj, c[k], c[k + 1])
}

impl DependencyGraph {
    #[verifier::type_invariant]
    spec fn wf(&self) -> bool {
        &&& self.adj@.len() == self.nodes@.len()
        &&& self.names().no_duplicates()
        &&& forall|i: int, k: int|
            0 <= i < self.adj@.len() && 0 <= k < self.adj@[i]@.len() ==> #[trigger] self.adj@[i]@[k] < self.nodes@.len()
    }

    /// The names of the nodes, in order of first mention.
    pub closed spec fn names(&self) -> Seq<Seq<char>> {
        self.nodes@.map_values(|s: String| s@)
    }

    /// For each node, the positions of the nodes it depends on, in order of addition.
    pub closed spec fn deps(&self) -> Seq<Seq<usize>> {
        self.adj@.map_values(|v: Vec<usize>| v@)
    }

    /// No nodes.
    pub fn new() -> (res: Self)
        ensures
            res.names().len() == 0,
            res.deps().len() == 0,
    {
        let res = DependencyGraph { nodes: Vec::new(), adj: Vec::new() };
        assert(res.names() =~= Seq::<Seq<char>>::empty());
        res
    }

    /// The position of node `name`, adding it when it is new.
    fn node_index(&mut self, name: &str) -> (res: usize)
        ensures
            res < final(self).names().len(),
            final(self).names()[res as int] == name@,
            old(self).names().contains(name@) ==> final(self).names() == old(self).names() && final(self).deps()
                == old(self).deps(),
            !old(self).names().contains(name@) ==> final(self).names() == old(self).names().push(name@)
                && final(self).deps() == old(self).deps().push(Seq::empty()),
    {
        proof {
            use_type_invariant(&*self);
        }
        let mut i: usize = 0;
        while i < self.nodes.len()
            invariant
                i <= self.nodes@.len(),
                forall|k: int| 0 <= k < i ==> #[trigger] self.nodes@[k]@ != name@,
            decreases self.nodes@.len() - i,
        {
            if str_eq(self.nodes[i].as_str(), name) {
                assert(self.names()[i as int] == name@);
                return i;
            }
            i = i + 1;
        }
        assert(!self.names().contains(name@)) by {
            if self.names().contains(name@) {
                let k = choose|k: int| 0 <= k < self.names().len() && self.names()[k] == name@;
                assert(self.nodes@[k]@ == name@);
            }
        }
        let mut g = DependencyGraph { nodes: Vec::new(), adj: Vec::new() };
        std::mem::swap(&mut g, self);
        let DependencyGraph { mut nodes, mut adj } = g;
        let ghost old_names = nodes@.map_values(|s: String| s@);
        let ghost old_deps = adj@.map_values(|v: Vec<usize>| v@);
        let n = nodes.len();
        let mut owned = String::new();
        crate::text::push_str(&mut owned, name);
        nodes.push(owned);
        adj.push(Vec::new());
        assert(nodes@.map_values(|s: String| s@) =~= old_names.push(name@));
        assert(adj@.map_values(|v: Vec<usize>| v@) =~= old_deps.push(Seq::empty()));
        proof {
            let nv = nodes@.map_values(|s: String| s@);
            assert forall|a: int, b: int| 0 <= a < b < nv.len() implies nv[a] != nv[b] by {
                if b == n {
                    assert(nv[a] == old_names[a]);
                } else {
                    assert(nv[a] == old_names[a] && nv[b] == old_names[b]);
                }
            }
            assert forall|x: int, k: int|
                0 <= x < adj@.len() && 0 <= k < adj@[x]@.len() implies #[trigger] adj@[x]@[k] < nodes@.len() by {
                if x < n {
                    assert(adj@[x]@[k] < n);
                }
            }
        }
        *self = DependencyGraph { nodes, adj };
        n
    }

    /// Adds the dependency `from -> to`, adding the two nodes if they are new.
    pub fn add_dependency(&mut self, from: &str, to: &str)
        ensures
            ({
                let n1 = if old(self).names().contains(from@) {
                    old(self).names()
                } else {
                    old(self).names().push(from@)
                };
                final(self).names() == if n1.contains(to@) {
                    n1
                } else {
                    n1.push(to@)
                }
            }),
            final(self).deps().len() == final(self).names().len(),
            ({
                let f = final(self).names().index_of(from@);
                let t = final(self).names().index_of(to@);
                &&& final(self).names().contains(from@)
                &&& final(self).names().contains(to@)
                &&& final(self).deps()[f] == old_or_empty(old(self).deps(), f).push(t as usize)
                &&& forall|i: int| 0 <= i < final(self).deps().len() && i != f ==> #[trigger] final(self).deps()[i]
                    == old_or_empty(old(self).deps(), i)
            }),
    {
        let f = self.node_index(from);
        let ghost mid_names = self.names();
        let ghost mid_deps = self.deps();
        let t = self.node_index(to);
        proof {
            use_type_invariant(&*self);
        }
        let mut g = DependencyGraph { nodes: Vec::new(), adj: Vec::new() };
        std::mem::swap(&mut g, self);
        let DependencyGraph { nodes, mut adj } = g;
        let ghost before = adj@.map_values(|v: Vec<usize>| v@);
        let mut row: Vec<usize> = Vec::new();
        std::mem::swap(&mut row, &mut adj[f]);
        row.push(t);
        adj.set(f, row);
        proof {
            let names = nodes@.map_values(|s: String| s@);
            let after = adj@.map_values(|v: Vec<usize>| v@);
            assert(after =~= before.update(f as int, before[f as int].push(t)));
            lemma_index_of_unique(names, f as int);
            lemma_index_of_unique(names, t as int);
            assert forall|x: int, k: int|
                0 <= x < adj@.len() && 0 <= k < adj@[x]@.len() implies #[trigger] adj@[x]@[k] < nodes@.len() by {
                if x == f {
                    if k < before[x].len() {
                        assert(adj@[x]@[k] == before[x][k]);
                    }
                } else {
                    assert(adj@[x]@ == before[x]);
                }
            }
            assert forall|i: int| 0 <= i < after.len() && i != f implies #[trigger] after[i] == old_or_empty(
                old(self).deps(),
                i,
            ) by {
                assert(after[i] == before[i]);
            }
        }
        *self = DependencyGraph { nodes, adj };
    }

    /// The graph of the given dependencies: each name is a node, and depends on
    /// each name in its list (see `mentioned` and `listed`).
    pub fn from_dependencies(deps: &[(String, Vec<String>)]) -> (res: Self)
        ensures
            forall|x: Seq<char>| #[trigger] res.names().contains(x) <==> mentioned(deps@, deps@.len() as int).contains(x),
            forall|p: int| 0 <= p < res.names().len() ==> #[trigger] dep_names(res.names(), res.deps(), p) == listed(
                deps@,
                res.names()[p],
                deps@.len() as int,
            ),
    {
        let mut graph = Self::new();
        let mut i: usize = 0;
        proof {
            assert forall|x: Seq<char>| #[trigger] graph.names().contains(x) <==> mentioned(deps@, 0).contains(x) by {}
        }
        while i < deps.len()
            invariant
                i <= deps@.len(),
                forall|x: Seq<char>| #[trigger] graph.names().contains(x) <==> mentioned(deps@, i as int).contains(x),
                forall|p: int| 0 <= p < graph.names().len() ==> #[trigger] dep_names(graph.names(), graph.deps(), p) == listed(
                    deps@,
                    graph.names()[p],
                    i as int,
                ),
            decreases deps@.len() - i,
        {
            let (name, dependencies) = &deps[i];
            proof {
                use_type_invariant(&graph);
            }
            let ghost names0 = graph.names();
            let ghost deps0 = graph.deps();
            let _ = graph.node_index(name.as_str());
            proof {
                use_type_invariant(&graph);
                lemma_names_grow(names0, graph.names());
                assert(views(dependencies@.take(0)) =~= Seq::<Seq<char>>::empty());
                assert forall|x: Seq<char>| #[trigger] graph.names().contains(x) <==> (mentioned(deps@, i as int).contains(x)
                    || x == name@ || views(dependencies@.take(0)).contains(x)) by {
                    if graph.names().contains(x) && !names0.contains(x) {
                        let q = choose|q: int| 0 <= q < graph.names().len() && #[trigger] graph.names()[q] == x;
                        assert(q == names0.len());
                    }
                    if x == name@ {
                        assert(graph.names().contains(name@)) by {
                            if names0.contains(name@) {
                            } else {
                                assert(graph.names()[names0.len() as int] == name@);
                            }
                        }
                    }
                }
                assert forall|p: int| 0 <= p < graph.names().len() implies #[trigger] dep_names(graph.names(), graph.deps(), p)
                    == listed(deps@, graph.names()[p], i as int) + if graph.names()[p] == name@ {
                    views(dependencies@.take(0))
                } else {
                    Seq::empty()
                } by {
                    assert(views(dependencies@.take(0)) =~= Seq::<Seq<char>>::empty());
                    if p < names0.len() {
                        lemma_dep_names_stable(names0, graph.names(), deps0, p);
                        assert(graph.names()[p] == names0[p]);
                        assert(listed(deps@, names0[p], i as int) + Seq::<Seq<char>>::empty() =~= listed(deps@, names0[p], i as int));
                    } else {
                        assert(graph.names()[p] == name@);
                        assert(!mentioned(deps@, i as int).contains(name@));
                        lemma_listed_unmentioned(deps@, name@, i as int);
                        assert(dep_names(graph.names(), graph.deps(), p) =~= Seq::<Seq<char>>::empty());
                    }
                }
            }
            let mut k: usize = 0;
            while k < dependencies.len()
                invariant
                    i < deps@.len(),
                    k <= dependencies@.len(),
                    *name == deps@[i as int].0,
                    *dependencies == deps@[i as int].1,
                    forall|x: Seq<char>| #[trigger] graph.names().contains(x) <==> (mentioned(deps@, i as int).contains(x)
                        || x == name@ || views(dependencies@.take(k as int)).contains(x)),
                    forall|p: int| 0 <= p < graph.names().len() ==> #[trigger] dep_names(graph.names(), graph.deps(), p)
                        == listed(deps@, graph.names()[p], i as int) + if graph.names()[p] == name@ {
                        views(dependencies@.take(k as int))
                    } else {
                        Seq::empty()
                    },
                decreases dependencies@.len() - k,
            {
                proof {
                    use_type_invariant(&graph);
                }
                let ghost names1 = graph.names();
                let ghost deps1 = graph.deps();
                let to = dependencies[k].as_str();
                graph.add_dependency(name.as_str(), to);
                let count = graph.node_count();
                proof {
                    use_type_invariant(&graph);
                    let names2 = graph.names();
                    let deps2 = graph.deps();
                    assert(deps1.len() == names1.len());
                    let f = names2.index_of(name@);
                    let t = names2.index_of(to@);
                    lemma_names_grow(names1, names2);
                    assert(names1.contains(name@));
                    assert(names2 == names1 || names2 == names1.push(to@));
                    assert(views(dependencies@.take(k + 1)) =~= views(dependencies@.take(k as int)).push(to@));
                    assert(names2[f] == name@);
                    assert(names2[t] == to@);
                    let prev = views(dependencies@.take(k as int));
                    let next = views(dependencies@.take(k + 1));
                    assert(next[k as int] == to@);
                    assert forall|x: Seq<char>| #[trigger] names2.contains(x) <==> (mentioned(deps@, i as int).contains(x)
                        || x == name@ || views(dependencies@.take(k + 1)).contains(x)) by {
                        if prev.contains(x) {
                            let q = choose|q: int| 0 <= q < prev.len() && #[trigger] prev[q] == x;
                            assert(next[q] == x);
                            assert(names1.contains(x));
                        }
                        if x == to@ {
                            assert(next.contains(x));
                        }
                        if names2.contains(x) && !names1.contains(x) {
                            let q = choose|q: int| 0 <= q < names2.len() && #[trigger] names2[q] == x;
                            assert(q == names1.len());
                            assert(x == to@);
                            assert(views(dependencies@.take(k + 1))[k as int] == x);
                        }
                        if views(dependencies@.take(k + 1)).contains(x) && !views(dependencies@.take(k as int)).contains(x) {
                            let q = choose|q: int| 0 <= q < k + 1 && #[trigger] views(dependencies@.take(k + 1))[q] == x;
                            if q < k {
                                assert(views(dependencies@.take(k as int))[q] == x);
                            }
                            assert(x == to@);
                        }
                    }
                    assert forall|p: int| 0 <= p < names2.len() implies #[trigger] dep_names(names2, deps2, p) == listed(
                        deps@,
                        names2[p],
                        i as int,
                    ) + if names2[p] == name@ {
                        views(dependencies@.take(k + 1))
                    } else {
                        Seq::empty()
                    } by {
                        if p < names1.len() {
                            assert(names2[p] == names1[p]);
                            lemma_dep_names_stable(names1, names2, deps1, p);
                            if p == f {
                                assert(0 <= f < deps1.len());
                                assert(old_or_empty(deps1, f) == deps1[f]);
                                assert(deps2[f] == old_or_empty(deps1, f).push(t as usize));
                                assert(deps2[p] == deps1[p].push(t as usize));
                                assert(0 <= t < names2.len());
                                let a = dep_names(names2, deps2, p);
                                let b = dep_names(names2, deps1, p).push(to@);
                                assert(names2[t] == to@);
                                assert(names2.len() == count);
                                assert((t as usize) as int == t);
                                assert forall|q: int| 0 <= q < a.len() implies a[q] == b[q] by {
                                    if q < deps1[p].len() {
                                        assert(deps2[p][q] == deps1[p][q]);
                                        assert(a[q] == names2[deps2[p][q] as int]);
                                        assert(b[q] == names2[deps1[p][q] as int]);
                                    } else {
                                        assert(deps2[p][q] == t as usize);
                                        assert(a[q] == names2[t]);
                                        assert(b[q] == to@);
                                    }
                                }
                                assert(a =~= b);
                                assert(names1[p] == name@);
                                assert(dep_names(names1, deps1, p) == listed(deps@, names1[p], i as int) + views(
                                    dependencies@.take(k as int),
                                ));
                                assert(dep_names(names2, deps2, p) =~= listed(deps@, names2[p], i as int) + views(
                                    dependencies@.take(k + 1),
                                ));
                            } else {
                                lemma_index_of_unique(names2, p);
                                assert(names2[p] != name@);
                                assert(deps2[p] == deps1[p]);
                                assert(dep_names(names1, deps1, p) == listed(deps@, names1[p], i as int) + Seq::<Seq<char>>::empty());
                                assert(dep_names(names2, deps2, p) =~= listed(deps@, names2[p], i as int));
                            }
                        } else {
                            assert(p != f);
                            assert(names2[p] == to@);
                            assert(deps2[p] == Seq::<usize>::empty());
                            assert(!names1.contains(to@));
                            assert(to@ != name@);
                            assert(!mentioned(deps@, i as int).contains(to@));
                            lemma_listed_unmentioned(deps@, to@, i as int);
                            assert(dep_names(names2, deps2, p) =~= Seq::<Seq<char>>::empty());
                        }
                    }
                }
                k = k + 1;
            }
            proof {
                assert(dependencies@.take(dependencies@.len() as int) =~= dependencies@);
                assert forall|x: Seq<char>| #[trigger] graph.names().contains(x) <==> mentioned(deps@, i + 1).contains(x) by {
                    if views(dependencies@).contains(x) {
                        let q = choose|q: int| 0 <= q < views(dependencies@).len() && #[trigger] views(dependencies@)[q] == x;
                        assert(views(dependencies@).to_set().contains(x));
                    }
                    if views(dependencies@).to_set().contains(x) {
                        assert(views(dependencies@).contains(x));
                    }
                }
                assert forall|p: int| 0 <= p < graph.names().len() implies #[trigger] dep_names(graph.names(), graph.deps(), p)
                    == listed(deps@, graph.names()[p], i + 1) by {}
            }
            i = i + 1;
        }
        graph
    }

    pub fn node_count(&self) -> (res: usize)
        ensures
            res == self.names().len(),
    {
        self.nodes.len()
    }

    /// The number of dependencies added, repeated ones counted each time.
    pub fn edge_count(&self) -> (res: usize)
        requires
            total_len(self.deps(), self.deps().len() as nat) <= usize::MAX,
        ensures
            res == total_len(self.deps(), self.deps().len() as nat),
    {
        let mut total: usize = 0;
        let mut i: usize = 0;
        while i < self.adj.len()
            invariant
                i <= self.adj@.len(),
                self.deps().len() == self.adj@.len(),
                total_len(self.deps(), self.deps().len() as nat) <= usize::MAX,
                total == total_len(self.deps(), i as nat),
            decreases self.adj@.len() - i,
        {
            proof {
                lemma_total_len_mono(self.deps(), (i + 1) as nat, self.deps().len() as nat);
                assert(self.deps()[i as int] == self.adj@[i as int]@);
            }
            total = total + self.adj[i].len();
            i = i + 1;
        }
        total
    }

    /// A topological order (Kahn's algorithm), or, when there is none, a cycle.
    pub fn topological_sort(&self) -> (res: Result<Vec<String>, Vec<String>>)
        requires
            total_len(self.deps(), self.deps().len() as nat) <= usize::MAX,
        ensures
            res matches Ok(o) ==> is_order(self.names(), self.deps(), o@.map_values(|s: String| s@)),
            res matches Err(c) ==> !exists|o: Seq<Seq<char>>| #[trigger] is_order(self.names(), self.deps(), o),
            res matches Err(c) ==> is_cycle(self.names(), self.deps(), c@.map_values(|s: String| s@)),
    {
        proof {
            use_type_invariant(self);
        }
        let n = self.nodes.len();
        let ghost adj = self.deps();
        let ghost names = self.names();
        assert forall|a: int, k: int| 0 <= a < adj.len() && 0 <= k < adj[a].len() implies #[trigger] adj[a][k] < n by {
            assert(adj[a] == self.adj@[a]@);
        }
        let mut done: Vec<bool> = Vec::new();
        let mut in_degree: Vec<usize> = Vec::new();
        let mut j: usize = 0;
        while j < n
            invariant
                j <= n,
                n == adj.len(),
                done@ == Seq::new(j as nat, |x: int| false),
                in_degree@ == Seq::new(j as nat, |x: int| 0usize),
            decreases n - j,
        {
            done.push(false);
            in_degree.push(0);
            assert(done@ =~= Seq::new((j + 1) as nat, |x: int| false));
            assert(in_degree@ =~= Seq::new((j + 1) as nat, |x: int| 0usize));
            j = j + 1;
        }
        // count the dependencies on each node
        let mut i: usize = 0;
        while i < n
            invariant
                i <= n,
                n == adj.len(),
                n == self.adj@.len(),
                adj == self.deps(),
                done@ == Seq::new(n as nat, |x: int| false),
                in_degree@.len() == n,
                total_len(adj, n as nat) <= usize::MAX,
                forall|a: int, k2: int| 0 <= a < adj.len() && 0 <= k2 < adj[a].len() ==> #[trigger] adj[a][k2] < n,
                forall|x: int| 0 <= x < n ==> #[trigger] in_degree@[x] == pending_in(adj, done@, x as usize, i as nat),
            decreases n - i,
        {
            let row = &self.adj[i];
            assert(row@ == adj[i as int]);
            let mut k: usize = 0;
            while k < row.len()
                invariant
                    i < n,
                    k <= row@.len(),
                    row@ == adj[i as int],
                    n == adj.len(),
                    done@ == Seq::new(n as nat, |x: int| false),
                    in_degree@.len() == n,
                    total_len(adj, n as nat) <= usize::MAX,
                    forall|a: int, k2: int| 0 <= a < adj.len() && 0 <= k2 < adj[a].len() ==> #[trigger] adj[a][k2] < n,
                    forall|x: int|
                        0 <= x < n ==> #[trigger] in_degree@[x] == pending_in(adj, done@, x as usize, i as nat)
                            + occurrences(row@.take(k as int), x as usize),
                decreases row@.len() - k,
            {
                let d = row[k];
                proof {
                    lemma_occ_le_len(row@.take(k as int), d);
                    lemma_pending_le_total(adj, done@, d, i as nat);
                    lemma_total_len_mono(adj, (i + 1) as nat, n as nat);
                    assert(total_len(adj, (i + 1) as nat) == total_len(adj, i as nat) + row@.len());
                }
                in_degree.set(d, in_degree[d] + 1);
                proof {
                    assert forall|x: int| 0 <= x < n implies #[trigger] in_degree@[x] == pending_in(
                        adj,
                        done@,
                        x as usize,
                        i as nat,
                    ) + occurrences(row@.take(k + 1), x as usize) by {
                        assert(row@.take(k + 1).drop_last() =~= row@.take(k as int));
                    }
                }
                k = k + 1;
            }
            assert(row@.take(row@.len() as int) =~= row@);
            i = i + 1;
        }
        // start with the nodes nothing depends on
        let mut queue: Vec<usize> = Vec::new();
        let mut x: usize = 0;
        while x < n
            invariant
                x <= n,
                n == adj.len(),
                in_degree@.len() == n,
                done@.len() == n,
                queue@.no_duplicates(),
                forall|q: int| 0 <= q < queue@.len() ==> #[trigger] queue@[q] < x,
                forall|q: int| 0 <= q < queue@.len() ==> in_degree@[#[trigger] queue@[q] as int] == 0,
                forall|y: int| 0 <= y < x && in_degree@[y] == 0 ==> #[trigger] queue@.contains(y as usize),
            decreases n - x,
        {
            if in_degree[x] == 0 {
                let ghost before = queue@;
                queue.push(x);
                proof {
                    assert forall|a: int, b: int| 0 <= a < b < queue@.len() implies queue@[a] != queue@[b] by {
                        if b == before.len() {
                            assert(before[a] < x);
                        }
                    }
                    assert forall|y: int| 0 <= y < x + 1 && in_degree@[y] == 0 implies #[trigger] queue@.contains(
                        y as usize,
                    ) by {
                        if y < x {
                            assert(before.contains(y as usize));
                            let p = choose|p: int| 0 <= p < before.len() && before[p] == y as usize;
                            assert(queue@[p] == y as usize);
                        } else {
                            assert(queue@[before.len() as int] == y as usize);
                        }
                    }
                }
            }
            x = x + 1;
        }
        // emit the nodes whose dependents have all been emitted
        let mut result: Vec<usize> = Vec::new();
        while queue.len() > 0
            invariant
                n == adj.len(),
                n == names.len(),
                names == self.names(),
                adj == self.deps(),
                in_degree@.len() == n,
                done@.len() == n,
                forall|a: int, k: int| 0 <= a < adj.len() && 0 <= k < adj[a].len() ==> #[trigger] adj[a][k] < n,
                forall|y: int| 0 <= y < n ==> #[trigger] in_degree@[y] == pending_in(adj, done@, y as usize, n as nat),
                queue@.no_duplicates(),
                result@.no_duplicates(),
                forall|q: int| 0 <= q < queue@.len() ==> #[trigger] queue@[q] < n,
                forall|q: int| 0 <= q < queue@.len() ==> in_degree@[#[trigger] queue@[q] as int] == 0,
                forall|q: int| 0 <= q < queue@.len() ==> !done@[#[trigger] queue@[q] as int],
                forall|y: int| 0 <= y < n && in_degree@[y] == 0 && !done@[y] ==> #[trigger] queue@.contains(y as usize),
                forall|r: int| 0 <= r < result@.len() ==> #[trigger] result@[r] < n,
                forall|y: int| 0 <= y < n ==> (#[trigger] done@[y] <==> result@.contains(y as usize)),
                forall|q: int, a: int|
                    0 <= q < result@.len() && 0 <= a < n && #[trigger] adj[a].contains(#[trigger] result@[q])
                        ==> result@.take(q).contains(a as usize),
                forall|y: int| 0 <= y < n && done@[y] ==> #[trigger] in_degree@[y] == 0,
            decreases n - result@.len(),
        {
            let ghost queue0 = queue@;
            let node = queue.pop().unwrap();
            assert(queue@ == queue0.drop_last() && node == queue0.last());
            let ghost done0 = done@;
            let ghost result0 = result@;
            proof {
                assert(!result0.contains(node));
                lemma_distinct_push_bound(result0, node, n as nat);
                assert forall|a: int| 0 <= a < n && #[trigger] adj[a].contains(node) implies result0.contains(
                    a as usize,
                ) by {
                    if !done0[a] {
                        lemma_pending_zero(adj, done0, node, n as nat, a);
                        lemma_occ_contains(adj[a], node);
                    }
                }
            }
            result.push(node);
            done.set(node, true);
            proof {
                assert forall|y: int| 0 <= y < n implies (#[trigger] done@[y] <==> result@.contains(y as usize)) by {
                    if y == node {
                        assert(result@[result0.len() as int] == node);
                    } else if result0.contains(y as usize) {
                        let p = choose|p: int| 0 <= p < result0.len() && result0[p] == y as usize;
                        assert(result@[p] == y as usize);
                    }
                }
                assert forall|q: int, a: int|
                    0 <= q < result@.len() && 0 <= a < n && #[trigger] adj[a].contains(#[trigger] result@[q])
                        implies result@.take(q).contains(a as usize) by {
                    if q < result0.len() {
                        assert(result@.take(q) =~= result0.take(q));
                    } else {
                        assert(result@.take(q) =~= result0);
                    }
                }
                assert forall|y: int| 0 <= y < n implies #[trigger] pending_in(adj, done0, y as usize, n as nat)
                    == pending_in(adj, done@, y as usize, n as nat) + occurrences(adj[node as int], y as usize) by {
                    lemma_pending_done(adj, done0, node, y as usize, n as nat);
                }
                assert forall|a: int, b: int| 0 <= a < b < result@.len() implies result@[a] != result@[b] by {
                    if b == result0.len() {
                        assert(result0.contains(result0[a]));
                    }
                }
                assert(in_degree@[node as int] == 0) by {
                    assert(queue0[queue0.len() - 1] == node);
                }
                assert forall|y: int| 0 <= y < n && done@[y] implies #[trigger] occurrences(adj[node as int], y as usize)
                    == 0 && in_degree@[y] == 0 by {
                    lemma_pending_done(adj, done0, node, y as usize, n as nat);
                    assert(done@ == done0.update(node as int, true));
                    if y != node as int {
                        assert(done0[y]);
                    }
                    assert(in_degree@[y] == pending_in(adj, done0, y as usize, n as nat));
                }
                assert forall|y: int| 0 <= y < n && in_degree@[y] == 0 && !done@[y] implies #[trigger] queue@.contains(
                    y as usize,
                ) by {
                    assert(queue0.contains(y as usize));
                    let p = choose|p: int| 0 <= p < queue0.len() && queue0[p] == y as usize;
                    assert(p != queue0.len() - 1);
                    assert(queue@[p] == y as usize);
                }
                assert forall|q: int| 0 <= q < queue@.len() implies !done@[#[trigger] queue@[q] as int] by {
                    assert(queue@[q] == queue0[q]);
                    assert(queue0[q] != queue0[queue0.len() - 1]);
                }
            }
            let row = &self.adj[node];
            assert(row@ == adj[node as int]);
            assert(row@.skip(0) =~= row@);
            let mut k: usize = 0;
            while k < row.len()
                invariant
                    k <= row@.len(),
                    row@ == adj[node as int],
                    node < n,
                    n == adj.len(),
                    in_degree@.len() == n,
                    done@.len() == n,
                    done@[node as int],
                    forall|a: int, k2: int| 0 <= a < adj.len() && 0 <= k2 < adj[a].len() ==> #[trigger] adj[a][k2] < n,
                    forall|y: int|
                        0 <= y < n ==> #[trigger] in_degree@[y] == pending_in(adj, done@, y as usize, n as nat)
                            + occurrences(row@.skip(k as int), y as usize),
                    queue@.no_duplicates(),
                    forall|q: int| 0 <= q < queue@.len() ==> #[trigger] queue@[q] < n,
                    forall|q: int| 0 <= q < queue@.len() ==> in_degree@[#[trigger] queue@[q] as int] == 0,
                    forall|q: int| 0 <= q < queue@.len() ==> !done@[#[trigger] queue@[q] as int],
                    forall|y: int|
                        0 <= y < n && in_degree@[y] == 0 && !done@[y] ==> #[trigger] queue@.contains(y as usize),
                    forall|y: int| 0 <= y < n && done@[y] ==> #[trigger] in_degree@[y] == 0,
                    forall|y: int| 0 <= y < n && done@[y] ==> #[trigger] occurrences(row@.skip(k as int), y as usize) == 0,
                decreases row@.len() - k,
            {
                let d = row[k];
                proof {
                    lemma_occ_skip(row@, k as int);
                    assert forall|y: int| 0 <= y < n && done@[y] implies #[trigger] occurrences(row@.skip(k + 1), y as usize)
                        == 0 by {
                        assert(occurrences(row@.skip(k as int), y as usize) == occurrences(row@.skip(k + 1), y as usize)
                            + if row@[k as int] == y as usize {
                            1nat
                        } else {
                            0nat
                        });
                    }
                    assert(occurrences(row@.skip(k as int), d) == occurrences(row@.skip(k + 1), d) + 1);
                }
                let cur = in_degree[d];
                let ghost q0 = queue@;
                in_degree.set(d, cur - 1);
                if cur - 1 == 0 {
                    queue.push(d);
                    proof {
                        assert forall|a: int, b: int| 0 <= a < b < queue@.len() implies queue@[a] != queue@[b] by {
                            if b == q0.len() {
                                assert(in_degree@[q0[a] as int] == 0 || q0[a] == d);
                            }
                        }
                    }
                }
                proof {
                    assert forall|y: int|
                        0 <= y < n && in_degree@[y] == 0 && !done@[y] implies #[trigger] queue@.contains(y as usize) by {
                        if y == d {
                            assert(queue@[queue@.len() - 1] == d);
                        } else {
                            assert(q0.contains(y as usize));
                            let p = choose|p: int| 0 <= p < q0.len() && q0[p] == y as usize;
                            assert(queue@[p] == y as usize);
                        }
                    }
                }
                k = k + 1;
            }
            proof {
                assert(row@.skip(row@.len() as int) =~= Seq::<usize>::empty());
            }
        }
        if result.len() == n {
            let mut order: Vec<String> = Vec::new();
            let mut r: usize = 0;
            while r < result.len()
                invariant
                    r <= result@.len(),
                    forall|t: int| 0 <= t < result@.len() ==> #[trigger] result@[t] < n,
                    n == self.nodes@.len(),
                    names == self.names(),
                    order@.map_values(|s: String| s@) == result@.take(r as int).map_values(|y: usize| names[y as int]),
                decreases result@.len() - r,
            {
                let mut s = String::new();
                crate::text::push_str(&mut s, self.nodes[result[r]].as_str());
                let ghost before = order@;
                order.push(s);
                proof {
                    assert(names[result@[r as int] as int] == self.nodes@[result@[r as int] as int]@);
                    assert(order@.map_values(|s: String| s@) =~= before.map_values(|s: String| s@).push(s@));
                    assert(result@.take(r + 1).map_values(|y: usize| names[y as int]) =~= result@.take(
                        r as int,
                    ).map_values(|y: usize| names[y as int]).push(names[result@[r as int] as int]));
                }
                r = r + 1;
            }
            proof {
                assert(result@.take(result@.len() as int) =~= result@);
                lemma_order_of_result(names, adj, result@);
            }
            Ok(order)
        } else {
            proof {
                assert forall|y: int| 0 <= y < n && !done@[y] implies #[trigger] pending_in(adj, done@, y as usize, n as nat)
                    > 0 by {
                    if pending_in(adj, done@, y as usize, n as nat) == 0 {
                        assert(queue@.contains(y as usize));
                    }
                }
                assert(exists|y: int| 0 <= y < n && !done@[y]) by {
                    if forall|y: int| 0 <= y < n ==> done@[y] {
                        assert forall|y: int| 0 <= y < n implies #[trigger] result@.contains(y as usize) by {
                            assert(done@[y]);
                        }
                        lemma_covering_len(result@, n as nat);
                        let ps = result@.map_values(|x: usize| x as int);
                        assert forall|a: int, b: int| 0 <= a < b < ps.len() implies ps[a] != ps[b] by {
                            assert(result@[a] != result@[b]);
                        }
                        crate::counting::lemma_distinct_in_range(ps, n as int);
                    }
                }
                let y = choose|y: int| 0 <= y < n && !done@[y];
                lemma_stuck_no_order(names, adj, done@, n as nat, y);
            }
            Err(self.detect_cycle())
        }
    }

    /// A cycle found by depth-first search from each unvisited node in turn;
    /// empty exactly when the nodes can be ordered.
    fn detect_cycle(&self) -> (res: Vec<String>)
        ensures
            res@.len() == 0 <==> exists|o: Seq<Seq<char>>| #[trigger] is_order(self.names(), self.deps(), o),
            res@.len() > 0 ==> is_cycle(self.names(), self.deps(), res@.map_values(|s: String| s@)),
    {
        proof {
            use_type_invariant(self);
        }
        let n = self.nodes.len();
        let ghost adj = self.deps();
        let ghost names = self.names();
        let mut visited: Vec<bool> = Vec::new();
        let mut on_stack: Vec<bool> = Vec::new();
        let mut j: usize = 0;
        while j < n
            invariant
                j <= n,
                visited@ == Seq::new(j as nat, |x: int| false),
                on_stack@ == Seq::new(j as nat, |x: int| false),
            decreases n - j,
        {
            visited.push(false);
            on_stack.push(false);
            assert(visited@ =~= Seq::new((j + 1) as nat, |x: int| false));
            assert(on_stack@ =~= Seq::new((j + 1) as nat, |x: int| false));
            j = j + 1;
        }
        let mut stack: Vec<usize> = Vec::new();
        let mut finished: Ghost<Seq<usize>> = Ghost(Seq::empty());
        let mut node: usize = 0;
        while node < n
            invariant
                n == self.nodes@.len(),
                n == self.adj@.len(),
                adj == self.deps(),
                names == self.names(),
                node <= n,
                visited@.len() == n,
                on_stack@.len() == n,
                stack@.len() == 0,
                forall|y: int| 0 <= y < n ==> !#[trigger] on_stack@[y],
                finished@.no_duplicates(),
                forall|q: int| 0 <= q < finished@.len() ==> #[trigger] finished@[q] < n,
                deps_first(adj, finished@),
                forall|y: int| 0 <= y < n ==> (#[trigger] visited@[y] <==> finished@.contains(y as usize)),
                forall|y: int| 0 <= y < node ==> #[trigger] visited@[y],
            decreases n - node,
        {
            if !visited[node] {
                match self.dfs_cycle(node, &mut visited, &mut stack, &mut on_stack, &mut finished) {
                    Some(c) => {
                        proof {
                            lemma_cycle_no_order(names, adj, c@.map_values(|s: String| s@));
                        }
                        return c;
                    },
                    None => {},
                }
                proof {
                    assert(stack@ =~= Seq::<usize>::empty());
                }
            }
            node = node + 1;
        }
        proof {
            let fin = finished@;
            let len = fin.len();
            assert forall|y: int| 0 <= y < n implies #[trigger] fin.contains(y as usize) by {
                assert(visited@[y]);
            }
            lemma_covering_len(fin, n as nat);
            let ps = fin.map_values(|x: usize| x as int);
            assert forall|a: int, b: int| 0 <= a < b < ps.len() implies ps[a] != ps[b] by {
                assert(fin[a] != fin[b]);
            }
            crate::counting::lemma_distinct_in_range(ps, n as int);
            let r = Seq::new(len, |i: int| fin[len - 1 - i]);
            assert forall|a: int, b: int| 0 <= a < b < r.len() implies r[a] != r[b] by {
                assert(fin[len - 1 - a] != fin[len - 1 - b]);
            }
            assert forall|a: int, k: int| 0 <= a < adj.len() && 0 <= k < adj[a].len() implies #[trigger] adj[a][k]
                < adj.len() by {
                assert(adj[a] == self.adj@[a]@);
            }
            assert forall|q: int, a: int|
                0 <= q < r.len() && 0 <= a < names.len() && #[trigger] adj[a].contains(#[trigger] r[q]) implies r.take(
                q,
            ).contains(a as usize) by {
                assert(fin.contains(a as usize));
                let pa = choose|pa: int| 0 <= pa < len && fin[pa] == a as usize;
                let kk = choose|kk: int| 0 <= kk < adj[a].len() && adj[a][kk] == r[q];
                assert(adj[fin[pa] as int][kk] == r[q]);
                assert(occurs_before(fin, adj[fin[pa] as int][kk], pa));
                let q2 = choose|q2: int| 0 <= q2 < pa && #[trigger] fin[q2] == adj[fin[pa] as int][kk];
                assert(fin[q2] == fin[len - 1 - q]);
                assert(q2 == len - 1 - q);
                let idx = len - 1 - pa;
                assert(r[idx] == a as usize);
                assert(r.take(q)[idx] == a as usize);
            }
            lemma_order_of_result(names, adj, r);
            assert(is_order(names, adj, r.map_values(|y: usize| names[y as int])));
        }
        Vec::new()
    }

    /// Depth-first search from `node` along dependencies. A dependency on a node
    /// on the current path closes a cycle, which is returned. Otherwise the
    /// nodes whose search ends are appended to `finished`, each after the
    /// nodes it depends on.
    fn dfs_cycle(
        &self,
        node: usize,
        visited: &mut Vec<bool>,
        stack: &mut Vec<usize>,
        on_stack: &mut Vec<bool>,
        finished: &mut Ghost<Seq<usize>>,
    ) -> (res: Option<Vec<String>>)
        requires
            node < self.nodes@.len(),
            old(visited)@.len() == self.nodes@.len(),
            old(on_stack)@.len() == self.nodes@.len(),
            !old(visited)@[node as int],
            path_ok(self.deps(), old(stack)@),
            old(stack)@.len() > 0 ==> self.deps()[old(stack)@.last() as int].contains(node),
            forall|y: int| 0 <= y < self.nodes@.len() ==> (#[trigger] old(on_stack)@[y] <==> old(stack)@.contains(y as usize)),
            forall|p: int| 0 <= p < old(stack)@.len() ==> #[trigger] old(stack)@[p] < self.nodes@.len(),
            forall|p: int| 0 <= p < old(stack)@.len() ==> old(visited)@[#[trigger] old(stack)@[p] as int],
            old(finished)@.no_duplicates(),
            forall|q: int| 0 <= q < old(finished)@.len() ==> #[trigger] old(finished)@[q] < self.nodes@.len(),
            deps_first(self.deps(), old(finished)@),
            forall|y: int|
                0 <= y < self.nodes@.len() ==> (#[trigger] old(visited)@[y] <==> (old(finished)@.contains(y as usize)
                    || old(stack)@.contains(y as usize))),
        ensures
            final(visited)@.len() == self.nodes@.len(),
            forall|y: int| 0 <= y < self.nodes@.len() && old(visited)@[y] ==> #[trigger] final(visited)@[y],
            final(on_stack)@.len() == self.nodes@.len(),
            falses(final(visited)@) < falses(old(visited)@),
            res is None ==> final(stack)@ == old(stack)@,
            res is None ==> forall|y: int| 0 <= y < self.nodes@.len() ==> (#[trigger] final(on_stack)@[y] <==> final(stack)@.contains(y as usize)),
            res matches Some(c) ==> is_cycle(self.names(), self.deps(), c@.map_values(|s: String| s@)),
            res is None ==> grows(old(finished)@, final(finished)@),
            res is None ==> final(finished)@.contains(node),
            res is None ==> final(finished)@.no_duplicates(),
            res is None ==> forall|q: int| 0 <= q < final(finished)@.len() ==> #[trigger] final(finished)@[q] < self.nodes@.len(),
            res is None ==> deps_first(self.deps(), final(finished)@),
            res is None ==> forall|y: int|
                0 <= y < self.nodes@.len() ==> (#[trigger] final(visited)@[y] <==> (final(finished)@.contains(y as usize)
                    || final(stack)@.contains(y as usize))),
            res is None ==> forall|q: int|
                old(finished)@.len() <= q < final(finished)@.len() ==> !old(visited)@[#[trigger] final(finished)@[q] as int],
        decreases falses(old(visited)@),
    {
        proof {
            use_type_invariant(self);
            assert(self.nodes.len() == self.nodes@.len());
        }
        let ghost adj = self.deps();
        proof {
            lemma_falses_update(visited@, node as int);
        }
        visited.set(node, true);
        let ghost stack0 = stack@;
        stack.push(node);
        on_stack.set(node, true);
        proof {
            lemma_path_push(adj, stack0, node);
            assert forall|y: int|
                #![trigger on_stack@[y]]
                #![trigger visited@[y]]
                0 <= y < self.nodes@.len() implies (on_stack@[y] <==> stack@.contains(y as usize)) && (visited@[y] <==> (
                finished@.contains(y as usize) || stack@.contains(y as usize))) by {
                if y == node {
                    assert(stack@[stack0.len() as int] == node);
                } else {
                    if stack0.contains(y as usize) {
                        let q = choose|q: int| 0 <= q < stack0.len() && stack0[q] == y as usize;
                        assert(stack@[q] == y as usize);
                    }
                    if stack@.contains(y as usize) {
                        let q = choose|q: int| 0 <= q < stack@.len() && stack@[q] == y as usize;
                        assert(stack0[q] == y as usize);
                    }
                }
            }
            assert(!finished@.contains(node));
        }
        let row = &self.adj[node];
        assert(row@ == adj[node as int]);
        let mut k: usize = 0;
        while k < row.len()
            invariant
                k <= row@.len(),
                row@ == adj[node as int],
                adj == self.deps(),
                adj.len() == self.nodes@.len(),
                node < self.nodes@.len(),
                visited@.len() == self.nodes@.len(),
                on_stack@.len() == self.nodes@.len(),
                falses(visited@) < falses(old(visited)@),
                stack@ == stack0.push(node),
                path_ok(adj, stack@),
                forall|y: int| 0 <= y < self.nodes@.len() ==> (#[trigger] on_stack@[y] <==> stack@.contains(y as usize)),
                forall|p: int| 0 <= p < stack@.len() ==> #[trigger] stack@[p] < self.nodes@.len(),
                forall|p: int| 0 <= p < stack@.len() ==> visited@[#[trigger] stack@[p] as int],
                forall|y: int| 0 <= y < self.nodes@.len() && old(visited)@[y] ==> #[trigger] visited@[y],
                forall|a: int, k2: int| 0 <= a < adj.len() && 0 <= k2 < adj[a].len() ==> #[trigger] adj[a][k2] < self.nodes@.len(),
                !old(visited)@[node as int],
                grows(old(finished)@, finished@),
                finished@.no_duplicates(),
                forall|q: int| 0 <= q < finished@.len() ==> #[trigger] finished@[q] < self.nodes@.len(),
                deps_first(adj, finished@),
                forall|y: int|
                    0 <= y < self.nodes@.len() ==> (#[trigger] visited@[y] <==> (finished@.contains(y as usize)
                        || stack@.contains(y as usize))),
                forall|q: int|
                    old(finished)@.len() <= q < finished@.len() ==> !old(visited)@[#[trigger] finished@[q] as int]
                        && finished@[q] != node,
                !finished@.contains(node),
                forall|k2: int| 0 <= k2 < k ==> finished@.contains(#[trigger] row@[k2]),
            decreases row@.len() - k,
        {
            let dep = row[k];
            assert(adj[node as int].contains(dep));
            if on_stack[dep] {
                let mut start: usize = 0;
                while start < stack.len() && stack[start] != dep
                    invariant
                        start <= stack@.len(),
                        forall|p: int| 0 <= p < start ==> stack@[p] != dep,
                    decreases stack@.len() - start,
                {
                    start = start + 1;
                }
                assert(start < stack@.len());
                let mut cycle: Vec<String> = Vec::new();
                let mut p: usize = start;
                while p < stack.len()
                    invariant
                        start <= p <= stack@.len(),
                        start < stack@.len(),
                        forall|q: int| 0 <= q < stack@.len() ==> #[trigger] stack@[q] < self.nodes@.len(),
                        cycle@.map_values(|s: String| s@) == stack@.subrange(start as int, p as int).map_values(
                            |y: usize| self.names()[y as int],
                        ),
                    decreases stack@.len() - p,
                {
                    let mut s = String::new();
                    crate::text::push_str(&mut s, self.nodes[stack[p]].as_str());
                    let ghost before = cycle@;
                    cycle.push(s);
                    proof {
                        assert(self.names()[stack@[p as int] as int] == self.nodes@[stack@[p as int] as int]@);
                        assert(cycle@.map_values(|s: String| s@) =~= before.map_values(|s: String| s@).push(s@));
                        assert(stack@.subrange(start as int, p + 1).map_values(|y: usize| self.names()[y as int])
                            =~= stack@.subrange(start as int, p as int).map_values(|y: usize| self.names()[y as int]).push(
                            self.names()[stack@[p as int] as int],
                        ));
                    }
                    p = p + 1;
                }
                let mut last = String::new();
                crate::text::push_str(&mut last, self.nodes[dep].as_str());
                let ghost before = cycle@;
                cycle.push(last);
                proof {
                    assert(cycle@.map_values(|s: String| s@) =~= before.map_values(|s: String| s@).push(last@));
                    lemma_cycle_from_path(self.names(), adj, stack@, start as int, dep);
                    assert(cycle@.map_values(|s: String| s@) =~= stack@.subrange(start as int, stack@.len() as int).push(
                        dep,
                    ).map_values(|y: usize| self.names()[y as int]));
                }
                return Some(cycle);
            }
            let ghost f0 = finished@;
            if !visited[dep] {
                let ghost v0 = visited@;
                match self.dfs_cycle(dep, visited, stack, on_stack, finished) {
                    Some(c) => {
                        return Some(c);
                    },
                    None => {},
                }
                proof {
                    assert(v0[node as int]) by {
                        assert(stack0.push(node)[stack0.len() as int] == node);
                    }
                    assert forall|q: int|
                        old(finished)@.len() <= q < finished@.len() implies !old(visited)@[#[trigger] finished@[q] as int]
                            && finished@[q] != node by {
                        if q < f0.len() {
                            assert(finished@[q] == f0[q]);
                        } else {
                            assert(!v0[finished@[q] as int]);
                        }
                    }
                    assert(!finished@.contains(node)) by {
                        if finished@.contains(node) {
                            let q = choose|q: int| 0 <= q < finished@.len() && finished@[q] == node;
                            if q < f0.len() {
                                assert(f0[q] == node);
                            } else {
                                assert(finished@[q] != node);
                            }
                        }
                    }
                }
            } else {
                proof {
                    assert(!stack@.contains(dep));
                }
            }
            proof {
                assert(finished@.contains(dep));
                assert forall|k2: int| 0 <= k2 < k + 1 implies finished@.contains(#[trigger] row@[k2]) by {
                    if k2 < k {
                        assert(f0.contains(row@[k2]));
                        let q = choose|q: int| 0 <= q < f0.len() && f0[q] == row@[k2];
                        assert(finished@[q] == f0[q]);
                    }
                }
            }
            k = k + 1;
        }
        stack.pop();
        on_stack.set(node, false);
        let ghost f1 = finished@;
        *finished = Ghost(f1.push(node));
        proof {
            let fin = finished@;
            assert(stack@ =~= stack0);
            assert(fin[f1.len() as int] == node);
            assert forall|y: int|
                #![trigger on_stack@[y]]
                #![trigger visited@[y]]
                0 <= y < self.nodes@.len() implies (on_stack@[y] <==> stack@.contains(y as usize)) && (visited@[y] <==> (
                fin.contains(y as usize) || stack@.contains(y as usize))) by {
                if y != node {
                    if stack0.push(node).contains(y as usize) {
                        let q = choose|q: int| 0 <= q < stack0.len() + 1 && stack0.push(node)[q] == y as usize;
                        assert(stack0[q] == y as usize);
                    }
                    if stack0.contains(y as usize) {
                        let q = choose|q: int| 0 <= q < stack0.len() && stack0[q] == y as usize;
                        assert(stack0.push(node)[q] == y as usize);
                    }
                    if f1.contains(y as usize) {
                        let q = choose|q: int| 0 <= q < f1.len() && f1[q] == y as usize;
                        assert(fin[q] == y as usize);
                    }
                    if fin.contains(y as usize) {
                        let q = choose|q: int| 0 <= q < fin.len() && fin[q] == y as usize;
                        assert(f1[q] == y as usize);
                    }
                } else {
                    assert(!stack0.contains(node)) by {
                        if stack0.contains(node) {
                            let q = choose|q: int| 0 <= q < stack0.len() && stack0[q] == node;
                            assert(old(visited)@[stack0[q] as int]);
                        }
                    }
                }
            }
            assert forall|a: int, b: int| 0 <= a < b < fin.len() implies fin[a] != fin[b] by {
                if b == f1.len() {
                    assert(f1.contains(f1[a]));
                }
            }
            lemma_deps_first_grow(adj, f1, fin);
            assert forall|p: int, k2: int|
                0 <= p < fin.len() && 0 <= k2 < adj[fin[p] as int].len() implies #[trigger] occurs_before(
                fin,
                adj[fin[p] as int][k2],
                p,
            ) by {
                if p == f1.len() {
                    assert(f1.contains(row@[k2]));
                    let q = choose|q: int| 0 <= q < f1.len() && f1[q] == row@[k2];
                    assert(fin[q] == f1[q]);
                }
            }
        }
        None
    }
}

/// `t` begins with `s`.
pub open spec fn grows(s: Seq<usize>, t: Seq<usize>) -> bool {
    &&& s.len() <= t.len()
    &&& forall|q: int| 0 <= q < s.len() ==> t[q] == #[trigger] s[q]
}

/// Consecutive nodes of `s` are dependencies.
pub open spec fn path_ok(adj: Seq<Seq<usize>>, s: Seq<usize>) -> bool {
    forall|p: int| 0 <= p < s.len() - 1 ==> #[trigger] adj[s[p] as int].contains(s[p + 1])
}

/// The old entry at `i`, or an empty list past the end.
pub open spec fn old_or_empty(d: Seq<Seq<usize>>, i: int) -> Seq<usize> {
    if 0 <= i < d.len() {
        d[i]
    } else {
        Seq::empty()
    }
}

/// The total length of the first `n` lists.
pub open spec fn total_len(d: Seq<Seq<usize>>, n: nat) -> nat
    decreases n,
{
    if n == 0 || n > d.len() {
        0
    } else {
        total_len(d, (n - 1) as nat) + d[n - 1].len()
    }
}

proof fn lemma_total_len_mono(d: Seq<Seq<usize>>, a: nat, b: nat)
    requires
        a <= b <= d.len(),
    ensures
        total_len(d, a) <= total_len(d, b),
    decreases b - a,
{
    if a < b {
        lemma_total_len_mono(d, a, (b - 1) as nat);
    }
}

proof fn lemma_index_of_unique(s: Seq<Seq<char>>, i: int)
    requires
        s.no_duplicates(),
        0 <= i < s.len(),
    ensures
        s.index_of(s[i]) == i,
{
    let j = s.index_of(s[i]);
    assert(s[j] == s[i]);
}

proof fn lemma_names_grow(a: Seq<Seq<char>>, b: Seq<Seq<char>>)
    requires
        b == a || b == a.push(b.last()),
    ensures
        forall|x: Seq<char>| a.contains(x) ==> #[trigger] b.contains(x),
{
    assert forall|x: Seq<char>| a.contains(x) implies #[trigger] b.contains(x) by {
        let i = choose|i: int| 0 <= i < a.len() && a[i] == x;
        assert(b[i] == x);
    }
}

proof fn lemma_occ_le_len(s: Seq<usize>, x: usize)
    ensures
        occurrences(s, x) <= s.len(),
    decreases s.len(),
{
    if s.len() > 0 {
        lemma_occ_le_len(s.drop_last(), x);
    }
}

proof fn lemma_occ_contains(s: Seq<usize>, x: usize)
    ensures
        occurrences(s, x) == 0 <==> !s.contains(x),
    decreases s.len(),
{
    if s.len() > 0 {
        lemma_occ_contains(s.drop_last(), x);
        if s.drop_last().contains(x) {
            let i = choose|i: int| 0 <= i < s.drop_last().len() && s.drop_last()[i] == x;
            assert(s[i] == x);
        }
        if s.contains(x) && s.last() != x {
            let i = choose|i: int| 0 <= i < s.len() && s[i] == x;
            assert(s.drop_last()[i] == x);
        }
    }
}

/// Counting from the front: the first element, then the rest.
proof fn lemma_occ_front(s: Seq<usize>, x: usize)
    requires
        s.len() > 0,
    ensures
        occurrences(s, x) == occurrences(s.skip(1), x) + if s[0] == x {
            1nat
        } else {
            0nat
        },
    decreases s.len(),
{
    if s.len() > 1 {
        lemma_occ_front(s.drop_last(), x);
        assert(s.drop_last().skip(1) =~= s.skip(1).drop_last());
    } else {
        assert(s.skip(1) =~= Seq::<usize>::empty());
        assert(s.drop_last() =~= Seq::<usize>::empty());
    }
}

proof fn lemma_occ_skip(s: Seq<usize>, k: int)
    requires
        0 <= k < s.len(),
    ensures
        forall|x: usize| #[trigger] occurrences(s.skip(k), x) == occurrences(s.skip(k + 1), x) + if s[k] == x {
            1nat
        } else {
            0nat
        },
{
    assert forall|x: usize| #[trigger] occurrences(s.skip(k), x) == occurrences(s.skip(k + 1), x) + if s[k] == x {
        1nat
    } else {
        0nat
    } by {
        lemma_occ_front(s.skip(k), x);
        assert(s.skip(k).skip(1) =~= s.skip(k + 1));
    }
}

proof fn lemma_pending_le_total(adj: Seq<Seq<usize>>, done: Seq<bool>, x: usize, n: nat)
    requires
        n <= adj.len(),
    ensures
        pending_in(adj, done, x, n) <= total_len(adj, n),
    decreases n,
{
    if n > 0 {
        lemma_pending_le_total(adj, done, x, (n - 1) as nat);
        lemma_occ_le_len(adj[n - 1], x);
    }
}

proof fn lemma_pending_zero(adj: Seq<Seq<usize>>, done: Seq<bool>, j: usize, n: nat, a: int)
    requires
        n <= adj.len(),
        pending_in(adj, done, j, n) == 0,
        0 <= a < n,
        !done[a],
    ensures
        occurrences(adj[a], j) == 0,
    decreases n,
{
    if a < n - 1 {
        lemma_pending_zero(adj, done, j, (n - 1) as nat, a);
    }
}

proof fn lemma_pending_pos(adj: Seq<Seq<usize>>, done: Seq<bool>, j: usize, n: nat) -> (a: int)
    requires
        n <= adj.len(),
        pending_in(adj, done, j, n) > 0,
    ensures
        0 <= a < n,
        !done[a],
        adj[a].contains(j),
    decreases n,
{
    if pending_in(adj, done, j, (n - 1) as nat) > 0 {
        lemma_pending_pos(adj, done, j, (n - 1) as nat)
    } else {
        lemma_occ_contains(adj[n - 1], j);
        (n - 1) as int
    }
}

proof fn lemma_pending_done(adj: Seq<Seq<usize>>, done: Seq<bool>, node: usize, y: usize, n: nat)
    requires
        n <= adj.len(),
        done.len() == adj.len(),
        node < adj.len(),
        !done[node as int],
    ensures
        pending_in(adj, done, y, n) == pending_in(adj, done.update(node as int, true), y, n) + if node < n {
            occurrences(adj[node as int], y)
        } else {
            0nat
        },
    decreases n,
{
    if n > 0 {
        lemma_pending_done(adj, done, node, y, (n - 1) as nat);
    }
}

proof fn lemma_distinct_push_bound(r: Seq<usize>, node: usize, n: nat)
    requires
        r.no_duplicates(),
        !r.contains(node),
        node < n,
        forall|i: int| 0 <= i < r.len() ==> #[trigger] r[i] < n,
    ensures
        r.len() + 1 <= n,
{
    let s = r.push(node);
    let ps = s.map_values(|x: usize| x as int);
    assert forall|a: int, b: int| 0 <= a < b < ps.len() implies ps[a] != ps[b] by {
        if b == r.len() {
            assert(r.contains(r[a]));
        }
    }
    crate::counting::lemma_distinct_in_range(ps, n as int);
}

/// A list without repetitions that holds each of `0..n` is at least `n` long.
proof fn lemma_covering_len(r: Seq<usize>, n: nat)
    requires
        n <= usize::MAX,
        forall|y: int| 0 <= y < n ==> #[trigger] r.contains(y as usize),
    ensures
        r.len() >= n,
{
    let pos = Seq::new(n, |y: int| r.index_of(y as usize));
    assert forall|i: int| 0 <= i < pos.len() implies 0 <= #[trigger] pos[i] < r.len() && r[pos[i]] == i as usize by {
        assert(r.contains(i as usize));
    }
    assert forall|a: int, b: int| 0 <= a < b < pos.len() implies pos[a] != pos[b] by {
        assert(r.contains(a as usize));
        assert(r.contains(b as usize));
        assert(r[pos[a]] == a as usize && r[pos[b]] == b as usize);
    }
    crate::counting::lemma_distinct_in_range(pos, r.len() as int);
}

/// A list of `n` distinct values below `n` holds each of them.
proof fn lemma_perm_contains(r: Seq<usize>, n: nat, i: usize)
    requires
        n <= usize::MAX,
        r.no_duplicates(),
        r.len() == n,
        forall|k: int| 0 <= k < r.len() ==> #[trigger] r[k] < n,
        i < n,
    ensures
        r.contains(i),
{
    if !r.contains(i) {
        let ps = r.map_values(|x: usize| if x < i { x as int } else { x - 1 });
        assert forall|k: int| 0 <= k < ps.len() implies 0 <= #[trigger] ps[k] < n - 1 by {
            assert(r[k] != i);
        }
        assert forall|a: int, b: int| 0 <= a < b < ps.len() implies ps[a] != ps[b] by {
            assert(r[a] != r[b]);
            assert(r[a] != i && r[b] != i);
        }
        crate::counting::lemma_distinct_in_range(ps, n - 1);
    }
}

proof fn lemma_order_of_result(names: Seq<Seq<char>>, adj: Seq<Seq<usize>>, r: Seq<usize>)
    requires
        names.len() <= usize::MAX,
        names.no_duplicates(),
        names.len() == adj.len(),
        r.no_duplicates(),
        r.len() == names.len(),
        forall|t: int| 0 <= t < r.len() ==> #[trigger] r[t] < names.len(),
        forall|a: int, k: int| 0 <= a < adj.len() && 0 <= k < adj[a].len() ==> #[trigger] adj[a][k] < adj.len(),
        forall|q: int, a: int|
            0 <= q < r.len() && 0 <= a < names.len() && #[trigger] adj[a].contains(#[trigger] r[q]) ==> r.take(q).contains(
                a as usize,
            ),
    ensures
        is_order(names, adj, r.map_values(|y: usize| names[y as int])),
{
    let o = r.map_values(|y: usize| names[y as int]);
    let n = names.len();
    assert forall|a: int, b: int| 0 <= a < b < o.len() implies o[a] != o[b] by {
        assert(r[a] != r[b]);
    }
    assert forall|i: int| 0 <= i < names.len() implies #[trigger] o.contains(names[i]) by {
        lemma_perm_contains(r, n, i as usize);
        let q = choose|q: int| 0 <= q < r.len() && r[q] == i as usize;
        assert(o[q] == names[r[q] as int]);
        assert(o[q] == names[i]);
    }
    assert forall|i: int, k: int| 0 <= i < adj.len() && 0 <= k < adj[i].len() implies comes_before(o, names[i], names[#[trigger] adj[i][k] as int]) by {
        let j = adj[i][k];
        lemma_perm_contains(r, n, j);
        let q = choose|q: int| 0 <= q < r.len() && r[q] == j;
        assert(adj[i].contains(r[q]));
        assert(r.take(q).contains(i as usize));
        let p = choose|p: int| 0 <= p < q && r.take(q)[p] == i as usize;
        assert(r[p] == i as usize);
        assert(o[p] == names[r[p] as int]);
        assert(o[q] == names[r[q] as int]);
        assert(o[p] == names[i] && o[q] == names[j as int]);
        assert(0 <= p < q < o.len());
    }
    assert(o.len() == names.len());
    assert(o.no_duplicates());
    assert(is_order(names, adj, o));
}

/// When every node left has a dependent left, no order exists.
proof fn lemma_stuck_no_order(names: Seq<Seq<char>>, adj: Seq<Seq<usize>>, done: Seq<bool>, n: nat, y0: int)
    requires
        n <= usize::MAX,
        names.len() == n,
        adj.len() == n,
        done.len() == n,
        names.no_duplicates(),
        0 <= y0 < n,
        !done[y0],
        forall|y: int| 0 <= y < n && !done[y] ==> #[trigger] pending_in(adj, done, y as usize, n) > 0,
    ensures
        !exists|o: Seq<Seq<char>>| #[trigger] is_order(names, adj, o),
{
    if exists|o: Seq<Seq<char>>| #[trigger] is_order(names, adj, o) {
        let o = choose|o: Seq<Seq<char>>| #[trigger] is_order(names, adj, o);
        lemma_no_left_before(names, adj, done, n, o, o.len());
        assert(o.contains(names[y0]));
        let q = choose|q: int| 0 <= q < o.len() && o[q] == names[y0];
        assert(!(o[q] == names[y0] && !done[y0]));
    }
}

/// No position of the order holds a node that is left.
proof fn lemma_no_left_before(names: Seq<Seq<char>>, adj: Seq<Seq<usize>>, done: Seq<bool>, n: nat, o: Seq<Seq<char>>, m: nat)
    requires
        n <= usize::MAX,
        names.len() == n,
        adj.len() == n,
        done.len() == n,
        names.no_duplicates(),
        is_order(names, adj, o),
        m <= o.len(),
        forall|y: int| 0 <= y < n && !done[y] ==> #[trigger] pending_in(adj, done, y as usize, n) > 0,
    ensures
        forall|q: int, y: int| 0 <= q < m && 0 <= y < n && !done[y] ==> #[trigger] o[q] != #[trigger] names[y],
    decreases m,
{
    if m > 0 {
        lemma_no_left_before(names, adj, done, n, o, (m - 1) as nat);
        let q = m - 1;
        assert forall|y: int| 0 <= y < n && !done[y] implies o[q] != #[trigger] names[y] by {
            if o[q] == names[y] {
                let a = lemma_pending_pos(adj, done, y as usize, n);
                let k = choose|k: int| 0 <= k < adj[a].len() && adj[a][k] == y as usize;
                assert(0 <= a < adj.len() && 0 <= k < adj[a].len());
                assert(adj[a][k] as int == y);
                assert(comes_before(o, names[a], names[adj[a][k] as int]));
                let (p, q2) = choose|p: int, q2: int|
                    0 <= p < q2 < o.len() && #[trigger] o[p] == names[a] && #[trigger] o[q2] == names[adj[a][k] as int];
                assert(o[q2] == names[y]);
                assert(q2 == q) by {
                    if q2 != q {
                        assert(o[q2] == o[q]);
                    }
                }
                assert(o[p] != names[a]);
            }
        }
    }
}

proof fn lemma_path_push(adj: Seq<Seq<usize>>, s: Seq<usize>, node: usize)
    requires
        path_ok(adj, s),
        s.len() > 0 ==> adj[s.last() as int].contains(node),
    ensures
        path_ok(adj, s.push(node)),
{
    let t = s.push(node);
    assert forall|p: int| 0 <= p < t.len() - 1 implies #[trigger] adj[t[p] as int].contains(t[p + 1]) by {
        if p < s.len() - 1 {
            assert(t[p] == s[p] && t[p + 1] == s[p + 1]);
        } else {
            assert(t[p] == s.last() && t[p + 1] == node);
        }
    }
}

proof fn lemma_cycle_from_path(names: Seq<Seq<char>>, adj: Seq<Seq<usize>>, s: Seq<usize>, start: int, dep: usize)
    requires
        0 <= start < s.len(),
        s[start] == dep,
        path_ok(adj, s),
        adj[s.last() as int].contains(dep),
        forall|p: int| 0 <= p < s.len() ==> #[trigger] s[p] < adj.len(),
        dep < adj.len(),
        names.len() == adj.len(),
    ensures
        is_cycle(names, adj, s.subrange(start, s.len() as int).push(dep).map_values(|y: usize| names[y as int])),
{
    let t = s.subrange(start, s.len() as int).push(dep);
    let c = t.map_values(|y: usize| names[y as int]);
    assert(t[0] == dep);
    assert(c[0] == names[dep as int]);
    assert(t.last() == dep);
    assert(c.last() == names[dep as int]);
    assert forall|k: int| 0 <= k < c.len() - 1 implies #[trigger] depends_on(names, adj, c[k], c[k + 1]) by {
        let i = t[k] as int;
        let j = t[k + 1] as int;
        if k < t.len() - 2 {
            assert(t[k] == s[start + k] && t[k + 1] == s[start + k + 1]);
            assert(adj[s[start + k] as int].contains(s[start + k + 1]));
        } else {
            assert(t[k] == s.last());
            assert(t[k + 1] == dep);
        }
        assert(adj[i].contains(j as usize));
        assert(c[k] == names[i] && c[k + 1] == names[j]);
        assert(0 <= i < adj.len() && 0 <= j < names.len() && adj[i].contains(j as usize) && names[i] == c[k]
            && names[j] == c[k + 1]);
    }
    assert(c.len() >= 2);
    assert(c[0] == c.last());
    assert(is_cycle(names, adj, c));
}

/// `v` occurs in `s` before position `p`.
pub open spec fn occurs_before(s: Seq<usize>, v: usize, p: int) -> bool {
    exists|q: int| 0 <= q < p && #[trigger] s[q] == v
}

/// Each node of `s` comes after every node it depends on.
pub open spec fn deps_first(adj: Seq<Seq<usize>>, s: Seq<usize>) -> bool {
    forall|p: int, k: int|
        0 <= p < s.len() && 0 <= k < adj[s[p] as int].len() ==> #[trigger] occurs_before(s, adj[s[p] as int][k], p)
}

/// Position `k + 1` of `pos` is past position `k`.
spec fn rises_at(pos: Seq<int>, k: int) -> bool {
    pos[k] < pos[k + 1]
}

/// A sequence that rises at each step ends past where it starts.
proof fn lemma_rising(pos: Seq<int>, m: int)
    requires
        1 <= m < pos.len(),
        forall|k: int| 0 <= k < pos.len() - 1 ==> #[trigger] rises_at(pos, k),
    ensures
        pos[0] < pos[m],
    decreases m,
{
    assert(rises_at(pos, m - 1));
    if m > 1 {
        lemma_rising(pos, m - 1);
    }
}

/// A cycle of dependencies leaves no order.
proof fn lemma_cycle_no_order(names: Seq<Seq<char>>, adj: Seq<Seq<usize>>, c: Seq<Seq<char>>)
    requires
        names.len() <= usize::MAX,
        is_cycle(names, adj, c),
    ensures
        !exists|o: Seq<Seq<char>>| #[trigger] is_order(names, adj, o),
{
    if exists|o: Seq<Seq<char>>| #[trigger] is_order(names, adj, o) {
        let o = choose|o: Seq<Seq<char>>| #[trigger] is_order(names, adj, o);
        let pos = Seq::new(c.len(), |k: int| o.index_of(c[k]));
        assert forall|k: int| 0 <= k < pos.len() - 1 implies #[trigger] rises_at(pos, k) by {
            assert(depends_on(names, adj, c[k], c[k + 1]));
            let (i, j) = choose|i: int, j: int|
                0 <= i < adj.len() && 0 <= j < names.len() && #[trigger] adj[i].contains(j as usize) && names[i] == c[k]
                    && #[trigger] names[j] == c[k + 1];
            let kk = choose|kk: int| 0 <= kk < adj[i].len() && adj[i][kk] == j as usize;
            assert(adj[i][kk] as int == j);
            assert(comes_before(o, names[i], names[adj[i][kk] as int]));
            let (p, q) = choose|p: int, q: int|
                0 <= p < q < o.len() && #[trigger] o[p] == names[i] && #[trigger] o[q] == names[adj[i][kk] as int];
            lemma_index_of_unique(o, p);
            lemma_index_of_unique(o, q);
            assert(pos[k] == p && pos[k + 1] == q);
        }
        lemma_rising(pos, c.len() - 1);
        assert(pos[0] == pos[c.len() - 1]);
    }
}

/// Extending a list keeps each of its old nodes after its dependencies.
proof fn lemma_deps_first_grow(adj: Seq<Seq<usize>>, s: Seq<usize>, t: Seq<usize>)
    requires
        deps_first(adj, s),
        s.len() <= t.len(),
        forall|q: int| 0 <= q < s.len() ==> t[q] == #[trigger] s[q],
    ensures
        forall|p: int, k: int|
            0 <= p < s.len() && 0 <= k < adj[t[p] as int].len() ==> #[trigger] occurs_before(t, adj[t[p] as int][k], p),
{
    assert forall|p: int, k: int| 0 <= p < s.len() && 0 <= k < adj[t[p] as int].len() implies #[trigger] occurs_before(
        t,
        adj[t[p] as int][k],
        p,
    ) by {
        assert(t[p] == s[p]);
        assert(occurs_before(s, adj[s[p] as int][k], p));
        let q = choose|q: int| 0 <= q < p && #[trigger] s[q] == adj[s[p] as int][k];
        assert(t[q] == s[q]);
    }
}

} // verus!
