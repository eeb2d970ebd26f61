//! Grammar analysis: NULLABLE, FIRST and FOLLOW sets as least fixpoints.
use vstd::prelude::*;
use crate::cfg::{ContextFreeGrammar, NonTerminalId, Symbol, TerminalId};
use crate::counting::{falses, falses2, lemma_falses_update, lemma_falses2_update};

verus! {

/// A set of non-terminals given by a vector of flags indexed by id.
pub open spec fn flags(v: Seq<bool>) -> spec_fn(int) -> bool {
    |n: int| 0 <= n < v.len() && v[n]
}

/// A relation between non-terminals and terminals given by a flag matrix.
pub open spec fn flags2(m: Seq<Vec<bool>>) -> spec_fn(int, int) -> bool {
    |n: int, t: int| 0 <= n < m.len() && 0 <= t < m[n]@.len() && m[n]@[t]
}

/// A symbol derives the empty string, given the nullable non-terminals `nul`.
pub open spec fn sym_nullable(s: Symbol, nul: spec_fn(int) -> bool) -> bool {
    match s {
        Symbol::Epsilon => true,
        Symbol::NonTerminal(n) => nul(n.0 as int),
        Symbol::Terminal(_) => false,
    }
}

/// Every symbol of `syms` derives the empty string.
pub open spec fn all_nullable(syms: Seq<Symbol>, nul: spec_fn(int) -> bool) -> bool {
    forall|k: int| 0 <= k < syms.len() ==> sym_nullable(#[trigger] syms[k], nul)
}

/// `nul` is closed under the NULLABLE rule: a production whose right-hand side
/// is all nullable makes its left-hand side nullable.
pub open spec fn nullable_closed(g: &ContextFreeGrammar, nul: spec_fn(int) -> bool) -> bool {
    forall|p: int|
        0 <= p < g.productions.len() && all_nullable(#[trigger] g.productions@[p].rhs@, nul)
            ==> nul(g.productions@[p].lhs.0 as int)
}

/// Every member of the flag set also satisfies `nul`.
pub open spec fn below(v: Seq<bool>, nul: spec_fn(int) -> bool) -> bool {
    forall|n: int| 0 <= n < v.len() && v[n] ==> #[trigger] nul(n)
}

/// `v` is the NULLABLE set of `g`: the least set closed under the NULLABLE rule.
pub open spec fn is_nullable_set(g: &ContextFreeGrammar, v: Seq<bool>) -> bool {
    &&& v.len() == g.non_terminals.len()
    &&& nullable_closed(g, flags(v))
    &&& forall|nul: spec_fn(int) -> bool| #[trigger] nullable_closed(g, nul) ==> below(v, nul)
}

pub(crate) fn all_false(n: usize) -> (v: Vec<bool>)
    ensures
        v.len() == n,
        forall|i: int| 0 <= i < n ==> !v@[i],
{
    let mut v: Vec<bool> = Vec::new();
    let mut i: usize = 0;
    while i < n
        invariant
            i <= n,
            v.len() == i,
            forall|j: int| 0 <= j < i ==> !v@[j],
        decreases n - i,
    {
        v.push(false);
        i = i + 1;
    }
    v
}

/// Whether every symbol of `rhs` is nullable under the flags `v`.
fn rhs_all_nullable(rhs: &Vec<Symbol>, v: &Vec<bool>) -> (res: bool)
    ensures
        res == all_nullable(rhs@, flags(v@)),
{
    let mut k: usize = 0;
    while k < rhs.len()
        invariant
            k <= rhs.len(),
            forall|j: int| 0 <= j < k ==> sym_nullable(#[trigger] rhs@[j], flags(v@)),
        decreases rhs.len() - k,
    {
        match rhs[k] {
            Symbol::Epsilon => {},
            Symbol::NonTerminal(n) => {
                if !(n.0 < v.len() && v[n.0]) {
                    assert(!sym_nullable(rhs@[k as int], flags(v@)));
                    return false;
                }
            },
            Symbol::Terminal(_) => {
                assert(!sym_nullable(rhs@[k as int], flags(v@)));
                return false;
            },
        }
        k = k + 1;
    }
    true
}

/// Computes the NULLABLE set (indexed by non-terminal id) by fixpoint iteration.
pub fn compute_nullable(cfg: &ContextFreeGrammar) -> (res: Vec<bool>)
    requires
        cfg.wf(),
    ensures
        is_nullable_set(cfg, res@),
{
    let n = cfg.non_terminals.len();
    let mut v = all_false(n);
    let mut changed = true;
    assert forall|nul: spec_fn(int) -> bool| #[trigger] nullable_closed(cfg, nul) implies below(
        v@,
        nul,
    ) by {}
    while changed
        invariant
            cfg.wf(),
            v.len() == n,
            n == cfg.non_terminals.len(),
            forall|nul: spec_fn(int) -> bool| #[trigger] nullable_closed(cfg, nul) ==> below(v@, nul),
            !changed ==> nullable_closed(cfg, flags(v@)),
        decreases falses(v@) + (if changed {
            1nat
        } else {
            0nat
        }),
    {
        changed = false;
        let ghost start = v@;
        let mut p: usize = 0;
        while p < cfg.productions.len()
            invariant
                cfg.wf(),
                v.len() == n,
                n == cfg.non_terminals.len(),
                p <= cfg.productions.len(),
                forall|nul: spec_fn(int) -> bool| #[trigger]
                    nullable_closed(cfg, nul) ==> below(v@, nul),
                falses(v@) <= falses(start),
                changed ==> falses(v@) < falses(start),
                !changed ==> v@ == start,
                !changed ==> forall|q: int|
                    0 <= q < p && all_nullable(#[trigger] cfg.productions@[q].rhs@, flags(v@))
                        ==> flags(v@)(cfg.productions@[q].lhs.0 as int),
            decreases cfg.productions.len() - p,
        {
            let lhs = cfg.productions[p].lhs.0;
            assert(lhs < n) by {
                assert(cfg.productions@[p as int].lhs.0 < cfg.non_terminals.len());
            }
            if rhs_all_nullable(&cfg.productions[p].rhs, &v) && !v[lhs] {
                let ghost before = v@;
                proof {
                    lemma_falses_update(v@, lhs as int);
                    assert forall|nul: spec_fn(int) -> bool| #[trigger]
                        nullable_closed(cfg, nul) implies below(before.update(lhs as int, true), nul) by {
                        assert(below(before, nul));
                        let rhs = cfg.productions@[p as int].rhs@;
                        assert forall|k: int| 0 <= k < rhs.len() implies sym_nullable(
                            #[trigger] rhs[k],
                            nul,
                        ) by {
                            assert(sym_nullable(rhs[k], flags(before)));
                        }
                        assert(all_nullable(cfg.productions@[p as int].rhs@, nul));
                    }
                }
                v.set(lhs, true);
                changed = true;
            }
            p = p + 1;
        }
    }
    v
}


/// Sets entry `(i, j)` of a flag matrix.
pub(crate) fn set_flag2(m: &mut Vec<Vec<bool>>, i: usize, j: usize)
    requires
        i < old(m).len(),
        j < old(m)@[i as int]@.len(),
    ensures
        final(m)@.len() == old(m)@.len(),
        forall|k: int| 0 <= k < old(m)@.len() && k != i ==> final(m)@[k] == old(m)@[k],
        final(m)@[i as int]@ == old(m)@[i as int]@.update(j as int, true),
{
    let mut row = m[i].clone();
    assert(row@ =~= old(m)@[i as int]@);
    row.set(j, true);
    m.set(i, row);
}

/// A matrix with `rows` rows of `cols` false flags.
pub(crate) fn false_matrix(rows: usize, cols: usize) -> (m: Vec<Vec<bool>>)
    ensures
        m.len() == rows,
        forall|i: int| 0 <= i < rows ==> (#[trigger] m@[i]).len() == cols,
        forall|i: int, j: int| 0 <= i < rows && 0 <= j < cols ==> !m@[i]@[j],
{
    let mut m: Vec<Vec<bool>> = Vec::new();
    let mut i: usize = 0;
    while i < rows
        invariant
            i <= rows,
            m.len() == i,
            forall|k: int| 0 <= k < i ==> (#[trigger] m@[k]).len() == cols,
            forall|k: int, j: int| 0 <= k < i && 0 <= j < cols ==> !m@[k]@[j],
        decreases rows - i,
    {
        m.push(all_false(cols));
        i = i + 1;
    }
    m
}


/// The contribution of one symbol to a FIRST set: a terminal contributes itself,
/// a non-terminal contributes its FIRST set under `fr`.
pub open spec fn first_contrib(s: Symbol, fr: spec_fn(int, int) -> bool, t: int) -> bool {
    match s {
        Symbol::Terminal(x) => x.0 == t,
        Symbol::NonTerminal(b) => fr(b.0 as int, t),
        Symbol::Epsilon => false,
    }
}

/// `t` is in FIRST(`syms`): some symbol after a nullable prefix contributes `t`.
pub open spec fn in_first_of(
    syms: Seq<Symbol>,
    nul: spec_fn(int) -> bool,
    fr: spec_fn(int, int) -> bool,
    t: int,
) -> bool {
    exists|i: int|
        0 <= i < syms.len() && all_nullable(syms.take(i), nul) && #[trigger] first_contrib(
            syms[i],
            fr,
            t,
        )
}

/// `fr` is closed under the FIRST rule: FIRST of a right-hand side is part of
/// FIRST of its left-hand side.
pub open spec fn first_closed(
    g: &ContextFreeGrammar,
    nul: spec_fn(int) -> bool,
    fr: spec_fn(int, int) -> bool,
) -> bool {
    forall|p: int, t: int|
        #![trigger in_first_of(g.productions@[p].rhs@, nul, fr, t)]
        0 <= p < g.productions.len() && in_first_of(g.productions@[p].rhs@, nul, fr, t) ==> fr(
            g.productions@[p].lhs.0 as int,
            t,
        )
}

/// Every entry of the flag matrix also satisfies `fr`.
pub open spec fn below2(m: Seq<Vec<bool>>, fr: spec_fn(int, int) -> bool) -> bool {
    forall|n: int, t: int|
        0 <= n < m.len() && 0 <= t < m[n]@.len() && #[trigger] m[n]@[t] ==> fr(n, t)
}

/// Row shape of a FIRST or FOLLOW matrix: one row per non-terminal, `cols` columns.
pub open spec fn matrix_shape(m: Seq<Vec<bool>>, rows: nat, cols: nat) -> bool {
    &&& m.len() == rows
    &&& forall|n: int| 0 <= n < m.len() ==> (#[trigger] m[n])@.len() == cols
}

/// `m` is the FIRST relation of `g` under the nullable set `nul`: the least relation
/// closed under the FIRST rule (one row per non-terminal, one column per terminal).
pub open spec fn is_first_sets(g: &ContextFreeGrammar, nul: spec_fn(int) -> bool, m: Seq<Vec<bool>>) -> bool {
    &&& matrix_shape(m, g.non_terminals.len() as nat, g.terminals.len() as nat)
    &&& first_closed(g, nul, flags2(m))
    &&& forall|fr: spec_fn(int, int) -> bool| #[trigger] first_closed(g, nul, fr) ==> below2(m, fr)
}

/// A prefix with a non-nullable symbol stays non-nullable when extended.
pub proof fn lemma_take_not_nullable(s: Seq<Symbol>, nul: spec_fn(int) -> bool, i: int, j: int)
    requires
        0 <= i <= j <= s.len(),
        !all_nullable(s.take(i), nul),
    ensures
        !all_nullable(s.take(j), nul),
{
    let k = choose|k: int| 0 <= k < s.take(i).len() && !sym_nullable(#[trigger] s.take(i)[k], nul);
    assert(s.take(j)[k] == s[k]);
}

/// A nullable prefix followed by a nullable symbol is a nullable prefix.
pub proof fn lemma_take_nullable_extend(s: Seq<Symbol>, nul: spec_fn(int) -> bool, i: int)
    requires
        0 <= i < s.len(),
        all_nullable(s.take(i), nul),
        sym_nullable(s[i], nul),
    ensures
        all_nullable(s.take(i + 1), nul),
{
    assert forall|k: int| 0 <= k < s.take(i + 1).len() implies sym_nullable(
        #[trigger] s.take(i + 1)[k],
        nul,
    ) by {
        if k < i {
            assert(s.take(i)[k] == s[k]);
        }
    }
}

/// A nullable prefix followed by a non-nullable symbol is not a nullable prefix.
pub proof fn lemma_take_nullable_stop(s: Seq<Symbol>, nul: spec_fn(int) -> bool, i: int)
    requires
        0 <= i < s.len(),
        !sym_nullable(s[i], nul),
    ensures
        !all_nullable(s.take(i + 1), nul),
{
    assert(s.take(i + 1)[i] == s[i]);
}

/// Computes the FIRST relation, given the nullable flags, by fixpoint iteration.
pub fn compute_first(cfg: &ContextFreeGrammar, nullable: &Vec<bool>) -> (res: Vec<Vec<bool>>)
    requires
        cfg.wf(),
        nullable.len() == cfg.non_terminals.len(),
    ensures
        is_first_sets(cfg, flags(nullable@), res@),
{
    let ghost nul = flags(nullable@);
    let nt = cfg.non_terminals.len();
    let nterm = cfg.terminals.len();
    let mut m = false_matrix(nt, nterm);
    let mut changed = true;
    assert forall|fr: spec_fn(int, int) -> bool| #[trigger] first_closed(cfg, nul, fr) implies below2(
        m@,
        fr,
    ) by {}
    while changed
        invariant
            cfg.wf(),
            nul == flags(nullable@),
            nullable.len() == nt,
            nt == cfg.non_terminals.len(),
            nterm == cfg.terminals.len(),
            matrix_shape(m@, nt as nat, nterm as nat),
            forall|fr: spec_fn(int, int) -> bool| #[trigger] first_closed(cfg, nul, fr) ==> below2(m@, fr),
            !changed ==> first_closed(cfg, nul, flags2(m@)),
        decreases falses2(m@) + (if changed {
            1nat
        } else {
            0nat
        }),
    {
        changed = false;
        let ghost start = m@;
        let mut p: usize = 0;
        while p < cfg.productions.len()
            invariant
                cfg.wf(),
                nul == flags(nullable@),
                nullable.len() == nt,
                nt == cfg.non_terminals.len(),
                nterm == cfg.terminals.len(),
                p <= cfg.productions.len(),
                matrix_shape(m@, nt as nat, nterm as nat),
                forall|fr: spec_fn(int, int) -> bool| #[trigger]
                    first_closed(cfg, nul, fr) ==> below2(m@, fr),
                falses2(m@) <= falses2(start),
                changed ==> falses2(m@) < falses2(start),
                !changed ==> m@ == start,
                !changed ==> forall|q: int, t: int|
                    #![trigger in_first_of(cfg.productions@[q].rhs@, nul, flags2(m@), t)]
                    0 <= q < p && in_first_of(cfg.productions@[q].rhs@, nul, flags2(m@), t)
                        ==> flags2(m@)(cfg.productions@[q].lhs.0 as int, t),
            decreases cfg.productions.len() - p,
        {
            let lhs = cfg.productions[p].lhs.0;
            let ghost rhs = cfg.productions@[p as int].rhs@;
            assert(lhs < nt) by {
                assert(cfg.productions@[p as int].lhs.0 < cfg.non_terminals.len());
            }
            let mut i: usize = 0;
            let mut go = true;
            while i < cfg.productions[p].rhs.len() && go
                invariant
                    cfg.wf(),
                    nul == flags(nullable@),
                    nullable.len() == nt,
                    nt == cfg.non_terminals.len(),
                    nterm == cfg.terminals.len(),
                    p < cfg.productions.len(),
                    rhs == cfg.productions@[p as int].rhs@,
                    lhs == cfg.productions@[p as int].lhs.0,
                    lhs < nt,
                    i <= rhs.len(),
                    matrix_shape(m@, nt as nat, nterm as nat),
                    forall|fr: spec_fn(int, int) -> bool| #[trigger]
                        first_closed(cfg, nul, fr) ==> below2(m@, fr),
                    falses2(m@) <= falses2(start),
                    changed ==> falses2(m@) < falses2(start),
                    !changed ==> m@ == start,
                    !changed ==> forall|q: int, t: int|
                        #![trigger in_first_of(cfg.productions@[q].rhs@, nul, flags2(m@), t)]
                        0 <= q < p && in_first_of(cfg.productions@[q].rhs@, nul, flags2(m@), t)
                            ==> flags2(m@)(cfg.productions@[q].lhs.0 as int, t),
                    go ==> all_nullable(rhs.take(i as int), nul),
                    !go ==> !all_nullable(rhs.take(i as int), nul),
                    !changed ==> forall|j: int, t: int|
                        0 <= j < i && all_nullable(rhs.take(j), nul) && #[trigger] first_contrib(
                            rhs[j],
                            flags2(m@),
                            t,
                        ) ==> flags2(m@)(lhs as int, t),
                decreases rhs.len() - i,
            {
                assert(symbol_ok(rhs[i as int], nterm as nat, nt as nat)) by {
                    assert(crate::cfg::symbol_in_range(cfg.productions@[p as int].rhs@[i as int], cfg.terminals.len() as nat, cfg.non_terminals.len() as nat));
                }
                match cfg.productions[p].rhs[i] {
                    Symbol::Terminal(x) => {
                        let t = x.0;
                        if !m[lhs][t] {
                            let ghost before = m@;
                            set_flag2(&mut m, lhs, t);
                            proof {
                                lemma_falses2_update(before, m@, lhs as int, t as int);
                                assert forall|fr: spec_fn(int, int) -> bool| #[trigger]
                                    first_closed(cfg, nul, fr) implies below2(m@, fr) by {
                                    assert(below2(before, fr));
                                    assert(first_contrib(rhs[i as int], fr, t as int));
                                    assert(in_first_of(rhs, nul, fr, t as int));
                                }
                            }
                            changed = true;
                        }
                        proof {
                            lemma_take_nullable_stop(rhs, nul, i as int);
                        }
                        go = false;
                    },
                    Symbol::NonTerminal(b) => {
                        let bi = b.0;
                        let mut t: usize = 0;
                        while t < nterm
                            invariant
                                cfg.wf(),
                                nul == flags(nullable@),
                                nullable.len() == nt,
                                nt == cfg.non_terminals.len(),
                                nterm == cfg.terminals.len(),
                                p < cfg.productions.len(),
                                rhs == cfg.productions@[p as int].rhs@,
                                lhs == cfg.productions@[p as int].lhs.0,
                                lhs < nt,
                                bi < nt,
                                i < rhs.len(),
                                go,
                                rhs[i as int] == Symbol::NonTerminal(NonTerminalId(bi)),
                                t <= nterm,
                                matrix_shape(m@, nt as nat, nterm as nat),
                                forall|fr: spec_fn(int, int) -> bool| #[trigger]
                                    first_closed(cfg, nul, fr) ==> below2(m@, fr),
                                falses2(m@) <= falses2(start),
                                changed ==> falses2(m@) < falses2(start),
                                !changed ==> m@ == start,
                                all_nullable(rhs.take(i as int), nul),
                                !changed ==> forall|q: int, t: int|
                                    #![trigger in_first_of(cfg.productions@[q].rhs@, nul, flags2(m@), t)]
                                    0 <= q < p && in_first_of(cfg.productions@[q].rhs@, nul, flags2(m@), t)
                                        ==> flags2(m@)(cfg.productions@[q].lhs.0 as int, t),
                                !changed ==> forall|j: int, t: int|
                                    0 <= j < i && all_nullable(rhs.take(j), nul) && #[trigger] first_contrib(
                                        rhs[j],
                                        flags2(m@),
                                        t,
                                    ) ==> flags2(m@)(lhs as int, t),
                                !changed ==> forall|u: int|
                                    0 <= u < t && #[trigger] m@[bi as int]@[u] ==> m@[lhs as int]@[u],
                            decreases nterm - t,
                        {
                            if m[bi][t] && !m[lhs][t] {
                                let ghost before = m@;
                                set_flag2(&mut m, lhs, t);
                                proof {
                                    lemma_falses2_update(before, m@, lhs as int, t as int);
                                    assert forall|fr: spec_fn(int, int) -> bool| #[trigger]
                                        first_closed(cfg, nul, fr) implies below2(m@, fr) by {
                                        assert(below2(before, fr));
                                        assert(fr(bi as int, t as int));
                                        assert(first_contrib(rhs[i as int], fr, t as int));
                                        assert(in_first_of(rhs, nul, fr, t as int));
                                    }
                                }
                                changed = true;
                            }
                            t = t + 1;
                        }
                        if !nullable[bi] {
                            proof {
                                lemma_take_nullable_stop(rhs, nul, i as int);
                            }
                            go = false;
                        } else {
                            proof {
                                lemma_take_nullable_extend(rhs, nul, i as int);
                            }
                        }
                    },
                    Symbol::Epsilon => {
                        proof {
                            lemma_take_nullable_extend(rhs, nul, i as int);
                        }
                    },
                }
                proof {
                    if !changed {
                        assert forall|j: int, t: int|
                            0 <= j < i + 1 && all_nullable(rhs.take(j), nul) && #[trigger] first_contrib(
                                rhs[j],
                                flags2(m@),
                                t,
                            ) implies flags2(m@)(lhs as int, t) by {
                            if j == i {
                                match rhs[j] {
                                    Symbol::NonTerminal(b) => {
                                        assert(m@[b.0 as int]@[t]);
                                    },
                                    _ => {},
                                }
                            }
                        }
                    }
                }
                i = i + 1;
            }
            proof {
                if !changed {
                    assert forall|t: int| in_first_of(rhs, nul, flags2(m@), t) implies flags2(m@)(
                        lhs as int,
                        t,
                    ) by {
                        let j = choose|j: int|
                            0 <= j < rhs.len() && all_nullable(rhs.take(j), nul)
                                && #[trigger] first_contrib(rhs[j], flags2(m@), t);
                        if j >= i {
                            lemma_take_not_nullable(rhs, nul, i as int, j);
                        }
                    }
                }
            }
            p = p + 1;
        }
    }
    m
}

/// Range condition of a single symbol.
pub open spec fn symbol_ok(sym: Symbol, n_terms: nat, n_nts: nat) -> bool {
    crate::cfg::symbol_in_range(sym, n_terms, n_nts)
}


/// All symbols of `syms` refer to existing symbols.
pub open spec fn syms_ok(syms: Seq<Symbol>, n_terms: nat, n_nts: nat) -> bool {
    forall|k: int| 0 <= k < syms.len() ==> symbol_ok(#[trigger] syms[k], n_terms, n_nts)
}

/// `row |= src`, entry by entry.
fn or_row(row: &mut Vec<bool>, src: &Vec<bool>)
    requires
        old(row).len() == src.len(),
    ensures
        final(row).len() == old(row).len(),
        forall|u: int| 0 <= u < src.len() ==> (final(row)@[u] == (old(row)@[u] || src@[u])),
{
    let ghost orig = row@;
    let mut t: usize = 0;
    while t < src.len()
        invariant
            t <= src.len(),
            row.len() == src.len(),
            orig.len() == src.len(),
            forall|u: int| 0 <= u < src.len() ==> #[trigger] row@[u] == (orig[u] || (u < t && src@[u])),
        decreases src.len() - t,
    {
        if src[t] {
            row.set(t, true);
        }
        t = t + 1;
    }
}

/// FIRST(`syms[from..]`) as flags over the terminals, together with whether
/// `syms[from..]` derives the empty string.
pub fn first_of_suffix(
    syms: &[Symbol],
    from: usize,
    nullable: &Vec<bool>,
    first: &Vec<Vec<bool>>,
    nterm: usize,
) -> (res: (Vec<bool>, bool))
    requires
        from <= syms.len(),
        matrix_shape(first@, nullable.len() as nat, nterm as nat),
        syms_ok(syms@, nterm as nat, nullable.len() as nat),
    ensures
        res.0.len() == nterm,
        forall|t: int|
            0 <= t < nterm ==> (res.0@[t] == in_first_of(
                #[trigger] syms@.skip(from as int),
                flags(nullable@),
                flags2(first@),
                t,
            )),
        res.1 == all_nullable(syms@.skip(from as int), flags(nullable@)),
{
    let ghost nul = flags(nullable@);
    let ghost fr = flags2(first@);
    let ghost s = syms@.skip(from as int);
    let mut row = all_false(nterm);
    let mut i: usize = from;
    let mut go = true;
    while i < syms.len() && go
        invariant
            from <= i <= syms.len(),
            s == syms@.skip(from as int),
            nul == flags(nullable@),
            fr == flags2(first@),
            matrix_shape(first@, nullable.len() as nat, nterm as nat),
            syms_ok(syms@, nterm as nat, nullable.len() as nat),
            row.len() == nterm,
            go ==> all_nullable(s.take(i - from), nul),
            !go ==> !all_nullable(s.take(i - from), nul),
            forall|t: int|
                0 <= t < nterm ==> (row@[t] <==> exists|j: int|
                    0 <= j < i - from && all_nullable(s.take(j), nul) && #[trigger] first_contrib(
                        s[j],
                        fr,
                        t,
                    )),
        decreases syms.len() - i,
    {
        let k = (i - from) as usize;
        assert(s[k as int] == syms@[i as int]);
        assert(symbol_ok(syms@[i as int], nterm as nat, nullable.len() as nat));
        let ghost row0 = row@;
        match syms[i] {
            Symbol::Terminal(x) => {
                row.set(x.0, true);
                proof {
                    lemma_take_nullable_stop(s, nul, k as int);
                }
                go = false;
                assert(s[k as int] == Symbol::Terminal(x));
                assert forall|u: int| 0 <= u < nterm implies (row@[u] <==> (row0[u] || first_contrib(
                    s[k as int],
                    fr,
                    u,
                ))) by {
                    assert(row@ == row0.update(x.0 as int, true));
                    assert(first_contrib(s[k as int], fr, u) == (x.0 as int == u));
                    if u == x.0 as int {
                        assert(row@[u]);
                    } else {
                        assert(row@[u] == row0[u]);
                    }
                }
            },
            Symbol::NonTerminal(b) => {
                assert(s[k as int] == Symbol::NonTerminal(b));
                assert(first@[b.0 as int]@.len() == nterm);
                or_row(&mut row, &first[b.0]);
                assert forall|u: int| 0 <= u < nterm implies (row@[u] <==> (row0[u] || first_contrib(
                    s[k as int],
                    fr,
                    u,
                ))) by {
                    assert(first_contrib(s[k as int], fr, u) == first@[b.0 as int]@[u]);
                }
                if !nullable[b.0] {
                    proof {
                        lemma_take_nullable_stop(s, nul, k as int);
                    }
                    go = false;
                } else {
                    proof {
                        lemma_take_nullable_extend(s, nul, k as int);
                    }
                }
            },
            Symbol::Epsilon => {
                proof {
                    lemma_take_nullable_extend(s, nul, k as int);
                }
                assert forall|u: int| 0 <= u < nterm implies (row@[u] <==> (row0[u] || first_contrib(
                    s[k as int],
                    fr,
                    u,
                ))) by {}
            },
        }
        proof {
            assert forall|t: int| 0 <= t < nterm implies (row@[t] <==> exists|j: int|
                0 <= j < k + 1 && all_nullable(s.take(j), nul) && #[trigger] first_contrib(
                    s[j],
                    fr,
                    t,
                )) by {
                if row@[t] && !row0[t] {
                    assert(first_contrib(s[k as int], fr, t));
                }
                if exists|j: int|
                    0 <= j < k + 1 && all_nullable(s.take(j), nul) && #[trigger] first_contrib(
                        s[j],
                        fr,
                        t,
                    ) {
                    let j = choose|j: int|
                        0 <= j < k + 1 && all_nullable(s.take(j), nul) && #[trigger] first_contrib(
                            s[j],
                            fr,
                            t,
                        );
                    if j < k {
                        assert(row0[t]);
                    }
                }
            }
        }
        i = i + 1;
    }
    proof {
        assert forall|t: int| 0 <= t < nterm implies (row@[t] == in_first_of(s, nul, fr, t)) by {
            if in_first_of(s, nul, fr, t) {
                let j = choose|j: int|
                    0 <= j < s.len() && all_nullable(s.take(j), nul) && #[trigger] first_contrib(s[j], fr, t);
                if j >= i - from {
                    lemma_take_not_nullable(s, nul, i - from, j);
                }
            }
        }
        if go {
            assert(s.take(i - from) =~= s);
        } else {
            lemma_take_not_nullable(s, nul, i - from, s.len() as int);
            assert(s.take(s.len() as int) =~= s);
        }
    }
    (row, go)
}


/// Only existing terminals are in FIRST of a well-formed symbol string.
pub proof fn lemma_in_first_range(
    syms: Seq<Symbol>,
    nullable: Seq<bool>,
    first: Seq<Vec<bool>>,
    nterm: nat,
    t: int,
)
    requires
        matrix_shape(first, nullable.len(), nterm),
        syms_ok(syms, nterm, nullable.len()),
        in_first_of(syms, flags(nullable), flags2(first), t),
    ensures
        0 <= t < nterm,
{
    let j = choose|j: int|
        0 <= j < syms.len() && all_nullable(syms.take(j), flags(nullable)) && #[trigger] first_contrib(
            syms[j],
            flags2(first),
            t,
        );
    assert(symbol_ok(syms[j], nterm, nullable.len()));
    match syms[j] {
        Symbol::NonTerminal(b) => {
            assert(first[b.0 as int]@.len() == nterm);
        },
        _ => {},
    }
}

/// One instance of the FOLLOW rule for the symbol at position `i` of production `p`:
/// for `A -> α B β`, FIRST(β) is in FOLLOW(B), and FOLLOW(A) is in FOLLOW(B) when β
/// derives the empty string.
pub open spec fn follow_rule(
    g: &ContextFreeGrammar,
    nul: spec_fn(int) -> bool,
    fr: spec_fn(int, int) -> bool,
    fo: spec_fn(int, int) -> bool,
    p: int,
    i: int,
    t: int,
) -> bool {
    match g.productions@[p].rhs@[i] {
        Symbol::NonTerminal(b) => {
            let beta = g.productions@[p].rhs@.skip(i + 1);
            &&& in_first_of(beta, nul, fr, t) ==> fo(b.0 as int, t)
            &&& all_nullable(beta, nul) && fo(g.productions@[p].lhs.0 as int, t) ==> fo(b.0 as int, t)
        },
        _ => true,
    }
}

/// `fo` contains the end marker for the start symbol and is closed under the FOLLOW rule.
pub open spec fn follow_closed(
    g: &ContextFreeGrammar,
    nul: spec_fn(int) -> bool,
    fr: spec_fn(int, int) -> bool,
    fo: spec_fn(int, int) -> bool,
    end: int,
) -> bool {
    &&& fo(g.start_symbol.0 as int, end)
    &&& forall|p: int, i: int, t: int|
        0 <= p < g.productions.len() && 0 <= i < g.productions@[p].rhs.len() ==> #[trigger] follow_rule(
            g,
            nul,
            fr,
            fo,
            p,
            i,
            t,
        )
}

/// `m` is the FOLLOW relation of `g`: the least relation closed under the FOLLOW rule
/// (one row per non-terminal; one column per terminal plus the end marker column).
pub open spec fn is_follow_sets(
    g: &ContextFreeGrammar,
    nul: spec_fn(int) -> bool,
    fr: spec_fn(int, int) -> bool,
    m: Seq<Vec<bool>>,
) -> bool {
    &&& matrix_shape(m, g.non_terminals.len() as nat, (g.terminals.len() + 1) as nat)
    &&& follow_closed(g, nul, fr, flags2(m), g.terminals.len() as int)
    &&& forall|fo: spec_fn(int, int) -> bool| #[trigger]
        follow_closed(g, nul, fr, fo, g.terminals.len() as int) ==> below2(m, fo)
}

/// Computes the FOLLOW relation from the nullable flags and the FIRST relation.
pub fn compute_follow(cfg: &ContextFreeGrammar, nullable: &Vec<bool>, first: &Vec<Vec<bool>>) -> (res: Vec<Vec<bool>>)
    requires
        cfg.wf(),
        nullable.len() == cfg.non_terminals.len(),
        matrix_shape(first@, cfg.non_terminals.len() as nat, cfg.terminals.len() as nat),
    ensures
        is_follow_sets(cfg, flags(nullable@), flags2(first@), res@),
{
    let ghost nul = flags(nullable@);
    let ghost fr = flags2(first@);
    let nt = cfg.non_terminals.len();
    let nterm = cfg.terminals.len();
    let ghost end = nterm as int;
    let mut m = false_matrix(nt, nterm + 1);
    let start = cfg.start_symbol.0;
    set_flag2(&mut m, start, nterm);
    assert forall|fo: spec_fn(int, int) -> bool| #[trigger]
        follow_closed(cfg, nul, fr, fo, end) implies below2(m@, fo) by {
        assert forall|n: int, t: int|
            0 <= n < m@.len() && 0 <= t < m@[n]@.len() && #[trigger] m@[n]@[t] implies fo(n, t) by {
            if n != start as int {
                assert(!m@[n]@[t]);
            }
        }
    }
    let mut changed = true;
    while changed
        invariant
            cfg.wf(),
            nul == flags(nullable@),
            fr == flags2(first@),
            nullable.len() == nt,
            nt == cfg.non_terminals.len(),
            nterm == cfg.terminals.len(),
            end == nterm,
            matrix_shape(first@, nt as nat, nterm as nat),
            matrix_shape(m@, nt as nat, (nterm + 1) as nat),
            m@[cfg.start_symbol.0 as int]@[nterm as int],
            forall|fo: spec_fn(int, int) -> bool| #[trigger]
                follow_closed(cfg, nul, fr, fo, end) ==> below2(m@, fo),
            !changed ==> follow_closed(cfg, nul, fr, flags2(m@), end),
        decreases falses2(m@) + (if changed {
            1nat
        } else {
            0nat
        }),
    {
        changed = false;
        let ghost start_m = m@;
        let mut p: usize = 0;
        while p < cfg.productions.len()
            invariant
                cfg.wf(),
                nul == flags(nullable@),
                fr == flags2(first@),
                nullable.len() == nt,
                nt == cfg.non_terminals.len(),
                nterm == cfg.terminals.len(),
                end == nterm,
                matrix_shape(first@, nt as nat, nterm as nat),
                matrix_shape(m@, nt as nat, (nterm + 1) as nat),
                m@[cfg.start_symbol.0 as int]@[nterm as int],
                p <= cfg.productions.len(),
                forall|fo: spec_fn(int, int) -> bool| #[trigger]
                    follow_closed(cfg, nul, fr, fo, end) ==> below2(m@, fo),
                falses2(m@) <= falses2(start_m),
                changed ==> falses2(m@) < falses2(start_m),
                !changed ==> m@ == start_m,
                !changed ==> forall|q: int, i: int, t: int|
                    0 <= q < p && 0 <= i < cfg.productions@[q].rhs.len() ==> #[trigger] follow_rule(
                        cfg,
                        nul,
                        fr,
                        flags2(start_m),
                        q,
                        i,
                        t,
                    ),
            decreases cfg.productions.len() - p,
        {
            let lhs = cfg.productions[p].lhs.0;
            let ghost rhs = cfg.productions@[p as int].rhs@;
            assert(lhs < nt) by {
                assert(cfg.productions@[p as int].lhs.0 < cfg.non_terminals.len());
            }
            assert(syms_ok(rhs, nterm as nat, nt as nat)) by {
                assert forall|k: int| 0 <= k < rhs.len() implies symbol_ok(#[trigger] rhs[k], nterm as nat, nt as nat) by {
                    assert(crate::cfg::symbol_in_range(cfg.productions@[p as int].rhs@[k], cfg.terminals.len() as nat, cfg.non_terminals.len() as nat));
                }
            }
            let mut i: usize = 0;
            while i < cfg.productions[p].rhs.len()
                invariant
                    cfg.wf(),
                    nul == flags(nullable@),
                    fr == flags2(first@),
                    nullable.len() == nt,
                    nt == cfg.non_terminals.len(),
                    nterm == cfg.terminals.len(),
                    end == nterm,
                    matrix_shape(first@, nt as nat, nterm as nat),
                    matrix_shape(m@, nt as nat, (nterm + 1) as nat),
                    m@[cfg.start_symbol.0 as int]@[nterm as int],
                    p < cfg.productions.len(),
                    rhs == cfg.productions@[p as int].rhs@,
                    syms_ok(rhs, nterm as nat, nt as nat),
                    lhs == cfg.productions@[p as int].lhs.0,
                    lhs < nt,
                    i <= rhs.len(),
                    forall|fo: spec_fn(int, int) -> bool| #[trigger]
                        follow_closed(cfg, nul, fr, fo, end) ==> below2(m@, fo),
                    falses2(m@) <= falses2(start_m),
                    changed ==> falses2(m@) < falses2(start_m),
                    !changed ==> m@ == start_m,
                    !changed ==> forall|q: int, j: int, t: int|
                        0 <= q < p && 0 <= j < cfg.productions@[q].rhs.len() ==> #[trigger] follow_rule(
                            cfg,
                            nul,
                            fr,
                            flags2(start_m),
                            q,
                            j,
                            t,
                        ),
                    !changed ==> forall|j: int, t: int|
                        0 <= j < i ==> #[trigger] follow_rule(cfg, nul, fr, flags2(start_m), p as int, j, t),
                decreases rhs.len() - i,
            {
                assert(symbol_ok(rhs[i as int], nterm as nat, nt as nat));
                if let Symbol::NonTerminal(b) = cfg.productions[p].rhs[i] {
                    let bi = b.0;
                    let ghost beta = rhs.skip(i + 1);
                    let (row, bnull) = first_of_suffix(cfg.productions[p].rhs.as_slice(), i + 1, nullable, first, nterm);
                    let mut t: usize = 0;
                    while t < nterm
                        invariant
                            cfg.wf(),
                            nul == flags(nullable@),
                            fr == flags2(first@),
                            nullable.len() == nt,
                            nt == cfg.non_terminals.len(),
                            nterm == cfg.terminals.len(),
                            end == nterm,
                            matrix_shape(m@, nt as nat, (nterm + 1) as nat),
                            m@[cfg.start_symbol.0 as int]@[nterm as int],
                            p < cfg.productions.len(),
                            rhs == cfg.productions@[p as int].rhs@,
                            lhs == cfg.productions@[p as int].lhs.0,
                            i < rhs.len(),
                            rhs[i as int] == Symbol::NonTerminal(NonTerminalId(bi)),
                            bi < nt,
                            beta == rhs.skip(i + 1),
                            row.len() == nterm,
                            forall|u: int| 0 <= u < nterm ==> (row@[u] == in_first_of(#[trigger] rhs.skip(i + 1), nul, fr, u)),
                            t <= nterm,
                            forall|fo: spec_fn(int, int) -> bool| #[trigger]
                                follow_closed(cfg, nul, fr, fo, end) ==> below2(m@, fo),
                            falses2(m@) <= falses2(start_m),
                            changed ==> falses2(m@) < falses2(start_m),
                            !changed ==> m@ == start_m,
                            !changed ==> forall|u: int| 0 <= u < t && row@[u] ==> #[trigger] m@[bi as int]@[u],
                            !changed ==> forall|q: int, j: int, t: int|
                                0 <= q < p && 0 <= j < cfg.productions@[q].rhs.len() ==> #[trigger] follow_rule(
                                    cfg,
                                    nul,
                                    fr,
                                    flags2(start_m),
                                    q,
                                    j,
                                    t,
                                ),
                            !changed ==> forall|j: int, t: int|
                                0 <= j < i ==> #[trigger] follow_rule(cfg, nul, fr, flags2(start_m), p as int, j, t),
                        decreases nterm - t,
                    {
                        if row[t] && !m[bi][t] {
                            let ghost before = m@;
                            set_flag2(&mut m, bi, t);
                            proof {
                                lemma_falses2_update(before, m@, bi as int, t as int);
                                assert forall|fo: spec_fn(int, int) -> bool| #[trigger]
                                    follow_closed(cfg, nul, fr, fo, end) implies below2(m@, fo) by {
                                    assert(below2(before, fo));
                                    assert(follow_rule(cfg, nul, fr, fo, p as int, i as int, t as int));
                                    assert(in_first_of(beta, nul, fr, t as int));
                                }
                            }
                            changed = true;
                        }
                        t = t + 1;
                    }
                    if bnull {
                        let mut t: usize = 0;
                        while t < nterm + 1
                            invariant
                                cfg.wf(),
                                nul == flags(nullable@),
                                fr == flags2(first@),
                                nullable.len() == nt,
                                nt == cfg.non_terminals.len(),
                                nterm == cfg.terminals.len(),
                                end == nterm,
                                matrix_shape(m@, nt as nat, (nterm + 1) as nat),
                                m@[cfg.start_symbol.0 as int]@[nterm as int],
                                p < cfg.productions.len(),
                                rhs == cfg.productions@[p as int].rhs@,
                                lhs == cfg.productions@[p as int].lhs.0,
                                lhs < nt,
                                i < rhs.len(),
                                rhs[i as int] == Symbol::NonTerminal(NonTerminalId(bi)),
                                bi < nt,
                                beta == rhs.skip(i + 1),
                                all_nullable(beta, nul),
                                row.len() == nterm,
                                forall|u: int| 0 <= u < nterm ==> (row@[u] == in_first_of(#[trigger] rhs.skip(i + 1), nul, fr, u)),
                                !changed ==> forall|u: int| 0 <= u < nterm && row@[u] ==> #[trigger] m@[bi as int]@[u],
                                t <= nterm + 1,
                                forall|fo: spec_fn(int, int) -> bool| #[trigger]
                                    follow_closed(cfg, nul, fr, fo, end) ==> below2(m@, fo),
                                falses2(m@) <= falses2(start_m),
                                changed ==> falses2(m@) < falses2(start_m),
                                !changed ==> m@ == start_m,
                                !changed ==> forall|u: int| 0 <= u < t && #[trigger] m@[lhs as int]@[u] ==> m@[bi as int]@[u],
                                !changed ==> forall|q: int, j: int, t: int|
                                    0 <= q < p && 0 <= j < cfg.productions@[q].rhs.len() ==> #[trigger] follow_rule(
                                        cfg,
                                        nul,
                                        fr,
                                        flags2(start_m),
                                        q,
                                        j,
                                        t,
                                    ),
                                !changed ==> forall|j: int, t: int|
                                    0 <= j < i ==> #[trigger] follow_rule(cfg, nul, fr, flags2(start_m), p as int, j, t),
                            decreases nterm + 1 - t,
                        {
                            if m[lhs][t] && !m[bi][t] {
                                let ghost before = m@;
                                set_flag2(&mut m, bi, t);
                                proof {
                                    lemma_falses2_update(before, m@, bi as int, t as int);
                                    assert forall|fo: spec_fn(int, int) -> bool| #[trigger]
                                        follow_closed(cfg, nul, fr, fo, end) implies below2(m@, fo) by {
                                        assert(below2(before, fo));
                                        assert(fo(lhs as int, t as int));
                                        assert(follow_rule(cfg, nul, fr, fo, p as int, i as int, t as int));
                                    }
                                }
                                changed = true;
                            }
                            t = t + 1;
                        }
                    }
                    proof {
                        if !changed {
                            assert forall|t: int| #[trigger] follow_rule(cfg, nul, fr, flags2(start_m), p as int, i as int, t) by {
                                if in_first_of(beta, nul, fr, t) {
                                    lemma_in_first_range(beta, nullable@, first@, nterm as nat, t);
                                    assert(row@[t]);
                                }
                                if all_nullable(beta, nul) && flags2(m@)(lhs as int, t) {
                                    assert(m@[lhs as int]@[t]);
                                }
                            }
                        }
                    }
                }
                proof {
                    if !changed {
                        assert forall|j: int, t: int|
                            0 <= j < i + 1 implies #[trigger] follow_rule(cfg, nul, fr, flags2(start_m), p as int, j, t) by {
                        }
                    }
                }
                i = i + 1;
            }
            p = p + 1;
        }
    }
    m
}


/// The terminal ids whose flags are set among the first `n` flags, in increasing order.
pub open spec fn ids_upto(row: Seq<bool>, n: int) -> Seq<TerminalId>
    decreases n,
{
    if n <= 0 {
        Seq::empty()
    } else if row[n - 1] {
        ids_upto(row, n - 1).push(TerminalId((n - 1) as usize))
    } else {
        ids_upto(row, n - 1)
    }
}

/// Membership in `ids_upto`.
pub proof fn lemma_ids_upto(row: Seq<bool>, n: int)
    requires
        0 <= n <= row.len(),
        row.len() <= usize::MAX,
    ensures
        forall|t: TerminalId| #[trigger] ids_upto(row, n).contains(t) <==> (t.0 < n && row[t.0 as int]),
        forall|i: int, j: int| 0 <= i < j < ids_upto(row, n).len() ==> ids_upto(row, n)[i].0 < ids_upto(row, n)[j].0,
        forall|i: int| 0 <= i < ids_upto(row, n).len() ==> ids_upto(row, n)[i].0 < n,
    decreases n,
{
    if n > 0 {
        lemma_ids_upto(row, n - 1);
        let prev = ids_upto(row, n - 1);
        if row[n - 1] {
            let cur = ids_upto(row, n);
            assert(cur == prev.push(TerminalId((n - 1) as usize)));
            assert forall|i: int, j: int| 0 <= i < j < cur.len() implies cur[i].0 < cur[j].0 by {
                if j == prev.len() {
                    assert(prev[i].0 < n - 1);
                } else {
                    assert(cur[i] == prev[i] && cur[j] == prev[j]);
                }
            }
            assert forall|t: TerminalId| #[trigger] ids_upto(row, n).contains(t) <==> (t.0 < n && row[t.0 as int]) by {
                if t.0 == n - 1 {
                    assert(ids_upto(row, n)[prev.len() as int] == t);
                } else if ids_upto(row, n).contains(t) {
                    let k = choose|k: int| 0 <= k < ids_upto(row, n).len() && ids_upto(row, n)[k] == t;
                    assert(k != prev.len());
                    assert(prev[k] == t);
                    assert(prev.contains(t));
                } else if t.0 < n && row[t.0 as int] {
                    assert(prev.contains(t));
                    let k = choose|k: int| 0 <= k < prev.len() && prev[k] == t;
                    assert(ids_upto(row, n)[k] == t);
                }
            }
        }
    }
}

/// The ids of the set flags of `row`, in increasing order.
pub fn ids_of_row(row: &Vec<bool>) -> (res: Vec<TerminalId>)
    ensures
        res@ == ids_upto(row@, row.len() as int),
{
    let mut res: Vec<TerminalId> = Vec::new();
    let mut t: usize = 0;
    while t < row.len()
        invariant
            t <= row.len(),
            res@ == ids_upto(row@, t as int),
        decreases row.len() - t,
    {
        if row[t] {
            res.push(TerminalId(t));
        }
        t = t + 1;
    }
    res
}

/// FIRST sets of all non-terminals: `table[n][t]` says terminal `t` is in FIRST(`n`).
#[derive(Debug, Clone)]
pub struct FirstSet {
    pub table: Vec<Vec<bool>>,
}

impl FirstSet {
    /// Whether terminal `t` is in FIRST(`nt`).
    pub fn contains(&self, nt: NonTerminalId, t: TerminalId) -> (res: bool)
        ensures
            res == flags2(self.table@)(nt.0 as int, t.0 as int),
    {
        nt.0 < self.table.len() && t.0 < self.table[nt.0].len() && self.table[nt.0][t.0]
    }

    /// The terminals of FIRST(`nt`) in increasing order (empty for an unknown id).
    pub fn terminals(&self, nt: NonTerminalId) -> (res: Vec<TerminalId>)
        ensures
            nt.0 < self.table.len() ==> res@ == ids_upto(self.table@[nt.0 as int]@, self.table@[nt.0 as int]@.len() as int),
            nt.0 >= self.table.len() ==> res@.len() == 0,
    {
        if nt.0 < self.table.len() {
            ids_of_row(&self.table[nt.0])
        } else {
            Vec::new()
        }
    }
}

/// FOLLOW sets of all non-terminals: `table[n][t]` says terminal `t` (or the end
/// marker, the last column) is in FOLLOW(`n`).
#[derive(Debug, Clone)]
pub struct FollowSet {
    pub table: Vec<Vec<bool>>,
    pub end_marker: TerminalId,
}

impl FollowSet {
    /// Whether terminal `t` is in FOLLOW(`nt`).
    pub fn contains(&self, nt: NonTerminalId, t: TerminalId) -> (res: bool)
        ensures
            res == flags2(self.table@)(nt.0 as int, t.0 as int),
    {
        nt.0 < self.table.len() && t.0 < self.table[nt.0].len() && self.table[nt.0][t.0]
    }

    /// Whether the end marker is in FOLLOW(`nt`).
    pub fn contains_end_marker(&self, nt: NonTerminalId) -> (res: bool)
        ensures
            res == flags2(self.table@)(nt.0 as int, self.end_marker.0 as int),
    {
        self.contains(nt, self.end_marker)
    }

    /// The terminals of FOLLOW(`nt`) in increasing order (empty for an unknown id).
    pub fn terminals(&self, nt: NonTerminalId) -> (res: Vec<TerminalId>)
        ensures
            nt.0 < self.table.len() ==> res@ == ids_upto(self.table@[nt.0 as int]@, self.table@[nt.0 as int]@.len() as int),
            nt.0 >= self.table.len() ==> res@.len() == 0,
    {
        if nt.0 < self.table.len() {
            ids_of_row(&self.table[nt.0])
        } else {
            Vec::new()
        }
    }
}

/// NULLABLE and FIRST computation.
pub struct FirstSetCalculator;

impl FirstSetCalculator {
    /// The NULLABLE flags of all non-terminals.
    pub fn compute_nullable(cfg: &ContextFreeGrammar) -> (res: Vec<bool>)
        requires
            cfg.wf(),
        ensures
            is_nullable_set(cfg, res@),
    {
        compute_nullable(cfg)
    }

    /// The FIRST sets, given the NULLABLE flags.
    pub fn compute_with_nullable(cfg: &ContextFreeGrammar, nullable: &Vec<bool>) -> (res: FirstSet)
        requires
            cfg.wf(),
            nullable.len() == cfg.non_terminals.len(),
        ensures
            is_first_sets(cfg, flags(nullable@), res.table@),
    {
        FirstSet { table: compute_first(cfg, nullable) }
    }
}

/// FOLLOW computation.
pub struct FollowSetCalculator;

impl FollowSetCalculator {
    /// The FOLLOW sets, given the FIRST sets and NULLABLE flags.
    pub fn compute(cfg: &ContextFreeGrammar, first_sets: &FirstSet, nullable: &Vec<bool>) -> (res: FollowSet)
        requires
            cfg.wf(),
            nullable.len() == cfg.non_terminals.len(),
            matrix_shape(first_sets.table@, cfg.non_terminals.len() as nat, cfg.terminals.len() as nat),
        ensures
            is_follow_sets(cfg, flags(nullable@), flags2(first_sets.table@), res.table@),
            res.end_marker == TerminalId(cfg.terminals.len()),
    {
        FollowSet {
            table: compute_follow(cfg, nullable, &first_sets.table),
            end_marker: TerminalId(cfg.terminals.len()),
        }
    }
}

} // verus!
