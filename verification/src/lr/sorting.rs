//! Sorting items and names for printing.
use vstd::prelude::*;
use vstd::string::StrSliceExecFns;
use crate::cfg::Symbol;
use crate::lr::item::{LR0Item, LR1Item};

verus! {

/// Items ordered by production, then dot position.
pub open spec fn lt0(a: LR0Item, b: LR0Item) -> bool {
    a.production_index < b.production_index || (a.production_index == b.production_index && a.dot_position
        < b.dot_position)
}

/// Items ordered by production, dot position, then lookahead.
pub open spec fn lt1(a: LR1Item, b: LR1Item) -> bool {
    a.production_index < b.production_index || (a.production_index == b.production_index && (a.dot_position
        < b.dot_position || (a.dot_position == b.dot_position && a.lookahead.0 < b.lookahead.0)))
}

pub open spec fn sorted0(s: Seq<LR0Item>) -> bool {
    forall|i: int, j: int| 0 <= i < j < s.len() ==> lt0(#[trigger] s[i], #[trigger] s[j])
}

pub open spec fn sorted1(s: Seq<LR1Item>) -> bool {
    forall|i: int, j: int| 0 <= i < j < s.len() ==> lt1(#[trigger] s[i], #[trigger] s[j])
}

proof fn lemma_insert_set<A>(s: Seq<A>, pos: int, x: A)
    requires
        0 <= pos <= s.len(),
    ensures
        s.insert(pos, x).to_set() == s.to_set().insert(x),
{
    let t = s.insert(pos, x);
    assert forall|y: A| t.to_set().contains(y) <==> s.to_set().insert(x).contains(y) by {
        if t.contains(y) {
            let k = choose|k: int| 0 <= k < t.len() && t[k] == y;
            if k < pos {
                assert(s[k] == y);
            } else if k > pos {
                assert(s[k - 1] == y);
            }
        }
        if s.contains(y) {
            let k = choose|k: int| 0 <= k < s.len() && s[k] == y;
            if k < pos {
                assert(t[k] == y);
            } else {
                assert(t[k + 1] == y);
            }
        }
        if y == x {
            assert(t[pos] == x);
        }
    }
    assert(t.to_set() =~= s.to_set().insert(x));
}

proof fn lemma_take_set<A>(s: Seq<A>, i: int)
    requires
        0 <= i < s.len(),
    ensures
        s.take(i + 1).to_set() == s.take(i).to_set().insert(s[i]),
{
    assert(s.take(i + 1) =~= s.take(i).push(s[i]));
    let a = s.take(i);
    assert forall|y: A| a.push(s[i]).to_set().contains(y) <==> a.to_set().insert(s[i]).contains(y) by {
        if a.push(s[i]).contains(y) {
            let k = choose|k: int| 0 <= k < a.len() + 1 && a.push(s[i])[k] == y;
            if k < a.len() {
                assert(a[k] == y);
            }
        }
        if a.contains(y) {
            let k = choose|k: int| 0 <= k < a.len() && a[k] == y;
            assert(a.push(s[i])[k] == y);
        }
        if y == s[i] {
            assert(a.push(s[i])[a.len() as int] == y);
        }
    }
    assert(a.push(s[i]).to_set() =~= a.to_set().insert(s[i]));
}

/// The items in increasing order, each once.
pub fn sort_lr0(v: &Vec<LR0Item>) -> (res: Vec<LR0Item>)
    ensures
        sorted0(res@),
        res@.to_set() == v@.to_set(),
{
    let mut res: Vec<LR0Item> = Vec::new();
    let mut i: usize = 0;
    assert(v@.take(0).to_set() =~= Set::<LR0Item>::empty());
    assert(res@.to_set() =~= Set::<LR0Item>::empty());
    while i < v.len()
        invariant
            i <= v@.len(),
            sorted0(res@),
            res@.to_set() == v@.take(i as int).to_set(),
        decreases v@.len() - i,
    {
        let x = v[i];
        let mut pos: usize = 0;
        while pos < res.len() && (res[pos].production_index < x.production_index || (res[pos].production_index
            == x.production_index && res[pos].dot_position < x.dot_position))
            invariant
                pos <= res@.len(),
                forall|k: int| 0 <= k < pos ==> lt0(#[trigger] res@[k], x),
            decreases res@.len() - pos,
        {
            pos = pos + 1;
        }
        proof {
            lemma_take_set(v@, i as int);
        }
        if pos < res.len() && res[pos] == x {
            assert(res@.to_set().contains(x)) by {
                assert(res@[pos as int] == x);
            }
            assert(res@.to_set().insert(x) =~= res@.to_set());
        } else {
            let ghost old_res = res@;
            res.insert(pos, x);
            proof {
                lemma_insert_set(old_res, pos as int, x);
                assert forall|a: int, b: int| 0 <= a < b < res@.len() implies lt0(#[trigger] res@[a], #[trigger] res@[b]) by {
                    if b < pos {
                        assert(res@[a] == old_res[a] && res@[b] == old_res[b]);
                    } else if b == pos {
                        assert(res@[a] == old_res[a]);
                    } else if a < pos {
                        assert(res@[a] == old_res[a] && res@[b] == old_res[b - 1]);
                    } else if a == pos {
                        assert(res@[b] == old_res[b - 1]);
                        assert(!lt0(old_res[pos as int], x) && old_res[pos as int] != x);
                        if b - 1 > pos {
                            assert(lt0(old_res[pos as int], old_res[b - 1]));
                        }
                    } else {
                        assert(res@[a] == old_res[a - 1] && res@[b] == old_res[b - 1]);
                    }
                }
            }
        }
        i = i + 1;
    }
    assert(v@.take(v@.len() as int) =~= v@);
    res
}

/// The items in increasing order, each once.
pub fn sort_lr1(v: &Vec<LR1Item>) -> (res: Vec<LR1Item>)
    ensures
        sorted1(res@),
        res@.to_set() == v@.to_set(),
{
    let mut res: Vec<LR1Item> = Vec::new();
    let mut i: usize = 0;
    assert(v@.take(0).to_set() =~= Set::<LR1Item>::empty());
    assert(res@.to_set() =~= Set::<LR1Item>::empty());
    while i < v.len()
        invariant
            i <= v@.len(),
            sorted1(res@),
            res@.to_set() == v@.take(i as int).to_set(),
        decreases v@.len() - i,
    {
        let x = v[i];
        let mut pos: usize = 0;
        while pos < res.len() && (res[pos].production_index < x.production_index || (res[pos].production_index
            == x.production_index && (res[pos].dot_position < x.dot_position || (res[pos].dot_position
            == x.dot_position && res[pos].lookahead.0 < x.lookahead.0))))
            invariant
                pos <= res@.len(),
                forall|k: int| 0 <= k < pos ==> lt1(#[trigger] res@[k], x),
            decreases res@.len() - pos,
        {
            pos = pos + 1;
        }
        proof {
            lemma_take_set(v@, i as int);
        }
        if pos < res.len() && res[pos] == x {
            assert(res@.to_set().contains(x)) by {
                assert(res@[pos as int] == x);
            }
            assert(res@.to_set().insert(x) =~= res@.to_set());
        } else {
            let ghost old_res = res@;
            res.insert(pos, x);
            proof {
                lemma_insert_set(old_res, pos as int, x);
                assert forall|a: int, b: int| 0 <= a < b < res@.len() implies lt1(#[trigger] res@[a], #[trigger] res@[b]) by {
                    if b < pos {
                        assert(res@[a] == old_res[a] && res@[b] == old_res[b]);
                    } else if b == pos {
                        assert(res@[a] == old_res[a]);
                    } else if a < pos {
                        assert(res@[a] == old_res[a] && res@[b] == old_res[b - 1]);
                    } else if a == pos {
                        assert(res@[b] == old_res[b - 1]);
                        assert(!lt1(old_res[pos as int], x) && old_res[pos as int] != x);
                        if b - 1 > pos {
                            assert(lt1(old_res[pos as int], old_res[b - 1]));
                        }
                    } else {
                        assert(res@[a] == old_res[a - 1] && res@[b] == old_res[b - 1]);
                    }
                }
            }
        }
        i = i + 1;
    }
    assert(v@.take(v@.len() as int) =~= v@);
    res
}

/// Lexicographic order of character sequences by code point.
pub open spec fn lex_lt(a: Seq<char>, b: Seq<char>) -> bool
    decreases a.len(),
{
    if a.len() == 0 {
        b.len() > 0
    } else if b.len() == 0 {
        false
    } else if a[0] != b[0] {
        a[0] < b[0]
    } else {
        lex_lt(a.skip(1), b.skip(1))
    }
}

pub open spec fn sorted_lex(s: Seq<Seq<char>>) -> bool {
    forall|i: int, j: int| 0 <= i < j < s.len() ==> lex_lt(#[trigger] s[i], #[trigger] s[j])
}

proof fn lemma_lex_trans(a: Seq<char>, b: Seq<char>, c: Seq<char>)
    requires
        lex_lt(a, b),
        lex_lt(b, c),
    ensures
        lex_lt(a, c),
    decreases a.len(),
{
    if a.len() > 0 && b.len() > 0 && c.len() > 0 {
        if a[0] == b[0] && b[0] == c[0] {
            lemma_lex_trans(a.skip(1), b.skip(1), c.skip(1));
        }
    }
}

proof fn lemma_lex_total(a: Seq<char>, b: Seq<char>)
    requires
        a != b,
    ensures
        lex_lt(a, b) || lex_lt(b, a),
    decreases a.len(),
{
    if a.len() > 0 && b.len() > 0 && a[0] == b[0] {
        if a.skip(1) == b.skip(1) {
            assert(a =~= seq![a[0]] + a.skip(1));
            assert(b =~= seq![b[0]] + b.skip(1));
        }
        lemma_lex_total(a.skip(1), b.skip(1));
    } else if a.len() == 0 && b.len() == 0 {
        assert(a =~= b);
    }
}

/// Whether `a` comes before `b` (see `lex_lt`).
fn str_lt(a: &str, b: &str) -> (res: bool)
    ensures
        res == lex_lt(a@, b@),
{
    let n = a.unicode_len();
    let m = b.unicode_len();
    let mut i: usize = 0;
    assert(a@.skip(0) =~= a@);
    assert(b@.skip(0) =~= b@);
    while i < n && i < m && a.get_char(i) == b.get_char(i)
        invariant
            n == a@.len(),
            m == b@.len(),
            i <= n,
            i <= m,
            lex_lt(a@, b@) == lex_lt(a@.skip(i as int), b@.skip(i as int)),
        decreases n - i,
    {
        proof {
            let x = a@.skip(i as int);
            let y = b@.skip(i as int);
            assert(x[0] == a@[i as int] && y[0] == b@[i as int]);
            assert(x.skip(1) =~= a@.skip(i + 1));
            assert(y.skip(1) =~= b@.skip(i + 1));
        }
        i = i + 1;
    }
    if i == n {
        i < m
    } else if i == m {
        false
    } else {
        let ca = a.get_char(i);
        let cb = b.get_char(i);
        proof {
            assert(a@.skip(i as int)[0] == ca && b@.skip(i as int)[0] == cb);
        }
        ca < cb
    }
}

/// The strings in lexicographic order, each once.
pub fn sort_strings(v: &Vec<String>) -> (res: Vec<String>)
    ensures
        sorted_lex(res@.map_values(|s: String| s@)),
        res@.map_values(|s: String| s@).to_set() == v@.map_values(|s: String| s@).to_set(),
{
    let ghost vv = v@.map_values(|s: String| s@);
    let mut res: Vec<String> = Vec::new();
    let mut i: usize = 0;
    assert(vv.take(0).to_set() =~= Set::<Seq<char>>::empty());
    assert(res@.map_values(|s: String| s@).to_set() =~= Set::<Seq<char>>::empty());
    while i < v.len()
        invariant
            i <= v@.len(),
            vv == v@.map_values(|s: String| s@),
            sorted_lex(res@.map_values(|s: String| s@)),
            res@.map_values(|s: String| s@).to_set() == vv.take(i as int).to_set(),
        decreases v@.len() - i,
    {
        let x = &v[i];
        let ghost rv = res@.map_values(|s: String| s@);
        let mut pos: usize = 0;
        while pos < res.len() && str_lt(res[pos].as_str(), x.as_str())
            invariant
                pos <= res@.len(),
                rv == res@.map_values(|s: String| s@),
                forall|k: int| 0 <= k < pos ==> lex_lt(#[trigger] rv[k], x@),
            decreases res@.len() - pos,
        {
            pos = pos + 1;
        }
        proof {
            lemma_take_set(vv, i as int);
        }
        if pos < res.len() && crate::text::str_eq(res[pos].as_str(), x.as_str()) {
            assert(rv.to_set().contains(x@)) by {
                assert(rv[pos as int] == x@);
            }
            assert(rv.to_set().insert(x@) =~= rv.to_set());
        } else {
            res.insert(pos, x.clone());
            proof {
                let nv = res@.map_values(|s: String| s@);
                assert(nv =~= rv.insert(pos as int, x@));
                lemma_insert_set(rv, pos as int, x@);
                assert forall|a: int, b: int| 0 <= a < b < nv.len() implies lex_lt(#[trigger] nv[a], #[trigger] nv[b]) by {
                    if b < pos {
                        assert(nv[a] == rv[a] && nv[b] == rv[b]);
                    } else if b == pos {
                        assert(nv[a] == rv[a]);
                    } else if a < pos {
                        assert(nv[a] == rv[a] && nv[b] == rv[b - 1]);
                        assert(lex_lt(rv[a], x@));
                        if b - 1 > pos {
                            lemma_lex_trans(rv[a], rv[pos as int], rv[b - 1]);
                        }
                        assert(lex_lt(rv[a], rv[b - 1]));
                    } else if a == pos {
                        assert(nv[b] == rv[b - 1]);
                        lemma_lex_total(rv[pos as int], x@);
                        assert(lex_lt(x@, rv[pos as int]));
                        if b - 1 > pos {
                            lemma_lex_trans(x@, rv[pos as int], rv[b - 1]);
                        }
                    } else {
                        assert(nv[a] == rv[a - 1] && nv[b] == rv[b - 1]);
                    }
                }
            }
        }
        i = i + 1;
    }
    assert(vv.take(vv.len() as int) =~= vv);
    res
}

/// No item of `s` comes after a later one: increasing, equal items allowed.
pub open spec fn ordered1(s: Seq<LR1Item>) -> bool {
    forall|i: int, j: int| 0 <= i < j < s.len() ==> !lt1(#[trigger] s[j], #[trigger] s[i])
}

/// The items of `v` in increasing order, repetitions kept.
pub fn sort_lr1_list(v: &Vec<LR1Item>) -> (res: Vec<LR1Item>)
    ensures
        ordered1(res@),
        res@.to_multiset() == v@.to_multiset(),
{
    broadcast use vstd::seq_lib::to_multiset_build, vstd::seq_lib::to_multiset_insert;
    let mut res: Vec<LR1Item> = Vec::new();
    let mut i: usize = 0;
    assert(v@.take(0) =~= res@);
    while i < v.len()
        invariant
            i <= v.len(),
            ordered1(res@),
            res@.to_multiset() == v@.take(i as int).to_multiset(),
        decreases v.len() - i,
    {
        let x = v[i];
        let mut pos: usize = 0;
        while pos < res.len() && !(lt1_exec(&x, &res[pos]))
            invariant
                pos <= res.len(),
                forall|k: int| 0 <= k < pos ==> !lt1(x, #[trigger] res@[k]),
            decreases res.len() - pos,
        {
            pos = pos + 1;
        }
        let ghost before = res@;
        res.insert(pos, x);
        proof {
            assert(v@.take(i + 1) =~= v@.take(i as int).push(x));
            vstd::seq_lib::to_multiset_insert(before, pos as int, x);
            vstd::seq_lib::to_multiset_build(v@.take(i as int), x);
            assert forall|a: int, b: int| 0 <= a < b < res@.len() implies !lt1(#[trigger] res@[b], #[trigger] res@[a]) by {
                if b < pos {
                    assert(res@[a] == before[a] && res@[b] == before[b]);
                } else if b == pos {
                    assert(res@[a] == before[a]);
                } else if a < pos {
                    assert(res@[a] == before[a] && res@[b] == before[b - 1]);
                    assert(!lt1(x, before[a]));
                    assert(lt1(x, before[pos as int]));
                    assert(!lt1(before[b - 1], before[pos as int]) || b - 1 == pos);
                } else if a == pos {
                    assert(res@[b] == before[b - 1]);
                    assert(lt1(x, before[pos as int]));
                    assert(!lt1(before[b - 1], before[pos as int]) || b - 1 == pos);
                } else {
                    assert(res@[a] == before[a - 1] && res@[b] == before[b - 1]);
                }
            }
        }
        i = i + 1;
    }
    assert(v@.take(v.len() as int) =~= v@);
    res
}

fn lt1_exec(a: &LR1Item, b: &LR1Item) -> (res: bool)
    ensures
        res == lt1(*a, *b),
{
    a.production_index < b.production_index || (a.production_index == b.production_index && (a.dot_position
        < b.dot_position || (a.dot_position == b.dot_position && a.lookahead.0 < b.lookahead.0)))
}

/// Transitions ordered by source state, then target state.
pub open spec fn lt_transition(a: (usize, Symbol, usize), b: (usize, Symbol, usize)) -> bool {
    a.0 < b.0 || (a.0 == b.0 && a.2 < b.2)
}

/// No transition of `s` comes after a later one.
pub open spec fn ordered_transitions(s: Seq<(usize, Symbol, usize)>) -> bool {
    forall|i: int, j: int| 0 <= i < j < s.len() ==> !lt_transition(#[trigger] s[j], #[trigger] s[i])
}

/// The transitions of `v` ordered by source state, then target state.
pub fn sort_transitions(v: &Vec<(usize, Symbol, usize)>) -> (res: Vec<(usize, Symbol, usize)>)
    ensures
        ordered_transitions(res@),
        res@.to_multiset() == v@.to_multiset(),
{
    broadcast use vstd::seq_lib::to_multiset_build, vstd::seq_lib::to_multiset_insert;
    let mut res: Vec<(usize, Symbol, usize)> = Vec::new();
    let mut i: usize = 0;
    assert(v@.take(0) =~= res@);
    while i < v.len()
        invariant
            i <= v.len(),
            ordered_transitions(res@),
            res@.to_multiset() == v@.take(i as int).to_multiset(),
        decreases v.len() - i,
    {
        let x = v[i];
        let mut pos: usize = 0;
        while pos < res.len() && !(x.0 < res[pos].0 || (x.0 == res[pos].0 && x.2 < res[pos].2))
            invariant
                pos <= res.len(),
                forall|k: int| 0 <= k < pos ==> !lt_transition(x, #[trigger] res@[k]),
            decreases res.len() - pos,
        {
            pos = pos + 1;
        }
        let ghost before = res@;
        res.insert(pos, x);
        proof {
            assert(v@.take(i + 1) =~= v@.take(i as int).push(x));
            vstd::seq_lib::to_multiset_insert(before, pos as int, x);
            vstd::seq_lib::to_multiset_build(v@.take(i as int), x);
            assert forall|a: int, b: int| 0 <= a < b < res@.len() implies !lt_transition(
                #[trigger] res@[b],
                #[trigger] res@[a],
            ) by {
                if b < pos {
                    assert(res@[a] == before[a] && res@[b] == before[b]);
                } else if b == pos {
                    assert(res@[a] == before[a]);
                } else if a < pos {
                    assert(res@[a] == before[a] && res@[b] == before[b - 1]);
                    assert(!lt_transition(x, before[a]));
                    assert(lt_transition(x, before[pos as int]));
                    assert(!lt_transition(before[b - 1], before[pos as int]) || b - 1 == pos);
                } else if a == pos {
                    assert(res@[b] == before[b - 1]);
                    assert(lt_transition(x, before[pos as int]));
                    assert(!lt_transition(before[b - 1], before[pos as int]) || b - 1 == pos);
                } else {
                    assert(res@[a] == before[a - 1] && res@[b] == before[b - 1]);
                }
            }
        }
        i = i + 1;
    }
    assert(v@.take(v.len() as int) =~= v@);
    res
}

} // verus!
