//! Counting lemmas used as termination measures of fixpoint loops.
use vstd::prelude::*;

verus! {

/// Number of `false` entries of a sequence of flags.
pub open spec fn falses(s: Seq<bool>) -> nat
    decreases s.len(),
{
    if s.len() == 0 {
        0
    } else {
        falses(s.drop_last()) + (if s.last() {
            0nat
        } else {
            1nat
        })
    }
}

/// Number of `false` entries of a matrix of flags.
pub open spec fn falses2(m: Seq<Vec<bool>>) -> nat
    decreases m.len(),
{
    if m.len() == 0 {
        0
    } else {
        falses2(m.drop_last()) + falses(m.last()@)
    }
}

/// Setting a `false` entry to `true` removes exactly one `false`.
pub proof fn lemma_falses_update(s: Seq<bool>, i: int)
    requires
        0 <= i < s.len(),
        !s[i],
    ensures
        falses(s.update(i, true)) + 1 == falses(s),
    decreases s.len(),
{
    let t = s.update(i, true);
    if i == s.len() - 1 {
        assert(t.drop_last() =~= s.drop_last());
    } else {
        assert(t.drop_last() =~= s.drop_last().update(i, true));
        lemma_falses_update(s.drop_last(), i);
    }
}

/// Setting a `false` matrix entry to `true` removes exactly one `false`.
pub proof fn lemma_falses2_update(m: Seq<Vec<bool>>, m2: Seq<Vec<bool>>, i: int, j: int)
    requires
        0 <= i < m.len(),
        0 <= j < m[i]@.len(),
        !m[i]@[j],
        m2.len() == m.len(),
        forall|k: int| 0 <= k < m.len() && k != i ==> m2[k]@ == m[k]@,
        m2[i]@ == m[i]@.update(j, true),
    ensures
        falses2(m2) + 1 == falses2(m),
    decreases m.len(),
{
    if i == m.len() - 1 {
        lemma_falses2_frame(m.drop_last(), m2.drop_last());
        lemma_falses_update(m[i]@, j);
    } else {
        lemma_falses2_update(m.drop_last(), m2.drop_last(), i, j);
    }
}

/// Matrices with equal rows have the same number of `false` entries.
pub proof fn lemma_falses2_frame(m: Seq<Vec<bool>>, m2: Seq<Vec<bool>>)
    requires
        m2.len() == m.len(),
        forall|k: int| 0 <= k < m.len() ==> m2[k]@ == m[k]@,
    ensures
        falses2(m2) == falses2(m),
    decreases m.len(),
{
    if m.len() > 0 {
        lemma_falses2_frame(m.drop_last(), m2.drop_last());
    }
}

/// Pigeonhole: distinct integers taken from `[0, n)` number at most `n`.
pub proof fn lemma_distinct_in_range(ps: Seq<int>, n: int)
    requires
        0 <= n,
        ps.no_duplicates(),
        forall|i: int| 0 <= i < ps.len() ==> 0 <= #[trigger] ps[i] < n,
    ensures
        ps.len() <= n,
{
    let range = vstd::set_lib::set_int_range(0, n);
    vstd::set_lib::lemma_int_range(0, n);
    ps.unique_seq_to_set();
    assert forall|x: int| ps.to_set().contains(x) implies range.contains(x) by {
        let k = choose|k: int| 0 <= k < ps.len() && ps[k] == x;
    }
    vstd::set_lib::lemma_len_subset(ps.to_set(), range);
}

/// `2^n`.
pub open spec fn two_pow(n: nat) -> nat
    decreases n,
{
    if n == 0 {
        1
    } else {
        2 * two_pow((n - 1) as nat)
    }
}

/// A finite universe of `n` elements has at most `2^n` different subsets.
pub proof fn lemma_subsets_bound<A>(ss: Set<Set<A>>, u: Set<A>)
    requires
        u.finite(),
        ss.finite(),
        forall|s: Set<A>| #[trigger] ss.contains(s) ==> s.subset_of(u),
    ensures
        ss.len() <= two_pow(u.len()),
    decreases u.len(),
{
    if u.len() == 0 {
        u.lemma_len0_is_empty();
        let only = set![Set::<A>::empty()];
        assert forall|s: Set<A>| ss.contains(s) implies only.contains(s) by {
            assert(s =~= Set::<A>::empty());
        }
        vstd::set_lib::lemma_len_subset(ss, only);
        assert(only.len() == 1) by {
            assert(only =~= Set::<Set<A>>::empty().insert(Set::<A>::empty()));
        }
    } else {
        let a = u.choose();
        let u2 = u.remove(a);
        let with = ss.filter(|s: Set<A>| s.contains(a));
        let without = ss.filter(|s: Set<A>| !s.contains(a));
        let f = |s: Set<A>| s.remove(a);
        vstd::set_lib::lemma_len_subset(with, ss);
        vstd::set_lib::lemma_len_subset(without, ss);
        assert(vstd::relations::injective_on(f, with)) by {
            assert forall|s: Set<A>, t: Set<A>|
                with.contains(s) && with.contains(t) && #[trigger] f(s) == #[trigger] f(t) implies s == t by {
                assert forall|x: A| s.contains(x) <==> t.contains(x) by {
                    if x != a {
                        assert(f(s).contains(x) == s.contains(x));
                        assert(f(t).contains(x) == t.contains(x));
                    }
                }
                assert(s =~= t);
            }
        }
        let with2 = with.map(f);
        vstd::set_lib::lemma_map_size(with, with2, f);
        assert forall|s: Set<A>| #[trigger] with2.contains(s) implies s.subset_of(u2) by {
            let t = choose|t: Set<A>| with.contains(t) && f(t) == s;
        }
        assert forall|s: Set<A>| #[trigger] without.contains(s) implies s.subset_of(u2) by {}
        lemma_subsets_bound(with2, u2);
        lemma_subsets_bound(without, u2);
        assert(ss =~= with.union(without));
        vstd::set_lib::lemma_len_union(with, without);
    }
}

/// Distinct subsets of a finite universe of `n` elements number at most `2^n`.
pub proof fn lemma_distinct_subsets<A>(ss: Seq<Set<A>>, u: Set<A>)
    requires
        u.finite(),
        ss.no_duplicates(),
        forall|i: int| 0 <= i < ss.len() ==> (#[trigger] ss[i]).subset_of(u),
    ensures
        ss.len() <= two_pow(u.len()),
{
    ss.unique_seq_to_set();
    assert forall|s: Set<A>| #[trigger] ss.to_set().contains(s) implies s.subset_of(u) by {
        let k = choose|k: int| 0 <= k < ss.len() && ss[k] == s;
    }
    lemma_subsets_bound(ss.to_set(), u);
}

} // verus!
