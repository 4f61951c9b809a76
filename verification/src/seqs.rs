//! Counting facts about sequences of job indices, shared by the graph code.
use vstd::prelude::*;
use vstd::set_lib::{lemma_int_range, lemma_len_subset, lemma_subset_equality, set_int_range};

verus! {

/// Number of occurrences of `x` in `s`.
pub open spec fn count_in(s: Seq<usize>, x: usize) -> nat
    decreases s.len(),
{
    if s.len() == 0 {
        0
    } else {
        count_in(s.drop_last(), x) + if s.last() == x { 1nat } else { 0nat }
    }
}

/// Number of positions of `s` whose element is not in `done`.
pub open spec fn pending(s: Seq<usize>, done: Set<usize>) -> nat
    decreases s.len(),
{
    if s.len() == 0 {
        0
    } else {
        pending(s.drop_last(), done) + if done.contains(s.last()) { 0nat } else { 1nat }
    }
}

/// The set of elements at positions `0..h` of `q`.
pub open spec fn prefix_set(q: Seq<usize>, h: int) -> Set<usize> {
    Set::new(|x: usize| exists|i: int| 0 <= i < h && q[i] == x)
}

pub proof fn lemma_prefix_set_step(q: Seq<usize>, h: int)
    requires
        0 <= h < q.len(),
    ensures
        prefix_set(q, h + 1) == prefix_set(q, h).insert(q[h]),
{
    assert forall|x: usize| prefix_set(q, h + 1).contains(x) <==> prefix_set(q, h).insert(
        q[h],
    ).contains(x) by {
        if prefix_set(q, h + 1).contains(x) {
            let i = choose|i: int| 0 <= i < h + 1 && q[i] == x;
            if i < h {
                assert(prefix_set(q, h).contains(x));
            }
        }
        if prefix_set(q, h).contains(x) {
            let i = choose|i: int| 0 <= i < h && q[i] == x;
            assert(0 <= i < h + 1 && q[i] == x);
        }
        if x == q[h] {
            assert(0 <= h < h + 1 && q[h] == x);
        }
    }
    assert(prefix_set(q, h + 1) =~= prefix_set(q, h).insert(q[h]));
}

pub proof fn lemma_count_push(s: Seq<usize>, y: usize, x: usize)
    ensures
        count_in(s.push(y), x) == count_in(s, x) + if y == x { 1nat } else { 0nat },
{
    assert(s.push(y).drop_last() =~= s);
}

pub proof fn lemma_count_take(s: Seq<usize>, k: int, x: usize)
    requires
        0 <= k < s.len(),
    ensures
        count_in(s.take(k + 1), x) == count_in(s.take(k), x) + if s[k] == x { 1nat } else { 0nat },
{
    assert(s.take(k + 1).drop_last() =~= s.take(k));
}

/// Removing one element from consideration lowers the pending count by its occurrences.
pub proof fn lemma_pending_insert(s: Seq<usize>, done: Set<usize>, x: usize)
    requires
        !done.contains(x),
    ensures
        pending(s, done.insert(x)) + count_in(s, x) == pending(s, done),
    decreases s.len(),
{
    if s.len() > 0 {
        lemma_pending_insert(s.drop_last(), done, x);
    }
}

pub proof fn lemma_pending_empty(s: Seq<usize>)
    ensures
        pending(s, Set::empty()) == s.len(),
    decreases s.len(),
{
    if s.len() > 0 {
        lemma_pending_empty(s.drop_last());
    }
}

pub proof fn lemma_count_take_le(s: Seq<usize>, k: int, x: usize)
    requires
        0 <= k <= s.len(),
    ensures
        count_in(s.take(k), x) <= count_in(s, x),
    decreases s.len() - k,
{
    if k < s.len() {
        lemma_count_take(s, k, x);
        lemma_count_take_le(s, k + 1, x);
    } else {
        assert(s.take(k) =~= s);
    }
}

/// If nothing is pending, every element of `s` is in `done`.
pub proof fn lemma_pending_zero(s: Seq<usize>, done: Set<usize>)
    requires
        pending(s, done) == 0,
    ensures
        forall|k: int| 0 <= k < s.len() ==> done.contains(#[trigger] s[k]),
    decreases s.len(),
{
    if s.len() > 0 {
        lemma_pending_zero(s.drop_last(), done);
        assert forall|k: int| 0 <= k < s.len() implies done.contains(#[trigger] s[k]) by {
            if k < s.len() - 1 {
                assert(s[k] == s.drop_last()[k]);
            }
        }
    }
}

/// If something is pending, some element of `s` is outside `done`.
pub proof fn lemma_pending_pos(s: Seq<usize>, done: Set<usize>)
    requires
        pending(s, done) > 0,
    ensures
        exists|k: int| 0 <= k < s.len() && !done.contains(#[trigger] s[k]),
    decreases s.len(),
{
    if s.len() > 0 {
        if done.contains(s.last()) {
            lemma_pending_pos(s.drop_last(), done);
            let k = choose|k: int| 0 <= k < s.drop_last().len() && !done.contains(
                #[trigger] s.drop_last()[k],
            );
            assert(s[k] == s.drop_last()[k]);
        } else {
            assert(!done.contains(s[s.len() - 1]));
        }
    }
}

/// Distinct indices below `n` number at most `n`, and exactly `n` of them cover `0..n`.
pub proof fn lemma_distinct_below(s: Seq<usize>, n: usize)
    requires
        s.no_duplicates(),
        forall|i: int| 0 <= i < s.len() ==> s[i] < n,
    ensures
        s.len() <= n,
        s.len() == n ==> forall|x: usize| x < n ==> s.contains(x),
        (forall|x: usize| x < n ==> s.contains(x)) ==> s.len() >= n,
{
    let t = s.map_values(|x: usize| x as int);
    assert(t.no_duplicates()) by {
        assert forall|i: int, j: int| 0 <= i < t.len() && 0 <= j < t.len() && i != j implies t[i]
            != t[j] by {
            assert(s[i] != s[j]);
        }
    }
    t.unique_seq_to_set();
    lemma_int_range(0, n as int);
    assert(t.to_set().subset_of(set_int_range(0, n as int))) by {
        assert forall|v: int| t.to_set().contains(v) implies set_int_range(0, n as int).contains(
            v,
        ) by {
            let i = choose|i: int| 0 <= i < t.len() && t[i] == v;
            assert(s[i] < n);
        }
    }
    lemma_len_subset(t.to_set(), set_int_range(0, n as int));
    if forall|x: usize| x < n ==> s.contains(x) {
        assert(set_int_range(0, n as int).subset_of(t.to_set())) by {
            assert forall|v: int| set_int_range(0, n as int).contains(v) implies t.to_set().contains(
                v,
            ) by {
                let x = v as usize;
                assert(s.contains(x));
                let i = choose|i: int| 0 <= i < s.len() && s[i] == x;
                assert(t[i] == v);
            }
        }
        lemma_len_subset(set_int_range(0, n as int), t.to_set());
    }
    if s.len() == n {
        lemma_subset_equality(t.to_set(), set_int_range(0, n as int));
        assert forall|x: usize| x < n implies s.contains(x) by {
            assert(set_int_range(0, n as int).contains(x as int));
            assert(t.to_set().contains(x as int));
            let i = choose|i: int| 0 <= i < t.len() && t[i] == x as int;
            assert(s[i] == x);
        }
    }
}

/// An element that occurs is at some position.
pub proof fn lemma_count_pos(s: Seq<usize>, x: usize)
    requires
        count_in(s, x) > 0,
    ensures
        exists|k: int| 0 <= k < s.len() && s[k] == x,
    decreases s.len(),
{
    if s.last() != x {
        lemma_count_pos(s.drop_last(), x);
        let k = choose|k: int| 0 <= k < s.drop_last().len() && s.drop_last()[k] == x;
        assert(s[k] == x);
    } else {
        assert(s[s.len() - 1] == x);
    }
}

/// An element at some position occurs.
pub proof fn lemma_count_at(s: Seq<usize>, k: int)
    requires
        0 <= k < s.len(),
    ensures
        count_in(s, s[k]) > 0,
    decreases s.len(),
{
    if k < s.len() - 1 {
        lemma_count_at(s.drop_last(), k);
        assert(s.drop_last()[k] == s[k]);
    }
}

/// In a sequence without duplicates every element occurs at most once.
pub proof fn lemma_no_dup_count(s: Seq<usize>, x: usize)
    requires
        s.no_duplicates(),
    ensures
        count_in(s, x) <= 1,
    decreases s.len(),
{
    if s.len() > 0 {
        let t = s.drop_last();
        assert(t.no_duplicates()) by {
            assert forall|i: int, j: int| 0 <= i < t.len() && 0 <= j < t.len() && i != j implies t[i]
                != t[j] by {
                assert(s[i] != s[j]);
            }
        }
        lemma_no_dup_count(t, x);
        if s.last() == x && count_in(t, x) > 0 {
            lemma_count_pos(t, x);
            let k = choose|k: int| 0 <= k < t.len() && t[k] == x;
            assert(s[k] == s[s.len() - 1]);
        }
    }
}

/// A sequence in which every element occurs at most once has no duplicates.
pub proof fn lemma_count_no_dup(s: Seq<usize>)
    requires
        forall|x: usize| #[trigger] count_in(s, x) <= 1,
    ensures
        s.no_duplicates(),
    decreases s.len(),
{
    if s.len() > 0 {
        let t = s.drop_last();
        assert forall|x: usize| #[trigger] count_in(t, x) <= 1 by {
            assert(count_in(s, x) <= 1);
        }
        lemma_count_no_dup(t);
        assert forall|i: int, j: int| 0 <= i < s.len() && 0 <= j < s.len() && i != j implies s[i]
            != s[j] by {
            if i < s.len() - 1 && j < s.len() - 1 {
                assert(t[i] != t[j]);
            } else if i == s.len() - 1 {
                if s[i] == s[j] {
                    lemma_count_at(t, j);
                    assert(t[j] == s[j]);
                    assert(count_in(s, s[i]) <= 1);
                }
            } else {
                if s[i] == s[j] {
                    lemma_count_at(t, i);
                    assert(t[i] == s[i]);
                    assert(count_in(s, s[j]) <= 1);
                }
            }
        }
    }
}

} // verus!
