use vstd::prelude::*;

verus! {

/// Number of occurrences of `x` in `s`.
pub open spec fn occ(s: Seq<usize>, x: usize) -> nat
    decreases s.len(),
{
    if s.len() == 0 {
        0
    } else {
        occ(s.drop_last(), x) + if s.last() == x {
            1nat
        } else {
            0nat
        }
    }
}

/// Number of entries of `s` that `done` does not contain.
pub open spec fn unresolved(s: Seq<usize>, done: Seq<usize>) -> nat
    decreases s.len(),
{
    if s.len() == 0 {
        0
    } else {
        unresolved(s.drop_last(), done) + if done.contains(s.last()) {
            0nat
        } else {
            1nat
        }
    }
}

/// Number of `true` entries of `b`.
pub open spec fn count_true(b: Seq<bool>) -> nat
    decreases b.len(),
{
    if b.len() == 0 {
        0
    } else {
        count_true(b.drop_last()) + if b.last() {
            1nat
        } else {
            0nat
        }
    }
}

/// Number of positions `i < m` that `needed` marks and `done` does not contain.
pub open spec fn count_pending(needed: Seq<bool>, done: Seq<usize>, m: int) -> nat
    decreases m,
{
    if m <= 0 {
        0
    } else {
        count_pending(needed, done, m - 1) + if needed[m - 1] && !done.contains((m - 1) as usize) {
            1nat
        } else {
            0nat
        }
    }
}

pub proof fn lemma_occ_push(s: Seq<usize>, v: usize, x: usize)
    ensures
        occ(s.push(v), x) == occ(s, x) + if v == x {
            1nat
        } else {
            0nat
        },
{
    assert(s.push(v).drop_last() =~= s);
}

pub proof fn lemma_occ_take(s: Seq<usize>, k: int, x: usize)
    requires
        0 <= k < s.len(),
    ensures
        occ(s.take(k + 1), x) == occ(s.take(k), x) + if s[k] == x {
            1nat
        } else {
            0nat
        },
{
    assert(s.take(k + 1) =~= s.take(k).push(s[k]));
    lemma_occ_push(s.take(k), s[k], x);
}

pub proof fn lemma_occ_take_le(s: Seq<usize>, k: int, x: usize)
    requires
        0 <= k <= s.len(),
    ensures
        occ(s.take(k), x) <= occ(s, x),
    decreases s.len() - k,
{
    if k == s.len() {
        assert(s.take(k) =~= s);
    } else {
        lemma_occ_take(s, k, x);
        lemma_occ_take_le(s, k + 1, x);
    }
}

pub proof fn lemma_occ_zero(s: Seq<usize>, x: usize)
    ensures
        occ(s, x) == 0 <==> !s.contains(x),
    decreases s.len(),
{
    if s.len() > 0 {
        lemma_occ_zero(s.drop_last(), x);
        if s.drop_last().contains(x) {
            let j = choose|j: int| 0 <= j < s.drop_last().len() && s.drop_last()[j] == x;
            assert(s[j] == x);
        }
        if s.contains(x) && s.last() != x {
            let j = choose|j: int| 0 <= j < s.len() && s[j] == x;
            assert(s.drop_last()[j] == x);
        }
    }
}

/// Marking `x` done removes exactly its occurrences from the unresolved count.
pub proof fn lemma_unresolved_push(s: Seq<usize>, done: Seq<usize>, x: usize)
    requires
        !done.contains(x),
    ensures
        unresolved(s, done) == unresolved(s, done.push(x)) + occ(s, x),
    decreases s.len(),
{
    if s.len() > 0 {
        lemma_unresolved_push(s.drop_last(), done, x);
        let y = s.last();
        if done.contains(y) {
            let j = choose|j: int| 0 <= j < done.len() && done[j] == y;
            assert(done.push(x)[j] == y);
        }
        if done.push(x).contains(y) && y != x {
            let j = choose|j: int| 0 <= j < done.push(x).len() && done.push(x)[j] == y;
            assert(done[j] == y);
        }
        assert(done.push(x).contains(x)) by {
            assert(done.push(x)[done.len() as int] == x);
        }
    }
}

pub proof fn lemma_unresolved_zero(s: Seq<usize>, done: Seq<usize>)
    ensures
        unresolved(s, done) == 0 <==> forall|j: int| 0 <= j < s.len() ==> done.contains(#[trigger] s[j]),
    decreases s.len(),
{
    if s.len() > 0 {
        lemma_unresolved_zero(s.drop_last(), done);
        if unresolved(s, done) == 0 {
            assert forall|j: int| 0 <= j < s.len() implies done.contains(#[trigger] s[j]) by {
                if j < s.len() - 1 {
                    assert(s.drop_last()[j] == s[j]);
                }
            }
        }
        if forall|j: int| 0 <= j < s.len() ==> done.contains(#[trigger] s[j]) {
            assert forall|j: int| 0 <= j < s.drop_last().len() implies done.contains(
                #[trigger] s.drop_last()[j],
            ) by {
                assert(s.drop_last()[j] == s[j]);
            }
            assert(done.contains(s[s.len() - 1]));
        }
    }
}

pub proof fn lemma_unresolved_empty(s: Seq<usize>)
    ensures
        unresolved(s, Seq::empty()) == s.len(),
    decreases s.len(),
{
    if s.len() > 0 {
        lemma_unresolved_empty(s.drop_last());
    }
}

pub proof fn lemma_count_true_update(b: Seq<bool>, i: int)
    requires
        0 <= i < b.len(),
        !b[i],
    ensures
        count_true(b.update(i, true)) == count_true(b) + 1,
    decreases b.len(),
{
    if i == b.len() - 1 {
        assert(b.update(i, true).drop_last() =~= b.drop_last());
    } else {
        assert(b.update(i, true).drop_last() =~= b.drop_last().update(i, true));
        lemma_count_true_update(b.drop_last(), i);
    }
}

pub proof fn lemma_count_true_le(b: Seq<bool>)
    ensures
        count_true(b) <= b.len(),
    decreases b.len(),
{
    if b.len() > 0 {
        lemma_count_true_le(b.drop_last());
    }
}

pub proof fn lemma_count_true_prefix(b: Seq<bool>, m: int)
    requires
        0 <= m < b.len(),
    ensures
        count_true(b.take(m + 1)) == count_true(b.take(m)) + if b[m] {
            1nat
        } else {
            0nat
        },
{
    assert(b.take(m + 1).drop_last() =~= b.take(m));
}

pub proof fn lemma_count_pending_empty(needed: Seq<bool>, m: int)
    requires
        0 <= m <= needed.len(),
    ensures
        count_pending(needed, Seq::empty(), m) == count_true(needed.take(m)),
    decreases m,
{
    if m > 0 {
        lemma_count_pending_empty(needed, m - 1);
        lemma_count_true_prefix(needed, m - 1);
    }
}

/// Completing one more pending node lowers the pending count by one.
pub proof fn lemma_count_pending_push(needed: Seq<bool>, done: Seq<usize>, x: usize, m: int)
    requires
        0 <= x < needed.len(),
        needed[x as int],
        !done.contains(x),
        0 <= m <= needed.len(),
        needed.len() <= usize::MAX,
    ensures
        count_pending(needed, done.push(x), m) + if x < m {
            1nat
        } else {
            0nat
        } == count_pending(needed, done, m),
    decreases m,
{
    if m > 0 {
        lemma_count_pending_push(needed, done, x, m - 1);
        let y = (m - 1) as usize;
        assert(done.push(x)[done.len() as int] == x);
        assert(done.push(x).contains(x));
        if y == x {
            assert(count_pending(needed, done.push(x), m) == count_pending(needed, done.push(x), m - 1));
            assert(count_pending(needed, done, m) == count_pending(needed, done, m - 1) + 1);
        }
        if done.contains(y) {
            let j = choose|j: int| 0 <= j < done.len() && done[j] == y;
            assert(done.push(x)[j] == y);
        }
        if done.push(x).contains(y) && y != x {
            let j = choose|j: int| 0 <= j < done.push(x).len() && done.push(x)[j] == y;
            assert(done[j] == y);
        }
    }
}

/// The pending count is zero exactly when every needed position below `m` is done.
pub proof fn lemma_count_pending_zero(needed: Seq<bool>, done: Seq<usize>, m: int)
    requires
        0 <= m <= needed.len(),
    ensures
        count_pending(needed, done, m) == 0 <==> forall|i: int|
            0 <= i < m && #[trigger] needed[i] ==> done.contains(i as usize),
    decreases m,
{
    if m > 0 {
        lemma_count_pending_zero(needed, done, m - 1);
    }
}

} // verus!
