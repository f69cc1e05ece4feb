use vstd::prelude::*;

verus! {

/// Sum of a sequence of naturals.
pub open spec fn seq_sum(s: Seq<nat>) -> nat
    decreases s.len(),
{
    if s.len() == 0 {
        0
    } else {
        seq_sum(s.drop_last()) + s.last()
    }
}

/// Number of entries of `s` that hold a value.
pub open spec fn count_some(s: Seq<Option<usize>>) -> nat {
    seq_sum(s.map_values(|o: Option<usize>| if o is Some { 1nat } else { 0nat }))
}

/// Replacing one element changes the sum by the difference.
pub proof fn lemma_sum_update(s: Seq<nat>, i: int, v: nat)
    requires
        0 <= i < s.len(),
    ensures
        seq_sum(s.update(i, v)) as int == seq_sum(s) as int - s[i] as int + v as int,
    decreases s.len(),
{
    let t = s.update(i, v);
    if i == s.len() - 1 {
        assert(t.drop_last() =~= s.drop_last());
    } else {
        assert(t.drop_last() =~= s.drop_last().update(i, v));
        lemma_sum_update(s.drop_last(), i, v);
    }
}

/// A pointwise smaller sequence has a smaller sum.
pub proof fn lemma_sum_le(s: Seq<nat>, t: Seq<nat>)
    requires
        s.len() == t.len(),
        forall|i: int| 0 <= i < s.len() ==> s[i] <= t[i],
    ensures
        seq_sum(s) <= seq_sum(t),
    decreases s.len(),
{
    if s.len() > 0 {
        lemma_sum_le(s.drop_last(), t.drop_last());
    }
}

/// The sum of a prefix extends by the next element.
pub proof fn lemma_sum_take_step(s: Seq<nat>, k: int)
    requires
        0 <= k < s.len(),
    ensures
        seq_sum(s.take(k + 1)) == seq_sum(s.take(k)) + s[k],
{
    assert(s.take(k + 1).drop_last() =~= s.take(k));
}

/// A prefix sums to no more than the whole.
pub proof fn lemma_sum_take_le(s: Seq<nat>, k: int)
    requires
        0 <= k <= s.len(),
    ensures
        seq_sum(s.take(k)) <= seq_sum(s),
    decreases s.len() - k,
{
    if k < s.len() {
        lemma_sum_take_step(s, k);
        lemma_sum_take_le(s, k + 1);
    } else {
        assert(s.take(k) =~= s);
    }
}

/// The count of filled entries never exceeds the length.
pub proof fn lemma_count_some_le_len(s: Seq<Option<usize>>)
    ensures
        count_some(s) <= s.len(),
    decreases s.len(),
{
    if s.len() > 0 {
        lemma_count_some_le_len(s.drop_last());
        let m = s.map_values(|o: Option<usize>| if o is Some { 1nat } else { 0nat });
        assert(m.drop_last() =~= s.drop_last().map_values(
            |o: Option<usize>| if o is Some { 1nat } else { 0nat },
        ));
    }
}

/// Filling an empty entry adds one to the count.
pub proof fn lemma_count_some_fill(s: Seq<Option<usize>>, i: int, x: usize)
    requires
        0 <= i < s.len(),
        s[i] is None,
    ensures
        count_some(s.update(i, Some(x))) == count_some(s) + 1,
{
    let f = |o: Option<usize>| if o is Some { 1nat } else { 0nat };
    let m = s.map_values(f);
    assert(s.update(i, Some(x)).map_values(f) =~= m.update(i, 1nat));
    lemma_sum_update(m, i, 1nat);
}

/// A sequence with no filled entry has count zero.
pub proof fn lemma_count_some_none(s: Seq<Option<usize>>)
    requires
        forall|i: int| 0 <= i < s.len() ==> s[i] is None,
    ensures
        count_some(s) == 0,
    decreases s.len(),
{
    if s.len() > 0 {
        lemma_count_some_none(s.drop_last());
        let f = |o: Option<usize>| if o is Some { 1nat } else { 0nat };
        assert(s.map_values(f).drop_last() =~= s.drop_last().map_values(f));
    }
}

/// A sequence of zeros sums to zero.
pub proof fn lemma_sum_zeros(s: Seq<nat>)
    requires
        forall|i: int| 0 <= i < s.len() ==> s[i] == 0,
    ensures
        seq_sum(s) == 0,
    decreases s.len(),
{
    if s.len() > 0 {
        lemma_sum_zeros(s.drop_last());
    }
}

/// Number of `true` entries of `s`.
pub open spec fn count_true(s: Seq<bool>) -> nat {
    seq_sum(s.map_values(|b: bool| if b { 1nat } else { 0nat }))
}

/// The count of `true` entries never exceeds the length.
pub proof fn lemma_count_true_le_len(s: Seq<bool>)
    ensures
        count_true(s) <= s.len(),
    decreases s.len(),
{
    if s.len() > 0 {
        lemma_count_true_le_len(s.drop_last());
        let f = |b: bool| if b { 1nat } else { 0nat };
        assert(s.map_values(f).drop_last() =~= s.drop_last().map_values(f));
    }
}

/// Setting a `false` entry adds one to the count.
pub proof fn lemma_count_true_set(s: Seq<bool>, i: int)
    requires
        0 <= i < s.len(),
        !s[i],
    ensures
        count_true(s.update(i, true)) == count_true(s) + 1,
{
    let f = |b: bool| if b { 1nat } else { 0nat };
    let m = s.map_values(f);
    assert(s.update(i, true).map_values(f) =~= m.update(i, 1nat));
    lemma_sum_update(m, i, 1nat);
}

} // verus!
