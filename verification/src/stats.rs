use vstd::prelude::*;

verus! {

/// The index that `percentile` reads: `len * pct / 100`, clamped to the
/// last index.
pub open spec fn pct_index(len: nat, pct: nat) -> int {
    if len * pct / 100 < len - 1 {
        (len * pct / 100) as int
    } else {
        len - 1
    }
}

/// The element at `pct` percent of a sorted slice: index `len * pct / 100`,
/// clamped to the last element.  0 for an empty slice.
pub fn percentile(sorted: &[u128], pct: usize) -> (r: u128)
    requires
        sorted@.len() * pct <= usize::MAX,
    ensures
        sorted@.len() == 0 ==> r == 0,
        sorted@.len() > 0 ==> r == sorted@[pct_index(sorted@.len(), pct as nat)],
{
    if sorted.len() == 0 {
        return 0;
    }
    let scaled = (sorted.len() * pct) / 100;
    let idx = if scaled < sorted.len() - 1 { scaled } else { sorted.len() - 1 };
    sorted[idx]
}

/// On a non-decreasing sequence, a higher percent never reads a smaller
/// value, and every percentile lies between the first and the last value.
pub proof fn law_percentile_monotone(s: Seq<u128>, p1: nat, p2: nat)
    requires
        forall|i: int, j: int| 0 <= i <= j < s.len() ==> s[i] <= s[j],
        s.len() > 0,
        p1 <= p2,
    ensures
        0 <= pct_index(s.len(), p1) <= pct_index(s.len(), p2) < s.len(),
        s[0] <= s[pct_index(s.len(), p1)],
        s[pct_index(s.len(), p1)] <= s[pct_index(s.len(), p2)],
        s[pct_index(s.len(), p2)] <= s[s.len() - 1],
{
    let n = s.len();
    assert(n * p1 / 100 <= n * p2 / 100) by (nonlinear_arith)
        requires
            p1 <= p2,
    ;
    assert(0 <= n * p1 / 100) by (nonlinear_arith);
}

/// The sum of a sequence of values.
pub open spec fn seq_sum(s: Seq<u128>) -> int
    decreases s.len(),
{
    if s.len() == 0 {
        0
    } else {
        seq_sum(s.drop_last()) + s.last()
    }
}

proof fn lemma_prefix_sum_le(s: Seq<u128>, i: int)
    requires
        0 <= i <= s.len(),
    ensures
        seq_sum(s.take(i)) <= seq_sum(s),
    decreases s.len() - i,
{
    if i < s.len() {
        lemma_prefix_sum_le(s, i + 1);
        assert(s.take(i + 1).drop_last() =~= s.take(i));
    } else {
        assert(s.take(i) =~= s);
    }
}

/// The average of the values, rounded down: their sum divided by their
/// number, 0 when there are none.  `None` when the sum does not fit in a
/// `u128`.
pub fn average(v: &[u128]) -> (r: Option<u128>)
    ensures
        r is None <==> seq_sum(v@) > u128::MAX,
        r matches Some(a) ==> a == if v@.len() == 0 {
            0
        } else {
            seq_sum(v@) / (v@.len() as int)
        },
{
    let mut total: u128 = 0;
    let mut i: usize = 0;
    while i < v.len()
        invariant
            i <= v@.len(),
            total == seq_sum(v@.take(i as int)),
        decreases v@.len() - i,
    {
        proof {
            assert(v@.take(i + 1).drop_last() =~= v@.take(i as int));
        }
        match total.checked_add(v[i]) {
            Some(t) => {
                total = t;
            },
            None => {
                proof {
                    lemma_prefix_sum_le(v@, i + 1);
                }
                return None;
            },
        }
        i += 1;
    }
    proof {
        assert(v@.take(i as int) =~= v@);
    }
    if v.len() == 0 {
        return Some(0);
    }
    Some(total / (v.len() as u128))
}

} // verus!
