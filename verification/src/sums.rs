//! Sums of record fields, grouped by a key, with saturation at `u64::MAX`.
//!
//! Aggregation walks a sequence of records beside a parallel sequence of
//! bucket keys (one key per record). The spec functions here say what a
//! per-bucket sum is, and the partition lemma says that the per-bucket sums
//! of a family of distinct keys covering every record add up to the grand
//! total. Executable accumulators saturate at `u64::MAX`; `sat64` is the
//! mathematical statement of that.

use vstd::prelude::*;

verus! {

/// Sum of `f` over those of the first `n` entries of `s` whose entry in the
/// parallel key sequence `keys` equals `k`.
pub open spec fn total_where<A, K>(s: Seq<A>, keys: Seq<K>, k: K, f: spec_fn(A) -> nat, n: int) -> nat
    decreases n,
{
    if n <= 0 {
        0
    } else {
        total_where(s, keys, k, f, n - 1) + if keys[n - 1] == k {
            f(s[n - 1])
        } else {
            0nat
        }
    }
}

/// Sum of `f` over the first `n` entries of `s`.
pub open spec fn total_of<A>(s: Seq<A>, f: spec_fn(A) -> nat, n: int) -> nat
    decreases n,
{
    if n <= 0 {
        0
    } else {
        total_of(s, f, n - 1) + f(s[n - 1])
    }
}

/// Sum of a sequence of naturals.
pub open spec fn sum(s: Seq<nat>) -> nat
    decreases s.len(),
{
    if s.len() == 0 {
        0
    } else {
        sum(s.drop_last()) + s.last()
    }
}

/// A mathematical value clamped to what a `u64` accumulator holds.
pub open spec fn sat64(n: nat) -> u64 {
    if n > u64::MAX {
        u64::MAX
    } else {
        n as u64
    }
}

/// Saturating addition on `u64`, as the executable accumulators perform it.
pub open spec fn sat_add64(a: u64, b: u64) -> u64 {
    sat64((a + b) as nat)
}

/// Saturating addition never loses which total it stands for: adding the
/// clamped parts clamps the true total.
pub proof fn lemma_sat_add(a: nat, b: nat)
    ensures
        sat_add64(sat64(a), sat64(b)) == sat64(a + b),
{
}

/// A sequence of zeros sums to zero.
pub proof fn lemma_sum_zero(s: Seq<nat>)
    requires
        forall|i: int| 0 <= i < s.len() ==> s[i] == 0,
    ensures
        sum(s) == 0,
    decreases s.len(),
{
    if s.len() > 0 {
        lemma_sum_zero(s.drop_last());
    }
}

/// Sums add pointwise.
pub proof fn lemma_sum_pointwise_add(a: Seq<nat>, b: Seq<nat>, c: Seq<nat>)
    requires
        a.len() == b.len(),
        b.len() == c.len(),
        forall|i: int| 0 <= i < a.len() ==> c[i] == a[i] + b[i],
    ensures
        sum(c) == sum(a) + sum(b),
    decreases a.len(),
{
    if a.len() > 0 {
        lemma_sum_pointwise_add(a.drop_last(), b.drop_last(), c.drop_last());
    }
}

/// A sequence that is `v` at the one position holding `k` and zero elsewhere
/// sums to `v`, provided the keys are distinct and `k` occurs.
pub proof fn lemma_sum_delta<K>(klist: Seq<K>, k: K, v: nat)
    requires
        forall|i: int, j: int| 0 <= i < j < klist.len() ==> klist[i] != klist[j],
        klist.contains(k),
    ensures
        sum(Seq::new(klist.len(), |i: int| if klist[i] == k { v } else { 0nat })) == v,
    decreases klist.len(),
{
    let d = Seq::new(klist.len(), |i: int| if klist[i] == k { v } else { 0nat });
    if klist.last() == k {
        assert(d.drop_last() =~= Seq::new((klist.len() - 1) as nat, |i: int| if klist.drop_last()[i] == k { v } else { 0nat }));
        assert(forall|i: int| 0 <= i < klist.len() - 1 ==> klist[i] != k);
        lemma_sum_zero(d.drop_last());
    } else {
        let j = choose|j: int| 0 <= j < klist.len() && klist[j] == k;
        assert(klist.drop_last()[j] == k);
        assert(klist.drop_last().contains(k));
        assert(d.drop_last() =~= Seq::new((klist.len() - 1) as nat, |i: int| if klist.drop_last()[i] == k { v } else { 0nat }));
        lemma_sum_delta(klist.drop_last(), k, v);
        assert(d.last() == 0nat);
    }
}

/// The per-bucket sums over a family of distinct keys covering every entry.
pub open spec fn group_sums<A, K>(s: Seq<A>, keys: Seq<K>, klist: Seq<K>, f: spec_fn(A) -> nat, n: int) -> Seq<nat> {
    klist.map_values(|k: K| total_where(s, keys, k, f, n))
}

/// Partition: when the keys in `klist` are distinct and cover the key of each
/// of the first `n` entries, the per-bucket sums add up to the grand total.
pub proof fn lemma_partition<A, K>(s: Seq<A>, keys: Seq<K>, klist: Seq<K>, f: spec_fn(A) -> nat, n: int)
    requires
        0 <= n,
        forall|i: int, j: int| 0 <= i < j < klist.len() ==> klist[i] != klist[j],
        forall|i: int| 0 <= i < n ==> klist.contains(keys[i]),
    ensures
        sum(group_sums(s, keys, klist, f, n)) == total_of(s, f, n),
    decreases n,
{
    if n > 0 {
        lemma_partition(s, keys, klist, f, n - 1);
        let prev = group_sums(s, keys, klist, f, n - 1);
        let cur = group_sums(s, keys, klist, f, n);
        let d = Seq::new(klist.len(), |i: int| if klist[i] == keys[n - 1] { f(s[n - 1]) } else { 0nat });
        assert(forall|i: int| 0 <= i < klist.len() ==> cur[i] == prev[i] + d[i]);
        lemma_sum_pointwise_add(prev, d, cur);
        lemma_sum_delta(klist, keys[n - 1], f(s[n - 1]));
        assert(sum(cur) == sum(prev) + sum(d));
        assert(sum(d) == f(s[n - 1]));
        assert(sum(prev) == total_of(s, f, n - 1));
        assert(total_of(s, f, n) == total_of(s, f, n - 1) + f(s[n - 1]));
    } else {
        assert(forall|i: int| 0 <= i < klist.len() ==> group_sums(s, keys, klist, f, 0)[i] == 0);
        lemma_sum_zero(group_sums(s, keys, klist, f, 0));
    }
}

/// Folding saturating additions over clamped parts yields the clamp of the
/// mathematical total of the parts.
pub proof fn lemma_sat_fold(parts: Seq<nat>)
    ensures
        fold_sat(parts.map_values(|p: nat| sat64(p))) == sat64(sum(parts)),
    decreases parts.len(),
{
    let clamped = parts.map_values(|p: nat| sat64(p));
    if parts.len() > 0 {
        assert(clamped.drop_last() =~= parts.drop_last().map_values(|p: nat| sat64(p)));
        lemma_sat_fold(parts.drop_last());
        lemma_sat_add(sum(parts.drop_last()), parts.last());
    }
}

/// A saturating left-to-right accumulation of a sequence of `u64` values.
pub open spec fn fold_sat(s: Seq<u64>) -> u64
    decreases s.len(),
{
    if s.len() == 0 {
        0u64
    } else {
        sat_add64(fold_sat(s.drop_last()), s.last())
    }
}

} // verus!
