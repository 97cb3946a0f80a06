use crate::estimate::{
    alpha_den, estimate, indicator_sum, lemma_ln_ratio_antitone, ln_ratio, raw_den, raw_num,
    zero_count, LN_ONE, TWO_POW_32,
};
use vstd::arithmetic::div_mod::{lemma_div_is_ordered, lemma_div_is_ordered_by_denominator};
use vstd::arithmetic::power2::{lemma_pow2_pos, lemma_pow2_strictly_increases};
use crate::hll::{decode, encode, max_registers, HllView, MAX_PRECISION, MIN_PRECISION};
use vstd::prelude::*;

verus! {

/// Two estimators in the same state that observe the same hashes in the
/// same order end in the same state.
pub proof fn lemma_deterministic(a: HllView, b: HllView, hashes: Seq<u64>)
    requires
        a == b,
    ensures
        a.absorb_all(hashes) == b.absorb_all(hashes),
        estimate(a.absorb_all(hashes).registers) == estimate(b.absorb_all(hashes).registers),
{
}

/// Observing a hash keeps the state well formed and never lowers a register.
pub proof fn lemma_absorb_raises(v: HllView, hash: u64)
    requires
        v.wf(),
    ensures
        v.absorb(hash).wf(),
        v.absorb(hash).dominates(v),
{
    crate::hll::lemma_index_rank_bounds(hash, v.precision);
}

/// Observing a sequence of hashes never lowers a register.
pub proof fn lemma_absorb_all_raises(v: HllView, hashes: Seq<u64>)
    requires
        v.wf(),
    ensures
        v.absorb_all(hashes).wf(),
        v.absorb_all(hashes).dominates(v),
    decreases hashes.len(),
{
    if hashes.len() > 0 {
        lemma_absorb_all_raises(v, hashes.drop_last());
        lemma_absorb_raises(v.absorb_all(hashes.drop_last()), hashes.last());
    }
}

/// Observing a hash a second time changes nothing.
pub proof fn lemma_absorb_idempotent(v: HllView, hash: u64)
    requires
        v.wf(),
    ensures
        v.absorb(hash).absorb(hash) == v.absorb(hash),
{
    crate::hll::lemma_index_rank_bounds(hash, v.precision);
}

/// Once a hash has been observed, observing it any number of further times
/// leaves the state, and so the estimate, as it was.
pub proof fn lemma_repeats_change_nothing(v: HllView, hash: u64, times: nat)
    requires
        v.wf(),
    ensures
        v.absorb(hash).absorb_all(Seq::new(times, |i: int| hash)) == v.absorb(hash),
        estimate(v.absorb(hash).absorb_all(Seq::new(times, |i: int| hash)).registers) == estimate(
            v.absorb(hash).registers,
        ),
    decreases times,
{
    if times > 0 {
        lemma_repeats_change_nothing(v, hash, (times - 1) as nat);
        assert(Seq::new(times, |i: int| hash).drop_last() =~= Seq::new((times - 1) as nat, |i: int| hash));
        lemma_absorb_idempotent(v, hash);
    }
}

/// Union is commutative.
pub proof fn lemma_union_commutative(a: HllView, b: HllView)
    requires
        a.wf(),
        b.wf(),
        a.precision == b.precision,
    ensures
        a.union(b) == b.union(a),
{
    assert(max_registers(a.registers, b.registers) =~= max_registers(b.registers, a.registers));
}

/// Union is associative.
pub proof fn lemma_union_associative(a: HllView, b: HllView, c: HllView)
    requires
        a.wf(),
        b.wf(),
        c.wf(),
        a.precision == b.precision,
        b.precision == c.precision,
    ensures
        a.union(b).union(c) == a.union(b.union(c)),
{
    assert(max_registers(max_registers(a.registers, b.registers), c.registers) =~= max_registers(
        a.registers,
        max_registers(b.registers, c.registers),
    ));
}

/// Absorbing `b` then `c` gives the same registers as absorbing `c` then `b`.
pub proof fn lemma_union_order_free(a: HllView, b: HllView, c: HllView)
    requires
        a.wf(),
        b.wf(),
        c.wf(),
        a.precision == b.precision,
        b.precision == c.precision,
    ensures
        a.union(b).union(c) == a.union(c).union(b),
{
    assert(max_registers(max_registers(a.registers, b.registers), c.registers) =~= max_registers(
        max_registers(a.registers, c.registers),
        b.registers,
    ));
}

/// Union with itself changes nothing.
pub proof fn lemma_union_idempotent(a: HllView)
    requires
        a.wf(),
    ensures
        a.union(a) == a,
{
    assert(max_registers(a.registers, a.registers) =~= a.registers);
}

/// Union keeps the state well formed and raises both operands.
pub proof fn lemma_union_raises(a: HllView, b: HllView)
    requires
        a.wf(),
        b.wf(),
        a.precision == b.precision,
    ensures
        a.union(b).wf(),
        a.union(b).dominates(a),
        a.union(b).dominates(b),
{
}

/// Decoding the serialized form gives back the same state.
pub proof fn lemma_round_trip(v: HllView)
    requires
        v.wf(),
    ensures
        decode(encode(v)) == Some(v),
{
    assert(encode(v).drop_first() =~= v.registers);
}

/// Raising registers never raises the indicator sum.
pub proof fn lemma_indicator_sum_antitone(lo: Seq<u8>, hi: Seq<u8>)
    requires
        lo.len() == hi.len(),
        forall|i: int| 0 <= i < lo.len() ==> lo[i] <= hi[i] && hi[i] <= 64,
    ensures
        indicator_sum(hi) <= indicator_sum(lo),
    decreases lo.len(),
{
    if lo.len() > 0 {
        lemma_indicator_sum_antitone(lo.drop_last(), hi.drop_last());
        let a = (64 - lo.last()) as nat;
        let b = (64 - hi.last()) as nat;
        if b < a {
            lemma_pow2_strictly_increases(b, a);
        }
    }
}

/// Registers whose estimate is the plain raw estimate: neither linear
/// counting nor the large-range correction applies.
pub open spec fn in_raw_range(registers: Seq<u8>) -> bool {
    &&& !in_linear_range(registers)
    &&& 30 * raw_num(registers) <= (TWO_POW_32 as nat) * raw_den(registers)
}

/// Observing more elements never lowers the estimate while both states lie
/// in the raw-estimate range.
pub proof fn lemma_estimate_monotone_in_raw_range(before: HllView, after: HllView)
    requires
        before.wf(),
        after.wf(),
        after.dominates(before),
        in_raw_range(before.registers),
        in_raw_range(after.registers),
    ensures
        estimate(before.registers) <= estimate(after.registers),
{
    let m = before.registers.len();
    lemma_indicator_sum_antitone(before.registers, after.registers);
    lemma_pow2_pos(after.precision as nat);
    lemma_indicator_sum_positive(after.registers);
    let n = raw_num(before.registers);
    let d_lo = raw_den(after.registers);
    let d_hi = raw_den(before.registers);
    assert(d_lo <= d_hi) by (nonlinear_arith)
        requires
            d_lo == alpha_den(m) * indicator_sum(after.registers),
            d_hi == alpha_den(m) * indicator_sum(before.registers),
            indicator_sum(after.registers) <= indicator_sum(before.registers),
    ;
    assert(d_lo > 0) by (nonlinear_arith)
        requires
            d_lo == alpha_den(m) * indicator_sum(after.registers),
            alpha_den(m) > 0,
            indicator_sum(after.registers) > 0,
    ;
    lemma_div_is_ordered_by_denominator(n as int, d_lo as int, d_hi as int);
}

/// A non-empty register array with every register at most 64 has a positive
/// indicator sum.
pub proof fn lemma_indicator_sum_positive(registers: Seq<u8>)
    requires
        registers.len() > 0,
        forall|i: int| 0 <= i < registers.len() ==> registers[i] <= 64,
    ensures
        indicator_sum(registers) > 0,
{
    lemma_pow2_pos((64 - registers.last()) as nat);
}

/// Observing a hash on the right operand of a union is observing it on the
/// union.
pub proof fn lemma_union_absorb(a: HllView, b: HllView, hash: u64)
    requires
        a.wf(),
        b.wf(),
        a.precision == b.precision,
    ensures
        a.union(b.absorb(hash)) == a.union(b).absorb(hash),
{
    crate::hll::lemma_index_rank_bounds(hash, b.precision);
    assert(a.union(b.absorb(hash)).registers =~= a.union(b).absorb(hash).registers);
}

/// Observing hashes on the right operand of a union is observing them on
/// the union.
pub proof fn lemma_union_absorb_all(a: HllView, b: HllView, hashes: Seq<u64>)
    requires
        a.wf(),
        b.wf(),
        a.precision == b.precision,
    ensures
        a.union(b.absorb_all(hashes)) == a.union(b).absorb_all(hashes),
    decreases hashes.len(),
{
    if hashes.len() > 0 {
        lemma_union_absorb_all(a, b, hashes.drop_last());
        lemma_absorb_all_raises(b, hashes.drop_last());
        lemma_union_absorb(a, b.absorb_all(hashes.drop_last()), hashes.last());
    }
}

/// Observing `x` then `y` is observing their concatenation.
pub proof fn lemma_absorb_all_concat(v: HllView, x: Seq<u64>, y: Seq<u64>)
    ensures
        v.absorb_all(x).absorb_all(y) == v.absorb_all(x + y),
    decreases y.len(),
{
    if y.len() > 0 {
        lemma_absorb_all_concat(v, x, y.drop_last());
        assert((x + y).drop_last() =~= x + y.drop_last());
        assert((x + y).last() == y.last());
    } else {
        assert(x + y =~= x);
    }
}

/// Merging an estimator fed `x` with one fed `y`, both starting empty at one
/// precision, gives the state of a single estimator fed `x` then `y`.
pub proof fn lemma_union_is_combined_stream(precision: u8, x: Seq<u64>, y: Seq<u64>)
    requires
        MIN_PRECISION <= precision <= MAX_PRECISION,
    ensures
        HllView::empty(precision).absorb_all(x).union(HllView::empty(precision).absorb_all(y))
            == HllView::empty(precision).absorb_all(x + y),
{
    let e = HllView::empty(precision);
    let a = e.absorb_all(x);
    lemma_absorb_all_raises(e, x);
    lemma_union_absorb_all(a, e, y);
    assert(a.union(e).registers =~= a.registers);
    lemma_absorb_all_concat(e, x, y);
}

/// Raising registers never adds a zero register.
pub proof fn lemma_zero_count_antitone(lo: Seq<u8>, hi: Seq<u8>)
    requires
        lo.len() == hi.len(),
        forall|i: int| 0 <= i < lo.len() ==> lo[i] <= hi[i],
    ensures
        zero_count(hi) <= zero_count(lo),
        zero_count(lo) <= lo.len(),
    decreases lo.len(),
{
    if lo.len() > 0 {
        lemma_zero_count_antitone(lo.drop_last(), hi.drop_last());
    }
}

/// Registers whose estimate comes from linear counting: the raw estimate is
/// at most `2.5 m` and some register is still zero.
pub open spec fn in_linear_range(registers: Seq<u8>) -> bool {
    let m = registers.len();
    &&& 2 * raw_num(registers) <= 5 * m * raw_den(registers)
    &&& zero_count(registers) > 0
}

/// Observing more elements never lowers the estimate while both states lie
/// in the linear-counting range.
pub proof fn lemma_estimate_monotone_in_linear_range(before: HllView, after: HllView)
    requires
        before.wf(),
        after.wf(),
        after.dominates(before),
        in_linear_range(before.registers),
        in_linear_range(after.registers),
    ensures
        estimate(before.registers) <= estimate(after.registers),
{
    let m = before.registers.len();
    lemma_zero_count_antitone(before.registers, after.registers);
    let z_lo = zero_count(after.registers);
    let z_hi = zero_count(before.registers);
    lemma_ln_ratio_antitone(m, z_lo, z_hi);
    let l_lo = ln_ratio(m, z_hi);
    let l_hi = ln_ratio(m, z_lo);
    assert(m * l_lo <= m * l_hi) by (nonlinear_arith)
        requires l_lo <= l_hi;
    lemma_div_is_ordered((m * l_lo) as int, (m * l_hi) as int, LN_ONE as int);
}

} // verus!
