use vstd::arithmetic::power2::{lemma2_to64, lemma_pow2_pos, lemma_pow2_strictly_increases, pow2};
use vstd::bits::lemma_u64_shl_is_mul;
use vstd::arithmetic::div_mod::{
    lemma_div_by_multiple, lemma_div_is_ordered, lemma_fundamental_div_mod, lemma_div_nonincreasing,
    lemma_multiply_divide_lt,
};
use vstd::prelude::*;

verus! {

/// Fixed-point unit of the logarithm: values are scaled by `2^60`.
pub const LN_ONE: u128 = 0x1000_0000_0000_0000;

/// `ln 2` scaled by `2^60`, rounded down.
pub const LN_TWO: u128 = 799144290325165978;

/// Terms of the `atanh` series summed by the logarithm.
pub const SERIES_TERMS: u64 = 20;

/// `b` doubled while the double stays at most `a`, with the number of
/// doublings: `(k, b * 2^k)` for the largest `k` with `b * 2^k <= a`.
pub open spec fn reduce_ratio(a: nat, b: nat) -> (nat, nat)
    decreases a - b,
{
    if b > 0 && 2 * b <= a {
        let (k, c) = reduce_ratio(a, 2 * b);
        (k + 1, c)
    } else {
        (0, b)
    }
}

/// Sum of `p_i / (2i + 1)` for `i` from `i` up to `SERIES_TERMS`, where
/// `p_{i+1} = p_i * t2 / LN_ONE`: the odd series of `atanh` in fixed point.
pub open spec fn atanh_series(p: nat, t2: nat, i: nat) -> nat
    decreases SERIES_TERMS - i,
{
    if i >= SERIES_TERMS {
        0
    } else {
        p / (2 * i + 1) + atanh_series((p * t2 / (LN_ONE as nat)) as nat, t2, i + 1)
    }
}

/// `ln(a / b)` scaled by `LN_ONE`, for `1 <= b <= a`: with `a / b = 2^k * y`
/// and `1 <= y < 2`, it is `k ln 2 + 2 atanh((y - 1) / (y + 1))`, the series
/// summed in fixed point with each step rounded down.
pub open spec fn ln_ratio(a: nat, b: nat) -> nat {
    let (k, c) = reduce_ratio(a, b);
    let t = ((a - c) * (LN_ONE as int) / ((a + c) as int)) as nat;
    let t2 = (t * t / (LN_ONE as nat)) as nat;
    k * (LN_TWO as nat) + 2 * atanh_series(t, t2, 0)
}

/// Computes `ln_ratio(a, b)` for `1 <= b <= a <= 2^32`.
pub fn ln_ratio_exec(a: u64, b: u64) -> (r: u128)
    requires
        1 <= b <= a <= 0x1_0000_0000,
    ensures
        r == ln_ratio(a as nat, b as nat),
        r <= 33 * LN_TWO + 2 * SERIES_TERMS * LN_ONE,
{
    let mut k: u64 = 0;
    let mut c: u64 = b;
    proof {
        lemma2_to64();
    }
    while c <= a / 2
        invariant
            1 <= b <= c <= a <= 0x1_0000_0000,
            c == b * pow2(k as nat),
            k <= 32,
            reduce_ratio(a as nat, b as nat) == ({
                let (k2, c2) = reduce_ratio(a as nat, c as nat);
                ((k + k2) as nat, c2)
            }),
        decreases a - c,
    {
        proof {
            lemma_fundamental_div_mod(a as int, 2);
            assert(c * 2 <= a);
            vstd::arithmetic::power2::lemma_pow2_unfold((k + 1) as nat);
            assert(c * 2 == b * pow2((k + 1) as nat)) by (nonlinear_arith)
                requires
                    c == b * pow2(k as nat),
                    pow2((k + 1) as nat) == 2 * pow2(k as nat),
            ;
            if k + 1 > 32 {
                lemma2_to64();
                lemma_pow2_strictly_increases(32, (k + 1) as nat);
                assert(b * pow2((k + 1) as nat) >= pow2((k + 1) as nat)) by (nonlinear_arith)
                    requires b >= 1;
                assert(false);
            }
        }
        c = c * 2;
        k = k + 1;
    }
    assert(reduce_ratio(a as nat, c as nat) == (0nat, c as nat));
    let num: u128 = ((a - c) as u128) * LN_ONE;
    let den: u128 = (a + c) as u128;
    proof {
        assert(num < den * LN_ONE) by (nonlinear_arith)
            requires num == (a - c) * LN_ONE, den == a + c, c >= 1;
        lemma_multiply_divide_lt(num as int, den as int, LN_ONE as int);
    }
    let t: u128 = num / den;
    proof {
        assert(t * t < LN_ONE * LN_ONE) by (nonlinear_arith)
            requires t < LN_ONE;
        lemma_multiply_divide_lt((t * t) as int, LN_ONE as int, LN_ONE as int);
    }
    let t2: u128 = t * t / LN_ONE;
    let mut p: u128 = t;
    let mut sum: u128 = 0;
    let mut i: u64 = 0;
    while i < SERIES_TERMS
        invariant
            t < LN_ONE,
            t2 < LN_ONE,
            p < LN_ONE,
            i <= SERIES_TERMS,
            sum <= i * LN_ONE,
            sum + atanh_series(p as nat, t2 as nat, i as nat) == atanh_series(t as nat, t2 as nat, 0),
        decreases SERIES_TERMS - i,
    {
        proof {
            lemma_div_nonincreasing(p as int, (2 * i + 1) as int);
            assert(p * t2 <= p * LN_ONE) by (nonlinear_arith)
                requires t2 < LN_ONE;
            lemma_div_by_multiple(p as int, LN_ONE as int);
            lemma_div_is_ordered((p * t2) as int, (p * LN_ONE) as int, LN_ONE as int);
        }
        sum = sum + p / ((2 * i + 1) as u128);
        p = p * t2 / LN_ONE;
        i = i + 1;
    }
    k as u128 * LN_TWO + 2 * sum
}

/// `2^64`, the scale of the indicator sum.
pub const TWO_POW_64: u128 = 0x1_0000_0000_0000_0000;

/// `2^32`, the saturation point of the large-range correction.
pub const TWO_POW_32: u64 = 0x1_0000_0000;

/// `sum of 2^-r` over the registers, scaled by `2^64`.
pub open spec fn indicator_sum(registers: Seq<u8>) -> nat
    decreases registers.len(),
{
    if registers.len() == 0 {
        0
    } else {
        indicator_sum(registers.drop_last()) + pow2((64 - registers.last()) as nat)
    }
}

/// Number of registers still at zero.
pub open spec fn zero_count(registers: Seq<u8>) -> nat
    decreases registers.len(),
{
    if registers.len() == 0 {
        0
    } else {
        zero_count(registers.drop_last()) + if registers.last() == 0 { 1nat } else { 0nat }
    }
}

/// Numerator of the bias constant alpha for `m` registers.
pub open spec fn alpha_num(m: nat) -> nat {
    if m == 16 {
        673
    } else if m == 32 {
        697
    } else if m == 64 {
        709
    } else {
        7213 * m
    }
}

/// Denominator of alpha: `0.673`, `0.697`, `0.709` for 16, 32, 64 registers,
/// else `0.7213 / (1 + 1.079 / m) = 7213 m / (10000 m + 10790)`.
pub open spec fn alpha_den(m: nat) -> nat {
    if m == 16 || m == 32 || m == 64 {
        1000
    } else {
        10000 * m + 10790
    }
}

/// Numerator of the raw estimate `alpha m^2 / sum 2^-r`.
pub open spec fn raw_num(registers: Seq<u8>) -> nat {
    let m = registers.len();
    alpha_num(m) * m * m * (TWO_POW_64 as nat)
}

/// Denominator of the raw estimate.
pub open spec fn raw_den(registers: Seq<u8>) -> nat {
    alpha_den(registers.len()) * indicator_sum(registers)
}

/// The cardinality estimate of a register array, rounded down: linear
/// counting while the raw estimate is at most `2.5 m` and a register is
/// still zero; the raw estimate up to `2^32 / 30`; above that the
/// large-range correction `-2^32 ln(1 - raw / 2^32)`, which saturates at
/// `u64::MAX` once the raw estimate reaches `2^32`.
pub open spec fn estimate(registers: Seq<u8>) -> nat {
    let m = registers.len();
    let n = raw_num(registers);
    let d = raw_den(registers);
    let z = zero_count(registers);
    if 2 * n <= 5 * m * d && z > 0 {
        m * ln_ratio(m, z) / (LN_ONE as nat)
    } else if 30 * n <= (TWO_POW_32 as nat) * d {
        n / d
    } else if n / d >= TWO_POW_32 {
        u64::MAX as nat
    } else {
        (TWO_POW_32 as nat) * ln_ratio(TWO_POW_32 as nat, (TWO_POW_32 - n / d) as nat) / (LN_ONE as nat)
    }
}

/// Registers that `estimate_registers` accepts: between 16 and 65536 of
/// them, each at most 64.
pub open spec fn valid_registers(registers: Seq<u8>) -> bool {
    &&& 16 <= registers.len() <= 65536
    &&& forall|i: int| 0 <= i < registers.len() ==> registers[i] <= 64
}

/// Computes `estimate` of a register array.
pub fn estimate_registers(registers: &Vec<u8>) -> (r: u64)
    requires
        valid_registers(registers@),
    ensures
        r == estimate(registers@),
{
    let m: usize = registers.len();
    let mut s: u128 = 0;
    let mut z: u64 = 0;
    let mut i: usize = 0;
    while i < m
        invariant
            m == registers@.len(),
            valid_registers(registers@),
            i <= m,
            s == indicator_sum(registers@.take(i as int)),
            i <= s <= i * TWO_POW_64,
            z == zero_count(registers@.take(i as int)),
            z <= i,
        decreases m - i,
    {
        let r = registers[i];
        let term: u128 = if r == 0 {
            proof {
                lemma2_to64();
            }
            TWO_POW_64
        } else {
            proof {
                lemma2_to64();
                lemma_pow2_strictly_increases((64 - r) as nat, 64);
                lemma_pow2_pos((64 - r) as nat);
                lemma_u64_shl_is_mul(1, (64 - r) as u64);
            }
            (1u64 << (64 - r)) as u128
        };
        assert(registers@.take(i as int + 1).drop_last() =~= registers@.take(i as int));
        s = s + term;
        if r == 0 {
            z = z + 1;
        }
        i = i + 1;
    }
    assert(registers@.take(m as int) =~= registers@);
    let (an, ad): (u128, u128) = if m == 16 {
        (673, 1000)
    } else if m == 32 {
        (697, 1000)
    } else if m == 64 {
        (709, 1000)
    } else {
        (7213 * m as u128, 10000 * m as u128 + 10790)
    };
    let mm = m as u128;
    proof {
        assert(an == alpha_num(m as nat) && ad == alpha_den(m as nat));
        assert(1 <= an <= 472711168 && 1000 <= ad <= 655370790);
        assert(16 <= s <= 65536 * TWO_POW_64) by (nonlinear_arith)
            requires 16 <= m <= 65536, m <= s <= m * TWO_POW_64;
        assert(an * mm <= 472711168 * 65536) by (nonlinear_arith)
            requires an <= 472711168, mm <= 65536;
    }
    let am: u128 = an * mm;
    proof {
        assert(ad * s <= 655370790 * (65536 * TWO_POW_64)) by (nonlinear_arith)
            requires ad <= 655370790, s <= 65536 * TWO_POW_64;
        assert(ad * s >= 1) by (nonlinear_arith)
            requires ad >= 1, s >= 1;
        assert(am * mm <= 472711168 * 65536 * 65536) by (nonlinear_arith)
            requires am <= 472711168 * 65536, mm <= 65536;
    }
    let d: u128 = ad * s;
    let amm: u128 = am * mm;
    let n: u128 = amm * TWO_POW_64;
    proof {
        assert(n == raw_num(registers@)) by (nonlinear_arith)
            requires n == amm * TWO_POW_64, amm == am * mm, am == an * mm, mm == m,
                an == alpha_num(m as nat), raw_num(registers@) == alpha_num(m as nat) * m * m * TWO_POW_64;
        assert(d == raw_den(registers@));
    }
    // 2 n <= 5 m d, both sides divided by m.
    let small = 2 * am * TWO_POW_64 <= 5 * d;
    proof {
        assert(small <==> 2 * n <= 5 * m * d) by (nonlinear_arith)
            requires
                small <==> 2 * am * TWO_POW_64 <= 5 * d,
                n == am * mm * TWO_POW_64,
                mm == m,
                m >= 16,
        ;
    }
    if small && z > 0 {
        let ln = ln_ratio_exec(m as u64, z);
        proof {
            assert(mm * ln < LN_ONE * 0x1_0000_0000_0000_0000) by (nonlinear_arith)
                requires mm <= 65536, ln <= 33 * LN_TWO + 2 * SERIES_TERMS * LN_ONE;
            lemma_multiply_divide_lt((mm * ln) as int, LN_ONE as int, 0x1_0000_0000_0000_0000);
        }
        return (mm * ln / LN_ONE) as u64;
    }
    // 30 n <= 2^32 d, both sides divided by 2^32.
    let mid = 30 * amm * (TWO_POW_32 as u128) <= d;
    proof {
        assert(mid <==> 30 * n <= TWO_POW_32 * d) by (nonlinear_arith)
            requires
                mid <==> 30 * amm * TWO_POW_32 <= d,
                n == amm * TWO_POW_64,
                TWO_POW_64 == TWO_POW_32 * TWO_POW_32,
        ;
    }
    if mid {
        proof {
            assert(n < d * 0x1_0000_0000_0000_0000) by (nonlinear_arith)
                requires 30 * n <= TWO_POW_32 * d, d >= 1;
            lemma_multiply_divide_lt(n as int, d as int, 0x1_0000_0000_0000_0000);
        }
        return (n / d) as u64;
    }
    let q: u128 = n / d;
    if q >= TWO_POW_32 as u128 {
        return u64::MAX;
    }
    let ln = ln_ratio_exec(TWO_POW_32, TWO_POW_32 - q as u64);
    proof {
        assert(TWO_POW_32 * ln < LN_ONE * 0x1_0000_0000_0000_0000) by (nonlinear_arith)
            requires ln <= 33 * LN_TWO + 2 * SERIES_TERMS * LN_ONE;
        lemma_multiply_divide_lt((TWO_POW_32 * ln) as int, LN_ONE as int, 0x1_0000_0000_0000_0000);
    }
    (TWO_POW_32 as u128 * ln / LN_ONE) as u64
}
/// The doubling that `reduce_ratio` stops at lies in `(a / 2, a]`.
pub proof fn lemma_reduce_ratio(a: nat, b: nat)
    requires
        1 <= b <= a,
    ensures
        ({
            let (k, c) = reduce_ratio(a, b);
            &&& c == b * pow2(k)
            &&& c <= a < 2 * c
        }),
    decreases a - b,
{
    if 2 * b <= a {
        lemma_reduce_ratio(a, 2 * b);
        let (k, c) = reduce_ratio(a, 2 * b);
        assert(reduce_ratio(a, b) == (k + 1, c));
        vstd::arithmetic::power2::lemma_pow2_unfold(k + 1);
        assert(c == b * pow2(k + 1)) by (nonlinear_arith)
            requires c == (2 * b) * pow2(k), pow2(k + 1) == 2 * pow2(k);
    } else {
        lemma2_to64();
        assert(reduce_ratio(a, b) == (0nat, b));
        assert(b * pow2(0) == b);
    }
}

/// The series grows with its first term and its ratio.
pub proof fn lemma_atanh_series_monotone(p1: nat, p2: nat, t1: nat, t2: nat, i: nat)
    requires
        p1 <= p2,
        t1 <= t2,
    ensures
        atanh_series(p1, t1, i) <= atanh_series(p2, t2, i),
    decreases SERIES_TERMS - i,
{
    if i < SERIES_TERMS {
        lemma_div_is_ordered(p1 as int, p2 as int, (2 * i + 1) as int);
        assert(p1 * t1 <= p2 * t2) by (nonlinear_arith)
            requires p1 <= p2, t1 <= t2;
        lemma_div_is_ordered((p1 * t1) as int, (p2 * t2) as int, LN_ONE as int);
        lemma_atanh_series_monotone(
            (p1 * t1 / (LN_ONE as nat)) as nat,
            (p2 * t2 / (LN_ONE as nat)) as nat,
            t1,
            t2,
            i + 1,
        );
    }
}

/// Floor division respects the order of the exact quotients.
proof fn lemma_div_cross_ordered(x1: nat, d1: nat, x2: nat, d2: nat)
    requires
        d1 > 0,
        d2 > 0,
        x2 * d1 <= x1 * d2,
    ensures
        x2 / d2 <= x1 / d1,
{
    let q = x2 / d2;
    lemma_fundamental_div_mod(x2 as int, d2 as int);
    assert(q * d2 <= x2) by (nonlinear_arith)
        requires x2 == d2 * q + x2 % d2, x2 % d2 >= 0;
    assert(q * d1 <= x1) by (nonlinear_arith)
        requires q * d2 <= x2, x2 * d1 <= x1 * d2, d1 > 0, d2 > 0, q >= 0;
    lemma_div_is_ordered((q * d1) as int, x1 as int, d1 as int);
    vstd::arithmetic::div_mod::lemma_div_multiples_vanish(q as int, d1 as int);
    assert(q * d1 == d1 * q) by (nonlinear_arith);
}

/// The series at any reduced ratio stays below `ln 2`.
proof fn lemma_series_below_ln_two(t: nat)
    requires
        3 * t < LN_ONE,
    ensures
        2 * atanh_series(t, t * t / (LN_ONE as nat), 0) <= LN_TWO,
{
    let top: nat = 384307168202282325;
    assert(t <= top);
    assert(t * t <= top * top) by (nonlinear_arith)
        requires t <= top;
    lemma_div_is_ordered((t * t) as int, (top * top) as int, LN_ONE as int);
    lemma_atanh_series_monotone(t, top, (t * t / (LN_ONE as nat)) as nat, (top * top / (LN_ONE as nat)) as nat, 0);
    assert(top * top / (LN_ONE as nat) == 128102389400760774nat);
    assert(384307168202282325nat * 128102389400760774nat / (LN_ONE as nat) == 42700796466920257nat);
    assert(384307168202282325nat / 1nat == 384307168202282325nat);
    assert(42700796466920257nat * 128102389400760774nat / (LN_ONE as nat) == 4744532940768917nat);
    assert(42700796466920257nat / 3nat == 14233598822306752nat);
    assert(4744532940768917nat * 128102389400760774nat / (LN_ONE as nat) == 527170326752101nat);
    assert(4744532940768917nat / 5nat == 948906588153783nat);
    assert(527170326752101nat * 128102389400760774nat / (LN_ONE as nat) == 58574480750233nat);
    assert(527170326752101nat / 7nat == 75310046678871nat);
    assert(58574480750233nat * 128102389400760774nat / (LN_ONE as nat) == 6508275638914nat);
    assert(58574480750233nat / 9nat == 6508275638914nat);
    assert(6508275638914nat * 128102389400760774nat / (LN_ONE as nat) == 723141737657nat);
    assert(6508275638914nat / 11nat == 591661421719nat);
    assert(723141737657nat * 128102389400760774nat / (LN_ONE as nat) == 80349081961nat);
    assert(723141737657nat / 13nat == 55626287512nat);
    assert(80349081961nat * 128102389400760774nat / (LN_ONE as nat) == 8927675773nat);
    assert(80349081961nat / 15nat == 5356605464nat);
    assert(8927675773nat * 128102389400760774nat / (LN_ONE as nat) == 991963974nat);
    assert(8927675773nat / 17nat == 525157398nat);
    assert(991963974nat * 128102389400760774nat / (LN_ONE as nat) == 110218219nat);
    assert(991963974nat / 19nat == 52208630nat);
    assert(110218219nat * 128102389400760774nat / (LN_ONE as nat) == 12246468nat);
    assert(110218219nat / 21nat == 5248486nat);
    assert(12246468nat * 128102389400760774nat / (LN_ONE as nat) == 1360718nat);
    assert(12246468nat / 23nat == 532455nat);
    assert(1360718nat * 128102389400760774nat / (LN_ONE as nat) == 151190nat);
    assert(1360718nat / 25nat == 54428nat);
    assert(151190nat * 128102389400760774nat / (LN_ONE as nat) == 16798nat);
    assert(151190nat / 27nat == 5599nat);
    assert(16798nat * 128102389400760774nat / (LN_ONE as nat) == 1866nat);
    assert(16798nat / 29nat == 579nat);
    assert(1866nat * 128102389400760774nat / (LN_ONE as nat) == 207nat);
    assert(1866nat / 31nat == 60nat);
    assert(207nat * 128102389400760774nat / (LN_ONE as nat) == 22nat);
    assert(207nat / 33nat == 6nat);
    assert(22nat * 128102389400760774nat / (LN_ONE as nat) == 2nat);
    assert(22nat / 35nat == 0nat);
    assert(2nat * 128102389400760774nat / (LN_ONE as nat) == 0nat);
    assert(2nat / 37nat == 0nat);
    assert(0nat * 128102389400760774nat / (LN_ONE as nat) == 0nat);
    assert(0nat / 39nat == 0nat);
    assert(atanh_series(0nat, 128102389400760774nat, 20) == 0);
    assert(atanh_series(0nat, 128102389400760774nat, 19) == 0nat);
    assert(atanh_series(2nat, 128102389400760774nat, 18) == 0nat);
    assert(atanh_series(22nat, 128102389400760774nat, 17) == 0nat);
    assert(atanh_series(207nat, 128102389400760774nat, 16) == 6nat);
    assert(atanh_series(1866nat, 128102389400760774nat, 15) == 66nat);
    assert(atanh_series(16798nat, 128102389400760774nat, 14) == 645nat);
    assert(atanh_series(151190nat, 128102389400760774nat, 13) == 6244nat);
    assert(atanh_series(1360718nat, 128102389400760774nat, 12) == 60672nat);
    assert(atanh_series(12246468nat, 128102389400760774nat, 11) == 593127nat);
    assert(atanh_series(110218219nat, 128102389400760774nat, 10) == 5841613nat);
    assert(atanh_series(991963974nat, 128102389400760774nat, 9) == 58050243nat);
    assert(atanh_series(8927675773nat, 128102389400760774nat, 8) == 583207641nat);
    assert(atanh_series(80349081961nat, 128102389400760774nat, 7) == 5939813105nat);
    assert(atanh_series(723141737657nat, 128102389400760774nat, 6) == 61566100617nat);
    assert(atanh_series(6508275638914nat, 128102389400760774nat, 5) == 653227522336nat);
    assert(atanh_series(58574480750233nat, 128102389400760774nat, 4) == 7161503161250nat);
    assert(atanh_series(527170326752101nat, 128102389400760774nat, 3) == 82471549840121nat);
    assert(atanh_series(4744532940768917nat, 128102389400760774nat, 2) == 1031378137993904nat);
    assert(atanh_series(42700796466920257nat, 128102389400760774nat, 1) == 15264976960300656nat);
    assert(atanh_series(384307168202282325nat, 128102389400760774nat, 0) == 399572145162582981nat);
}

/// `ln_ratio(a, b)` never grows as `b` grows.
pub proof fn lemma_ln_ratio_antitone(a: nat, b1: nat, b2: nat)
    requires
        1 <= b1 <= b2 <= a,
    ensures
        ln_ratio(a, b2) <= ln_ratio(a, b1),
{
    lemma_reduce_ratio(a, b1);
    lemma_reduce_ratio(a, b2);
    let (k1, c1) = reduce_ratio(a, b1);
    let (k2, c2) = reduce_ratio(a, b2);
    let t1 = ((a - c1) * (LN_ONE as int) / ((a + c1) as int)) as nat;
    let t2 = ((a - c2) * (LN_ONE as int) / ((a + c2) as int)) as nat;
    if k1 < k2 {
        lemma_pow2_strictly_increases(k1, k2);
        vstd::arithmetic::power2::lemma_pow2_adds(k1, (k2 - k1) as nat);
        vstd::arithmetic::power2::lemma_pow2_pos((k2 - k1) as nat);
        vstd::arithmetic::power2::lemma_pow2_unfold((k2 - k1) as nat);
        assert(2 * c1 <= c2) by (nonlinear_arith)
            requires
                c1 == b1 * pow2(k1),
                c2 == b2 * pow2(k2),
                pow2(k2) == pow2(k1) * pow2((k2 - k1) as nat),
                pow2((k2 - k1) as nat) == 2 * pow2((k2 - k1 - 1) as nat),
                pow2((k2 - k1 - 1) as nat) > 0,
                b1 <= b2,
        ;
    }
    if k1 == k2 {
        assert(c1 <= c2) by (nonlinear_arith)
            requires c1 == b1 * pow2(k1), c2 == b2 * pow2(k1), b1 <= b2;
        assert((a - c2) * (LN_ONE as int) * (a + c1) <= (a - c1) * (LN_ONE as int) * (a + c2))
            by (nonlinear_arith)
            requires c1 <= c2, c2 <= a;
        lemma_div_cross_ordered(
            ((a - c1) * (LN_ONE as int)) as nat,
            (a + c1) as nat,
            ((a - c2) * (LN_ONE as int)) as nat,
            (a + c2) as nat,
        );
        assert(t2 * t2 <= t1 * t1) by (nonlinear_arith)
            requires t2 <= t1;
        lemma_div_is_ordered((t2 * t2) as int, (t1 * t1) as int, LN_ONE as int);
        lemma_atanh_series_monotone(t2, t1, (t2 * t2 / (LN_ONE as nat)) as nat, (t1 * t1 / (LN_ONE as nat)) as nat, 0);
    } else {
        assert(3 * (a - c2) * (LN_ONE as int) < (a + c2) * (LN_ONE as int)) by (nonlinear_arith)
            requires a < 2 * c2;
        lemma_multiply_divide_lt((3 * (a - c2) * (LN_ONE as int)) as int, (a + c2) as int, LN_ONE as int);
        assert(3 * t2 < LN_ONE) by {
            assert(3 * ((a - c2) * (LN_ONE as int) / ((a + c2) as int)) <= 3 * (a - c2) * (LN_ONE as int) / ((a + c2) as int)) by {
                vstd::arithmetic::div_mod::lemma_mul_hoist_inequality(3, (a - c2) * (LN_ONE as int), (a + c2) as int);
            }
        }
        lemma_series_below_ln_two(t2);
        assert(k2 * (LN_TWO as nat) + LN_TWO <= k1 * (LN_TWO as nat)) by (nonlinear_arith)
            requires k2 < k1;
    }
}

} // verus!
