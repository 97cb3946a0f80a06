use crate::error::HllError;
use crate::estimate::{estimate, estimate_registers};
use crate::hashing::{hash_bytes, hash_value, xxh64_of};
use std::hash::Hash;
use vstd::arithmetic::power2::{lemma2_to64, lemma_pow2_strictly_increases, pow2};
use vstd::bits::{lemma_u64_shl_is_mul, lemma_usize_shl_is_mul};
use vstd::prelude::*;
use vstd::std_specs::bits::{axiom_u64_leading_zeros, u64_leading_zeros};
use vstd::utf8::encode_utf8;

verus! {

/// Smallest accepted precision.
pub const MIN_PRECISION: u8 = 4;

/// Largest accepted precision.
pub const MAX_PRECISION: u8 = 16;

/// Largest value a register can hold: one more than the width of a hash.
pub const MAX_RANK: u8 = 64;

/// The mathematical state of an estimator: its precision and its registers.
pub ghost struct HllView {
    pub precision: u8,
    pub registers: Seq<u8>,
}

/// Number of registers for a precision: `2^precision`.
pub open spec fn register_count(precision: u8) -> nat {
    pow2(precision as nat)
}

/// Register selected by a hash: its top `precision` bits.
pub open spec fn index_of(hash: u64, precision: u8) -> int {
    (hash >> ((64 - precision) as u64)) as int
}

/// Rank of a hash: one more than the leading zeros of the bits left after
/// the index bits, where an all-zero remainder counts only the
/// `64 - precision` bits that were available.
pub open spec fn rank_of(hash: u64, precision: u8) -> u8 {
    let rest = hash << (precision as u64);
    if rest == 0 {
        (65 - precision) as u8
    } else {
        (1 + u64_leading_zeros(rest)) as u8
    }
}

/// Pointwise maximum of two register sequences of equal length.
pub open spec fn max_registers(a: Seq<u8>, b: Seq<u8>) -> Seq<u8> {
    Seq::new(a.len(), |i: int| if a[i] >= b[i] { a[i] } else { b[i] })
}

impl HllView {
    /// A valid precision, `2^precision` registers, each at most `MAX_RANK`.
    pub open spec fn wf(self) -> bool {
        &&& MIN_PRECISION <= self.precision <= MAX_PRECISION
        &&& self.registers.len() == register_count(self.precision)
        &&& forall|i: int| 0 <= i < self.registers.len() ==> self.registers[i] <= MAX_RANK
    }

    /// The empty estimator of a precision: every register zero.
    pub open spec fn empty(precision: u8) -> HllView {
        HllView {
            precision,
            registers: Seq::new(register_count(precision), |i: int| 0u8),
        }
    }

    /// The state after observing one hash: the selected register is raised
    /// to the hash's rank, never lowered.
    pub open spec fn absorb(self, hash: u64) -> HllView {
        let i = index_of(hash, self.precision);
        let r = rank_of(hash, self.precision);
        if self.registers[i] < r {
            HllView { precision: self.precision, registers: self.registers.update(i, r) }
        } else {
            self
        }
    }

    /// The state after observing a sequence of hashes in order.
    pub open spec fn absorb_all(self, hashes: Seq<u64>) -> HllView
        decreases hashes.len(),
    {
        if hashes.len() == 0 {
            self
        } else {
            self.absorb_all(hashes.drop_last()).absorb(hashes.last())
        }
    }

    /// The union of two states of equal precision.
    pub open spec fn union(self, other: HllView) -> HllView {
        HllView {
            precision: self.precision,
            registers: max_registers(self.registers, other.registers),
        }
    }

    /// Every register of `self` is at least the matching one of `other`.
    pub open spec fn dominates(self, other: HllView) -> bool {
        &&& self.precision == other.precision
        &&& self.registers.len() == other.registers.len()
        &&& forall|i: int| 0 <= i < self.registers.len() ==> other.registers[i] <= self.registers[i]
    }
}

/// Index and rank stay within the register array and the register range.
pub proof fn lemma_index_rank_bounds(hash: u64, precision: u8)
    requires
        MIN_PRECISION <= precision <= MAX_PRECISION,
    ensures
        0 <= index_of(hash, precision) < register_count(precision),
        1 <= rank_of(hash, precision) <= MAX_RANK,
{
    let p = precision as u64;
    assert(4 <= p <= 16 ==> (hash >> ((64 - p) as u64)) < (1u64 << p)) by (bit_vector);
    lemma2_to64();
    lemma_pow2_strictly_increases(p as nat, 64);
    lemma_u64_shl_is_mul(1, p);
    axiom_u64_leading_zeros(hash << p);
}

/// Serialized form: the precision byte, then one byte per register.
pub open spec fn encode(v: HllView) -> Seq<u8> {
    seq![v.precision] + v.registers
}

/// The state a byte string holds, if it is a well-formed serialized form.
pub open spec fn decode(bytes: Seq<u8>) -> Option<HllView> {
    if bytes.len() >= 1 && (HllView { precision: bytes[0], registers: bytes.drop_first() }).wf() {
        Some(HllView { precision: bytes[0], registers: bytes.drop_first() })
    } else {
        None
    }
}

/// All states share the precision of the first.
pub open spec fn same_precision(vs: Seq<HllView>) -> bool {
    forall|i: int| 0 <= i < vs.len() ==> #[trigger] vs[i].precision == vs[0].precision
}

/// The union of a non-empty sequence of states, taken left to right.
pub open spec fn union_all(vs: Seq<HllView>) -> HllView
    decreases vs.len(),
{
    if vs.len() <= 1 {
        vs[0]
    } else {
        union_all(vs.drop_last()).union(vs.last())
    }
}

/// A HyperLogLog cardinality estimator with `2^precision` registers.
#[derive(Debug, Clone)]
pub struct HyperLogLog {
    precision: u8,
    m: usize,
    registers: Vec<u8>,
}

impl View for HyperLogLog {
    type V = HllView;

    closed spec fn view(&self) -> HllView {
        HllView { precision: self.precision, registers: self.registers@ }
    }
}

impl HyperLogLog {
    /// The register count is kept beside the registers.
    pub closed spec fn consistent(&self) -> bool {
        self.m == self.registers@.len()
    }

    /// Well-formed: a valid state with its register count in step.
    pub open spec fn wf(&self) -> bool {
        self@.wf() && self.consistent()
    }

    /// Creates an empty estimator; the precision must lie in 4..=16.
    pub fn new(precision: u8) -> (r: Result<HyperLogLog, HllError>)
        ensures
            MIN_PRECISION <= precision <= MAX_PRECISION ==> r is Ok,
            r matches Ok(h) ==> h.wf() && h@ == HllView::empty(precision),
            r is Err <==> !(MIN_PRECISION <= precision <= MAX_PRECISION),
            r matches Err(e) ==> e == HllError::InvalidPrecision(precision),
    {
        if precision < MIN_PRECISION || precision > MAX_PRECISION {
            return Err(HllError::InvalidPrecision(precision));
        }
        proof {
            lemma2_to64();
            lemma_pow2_strictly_increases(precision as nat, 64);
            lemma_usize_shl_is_mul(1, precision as usize);
        }
        let m: usize = 1usize << precision;
        let registers: Vec<u8> = vec![0u8; m];
        let h = HyperLogLog { precision, m, registers };
        assert(h@.registers =~= HllView::empty(precision).registers);
        Ok(h)
    }

    /// The precision chosen at construction.
    pub fn precision(&self) -> (r: u8)
        ensures
            r == self@.precision,
    {
        self.precision
    }

    /// The number of registers, `2^precision`.
    pub fn register_count(&self) -> (r: usize)
        requires
            self.wf(),
        ensures
            r == self@.registers.len(),
    {
        self.m
    }

    /// The registers, in index order.
    pub fn registers(&self) -> (r: &Vec<u8>)
        ensures
            r@ == self@.registers,
    {
        &self.registers
    }

    /// Observes one 64-bit hash: the update rule of the estimator.
    pub fn add_hash(&mut self, hash: u64)
        requires
            old(self).wf(),
        ensures
            final(self).wf(),
            final(self)@ == old(self)@.absorb(hash),
    {
        proof {
            lemma_index_rank_bounds(hash, self.precision);
        }
        let idx = (hash >> (64 - self.precision)) as usize;
        let rest = hash << self.precision;
        let rank: u8 = if rest == 0 {
            65 - self.precision
        } else {
            proof {
                axiom_u64_leading_zeros(rest);
            }
            rest.leading_zeros() as u8 + 1
        };
        if rank > self.registers[idx] {
            self.registers.set(idx, rank);
        }
        assert(self@ == old(self)@.absorb(hash));
    }

    /// Adds an element given by its bytes: the canonical entry point.
    pub fn add_bytes(&mut self, element: &[u8])
        requires
            old(self).wf(),
        ensures
            final(self).wf(),
            final(self)@ == old(self)@.absorb(xxh64_of(element@)),
    {
        let hash = hash_bytes(element);
        self.add_hash(hash);
    }

    /// Adds a string element; its UTF-8 bytes are hashed.
    pub fn add_str(&mut self, element: &str)
        requires
            old(self).wf(),
        ensures
            final(self).wf(),
            final(self)@ == old(self)@.absorb(xxh64_of(encode_utf8(element@))),
    {
        self.add_bytes(element.as_bytes());
    }

    /// Adds an element of any hashable type, hashed through its `Hash` impl.
    pub fn add<T: Hash + ?Sized>(&mut self, element: &T)
        requires
            old(self).wf(),
        ensures
            final(self).wf(),
            exists|h: u64| final(self)@ == old(self)@.absorb(h),
    {
        let hash = hash_value(element);
        self.add_hash(hash);
    }

    /// Adds every string of a list, in order.
    pub fn add_all_str(&mut self, elements: &Vec<String>)
        requires
            old(self).wf(),
        ensures
            final(self).wf(),
            final(self)@ == old(self)@.absorb_all(
                Seq::new(elements@.len(), |i: int| xxh64_of(encode_utf8(elements@[i]@))),
            ),
    {
        let ghost hashes = Seq::new(elements@.len(), |i: int| xxh64_of(encode_utf8(elements@[i]@)));
        let mut i: usize = 0;
        while i < elements.len()
            invariant
                i <= elements@.len(),
                hashes == Seq::new(elements@.len(), |k: int| xxh64_of(encode_utf8(elements@[k]@))),
                self.wf(),
                self@ == old(self)@.absorb_all(hashes.take(i as int)),
            decreases elements@.len() - i,
        {
            self.add_str(elements[i].as_str());
            assert(hashes.take(i as int + 1).drop_last() =~= hashes.take(i as int));
            i = i + 1;
        }
        assert(hashes.take(i as int) =~= hashes);
    }

    /// Absorbs another estimator of the same precision: each register becomes
    /// the larger of the two. Fails, changing nothing, on differing precision.
    pub fn merge(&mut self, other: &HyperLogLog) -> (r: Result<(), HllError>)
        requires
            old(self).wf(),
            other.wf(),
        ensures
            final(self).wf(),
            r is Ok <==> old(self)@.precision == other@.precision,
            r is Ok ==> final(self)@ == old(self)@.union(other@),
            r matches Err(e) ==> e == HllError::PrecisionMismatch(old(self)@.precision, other@.precision)
                && final(self)@ == old(self)@,
    {
        if self.precision != other.precision {
            return Err(HllError::PrecisionMismatch(self.precision, other.precision));
        }
        let n = self.registers.len();
        let mut i: usize = 0;
        while i < n
            invariant
                n == self.registers@.len(),
                n == other.registers@.len(),
                n == old(self).registers@.len(),
                i <= n,
                self.precision == old(self).precision,
                self.m == old(self).m,
                forall|j: int| 0 <= j < i ==> self.registers@[j] == max_registers(
                    old(self).registers@,
                    other.registers@,
                )[j],
                forall|j: int| i <= j < n ==> self.registers@[j] == old(self).registers@[j],
            decreases n - i,
        {
            let v = other.registers[i];
            if v > self.registers[i] {
                self.registers.set(i, v);
            }
            i = i + 1;
        }
        assert(self.registers@ =~= max_registers(old(self).registers@, other.registers@));
        Ok(())
    }

    /// Estimates the number of distinct elements added.
    pub fn count(&self) -> (r: u64)
        requires
            self.wf(),
        ensures
            r == estimate(self@.registers),
    {
        proof {
            lemma2_to64();
            lemma_pow2_strictly_increases(self.precision as nat, 17);
            if self.precision > 4 {
                lemma_pow2_strictly_increases(4, self.precision as nat);
            }
        }
        estimate_registers(&self.registers)
    }

    /// Serializes the state: the precision byte, then the registers.
    pub fn serialize(&self) -> (r: Vec<u8>)
        requires
            self.wf(),
        ensures
            r@ == encode(self@),
    {
        let mut out: Vec<u8> = Vec::new();
        out.push(self.precision);
        let mut i: usize = 0;
        while i < self.registers.len()
            invariant
                i <= self.registers@.len(),
                out@ == seq![self.precision] + self.registers@.take(i as int),
            decreases self.registers@.len() - i,
        {
            out.push(self.registers[i]);
            assert(seq![self.precision] + self.registers@.take(i as int + 1) =~= (seq![self.precision]
                + self.registers@.take(i as int)).push(self.registers@[i as int]));
            i = i + 1;
        }
        assert(self.registers@.take(i as int) =~= self.registers@);
        out
    }

    /// Rebuilds an estimator from its serialized form; fails on bytes that
    /// no well-formed estimator serializes to.
    pub fn deserialize(bytes: &[u8]) -> (r: Result<HyperLogLog, HllError>)
        ensures
            r is Ok <==> decode(bytes@) is Some,
            r matches Ok(h) ==> h.wf() && Some(h@) == decode(bytes@),
            r matches Err(e) ==> (e is InvalidPrecision <==> bytes@.len() >= 1 && !(MIN_PRECISION
                <= bytes@[0] <= MAX_PRECISION)),
            r matches Err(e) ==> (e is InvalidPrecision ==> e == HllError::InvalidPrecision(bytes@[0])),
            r matches Err(e) ==> (e is InvalidPrecision || e is Serialization),
    {
        if bytes.len() == 0 {
            return Err(HllError::Serialization("empty input".to_owned()));
        }
        let precision = bytes[0];
        if precision < MIN_PRECISION || precision > MAX_PRECISION {
            return Err(HllError::InvalidPrecision(precision));
        }
        proof {
            lemma2_to64();
            lemma_pow2_strictly_increases(precision as nat, 64);
            lemma_usize_shl_is_mul(1, precision as usize);
        }
        let m: usize = 1usize << precision;
        if bytes.len() - 1 != m {
            return Err(HllError::Serialization("register count does not match precision".to_owned()));
        }
        let mut registers: Vec<u8> = Vec::new();
        let mut i: usize = 1;
        while i < bytes.len()
            invariant
                1 <= i <= bytes@.len(),
                bytes@[0] == precision,
                MIN_PRECISION <= precision <= MAX_PRECISION,
                registers@ == bytes@.subrange(1, i as int),
                forall|j: int| 0 <= j < registers@.len() ==> registers@[j] <= MAX_RANK,
            decreases bytes@.len() - i,
        {
            let v = bytes[i];
            if v > MAX_RANK {
                proof {
                    assert(bytes@.drop_first()[i - 1] == v);
                }
                return Err(HllError::Serialization("register value out of range".to_owned()));
            }
            registers.push(v);
            assert(registers@ =~= bytes@.subrange(1, i as int + 1));
            i = i + 1;
        }
        assert(registers@ =~= bytes@.drop_first());
        Ok(HyperLogLog { precision, m, registers })
    }

    /// Unites a non-empty list of estimators of one precision into a new one.
    pub fn merge_all(estimators: &Vec<HyperLogLog>) -> (r: Result<HyperLogLog, HllError>)
        requires
            forall|i: int| 0 <= i < estimators@.len() ==> estimators@[i].wf(),
        ensures
            r is Ok <==> estimators@.len() > 0 && same_precision(estimators@.map_values(|h: HyperLogLog| h@)),
            r matches Ok(h) ==> h.wf() && h@ == union_all(estimators@.map_values(|h: HyperLogLog| h@)),
            r matches Err(e) ==> (estimators@.len() == 0 ==> e is InvalidKey)
                && (estimators@.len() > 0 ==> e is PrecisionMismatch),
    {
        let ghost vs = estimators@.map_values(|h: HyperLogLog| h@);
        if estimators.len() == 0 {
            return Err(HllError::InvalidKey("no estimators to merge".to_owned()));
        }
        let mut acc = estimators[0].clone_state();
        let mut i: usize = 1;
        assert(vs.take(1) =~= seq![vs[0]]);
        while i < estimators.len()
            invariant
                vs == estimators@.map_values(|h: HyperLogLog| h@),
                forall|k: int| 0 <= k < estimators@.len() ==> estimators@[k].wf(),
                1 <= i <= estimators@.len(),
                acc.wf(),
                acc@.precision == vs[0].precision,
                same_precision(vs.take(i as int)),
                acc@ == union_all(vs.take(i as int)),
            decreases estimators@.len() - i,
        {
            assert(vs[i as int] == estimators@[i as int]@);
            let res = acc.merge(&estimators[i]);
            if res.is_err() {
                assert(vs[i as int].precision != vs[0].precision);
                return res.map(|u: ()| acc);
            }
            assert(vs.take(i as int + 1).drop_last() =~= vs.take(i as int));
            i = i + 1;
        }
        assert(vs.take(i as int) =~= vs);
        Ok(acc)
    }

    /// An independent copy with the same state.
    pub fn clone_state(&self) -> (r: HyperLogLog)
        ensures
            r@ == self@,
            self.wf() ==> r.wf(),
    {
        HyperLogLog { precision: self.precision, m: self.m, registers: self.registers.clone() }
    }
}

} // verus!
