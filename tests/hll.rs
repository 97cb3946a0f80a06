use hyperloglog::{HllError, HyperLogLog};
use std::hash::Hasher;
use twox_hash::XxHash64;

fn with_registers(precision: u8, registers: &[u8]) -> HyperLogLog {
    let mut bytes = vec![precision];
    bytes.extend_from_slice(registers);
    HyperLogLog::deserialize(&bytes).unwrap()
}

#[test]
fn test_new_valid_precision() {
    for precision in 4..=16 {
        let hll = HyperLogLog::new(precision);
        assert!(hll.is_ok(), "Precision {} should be valid", precision);

        let hll = hll.unwrap();
        assert_eq!(hll.precision(), precision);
        assert_eq!(hll.register_count(), 1 << precision);
        assert_eq!(hll.registers().len(), 1 << precision);
    }
}

#[test]
fn test_new_invalid_precision() {
    assert!(HyperLogLog::new(3).is_err());
    assert!(HyperLogLog::new(17).is_err());
    assert!(HyperLogLog::new(0).is_err());
    assert!(HyperLogLog::new(255).is_err());
}

#[test]
fn test_add_deduplication() {
    let mut hll = HyperLogLog::new(10).unwrap();

    for _ in 0..100 {
        hll.add_str("same_element");
    }

    let count = hll.count();
    assert!(count <= 5, "Count should be close to 1, got {}", count);
}

#[test]
fn test_basic_counting_small() {
    let mut hll = HyperLogLog::new(14).unwrap();

    for i in 0..100 {
        hll.add(&i);
    }

    let count = hll.count();
    let error_rate = ((count as f64 - 100.0) / 100.0).abs();

    assert!(error_rate < 0.15, "Error rate: {:.2}%", error_rate * 100.0);
}

#[test]
fn test_basic_counting_medium() {
    let mut hll = HyperLogLog::new(14).unwrap();

    for i in 0..10000 {
        hll.add(&i);
    }

    let count = hll.count();
    let error_rate = ((count as f64 - 10000.0) / 10000.0).abs();

    assert!(error_rate < 0.05, "Error rate: {:.2}%", error_rate * 100.0);
}

#[test]
fn test_basic_counting_large() {
    let mut hll = HyperLogLog::new(14).unwrap();

    for i in 0..100000 {
        hll.add(&i);
    }

    let count = hll.count();
    let error_rate = ((count as f64 - 100000.0) / 100000.0).abs();

    assert!(error_rate < 0.03, "Error rate: {:.2}%", error_rate * 100.0);
}

#[test]
fn test_string_elements() {
    let mut hll = HyperLogLog::new(10).unwrap();

    hll.add_str("user:1");
    hll.add_str("user:2");
    hll.add_str("user:3");

    let count = hll.count();
    assert!(count >= 2 && count <= 5, "Count should be ~3, got {}", count);
}

#[test]
fn test_merge_disjoint() {
    let mut hll1 = HyperLogLog::new(10).unwrap();
    let mut hll2 = HyperLogLog::new(10).unwrap();

    for i in 0..100 {
        hll1.add(&i);
    }

    for i in 100..200 {
        hll2.add(&i);
    }

    hll1.merge(&hll2).unwrap();
    let count = hll1.count();

    assert!(count > 150 && count < 250, "Count should be ~200, got {}", count);
}

#[test]
fn test_merge_overlapping() {
    let mut hll1 = HyperLogLog::new(12).unwrap();
    let mut hll2 = HyperLogLog::new(12).unwrap();

    for i in 0..150 {
        hll1.add(&i);
    }

    for i in 100..250 {
        hll2.add(&i);
    }

    let count1 = hll1.count();
    let count2 = hll2.count();

    hll1.merge(&hll2).unwrap();
    let merged_count = hll1.count();

    assert!(
        merged_count > 200 && merged_count < 300,
        "Merged count should be ~250, got {}. Individual counts: {}, {}",
        merged_count,
        count1,
        count2
    );
}

#[test]
fn test_merge_precision_mismatch() {
    let mut hll1 = HyperLogLog::new(10).unwrap();
    let hll2 = HyperLogLog::new(12).unwrap();

    let result = hll1.merge(&hll2);
    assert!(result.is_err(), "Should fail to merge different precisions");
}

#[test]
fn test_merge_same_data() {
    let mut hll1 = HyperLogLog::new(10).unwrap();
    let mut hll2 = HyperLogLog::new(10).unwrap();

    for i in 0..100 {
        hll1.add(&i);
        hll2.add(&i);
    }

    let count_before = hll1.count();
    hll1.merge(&hll2).unwrap();
    let count_after = hll1.count();

    let diff = ((count_after as f64 - count_before as f64) / count_before as f64).abs();
    assert!(diff < 0.1, "Counts should be similar: {} vs {}", count_before, count_after);
}

#[test]
fn test_clone() {
    let mut hll = HyperLogLog::new(10).unwrap();

    for i in 0..1000 {
        hll.add(&i);
    }

    let hll_clone = hll.clone();

    assert_eq!(hll.precision(), hll_clone.precision());
    assert_eq!(hll.count(), hll_clone.count());
    assert_eq!(hll.registers(), hll_clone.registers());
}

#[test]
fn test_serialization() {
    let mut hll = HyperLogLog::new(12).unwrap();

    for i in 0..5000 {
        hll.add(&i);
    }

    let serialized = hll.serialize();

    let deserialized = HyperLogLog::deserialize(&serialized).unwrap();

    assert_eq!(hll.precision(), deserialized.precision());
    assert_eq!(hll.count(), deserialized.count());
    assert_eq!(hll.registers(), deserialized.registers());
}

#[test]
fn test_empty_count() {
    let hll = HyperLogLog::new(10).unwrap();
    let count = hll.count();

    assert!(count < 10, "Empty HLL count should be ~0, got {}", count);
}

#[test]
fn test_different_types() {
    let mut hll = HyperLogLog::new(10).unwrap();

    hll.add(&42u32);
    hll.add(&"string");
    hll.add(&true);
    hll.add(&3.14f64.to_bits());

    let count = hll.count();
    assert!(count >= 3 && count <= 6, "Should count ~4 items, got {}", count);
}

#[test]
fn test_precision_memory_size() {
    for precision in 4..=16 {
        let hll = HyperLogLog::new(precision).unwrap();
        let expected_size = 1 << precision;
        assert_eq!(
            hll.registers().len(),
            expected_size,
            "Precision {} should have {} registers",
            precision,
            expected_size
        );
    }
}

#[test]
fn invalid_precision_carries_value() {
    for p in [0u8, 3, 17, 255] {
        assert_eq!(HyperLogLog::new(p).unwrap_err(), HllError::InvalidPrecision(p));
    }
}

#[test]
fn new_registers_start_at_zero() {
    for p in 4..=16u8 {
        let hll = HyperLogLog::new(p).unwrap();
        assert!(hll.registers().iter().all(|&r| r == 0));
        assert_eq!(hll.count(), 0);
    }
}

#[test]
fn empty_count_is_small_at_every_precision() {
    for p in 10..=16u8 {
        assert!(HyperLogLog::new(p).unwrap().count() < 10);
    }
}

#[test]
fn mismatched_merge_changes_neither() {
    let mut a = HyperLogLog::new(10).unwrap();
    let mut b = HyperLogLog::new(12).unwrap();
    for i in 0..50 {
        a.add(&i);
        b.add(&(i + 1000));
    }
    let (ra, rb) = (a.registers().clone(), b.registers().clone());
    assert_eq!(a.merge(&b), Err(HllError::PrecisionMismatch(10, 12)));
    assert_eq!(a.registers(), &ra);
    assert_eq!(b.registers(), &rb);
}

#[test]
fn same_sequence_gives_same_registers() {
    let mut a = HyperLogLog::new(12).unwrap();
    let mut b = HyperLogLog::new(12).unwrap();
    for i in 0..3000 {
        a.add(&i);
        b.add(&i);
        a.add_str("fixed");
        b.add_str("fixed");
    }
    assert_eq!(a.registers(), b.registers());
}

#[test]
fn count_never_drops_while_adding() {
    let mut hll = HyperLogLog::new(8).unwrap();
    let mut last = hll.count();
    for i in 0..2000 {
        let before = hll.registers().clone();
        hll.add(&i);
        assert!(hll.registers().iter().zip(before.iter()).all(|(a, b)| a >= b));
        let now = hll.count();
        assert!(now >= last, "count dropped from {} to {}", last, now);
        last = now;
    }
}

#[test]
fn repeated_additions_change_nothing() {
    let mut hll = HyperLogLog::new(10).unwrap();
    for i in 0..300 {
        hll.add(&i);
    }
    let registers = hll.registers().clone();
    let count = hll.count();
    for _ in 0..10 {
        for i in 0..300 {
            hll.add(&i);
        }
    }
    assert_eq!(hll.registers(), &registers);
    assert_eq!(hll.count(), count);
}

#[test]
fn merge_is_commutative_associative_idempotent() {
    let mut a = HyperLogLog::new(8).unwrap();
    let mut b = HyperLogLog::new(8).unwrap();
    let mut c = HyperLogLog::new(8).unwrap();
    for i in 0..400 {
        a.add(&i);
        b.add(&(i * 7 + 3));
        c.add(&(i * 13 + 5));
    }
    let mut ab_c = a.clone();
    ab_c.merge(&b).unwrap();
    ab_c.merge(&c).unwrap();
    let mut ac_b = a.clone();
    ac_b.merge(&c).unwrap();
    ac_b.merge(&b).unwrap();
    let mut bc = b.clone();
    bc.merge(&c).unwrap();
    let mut a_bc = a.clone();
    a_bc.merge(&bc).unwrap();
    assert_eq!(ab_c.registers(), ac_b.registers());
    assert_eq!(ab_c.registers(), a_bc.registers());
    let mut aa = a.clone();
    aa.merge(&a).unwrap();
    assert_eq!(aa.registers(), a.registers());
}

#[test]
fn merge_takes_registerwise_maximum() {
    let a = with_registers(4, &[0, 5, 2, 9, 1, 1, 1, 1, 0, 0, 0, 0, 3, 3, 3, 3]);
    let b = with_registers(4, &[4, 1, 2, 10, 0, 0, 7, 1, 0, 2, 0, 0, 3, 4, 2, 3]);
    let mut m = a.clone();
    m.merge(&b).unwrap();
    assert_eq!(m.registers(), &vec![4, 5, 2, 10, 1, 1, 7, 1, 0, 2, 0, 0, 3, 4, 3, 3]);
}

#[test]
fn merge_all_unites_every_estimator() {
    let mut parts = Vec::new();
    for k in 0..4 {
        let mut h = HyperLogLog::new(12).unwrap();
        for i in (k * 1000)..((k + 1) * 1000) {
            h.add(&i);
        }
        parts.push(h);
    }
    let all = HyperLogLog::merge_all(&parts).unwrap();
    let mut expect = parts[0].clone();
    for p in &parts[1..] {
        expect.merge(p).unwrap();
    }
    assert_eq!(all.registers(), expect.registers());
    assert!(matches!(HyperLogLog::merge_all(&Vec::new()), Err(HllError::InvalidKey(_))));
    parts.push(HyperLogLog::new(10).unwrap());
    assert!(matches!(HyperLogLog::merge_all(&parts), Err(HllError::PrecisionMismatch(12, 10))));
}

#[test]
fn disjoint_and_overlapping_unions() {
    let mut a = HyperLogLog::new(14).unwrap();
    let mut b = HyperLogLog::new(14).unwrap();
    for i in 0..5000 {
        a.add(&i);
    }
    for i in 5000..10000 {
        b.add(&i);
    }
    let mut u = b.clone();
    u.merge(&a).unwrap();
    let c = u.count() as f64;
    assert!((c - 10000.0).abs() / 10000.0 < 0.03, "disjoint union estimated {}", c);

    let mut a = HyperLogLog::new(14).unwrap();
    let mut b = HyperLogLog::new(14).unwrap();
    for i in 0..5000 {
        a.add(&i);
    }
    for i in 2500..7500 {
        b.add(&i);
    }
    a.merge(&b).unwrap();
    let c = a.count() as f64;
    assert!((c - 7500.0).abs() / 7500.0 < 0.03, "overlapping union estimated {}", c);
}

#[test]
fn accuracy_up_to_one_hundred() {
    for n in [10i64, 50, 100] {
        let mut hll = HyperLogLog::new(14).unwrap();
        for i in 0..n {
            hll.add(&i);
        }
        let c = hll.count() as f64;
        assert!((c - n as f64).abs() <= (n as f64 * 0.05).max(1.0), "n = {}, estimated {}", n, c);
    }
}

#[test]
fn raw_range_value() {
    // All registers at 1: raw estimate 0.673 * 256 / 8 = 21.536, no zero register.
    assert_eq!(with_registers(4, &[1; 16]).count(), 21);
    // All registers at 2, 1024 of them: raw estimate 2951.4.
    assert_eq!(with_registers(10, &[2; 1024]).count(), 2951);
    // All registers at 10, 65536 of them: raw estimate 48404826.6.
    assert_eq!(with_registers(16, &vec![10; 65536]).count(), 48404826);
}

#[test]
fn linear_counting_value() {
    // One register at 1 of 16: 16 * ln(16 / 15) = 1.03.
    let mut regs = [0u8; 16];
    regs[0] = 1;
    assert_eq!(with_registers(4, &regs).count(), 1);
    // One register at 3 of 1024: 1024 * ln(1024 / 1023) = 1.0005.
    let mut regs = vec![0u8; 1024];
    regs[1023] = 3;
    assert_eq!(with_registers(10, &regs).count(), 1);
    // Half the registers set: 1024 * ln 2 = 709.78.
    let mut regs = vec![0u8; 1024];
    for r in regs.iter_mut().take(512) {
        *r = 1;
    }
    let h = with_registers(10, &regs);
    let expect = 1024.0 * 2f64.ln();
    assert!((h.count() as f64 - expect).abs() <= 1.0, "got {}", h.count());
}

#[test]
fn large_range_value() {
    // All registers at 16, 65536 of them: raw estimate 3097908905.9, corrected
    // to -2^32 ln(1 - raw / 2^32) = 5487150295.9.
    let h = with_registers(16, &vec![16; 65536]);
    let c = h.count() as f64;
    assert!((c - 5487150295.9).abs() < 10.0, "got {}", c);
}

#[test]
fn large_range_saturates() {
    assert_eq!(with_registers(4, &[64; 16]).count(), u64::MAX);
}

#[test]
fn deserialize_rejects_malformed() {
    assert!(matches!(HyperLogLog::deserialize(&[]), Err(HllError::Serialization(_))));
    assert!(matches!(HyperLogLog::deserialize(&[3, 0, 0]), Err(HllError::InvalidPrecision(3))));
    assert!(matches!(HyperLogLog::deserialize(&[4, 0, 0]), Err(HllError::Serialization(_))));
    let mut bytes = vec![4u8];
    bytes.extend_from_slice(&[0; 15]);
    bytes.push(65);
    assert!(matches!(HyperLogLog::deserialize(&bytes), Err(HllError::Serialization(_))));
}

#[test]
fn serialized_form_is_precision_then_registers() {
    let mut hll = HyperLogLog::new(4).unwrap();
    hll.add_str("a");
    let bytes = hll.serialize();
    assert_eq!(bytes.len(), 17);
    assert_eq!(bytes[0], 4);
    assert_eq!(&bytes[1..], &hll.registers()[..]);
}

#[test]
fn add_bytes_updates_register_of_xxhash() {
    let mut expected = XxHash64::with_seed(0);
    expected.write(b"hello world");
    let hash = expected.finish();
    let p = 10u8;
    let idx = (hash >> (64 - p)) as usize;
    let rest = hash << p;
    let rank = if rest == 0 { 65 - p } else { rest.leading_zeros() as u8 + 1 };

    let mut hll = HyperLogLog::new(p).unwrap();
    hll.add_bytes(b"hello world");
    assert_eq!(hll.registers()[idx], rank);
    assert_eq!(hll.registers().iter().filter(|&&r| r != 0).count(), 1);

    let mut by_str = HyperLogLog::new(p).unwrap();
    by_str.add_str("hello world");
    assert_eq!(by_str.registers(), hll.registers());
}

#[test]
fn add_hash_applies_update_rule() {
    let mut hll = HyperLogLog::new(4).unwrap();
    // Top four bits select register 0xA; the remaining bits are all zero.
    hll.add_hash(0xA000_0000_0000_0000);
    assert_eq!(hll.registers()[0xA], 61);
    // Register 3, remainder with three leading zeros: rank 4.
    hll.add_hash(0x3100_0000_0000_0000);
    assert_eq!(hll.registers()[3], 4);
    // A smaller rank never lowers a register.
    hll.add_hash(0x3800_0000_0000_0000);
    assert_eq!(hll.registers()[3], 4);
}

#[test]
fn add_all_str_matches_one_by_one() {
    let elements: Vec<String> = (0..200).map(|i| format!("user:{}", i)).collect();
    let mut a = HyperLogLog::new(10).unwrap();
    a.add_all_str(&elements);
    let mut b = HyperLogLog::new(10).unwrap();
    for e in &elements {
        b.add_str(e);
    }
    assert_eq!(a.registers(), b.registers());
}

#[test]
fn error_status_codes() {
    assert_eq!(HllError::NotFound("k".to_string()).status_code(), 404);
    assert_eq!(HllError::InvalidKey("k".to_string()).status_code(), 400);
    assert_eq!(HllError::InvalidPrecision(3).status_code(), 400);
    assert_eq!(HllError::PrecisionMismatch(10, 12).status_code(), 400);
    assert_eq!(HllError::Storage("x".to_string()).status_code(), 500);
    assert_eq!(HllError::Io("x".to_string()).status_code(), 500);
}

#[test]
fn leaving_linear_counting_can_lower_count() {
    // The last zero register filled: linear counting gave 16 ln 16 = 44.4,
    // the raw estimate that takes over gives 38.
    let before = with_registers(4, &[5, 5, 0, 3, 1, 1, 4, 1, 1, 4, 1, 4, 2, 4, 1, 2]);
    let after = with_registers(4, &[5, 5, 1, 3, 1, 1, 4, 1, 1, 4, 1, 4, 2, 4, 1, 2]);
    assert_eq!(before.count(), 44);
    assert_eq!(after.count(), 38);
}
