use aliquot::{AliquotSeq, Generator};

#[test]
fn zero_and_one_are_unknown_and_uncached() {
    let mut gener = Generator::new();
    assert_eq!(gener.aliquot_seq(0), AliquotSeq::Unknown(vec![0]));
    assert_eq!(gener.aliquot_seq(1), AliquotSeq::Unknown(vec![1]));
    assert_eq!(gener.cache().n_seq(), 0);
}

#[test]
fn classifier_concrete_scenarios() {
    let mut gener = Generator::new();
    assert_eq!(gener.aliquot_seq(6), AliquotSeq::PerfectNumber(6));
    assert_eq!(
        gener.aliquot_seq(12),
        AliquotSeq::Convergent(vec![12, 16, 15, 9, 4, 3, 1])
    );
    assert_eq!(
        gener.aliquot_seq(95),
        AliquotSeq::AspiringNumber(vec![95, 25, 6])
    );
    assert_eq!(gener.aliquot_seq(220), AliquotSeq::AmicableNumber((220, 284)));
    assert_eq!(gener.aliquot_seq(284), AliquotSeq::AmicableNumber((284, 220)));
    assert_eq!(
        gener.aliquot_seq(1264460),
        AliquotSeq::SociableNumber(vec![1264460, 1547860, 1727636, 1305184])
    );
}

#[test]
fn classifier_is_idempotent_and_serves_from_cache() {
    let mut gener = Generator::new();
    let first = gener.aliquot_seq(12);
    let n_seq = gener.cache().n_seq();
    let count = gener.cache().count();
    // the second call returns the identical result and leaves the cache
    // untouched: it was served from the store, not recomputed
    let second = gener.aliquot_seq(12);
    assert_eq!(first, second);
    assert_eq!(gener.cache().n_seq(), n_seq);
    assert_eq!(gener.cache().count(), count);
    // an interior member of the stored sequence is also served directly
    let third = gener.aliquot_seq(16);
    assert_eq!(third, AliquotSeq::Convergent(vec![16, 15, 9, 4, 3, 1]));
    assert_eq!(gener.cache().n_seq(), n_seq);
    assert_eq!(gener.cache().count(), count);
}

#[test]
fn value_ceiling_degrades_to_unknown() {
    let mut gener = Generator::with_params(100, 1_000_000, 1_000, false);
    // the divisor sum of 96 is 156, above the ceiling of 100
    assert_eq!(gener.aliquot_seq(96), AliquotSeq::Unknown(vec![96]));
}

#[test]
fn step_budget_degrades_to_unknown() {
    let mut gener = Generator::with_params(u64::MAX, 3, 1_000, false);
    assert_eq!(gener.aliquot_seq(12), AliquotSeq::Unknown(vec![12, 16, 15]));
}

#[test]
fn divisor_sum_overflow_degrades_to_unknown() {
    let mut gener = Generator::new();
    let n: u64 = 105 << 57;
    assert_eq!(gener.aliquot_seq(n), AliquotSeq::Unknown(vec![n]));
}

#[test]
fn classification_views_agree() {
    let mut gener = Generator::new();
    for n in [0u64, 1, 2, 6, 12, 95, 220, 1064, 1264460] {
        let c = gener.aliquot_seq(n);
        let seq = c.seq();
        assert_eq!(seq[0], c.number());
        assert_eq!(seq.len(), c.len());
        assert_eq!(c.number(), n);
    }
}

#[test]
fn classification_kind_names() {
    let mut gener = Generator::new();
    assert_eq!(gener.aliquot_seq(6).type_str(), "Perfect number");
    assert_eq!(gener.aliquot_seq(7).type_str(), "Prime number");
    assert_eq!(gener.aliquot_seq(12).type_str(), "Convergent sequence");
    assert_eq!(gener.aliquot_seq(220).type_str(), "Amicable number");
    assert_eq!(gener.aliquot_seq(1264460).type_str(), "Sociable number");
    assert_eq!(gener.aliquot_seq(95).type_str(), "Aspiring number");
    assert_eq!(gener.aliquot_seq(1064).type_str(), "Convergent into cycle");
    assert_eq!(gener.aliquot_seq(0).type_str(), "Unknown sequence");
}

#[test]
fn classification_display_forms() {
    let mut gener = Generator::new();
    assert_eq!(gener.aliquot_seq(6).seq_string(), "6");
    assert_eq!(gener.aliquot_seq(7).seq_string(), "7, 1");
    assert_eq!(
        gener.aliquot_seq(12).seq_string(),
        "[12, 16, 15, 9, 4, 3, 1]"
    );
    assert_eq!(gener.aliquot_seq(220).seq_string(), "220, 284");
    assert_eq!(
        gener.aliquot_seq(1064).seq_string(),
        "[1064, 1336] -> [1184, 1210]"
    );
}

#[test]
fn classification_cycle_predicate() {
    let mut gener = Generator::new();
    assert!(gener.aliquot_seq(220).cycles());
    assert!(gener.aliquot_seq(1264460).cycles());
    assert!(gener.aliquot_seq(1064).cycles());
    assert!(!gener.aliquot_seq(6).cycles());
    assert!(!gener.aliquot_seq(7).cycles());
    assert!(!gener.aliquot_seq(12).cycles());
    assert!(!gener.aliquot_seq(95).cycles());
    assert!(!gener.aliquot_seq(0).cycles());
}

#[test]
fn classification_lengths() {
    let mut gener = Generator::new();
    assert_eq!(gener.aliquot_seq(6).len(), 1);
    assert_eq!(gener.aliquot_seq(7).len(), 2);
    assert_eq!(gener.aliquot_seq(12).len(), 7);
    assert_eq!(gener.aliquot_seq(220).len(), 2);
    assert_eq!(gener.aliquot_seq(1064).len(), 4);
}
