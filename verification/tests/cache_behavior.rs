use aliquot::{AliquotSeq, Cache, Generator};

#[test]
fn cache_round_trip_convergent_tail() {
    let mut cache = Cache::new(1000);
    cache.add(AliquotSeq::Convergent(vec![12, 16, 15, 9, 4, 3, 1]));
    // the start is a direct hit
    assert_eq!(
        cache.get(12),
        Some(AliquotSeq::Convergent(vec![12, 16, 15, 9, 4, 3, 1]))
    );
    // every interior member yields the suffix from that member on
    assert_eq!(
        cache.get(16),
        Some(AliquotSeq::Convergent(vec![16, 15, 9, 4, 3, 1]))
    );
    assert_eq!(cache.get(3), Some(AliquotSeq::Convergent(vec![3, 1])));
    // the terminal value 1 is never registered
    assert_eq!(cache.get(1), None);
    // an unrelated number has no entry
    assert_eq!(cache.get(17), None);
}

#[test]
fn cache_round_trip_sociable_rotation() {
    let mut cache = Cache::new(1000);
    cache.add(AliquotSeq::SociableNumber(vec![
        1264460, 1547860, 1727636, 1305184,
    ]));
    assert_eq!(
        cache.get(1727636),
        Some(AliquotSeq::SociableNumber(vec![
            1727636, 1305184, 1264460, 1547860,
        ]))
    );
}

#[test]
fn cache_amicable_mirror_entry() {
    let mut cache = Cache::new(1000);
    cache.add(AliquotSeq::AmicableNumber((220, 284)));
    assert_eq!(cache.get(220), Some(AliquotSeq::AmicableNumber((220, 284))));
    // the mirrored pair is a canonical entry of its own
    assert_eq!(cache.get(284), Some(AliquotSeq::AmicableNumber((284, 220))));
    assert_eq!(cache.n_seq(), 2);
}

#[test]
fn cache_first_writer_wins() {
    let mut cache = Cache::new(1000);
    cache.add(AliquotSeq::AspiringNumber(vec![95, 25, 6]));
    let n_seq = cache.n_seq();
    let count = cache.count();
    // a second insert under the same starting number is a no-op
    cache.add(AliquotSeq::AspiringNumber(vec![95, 25, 6]));
    assert_eq!(cache.n_seq(), n_seq);
    assert_eq!(cache.count(), count);
    assert_eq!(
        cache.get(25),
        Some(AliquotSeq::AspiringNumber(vec![25, 6]))
    );
}

#[test]
fn cache_rejects_when_budget_is_exhausted() {
    let mut cache = Cache::new(3);
    // seven numbers do not fit a budget of three
    cache.add(AliquotSeq::Convergent(vec![12, 16, 15, 9, 4, 3, 1]));
    assert_eq!(cache.n_seq(), 0);
    assert_eq!(cache.count(), 0);
    assert_eq!(cache.get(12), None);
}

#[test]
fn cache_clear_resets_store_and_count() {
    let mut cache = Cache::new(1000);
    cache.add(AliquotSeq::Convergent(vec![12, 16, 15, 9, 4, 3, 1]));
    assert!(cache.n_seq() > 0);
    cache.clear();
    assert_eq!(cache.n_seq(), 0);
    assert_eq!(cache.count(), 0);
    assert_eq!(cache.get(12), None);
    // a stale lookup-table entry no longer resolves
    assert_eq!(cache.get(16), None);
}

#[test]
fn classifier_fills_cache_for_later_lookups() {
    let mut gener = Generator::new();
    gener.aliquot_seq(12);
    assert_eq!(
        gener.cache().get(16),
        Some(AliquotSeq::Convergent(vec![16, 15, 9, 4, 3, 1]))
    );
    gener.aliquot_seq(1264460);
    assert_eq!(
        gener.cache().get(1547860),
        Some(AliquotSeq::SociableNumber(vec![
            1547860, 1727636, 1305184, 1264460,
        ]))
    );
}

#[test]
fn classifier_into_cycle_prefix_lookup() {
    let mut gener = Generator::new();
    // 1064 -> 1336 -> 1184 <-> 1210: a prefix of two numbers running into
    // the amicable cycle of 1184 and 1210
    assert_eq!(
        gener.aliquot_seq(1064),
        AliquotSeq::IntoCycle(vec![1064, 1336], vec![1184, 1210])
    );
    // the interior prefix member resolves to a shortened prefix with the
    // shared cycle
    assert_eq!(
        gener.cache().get(1336),
        Some(AliquotSeq::IntoCycle(vec![1336], vec![1184, 1210]))
    );
}
