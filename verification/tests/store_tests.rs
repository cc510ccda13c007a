use starcast_store::{
    counter_update, encode_record_value, parse_record_value, Fam, MatchOptions, MatchType,
    NoMeta, PersistStrategy, PrefixAs, PrefixId, PrefixStoreError, Record, RouteStatus, Store,
    StoreConfig, UpsertCounters, UpsertReport,
};
use starcast_store::Meta;

fn v4(a: u8, b: u8, c: u8, d: u8, len: u8) -> PrefixId {
    let addr: u32 = ((a as u32) << 24) | ((b as u32) << 16) | ((c as u32) << 8) | (d as u32);
    PrefixId::v4(addr, len).unwrap()
}

fn opts(match_type: MatchType, include_withdrawn: bool, ls: bool, ms: bool, mui: Option<u32>) -> MatchOptions {
    MatchOptions {
        match_type,
        include_withdrawn,
        include_less_specifics: ls,
        include_more_specifics: ms,
        mui,
    }
}

#[test]
fn test_prefix_id_validation() {
    // a length beyond the family's bit width is rejected
    assert_eq!(
        PrefixId::v4(0, 33).unwrap_err(),
        PrefixStoreError::PrefixLengthInvalid
    );
    // host bits are rejected by the strict constructor
    assert_eq!(
        PrefixId::new(Fam::V4, 1u128 << 96, 24).unwrap_err(),
        PrefixStoreError::PrefixLengthInvalid
    );
    // and zeroed by the relaxed one
    let p = PrefixId::new_relaxed(Fam::V4, (0xC0A8_0101u128) << 96, 16).unwrap();
    assert_eq!(p, v4(192, 168, 0, 0, 16));
    // strides outside 3..=5 are rejected at construction
    let bad = Store::<NoMeta>::new(&vec![8], &vec![4; 32]);
    assert!(matches!(bad, Err(PrefixStoreError::PrefixLengthInvalid)));
    // a sequence that does not sum to the family's bit width is rejected
    let short = Store::<NoMeta>::new(&vec![5, 4, 3, 4], &vec![4; 32]);
    assert!(matches!(short, Err(PrefixStoreError::PrefixLengthInvalid)));
    let short6 = Store::<NoMeta>::new(&vec![4; 8], &vec![4]);
    assert!(matches!(short6, Err(PrefixStoreError::PrefixLengthInvalid)));
    // an exact sum with strides in 3..=5 is accepted as given
    let s = Store::<NoMeta>::new(&vec![5, 4, 3, 4, 4, 4, 4, 4], &vec![4; 32]).unwrap();
    let (s4, s6) = s.strides();
    assert_eq!(s4, vec![5, 4, 3, 4, 4, 4, 4, 4]);
    assert_eq!(s6.iter().map(|x| *x as u32).sum::<u32>(), 128);
}

#[test]
fn test_counts_are_exact() {
    let store = &mut Store::<PrefixAs>::new(&vec![3, 3, 3, 3, 3, 3, 3, 3, 4, 4], &vec![4; 32])
        .unwrap();
    assert_eq!(store.prefixes_count(), 0);
    let n0 = store.nodes_count();

    let rep = store
        .insert(&v4(10, 0, 0, 0, 8), Record::new(1, 0, RouteStatus::Active, PrefixAs(64512)), None)
        .unwrap();
    assert!(rep.prefix_new);
    assert!(rep.mui_new);
    assert_eq!(rep.cas_count, 0);
    assert_eq!(store.prefixes_count(), 1);
    assert_eq!(store.prefixes_v4_len(), 1);
    assert_eq!(store.prefixes_v6_len(), 0);

    // a replacement leaves the prefix count alone
    let rep = store
        .insert(&v4(10, 0, 0, 0, 8), Record::new(1, 1, RouteStatus::Active, PrefixAs(64513)), None)
        .unwrap();
    assert!(!rep.prefix_new);
    assert!(!rep.mui_new);
    assert_eq!(store.prefixes_count(), 1);

    // a second producer under the same prefix is a new route, not a new prefix
    let rep = store
        .insert(&v4(10, 0, 0, 0, 8), Record::new(2, 0, RouteStatus::Active, PrefixAs(64514)), None)
        .unwrap();
    assert!(!rep.prefix_new);
    assert!(rep.mui_new);
    assert_eq!(rep.mui_count, 2);
    assert_eq!(store.prefixes_count(), 1);

    // node counts never shrink
    let n1 = store.nodes_count();
    assert!(n1 >= n0);
    store
        .insert(&v4(10, 1, 2, 0, 24), Record::new(1, 0, RouteStatus::Active, PrefixAs(1)), None)
        .unwrap();
    assert!(store.nodes_count() >= n1);
    assert_eq!(store.prefixes_count(), 2);

    // the v6 side is untouched by v4 inserts
    assert_eq!(store.nodes_v6_len(), 1);
    let stats = store.stats();
    assert_eq!(stats.prefixes_v4, 2);
    assert_eq!(stats.prefixes_v6, 0);
}

#[test]
fn test_repeated_upserts_keep_last_meta() {
    // many upserts of one prefix under one producer: the prefix stays
    // unique and the last written metadata wins
    let store = &mut Store::<PrefixAs>::try_default().unwrap();
    let pfx = v4(255, 255, 255, 255, 32);
    let mut total = 0usize;
    let mut first_writes = 0usize;
    let mut last = 0u32;
    let mut seed = 0x2545F491_u32;
    for i in 0..100u32 {
        seed = seed.wrapping_mul(1103515245).wrapping_add(12345);
        let meta = seed ^ i;
        let rep = store
            .insert(&pfx, Record::new(7, i as u64, RouteStatus::Active, PrefixAs(meta)), None)
            .unwrap();
        total += 1;
        if rep.mui_new {
            first_writes += 1;
        }
        last = meta;
    }
    assert_eq!(store.prefixes_count(), 1);
    assert_eq!(first_writes, 1);
    assert_eq!(total, 100);

    let guard = &crossbeam_epoch::pin();
    let res = store
        .match_prefix(&pfx, &opts(MatchType::ExactMatch, false, false, false, None), guard)
        .unwrap();
    assert_eq!(res.records.len(), 1);
    assert_eq!(res.records[0].meta, PrefixAs(last));
    assert_eq!(res.records[0].ltime, 99);
}

#[test]
fn test_best_path_selection() {
    let store = &mut Store::<PrefixAs>::try_default().unwrap();
    let pfx = v4(198, 51, 100, 0, 24);
    let guard = &crossbeam_epoch::pin();

    // best path on an absent prefix: no entry at all
    assert!(store.best_path(&pfx, guard).is_none());

    store
        .insert(&pfx, Record::new(3, 0, RouteStatus::Active, PrefixAs(200)), None)
        .unwrap();
    store
        .insert(&pfx, Record::new(1, 0, RouteStatus::Active, PrefixAs(100)), None)
        .unwrap();
    store
        .insert(&pfx, Record::new(2, 0, RouteStatus::Active, PrefixAs(100)), None)
        .unwrap();

    // before any recomputation there is no best path yet
    assert!(store.is_ps_outdated(&pfx, guard).unwrap());
    assert_eq!(
        store.best_path(&pfx, guard).unwrap().unwrap_err(),
        PrefixStoreError::BestPathNotFound
    );

    // lowest key wins; the tie at key 100 breaks on the lower producer
    let (best, backup) = store
        .calculate_and_store_best_and_backup_path(&pfx, &(), guard)
        .unwrap();
    assert_eq!(best, Some(1));
    assert_eq!(backup, Some(2));
    assert!(!store.is_ps_outdated(&pfx, guard).unwrap());
    let rec = store.best_path(&pfx, guard).unwrap().unwrap();
    assert_eq!(rec.multi_uniq_id, 1);
    assert_eq!(rec.meta, PrefixAs(100));

    // withdrawing the best producer marks the selection stale; the next
    // best-path read re-derives it lazily and the selection moves
    store.mark_mui_as_withdrawn_for_prefix(&pfx, 1).unwrap();
    assert!(store.is_ps_outdated(&pfx, guard).unwrap());
    let rec = store.best_path(&pfx, guard).unwrap().unwrap();
    assert_eq!(rec.multi_uniq_id, 2);
    assert!(!store.is_ps_outdated(&pfx, guard).unwrap());
    let (best, backup) = store
        .calculate_and_store_best_and_backup_path(&pfx, &(), guard)
        .unwrap();
    assert_eq!(best, Some(2));
    assert_eq!(backup, Some(3));

    // with every record invisible the lazy re-derivation finds no best path
    store.mark_mui_as_withdrawn_v4(2).unwrap();
    store.mark_mui_as_withdrawn_v4(3).unwrap();
    assert!(store.is_ps_outdated(&pfx, guard).unwrap());
    assert_eq!(
        store.best_path(&pfx, guard).unwrap().unwrap_err(),
        PrefixStoreError::BestPathNotFound
    );
    let (best, backup) = store
        .calculate_and_store_best_and_backup_path(&pfx, &(), guard)
        .unwrap();
    assert_eq!(best, None);
    assert_eq!(backup, None);
    assert_eq!(
        store.best_path(&pfx, guard).unwrap().unwrap_err(),
        PrefixStoreError::BestPathNotFound
    );
}

#[test]
fn test_double_withdraw_is_idempotent() {
    let store = &mut Store::<NoMeta>::try_default().unwrap();
    let pfx = v4(203, 0, 113, 0, 24);
    let guard = &crossbeam_epoch::pin();
    for mui in [1u32, 2] {
        store
            .insert(&pfx, Record::new(mui, 0, RouteStatus::Active, NoMeta::Empty), None)
            .unwrap();
    }

    store.mark_mui_as_withdrawn_for_prefix(&pfx, 1).unwrap();
    let once = store
        .match_prefix(&pfx, &opts(MatchType::ExactMatch, false, false, false, None), guard)
        .unwrap();
    store.mark_mui_as_withdrawn_for_prefix(&pfx, 1).unwrap();
    let twice = store
        .match_prefix(&pfx, &opts(MatchType::ExactMatch, false, false, false, None), guard)
        .unwrap();
    assert_eq!(once.records.len(), 1);
    assert_eq!(twice.records.len(), 1);
    assert_eq!(once.records[0].multi_uniq_id, twice.records[0].multi_uniq_id);

    // the same holds for the global layer
    store.mark_mui_as_withdrawn_v4(2).unwrap();
    store.mark_mui_as_withdrawn_v4(2).unwrap();
    let after = store
        .match_prefix(&pfx, &opts(MatchType::ExactMatch, true, false, false, None), guard)
        .unwrap();
    assert_eq!(after.records.len(), 2);
    assert!(after.records.iter().all(|r| r.status == RouteStatus::Withdrawn));

    // marking an absent prefix fails without touching the store
    let absent = v4(198, 18, 0, 0, 15);
    assert_eq!(
        store.mark_mui_as_withdrawn_for_prefix(&absent, 1).unwrap_err(),
        PrefixStoreError::StoreNotReadyError
    );
}

#[test]
fn test_ipv6_basic() {
    let store = &mut Store::<NoMeta>::try_default().unwrap();
    let guard = &crossbeam_epoch::pin();
    let p32 = PrefixId::v6(0x2001_0db8_0000_0000_0000_0000_0000_0000, 32).unwrap();
    let p48 = PrefixId::v6(0x2001_0db8_0001_0000_0000_0000_0000_0000, 48).unwrap();
    store
        .insert(&p32, Record::new(9, 0, RouteStatus::Active, NoMeta::Empty), None)
        .unwrap();
    store
        .insert(&p48, Record::new(9, 1, RouteStatus::Active, NoMeta::Empty), None)
        .unwrap();
    assert_eq!(store.prefixes_v6_len(), 2);
    assert_eq!(store.prefixes_v4_len(), 0);

    let q = PrefixId::v6(0x2001_0db8_0001_0002_0000_0000_0000_0000, 64).unwrap();
    let res = store
        .match_prefix(&q, &opts(MatchType::LongestMatch, false, true, false, None), guard)
        .unwrap();
    assert_eq!(res.prefix, Some(p48));
    assert_eq!(res.match_type, MatchType::LongestMatch);
    // both stored prefixes are strict covers of the /64 query, shortest first
    let ls = res.less_specifics.unwrap();
    assert_eq!(ls.len(), 2);
    assert_eq!(ls[0].prefix, p32);
    assert_eq!(ls[1].prefix, p48);

    store.mark_mui_as_withdrawn_v6(9).unwrap();
    let res = store
        .match_prefix(&q, &opts(MatchType::LongestMatch, false, false, false, None), guard)
        .unwrap();
    assert_eq!(res.match_type, MatchType::EmptyMatch);
    store.mark_mui_as_active_v6(9).unwrap();
    let res = store
        .match_prefix(&q, &opts(MatchType::LongestMatch, false, false, false, None), guard)
        .unwrap();
    assert_eq!(res.prefix, Some(p48));
}

#[test]
fn test_mui_filter_on_match() {
    let store = &mut Store::<NoMeta>::try_default().unwrap();
    let pfx = v4(192, 0, 2, 0, 24);
    let guard = &crossbeam_epoch::pin();
    for mui in [4u32, 5] {
        store
            .insert(&pfx, Record::new(mui, 0, RouteStatus::Active, NoMeta::Empty), None)
            .unwrap();
    }
    let res = store
        .match_prefix(&pfx, &opts(MatchType::ExactMatch, false, false, false, Some(5)), guard)
        .unwrap();
    assert_eq!(res.records.len(), 1);
    assert_eq!(res.records[0].multi_uniq_id, 5);

    // a filter on an unknown producer downgrades the match
    let res = store
        .match_prefix(&pfx, &opts(MatchType::ExactMatch, false, false, false, Some(6)), guard)
        .unwrap();
    assert_eq!(res.match_type, MatchType::EmptyMatch);
    assert!(res.records.is_empty());
}

#[test]
fn test_upsert_counters() {
    let mut counters = UpsertCounters::new_counters();
    counter_update(
        &mut counters,
        &UpsertReport { prefix_new: true, mui_new: true, cas_count: 0, mui_count: 1 },
    );
    counter_update(
        &mut counters,
        &UpsertReport { prefix_new: false, mui_new: true, cas_count: 0, mui_count: 2 },
    );
    counter_update(
        &mut counters,
        &UpsertReport { prefix_new: false, mui_new: false, cas_count: 0, mui_count: 2 },
    );
    assert_eq!(counters.unique_prefixes, 1);
    assert_eq!(counters.unique_routes, 2);
    assert_eq!(counters.total_routes, 3);

    let more = counters.combine(&counters);
    assert_eq!(more.total_routes, 6);
    assert_eq!(more.unique_prefixes, 2);
}

#[test]
fn test_meta_byte_round_trip() {
    let m = PrefixAs(0xDEAD_BEEF);
    let bytes = m.to_bytes();
    assert_eq!(bytes.len(), 4);
    assert_eq!(PrefixAs::from_bytes(&bytes), m);
    assert_eq!(NoMeta::from_bytes(&NoMeta::Empty.to_bytes()), NoMeta::Empty);
    assert_eq!(m.as_orderable(&()), 0xDEAD_BEEF_u64);
}

#[test]
fn test_persist_interface_memory_only() {
    let store = &mut Store::<NoMeta>::try_default().unwrap();
    store
        .insert(&v4(10, 0, 0, 0, 8), Record::new(1, 0, RouteStatus::Active, NoMeta::Empty), None)
        .unwrap();
    assert_eq!(store.approx_persisted_items(), (0, 0));
    assert_eq!(store.disk_space(), 0);
    assert!(store.flush_to_disk().is_ok());
}

#[test]
fn test_write_ahead_appends_every_upsert() {
    let config = StoreConfig { persist_strategy: PersistStrategy::WriteAhead };
    let store = &mut Store::<PrefixAs>::new_with_config(config).unwrap();
    assert_eq!(store.approx_persisted_items(), (0, 0));

    store
        .insert(&v4(10, 0, 0, 0, 8), Record::new(1, 7, RouteStatus::Active, PrefixAs(65000)), None)
        .unwrap();
    // a replacement is appended too: the buffer retains every version
    store
        .insert(&v4(10, 0, 0, 0, 8), Record::new(1, 8, RouteStatus::Active, PrefixAs(65001)), None)
        .unwrap();
    assert_eq!(store.approx_persisted_items(), (2, 0));
    assert!(store.disk_space() > 0);
}

#[test]
fn test_record_value_round_trip() {
    let meta = vec![0xAA_u8, 0xBB, 0xCC];
    let bytes = encode_record_value(0x01020304, 0x1122334455667788, RouteStatus::Withdrawn, &meta);
    assert_eq!(bytes.len(), 13 + 3);
    let (mui, ltime, status, meta2) = parse_record_value(&bytes).unwrap();
    assert_eq!(mui, 0x01020304);
    assert_eq!(ltime, 0x1122334455667788);
    assert_eq!(status, RouteStatus::Withdrawn);
    assert_eq!(meta2, meta);

    // a value too short to carry the fixed header decodes to nothing
    assert!(parse_record_value(&vec![1, 2, 3]).is_none());
    // an unknown status byte decodes to nothing
    let mut bad = encode_record_value(1, 1, RouteStatus::Active, &vec![]);
    bad[12] = 9;
    assert!(parse_record_value(&bad).is_none());
}
