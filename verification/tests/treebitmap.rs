use starcast_store::{
    MatchOptions, MatchType, NoMeta, PrefixAs, PrefixId, Record, RouteStatus, Store,
};

fn v4(a: u8, b: u8, c: u8, d: u8, len: u8) -> PrefixId {
    let addr: u32 = ((a as u32) << 24) | ((b as u32) << 16) | ((c as u32) << 8) | (d as u32);
    PrefixId::v4(addr, len).unwrap()
}

fn opts(match_type: MatchType, include_withdrawn: bool, ls: bool, ms: bool, mui: Option<u32>) -> MatchOptions {
    MatchOptions {
        match_type,
        include_withdrawn,
        include_less_specifics: ls,
        include_more_specifics: ms,
        mui,
    }
}

#[test]
fn test_insert_extremes_ipv4() {
    let trie = &mut Store::<NoMeta>::try_default().unwrap();
    let min_pfx = v4(0, 0, 0, 0, 1);

    trie.insert(&min_pfx, Record::new(0, 0, RouteStatus::Active, NoMeta::Empty), None)
        .unwrap();

    let guard = &crossbeam_epoch::pin();
    let res = trie
        .match_prefix(
            &min_pfx,
            &opts(MatchType::LongestMatch, false, true, false, None),
            guard,
        )
        .unwrap();
    assert!(res.prefix.is_some());
    assert_eq!(res.prefix, Some(min_pfx));
    assert_eq!(res.match_type, MatchType::ExactMatch);

    let max_pfx = v4(255, 255, 255, 255, 32);
    trie.insert(&max_pfx, Record::new(0, 0, RouteStatus::Active, NoMeta::Empty), None)
        .unwrap();
    let res = trie
        .match_prefix(
            &max_pfx,
            &opts(MatchType::ExactMatch, false, true, false, None),
            guard,
        )
        .unwrap();
    assert!(res.prefix.is_some());
    assert_eq!(res.prefix, Some(max_pfx));

    // a query between the two stored extremes matches nothing
    let miss = v4(128, 0, 0, 0, 32);
    let res = trie
        .match_prefix(
            &miss,
            &opts(MatchType::LongestMatch, false, false, false, None),
            guard,
        )
        .unwrap();
    assert_eq!(res.match_type, MatchType::EmptyMatch);
    assert!(res.prefix.is_none());
}

#[test]
fn test_tree_ipv4() {
    let tree_bitmap = &mut Store::<PrefixAs>::try_default().unwrap();
    let pfxs = vec![
        v4(255, 255, 255, 255, 32),
        v4(0, 0, 0, 0, 4),
        v4(16, 0, 0, 0, 4),
        v4(32, 0, 0, 0, 4),
        v4(48, 0, 0, 0, 4),
        v4(64, 0, 0, 0, 4),
        v4(80, 0, 0, 0, 4),
        v4(96, 0, 0, 0, 4),
        v4(112, 0, 0, 0, 4),
        v4(128, 0, 0, 0, 4),
        v4(144, 0, 0, 0, 4),
        v4(160, 0, 0, 0, 4),
        v4(176, 0, 0, 0, 4),
        v4(192, 0, 0, 0, 4),
        v4(208, 0, 0, 0, 4),
        v4(224, 0, 0, 0, 4),
        v4(240, 0, 0, 0, 4),
        v4(240, 0, 0, 0, 9),
        v4(240, 128, 0, 0, 9),
        v4(119, 128, 0, 0, 12),
        v4(119, 128, 0, 0, 9),
        v4(119, 128, 0, 0, 10),
        v4(119, 128, 0, 0, 11),
        v4(119, 0, 0, 0, 12),
        v4(119, 0, 0, 0, 13),
        v4(119, 128, 0, 0, 13),
        v4(119, 0, 0, 0, 14),
        v4(119, 64, 0, 0, 14),
        v4(119, 128, 0, 0, 14),
        v4(119, 192, 0, 0, 14),
        v4(192, 0, 0, 0, 23),
        v4(192, 0, 0, 0, 16),
        v4(192, 0, 10, 0, 23),
        v4(192, 0, 9, 0, 24),
        v4(193, 0, 0, 0, 23),
        v4(193, 0, 10, 0, 23),
        v4(209, 0, 0, 0, 16),
        v4(193, 0, 9, 0, 24),
        v4(193, 0, 10, 0, 24),
        v4(193, 0, 14, 0, 23),
        v4(193, 0, 14, 0, 24),
        v4(193, 0, 15, 0, 24),
        v4(193, 0, 10, 10, 32),
        v4(131, 143, 0, 0, 11),
        v4(130, 87, 248, 0, 13),
        v4(130, 55, 240, 0, 24),
        v4(255, 1, 0, 0, 12),
        v4(255, 55, 0, 0, 17),
        v4(100, 0, 12, 0, 24),
        v4(1, 0, 0, 0, 24),
        v4(1, 0, 128, 0, 24),
    ];

    for pfx in pfxs.iter() {
        tree_bitmap
            .insert(pfx, Record::new(0, 0, RouteStatus::Active, PrefixAs(666)), None)
            .unwrap();
    }

    let guard = &crossbeam_epoch::pin();
    for pfx in tree_bitmap.prefixes_iter(guard) {
        let res = tree_bitmap
            .match_prefix(
                &pfx.prefix,
                &opts(MatchType::LongestMatch, false, false, false, None),
                guard,
            )
            .unwrap();
        assert_eq!(res.prefix.unwrap(), pfx.prefix);
    }

    let res = tree_bitmap
        .match_prefix(
            &v4(192, 0, 1, 0, 24),
            &opts(MatchType::LongestMatch, false, true, false, None),
            guard,
        )
        .unwrap();
    assert_eq!(res.prefix.unwrap(), v4(192, 0, 0, 0, 23));

    let less_specifics = res.less_specifics.unwrap();
    assert!(less_specifics.iter().any(|r| r.prefix == v4(192, 0, 0, 0, 16)));
    assert!(less_specifics.iter().any(|r| r.prefix == v4(192, 0, 0, 0, 4)));
}

#[test]
fn test_ranges_ipv4() {
    for i_net in 0..255_u8 {
        let tree_bitmap = &mut Store::<NoMeta>::try_default().unwrap();

        let pfx_vec: Vec<PrefixId> =
            (1..32_u8).map(|i_len| v4(i_net, 0, 0, 0, i_len)).collect();

        let mut i_len_s = 0;
        for pfx in pfx_vec {
            i_len_s += 1;
            tree_bitmap
                .insert(&pfx, Record::new(0, 0, RouteStatus::Active, NoMeta::Empty), None)
                .unwrap();

            let res_pfx = v4(i_net, 0, 0, 0, i_len_s);

            let guard = &crossbeam_epoch::pin();
            for s_len in i_len_s..32 {
                let pfx = v4(i_net, 0, 0, 0, s_len);
                let res = tree_bitmap
                    .match_prefix(
                        &pfx,
                        &opts(MatchType::LongestMatch, false, false, false, None),
                        guard,
                    )
                    .unwrap();
                assert_eq!(res.prefix.unwrap(), res_pfx);
            }
        }
    }
}

#[test]
fn test_multi_ranges_ipv4() {
    let tree_bitmap = &mut Store::<NoMeta>::try_default().unwrap();
    for mui in [1_u32, 2, 3, 4, 5] {
        for i_net in 0..2_u8 {
            for i_len in 16..18_u8 {
                let pfx = v4(i_net, 0, 0, 0, i_len);
                tree_bitmap
                    .insert(
                        &pfx,
                        Record::new(mui, 0, RouteStatus::Active, NoMeta::Empty),
                        None,
                    )
                    .unwrap();
            }
        }
    }

    let guard = &crossbeam_epoch::pin();
    for rec in tree_bitmap.iter_records_for_mui_v4(5, false, guard) {
        assert_eq!(rec.meta.len(), 1);
        assert_eq!(rec.meta[0].multi_uniq_id, 5);
        assert_eq!(rec.meta[0].status, RouteStatus::Active);
    }

    // withdraw records for producer 1 globally
    tree_bitmap.mark_mui_as_withdrawn_v4(1).unwrap();

    let wd_pfx = v4(1, 0, 0, 0, 16);
    let all_recs_for_pfx = tree_bitmap
        .match_prefix(
            &wd_pfx,
            &opts(MatchType::LongestMatch, true, false, false, None),
            guard,
        )
        .unwrap();
    assert_eq!(all_recs_for_pfx.records.len(), 5);
    let wd_rec: Vec<_> = all_recs_for_pfx
        .records
        .iter()
        .filter(|r| r.status == RouteStatus::Withdrawn)
        .collect();
    assert_eq!(wd_rec.len(), 1);
    assert_eq!(wd_rec[0].multi_uniq_id, 1);

    let active_recs_for_pfx = tree_bitmap
        .match_prefix(
            &wd_pfx,
            &opts(MatchType::LongestMatch, false, false, false, None),
            guard,
        )
        .unwrap();
    assert_eq!(active_recs_for_pfx.records.len(), 4);
    assert!(!active_recs_for_pfx.records.iter().any(|r| r.multi_uniq_id == 1));

    tree_bitmap.mark_mui_as_withdrawn_for_prefix(&wd_pfx, 2).unwrap();

    // the iterator overlays the effective status: producer 2 shows as
    // withdrawn exactly on the prefix it was withdrawn for
    let mui_2_recs: Vec<_> = tree_bitmap
        .prefixes_iter(guard)
        .into_iter()
        .filter_map(|r| {
            let st = r.get_record_for_mui(2).map(|rec| rec.status);
            st.map(|s| (r.prefix, s))
        })
        .collect();
    assert_eq!(mui_2_recs.len(), 4);
    let wd_2: Vec<_> = mui_2_recs
        .iter()
        .filter(|x| x.1 == RouteStatus::Withdrawn)
        .collect();
    assert_eq!(wd_2.len(), 1);
    assert_eq!(wd_2[0].0, wd_pfx);
    let active_2: Vec<_> = mui_2_recs
        .iter()
        .filter(|x| x.1 == RouteStatus::Active)
        .collect();
    assert_eq!(active_2.len(), 3);
    assert!(!active_2.iter().any(|x| x.0 == wd_pfx));

    // only visible where neither layer withdraws
    let active_recs = tree_bitmap
        .match_prefix(
            &wd_pfx,
            &opts(MatchType::LongestMatch, false, false, false, None),
            guard,
        )
        .unwrap();
    assert_eq!(active_recs.records.len(), 3);

    let mui_1_recs = tree_bitmap.iter_records_for_mui_v4(1, false, guard);
    assert!(mui_1_recs.is_empty());

    let mui_1_recs = tree_bitmap.iter_records_for_mui_v4(1, true, guard);
    assert_eq!(mui_1_recs.len(), 4);
    for rec in mui_1_recs {
        assert_eq!(rec.meta[0].status, RouteStatus::Withdrawn);
    }

    // more specifics of 1.0.0.0/16 with and without withdrawn rows
    let more_specifics = tree_bitmap
        .match_prefix(
            &wd_pfx,
            &opts(MatchType::LongestMatch, true, false, true, None),
            guard,
        )
        .unwrap();
    let more_specifics = more_specifics.more_specifics.unwrap();
    assert_eq!(more_specifics.len(), 1);
    assert_eq!(more_specifics[0].prefix, v4(1, 0, 0, 0, 17));
    assert_eq!(more_specifics[0].meta.len(), 5);
    assert_eq!(
        more_specifics[0]
            .meta
            .iter()
            .filter(|r| r.status == RouteStatus::Active)
            .count(),
        4
    );
    let rec: Vec<_> = more_specifics[0]
        .meta
        .iter()
        .filter(|r| r.status == RouteStatus::Withdrawn)
        .collect();
    assert_eq!(rec.len(), 1);
    assert_eq!(rec[0].multi_uniq_id, 1);

    let more_specifics = tree_bitmap
        .match_prefix(
            &wd_pfx,
            &opts(MatchType::LongestMatch, false, false, true, None),
            guard,
        )
        .unwrap();
    let more_specifics = more_specifics.more_specifics.unwrap();
    assert_eq!(more_specifics.len(), 1);
    assert_eq!(more_specifics[0].prefix, v4(1, 0, 0, 0, 17));
    assert_eq!(more_specifics[0].meta.len(), 4);
    assert!(more_specifics[0].meta.iter().all(|r| r.status == RouteStatus::Active));

    // reactivate producer 1 globally but withdraw it for the prefix itself
    tree_bitmap.mark_mui_as_withdrawn_for_prefix(&wd_pfx, 1).unwrap();
    tree_bitmap.mark_mui_as_active_v4(1).unwrap();

    let more_specifics = tree_bitmap
        .match_prefix(
            &wd_pfx,
            &opts(MatchType::LongestMatch, false, false, true, None),
            guard,
        )
        .unwrap();
    // producers 1 and 2 are withdrawn for the prefix itself, 3 remain
    assert_eq!(more_specifics.records.len(), 3);
    let ms = more_specifics.more_specifics.unwrap();
    assert_eq!(ms.len(), 1);
    assert_eq!(ms[0].prefix, v4(1, 0, 0, 0, 17));
    assert_eq!(ms[0].meta.len(), 5);
    assert!(ms[0].meta.iter().all(|r| r.status == RouteStatus::Active));

    // withdraw every producer for the prefix itself
    tree_bitmap.mark_mui_as_withdrawn_for_prefix(&wd_pfx, 2).unwrap();
    tree_bitmap.mark_mui_as_withdrawn_for_prefix(&wd_pfx, 3).unwrap();
    tree_bitmap.mark_mui_as_withdrawn_for_prefix(&wd_pfx, 4).unwrap();
    tree_bitmap.mark_mui_as_withdrawn_for_prefix(&wd_pfx, 5).unwrap();

    let res = tree_bitmap
        .match_prefix(
            &wd_pfx,
            &opts(MatchType::ExactMatch, false, false, true, None),
            guard,
        )
        .unwrap();
    assert!(res.records.is_empty());
    assert_eq!(res.match_type, MatchType::EmptyMatch);
    let ms = res.more_specifics.unwrap();
    assert_eq!(ms.len(), 1);
    assert_eq!(ms[0].prefix, v4(1, 0, 0, 0, 17));
    assert_eq!(ms[0].meta.len(), 5);

    // from the more specific prefix, the fully withdrawn /16 is invisible
    let sub = v4(1, 0, 0, 0, 17);
    let res = tree_bitmap
        .match_prefix(
            &sub,
            &opts(MatchType::ExactMatch, false, true, false, None),
            guard,
        )
        .unwrap();
    assert_eq!(res.records.len(), 5);
    let ls = res.less_specifics.unwrap();
    assert!(ls.is_empty());

    // reactivating one producer for the /16 makes it visible again
    tree_bitmap.mark_mui_as_active_for_prefix(&wd_pfx, 5).unwrap();
    let res = tree_bitmap
        .match_prefix(
            &sub,
            &opts(MatchType::ExactMatch, false, true, false, None),
            guard,
        )
        .unwrap();
    let ls = res.less_specifics.unwrap();
    assert_eq!(ls.len(), 1);
    assert_eq!(ls[0].prefix, wd_pfx);
    assert_eq!(ls[0].meta.len(), 1);
    assert_eq!(ls[0].meta[0].multi_uniq_id, 5);
    assert_eq!(ls[0].meta[0].status, RouteStatus::Active);
}
