use starcast_store::{
    MatchOptions, MatchType, PrefixAs, PrefixId, Record, RouteStatus, Store,
};

fn v4(a: u8, b: u8, c: u8, d: u8, len: u8) -> PrefixId {
    let addr: u32 = ((a as u32) << 24) | ((b as u32) << 16) | ((c as u32) << 8) | (d as u32);
    PrefixId::v4(addr, len).unwrap()
}

fn test_prefixes() -> Vec<PrefixId> {
    vec![
        v4(17, 0, 64, 0, 18),   // 0
        v4(17, 0, 109, 0, 24),  // 1
        v4(17, 0, 153, 0, 24),  // 2
        v4(17, 0, 0, 0, 21),    // 3
        v4(17, 0, 176, 0, 20),  // 4
        v4(17, 0, 0, 0, 8),     // 5
        v4(17, 0, 184, 0, 23),  // 6
        v4(17, 0, 71, 0, 24),   // 7
        v4(17, 0, 0, 0, 9),     // 8
        v4(17, 0, 117, 0, 24),  // 9
        v4(17, 0, 99, 0, 24),   // 10
        v4(17, 0, 224, 0, 24),  // 11
        v4(17, 0, 128, 0, 18),  // 12
        v4(17, 0, 120, 0, 24),  // 13
    ]
}

#[test]
fn test_more_specifics_without_less_specifics() {
    let tree_bitmap = &mut Store::<PrefixAs>::try_default().unwrap();
    let pfxs = test_prefixes();
    for pfx in pfxs.iter() {
        tree_bitmap
            .insert(pfx, Record::new(0, 0, RouteStatus::Active, PrefixAs(1)), None)
            .unwrap();
    }

    let guard = &crossbeam_epoch::pin();
    for spfx in &[
        (
            v4(17, 0, 0, 0, 9),
            Some(v4(17, 0, 0, 0, 9)),
            vec![0, 1, 2, 3, 4, 6, 7, 9, 10, 11, 12, 13],
        ),
        (
            v4(17, 0, 0, 0, 8),
            Some(v4(17, 0, 0, 0, 8)),
            vec![0, 1, 2, 3, 4, 6, 7, 8, 9, 10, 11, 12, 13],
        ),
    ] {
        let found_result = tree_bitmap
            .match_prefix(
                &spfx.0,
                &MatchOptions {
                    match_type: MatchType::ExactMatch,
                    include_withdrawn: false,
                    include_less_specifics: false,
                    include_more_specifics: true,
                    mui: None,
                },
                guard,
            )
            .unwrap();

        let more_specifics = found_result.more_specifics.unwrap();
        assert_eq!(found_result.prefix, spfx.1);
        assert_eq!(more_specifics.len(), spfx.2.len());

        for i in spfx.2.iter() {
            let result_pfx = more_specifics.iter().find(|pfx| pfx.prefix == pfxs[*i]);
            assert!(result_pfx.is_some());
        }
    }
}

#[test]
fn test_more_specifics_with_less_specifics() {
    let tree_bitmap = &mut Store::<PrefixAs>::try_default().unwrap();
    let pfxs = test_prefixes();
    for pfx in pfxs.iter() {
        tree_bitmap
            .insert(pfx, Record::new(0, 0, RouteStatus::Active, PrefixAs(1)), None)
            .unwrap();
    }

    let guard = &crossbeam_epoch::pin();
    for spfx in &[
        (
            v4(17, 0, 0, 0, 9),
            Some(v4(17, 0, 0, 0, 9)),
            vec![0, 1, 2, 3, 4, 6, 7, 9, 10, 11, 12, 13],
        ),
        (
            v4(17, 0, 0, 0, 8),
            Some(v4(17, 0, 0, 0, 8)),
            vec![0, 1, 2, 3, 4, 6, 7, 8, 9, 10, 11, 12, 13],
        ),
    ] {
        let found_result = tree_bitmap
            .match_prefix(
                &spfx.0,
                &MatchOptions {
                    match_type: MatchType::LongestMatch,
                    include_withdrawn: false,
                    include_less_specifics: false,
                    include_more_specifics: true,
                    mui: None,
                },
                guard,
            )
            .unwrap();

        let more_specifics = found_result.more_specifics.unwrap();
        assert_eq!(found_result.prefix, spfx.1);
        assert_eq!(more_specifics.len(), spfx.2.len());

        for i in spfx.2.iter() {
            let result_pfx = more_specifics.iter().find(|pfx| pfx.prefix == pfxs[*i]);
            assert!(result_pfx.is_some());
        }
    }
}
