use rotonda_store::meta_examples::PrefixAs;
use rotonda_store::node_id::PrefixId;
use rotonda_store::options::{MatchOptions, MatchType};
use rotonda_store::prefix_record::InternalPrefixRecord;
use rotonda_store::tree::TreeBitMap;

fn pfx(a: u8, b: u8, c: u8, d: u8, len: u8) -> PrefixId<u32> {
    let id = PrefixId::new(u32::from_be_bytes([a, b, c, d]), len);
    assert!(id.is_valid());
    id
}

fn suite() -> Vec<PrefixId<u32>> {
    vec![
        pfx(17, 0, 64, 0, 18),  // 0
        pfx(17, 0, 109, 0, 24), // 1
        pfx(17, 0, 153, 0, 24), // 2
        pfx(17, 0, 0, 0, 21),   // 3
        pfx(17, 0, 176, 0, 20), // 4
        pfx(17, 0, 0, 0, 8),    // 5
        pfx(17, 0, 184, 0, 23), // 6
        pfx(17, 0, 71, 0, 24),  // 7
        pfx(17, 0, 0, 0, 9),    // 8
        pfx(17, 0, 117, 0, 24), // 9
        pfx(17, 0, 99, 0, 24),  // 10
        pfx(17, 0, 224, 0, 24), // 11
        pfx(17, 0, 128, 0, 18), // 12
        pfx(17, 0, 120, 0, 24), // 13
    ]
}

fn filled(pfxs: &[PrefixId<u32>]) -> TreeBitMap<u32, PrefixAs> {
    let mut tree_bitmap =
        TreeBitMap::<u32, PrefixAs>::new(vec![5, 5, 4, 3, 3, 3, 3, 3, 3]).unwrap();
    for pfx in pfxs.iter() {
        tree_bitmap
            .insert(InternalPrefixRecord::new_with_meta(pfx.net, pfx.len, PrefixAs(666)), &())
            .unwrap();
    }
    tree_bitmap
}

#[test]
fn test_more_specifics_without_less_specifics() {
    let pfxs = suite();
    let tree_bitmap = filled(&pfxs);
    println!("------ end of inserts\n");

    let guard = &crossbeam_epoch::pin();
    for spfx in &[
        (
            pfx(17, 0, 0, 0, 9),
            pfx(17, 0, 0, 0, 9),
            vec![0, 1, 2, 3, 4, 6, 7, 9, 10, 11, 12, 13],
        ),
        (
            pfx(17, 0, 0, 0, 8),
            pfx(17, 0, 0, 0, 8),
            vec![0, 1, 2, 3, 4, 6, 7, 8, 9, 10, 11, 12, 13],
        ),
    ] {
        println!("search for: {:?}", spfx.0);
        let found_result = tree_bitmap.match_prefix_by_tree_traversal(
            spfx.0,
            &MatchOptions {
                match_type: MatchType::ExactMatch,
                include_all_records: false,
                include_less_specifics: false,
                include_more_specifics: true,
            },
            guard,
        );

        let more_specifics = found_result.more_specifics.unwrap();

        assert_eq!(found_result.prefix.unwrap(), spfx.1);
        assert_eq!(&more_specifics.len(), &spfx.2.len());

        for i in spfx.2.iter() {
            println!("{} ", i);

            let result_pfx = more_specifics.records.iter().find(|pfx| pfx.prefix == pfxs[*i]);
            assert!(result_pfx.is_some());
        }
        println!("-----------");
    }
}

#[test]
fn test_more_specifics_with_less_specifics() {
    let pfxs = suite();
    let tree_bitmap = filled(&pfxs);
    println!("------ end of inserts\n");
    let guard = &crossbeam_epoch::pin();

    for spfx in &[
        (
            pfx(17, 0, 0, 0, 9),
            Some(pfx(17, 0, 0, 0, 9)),
            vec![0, 1, 2, 3, 4, 6, 7, 9, 10, 11, 12, 13],
        ),
        (
            pfx(17, 0, 0, 0, 8),
            Some(pfx(17, 0, 0, 0, 8)),
            vec![0, 1, 2, 3, 4, 6, 7, 8, 9, 10, 11, 12, 13],
        ),
    ] {
        println!("search for: {:?}", spfx.0);
        let found_result = tree_bitmap.match_prefix_by_tree_traversal(
            spfx.0,
            &MatchOptions {
                match_type: MatchType::LongestMatch,
                include_all_records: false,
                include_less_specifics: false,
                include_more_specifics: true,
            },
            guard,
        );

        let more_specifics = found_result.more_specifics.unwrap();

        assert_eq!(found_result.prefix.unwrap(), spfx.1.unwrap());
        assert_eq!(&more_specifics.len(), &spfx.2.len());

        for i in spfx.2.iter() {
            println!("{} ", i);

            let result_pfx = more_specifics.records.iter().find(|pfx| pfx.prefix == pfxs[*i]);
            assert!(result_pfx.is_some());
        }
        println!("-----------");
    }
}

#[test]
fn more_specifics_come_in_ascending_length_then_number() {
    let pfxs = suite();
    let tree_bitmap = filled(&pfxs);
    let guard = &crossbeam_epoch::pin();
    let found = tree_bitmap.more_specifics_from(pfx(17, 0, 0, 0, 8), guard);
    assert_eq!(found.match_type, MatchType::EmptyMatch);
    assert_eq!(found.prefix, Some(pfx(17, 0, 0, 0, 8)));
    assert_eq!(found.prefix_meta, Some(&PrefixAs(666)));
    assert!(found.less_specifics.is_none());
    let more: Vec<PrefixId<u32>> =
        found.more_specifics.unwrap().records.iter().map(|r| r.prefix).collect();
    let expected = vec![
        pfx(17, 0, 0, 0, 9),
        pfx(17, 0, 64, 0, 18),
        pfx(17, 0, 128, 0, 18),
        pfx(17, 0, 176, 0, 20),
        pfx(17, 0, 0, 0, 21),
        pfx(17, 0, 184, 0, 23),
        pfx(17, 0, 71, 0, 24),
        pfx(17, 0, 99, 0, 24),
        pfx(17, 0, 109, 0, 24),
        pfx(17, 0, 117, 0, 24),
        pfx(17, 0, 120, 0, 24),
        pfx(17, 0, 153, 0, 24),
        pfx(17, 0, 224, 0, 24),
    ];
    assert_eq!(more, expected);
}
