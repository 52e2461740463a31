use rotonda_store::errors::PrefixStoreError;
use rotonda_store::meta_examples::{NoMeta, PrefixAs};
use rotonda_store::node_id::PrefixId;
use rotonda_store::options::{MatchOptions, MatchType};
use rotonda_store::prefix_record::{InternalPrefixRecord, MergeUpdate};
use rotonda_store::tree::TreeBitMap;

fn v4(a: u8, b: u8, c: u8, d: u8, len: u8) -> PrefixId<u32> {
    let id = PrefixId::new(u32::from_be_bytes([a, b, c, d]), len);
    assert!(id.is_valid());
    id
}

fn options(match_type: MatchType, less: bool, more: bool) -> MatchOptions {
    MatchOptions {
        match_type,
        include_all_records: false,
        include_less_specifics: less,
        include_more_specifics: more,
    }
}

fn tree_of(strides: Vec<u8>, pfxs: &[(PrefixId<u32>, u32)]) -> TreeBitMap<u32, PrefixAs> {
    let mut tree = TreeBitMap::<u32, PrefixAs>::new(strides).unwrap();
    for (pfx, asn) in pfxs.iter() {
        tree.insert(InternalPrefixRecord::new_with_meta(pfx.net, pfx.len, PrefixAs(*asn)), &())
            .unwrap();
    }
    tree
}

fn default_strides() -> Vec<u8> {
    vec![5, 5, 4, 3, 3, 3, 3, 3, 3]
}

fn campus() -> Vec<(PrefixId<u32>, u32)> {
    vec![
        (v4(130, 55, 240, 0, 24), 1),
        (v4(130, 55, 240, 0, 25), 2),
        (v4(130, 55, 240, 128, 25), 3),
        (v4(130, 55, 240, 192, 26), 4),
    ]
}

fn prefixes_of(set: &rotonda_store::prefix_record::RecordSet<u32, PrefixAs>) -> Vec<PrefixId<u32>> {
    set.records.iter().map(|r| r.prefix).collect()
}

#[test]
fn strides_must_be_three_to_five_and_sum_to_the_width() {
    assert!(TreeBitMap::<u32, NoMeta>::new(vec![5, 5, 4, 3, 3, 3, 3, 3, 3]).is_ok());
    assert!(TreeBitMap::<u32, NoMeta>::new(vec![4, 4, 4, 4, 4, 4, 4, 4]).is_ok());
    assert!(TreeBitMap::<u128, NoMeta>::new(vec![4; 32]).is_ok());
    for bad in [vec![], vec![8, 8, 8, 8], vec![4, 4, 4], vec![5; 7], vec![3, 3, 2, 4, 4, 4, 4, 4, 4]]
    {
        match TreeBitMap::<u32, NoMeta>::new(bad) {
            Err(e) => assert_eq!(e, PrefixStoreError::StoreNotReadyError),
            Ok(_) => panic!("accepted"),
        }
    }
    assert!(TreeBitMap::<u128, NoMeta>::new(vec![5, 5, 4, 3, 3, 3, 3, 3, 3]).is_err());
}

#[test]
fn exact_match_with_more_specifics_in_length_order() {
    let tree = tree_of(default_strides(), &campus());
    let guard = &crossbeam_epoch::pin();
    let r = tree.match_prefix_by_tree_traversal(
        v4(130, 55, 240, 0, 24),
        &options(MatchType::ExactMatch, false, true),
        guard,
    );
    assert_eq!(r.match_type, MatchType::ExactMatch);
    assert_eq!(r.prefix, Some(v4(130, 55, 240, 0, 24)));
    assert_eq!(r.prefix_meta, Some(&PrefixAs(1)));
    assert!(r.less_specifics.is_none());
    let more = r.more_specifics.unwrap();
    assert_eq!(
        prefixes_of(&more),
        vec![v4(130, 55, 240, 0, 25), v4(130, 55, 240, 128, 25), v4(130, 55, 240, 192, 26)]
    );
    assert_eq!(*more.index(0).meta, PrefixAs(2));
    assert_eq!(*more.index(2).meta, PrefixAs(4));
}

#[test]
fn exact_match_of_an_absent_prefix_is_empty() {
    let tree = tree_of(default_strides(), &campus());
    let guard = &crossbeam_epoch::pin();
    let r = tree.match_prefix_by_tree_traversal(
        v4(130, 55, 240, 0, 23),
        &options(MatchType::ExactMatch, false, false),
        guard,
    );
    assert_eq!(r.match_type, MatchType::EmptyMatch);
    assert_eq!(r.prefix, None);
    assert_eq!(r.prefix_meta, None);
    assert!(r.less_specifics.is_none());
    assert!(r.more_specifics.is_none());

    let r = tree.match_prefix_by_tree_traversal(
        v4(130, 55, 240, 0, 23),
        &options(MatchType::ExactMatch, true, true),
        guard,
    );
    assert_eq!(r.prefix, None);
    assert_eq!(r.less_specifics.unwrap().len(), 0);
    assert_eq!(r.more_specifics.unwrap().len(), 0);
}

#[test]
fn longest_match_gives_more_specifics_of_the_query() {
    let mut pfxs = vec![(v4(17, 0, 0, 0, 8), 8)];
    pfxs.push((v4(17, 0, 64, 0, 18), 18));
    pfxs.push((v4(17, 128, 0, 0, 10), 10));
    pfxs.push((v4(17, 0, 109, 0, 24), 24));
    let tree = tree_of(default_strides(), &pfxs);
    let guard = &crossbeam_epoch::pin();
    let r = tree.match_prefix_by_tree_traversal(
        v4(17, 0, 0, 0, 9),
        &options(MatchType::LongestMatch, false, true),
        guard,
    );
    assert_eq!(r.match_type, MatchType::LongestMatch);
    assert_eq!(r.prefix, Some(v4(17, 0, 0, 0, 8)));
    assert_eq!(r.prefix_meta, Some(&PrefixAs(8)));
    assert_eq!(
        prefixes_of(&r.more_specifics.unwrap()),
        vec![v4(17, 0, 64, 0, 18), v4(17, 0, 109, 0, 24)]
    );
}

#[test]
fn longest_match_finds_the_longest_covering_prefix() {
    let tree = tree_of(default_strides(), &campus());
    let guard = &crossbeam_epoch::pin();
    let cases = [
        (v4(130, 55, 240, 200, 32), Some(v4(130, 55, 240, 192, 26)), MatchType::LongestMatch),
        (v4(130, 55, 240, 130, 32), Some(v4(130, 55, 240, 128, 25)), MatchType::LongestMatch),
        (v4(130, 55, 240, 1, 32), Some(v4(130, 55, 240, 0, 25)), MatchType::LongestMatch),
        (v4(130, 55, 240, 0, 24), Some(v4(130, 55, 240, 0, 24)), MatchType::ExactMatch),
        (v4(130, 55, 241, 0, 24), None, MatchType::EmptyMatch),
        (v4(130, 55, 240, 0, 20), None, MatchType::EmptyMatch),
    ];
    for (query, expected, kind) in cases.iter() {
        let r = tree.match_prefix_by_tree_traversal(
            *query,
            &options(MatchType::LongestMatch, false, false),
            guard,
        );
        assert_eq!(r.prefix, *expected);
        assert_eq!(r.match_type, *kind);
    }
}

#[test]
fn every_inserted_prefix_is_found_exactly() {
    for strides in [default_strides(), vec![4, 4, 4, 4, 4, 4, 4, 4], vec![3, 4, 5, 5, 5, 5, 5]] {
        let mut pfxs = campus();
        pfxs.push((v4(0, 0, 0, 0, 0), 100));
        pfxs.push((v4(128, 0, 0, 0, 1), 101));
        pfxs.push((v4(255, 255, 255, 255, 32), 102));
        pfxs.push((v4(10, 0, 0, 0, 8), 103));
        pfxs.push((v4(10, 1, 0, 0, 16), 104));
        pfxs.push((v4(224, 0, 0, 0, 5), 105));
        let tree = tree_of(strides, &pfxs);
        let guard = &crossbeam_epoch::pin();
        for (pfx, asn) in pfxs.iter() {
            let r = tree.match_prefix_by_tree_traversal(
                *pfx,
                &options(MatchType::ExactMatch, false, false),
                guard,
            );
            assert_eq!(r.prefix, Some(*pfx));
            assert_eq!(r.match_type, MatchType::ExactMatch);
            assert_eq!(r.prefix_meta, Some(&PrefixAs(*asn)));
            let r = tree.match_prefix_by_store_direct(
                *pfx,
                &options(MatchType::ExactMatch, false, false),
                guard,
            );
            assert_eq!(r.prefix, Some(*pfx));
            assert_eq!(r.match_type, MatchType::ExactMatch);
            assert_eq!(r.prefix_meta, Some(&PrefixAs(*asn)));
        }
        assert_eq!(tree.prefixes_len(), pfxs.len());
        let all = tree.prefixes_iter();
        assert_eq!(prefixes_of(&all), pfxs.iter().map(|p| p.0).collect::<Vec<_>>());
    }
}

#[test]
fn upsert_merges_the_metadata_and_counts_the_publications() {
    let mut tree = TreeBitMap::<u32, PrefixAs>::new(default_strides()).unwrap();
    let p = v4(10, 0, 0, 0, 8);
    tree.insert(InternalPrefixRecord::new_with_meta(p.net, p.len, PrefixAs(65000)), &()).unwrap();
    tree.insert(InternalPrefixRecord::new_with_meta(p.net, p.len, PrefixAs(65001)), &()).unwrap();
    let guard = &crossbeam_epoch::pin();
    let r = tree.match_prefix_by_tree_traversal(
        p,
        &options(MatchType::ExactMatch, false, false),
        guard,
    );
    let (merged, _) = PrefixAs(65000).clone_merge_update(&PrefixAs(65001), &()).unwrap();
    assert_eq!(merged, PrefixAs(65001));
    assert_eq!(r.prefix_meta, Some(&merged));
    assert_eq!(tree.prefixes_len(), 1);
    assert_eq!(tree.store.retrieve_prefix(p).unwrap().serial, 2);
    let mut a = PrefixAs(1);
    a.merge_update(PrefixAs(2), ()).unwrap();
    assert_eq!(a, PrefixAs(2));
    let mut n = NoMeta::Empty;
    n.merge_update(NoMeta::Empty, ()).unwrap();
    assert_eq!(n, NoMeta::Empty);
    assert_eq!(NoMeta::Empty.clone_merge_update(&NoMeta::Empty, &()).unwrap().0, NoMeta::Empty);
}

#[test]
fn default_route_has_its_own_place() {
    let mut tree = TreeBitMap::<u32, PrefixAs>::new(default_strides()).unwrap();
    let guard = &crossbeam_epoch::pin();
    let root = v4(0, 0, 0, 0, 0);
    let r = tree.match_prefix_by_tree_traversal(
        root,
        &options(MatchType::ExactMatch, true, true),
        guard,
    );
    assert_eq!(r.match_type, MatchType::EmptyMatch);
    assert_eq!(r.prefix, None);
    assert_eq!(tree.store.load_default_route_prefix_serial(), 0);

    tree.insert(InternalPrefixRecord::new_with_meta(0, 0, PrefixAs(7)), &()).unwrap();
    tree.insert(InternalPrefixRecord::new_with_meta(0x0a000000, 8, PrefixAs(10)), &()).unwrap();
    assert_eq!(tree.store.load_default_route_prefix_serial(), 1);
    let r = tree.match_prefix_by_tree_traversal(
        root,
        &options(MatchType::LongestMatch, true, true),
        guard,
    );
    assert_eq!(r.match_type, MatchType::ExactMatch);
    assert_eq!(r.prefix, Some(root));
    assert_eq!(r.prefix_meta, Some(&PrefixAs(7)));
    assert!(r.less_specifics.is_none());
    assert!(r.more_specifics.is_none());

    // The walk down the trie does not come by the default route.
    let r = tree.match_prefix_by_tree_traversal(
        v4(1, 2, 3, 4, 32),
        &options(MatchType::LongestMatch, false, false),
        guard,
    );
    assert_eq!(r.match_type, MatchType::EmptyMatch);
    assert_eq!(r.prefix, None);

    // The look-up in the maps does.
    let r = tree.match_prefix_by_store_direct(
        v4(1, 2, 3, 4, 32),
        &options(MatchType::LongestMatch, true, true),
        guard,
    );
    assert_eq!(r.match_type, MatchType::LongestMatch);
    assert_eq!(r.prefix, Some(root));
    assert_eq!(r.prefix_meta, Some(&PrefixAs(7)));
    assert_eq!(r.less_specifics.unwrap().len(), 0);
    assert_eq!(prefixes_of(&r.more_specifics.unwrap()), vec![v4(10, 0, 0, 0, 8)]);

    let r = tree.match_prefix_by_store_direct(
        v4(10, 2, 3, 4, 32),
        &options(MatchType::LongestMatch, true, false),
        guard,
    );
    assert_eq!(r.match_type, MatchType::LongestMatch);
    assert_eq!(r.prefix, Some(v4(10, 0, 0, 0, 8)));
    assert_eq!(prefixes_of(&r.less_specifics.unwrap()), vec![root]);
}

#[test]
fn less_specifics_of_an_exact_match_hold_the_match() {
    let tree = tree_of(default_strides(), &campus());
    let guard = &crossbeam_epoch::pin();
    let r = tree.match_prefix_by_tree_traversal(
        v4(130, 55, 240, 192, 26),
        &options(MatchType::ExactMatch, true, false),
        guard,
    );
    assert_eq!(r.prefix, Some(v4(130, 55, 240, 192, 26)));
    assert_eq!(
        prefixes_of(&r.less_specifics.unwrap()),
        vec![v4(130, 55, 240, 0, 24), v4(130, 55, 240, 128, 25), v4(130, 55, 240, 192, 26)]
    );
    let r = tree.match_prefix_by_tree_traversal(
        v4(130, 55, 240, 192, 27),
        &options(MatchType::ExactMatch, true, false),
        guard,
    );
    assert_eq!(r.prefix, None);
    assert_eq!(r.less_specifics.unwrap().len(), 0);
}

#[test]
fn less_specifics_from_are_the_shorter_covering_prefixes() {
    let mut pfxs = campus();
    pfxs.push((v4(0, 0, 0, 0, 0), 9));
    pfxs.push((v4(130, 0, 0, 0, 8), 8));
    let tree = tree_of(default_strides(), &pfxs);
    let guard = &crossbeam_epoch::pin();
    let r = tree.less_specifics_from(v4(130, 55, 240, 192, 26), guard);
    assert_eq!(r.match_type, MatchType::EmptyMatch);
    assert_eq!(r.prefix, Some(v4(130, 55, 240, 192, 26)));
    assert!(r.more_specifics.is_none());
    let less = r.less_specifics.unwrap();
    assert_eq!(
        prefixes_of(&less),
        vec![
            v4(0, 0, 0, 0, 0),
            v4(130, 0, 0, 0, 8),
            v4(130, 55, 240, 0, 24),
            v4(130, 55, 240, 128, 25)
        ]
    );
    assert_eq!(*less.index(1).meta, PrefixAs(8));
    let reversed = less.reverse();
    assert_eq!(reversed.index(0).prefix, v4(130, 55, 240, 128, 25));
    assert_eq!(reversed.len(), 4);
    assert!(!reversed.is_empty());
    let mut it = reversed.iter();
    assert_eq!(it.next().unwrap().prefix, v4(130, 55, 240, 128, 25));
    assert_eq!(it.next().unwrap().prefix, v4(130, 55, 240, 0, 24));
    assert_eq!(it.next().unwrap().prefix, v4(130, 0, 0, 0, 8));
    assert_eq!(it.next().unwrap().prefix, v4(0, 0, 0, 0, 0));
    assert!(it.next().is_none());

    let r = tree.less_specifics_from(v4(130, 55, 240, 64, 26), guard);
    assert_eq!(r.prefix, None);
    assert_eq!(
        prefixes_of(&r.less_specifics.unwrap()),
        vec![
            v4(0, 0, 0, 0, 0),
            v4(130, 0, 0, 0, 8),
            v4(130, 55, 240, 0, 24),
            v4(130, 55, 240, 0, 25)
        ]
    );
}

#[test]
fn more_specifics_iter_from_needs_the_prefix() {
    let tree = tree_of(default_strides(), &campus());
    let guard = &crossbeam_epoch::pin();
    let more = tree.more_specifics_iter_from(v4(130, 55, 240, 128, 25), guard).unwrap();
    assert_eq!(prefixes_of(&more), vec![v4(130, 55, 240, 192, 26)]);
    match tree.more_specifics_iter_from(v4(130, 55, 0, 0, 16), guard) {
        Err(e) => assert_eq!(e, PrefixStoreError::PrefixNotFound),
        Ok(_) => panic!("found"),
    }
    let r = tree.more_specifics_from(v4(130, 55, 0, 0, 16), guard);
    assert_eq!(r.prefix, None);
    assert_eq!(r.more_specifics.unwrap().len(), 4);
    let r = tree.more_specifics_from(v4(0, 0, 0, 0, 0), guard);
    assert_eq!(r.more_specifics.unwrap().len(), 4);
    let r = tree.more_specifics_from(v4(130, 55, 240, 192, 26), guard);
    assert_eq!(r.more_specifics.unwrap().len(), 0);
}

#[test]
fn walk_without_a_match_asked_for() {
    let pfxs = vec![(v4(10, 0, 0, 0, 8), 8), (v4(10, 1, 0, 0, 16), 16)];
    let tree = tree_of(vec![4, 4, 4, 4, 4, 4, 4, 4], &pfxs);
    let guard = &crossbeam_epoch::pin();
    // 10.0.0.0/8 covers the query, but is not held where the walk ends.
    let r = tree.match_prefix_by_tree_traversal(
        v4(10, 2, 0, 0, 16),
        &options(MatchType::EmptyMatch, false, true),
        guard,
    );
    assert_eq!(r.prefix, None);
    assert_eq!(r.match_type, MatchType::EmptyMatch);
    assert_eq!(r.more_specifics.unwrap().len(), 0);
    let r = tree.match_prefix_by_tree_traversal(
        v4(10, 2, 0, 0, 16),
        &options(MatchType::LongestMatch, true, true),
        guard,
    );
    assert_eq!(r.prefix, Some(v4(10, 0, 0, 0, 8)));
    assert_eq!(r.match_type, MatchType::LongestMatch);
    // The prefix at the end of the second level has a node below it.
    assert_eq!(prefixes_of(&r.less_specifics.unwrap()), vec![v4(10, 0, 0, 0, 8)]);
    // Nothing was found at the level where the walk ended.
    assert_eq!(r.more_specifics.unwrap().len(), 0);
    let r = tree.match_prefix_by_tree_traversal(
        v4(10, 0, 0, 0, 7),
        &options(MatchType::EmptyMatch, false, true),
        guard,
    );
    assert_eq!(r.prefix, None);
    assert_eq!(
        prefixes_of(&r.more_specifics.unwrap()),
        vec![v4(10, 0, 0, 0, 8), v4(10, 1, 0, 0, 16)]
    );
}

#[test]
fn forty_thousand_host_routes() {
    let mut tree = TreeBitMap::<u32, NoMeta>::new(default_strides()).unwrap();
    for block in 0..4u32 {
        for i in 0..10_000u32 {
            let net = (block << 28) | (i * 7919);
            tree.insert(InternalPrefixRecord::new_with_meta(net, 32, NoMeta::Empty), &()).unwrap();
        }
    }
    assert_eq!(tree.prefixes_iter().len(), 40_000);
    assert_eq!(tree.prefixes_len(), 40_000);
    let guard = &crossbeam_epoch::pin();
    for block in 0..4u32 {
        for i in (0..10_000u32).step_by(97) {
            let id = PrefixId::new((block << 28) | (i * 7919), 32);
            let r = tree.match_prefix_by_tree_traversal(
                id,
                &options(MatchType::ExactMatch, false, false),
                guard,
            );
            assert_eq!(r.prefix, Some(id));
        }
    }
    assert!(tree.nodes_len() > 9);
}

#[test]
fn ipv6_prefixes() {
    let mut tree = TreeBitMap::<u128, PrefixAs>::new(vec![4; 32]).unwrap();
    let a = PrefixId::new(0x2001_0db8_0000_0000_0000_0000_0000_0000u128, 32);
    let b = PrefixId::new(0x2001_0db8_ffff_0000_0000_0000_0000_0000u128, 48);
    let c = PrefixId::new(0x2001_0db8_ffff_0000_0000_0000_0000_0001u128, 128);
    assert!(a.is_valid() && b.is_valid() && c.is_valid());
    assert!(!PrefixId::new(0x2001_0db8_0000_0000_0000_0000_0000_0001u128, 127).is_valid());
    for (p, asn) in [(a, 1), (b, 2), (c, 3)] {
        tree.insert(InternalPrefixRecord::new_with_meta(p.net, p.len, PrefixAs(asn)), &()).unwrap();
    }
    let guard = &crossbeam_epoch::pin();
    let r = tree.match_prefix_by_tree_traversal(
        c,
        &options(MatchType::ExactMatch, true, false),
        guard,
    );
    assert_eq!(r.prefix, Some(c));
    assert_eq!(prefixes_of_v6(&r.less_specifics.unwrap()), vec![a, b, c]);
    let r = tree.match_prefix_by_tree_traversal(
        PrefixId::new(0x2001_0db8_ffff_0000_0000_0000_0000_0002u128, 128),
        &options(MatchType::LongestMatch, false, false),
        guard,
    );
    assert_eq!(r.prefix, Some(b));
    assert_eq!(r.match_type, MatchType::LongestMatch);
    let r = tree.more_specifics_from(a, guard);
    assert_eq!(prefixes_of_v6(&r.more_specifics.unwrap()), vec![b, c]);
}

fn prefixes_of_v6(
    set: &rotonda_store::prefix_record::RecordSet<u128, PrefixAs>,
) -> Vec<PrefixId<u128>> {
    set.records.iter().map(|r| r.prefix).collect()
}
