use rotonda_store::buckets::Buckets;
use rotonda_store::errors::PrefixStoreError;
use rotonda_store::meta_examples::PrefixAs;
use rotonda_store::node::TreeBitMapNode;
use rotonda_store::node_id::{PrefixId, StrideNodeId};
use rotonda_store::options::{MatchOptions, MatchType};
use rotonda_store::prefix_record::{InternalPrefixRecord, MergeUpdate, PublicPrefixRecord};
use rotonda_store::stats::{CreatedNodes, StrideStats};
use rotonda_store::storage::InMemStorage;
use rotonda_store::store::{FamilyResult, Prefix, Store};

/// Metadata that takes in updates with greater numbers only.
#[derive(Debug, Clone, Copy, PartialEq, Eq)]
struct Rising(u32);

impl MergeUpdate for Rising {
    type UserDataIn = u32;
    type UserDataOut = ();

    fn merged(self, update: Rising, _step: u32) -> Rising {
        update
    }

    fn lemma_merge_idempotent(self, _update: Rising, _step: u32) {}

    fn merge_update(&mut self, update: Rising, step: u32) -> Result<(), PrefixStoreError> {
        if update.0 >= self.0 + step {
            self.0 = update.0;
            Ok(())
        } else {
            Err(PrefixStoreError::PathSelectionOutdated)
        }
    }

    fn clone_merge_update(&self, update: &Rising, step: &u32) -> Result<(Rising, ()), PrefixStoreError> {
        if update.0 >= self.0 + *step {
            Ok((Rising(update.0), ()))
        } else {
            Err(PrefixStoreError::PathSelectionOutdated)
        }
    }
}

#[test]
fn buckets_keep_values_by_length_and_number() {
    let mut buckets: Buckets<u32> = Buckets::new(32);
    assert_eq!(buckets.get(8, 10), None);
    assert!(!buckets.contains(8, 10));
    buckets.insert(8, 10, 1);
    buckets.insert(9, 10, 2);
    buckets.insert(0, 0, 3);
    buckets.insert(32, 10, 4);
    assert_eq!(buckets.get(8, 10), Some(&1));
    assert_eq!(buckets.get(9, 10), Some(&2));
    assert_eq!(buckets.get(0, 0), Some(&3));
    assert_eq!(buckets.get(32, 10), Some(&4));
    assert_eq!(buckets.get(8, 11), None);
    buckets.insert(8, 10, 5);
    assert_eq!(buckets.get(8, 10), Some(&5));
    assert!(buckets.contains(9, 10));
}

#[test]
fn storage_publishes_and_merges() {
    let mut storage: InMemStorage<u32, Rising> = InMemStorage::init(vec![4, 4, 4, 4, 4, 4, 4, 4]);
    assert_eq!(storage.get_stride_sizes(), &vec![4, 4, 4, 4, 4, 4, 4, 4]);
    assert_eq!(storage.get_nodes_len(), 1);
    assert_eq!(storage.get_prefixes_len(), 0);
    assert_eq!(storage.load_default_route_prefix_serial(), 0);
    let root = storage.get_root_node_id();
    assert_eq!(root.get_id(), (0, 0));
    assert_eq!(
        storage.retrieve_node(root),
        Some(&TreeBitMapNode { stride: 4, ptrbitarr: 0, pfxbitarr: 0 })
    );
    assert_eq!(storage.acquire_new_node_id((0x1234_5678, 8)).get_id(), (0x1200_0000, 8));

    let child = StrideNodeId::<u32>::new_with_cleaned_id(0x1000_0000, 4);
    assert!(storage.retrieve_node(child).is_none());
    let fresh = TreeBitMapNode::new(4);
    assert_eq!(storage.store_node(child, fresh), Some(child));
    assert_eq!(storage.get_nodes_len(), 2);
    let changed = TreeBitMapNode { stride: 4, ptrbitarr: 1, pfxbitarr: 2 };
    storage.update_node(child, changed);
    assert_eq!(storage.retrieve_node(child), Some(&changed));
    // A node that is published stays.
    assert_eq!(storage.store_node(child, fresh), Some(child));
    assert_eq!(storage.retrieve_node(child), Some(&changed));
    assert_eq!(storage.get_nodes_len(), 2);
    assert_eq!(storage.get_node_ids().len(), 2);

    let id = PrefixId::<u32>::new(0x0a00_0000, 8);
    assert!(storage.retrieve_prefix(id).is_none());
    storage.upsert_prefix(InternalPrefixRecord::new_with_meta(id.net, id.len, Rising(5)), &2).unwrap();
    let stored = storage.retrieve_prefix(id).unwrap();
    assert_eq!((stored.record.meta, stored.serial), (Rising(5), 1));
    storage.upsert_prefix(InternalPrefixRecord::new_with_meta(id.net, id.len, Rising(7)), &2).unwrap();
    let stored = storage.retrieve_prefix(id).unwrap();
    assert_eq!((stored.record.meta, stored.serial), (Rising(7), 2));
    assert_eq!(stored.record.get_prefix_id(), id);
    assert_eq!(stored.record.get_meta(), &Rising(7));
    // A merge that fails leaves the record.
    assert_eq!(
        storage.upsert_prefix(InternalPrefixRecord::new_with_meta(id.net, id.len, Rising(8)), &2),
        Err(PrefixStoreError::PathSelectionOutdated)
    );
    let stored = storage.retrieve_prefix(id).unwrap();
    assert_eq!((stored.record.meta, stored.serial), (Rising(7), 2));
    assert_eq!(storage.get_prefixes_len(), 1);
    assert_eq!(storage.get_prefix_ids(), &vec![id]);

    storage.upsert_prefix(InternalPrefixRecord::new_with_meta(0, 0, Rising(1)), &0).unwrap();
    assert_eq!(storage.load_default_route_prefix_serial(), 1);
    storage.upsert_prefix(InternalPrefixRecord::new_with_meta(0, 0, Rising(1)), &0).unwrap();
    storage.upsert_prefix(InternalPrefixRecord::new_with_meta(0, 0, Rising(3)), &2).unwrap();
    assert_eq!(storage.load_default_route_prefix_serial(), 3);
    assert_eq!(storage.retrieve_prefix(PrefixId::new(0, 0)).unwrap().record.meta, Rising(3));
    let record = PublicPrefixRecord::new_from_record(&storage.retrieve_prefix(id).unwrap().record);
    assert_eq!(record.prefix, id);
    assert_eq!(record.meta, &Rising(7));
}

#[test]
fn a_store_for_both_families() {
    let mut store: Store<PrefixAs> =
        Store::new(vec![5, 5, 4, 3, 3, 3, 3, 3, 3], vec![4; 32]).unwrap();
    assert!(Store::<PrefixAs>::new(vec![5, 5, 4, 3, 3, 3, 3, 3, 3], vec![4; 31]).is_err());
    match Store::<PrefixAs>::new(vec![8, 8, 8, 8], vec![4; 32]) {
        Err(e) => assert_eq!(e, PrefixStoreError::StoreNotReadyError),
        Ok(_) => panic!("accepted"),
    }
    let a = Prefix::V4(PrefixId::new(0x0a00_0000, 8));
    let b = Prefix::V4(PrefixId::new(0x0a01_0000, 16));
    let c = Prefix::V6(PrefixId::new(0x2001_0db8u128 << 96, 32));
    assert!(a.is_valid() && a.is_v4() && a.len() == 8);
    assert!(c.is_valid() && !c.is_v4() && c.len() == 32);
    assert!(!Prefix::V4(PrefixId::new(1, 8)).is_valid());
    store.insert(&a, PrefixAs(1), &()).unwrap();
    store.insert(&b, PrefixAs(2), &()).unwrap();
    store.insert(&c, PrefixAs(3), &()).unwrap();
    assert_eq!(store.prefixes_len(), 3);
    assert_eq!(store.nodes_len(), 4 + 8);
    let (v4, v6) = store.nodes_per_stride();
    assert_eq!(v4, vec![1, 1, 1, 1, 0, 0, 0, 0, 0]);
    assert_eq!(v6[..8], [1, 1, 1, 1, 1, 1, 1, 1]);
    assert_eq!(v6[8..], [0; 24]);
    let stats = store.stats();
    assert_eq!(stats.v4.len(), 3);
    assert_eq!(stats.v4.iter().map(|s| s.stride_len).collect::<Vec<_>>(), vec![3, 4, 5]);
    let counts = |stride: usize| {
        stats.v4[stride - 3].created_nodes.iter().map(|c| c.count).collect::<Vec<_>>()
    };
    assert_eq!(counts(5), vec![1, 1, 0, 0, 0, 0, 0, 0, 0]);
    assert_eq!(counts(4), vec![0, 0, 1, 0, 0, 0, 0, 0, 0]);
    assert_eq!(counts(3), vec![0, 0, 0, 1, 0, 0, 0, 0, 0]);
    assert_eq!(stats.v4[0].created_nodes[3].depth_level, 3);
    assert_eq!(stats.v6[1].created_nodes.iter().map(|c| c.count).sum::<usize>(), 8);
    assert_eq!(stats.v6[0].created_nodes.iter().map(|c| c.count).sum::<usize>(), 0);
    assert_eq!(store.strides().v4, &vec![5, 5, 4, 3, 3, 3, 3, 3, 3]);
    assert_eq!(store.strides().v6.len(), 32);
    let mut all = store.prefixes_iter();
    let first = all.next().unwrap();
    assert_eq!((first.prefix, *first.meta), (a, PrefixAs(1)));
    // From the back the prefixes of 32-bit addresses come first as well.
    let last = all.next_back().unwrap();
    assert_eq!((last.prefix, *last.meta), (b, PrefixAs(2)));
    let last = all.next_back().unwrap();
    assert_eq!((last.prefix, *last.meta), (c, PrefixAs(3)));
    assert!(all.next().is_none());
    assert!(all.next_back().is_none());
    let mut all = store.prefixes_iter();
    assert_eq!(all.next().unwrap().prefix, a);
    assert_eq!(all.next().unwrap().prefix, b);
    assert_eq!(all.next().unwrap().prefix, c);
    assert!(all.next().is_none());

    let guard = &crossbeam_epoch::pin();
    let options = MatchOptions {
        match_type: MatchType::LongestMatch,
        include_all_records: false,
        include_less_specifics: false,
        include_more_specifics: false,
    };
    match store.match_prefix(&Prefix::V4(PrefixId::new(0x0a01_0200, 24)), &options, guard) {
        FamilyResult::V4(r) => {
            assert_eq!(r.prefix, Some(PrefixId::new(0x0a01_0000, 16)));
            assert_eq!(r.prefix_meta, Some(&PrefixAs(2)));
            assert_eq!(r.match_type, MatchType::LongestMatch);
        }
        FamilyResult::V6(_) => panic!("wrong family"),
    }
    match store.match_prefix(&c, &options, guard) {
        FamilyResult::V6(r) => {
            assert_eq!(r.prefix_meta, Some(&PrefixAs(3)));
            assert_eq!(r.match_type, MatchType::ExactMatch);
        }
        FamilyResult::V4(_) => panic!("wrong family"),
    }
    match store.more_specifics_from(&a, guard) {
        FamilyResult::V4(r) => assert_eq!(r.more_specifics.unwrap().len(), 1),
        FamilyResult::V6(_) => panic!("wrong family"),
    }
    match store.less_specifics_from(&b, guard) {
        FamilyResult::V4(r) => {
            let less = r.less_specifics.unwrap();
            assert_eq!(less.len(), 1);
            assert_eq!(less.index(0).prefix, PrefixId::new(0x0a00_0000, 8));
        }
        FamilyResult::V6(_) => panic!("wrong family"),
    }
    match store.less_specifics_from(&c, guard) {
        FamilyResult::V6(r) => assert!(r.less_specifics.unwrap().is_empty()),
        FamilyResult::V4(_) => panic!("wrong family"),
    }
}

#[test]
fn counters_count_up_at_one_level() {
    let mut stats = StrideStats::new(4, 3);
    assert_eq!(stats.stride_len, 4);
    assert_eq!(
        stats.created_nodes,
        vec![
            CreatedNodes { depth_level: 0, count: 0 },
            CreatedNodes { depth_level: 1, count: 0 },
            CreatedNodes { depth_level: 2, count: 0 }
        ]
    );
    stats.inc(1);
    stats.inc(1);
    stats.inc(2);
    assert_eq!(stats.created_nodes.iter().map(|c| c.count).collect::<Vec<_>>(), vec![0, 2, 1]);
    stats.created_nodes[0].count = usize::MAX;
    stats.inc(0);
    assert_eq!(stats.created_nodes[0].count, usize::MAX);
}

#[test]
fn a_failed_merge_leaves_the_store() {
    let mut store: Store<Rising> = Store::new(vec![4; 8], vec![4; 32]).unwrap();
    let a = Prefix::V4(PrefixId::new(0x0a00_0000, 8));
    store.insert(&a, Rising(10), &1).unwrap();
    assert_eq!(store.insert(&a, Rising(10), &1), Err(PrefixStoreError::PathSelectionOutdated));
    store.insert(&a, Rising(11), &1).unwrap();
    assert_eq!(store.v4.store.retrieve_prefix(PrefixId::new(0x0a00_0000, 8)).unwrap().serial, 2);
    assert_eq!(store.prefixes_len(), 1);
}
