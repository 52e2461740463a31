use rotonda_store::meta_examples::PrefixAs;
use rotonda_store::node_id::PrefixId;
use rotonda_store::options::{MatchOptions, MatchType};
use rotonda_store::prefix_record::{InternalPrefixRecord, RecordSet};
use rotonda_store::tree::TreeBitMap;

/// A plain list of prefixes, searched from end to end.
struct List {
    prefixes: Vec<(u32, u8, u32)>,
}

fn head(net: u32, len: u8) -> u32 {
    if len == 0 {
        0
    } else {
        net >> (32 - len as u32)
    }
}

fn covers(p: (u32, u8), q: (u32, u8)) -> bool {
    p.1 <= q.1 && head(q.0, p.1) == head(p.0, p.1)
}

impl List {
    fn insert(&mut self, net: u32, len: u8, asn: u32) {
        for p in self.prefixes.iter_mut() {
            if (p.0, p.1) == (net, len) {
                p.2 = asn;
                return;
            }
        }
        self.prefixes.push((net, len, asn));
    }

    fn exact(&self, q: (u32, u8)) -> Option<(u32, u8, u32)> {
        self.prefixes.iter().copied().find(|p| (p.0, p.1) == q)
    }

    fn longest(&self, q: (u32, u8), with_default_route: bool) -> Option<(u32, u8, u32)> {
        self.prefixes
            .iter()
            .copied()
            .filter(|p| covers((p.0, p.1), q) && (with_default_route || p.1 > 0))
            .max_by_key(|p| p.1)
    }

    fn more_specifics(&self, q: (u32, u8)) -> Vec<(u32, u8)> {
        let mut found: Vec<(u32, u8)> = self
            .prefixes
            .iter()
            .map(|p| (p.0, p.1))
            .filter(|p| covers(q, *p) && *p != q)
            .collect();
        found.sort_by_key(|p| (p.1, p.0));
        found
    }

    fn less_specifics(&self, q: (u32, u8)) -> Vec<(u32, u8)> {
        let mut found: Vec<(u32, u8)> = self
            .prefixes
            .iter()
            .map(|p| (p.0, p.1))
            .filter(|p| covers(*p, q) && *p != q)
            .collect();
        found.sort_by_key(|p| (p.1, p.0));
        found
    }
}

struct Numbers(u64);

impl Numbers {
    fn next(&mut self) -> u32 {
        self.0 = self.0.wrapping_mul(6364136223846793005).wrapping_add(1442695040888963407);
        (self.0 >> 32) as u32
    }

    /// A prefix of a length from 0 to 32, in a corner of the address space
    /// so that prefixes cover each other often.
    fn prefix(&mut self) -> (u32, u8) {
        let len = (self.next() % 33) as u8;
        let net = (self.next() & 0x00ff_0fff) | 0x0a00_0000;
        let net = if len == 0 { 0 } else { net & (!0u32 << (32 - len as u32)) };
        (net, len)
    }
}

fn pairs(set: &RecordSet<u32, PrefixAs>) -> Vec<(u32, u8)> {
    set.records.iter().map(|r| (r.prefix.net, r.prefix.len)).collect()
}

fn options(match_type: MatchType, less: bool, more: bool) -> MatchOptions {
    MatchOptions {
        match_type,
        include_all_records: false,
        include_less_specifics: less,
        include_more_specifics: more,
    }
}

fn compare(strides: Vec<u8>, seed: u64, inserts: usize, queries: usize) {
    let mut tree = TreeBitMap::<u32, PrefixAs>::new(strides).unwrap();
    let mut list = List { prefixes: vec![] };
    let mut numbers = Numbers(seed);
    for _ in 0..inserts {
        let (net, len) = numbers.prefix();
        let asn = numbers.next();
        list.insert(net, len, asn);
        tree.insert(InternalPrefixRecord::new_with_meta(net, len, PrefixAs(asn)), &()).unwrap();
    }
    assert_eq!(tree.prefixes_len(), list.prefixes.len());
    assert_eq!(
        pairs(&tree.prefixes_iter()),
        list.prefixes.iter().map(|p| (p.0, p.1)).collect::<Vec<_>>()
    );

    let guard = &crossbeam_epoch::pin();
    let mut asked: Vec<(u32, u8)> = list.prefixes.iter().map(|p| (p.0, p.1)).collect();
    for _ in 0..queries {
        asked.push(numbers.prefix());
    }
    for q in asked {
        let id = PrefixId::new(q.0, q.1);
        assert!(id.is_valid());

        // An exact match, by a walk down the trie and by a look in the maps.
        let expected = list.exact(q);
        let r = tree.match_prefix_by_tree_traversal(
            id,
            &options(MatchType::ExactMatch, true, true),
            guard,
        );
        assert_eq!(r.prefix.map(|p| (p.net, p.len)), expected.map(|p| (p.0, p.1)));
        assert_eq!(r.prefix_meta.map(|m| m.0), expected.map(|p| p.2));
        if q.1 > 0 {
            let less = pairs(&r.less_specifics.unwrap());
            let more = pairs(&r.more_specifics.unwrap());
            if expected.is_some() {
                let mut covering: Vec<(u32, u8)> =
                    list.less_specifics(q).into_iter().filter(|p| p.1 > 0).collect();
                covering.push(q);
                assert_eq!(less, covering);
                assert_eq!(more, list.more_specifics(q));
            } else {
                assert!(less.is_empty());
                assert!(more.is_empty());
            }
        }

        // A longest match by a walk down the trie: the default route apart.
        let r = tree.match_prefix_by_tree_traversal(
            id,
            &options(MatchType::LongestMatch, false, false),
            guard,
        );
        let expected = if q.1 == 0 { list.exact(q) } else { list.longest(q, false) };
        assert_eq!(r.prefix.map(|p| (p.net, p.len)), expected.map(|p| (p.0, p.1)));
        assert_eq!(r.prefix_meta.map(|m| m.0), expected.map(|p| p.2));
        let kind = match expected {
            None => MatchType::EmptyMatch,
            Some(p) if p.1 == q.1 => MatchType::ExactMatch,
            Some(_) => MatchType::LongestMatch,
        };
        assert_eq!(r.match_type, kind);

        // No match asked for: the more-specifics are always given.
        if q.1 > 0 {
            let r = tree.match_prefix_by_tree_traversal(
                id,
                &options(MatchType::EmptyMatch, false, true),
                guard,
            );
            assert_eq!(pairs(&r.more_specifics.unwrap()), list.more_specifics(q));
        }

        // A look in the maps: the default route is a match like any other.
        let r = tree.match_prefix_by_store_direct(
            id,
            &options(MatchType::LongestMatch, true, true),
            guard,
        );
        let expected = list.longest(q, true);
        assert_eq!(r.prefix.map(|p| (p.net, p.len)), expected.map(|p| (p.0, p.1)));
        assert_eq!(r.prefix_meta.map(|m| m.0), expected.map(|p| p.2));
        let anchor = expected.map(|p| (p.0, p.1)).unwrap_or(q);
        assert_eq!(pairs(&r.less_specifics.unwrap()), list.less_specifics(anchor));
        assert_eq!(pairs(&r.more_specifics.unwrap()), list.more_specifics(anchor));

        let r = tree.more_specifics_from(id, guard);
        assert_eq!(pairs(&r.more_specifics.unwrap()), list.more_specifics(q));
        let r = tree.less_specifics_from(id, guard);
        assert_eq!(pairs(&r.less_specifics.unwrap()), list.less_specifics(q));
    }
}

#[test]
fn the_trie_answers_as_a_list_does_with_the_usual_strides() {
    compare(vec![5, 5, 4, 3, 3, 3, 3, 3, 3], 1, 1500, 500);
}

#[test]
fn the_trie_answers_as_a_list_does_with_strides_of_four() {
    compare(vec![4, 4, 4, 4, 4, 4, 4, 4], 2, 1500, 500);
}

#[test]
fn the_trie_answers_as_a_list_does_with_mixed_strides() {
    compare(vec![3, 5, 4, 5, 3, 4, 5, 3], 3, 1500, 500);
    compare(vec![3, 3, 3, 3, 3, 3, 3, 3, 3, 5], 4, 800, 300);
}
