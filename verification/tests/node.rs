use rotonda_store::node::{NewNodeOrIndex, TreeBitMapNode};
use rotonda_store::node_id::{PrefixId, StrideNodeId};

fn node4(prefixes: &[(u32, u8)], children: &[u32]) -> TreeBitMapNode {
    let mut node = TreeBitMapNode::new(4);
    let base = StrideNodeId::<u32>::new_with_cleaned_id(0x0a00_0000, 8);
    for (nibble, len) in prefixes.iter() {
        match node.eval_node_or_prefix_at(*nibble, *len, base, 4, None, true) {
            NewNodeOrIndex::NewPrefix => {}
            _ => panic!("not new"),
        }
    }
    for nibble in children.iter() {
        match node.eval_node_or_prefix_at(*nibble, 4, base, 4, Some(&3), false) {
            NewNodeOrIndex::NewNode(n) => {
                assert_eq!(n, TreeBitMapNode { stride: 3, ptrbitarr: 0, pfxbitarr: 0 })
            }
            _ => panic!("not new"),
        }
    }
    node
}

#[test]
fn insertion_sets_one_bit_and_sees_it_again() {
    let base = StrideNodeId::<u32>::new_with_cleaned_id(0x0a00_0000, 8);
    let mut node = TreeBitMapNode::new(4);
    assert_eq!(node, TreeBitMapNode { stride: 4, ptrbitarr: 0, pfxbitarr: 0 });
    match node.eval_node_or_prefix_at(0b10, 2, base, 4, Some(&5), true) {
        NewNodeOrIndex::NewPrefix => {}
        _ => panic!("not a new prefix"),
    }
    // Place 2^2 - 1 + 2 = 5 from the top of 32 bits.
    assert_eq!(node.pfxbitarr, 1 << 26);
    assert_eq!(node.ptrbitarr, 0);
    match node.eval_node_or_prefix_at(0b10, 2, base, 4, Some(&5), true) {
        NewNodeOrIndex::ExistingPrefix => {}
        _ => panic!("not an existing prefix"),
    }
    assert_eq!(node.pfxbitarr, 1 << 26);
    match node.eval_node_or_prefix_at(0b1111, 4, base, 4, Some(&5), true) {
        NewNodeOrIndex::NewPrefix => {}
        _ => panic!("not a new prefix"),
    }
    assert_eq!(node.pfxbitarr, (1 << 26) | (1 << 1));
    match node.eval_node_or_prefix_at(0b0001, 4, base, 4, Some(&5), false) {
        NewNodeOrIndex::NewNode(n) => {
            assert_eq!(n, TreeBitMapNode { stride: 5, ptrbitarr: 0, pfxbitarr: 0 })
        }
        _ => panic!("not a new node"),
    }
    assert_eq!(node.ptrbitarr, 1 << 14);
    assert_eq!(node.pfxbitarr, (1 << 26) | (1 << 1));
    match node.eval_node_or_prefix_at(0b0001, 4, base, 4, Some(&5), false) {
        NewNodeOrIndex::ExistingNode(id) => assert_eq!(id.get_id(), (0x0a10_0000, 12)),
        _ => panic!("not an existing node"),
    }
    assert_eq!(node.ptrbitarr, 1 << 14);
}

#[test]
fn longest_match_in_a_node() {
    // Prefixes 10.128/9 (1), 10.160/11 (101); children at 1010 and 0001.
    let node = node4(&[(0b1, 1), (0b101, 3)], &[0b1010, 0b0001]);

    // 10.160.0.0/12 = 1010 behind the eight bits of the node; the search
    // prefix is longer and goes on in the child.
    let search = PrefixId::<u32>::new(0x0aa8_0000, 13);
    let mut less = Some(vec![]);
    let (child, pfx) = node.search_stride_for_longest_match_at(search, 0b1010, 4, 8, &mut less);
    assert_eq!(child.unwrap().get_id(), (0x0aa0_0000, 12));
    assert_eq!(pfx, Some(PrefixId::new(0x0aa0_0000, 11)));
    assert_eq!(less, Some(vec![]));

    // The search prefix ends within the node.
    let search = PrefixId::<u32>::new(0x0aa0_0000, 12);
    let mut none = None;
    let (child, pfx) = node.search_stride_for_longest_match_at(search, 0b1010, 4, 8, &mut none);
    assert!(child.is_none());
    assert_eq!(pfx, Some(PrefixId::new(0x0aa0_0000, 11)));
    assert_eq!(none, None);

    let search = PrefixId::<u32>::new(0x0a80_0000, 10);
    let (child, pfx) = node.search_stride_for_longest_match_at(search, 0b10, 2, 8, &mut none);
    assert!(child.is_none());
    assert_eq!(pfx, Some(PrefixId::new(0x0a80_0000, 9)));

    let search = PrefixId::<u32>::new(0x0a40_0000, 10);
    let (child, pfx) = node.search_stride_for_longest_match_at(search, 0b01, 2, 8, &mut none);
    assert!(child.is_none());
    assert_eq!(pfx, None);
}

#[test]
fn less_specifics_of_a_longest_match_are_prefixes_with_a_child() {
    // A prefix at the full nibble 1010, with a child at the same place.
    let node = node4(&[(0b1, 1), (0b1010, 4)], &[0b1010]);
    let search = PrefixId::<u32>::new(0x0aa8_0000, 13);
    let mut less = Some(vec![]);
    let (child, pfx) = node.search_stride_for_longest_match_at(search, 0b1010, 4, 8, &mut less);
    assert!(child.is_some());
    assert_eq!(pfx, Some(PrefixId::new(0x0aa0_0000, 12)));
    assert_eq!(less, Some(vec![PrefixId::new(0x0aa0_0000, 12)]));
    // Without a child at the place nothing is added.
    let node = node4(&[(0b1, 1), (0b1010, 4)], &[]);
    let mut less = Some(vec![]);
    let (child, pfx) = node.search_stride_for_longest_match_at(search, 0b1010, 4, 8, &mut less);
    assert!(child.is_none());
    assert_eq!(pfx, Some(PrefixId::new(0x0aa0_0000, 12)));
    assert_eq!(less, Some(vec![]));
}

#[test]
fn exact_match_in_a_node() {
    let node = node4(&[(0b1, 1), (0b101, 3)], &[0b1010]);
    let mut none = None;
    let search = PrefixId::<u32>::new(0x0aa0_0000, 11);
    let (child, pfx) = node.search_stride_for_exact_match_at(search, 0b101, 3, 8, &mut none);
    assert!(child.is_none());
    assert_eq!(pfx, Some(search));
    let search = PrefixId::<u32>::new(0x0a80_0000, 10);
    let (child, pfx) = node.search_stride_for_exact_match_at(search, 0b10, 2, 8, &mut none);
    assert!(child.is_none());
    assert_eq!(pfx, None);
    let search = PrefixId::<u32>::new(0x0aa8_0000, 13);
    let (child, pfx) = node.search_stride_for_exact_match_at(search, 0b1010, 4, 8, &mut none);
    assert_eq!(child.unwrap().get_id(), (0x0aa0_0000, 12));
    assert_eq!(pfx, None);
    let search = PrefixId::<u32>::new(0x0ab8_0000, 13);
    let (child, pfx) = node.search_stride_for_exact_match_at(search, 0b1011, 4, 8, &mut none);
    assert!(child.is_none());
    assert_eq!(pfx, None);
}

#[test]
fn exact_match_with_less_specifics_in_a_node() {
    let node = node4(&[(0b1, 1), (0b101, 3), (0b1010, 4)], &[0b1010]);
    let earlier = PrefixId::<u32>::new(0x0a00_0000, 8);

    let search = PrefixId::<u32>::new(0x0aa0_0000, 12);
    let mut less = Some(vec![earlier]);
    let (child, pfx) =
        node.search_stride_for_exact_match_with_less_specifics_at(search, 0b1010, 4, 8, &mut less);
    assert!(child.is_none());
    assert_eq!(pfx, Some(search));
    assert_eq!(
        less,
        Some(vec![
            earlier,
            PrefixId::new(0x0a80_0000, 9),
            PrefixId::new(0x0aa0_0000, 11),
            PrefixId::new(0x0aa0_0000, 12)
        ])
    );

    // The search goes on in the child: what was found is kept.
    let search = PrefixId::<u32>::new(0x0aa8_0000, 13);
    let mut less = Some(vec![earlier]);
    let (child, pfx) =
        node.search_stride_for_exact_match_with_less_specifics_at(search, 0b1010, 4, 8, &mut less);
    assert!(child.is_some());
    assert_eq!(pfx, None);
    assert_eq!(less.unwrap().len(), 4);

    // The search ends without a match: nothing is kept.
    let search = PrefixId::<u32>::new(0x0aa0_0000, 10);
    let mut less = Some(vec![earlier]);
    let (child, pfx) =
        node.search_stride_for_exact_match_with_less_specifics_at(search, 0b10, 2, 8, &mut less);
    assert!(child.is_none());
    assert_eq!(pfx, None);
    assert_eq!(less, Some(vec![]));
}

#[test]
fn more_specifics_in_a_node() {
    let node = node4(
        &[(0b1, 1), (0b10, 2), (0b11, 2), (0b101, 3), (0b100, 3), (0b1011, 4), (0b0111, 4)],
        &[0b1010, 0b1000, 0b0001],
    );
    let base = StrideNodeId::<u32>::new_with_cleaned_id(0x0a00_0000, 8);
    let (children, more) = node.add_more_specifics_at(0b10, 2, base);
    assert_eq!(
        children.iter().map(|c| c.get_id()).collect::<Vec<_>>(),
        vec![(0x0a80_0000, 12), (0x0aa0_0000, 12)]
    );
    assert_eq!(
        more,
        vec![
            PrefixId::new(0x0a80_0000, 11),
            PrefixId::new(0x0aa0_0000, 11),
            PrefixId::new(0x0ab0_0000, 12)
        ]
    );
    let (children, more) = node.add_more_specifics_at(0, 0, base);
    assert_eq!(children.len(), 3);
    assert_eq!(
        more,
        vec![
            PrefixId::new(0x0a80_0000, 9),
            PrefixId::new(0x0a80_0000, 10),
            PrefixId::new(0x0ac0_0000, 10),
            PrefixId::new(0x0a80_0000, 11),
            PrefixId::new(0x0aa0_0000, 11),
            PrefixId::new(0x0a70_0000, 12),
            PrefixId::new(0x0ab0_0000, 12)
        ]
    );
    let (children, more) = node.add_more_specifics_at(0b1010, 4, base);
    assert_eq!(children.iter().map(|c| c.get_id()).collect::<Vec<_>>(), vec![(0x0aa0_0000, 12)]);
    assert!(more.is_empty());
    let (children, more) = node.add_more_specifics_at(0b1011, 4, base);
    assert!(children.is_empty());
    assert!(more.is_empty());
}

#[test]
fn walks_over_a_node() {
    let node = node4(&[(0b11, 2), (0b1, 1), (0b0111, 4), (0b100, 3)], &[0b1010, 0b0001, 0b1111]);
    let base = StrideNodeId::<u32>::new_with_cleaned_id(0x0a00_0000, 8);
    let mut children = node.ptr_iter(base);
    assert_eq!(children.next().unwrap().get_id(), (0x0a10_0000, 12));
    assert_eq!(children.next().unwrap().get_id(), (0x0aa0_0000, 12));
    assert_eq!(children.next().unwrap().get_id(), (0x0af0_0000, 12));
    assert!(children.next().is_none());
    assert!(children.next().is_none());
    let mut prefixes = node.pfx_iter(base);
    assert_eq!(prefixes.next(), Some(PrefixId::new(0x0a80_0000, 9)));
    assert_eq!(prefixes.next(), Some(PrefixId::new(0x0ac0_0000, 10)));
    assert_eq!(prefixes.next(), Some(PrefixId::new(0x0a80_0000, 11)));
    assert_eq!(prefixes.next(), Some(PrefixId::new(0x0a70_0000, 12)));
    assert_eq!(prefixes.next(), None);
    assert_eq!(prefixes.next(), None);
    let empty = TreeBitMapNode::new(3);
    assert!(empty.ptr_iter(base).next().is_none());
    assert!(empty.pfx_iter(base).next().is_none());
}
