use rotonda_store::af::{head_of, nibble_of, pow2_u128, truncate_of, with_nibble, AddressFamily};
use rotonda_store::node_id::{PrefixId, StrideNodeId};
use rotonda_store::stride::{get_bit_pos, get_ptr_bit_pos, pow2_u32};

#[test]
fn nibbles_of_an_ipv4_address() {
    let net: u32 = u32::from_be_bytes([17, 0, 64, 0]);
    // 00010 00100 0000 ...
    assert_eq!(<u32 as AddressFamily>::get_nibble(net, 0, 5), 0b00010);
    assert_eq!(<u32 as AddressFamily>::get_nibble(net, 5, 5), 0b00100);
    assert_eq!(<u32 as AddressFamily>::get_nibble(net, 5, 3), 0b001);
    assert_eq!(<u32 as AddressFamily>::get_nibble(net, 5, 4), 0b0010);
    assert_eq!(<u32 as AddressFamily>::get_nibble(net, 14, 3), 0b000);
    assert_eq!(<u32 as AddressFamily>::get_nibble(net, 17, 1), 1);
    assert_eq!(<u32 as AddressFamily>::get_nibble(0xffff_ffff, 0, 32), 0xffff_ffff);
    assert_eq!(<u32 as AddressFamily>::get_nibble(0xffff_ffff, 29, 3), 7);
    assert_eq!(<u32 as AddressFamily>::get_nibble(0xffff_ffff, 0, 0), 0);
    assert_eq!(<u32 as AddressFamily>::get_nibble(0xffff_ffff, 32, 0), 0);
    assert_eq!(<u32 as AddressFamily>::bits(), 32);
    assert_eq!(<u32 as AddressFamily>::zero(), 0);
    assert_eq!(<u32 as AddressFamily>::into_u128(0xdead_beef), 0xdead_beef);
    assert_eq!(<u32 as AddressFamily>::from_u128(0xdead_beef), 0xdead_beef);
}

#[test]
fn nibbles_of_an_ipv6_address() {
    let net: u128 = 0x2001_0db8_0000_0000_0000_0000_0000_0001;
    assert_eq!(<u128 as AddressFamily>::get_nibble(net, 0, 4), 0x2);
    assert_eq!(<u128 as AddressFamily>::get_nibble(net, 12, 4), 0x1);
    assert_eq!(<u128 as AddressFamily>::get_nibble(net, 16, 5), 0b00001);
    assert_eq!(<u128 as AddressFamily>::get_nibble(net, 125, 3), 0b001);
    assert_eq!(<u128 as AddressFamily>::get_nibble(net, 0, 0), 0);
    assert_eq!(<u128 as AddressFamily>::get_nibble(net, 0, 32), 0x2001_0db8);
    assert_eq!(<u128 as AddressFamily>::bits(), 128);
    assert_eq!(<u128 as AddressFamily>::zero(), 0);
    assert_eq!(<u128 as AddressFamily>::into_u128(net), net);
    assert_eq!(<u128 as AddressFamily>::from_u128(net), net);
}

#[test]
fn truncation_clears_the_bits_behind_the_length() {
    assert_eq!(<u32 as AddressFamily>::truncate_to_len(0xffff_ffff, 8), 0xff00_0000);
    assert_eq!(<u32 as AddressFamily>::truncate_to_len(0xffff_ffff, 0), 0);
    assert_eq!(<u32 as AddressFamily>::truncate_to_len(0xffff_ffff, 32), 0xffff_ffff);
    assert_eq!(<u32 as AddressFamily>::truncate_to_len(0x1234_5678, 13), 0x1230_0000);
    assert_eq!(
        <u128 as AddressFamily>::truncate_to_len(!0u128, 1),
        0x8000_0000_0000_0000_0000_0000_0000_0000
    );
    assert_eq!(<u128 as AddressFamily>::truncate_to_len(!0u128, 0), 0);
    assert_eq!(<u128 as AddressFamily>::truncate_to_len(!0u128, 128), !0u128);
    assert_eq!(truncate_of(0xffff, 16, 4), 0xf000);
    assert_eq!(head_of(0xabcd, 16, 4), 0xa);
    assert_eq!(head_of(0xabcd, 16, 0), 0);
    assert_eq!(head_of(0xabcd, 16, 16), 0xabcd);
    assert_eq!(nibble_of(0xabcd, 16, 4, 8), 0xbc);
    assert_eq!(pow2_u128(0), 1);
    assert_eq!(pow2_u128(127), 1u128 << 127);
    assert_eq!(pow2_u32(6), 64);
    assert_eq!(pow2_u32(0), 1);
}

#[test]
fn a_nibble_is_written_behind_the_length() {
    assert_eq!(
        <u32 as AddressFamily>::add_nibble(0x1100_0000, 8, 0b101, 3),
        (0x11a0_0000, 11)
    );
    assert_eq!(<u32 as AddressFamily>::add_nibble(0, 0, 0b10001, 5), (0x8800_0000, 5));
    assert_eq!(<u32 as AddressFamily>::add_nibble(0xffff_fff8, 29, 7, 3), (0xffff_ffff, 32));
    assert_eq!(<u32 as AddressFamily>::add_nibble(0x1100_0000, 8, 0, 0), (0x1100_0000, 8));
    assert_eq!(
        <u128 as AddressFamily>::add_nibble(0x2001_0db8u128 << 96, 32, 0xf, 4),
        ((0x2001_0db8_fu128) << 92, 36)
    );
    assert_eq!(<u128 as AddressFamily>::add_nibble(0, 0, 0, 0), (0, 0));
    assert_eq!(with_nibble(0, 128, 125, 5, 3), 5);
}

#[test]
fn places_of_the_bits_in_the_bitmaps() {
    // Stride 3: a field of 16 bits; the nibble n of length len is at place
    // 2^len - 1 + n from the top.
    assert_eq!(get_bit_pos(3, 0, 1), 1 << 14);
    assert_eq!(get_bit_pos(3, 1, 1), 1 << 13);
    assert_eq!(get_bit_pos(3, 0, 2), 1 << 12);
    assert_eq!(get_bit_pos(3, 3, 2), 1 << 9);
    assert_eq!(get_bit_pos(3, 0, 3), 1 << 8);
    assert_eq!(get_bit_pos(3, 7, 3), 1 << 1);
    assert_eq!(get_bit_pos(3, 0, 0), 1 << 15);
    // Stride 4: a field of 32 bits.
    assert_eq!(get_bit_pos(4, 0, 1), 1 << 30);
    assert_eq!(get_bit_pos(4, 10, 4), 1 << 6);
    assert_eq!(get_bit_pos(4, 15, 4), 1 << 1);
    // Stride 5: a field of 64 bits.
    assert_eq!(get_bit_pos(5, 0, 1), 1 << 62);
    assert_eq!(get_bit_pos(5, 0, 5), 1 << 32);
    assert_eq!(get_bit_pos(5, 31, 5), 1 << 1);
    // The child bitmap: a field of 2^stride bits.
    assert_eq!(get_ptr_bit_pos(3, 0), 1 << 7);
    assert_eq!(get_ptr_bit_pos(3, 7), 1);
    assert_eq!(get_ptr_bit_pos(4, 0), 1 << 15);
    assert_eq!(get_ptr_bit_pos(4, 15), 1);
    assert_eq!(get_ptr_bit_pos(5, 0), 1 << 31);
    assert_eq!(get_ptr_bit_pos(5, 31), 1);
}

#[test]
fn identifiers() {
    let id = PrefixId::<u32>::new(0x1100_0000, 8);
    assert!(id.is_valid());
    assert_eq!(id.get_net(), 0x1100_0000);
    assert_eq!(id.get_len(), 8);
    assert_eq!(id.path_value(), 0x11);
    assert!(!PrefixId::<u32>::new(0x1100_0001, 8).is_valid());
    assert!(!PrefixId::<u32>::new(0, 33).is_valid());
    assert!(PrefixId::<u32>::new(0, 0).is_valid());
    assert!(!PrefixId::<u32>::new(1, 0).is_valid());
    assert!(PrefixId::<u32>::new(0xffff_ffff, 32).is_valid());
    assert_eq!(PrefixId::<u32>::new_relaxed(0x1234_5678, 16), Some(PrefixId::new(0x1234_0000, 16)));
    assert_eq!(PrefixId::<u32>::new_relaxed(0x1234_5678, 33), None);
    assert_eq!(PrefixId::<u128>::new_relaxed(7, 129), None);
    assert_eq!(PrefixId::<u128>::new_relaxed(7, 128), Some(PrefixId::new(7, 128)));
    let long = PrefixId::<u32>::new(0x1234_5600, 24);
    assert_eq!(long.ancestor(12), PrefixId::new(0x1230_0000, 12));
    assert_eq!(long.ancestor(0), PrefixId::new(0, 0));
    assert_eq!(long.ancestor(24), long);
    assert!(long.same(&PrefixId::new(0x1234_5600, 24)));
    assert!(!long.same(&PrefixId::new(0x1234_5600, 25)));
    assert!(!long.same(&PrefixId::new(0x1234_5700, 24)));

    let root = StrideNodeId::<u32>::root();
    assert_eq!(root.get_id(), (0, 0));
    let node = StrideNodeId::<u32>::new_with_cleaned_id(0x1234_5678, 10);
    assert_eq!(node.get_id(), (0x1200_0000, 10));
    assert_eq!(node.get_len(), 10);
    assert_eq!(node.path_value(), 0x48);
    let child = node.add_nibble(0b1101, 4);
    assert_eq!(child.get_id(), (0x1234_0000, 14));
    assert_eq!(child.into_prefix_id(), PrefixId::new(0x1234_0000, 14));
}
