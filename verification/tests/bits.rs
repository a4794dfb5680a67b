use radguy::bits::{enumerate_bits, msb_index, to_u32, to_usize};

#[test]
fn enumerate_bits_enumerates_bits() {
    assert_eq!(enumerate_bits(0).len(), 1);
    assert_eq!(enumerate_bits(1).len(), 1);
    assert_eq!(enumerate_bits(2).len(), 2);
    assert_eq!(enumerate_bits(255).len(), 8);

    assert_eq!(*enumerate_bits(0).first().expect("should be some"), (0, false));
}

#[test]
fn msb_index_gives_the_highest_set_bit() {
    assert_eq!(msb_index(0), 0);
    assert_eq!(msb_index(1), 0);
    assert_eq!(msb_index(2), 1);
    assert_eq!(msb_index(3), 1);
    assert_eq!(msb_index(255), 7);
    assert_eq!(msb_index(256), 8);
    assert_eq!(msb_index(u32::MAX), 31);
}

#[test]
fn enumerate_bits_lists_each_bit_from_the_lowest() {
    assert_eq!(enumerate_bits(5), vec![(0, true), (1, false), (2, true)]);
    assert_eq!(enumerate_bits(8), vec![(0, false), (1, false), (2, false), (3, true)]);
    assert_eq!(enumerate_bits(u32::MAX).len(), 32);
    assert!(enumerate_bits(u32::MAX).iter().all(|(_, set)| *set));
}

#[test]
fn index_casts_keep_the_value() {
    assert_eq!(to_u32(0), 0);
    assert_eq!(to_u32(4_000_000_000), 4_000_000_000u32);
    assert_eq!(to_usize(17), 17usize);
    assert_eq!(to_usize(u32::MAX), 4_294_967_295usize);
}
