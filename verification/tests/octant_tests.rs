use voxel_octree::bits::{axes_to_mask, bitcheck, bitclear, bitflip, bitset, create_mask, mask_to_axes, read_bitrange, set_bit, write_bitrange};
use voxel_octree::octant::Octant;

#[test]
fn bit_operations_on_words() {
    assert_eq!(bitset(0b1000, 1), 0b1010);
    assert_eq!(bitclear(0b1010, 3), 0b0010);
    assert_eq!(bitflip(0b1010, 0), 0b1011);
    assert_eq!(bitflip(0b1011, 0), 0b1010);
    assert!(bitcheck(0b0100, 2));
    assert!(!bitcheck(0b0100, 1));
    assert_eq!(set_bit(0, 31, true), 0x8000_0000);
    assert_eq!(set_bit(0xFFFF_FFFF, 31, false), 0x7FFF_FFFF);
}

#[test]
fn masks_and_bit_ranges() {
    assert_eq!(create_mask(16, 24), 0x00FF_0000);
    assert_eq!(create_mask(0, 32), 0xFFFF_FFFF);
    assert_eq!(create_mask(28, 40), 0xF000_0000);
    assert_eq!(read_bitrange(0x12AB_CDEF, 16, 23), 0xAB);
    assert_eq!(read_bitrange(0x12AB_CDEF, 0, 31), 0x12AB_CDEF);
    assert_eq!(write_bitrange(0x12AB_CDEF, 0x77, 16, 23), 0x1277_CDEF);
    assert_eq!(write_bitrange(0xFFFF_FFFF, 0x1_0000, 0, 15), 0xFFFF_0000);
}

#[test]
fn child_positions_and_axes() {
    assert_eq!(axes_to_mask(true, false, false), 1);
    assert_eq!(axes_to_mask(false, false, true), 2);
    assert_eq!(axes_to_mask(false, true, false), 4);
    assert_eq!(axes_to_mask(true, true, true), 7);
    assert_eq!(mask_to_axes(6), (0, 1, 1));
    for m in 0..8u32 {
        let (x, y, z) = mask_to_axes(m);
        assert_eq!(axes_to_mask(x == 1, y == 1, z == 1), m);
    }
}

#[test]
fn node_word_fields() {
    let w: u32 = 0;
    let w = w.set_subdiv(true).set_first_child_idx(1234).set_child_filled(3, true);
    assert!(w.is_subdiv());
    assert!(!w.is_leaf());
    assert_eq!(w.get_first_child_idx(), 1234);
    assert_eq!(w.get_child_bitmask(), 0b1000);
    assert!(w.has_children());
    assert!(w.check_child_filled(3));
    assert!(!w.check_child_filled(2));
    let w2 = w.set_leaf(true);
    assert!(w2.is_leaf());
    assert_eq!(w2.get_first_child_idx(), 1234);
    assert_eq!(w2.get_child_bitmask(), 0b1000);
    let w3 = w2.set_child_filled(3, false);
    assert!(!w3.has_children());
    assert_eq!(w3.set_leaf(false).set_subdiv(false).set_first_child_idx(0), 0);
    // The first-child field keeps the low 16 bits of the offset.
    assert_eq!(0u32.set_first_child_idx(0x1_0005).get_first_child_idx(), 5);
    assert_eq!(w, 0x0208_04D2);
}

#[test]
fn reading_a_range_gives_back_what_was_written() {
    let w = write_bitrange(0xDEAD_BEEF, 0x1234_5678, 8, 15);
    assert_eq!(read_bitrange(w, 8, 15), 0x78);
    assert_eq!(w & !create_mask(8, 16), 0xDEAD_BEEF & !create_mask(8, 16));
    assert_eq!(w, 0xDEAD_78EF);

    let whole = write_bitrange(7, 0xFFFF_FFFF, 0, 31);
    assert_eq!(read_bitrange(whole, 0, 31), 0xFFFF_FFFF);

    let num = 0x0F0F_A5A5;
    assert_eq!(write_bitrange(num, read_bitrange(num, 4, 19), 4, 19), num);
}

#[test]
fn ranges_that_run_past_the_top_bit() {
    assert_eq!(read_bitrange(0xF123_4567, 28, 40), 0xF);
    assert_eq!(read_bitrange(0xF123_4567, 0, 31), 0xF123_4567);
    assert_eq!(write_bitrange(0x0000_1234, 0xFFFF, 28, 40), 0xF000_1234);
    let w = write_bitrange(0x0ABC_DEF0, 0x5A, 24, 50);
    assert_eq!(read_bitrange(w, 24, 50), 0x5A);
    assert_eq!(w & 0x00FF_FFFF, 0x00BC_DEF0);
}
