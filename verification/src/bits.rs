//! Bit manipulation on 32-bit words.
//!
//! Bit `i` of a word is `(x >> i) & 1`; bit ranges are inclusive at both ends
//! where a function says "from `s` to `e`", and half open where it says
//! "`s` up to `e`".

use vstd::prelude::*;
use vstd::arithmetic::power2::{pow2, lemma_pow2_pos, lemma2_to64};
use vstd::bits::{
    low_bits_mask, lemma_u32_low_bits_mask_is_mod, lemma_u32_pow2_no_overflow,
    lemma_u32_shl_is_mul, lemma_u32_shr_is_div,
};

verus! {

/// Whether bit `i` of `x` is set.
pub open spec fn bit_of(x: u32, i: u32) -> bool {
    (x >> i) & 1u32 == 1u32
}

/// The word whose bits `s` up to `e` are set, for `s < e <= s + 32`.
pub open spec fn range_mask(s: u32, e: u32) -> u32 {
    (!0u32 >> ((32 - (e - s)) as u32)) << s
}

/// The bits of `num` from `s` to `e`, moved down to bit zero.
pub open spec fn field_of(num: u32, s: u32, e: u32) -> u32 {
    (num & range_mask(s, (e + 1) as u32)) >> s
}

/// `num` with its bits from `s` to `e` replaced by the low bits of `rep`.
pub open spec fn with_field(num: u32, rep: u32, s: u32, e: u32) -> u32 {
    (num & !range_mask(s, (e + 1) as u32)) | ((rep << s) & range_mask(s, (e + 1) as u32))
}

/// The highest bit of a range that ends at `e` and still lies in a word.
pub open spec fn field_top(e: u32) -> u32 {
    if e < 32 {
        e
    } else {
        31
    }
}

/// `num` with bit `bit` set to `v`.
pub open spec fn with_bit(num: u32, bit: u32, v: bool) -> u32 {
    if v {
        num | (1u32 << bit)
    } else {
        num & !(1u32 << bit)
    }
}

/// Sets bit `bit` of `num` to one.
pub fn bitset(num: u32, bit: u32) -> (r: u32)
    requires
        bit < 32,
    ensures
        forall|j: u32| j < 32 ==> (bit_of(r, j) == (j == bit || bit_of(num, j))),
        r == num | (1u32 << bit),
{
    let r = num | (1u32 << bit);
    proof {
        lemma_bitset(num, bit, r);
    }
    r
}

/// Clears bit `bit` of `num`.
pub fn bitclear(num: u32, bit: u32) -> (r: u32)
    requires
        bit < 32,
    ensures
        forall|j: u32| j < 32 ==> (bit_of(r, j) == (j != bit && bit_of(num, j))),
        r == num & !(1u32 << bit),
{
    let r = num & !(1u32 << bit);
    proof {
        lemma_bitclear(num, bit, r);
    }
    r
}

/// Flips bit `bit` of `num`.
pub fn bitflip(num: u32, bit: u32) -> (r: u32)
    requires
        bit < 32,
    ensures
        forall|j: u32| j < 32 ==> (bit_of(r, j) == (bit_of(num, j) != (j == bit))),
{
    let r = num ^ (1u32 << bit);
    proof {
        lemma_bitflip(num, bit, r);
    }
    r
}

/// Reads bit `bit` of `num`.
pub fn bitcheck(num: u32, bit: u32) -> (r: bool)
    requires
        bit < 32,
    ensures
        r == bit_of(num, bit),
{
    let r = ((num >> bit) & 1u32) != 0;
    proof {
        assert((((num >> bit) & 1u32) != 0) == ((num >> bit) & 1u32 == 1u32)) by (bit_vector);
    }
    r
}

/// Sets bit `bit` of `num` to `bit_value`, leaving the other bits as they are.
pub fn set_bit(num: u32, bit: u32, bit_value: bool) -> (r: u32)
    requires
        bit < 32,
    ensures
        forall|j: u32| j < 32 ==> (bit_of(r, j) == if j == bit { bit_value } else { bit_of(num, j) }),
        r == with_bit(num, bit, bit_value),
{
    if bit_value {
        bitset(num, bit)
    } else {
        bitclear(num, bit)
    }
}

/// A word whose bits `s` up to `e` are set (those at 32 and beyond fall
/// off the top) and whose other bits are clear.
pub fn create_mask(s: u32, e: u32) -> (r: u32)
    requires
        s < e,
        e - s <= 32,
        s < 32,
    ensures
        forall|j: u32| j < 32 ==> (bit_of(r, j) == (s <= j && j < e)),
        r == range_mask(s, e),
{
    let len: u32 = e - s;
    let r = (!0u32 >> (32 - len)) << s;
    proof {
        lemma_create_mask(s, e, len, r);
    }
    r
}

/// The bits of `num` from `s` to `e`, moved down to bit zero; those past
/// bit 31 read as zero.
pub fn read_bitrange(num: u32, s: u32, e: u32) -> (r: u32)
    requires
        s <= e,
        s < 32,
        e - s < 32,
    ensures
        forall|j: u32|
            j < 32 ==> (bit_of(r, j) == (j <= e - s && s + j < 32 && bit_of(num, (s + j) as u32))),
        r as nat == (num as nat / pow2(s as nat)) % pow2((field_top(e) - s + 1) as nat),
        r == field_of(num, s, e),
{
    let mask = create_mask(s, e + 1);
    let r = (num & mask) >> s;
    let ghost t = field_top(e);
    proof {
        lemma_read_bitrange(num, s, e, mask, r);
        lemma_read_bitrange_value(num, s, e, t, mask, r);
        lemma_field_value(num, s, (t + 1 - s) as u32, r);
    }
    r
}

/// `num` with its bits from `s` to `e` replaced by the low bits of `rep`;
/// those past bit 31 fall off.
pub fn write_bitrange(num: u32, rep: u32, s: u32, e: u32) -> (r: u32)
    requires
        s <= e,
        s < 32,
        e - s < 32,
    ensures
        forall|j: u32|
            j < 32 ==> (bit_of(r, j) == if s <= j && j <= e {
                bit_of(rep, (j - s) as u32)
            } else {
                bit_of(num, j)
            }),
        r == with_field(num, rep, s, e),
{
    let mask = create_mask(s, e + 1);
    let r = (num & !mask) | ((rep << s) & mask);
    proof {
        lemma_write_bitrange(num, rep, s, e, mask, r);
    }
    r
}

proof fn lemma_bitset(num: u32, bit: u32, r: u32)
    by (bit_vector)
    requires
        bit < 32,
        r == num | (1u32 << bit),
    ensures
        forall|j: u32| j < 32 ==> (((#[trigger] (r >> j)) & 1u32 == 1u32) == (j == bit || ((num >> j) & 1u32 == 1u32))),
{
}

proof fn lemma_bitclear(num: u32, bit: u32, r: u32)
    by (bit_vector)
    requires
        bit < 32,
        r == num & !(1u32 << bit),
    ensures
        forall|j: u32| j < 32 ==> (((#[trigger] (r >> j)) & 1u32 == 1u32) == (j != bit && ((num >> j) & 1u32 == 1u32))),
{
}

proof fn lemma_bitflip(num: u32, bit: u32, r: u32)
    by (bit_vector)
    requires
        bit < 32,
        r == num ^ (1u32 << bit),
    ensures
        forall|j: u32| j < 32 ==> (((#[trigger] (r >> j)) & 1u32 == 1u32) == (((num >> j) & 1u32 == 1u32) != (j == bit))),
{
}

proof fn lemma_create_mask(s: u32, e: u32, len: u32, m: u32)
    by (bit_vector)
    requires
        s < e,
        e - s <= 32,
        s < 32,
        len == e - s,
        m == (!0u32 >> ((32u32 - len) as u32)) << s,
    ensures
        forall|j: u32| j < 32 ==> (((#[trigger] (m >> j)) & 1u32 == 1u32) == (s <= j && j < e)),
{
}

proof fn lemma_read_bitrange(num: u32, s: u32, e: u32, mask: u32, r: u32)
    by (bit_vector)
    requires
        s <= e,
        s < 32,
        e - s < 32,
        mask == (!0u32 >> ((32 - (e + 1 - s)) as u32)) << s,
        r == (num & mask) >> s,
    ensures
        forall|j: u32|
            j < 32 ==> (((#[trigger] (r >> j)) & 1u32 == 1u32) == (j <= e - s && s + j < 32 && ((num >> ((s
                + j) as u32)) & 1u32 == 1u32))),
{
}

proof fn lemma_read_bitrange_value(num: u32, s: u32, e: u32, t: u32, mask: u32, r: u32)
    by (bit_vector)
    requires
        s <= e,
        s < 32,
        e - s < 32,
        t == if e < 32 { e } else { 31u32 },
        mask == (!0u32 >> ((32 - (e + 1 - s)) as u32)) << s,
        r == (num & mask) >> s,
    ensures
        t + 1 - s < 32 ==> r == (num >> s) & (((1u32 << ((t + 1 - s) as u32)) - 1u32) as u32),
        t + 1 - s == 32 ==> r == num,
{
}

/// The numeric value of a field of `len` bits read from `num` at bit `s`.
proof fn lemma_field_value(num: u32, s: u32, len: u32, r: u32)
    requires
        1 <= len <= 32,
        s + len <= 32,
        len < 32 ==> r == (num >> s) & (((1u32 << len) - 1u32) as u32),
        len == 32 ==> r == num,
    ensures
        r as nat == (num as nat / pow2(s as nat)) % pow2(len as nat),
{
    if len == 32 {
        assert(s == 0);
        lemma2_to64();
        assert(num as nat / 1 == num as nat);
    } else {
        lemma_u32_pow2_no_overflow(len as nat);
        lemma_u32_shl_is_mul(1u32, len);
        lemma_u32_shr_is_div(num, s);
        lemma_u32_low_bits_mask_is_mod(num >> s, len as nat);
        assert(low_bits_mask(len as nat) == pow2(len as nat) - 1);
        lemma_pow2_pos(len as nat);
    }
}

proof fn lemma_write_bitrange(num: u32, rep: u32, s: u32, e: u32, mask: u32, r: u32)
    by (bit_vector)
    requires
        s <= e,
        s < 32,
        e - s < 32,
        mask == (!0u32 >> ((32 - (e + 1 - s)) as u32)) << s,
        r == (num & !mask) | ((rep << s) & mask),
    ensures
        forall|j: u32|
            j < 32 ==> (((#[trigger] (r >> j)) & 1u32 == 1u32) == if s <= j && j <= e {
                (rep >> ((j - s) as u32)) & 1u32 == 1u32
            } else {
                (num >> j) & 1u32 == 1u32
            }),
{
}

/// Reading a range after writing it gives back the low bits of what was
/// written: as many as the range holds inside the word.
pub proof fn law_read_after_write(num: u32, rep: u32, s: u32, e: u32)
    requires
        s <= e,
        s < 32,
        e - s < 32,
    ensures
        field_of(with_field(num, rep, s, e), s, e) == rep & range_mask(0, (field_top(e) - s + 1) as u32),
{
    let t = field_top(e);
    let m = range_mask(s, (e + 1) as u32);
    let w = with_field(num, rep, s, e);
    assert(((((num & !m) | ((rep << s) & m)) & m) >> s) == rep & ((!0u32 >> ((32 - (t - s + 1)) as u32))
        << 0u32)) by (bit_vector)
        requires
            s <= e,
            s < 32,
            e - s < 32,
            t == if e < 32 { e } else { 31u32 },
            m == (!0u32 >> ((32 - ((e + 1) as u32 - s)) as u32)) << s,
    ;
}

/// Writing a range leaves the bits outside it as they were.
pub proof fn law_write_keeps_other_bits(num: u32, rep: u32, s: u32, e: u32)
    requires
        s <= e,
        s < 32,
        e - s < 32,
    ensures
        with_field(num, rep, s, e) & !range_mask(s, (e + 1) as u32) == num & !range_mask(s, (e + 1) as u32),
{
    let m = range_mask(s, (e + 1) as u32);
    assert((((num & !m) | ((rep << s) & m)) & !m) == num & !m) by (bit_vector);
}

/// Writing back what a read of a range gave leaves the word unchanged.
pub proof fn law_write_what_was_read(num: u32, s: u32, e: u32)
    requires
        s <= e,
        s < 32,
        e - s < 32,
    ensures
        with_field(num, field_of(num, s, e), s, e) == num,
{
    let m = range_mask(s, (e + 1) as u32);
    assert(((num & !m) | ((((num & m) >> s) << s) & m)) == num) by (bit_vector)
        requires
            s < 32,
            m == (!0u32 >> ((32 - ((e + 1) as u32 - s)) as u32)) << s,
            s <= e,
            e - s < 32,
    ;
}

/// A child's position in its parent from the sign of each axis: bit 0 for
/// x, bit 1 for z, bit 2 for y.
pub fn axes_to_mask(x_pos: bool, y_pos: bool, z_pos: bool) -> (r: u32)
    ensures
        r == axis_bit(x_pos) + 2 * axis_bit(z_pos) + 4 * axis_bit(y_pos),
{
    let x_bit: u32 = if x_pos { 1 } else { 0 };
    let y_bit: u32 = if y_pos { 1 } else { 0 };
    let z_bit: u32 = if z_pos { 1 } else { 0 };
    let r = (x_bit << 0u32) | (z_bit << 1u32) | (y_bit << 2u32);
    proof {
        assert(r == x_bit + 2 * z_bit + 4 * y_bit) by (bit_vector)
            requires
                x_bit <= 1,
                y_bit <= 1,
                z_bit <= 1,
                r == (x_bit << 0u32) | (z_bit << 1u32) | (y_bit << 2u32),
        ;
    }
    r
}

/// The bit of one axis in a child position.
pub open spec fn axis_bit(b: bool) -> u32 {
    if b {
        1
    } else {
        0
    }
}

/// The x, y and z bits of a child position, each 0 or 1.
pub fn mask_to_axes(mask: u32) -> (r: (u32, u32, u32))
    ensures
        r.0 == mask % 2,
        r.1 == (mask / 4) % 2,
        r.2 == (mask / 2) % 2,
{
    let r = ((mask >> 0u32) & 1, (mask >> 2u32) & 1, (mask >> 1u32) & 1);
    proof {
        assert((mask >> 0u32) & 1 == mask % 2 && (mask >> 2u32) & 1 == (mask / 4) % 2 && (mask
            >> 1u32) & 1 == (mask / 2) % 2) by (bit_vector);
    }
    r
}

/// Splitting a child position into its axis bits and putting them together
/// again gives the position back, for each of the eight positions.
pub proof fn law_mask_axes_roundtrip(mask: u32)
    requires
        mask < 8,
    ensures
        (mask % 2) + 2 * ((mask / 2) % 2) + 4 * ((mask / 4) % 2) == mask,
{
}

/// The axis bits read from a position built from three signs are those signs.
pub proof fn law_axes_mask_roundtrip(x_pos: bool, y_pos: bool, z_pos: bool)
    ensures
        ({
            let m = axis_bit(x_pos) + 2 * axis_bit(z_pos) + 4 * axis_bit(y_pos);
            &&& m % 2 == axis_bit(x_pos)
            &&& (m / 4) % 2 == axis_bit(y_pos)
            &&& (m / 2) % 2 == axis_bit(z_pos)
        }),
{
}

} // verus!
