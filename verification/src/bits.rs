//! Nine-bit masks: bit `i` of a mask stands for the digit `i + 1`.

use vstd::prelude::*;

verus! {

/// The mask with all nine digit bits set.
pub const FULL_MASK: u16 = 0x1ff;

/// The number of masks over nine bits.
pub const MASK_COUNT: usize = 512;

/// Whether bit `i` of `k` is set.
pub open spec fn bit16(k: u16, i: u16) -> bool {
    (k >> i) & 1u16 == 1u16
}

/// Whether the mask `k` holds the digit `d` (a digit is 1 to 9).
pub open spec fn mask_has(k: u16, d: int) -> bool {
    1 <= d <= 9 && bit16(k, (d - 1) as u16)
}

/// The mask built from nine membership flags, lowest digit first.
pub open spec fn pack(
    b0: bool,
    b1: bool,
    b2: bool,
    b3: bool,
    b4: bool,
    b5: bool,
    b6: bool,
    b7: bool,
    b8: bool,
) -> u16 {
    (if b0 { 1u16 } else { 0u16 }) | (if b1 { 2u16 } else { 0u16 }) | (if b2 { 4u16 } else { 0u16 })
        | (if b3 { 8u16 } else { 0u16 }) | (if b4 { 16u16 } else { 0u16 }) | (if b5 { 32u16 } else {
        0u16
    }) | (if b6 { 64u16 } else { 0u16 }) | (if b7 { 128u16 } else { 0u16 }) | (if b8 {
        256u16
    } else {
        0u16
    })
}

/// The mask of a set of digits; members outside 1 to 9 are ignored.
pub open spec fn mask_of(u: Set<int>) -> u16 {
    pack(
        u.contains(1),
        u.contains(2),
        u.contains(3),
        u.contains(4),
        u.contains(5),
        u.contains(6),
        u.contains(7),
        u.contains(8),
        u.contains(9),
    )
}

/// The set of digits that the mask `k` holds.
pub open spec fn mask_set(k: u16) -> Set<int> {
    Set::new(|d: int| mask_has(k, d))
}

/// Setting, clearing or toggling bit `i` of a mask changes bit `i` and none
/// of the others.
pub proof fn lemma_bit_set(k: u16, i: u16, j: u16)
    by (bit_vector)
    requires
        i < 9,
        j < 9,
    ensures
        bit16(k | (1u16 << i), j) == (bit16(k, j) || j == i),
        bit16(k & !(1u16 << i), j) == (bit16(k, j) && j != i),
        bit16(k ^ (1u16 << i), j) == (bit16(k, j) != (j == i)),
        bit16(1u16 << i, j) == (j == i),
{
}

/// The bits of the mask of an intersection, of the empty mask and of the
/// full mask.
pub proof fn lemma_bit_and(a: u16, b: u16, j: u16)
    by (bit_vector)
    requires
        j < 9,
    ensures
        bit16(a & b, j) == (bit16(a, j) && bit16(b, j)),
        !bit16(0u16, j),
        bit16(0x1ffu16, j),
{
}

/// Setting, clearing or toggling one of the nine bits of a mask below 512
/// leaves it below 512; setting undoes clearing and clearing undoes setting.
pub proof fn lemma_mask_bound(k: u16, i: u16)
    by (bit_vector)
    requires
        k < 512,
        i < 9,
    ensures
        (k | (1u16 << i)) < 512,
        (k & !(1u16 << i)) < 512,
        (k ^ (1u16 << i)) < 512,
        (1u16 << i) < 512,
        bit16(k, i) ==> (k & !(1u16 << i)) | (1u16 << i) == k,
        !bit16(k, i) ==> (k | (1u16 << i)) & !(1u16 << i) == k,
        bit16(k, i) ==> k ^ (1u16 << i) == k & !(1u16 << i),
        !bit16(k, i) ==> k ^ (1u16 << i) == k | (1u16 << i),
{
}

/// A packed mask is below 512, and its bits are the flags it was built from.
pub proof fn lemma_pack_bits(
    b0: bool,
    b1: bool,
    b2: bool,
    b3: bool,
    b4: bool,
    b5: bool,
    b6: bool,
    b7: bool,
    b8: bool,
)
    by (bit_vector)
    ensures
        pack(b0, b1, b2, b3, b4, b5, b6, b7, b8) < 512,
        bit16(pack(b0, b1, b2, b3, b4, b5, b6, b7, b8), 0) == b0,
        bit16(pack(b0, b1, b2, b3, b4, b5, b6, b7, b8), 1) == b1,
        bit16(pack(b0, b1, b2, b3, b4, b5, b6, b7, b8), 2) == b2,
        bit16(pack(b0, b1, b2, b3, b4, b5, b6, b7, b8), 3) == b3,
        bit16(pack(b0, b1, b2, b3, b4, b5, b6, b7, b8), 4) == b4,
        bit16(pack(b0, b1, b2, b3, b4, b5, b6, b7, b8), 5) == b5,
        bit16(pack(b0, b1, b2, b3, b4, b5, b6, b7, b8), 6) == b6,
        bit16(pack(b0, b1, b2, b3, b4, b5, b6, b7, b8), 7) == b7,
        bit16(pack(b0, b1, b2, b3, b4, b5, b6, b7, b8), 8) == b8,
{
}

/// A mask below 512 is the packing of its nine bits.
pub proof fn lemma_unpack(k: u16)
    by (bit_vector)
    requires
        k < 512,
    ensures
        pack(
            bit16(k, 0),
            bit16(k, 1),
            bit16(k, 2),
            bit16(k, 3),
            bit16(k, 4),
            bit16(k, 5),
            bit16(k, 6),
            bit16(k, 7),
            bit16(k, 8),
        ) == k,
{
}

/// A mask holds exactly the digits of the set it was built from.
pub proof fn lemma_mask_of(u: Set<int>)
    ensures
        mask_of(u) < 512,
        forall|d: int| 1 <= d <= 9 ==> (#[trigger] mask_has(mask_of(u), d) <==> u.contains(d)),
{
    lemma_pack_bits(
        u.contains(1),
        u.contains(2),
        u.contains(3),
        u.contains(4),
        u.contains(5),
        u.contains(6),
        u.contains(7),
        u.contains(8),
        u.contains(9),
    );
}

/// A mask below 512 is determined by the digits it holds.
pub proof fn lemma_mask_unique(k: u16, u: Set<int>)
    requires
        k < 512,
        forall|d: int| 1 <= d <= 9 ==> (#[trigger] mask_has(k, d) <==> u.contains(d)),
    ensures
        mask_of(u) == k,
{
    lemma_unpack(k);
    assert(mask_has(k, 1) == u.contains(1));
    assert(mask_has(k, 2) == u.contains(2));
    assert(mask_has(k, 3) == u.contains(3));
    assert(mask_has(k, 4) == u.contains(4));
    assert(mask_has(k, 5) == u.contains(5));
    assert(mask_has(k, 6) == u.contains(6));
    assert(mask_has(k, 7) == u.contains(7));
    assert(mask_has(k, 8) == u.contains(8));
    assert(mask_has(k, 9) == u.contains(9));
}

/// The mask of the digits of a mask is that mask.
pub proof fn lemma_mask_roundtrip(k: u16)
    requires
        k < 512,
    ensures
        mask_of(mask_set(k)) == k,
        forall|d: int| mask_set(k).contains(d) ==> 1 <= d <= 9,
{
    lemma_mask_unique(k, mask_set(k));
}

/// Taking a digit out of a set, putting one in, or toggling one, is the
/// matching bit operation on its mask.
pub proof fn lemma_mask_edit(u: Set<int>, d: int)
    requires
        1 <= d <= 9,
    ensures
        mask_of(u.remove(d)) == mask_of(u) & !(1u16 << ((d - 1) as u16)),
        mask_of(u.insert(d)) == mask_of(u) | (1u16 << ((d - 1) as u16)),
        u.contains(d) ==> mask_of(u.remove(d)) == mask_of(u) ^ (1u16 << ((d - 1) as u16)),
        !u.contains(d) ==> mask_of(u.insert(d)) == mask_of(u) ^ (1u16 << ((d - 1) as u16)),
{
    let k = mask_of(u);
    let i = (d - 1) as u16;
    lemma_mask_of(u);
    lemma_mask_bound(k, i);
    assert forall|e: int| 1 <= e <= 9 implies (#[trigger] mask_has(k & !(1u16 << i), e)
        <==> u.remove(d).contains(e)) by {
        lemma_bit_set(k, i, (e - 1) as u16);
        assert(mask_has(k, e) <==> u.contains(e));
    }
    lemma_mask_unique(k & !(1u16 << i), u.remove(d));
    assert forall|e: int| 1 <= e <= 9 implies (#[trigger] mask_has(k | (1u16 << i), e)
        <==> u.insert(d).contains(e)) by {
        lemma_bit_set(k, i, (e - 1) as u16);
        assert(mask_has(k, e) <==> u.contains(e));
    }
    lemma_mask_unique(k | (1u16 << i), u.insert(d));
    assert(mask_has(k, d) <==> u.contains(d));
}

} // verus!
