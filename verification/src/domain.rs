//! The set of digits that are still possible for one cell.

use vstd::prelude::*;
use crate::bits::{lemma_bit_and, lemma_bit_set, mask_has, mask_set, FULL_MASK};

verus! {

/// The set of all nine digits.
pub open spec fn full_set() -> Set<int> {
    Set::new(|d: int| 1 <= d <= 9)
}

/// Whether every member of `u` is a digit.
pub open spec fn is_digit_set(u: Set<int>) -> bool {
    forall|d: int| u.contains(d) ==> 1 <= d <= 9
}

/// How many of the digits 1 to `n` are in `u`.
pub open spec fn count_below(u: Set<int>, n: int) -> int
    decreases n,
{
    if n <= 0 {
        0
    } else {
        count_below(u, n - 1) + if u.contains(n) {
            1int
        } else {
            0int
        }
    }
}

/// How many digits are in `u`.
pub open spec fn digit_count(u: Set<int>) -> int {
    count_below(u, 9)
}

/// The digits 1 to `n` that are in `u`, in ascending order.
pub open spec fn digits_below(u: Set<int>, n: int) -> Seq<int>
    decreases n,
{
    if n <= 0 {
        Seq::empty()
    } else if u.contains(n) {
        digits_below(u, n - 1).push(n)
    } else {
        digits_below(u, n - 1)
    }
}

/// The digits of `u` in ascending order.
pub open spec fn digit_list(u: Set<int>) -> Seq<int> {
    digits_below(u, 9)
}

/// The digits that a byte sequence names; bytes that are no digit name none.
pub open spec fn digits_named(s: Seq<u8>) -> Set<int> {
    Set::new(|d: int| 1 <= d <= 9 && exists|i: int| 0 <= i < s.len() && #[trigger] s[i] == d)
}

/// A set of digits, one bit for each digit.
#[derive(Clone, Copy, Debug, PartialEq, Eq)]
pub struct Domain {
    /// Bit `d - 1` is set exactly if the digit `d` is in the set. The bits
    /// above the ninth stand for nothing.
    pub bits: u16,
}

impl View for Domain {
    type V = Set<int>;

    open spec fn view(&self) -> Set<int> {
        mask_set(self.bits)
    }
}

impl Domain {
    /// The domain with no digit: the cell cannot be filled.
    pub fn empty() -> (r: Domain)
        ensures
            r@ == Set::<int>::empty(),
    {
        let r = Domain { bits: 0 };
        proof {
            assert forall|d: int| !r@.contains(d) by {
                if 1 <= d <= 9 {
                    lemma_bit_and(0, 0, (d - 1) as u16);
                }
            }
            assert(r@ =~= Set::<int>::empty());
        }
        r
    }

    /// The domain of an unknown cell: every digit is possible.
    pub fn full() -> (r: Domain)
        ensures
            r@ == full_set(),
    {
        let r = Domain { bits: FULL_MASK };
        proof {
            assert forall|d: int| r@.contains(d) == full_set().contains(d) by {
                if 1 <= d <= 9 {
                    lemma_bit_and(0, 0, (d - 1) as u16);
                }
            }
            assert(r@ =~= full_set());
        }
        r
    }

    /// The domain of a resolved cell: only `d` is possible.
    pub fn single(d: u8) -> (r: Domain)
        requires
            1 <= d <= 9,
        ensures
            r@ == set![d as int],
    {
        let r = Domain { bits: 1u16 << (d - 1) };
        proof {
            assert forall|e: int| r@.contains(e) == (e == d) by {
                if 1 <= e <= 9 {
                    lemma_bit_set(0, (d - 1) as u16, (e - 1) as u16);
                }
            }
            assert(r@ =~= set![d as int]);
        }
        r
    }

    /// The domain of the digits among `digits`.
    pub fn from_digits(digits: &[u8]) -> (r: Domain)
        ensures
            r@ == digits_named(digits@),
    {
        let mut bits: u16 = 0;
        let mut i: usize = 0;
        proof {
            lemma_bit_zero_all();
        }
        while i < digits.len()
            invariant
                i <= digits.len(),
                forall|d: int|
                    1 <= d <= 9 ==> (#[trigger] mask_has(bits, d) <==> exists|j: int|
                        0 <= j < i && #[trigger] digits@[j] == d),
            decreases digits.len() - i,
        {
            let d = digits[i];
            if 1 <= d && d <= 9 {
                let ghost old_bits = bits;
                bits = bits | (1u16 << (d - 1));
                proof {
                    assert forall|e: int| 1 <= e <= 9 implies (#[trigger] mask_has(bits, e)
                        <==> exists|j: int| 0 <= j < i + 1 && #[trigger] digits@[j] == e) by {
                        lemma_bit_set(old_bits, (d - 1) as u16, (e - 1) as u16);
                        if mask_has(old_bits, e) {
                            let j = choose|j: int| 0 <= j < i && #[trigger] digits@[j] == e;
                            assert(0 <= j < i + 1 && digits@[j] == e);
                        }
                        if e == d {
                            assert(digits@[i as int] == e);
                        }
                    }
                }
            } else {
                proof {
                    assert forall|e: int| 1 <= e <= 9 implies (#[trigger] mask_has(bits, e)
                        <==> exists|j: int| 0 <= j < i + 1 && #[trigger] digits@[j] == e) by {
                        if mask_has(bits, e) {
                            let j = choose|j: int| 0 <= j < i && #[trigger] digits@[j] == e;
                            assert(0 <= j < i + 1 && digits@[j] == e);
                        }
                    }
                }
            }
            i += 1;
        }
        let r = Domain { bits };
        proof {
            assert(r@ =~= digits_named(digits@));
        }
        r
    }

    /// Whether the digit `d` is still possible.
    pub fn contains(&self, d: u8) -> (b: bool)
        ensures
            b == self@.contains(d as int),
    {
        1 <= d && d <= 9 && (self.bits >> (d - 1)) & 1 == 1
    }

    /// The digits possible in both domains.
    pub fn intersect(&self, other: &Domain) -> (r: Domain)
        ensures
            r@ == self@.intersect(other@),
    {
        let r = Domain { bits: self.bits & other.bits };
        proof {
            assert forall|d: int| r@.contains(d) == (self@.contains(d) && other@.contains(d)) by {
                if 1 <= d <= 9 {
                    lemma_bit_and(self.bits, other.bits, (d - 1) as u16);
                }
            }
            assert(r@ =~= self@.intersect(other@));
        }
        r
    }

    /// The number of digits that are still possible.
    pub fn count(&self) -> (n: usize)
        ensures
            n == digit_count(self@),
            n == self@.len(),
            n <= 9,
    {
        proof {
            lemma_count_is_len(self@);
        }
        let mut n: usize = 0;
        let mut d: u8 = 1;
        while d <= 9
            invariant
                1 <= d <= 10,
                n == count_below(self@, d - 1),
                n <= d - 1,
            decreases 10 - d,
        {
            if self.contains(d) {
                n += 1;
            }
            d += 1;
        }
        n
    }

    /// The digits that are still possible, in ascending order.
    pub fn digits(&self) -> (v: Vec<u8>)
        ensures
            v@.map_values(|x: u8| x as int) == digit_list(self@),
    {
        let mut v: Vec<u8> = Vec::new();
        let mut d: u8 = 1;
        while d <= 9
            invariant
                1 <= d <= 10,
                v@.map_values(|x: u8| x as int) == digits_below(self@, d - 1),
            decreases 10 - d,
        {
            if self.contains(d) {
                let ghost before = v@.map_values(|x: u8| x as int);
                v.push(d);
                proof {
                    assert(v@.map_values(|x: u8| x as int) =~= before.push(d as int));
                }
            }
            d += 1;
        }
        v
    }
}

/// The empty mask holds no digit.
pub proof fn lemma_bit_zero_all()
    ensures
        forall|d: int| 1 <= d <= 9 ==> !#[trigger] mask_has(0u16, d),
{
    assert forall|d: int| 1 <= d <= 9 implies !#[trigger] mask_has(0u16, d) by {
        lemma_bit_and(0, 0, (d - 1) as u16);
    }
}

/// The list of the digits of a set is as long as the set is large.
pub proof fn lemma_digits_len(u: Set<int>, n: int)
    requires
        0 <= n,
    ensures
        digits_below(u, n).len() == count_below(u, n),
        0 <= count_below(u, n) <= n,
    decreases n,
{
    if n > 0 {
        lemma_digits_len(u, n - 1);
    }
}

/// The list of the digits of a set holds exactly the digits of the set, in
/// ascending order.
pub proof fn lemma_digits_members(u: Set<int>, n: int)
    requires
        0 <= n,
    ensures
        forall|i: int|
            0 <= i < digits_below(u, n).len() ==> 1 <= #[trigger] digits_below(u, n)[i] <= n
                && u.contains(digits_below(u, n)[i]),
        forall|d: int|
            1 <= d <= n && u.contains(d) ==> exists|i: int|
                0 <= i < digits_below(u, n).len() && #[trigger] digits_below(u, n)[i] == d,
        forall|i: int, j: int|
            0 <= i < j < digits_below(u, n).len() ==> digits_below(u, n)[i] < digits_below(u, n)[j],
    decreases n,
{
    if n > 0 {
        lemma_digits_members(u, n - 1);
        let prev = digits_below(u, n - 1);
        let cur = digits_below(u, n);
        assert forall|d: int| 1 <= d <= n && u.contains(d) implies exists|i: int|
            0 <= i < cur.len() && #[trigger] cur[i] == d by {
            if d == n {
                assert(cur[cur.len() - 1] == d);
            } else {
                let i = choose|i: int| 0 <= i < prev.len() && #[trigger] prev[i] == d;
                assert(cur[i] == d);
            }
        }
    }
}

/// A smaller set has no more digits.
pub proof fn lemma_count_subset(a: Set<int>, b: Set<int>, n: int)
    requires
        0 <= n,
        forall|d: int| 1 <= d <= n && a.contains(d) ==> b.contains(d),
    ensures
        count_below(a, n) <= count_below(b, n),
    decreases n,
{
    if n > 0 {
        lemma_count_subset(a, b, n - 1);
    }
}

/// The count of the digits 1 to `n` of a set is the size of that part of the set.
pub proof fn lemma_count_below_len(u: Set<int>, n: int)
    requires
        0 <= n,
    ensures
        u.intersect(vstd::set_lib::set_int_range(1, n + 1)).finite(),
        u.intersect(vstd::set_lib::set_int_range(1, n + 1)).len() == count_below(u, n),
    decreases n,
{
    let part = u.intersect(vstd::set_lib::set_int_range(1, n + 1));
    if n == 0 {
        assert(part =~= Set::<int>::empty());
    } else {
        lemma_count_below_len(u, n - 1);
        let before = u.intersect(vstd::set_lib::set_int_range(1, n));
        if u.contains(n) {
            assert(part =~= before.insert(n));
        } else {
            assert(part =~= before);
        }
    }
}

/// A set of digits is finite, and its count of digits is its size.
pub proof fn lemma_count_is_len(u: Set<int>)
    requires
        is_digit_set(u),
    ensures
        u.finite(),
        u.len() == digit_count(u),
{
    lemma_count_below_len(u, 9);
    assert(u.intersect(vstd::set_lib::set_int_range(1, 10)) =~= u);
}

} // verus!
