//! Reachability over sets of used digits: which sets of digits a run of
//! positions of a line can take between them.
//!
//! A set of used digits is held as its mask, and the reachable sets as a
//! table of 512 flags, one for each mask.

use vstd::prelude::*;
use crate::bits::{
    bit16, lemma_bit_and, lemma_bit_set, lemma_mask_bound, lemma_mask_edit, lemma_mask_of,
    lemma_mask_roundtrip, lemma_mask_unique, mask_has, mask_of, mask_set, FULL_MASK, MASK_COUNT,
};
use crate::domain::{full_set, is_digit_set, lemma_bit_zero_all, Domain};
use crate::line::toggle;

verus! {

/// The sets of used digits that are reachable at one position of a line.
#[derive(Clone, Copy, Debug)]
pub struct Constraint {
    /// The set with mask `k` is reachable exactly if `reach[k]` holds.
    pub reach: [bool; 512],
    /// The position in the line, 0 to 9: the number of positions before it.
    pub pos: usize,
}

/// Whether a scan that stands at the mask `k` and the bit `v` has already
/// visited the mask `src` with the bit `i`.
pub open spec fn visited(src: u16, i: u16, k: int, v: int) -> bool {
    src < k || (src == k && i < v)
}

/// Whether the mask `t` arises from a reachable mask by adding bit `i`,
/// which `cur` permits.
pub open spec fn fwd_step(reach: [bool; 512], cur: u16, t: u16, i: u16) -> bool {
    bit16(t, i) && bit16(cur, i) && reach[(t & !(1u16 << i)) as int]
}

/// Whether the mask `t` arises from a reachable mask by removing bit `i`,
/// which `cur` permits.
pub open spec fn bwd_step(reach: [bool; 512], cur: u16, t: u16, i: u16) -> bool {
    !bit16(t, i) && bit16(cur, i) && reach[(t | (1u16 << i)) as int]
}

/// Whether `t` is reachable on the left and `t` with bit `i` toggled is
/// reachable on the right.
pub open spec fn out_step(left: [bool; 512], right: [bool; 512], t: int, i: u16) -> bool {
    0 <= t < 512 && left[t] && right[((t as u16) ^ (1u16 << i)) as int]
}

/// What the forward scan has filled in when it stands at (`k`, `v`).
pub open spec fn fwd_scanned(
    table: [bool; 512],
    reach: [bool; 512],
    cur: u16,
    k: int,
    v: int,
) -> bool {
    forall|t: int|
        0 <= t < 512 ==> (#[trigger] table[t] <==> exists|i: u16|
            i < 9 && #[trigger] fwd_step(reach, cur, t as u16, i) && visited(
                t as u16 & !(1u16 << i),
                i,
                k,
                v,
            ))
}

/// What the backward scan has filled in when it stands at (`k`, `v`).
pub open spec fn bwd_scanned(
    table: [bool; 512],
    reach: [bool; 512],
    cur: u16,
    k: int,
    v: int,
) -> bool {
    forall|t: int|
        0 <= t < 512 ==> (#[trigger] table[t] <==> exists|i: u16|
            i < 9 && #[trigger] bwd_step(reach, cur, t as u16, i) && visited(
                t as u16 | (1u16 << i),
                i,
                k,
                v,
            ))
}

/// What the combining scan has collected when it stands at (`k`, `v`).
pub open spec fn out_scanned(
    bits: u16,
    left: [bool; 512],
    right: [bool; 512],
    k: int,
    v: int,
) -> bool {
    forall|i: u16|
        i < 9 ==> (#[trigger] bit16(bits, i) <==> exists|t: int| #[trigger]
            out_step(left, right, t, i) && visited(t as u16, i, k, v))
}

/// One visit of the forward scan.
proof fn lemma_fwd_visit(
    before: [bool; 512],
    after: [bool; 512],
    reach: [bool; 512],
    cur: u16,
    k: u16,
    v: u16,
)
    requires
        k < 512,
        v < 9,
        reach[k as int],
        fwd_scanned(before, reach, cur, k as int, v as int),
        forall|t: int|
            0 <= t < 512 ==> #[trigger] after[t] == (before[t] || (!bit16(k, v) && bit16(cur, v)
                && t == (k | (1u16 << v)))),
    ensures
        fwd_scanned(after, reach, cur, k as int, v + 1),
{
    assert forall|t: int| 0 <= t < 512 implies (#[trigger] after[t] <==> exists|i: u16|
        i < 9 && #[trigger] fwd_step(reach, cur, t as u16, i) && visited(
            t as u16 & !(1u16 << i),
            i,
            k as int,
            v + 1,
        )) by {
        let tm = t as u16;
        lemma_mask_bound(tm, v);
        lemma_mask_bound(k, v);
        lemma_bit_set(tm, v, v);
        lemma_bit_set(k, v, v);
        if after[t] {
            if before[t] {
                let i = choose|i: u16|
                    i < 9 && #[trigger] fwd_step(reach, cur, tm, i) && visited(
                        tm & !(1u16 << i),
                        i,
                        k as int,
                        v as int,
                    );
                assert(visited(tm & !(1u16 << i), i, k as int, v + 1));
            } else {
                assert(fwd_step(reach, cur, tm, v));
                assert(visited(tm & !(1u16 << v), v, k as int, v + 1));
            }
        }
        if exists|i: u16|
            i < 9 && #[trigger] fwd_step(reach, cur, tm, i) && visited(
                tm & !(1u16 << i),
                i,
                k as int,
                v + 1,
            ) {
            let i = choose|i: u16|
                i < 9 && #[trigger] fwd_step(reach, cur, tm, i) && visited(
                    tm & !(1u16 << i),
                    i,
                    k as int,
                    v + 1,
                );
            if visited(tm & !(1u16 << i), i, k as int, v as int) {
                assert(before[t]);
            } else {
                assert(i == v && tm & !(1u16 << v) == k);
                assert(tm == k | (1u16 << v));
            }
        }
    }
}

/// One visit of the backward scan.
proof fn lemma_bwd_visit(
    before: [bool; 512],
    after: [bool; 512],
    reach: [bool; 512],
    cur: u16,
    k: u16,
    v: u16,
)
    requires
        k < 512,
        v < 9,
        reach[k as int],
        bwd_scanned(before, reach, cur, k as int, v as int),
        forall|t: int|
            0 <= t < 512 ==> #[trigger] after[t] == (before[t] || (bit16(k, v) && bit16(cur, v)
                && t == (k & !(1u16 << v)))),
    ensures
        bwd_scanned(after, reach, cur, k as int, v + 1),
{
    assert forall|t: int| 0 <= t < 512 implies (#[trigger] after[t] <==> exists|i: u16|
        i < 9 && #[trigger] bwd_step(reach, cur, t as u16, i) && visited(
            t as u16 | (1u16 << i),
            i,
            k as int,
            v + 1,
        )) by {
        let tm = t as u16;
        lemma_mask_bound(tm, v);
        lemma_mask_bound(k, v);
        lemma_bit_set(tm, v, v);
        lemma_bit_set(k, v, v);
        if after[t] {
            if before[t] {
                let i = choose|i: u16|
                    i < 9 && #[trigger] bwd_step(reach, cur, tm, i) && visited(
                        tm | (1u16 << i),
                        i,
                        k as int,
                        v as int,
                    );
                assert(visited(tm | (1u16 << i), i, k as int, v + 1));
            } else {
                assert(bwd_step(reach, cur, tm, v));
                assert(visited(tm | (1u16 << v), v, k as int, v + 1));
            }
        }
        if exists|i: u16|
            i < 9 && #[trigger] bwd_step(reach, cur, tm, i) && visited(
                tm | (1u16 << i),
                i,
                k as int,
                v + 1,
            ) {
            let i = choose|i: u16|
                i < 9 && #[trigger] bwd_step(reach, cur, tm, i) && visited(
                    tm | (1u16 << i),
                    i,
                    k as int,
                    v + 1,
                );
            if visited(tm | (1u16 << i), i, k as int, v as int) {
                assert(before[t]);
            } else {
                assert(i == v && tm | (1u16 << v) == k);
                assert(tm == k & !(1u16 << v));
            }
        }
    }
}

/// One visit of the combining scan.
proof fn lemma_out_visit(
    before: u16,
    after: u16,
    left: [bool; 512],
    right: [bool; 512],
    k: u16,
    v: u16,
)
    requires
        k < 512,
        v < 9,
        left[k as int],
        out_scanned(before, left, right, k as int, v as int),
        after == if right[(k ^ (1u16 << v)) as int] {
            before | (1u16 << v)
        } else {
            before
        },
    ensures
        out_scanned(after, left, right, k as int, v + 1),
{
    assert forall|i: u16| i < 9 implies (#[trigger] bit16(after, i) <==> exists|t: int| #[trigger]
        out_step(left, right, t, i) && visited(t as u16, i, k as int, v + 1)) by {
        lemma_bit_set(before, v, i);
        lemma_mask_bound(k, v);
        if bit16(after, i) {
            if bit16(before, i) {
                let t = choose|t: int| #[trigger]
                    out_step(left, right, t, i) && visited(t as u16, i, k as int, v as int);
                assert(visited(t as u16, i, k as int, v + 1));
            } else {
                assert(out_step(left, right, k as int, v));
                assert(visited(k, v, k as int, v + 1));
            }
        }
        if exists|t: int| #[trigger]
            out_step(left, right, t, i) && visited(t as u16, i, k as int, v + 1) {
            let t = choose|t: int| #[trigger]
                out_step(left, right, t, i) && visited(t as u16, i, k as int, v + 1);
            if visited(t as u16, i, k as int, v as int) {
                assert(bit16(before, i));
            } else {
                assert(i == v && t == k);
            }
        }
    }
}

impl Constraint {
    /// Whether the set of digits `u` is reachable.
    pub open spec fn reaches(&self, u: Set<int>) -> bool {
        is_digit_set(u) && self.reach[mask_of(u) as int]
    }

    /// The state before the first position: nothing is used yet.
    pub fn start() -> (r: Constraint)
        ensures
            r.pos == 0,
            forall|u: Set<int>| #[trigger] r.reaches(u) <==> u == Set::<int>::empty(),
    {
        let mut reach = [false;512];
        reach[0] = true;
        let r = Constraint { reach, pos: 0 };
        proof {
            assert forall|u: Set<int>| #[trigger] r.reaches(u) <==> u == Set::<int>::empty() by {
                lemma_mask_of(u);
                lemma_bit_zero_all();
                if r.reaches(u) {
                    assert forall|d: int| !u.contains(d) by {
                        if u.contains(d) {
                            assert(mask_has(mask_of(u), d));
                        }
                    }
                    assert(u =~= Set::<int>::empty());
                }
                if u == Set::<int>::empty() {
                    lemma_mask_unique(0, u);
                }
            }
        }
        r
    }

    /// The state after the last position: every digit is used.
    pub fn goal() -> (r: Constraint)
        ensures
            r.pos == 9,
            forall|u: Set<int>| #[trigger] r.reaches(u) <==> u == full_set(),
    {
        let mut reach = [false;512];
        reach[511] = true;
        let r = Constraint { reach, pos: 9 };
        proof {
            assert forall|d: int| 1 <= d <= 9 implies #[trigger] mask_has(FULL_MASK, d) by {
                lemma_bit_and(0, 0, (d - 1) as u16);
            }
            assert forall|u: Set<int>| #[trigger] r.reaches(u) <==> u == full_set() by {
                lemma_mask_of(u);
                if r.reaches(u) {
                    assert forall|d: int| u.contains(d) == full_set().contains(d) by {
                        if 1 <= d <= 9 {
                            assert(mask_has(mask_of(u), d));
                        }
                    }
                    assert(u =~= full_set());
                }
                if u == full_set() {
                    lemma_mask_unique(FULL_MASK, u);
                }
            }
        }
        r
    }

    /// Steps over one position whose domain is `cur`: a set becomes reachable
    /// when it is a reachable set with one more digit, which `cur` permits.
    pub fn fwd(&self, cur: &Domain) -> (post: Constraint)
        requires
            self.pos < 9,
        ensures
            post.pos == self.pos + 1,
            forall|u: Set<int>| #[trigger]
                post.reaches(u) <==> exists|d: int|
                    cur@.contains(d) && u.contains(d) && self.reaches(#[trigger] u.remove(d)),
    {
        let mut reach = [false;512];
        let mut k: usize = 0;
        while k < MASK_COUNT
            invariant
                k <= 512,
                fwd_scanned(reach, self.reach, cur.bits, k as int, 0),
            decreases 512 - k,
        {
            if self.reach[k] {
                let src = k as u16;
                let mut v: u16 = 0;
                while v < 9
                    invariant
                        k < 512,
                        src == k,
                        v <= 9,
                        self.reach[k as int],
                        fwd_scanned(reach, self.reach, cur.bits, k as int, v as int),
                    decreases 9 - v,
                {
                    let ghost before = reach;
                    if (src >> v) & 1 != 1 && (cur.bits >> v) & 1 == 1 {
                        proof {
                            lemma_mask_bound(src, v);
                        }
                        reach[(src | (1u16 << v)) as usize] = true;
                    }
                    proof {
                        lemma_fwd_visit(before, reach, self.reach, cur.bits, src, v);
                    }
                    v += 1;
                }
            }
            k += 1;
        }
        let post = Constraint { reach, pos: self.pos + 1 };
        proof {
            assert forall|u: Set<int>| #[trigger]
                post.reaches(u) <==> exists|d: int|
                    cur@.contains(d) && u.contains(d) && self.reaches(#[trigger] u.remove(d)) by {
                lemma_mask_of(u);
                let t = mask_of(u);
                if post.reaches(u) {
                    let i = choose|i: u16|
                        i < 9 && #[trigger] fwd_step(self.reach, cur.bits, t, i) && visited(
                            t & !(1u16 << i),
                            i,
                            512,
                            0,
                        );
                    let d = i + 1;
                    lemma_mask_edit(u, d);
                    assert(mask_has(t, d));
                    assert(mask_has(cur.bits, d));
                    assert(self.reaches(u.remove(d)));
                }
                if exists|d: int|
                    cur@.contains(d) && u.contains(d) && self.reaches(#[trigger] u.remove(d)) {
                    let d = choose|d: int|
                        cur@.contains(d) && u.contains(d) && self.reaches(#[trigger] u.remove(d));
                    let i = (d - 1) as u16;
                    lemma_mask_edit(u, d);
                    lemma_mask_bound(t, i);
                    assert(mask_has(t, d));
                    assert(fwd_step(self.reach, cur.bits, t, i));
                    assert(visited(t & !(1u16 << i), i, 512, 0));
                    assert forall|e: int| u.contains(e) implies 1 <= e <= 9 by {
                        if e != d {
                            assert(u.remove(d).contains(e));
                        }
                    }
                    assert(reach[t as int]);
                }
            }
        }
        post
    }

    /// Steps back over one position whose domain is `cur`: a set becomes
    /// reachable when it is a reachable set with one digit less, which `cur`
    /// permits.
    pub fn bwd(&self, cur: &Domain) -> (pre: Constraint)
        requires
            self.pos > 0,
        ensures
            pre.pos == self.pos - 1,
            forall|u: Set<int>| #[trigger]
                pre.reaches(u) <==> exists|d: int|
                    cur@.contains(d) && !u.contains(d) && self.reaches(#[trigger] u.insert(d)),
    {
        let mut reach = [false;512];
        let mut k: usize = 0;
        while k < MASK_COUNT
            invariant
                k <= 512,
                bwd_scanned(reach, self.reach, cur.bits, k as int, 0),
            decreases 512 - k,
        {
            if self.reach[k] {
                let src = k as u16;
                let mut v: u16 = 0;
                while v < 9
                    invariant
                        k < 512,
                        src == k,
                        v <= 9,
                        self.reach[k as int],
                        bwd_scanned(reach, self.reach, cur.bits, k as int, v as int),
                    decreases 9 - v,
                {
                    let ghost before = reach;
                    if (src >> v) & 1 == 1 && (cur.bits >> v) & 1 == 1 {
                        proof {
                            lemma_mask_bound(src, v);
                        }
                        reach[(src & !(1u16 << v)) as usize] = true;
                    }
                    proof {
                        lemma_bwd_visit(before, reach, self.reach, cur.bits, src, v);
                    }
                    v += 1;
                }
            }
            k += 1;
        }
        let pre = Constraint { reach, pos: self.pos - 1 };
        proof {
            assert forall|u: Set<int>| #[trigger]
                pre.reaches(u) <==> exists|d: int|
                    cur@.contains(d) && !u.contains(d) && self.reaches(#[trigger] u.insert(d)) by {
                lemma_mask_of(u);
                let t = mask_of(u);
                if pre.reaches(u) {
                    let i = choose|i: u16|
                        i < 9 && #[trigger] bwd_step(self.reach, cur.bits, t, i) && visited(
                            t | (1u16 << i),
                            i,
                            512,
                            0,
                        );
                    let d = i + 1;
                    lemma_mask_edit(u, d);
                    assert(mask_has(t, d) <==> u.contains(d));
                    assert(mask_has(cur.bits, d));
                    assert(self.reaches(u.insert(d)));
                }
                if exists|d: int|
                    cur@.contains(d) && !u.contains(d) && self.reaches(#[trigger] u.insert(d)) {
                    let d = choose|d: int|
                        cur@.contains(d) && !u.contains(d) && self.reaches(#[trigger] u.insert(d));
                    let i = (d - 1) as u16;
                    lemma_mask_edit(u, d);
                    lemma_mask_bound(t, i);
                    assert(mask_has(t, d) <==> u.contains(d));
                    assert(bwd_step(self.reach, cur.bits, t, i));
                    assert(visited(t | (1u16 << i), i, 512, 0));
                    assert forall|e: int| u.contains(e) implies 1 <= e <= 9 by {
                        assert(u.insert(d).contains(e));
                    }
                    assert(reach[t as int]);
                }
            }
        }
        pre
    }

    /// The digits `d` for which some reachable set of `self`, with `d`
    /// toggled, is a reachable set of `post`.
    pub fn out(&self, post: &Constraint) -> (r: Domain)
        ensures
            forall|d: int| #[trigger]
                r@.contains(d) <==> 1 <= d <= 9 && exists|w: Set<int>| #[trigger]
                    self.reaches(w) && post.reaches(toggle(w, d)),
    {
        let mut bits: u16 = 0;
        let mut k: usize = 0;
        proof {
            assert forall|i: u16| i < 9 implies !#[trigger] bit16(0u16, i) by {
                lemma_bit_and(0, 0, i);
            }
        }
        while k < MASK_COUNT
            invariant
                k <= 512,
                bits < 512,
                out_scanned(bits, self.reach, post.reach, k as int, 0),
            decreases 512 - k,
        {
            if self.reach[k] {
                let src = k as u16;
                let mut v: u16 = 0;
                while v < 9
                    invariant
                        k < 512,
                        src == k,
                        v <= 9,
                        bits < 512,
                        self.reach[k as int],
                        out_scanned(bits, self.reach, post.reach, k as int, v as int),
                    decreases 9 - v,
                {
                    let ghost before = bits;
                    proof {
                        lemma_mask_bound(src, v);
                        lemma_mask_bound(bits, v);
                    }
                    if post.reach[(src ^ (1u16 << v)) as usize] {
                        bits = bits | (1u16 << v);
                    }
                    proof {
                        lemma_out_visit(before, bits, self.reach, post.reach, src, v);
                    }
                    v += 1;
                }
            }
            k += 1;
        }
        let r = Domain { bits };
        proof {
            assert forall|d: int| #[trigger]
                r@.contains(d) <==> 1 <= d <= 9 && exists|w: Set<int>| #[trigger]
                    self.reaches(w) && post.reaches(toggle(w, d)) by {
                if r@.contains(d) {
                    let i = (d - 1) as u16;
                    assert(bit16(bits, i));
                    let t = choose|t: int| #[trigger]
                        out_step(self.reach, post.reach, t, i) && visited(t as u16, i, 512, 0);
                    let w = mask_set(t as u16);
                    lemma_mask_roundtrip(t as u16);
                    lemma_mask_edit(w, d);
                    assert(self.reaches(w));
                    assert forall|e: int| toggle(w, d).contains(e) implies 1 <= e <= 9 by {
                        if e != d {
                            assert(w.contains(e));
                        }
                    }
                    assert(post.reaches(toggle(w, d)));
                }
                if 1 <= d <= 9 && exists|w: Set<int>| #[trigger]
                    self.reaches(w) && post.reaches(toggle(w, d)) {
                    let w = choose|w: Set<int>| #[trigger]
                        self.reaches(w) && post.reaches(toggle(w, d));
                    let i = (d - 1) as u16;
                    let t = mask_of(w);
                    lemma_mask_of(w);
                    lemma_mask_edit(w, d);
                    assert(out_step(self.reach, post.reach, t as int, i));
                    assert(visited(t, i, 512, 0));
                    assert(bit16(bits, i));
                }
            }
        }
        r
    }
}

} // verus!
