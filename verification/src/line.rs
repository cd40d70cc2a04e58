//! What it means for a line of nine cells to be filled with nine distinct
//! digits, and which digits of each cell can take part in such a filling.

use vstd::prelude::*;
use crate::domain::{count_below, digit_count, full_set, is_digit_set, Domain};

verus! {

/// The domains of one row, one column or one block, in a fixed order.
#[derive(Clone, Copy, Debug, PartialEq, Eq)]
pub struct Line {
    /// The domain at each of the nine positions.
    pub cells: [Domain; 9],
}

impl View for Line {
    type V = Seq<Set<int>>;

    open spec fn view(&self) -> Seq<Set<int>> {
        Seq::new(9, |i: int| self.cells[i]@)
    }
}

/// Whether `p` fills the line `l`: each position takes a digit of its own
/// domain and no digit is taken twice.
pub open spec fn is_line_solution(l: Seq<Set<int>>, p: Seq<int>) -> bool {
    &&& p.len() == 9
    &&& forall|i: int| 0 <= i < 9 ==> 1 <= #[trigger] p[i] <= 9 && l[i].contains(p[i])
    &&& forall|i: int, j: int| 0 <= i < j < 9 ==> p[i] != p[j]
}

/// Whether the digit `d` at position `i` takes part in some filling of `l`.
pub open spec fn supported(l: Seq<Set<int>>, i: int, d: int) -> bool {
    exists|p: Seq<int>| #[trigger] is_line_solution(l, p) && p[i] == d
}

/// The line in which each position keeps exactly its supported digits.
pub open spec fn propagate_spec(l: Seq<Set<int>>) -> Seq<Set<int>> {
    Seq::new(9, |i: int| Set::new(|d: int| supported(l, i, d)))
}

/// Whether the positions before `i` can take, between them, exactly the
/// digits of `u`, each from its own domain.
pub open spec fn prefix_reach(l: Seq<Set<int>>, i: int, u: Set<int>) -> bool
    decreases i,
{
    if i <= 0 {
        u == Set::<int>::empty()
    } else {
        exists|d: int|
            1 <= d <= 9 && l[i - 1].contains(d) && u.contains(d) && prefix_reach(
                l,
                i - 1,
                #[trigger] u.remove(d),
            )
    }
}

/// Whether the positions from `i` on can take, between them, exactly the
/// digits that are not in `u`, each from its own domain.
pub open spec fn suffix_reach(l: Seq<Set<int>>, i: int, u: Set<int>) -> bool
    decreases 9 - i,
{
    if i >= 9 {
        u == full_set()
    } else {
        exists|d: int|
            1 <= d <= 9 && l[i].contains(d) && !u.contains(d) && suffix_reach(
                l,
                i + 1,
                #[trigger] u.insert(d),
            )
    }
}

/// `k` with the digit `d` taken out if it is in, put in if it is not.
pub open spec fn toggle(k: Set<int>, d: int) -> Set<int> {
    if k.contains(d) {
        k.remove(d)
    } else {
        k.insert(d)
    }
}

/// The digits that `s` gives to the positions before `i`.
pub open spec fn taken_before(s: Seq<int>, i: int) -> Set<int> {
    Set::new(|w: int| exists|m: int| 0 <= m < i && #[trigger] s[m] == w)
}

/// Taking a digit out of a set, or putting a new one in, changes the count by one.
pub proof fn lemma_count_step(u: Set<int>, d: int)
    requires
        1 <= d <= 9,
    ensures
        u.contains(d) ==> digit_count(u.remove(d)) == digit_count(u) - 1,
        !u.contains(d) ==> digit_count(u.insert(d)) == digit_count(u) + 1,
{
    reveal_with_fuel(count_below, 10);
}

/// A filling of nine positions with nine distinct digits uses every digit.
pub proof fn lemma_solution_onto(l: Seq<Set<int>>, s: Seq<int>)
    requires
        is_line_solution(l, s),
    ensures
        taken_before(s, 9) == full_set(),
{
    assert(s.no_duplicates());
    s.unique_seq_to_set();
    let used = s.to_set();
    let all = vstd::set_lib::set_int_range(1, 10);
    vstd::set_lib::lemma_int_range(1, 10);
    assert(used.subset_of(all)) by {
        assert forall|w: int| used.contains(w) implies all.contains(w) by {
            let m = choose|m: int| 0 <= m < s.len() && s[m] == w;
            assert(1 <= s[m] <= 9);
        }
    }
    vstd::set_lib::lemma_len_subset(used, all);
    vstd::set_lib::lemma_subset_equality(used, all);
    assert forall|w: int| taken_before(s, 9).contains(w) == full_set().contains(w) by {
        if full_set().contains(w) {
            assert(all.contains(w));
            assert(used.contains(w));
            let m = choose|m: int| 0 <= m < s.len() && s[m] == w;
            assert(0 <= m < 9 && s[m] == w);
        }
        if taken_before(s, 9).contains(w) {
            let m = choose|m: int| 0 <= m < 9 && #[trigger] s[m] == w;
            assert(1 <= s[m] <= 9);
        }
    }
    assert(taken_before(s, 9) =~= full_set());
}

/// A set that the positions before `i` can take has `i` digits, and some
/// choice of distinct digits, one from each of those domains, lies inside it.
pub proof fn lemma_prefix_witness(l: Seq<Set<int>>, i: int, u: Set<int>) -> (p: Seq<int>)
    requires
        0 <= i <= 9,
        prefix_reach(l, i, u),
    ensures
        is_digit_set(u),
        digit_count(u) == i,
        p.len() == 9,
        forall|m: int|
            0 <= m < i ==> 1 <= #[trigger] p[m] <= 9 && l[m].contains(p[m]) && u.contains(p[m]),
        forall|m: int, n: int| 0 <= m < n < i ==> p[m] != p[n],
    decreases i,
{
    if i == 0 {
        reveal_with_fuel(count_below, 10);
        Seq::new(9, |m: int| 0int)
    } else {
        let d = choose|d: int|
            1 <= d <= 9 && l[i - 1].contains(d) && u.contains(d) && prefix_reach(
                l,
                i - 1,
                #[trigger] u.remove(d),
            );
        let q = lemma_prefix_witness(l, i - 1, u.remove(d));
        lemma_count_step(u, d);
        let p = q.update(i - 1, d);
        assert forall|m: int| 0 <= m < i implies 1 <= #[trigger] p[m] <= 9 && l[m].contains(p[m])
            && u.contains(p[m]) by {
            if m < i - 1 {
                assert(u.remove(d).contains(q[m]));
            }
        }
        assert forall|m: int, n: int| 0 <= m < n < i implies p[m] != p[n] by {
            assert(u.remove(d).contains(q[m]));
        }
        assert forall|e: int| u.contains(e) implies 1 <= e <= 9 by {
            if e != d {
                assert(u.remove(d).contains(e));
            }
        }
        p
    }
}

/// The digits that a filling gives to the positions before `i` are a set
/// that those positions can take.
pub proof fn lemma_prefix_complete(l: Seq<Set<int>>, s: Seq<int>, i: int)
    requires
        0 <= i <= 9,
        is_line_solution(l, s),
    ensures
        prefix_reach(l, i, taken_before(s, i)),
    decreases i,
{
    let u = taken_before(s, i);
    if i == 0 {
        assert(u =~= Set::<int>::empty());
    } else {
        let d = s[i - 1];
        lemma_prefix_complete(l, s, i - 1);
        assert(u.contains(d));
        assert(u.remove(d) =~= taken_before(s, i - 1)) by {
            assert forall|w: int| u.remove(d).contains(w) == taken_before(s, i - 1).contains(w) by {
                if u.remove(d).contains(w) {
                    let m = choose|m: int| 0 <= m < i && #[trigger] s[m] == w;
                    assert(m != i - 1);
                    assert(0 <= m < i - 1 && s[m] == w);
                }
                if taken_before(s, i - 1).contains(w) {
                    let m = choose|m: int| 0 <= m < i - 1 && #[trigger] s[m] == w;
                    assert(0 <= m < i && s[m] == w);
                    assert(m < i - 1);
                    assert(s[m] != s[i - 1]);
                }
            }
        }
        assert(prefix_reach(l, i - 1, u.remove(d)));
    }
}

/// A set that leaves exactly the digits for the positions from `i` on has `i`
/// digits, and some choice of distinct digits, one from each of those domains,
/// lies outside it.
pub proof fn lemma_suffix_witness(l: Seq<Set<int>>, i: int, u: Set<int>) -> (q: Seq<int>)
    requires
        0 <= i <= 9,
        suffix_reach(l, i, u),
    ensures
        is_digit_set(u),
        digit_count(u) == i,
        q.len() == 9,
        forall|m: int|
            i <= m < 9 ==> 1 <= #[trigger] q[m] <= 9 && l[m].contains(q[m]) && !u.contains(q[m]),
        forall|m: int, n: int| i <= m < n < 9 ==> q[m] != q[n],
    decreases 9 - i,
{
    if i == 9 {
        reveal_with_fuel(count_below, 10);
        Seq::new(9, |m: int| 0int)
    } else {
        let d = choose|d: int|
            1 <= d <= 9 && l[i].contains(d) && !u.contains(d) && suffix_reach(
                l,
                i + 1,
                #[trigger] u.insert(d),
            );
        let r = lemma_suffix_witness(l, i + 1, u.insert(d));
        lemma_count_step(u, d);
        let q = r.update(i, d);
        assert forall|m: int| i <= m < 9 implies 1 <= #[trigger] q[m] <= 9 && l[m].contains(q[m])
            && !u.contains(q[m]) by {
            if m > i {
                assert(!u.insert(d).contains(r[m]));
            }
        }
        assert forall|m: int, n: int| i <= m < n < 9 implies q[m] != q[n] by {
            assert(!u.insert(d).contains(r[n]));
        }
        assert forall|e: int| u.contains(e) implies 1 <= e <= 9 by {
            assert(u.insert(d).contains(e));
        }
        q
    }
}

/// The digits that a filling gives to the positions before `i` leave exactly
/// the digits that it gives to the positions from `i` on.
pub proof fn lemma_suffix_complete(l: Seq<Set<int>>, full: Seq<Set<int>>, s: Seq<int>, i: int)
    requires
        0 <= i <= 9,
        is_line_solution(full, s),
        forall|m: int| i <= m < 9 ==> l[m].contains(#[trigger] s[m]),
    ensures
        suffix_reach(l, i, taken_before(s, i)),
    decreases 9 - i,
{
    let u = taken_before(s, i);
    if i == 9 {
        lemma_solution_onto(full, s);
    } else {
        let d = s[i];
        lemma_suffix_complete(l, full, s, i + 1);
        assert(!u.contains(d)) by {
            if u.contains(d) {
                let m = choose|m: int| 0 <= m < i && #[trigger] s[m] == d;
                assert(s[m] != s[i]);
            }
        }
        assert(u.insert(d) =~= taken_before(s, i + 1)) by {
            assert forall|w: int| u.insert(d).contains(w) == taken_before(s, i + 1).contains(w) by {
                if u.insert(d).contains(w) {
                    if w == d {
                        assert(0 <= i < i + 1 && s[i] == w);
                    } else {
                        let m = choose|m: int| 0 <= m < i && #[trigger] s[m] == w;
                        assert(0 <= m < i + 1 && s[m] == w);
                    }
                }
                if taken_before(s, i + 1).contains(w) {
                    let m = choose|m: int| 0 <= m < i + 1 && #[trigger] s[m] == w;
                    if m < i {
                        assert(0 <= m < i && s[m] == w);
                    }
                }
            }
        }
        assert(1 <= s[i] <= 9);
        assert(suffix_reach(l, i + 1, u.insert(d)));
    }
}

/// The digit `d` is supported at position `i` exactly if it is in the domain
/// there and some set that the positions before `i` can take, with `d`
/// toggled, leaves exactly the digits for the positions after `i`. For those
/// positions any domains `a` serve that lie between the supported digits and
/// the domains of `l`: both the pruned domains and the domains as given.
pub proof fn lemma_meet(l: Seq<Set<int>>, a: Seq<Set<int>>, i: int, d: int)
    requires
        0 <= i < 9,
        forall|m: int, e: int|
            i < m < 9 ==> (supported(l, m, e) ==> #[trigger] a[m].contains(e)) && (a[m].contains(e)
                ==> l[m].contains(e)),
    ensures
        supported(l, i, d) <==> (1 <= d <= 9 && l[i].contains(d) && exists|k: Set<int>|
            #[trigger] prefix_reach(l, i, k) && suffix_reach(a, i + 1, toggle(k, d))),
{
    if supported(l, i, d) {
        let s = choose|s: Seq<int>| #[trigger] is_line_solution(l, s) && s[i] == d;
        let k = taken_before(s, i);
        lemma_prefix_complete(l, s, i);
        assert forall|m: int| i + 1 <= m < 9 implies a[m].contains(#[trigger] s[m]) by {
            assert(supported(l, m, s[m]));
        }
        lemma_suffix_complete(a, l, s, i + 1);
        assert(!k.contains(d)) by {
            if k.contains(d) {
                let m = choose|m: int| 0 <= m < i && #[trigger] s[m] == d;
                assert(s[m] != s[i]);
            }
        }
        assert(toggle(k, d) =~= taken_before(s, i + 1)) by {
            assert forall|w: int| k.insert(d).contains(w) == taken_before(s, i + 1).contains(w) by {
                if k.insert(d).contains(w) {
                    if w == d {
                        assert(0 <= i < i + 1 && s[i] == w);
                    } else {
                        let m = choose|m: int| 0 <= m < i && #[trigger] s[m] == w;
                        assert(0 <= m < i + 1 && s[m] == w);
                    }
                }
                if taken_before(s, i + 1).contains(w) {
                    let m = choose|m: int| 0 <= m < i + 1 && #[trigger] s[m] == w;
                    if m < i {
                        assert(0 <= m < i && s[m] == w);
                    }
                }
            }
        }
        assert(1 <= s[i] <= 9 && l[i].contains(s[i]));
        assert(prefix_reach(l, i, k) && suffix_reach(a, i + 1, toggle(k, d)));
    }
    if 1 <= d <= 9 && l[i].contains(d) && exists|k: Set<int>|
        #[trigger] prefix_reach(l, i, k) && suffix_reach(a, i + 1, toggle(k, d)) {
        let k = choose|k: Set<int>|
            #[trigger] prefix_reach(l, i, k) && suffix_reach(a, i + 1, toggle(k, d));
        let p = lemma_prefix_witness(l, i, k);
        let q = lemma_suffix_witness(a, i + 1, toggle(k, d));
        lemma_count_step(k, d);
        assert(!k.contains(d));
        let s = Seq::new(
            9,
            |m: int|
                if m < i {
                    p[m]
                } else if m == i {
                    d
                } else {
                    q[m]
                },
        );
        assert forall|m: int| 0 <= m < 9 implies 1 <= #[trigger] s[m] <= 9 && l[m].contains(
            s[m],
        ) by {
            if m < i {
                assert(l[m].contains(p[m]));
            } else if m > i {
                assert(a[m].contains(q[m]));
            }
        }
        assert forall|m: int, n: int| 0 <= m < n < 9 implies s[m] != s[n] by {
            if m < i {
                assert(k.contains(p[m]));
                if n > i {
                    assert(!toggle(k, d).contains(q[n]));
                }
            } else if m == i {
                assert(!toggle(k, d).contains(q[n]));
            } else {
                assert(q[m] != q[n]);
            }
        }
        assert(is_line_solution(l, s) && s[i] == d);
    }
}

/// The pruned domains lie between the supported digits and the domains as given.
pub proof fn lemma_pruned_between(l: Seq<Set<int>>)
    ensures
        forall|m: int, e: int|
            0 <= m < 9 ==> (supported(l, m, e) ==> #[trigger] propagate_spec(l)[m].contains(e)) && (
            propagate_spec(l)[m].contains(e) ==> l[m].contains(e) && 1 <= e <= 9),
{
    assert forall|m: int, e: int| 0 <= m < 9 && #[trigger] propagate_spec(l)[m].contains(
        e,
    ) implies l[m].contains(e) && 1 <= e <= 9 by {
        let p = choose|p: Seq<int>| #[trigger] is_line_solution(l, p) && p[m] == e;
        assert(1 <= p[m] <= 9 && l[m].contains(p[m]));
    }
}

/// Whether the line `l` has a filling.
pub open spec fn has_filling(l: Seq<Set<int>>) -> bool {
    exists|p: Seq<int>| is_line_solution(l, p)
}

/// The unsolvable line: a line with a filling keeps a digit at every
/// position, and a line without one keeps none at any. One empty domain in a
/// pruned line therefore shows that the line cannot be filled.
pub proof fn lemma_unsolvable_line(l: Seq<Set<int>>, i: int)
    requires
        0 <= i < 9,
    ensures
        has_filling(l) <==> exists|d: int| #[trigger] propagate_spec(l)[i].contains(d),
{
    if has_filling(l) {
        let p = choose|p: Seq<int>| is_line_solution(l, p);
        assert(supported(l, i, p[i]));
        assert(propagate_spec(l)[i].contains(p[i]));
    }
    if exists|d: int| #[trigger] propagate_spec(l)[i].contains(d) {
        let d = choose|d: int| #[trigger] propagate_spec(l)[i].contains(d);
        assert(supported(l, i, d));
    }
}

} // verus!
