//! The line propagator: one forward scan and one backward scan over the
//! reachable sets of used digits prune each cell of a line to the digits that
//! some filling of the whole line gives it.

use vstd::prelude::*;
use crate::constraint::Constraint;
use crate::domain::Domain;
use crate::line::{
    lemma_meet, lemma_pruned_between, prefix_reach, propagate_spec, suffix_reach, supported, toggle,
    Line,
};

verus! {

/// Prunes a line: the result keeps, at each position, exactly the digits of
/// the input domain there that some filling of the line gives to that position.
/// If the line has no filling, every domain of the result is empty.
///
/// The forward scan steps over the domains as given. The backward scan steps
/// over each domain as it has just been pruned; over the domains as given it
/// would reach the same result.
pub fn check_constraints(inp: &Line) -> (out: Line)
    ensures
        out@ == propagate_spec(inp@),
{
    let ghost l = inp@;
    let ghost a = propagate_spec(l);
    let mut s_f: Vec<Constraint> = Vec::new();
    s_f.push(Constraint::start());
    let mut i: usize = 1;
    while i < 9
        invariant
            1 <= i <= 9,
            l == inp@,
            s_f.len() == i,
            forall|j: int| 0 <= j < i ==> (#[trigger] s_f[j]).pos == j,
            forall|j: int, u: Set<int>|
                0 <= j < i ==> (#[trigger] s_f[j].reaches(u) <==> prefix_reach(l, j, u)),
        decreases 9 - i,
    {
        let next = s_f[i - 1].fwd(&inp.cells[i - 1]);
        proof {
            let prev = s_f[i - 1];
            let cur = inp.cells[i - 1];
            assert(l[i - 1] == cur@);
            assert forall|u: Set<int>| #[trigger]
                next.reaches(u) <==> prefix_reach(l, i as int, u) by {
                if next.reaches(u) {
                    let d = choose|d: int|
                        cur@.contains(d) && u.contains(d) && prev.reaches(#[trigger] u.remove(d));
                    assert(prefix_reach(l, i - 1, u.remove(d)));
                }
                if prefix_reach(l, i as int, u) {
                    let d = choose|d: int|
                        1 <= d <= 9 && l[i - 1].contains(d) && u.contains(d) && prefix_reach(
                            l,
                            i - 1,
                            #[trigger] u.remove(d),
                        );
                    assert(prev.reaches(u.remove(d)));
                }
            }
        }
        s_f.push(next);
        i += 1;
    }
    let mut s_b = Constraint::goal();
    let nothing = Domain::empty();
    let mut ret = [nothing;9];
    let mut i: usize = 9;
    while i > 0
        invariant
            i <= 9,
            l == inp@,
            a == propagate_spec(l),
            s_f.len() == 9,
            forall|j: int, u: Set<int>|
                0 <= j < 9 ==> (#[trigger] s_f[j].reaches(u) <==> prefix_reach(l, j, u)),
            s_b.pos == i,
            forall|u: Set<int>| #[trigger] s_b.reaches(u) <==> suffix_reach(a, i as int, u),
            forall|j: int| i <= j < 9 ==> (#[trigger] ret[j])@ == a[j],
        decreases i,
    {
        i -= 1;
        let o = s_f[i].out(&s_b);
        let refined = o.intersect(&inp.cells[i]);
        proof {
            let left = s_f[i as int];
            assert(l[i as int] == inp.cells[i as int]@);
            lemma_pruned_between(l);
            assert forall|d: int| refined@.contains(d) == supported(l, i as int, d) by {
                lemma_meet(l, a, i as int, d);
                if refined@.contains(d) {
                    let w = choose|w: Set<int>| #[trigger]
                        left.reaches(w) && s_b.reaches(toggle(w, d));
                    assert(prefix_reach(l, i as int, w) && suffix_reach(a, i + 1, toggle(w, d)));
                }
                if supported(l, i as int, d) {
                    let k = choose|k: Set<int>| #[trigger]
                        prefix_reach(l, i as int, k) && suffix_reach(a, i + 1, toggle(k, d));
                    assert(left.reaches(k) && s_b.reaches(toggle(k, d)));
                }
            }
            assert(refined@ =~= a[i as int]);
        }
        ret[i] = refined;
        let pre = s_b.bwd(&refined);
        proof {
            assert forall|u: Set<int>| #[trigger]
                pre.reaches(u) <==> suffix_reach(a, i as int, u) by {
                if pre.reaches(u) {
                    let d = choose|d: int|
                        refined@.contains(d) && !u.contains(d) && s_b.reaches(
                            #[trigger] u.insert(d),
                        );
                    assert(suffix_reach(a, i + 1, u.insert(d)));
                    lemma_pruned_between(l);
                    assert(a[i as int].contains(d));
                }
                if suffix_reach(a, i as int, u) {
                    let d = choose|d: int|
                        1 <= d <= 9 && a[i as int].contains(d) && !u.contains(d) && suffix_reach(
                            a,
                            i + 1,
                            #[trigger] u.insert(d),
                        );
                    assert(s_b.reaches(u.insert(d)));
                }
            }
        }
        s_b = pre;
    }
    let out = Line { cells: ret };
    proof {
        assert(out@ =~= a);
    }
    out
}

} // verus!
