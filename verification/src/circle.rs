//! Widest empty arc between points on a circle.
use vstd::prelude::*;
use crate::sorting::{
    ascending, sorted_points, sort_points, lemma_sorted_points, lemma_sorted_points_unique,
    lemma_insert_to_multiset,
};

verus! {

broadcast use vstd::seq_lib::group_to_multiset_ensures, vstd::multiset::group_multiset_axioms;

/// The arc that wraps around the circle: from the last point of `s`, through
/// the circle's origin, back to its first point.
pub open spec fn wrap_arc(s: Seq<i64>, length: int) -> int {
    length - s.last() + s[0]
}

/// The arc from point `k - 1` to point `k` of `s`.
pub open spec fn arc(s: Seq<i64>, k: int) -> int {
    s[k] - s[k - 1]
}

/// The widest among the wraparound arc and the arcs ending at points `1..=k`.
pub open spec fn widest_arc(s: Seq<i64>, length: int, k: int) -> int
    decreases k,
{
    if k <= 0 {
        wrap_arc(s, length)
    } else {
        let rest = widest_arc(s, length, k - 1);
        if arc(s, k) > rest {
            arc(s, k)
        } else {
            rest
        }
    }
}

/// The widest empty arc between consecutive points of the ascending sequence
/// `s` on a circle of circumference `length`, the wraparound arc included:
/// none for no point, the whole circle for a single point.
pub open spec fn circle_largest_gap(s: Seq<i64>, length: int) -> Option<int> {
    if s.len() == 0 {
        None
    } else if s.len() == 1 {
        Some(length)
    } else {
        Some(widest_arc(s, length, s.len() - 1))
    }
}

/// The widest empty arc between the points `points`, taken in ascending order,
/// on a circle of circumference `length`.
pub open spec fn largest_gap_of(points: Seq<i64>, length: int) -> Option<int> {
    circle_largest_gap(sorted_points(points), length)
}

/// The widest arc is at least as wide as every arc it ranges over, and it is
/// one of them.
pub proof fn lemma_widest_arc(s: Seq<i64>, length: int, k: int)
    requires
        0 <= k < s.len(),
    ensures
        widest_arc(s, length, k) >= wrap_arc(s, length),
        forall|j: int| 1 <= j <= k ==> widest_arc(s, length, k) >= #[trigger] arc(s, j),
        widest_arc(s, length, k) == wrap_arc(s, length) || exists|j: int|
            1 <= j <= k && widest_arc(s, length, k) == #[trigger] arc(s, j),
    decreases k,
{
    if k > 0 {
        lemma_widest_arc(s, length, k - 1);
    }
}

/// Sorts `v` in place and returns the widest empty arc between its points on
/// a circle of circumference `length`, the arc that wraps around from the last
/// point back to the first included. `None` for no point; `length` for a
/// single point.
pub fn largest_gap(v: &mut Vec<i64>, length: i64) -> (r: Option<i128>)
    ensures
        final(v)@ == sorted_points(old(v)@),
        r is None <==> old(v)@.len() == 0,
        r matches Some(g) ==> largest_gap_of(old(v)@, length as int) == Some(g as int),
{
    if v.len() == 0 {
        proof {
            lemma_sorted_points(v@);
            assert(sorted_points(v@) =~= v@);
        }
        return None;
    }
    sort_points(v);
    proof {
        lemma_sorted_points(old(v)@);
    }
    let n = v.len();
    if n == 1 {
        return Some(length as i128);
    }
    let mut max_gap: i128 = length as i128 - v[n - 1] as i128 + v[0] as i128;
    let mut k: usize = 1;
    while k < n
        invariant
            1 <= k <= n,
            n == v@.len(),
            max_gap as int == widest_arc(v@, length as int, k - 1),
        decreases n - k,
    {
        let gap: i128 = v[k] as i128 - v[k - 1] as i128;
        if gap > max_gap {
            max_gap = gap;
        }
        k = k + 1;
    }
    Some(max_gap)
}

/// The widest gap depends only on which points there are, not on the order
/// in which they are given.
pub proof fn law_largest_gap_ignores_order(a: Seq<i64>, b: Seq<i64>, length: int)
    requires
        a.to_multiset() == b.to_multiset(),
    ensures
        largest_gap_of(a, length) == largest_gap_of(b, length),
{
    lemma_sorted_points(a);
    lemma_sorted_points_unique(b, sorted_points(a));
}

/// With at least two points, the widest gap is at least as wide as the
/// wraparound arc and every arc between consecutive points, and equals one
/// of them.
pub proof fn law_largest_gap_is_widest_arc(points: Seq<i64>, length: int)
    requires
        points.len() >= 2,
    ensures
        ({
            let s = sorted_points(points);
            let g = largest_gap_of(points, length)->0;
            &&& largest_gap_of(points, length) is Some
            &&& g >= wrap_arc(s, length)
            &&& forall|j: int| 1 <= j < s.len() ==> g >= #[trigger] arc(s, j)
            &&& (g == wrap_arc(s, length) || exists|j: int| 1 <= j < s.len() && g == #[trigger] arc(s, j))
        }),
{
    lemma_sorted_points(points);
    lemma_widest_arc(sorted_points(points), length, points.len() - 1);
}

/// The position at which `x` enters the ascending sequence `t`: after every
/// point not greater than `x`.
spec fn entry_pos(t: Seq<i64>, x: i64) -> int
    decreases t.len(),
{
    if t.len() == 0 {
        0
    } else if t.last() <= x {
        t.len() as int
    } else {
        entry_pos(t.drop_last(), x)
    }
}

proof fn lemma_entry_pos(t: Seq<i64>, x: i64)
    requires
        ascending(t),
    ensures
        0 <= entry_pos(t, x) <= t.len(),
        forall|j: int| 0 <= j < entry_pos(t, x) ==> t[j] <= x,
        forall|j: int| entry_pos(t, x) <= j < t.len() ==> t[j] > x,
        ascending(t.insert(entry_pos(t, x), x)),
    decreases t.len(),
{
    let p = entry_pos(t, x);
    if t.len() > 0 {
        if t.last() > x {
            let d = t.drop_last();
            assert(ascending(d));
            lemma_entry_pos(d, x);
            assert forall|j: int| 0 <= j < p implies t[j] <= x by {
                assert(t[j] == d[j]);
            }
            assert forall|j: int| p <= j < t.len() implies t[j] > x by {
                if j < t.len() - 1 {
                    assert(t[j] == d[j]);
                }
            }
        } else {
            assert forall|j: int| 0 <= j < p implies t[j] <= x by {
                if j < t.len() - 1 {
                    assert(t[j] <= t[t.len() - 1]);
                }
            }
        }
    }
    let u = t.insert(p, x);
    assert forall|a: int, b: int| 0 <= a < b < u.len() implies u[a] <= u[b] by {
        if b < p {
            assert(u[a] == t[a] && u[b] == t[b]);
        } else if b == p {
            assert(u[a] == t[a] && u[b] == x);
            assert(t[a] <= x);
        } else if a < p {
            assert(u[a] == t[a] && u[b] == t[b - 1]);
            assert(t[a] <= t[b - 1]);
        } else if a == p {
            assert(u[a] == x && u[b] == t[b - 1]);
            assert(t[b - 1] > x);
        } else {
            assert(u[a] == t[a - 1] && u[b] == t[b - 1]);
            assert(t[a - 1] <= t[b - 1]);
        }
    }
}

/// Points within `[0, length)`.
pub open spec fn within_circle(points: Seq<i64>, length: int) -> bool {
    forall|j: int| 0 <= j < points.len() ==> 0 <= #[trigger] points[j] < length
}

/// Sorting keeps the points within the circle.
pub proof fn lemma_sorted_within_circle(points: Seq<i64>, length: int)
    requires
        within_circle(points, length),
    ensures
        within_circle(sorted_points(points), length),
{
    let t = sorted_points(points);
    lemma_sorted_points(points);
    assert forall|j: int| 0 <= j < t.len() implies 0 <= #[trigger] t[j] < length by {
        assert(t.to_multiset().count(t[j]) > 0);
        assert(points.contains(t[j]));
    }
}

/// For points within `[0, length)` the widest gap lies within `[0, length]`.
pub proof fn law_largest_gap_bounded(points: Seq<i64>, length: int)
    requires
        points.len() >= 1,
        within_circle(points, length),
    ensures
        largest_gap_of(points, length) is Some,
        0 <= largest_gap_of(points, length)->0 <= length,
{
    lemma_sorted_points(points);
    lemma_sorted_within_circle(points, length);
    let s = sorted_points(points);
    if points.len() >= 2 {
        law_largest_gap_is_widest_arc(points, length);
        let g = largest_gap_of(points, length)->0;
        if g != wrap_arc(s, length) {
            let j = choose|j: int| 1 <= j < s.len() && g == #[trigger] arc(s, j);
            assert(s[j - 1] <= s[j]);
        } else {
            assert(s[0] <= s[s.len() - 1]);
        }
    } else {
        assert(points.len() == 1);
        assert(0 <= points[0] < length);
    }
}

/// Placing one more point on the circle never widens the widest gap, so long
/// as every point lies within `[0, length)`.
pub proof fn law_adding_point_never_widens_gap(points: Seq<i64>, x: i64, length: int)
    requires
        points.len() >= 1,
        within_circle(points, length),
        0 <= x < length,
    ensures
        largest_gap_of(points.push(x), length)->0 <= largest_gap_of(points, length)->0,
        largest_gap_of(points.push(x), length) is Some,
        largest_gap_of(points, length) is Some,
{
    let t = sorted_points(points);
    lemma_sorted_points(points);
    lemma_entry_pos(t, x);
    let p = entry_pos(t, x);
    let u = t.insert(p, x);
    lemma_insert_to_multiset(t, p, x);
    vstd::seq_lib::to_multiset_build(points, x);
    lemma_sorted_points_unique(points.push(x), u);
    let n: int = t.len() as int;
    lemma_sorted_within_circle(points, length);
    lemma_widest_arc(u, length, n);
    let gu = widest_arc(u, length, n);
    if n == 1 {
        if gu == wrap_arc(u, length) {
        } else {
            let j = choose|j: int| 1 <= j <= n && gu == #[trigger] arc(u, j);
            assert(j == 1);
        }
    } else {
        lemma_widest_arc(t, length, n - 1);
        let gt = widest_arc(t, length, n - 1);
        if gu == wrap_arc(u, length) {
            if p == 0 {
                assert(u[0] == x && u.last() == t.last());
            } else if p == n {
                assert(u[0] == t[0] && u.last() == x);
            } else {
                assert(u[0] == t[0] && u.last() == t.last());
            }
        } else {
            let j = choose|j: int| 1 <= j <= n && gu == #[trigger] arc(u, j);
            if j < p {
                assert(arc(u, j) == arc(t, j));
            } else if j == p {
                if p < n {
                    assert(arc(t, p) >= arc(u, j));
                } else {
                    assert(wrap_arc(t, length) >= arc(u, j));
                }
            } else if j == p + 1 {
                if p >= 1 {
                    assert(arc(t, p) >= arc(u, j));
                } else {
                    assert(t[n - 1] < length);
                    assert(wrap_arc(t, length) >= arc(u, j));
                }
            } else {
                assert(arc(u, j) == arc(t, j - 1));
            }
        }
    }
}

} // verus!
