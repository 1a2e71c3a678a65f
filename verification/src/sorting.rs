//! Sorting of circle positions and of (time, position) pairs.
use vstd::prelude::*;
use vstd::relations::{sorted_by, total_ordering};
use vstd::seq_lib::{lemma_sorted_unique, to_multiset_build, to_multiset_remove};

verus! {

broadcast use vstd::seq_lib::group_to_multiset_ensures, vstd::multiset::group_multiset_axioms;

/// `s` is in ascending order.
pub open spec fn ascending(s: Seq<i64>) -> bool {
    forall|a: int, b: int| 0 <= a < b < s.len() ==> s[a] <= s[b]
}

proof fn lemma_ascending_sorted_by(s: Seq<i64>)
    ensures
        ascending(s) <==> sorted_by(s, |a: i64, b: i64| a <= b),
{
    let leq = |a: i64, b: i64| a <= b;
    if sorted_by(s, leq) {
        assert forall|a: int, b: int| 0 <= a < b < s.len() implies s[a] <= s[b] by {
            assert(leq(s[a], s[b]));
        }
    }
    if ascending(s) {
        assert forall|a: int, b: int| 0 <= a < b < s.len() implies #[trigger] leq(s[a], s[b]) by {
        }
    }
}

/// The ascending arrangement of the points of `s`.
pub open spec fn sorted_points(s: Seq<i64>) -> Seq<i64> {
    s.sort_by(|a: i64, b: i64| a <= b)
}

proof fn lemma_le_is_total()
    ensures
        total_ordering(|a: i64, b: i64| a <= b),
{
}

/// The ascending arrangement is in ascending order and holds exactly the
/// points of `s`.
pub proof fn lemma_sorted_points(s: Seq<i64>)
    ensures
        ascending(sorted_points(s)),
        sorted_points(s).to_multiset() == s.to_multiset(),
        sorted_points(s).len() == s.len(),
{
    lemma_le_is_total();
    s.lemma_sort_by_ensures(|a: i64, b: i64| a <= b);
    lemma_ascending_sorted_by(sorted_points(s));
    s.to_multiset_ensures();
    sorted_points(s).to_multiset_ensures();
}

/// An ascending sequence that holds exactly the points of `s` is the
/// ascending arrangement of `s`.
pub proof fn lemma_sorted_points_unique(s: Seq<i64>, t: Seq<i64>)
    requires
        ascending(t),
        t.to_multiset() == s.to_multiset(),
    ensures
        t == sorted_points(s),
{
    lemma_le_is_total();
    lemma_sorted_points(s);
    lemma_ascending_sorted_by(t);
    lemma_ascending_sorted_by(sorted_points(s));
    lemma_sorted_unique(t, sorted_points(s), |a: i64, b: i64| a <= b);
}

/// Inserting an element anywhere adds it once to the multiset.
pub proof fn lemma_insert_to_multiset<A>(s: Seq<A>, pos: int, x: A)
    requires
        0 <= pos <= s.len(),
    ensures
        s.insert(pos, x).to_multiset() == s.to_multiset().insert(x),
{
    let t = s.insert(pos, x);
    assert(t.remove(pos) =~= s);
    to_multiset_remove(t, pos);
    assert(t[pos] == x);
    assert(t.contains(x));
    assert(t.to_multiset().count(x) > 0);
    assert(t.to_multiset() =~= s.to_multiset().insert(x));
}

/// Rearranges `v` into ascending order.
pub fn sort_points(v: &mut Vec<i64>)
    ensures
        final(v)@ == sorted_points(old(v)@),
{
    let mut out: Vec<i64> = Vec::new();
    let mut i: usize = 0;
    while i < v.len()
        invariant
            i <= v.len(),
            ascending(out@),
            out@.to_multiset() == v@.take(i as int).to_multiset(),
        decreases v.len() - i,
    {
        let x = v[i];
        let mut pos: usize = out.len();
        while pos > 0 && out[pos - 1] > x
            invariant
                pos <= out.len(),
                forall|j: int| pos <= j < out.len() ==> out@[j] > x,
            decreases pos,
        {
            pos = pos - 1;
        }
        let ghost before = out@;
        out.insert(pos, x);
        proof {
            assert forall|a: int, b: int| 0 <= a < b < out@.len() implies out@[a] <= out@[b] by {
                if b < pos {
                    assert(before[a] <= before[b]);
                } else if b == pos {
                    if a < pos {
                        assert(before[a] <= before[pos - 1]);
                    }
                } else if a < pos {
                    assert(before[a] <= before[b - 1]);
                } else if a == pos {
                } else {
                    assert(before[a - 1] <= before[b - 1]);
                }
            }
            lemma_insert_to_multiset(before, pos as int, x);
            assert(v@.take(i as int + 1) =~= v@.take(i as int).push(x));
            to_multiset_build(v@.take(i as int), x);
        }
        i = i + 1;
    }
    proof {
        assert(v@.take(v@.len() as int) =~= v@);
        lemma_sorted_points_unique(v@, out@);
    }
    *v = out;
}

/// A (time, position) pair.
pub type Event = (i64, i64);

/// `s` is ordered by time.
pub open spec fn time_ascending(s: Seq<Event>) -> bool {
    forall|a: int, b: int| 0 <= a <= b < s.len() ==> s[a].0 <= s[b].0
}

/// The events of `s` that happen at time `k`, in their order in `s`.
pub open spec fn at_time(s: Seq<Event>, k: i64) -> Seq<Event> {
    s.filter(|e: Event| e.0 == k)
}

/// `x` placed into `s` after every event of `s`'s final run that is not later
/// than `x`.
pub open spec fn insert_by_time(s: Seq<Event>, x: Event) -> Seq<Event>
    decreases s.len(),
{
    if s.len() == 0 {
        seq![x]
    } else if s.last().0 <= x.0 {
        s.push(x)
    } else {
        insert_by_time(s.drop_last(), x).push(s.last())
    }
}

/// The stable arrangement of `s` by time: events ordered by time, events at
/// equal times in the order they were given.
pub open spec fn sort_by_time(s: Seq<Event>) -> Seq<Event>
    decreases s.len(),
{
    if s.len() == 0 {
        s
    } else {
        insert_by_time(sort_by_time(s.drop_last()), s.last())
    }
}

proof fn lemma_insert_by_time_at(s: Seq<Event>, x: Event, pos: int)
    requires
        0 <= pos <= s.len(),
        forall|j: int| pos <= j < s.len() ==> s[j].0 > x.0,
        pos == 0 || s[pos - 1].0 <= x.0,
    ensures
        insert_by_time(s, x) == s.insert(pos, x),
    decreases s.len(),
{
    if s.len() == 0 {
        assert(s.insert(pos, x) =~= seq![x]);
    } else if pos == s.len() {
        assert(s.insert(pos, x) =~= s.push(x));
    } else {
        lemma_insert_by_time_at(s.drop_last(), x, pos);
        assert(s.drop_last().insert(pos, x).push(s.last()) =~= s.insert(pos, x));
    }
}

proof fn lemma_insert_by_time_len(s: Seq<Event>, x: Event)
    ensures
        insert_by_time(s, x).len() == s.len() + 1,
    decreases s.len(),
{
    if s.len() > 0 && s.last().0 > x.0 {
        lemma_insert_by_time_len(s.drop_last(), x);
    }
}

proof fn lemma_insert_by_time_ascending(s: Seq<Event>, x: Event)
    requires
        time_ascending(s),
    ensures
        time_ascending(insert_by_time(s, x)),
        insert_by_time(s, x).len() == s.len() + 1,
        insert_by_time(s, x).last().0 >= x.0,
        s.len() > 0 ==> insert_by_time(s, x).last().0 == if s.last().0 <= x.0 {
            x.0
        } else {
            s.last().0
        },
    decreases s.len(),
{
    lemma_insert_by_time_len(s, x);
    if s.len() == 0 {
    } else if s.last().0 <= x.0 {
    } else {
        let d = s.drop_last();
        lemma_insert_by_time_ascending(d, x);
        let r = insert_by_time(d, x);
        assert forall|a: int, b: int| 0 <= a <= b < r.len() + 1 implies r.push(
            s.last(),
        )[a].0 <= r.push(s.last())[b].0 by {
            if b == r.len() && a < r.len() {
                assert(r[a].0 <= r.last().0);
                if d.len() > 0 {
                    assert(d.last().0 <= s.last().0);
                }
            }
        }
    }
}

proof fn lemma_insert_by_time_at_time(s: Seq<Event>, x: Event, k: i64)
    ensures
        at_time(insert_by_time(s, x), k) == if x.0 == k {
            at_time(s, k).push(x)
        } else {
            at_time(s, k)
        },
    decreases s.len(),
{
    broadcast use Seq::lemma_filter_push;

    let p = |e: Event| e.0 == k;
    if s.len() == 0 {
        assert(s.push(x) =~= seq![x]);
        assert(at_time(s, k) == Seq::<Event>::empty()) by {
            reveal(Seq::filter);
        }
    } else if s.last().0 <= x.0 {
    } else {
        let d = s.drop_last();
        lemma_insert_by_time_at_time(d, x, k);
        assert(d.push(s.last()) =~= s);
    }
}

/// Stable arrangement: ordered by time.
pub proof fn law_sort_by_time_ascending(s: Seq<Event>)
    ensures
        time_ascending(sort_by_time(s)),
        sort_by_time(s).len() == s.len(),
    decreases s.len(),
{
    if s.len() > 0 {
        law_sort_by_time_ascending(s.drop_last());
        lemma_insert_by_time_ascending(sort_by_time(s.drop_last()), s.last());
    }
}

/// Stable arrangement: the events at any one time keep their order, and none
/// is lost or added.
pub proof fn law_sort_by_time_stable(s: Seq<Event>, k: i64)
    ensures
        at_time(sort_by_time(s), k) == at_time(s, k),
    decreases s.len(),
{
    broadcast use Seq::lemma_filter_push;

    if s.len() == 0 {
    } else {
        let d = s.drop_last();
        law_sort_by_time_stable(d, k);
        lemma_insert_by_time_at_time(sort_by_time(d), s.last(), k);
        assert(d.push(s.last()) =~= s);
    }
}

/// The events formed from two equally long sequences of times and positions.
pub open spec fn events_of(times: Seq<i64>, positions: Seq<i64>) -> Seq<Event> {
    Seq::new(times.len(), |j: int| (times[j], positions[j]))
}

/// Stable arrangement by time of the events `(t0[j], phi0[j])`, returned as
/// the times and the positions in their new order.
pub fn sort_events_by_time(t0: Vec<i64>, phi0: Vec<i64>) -> (r: (Vec<i64>, Vec<i64>))
    requires
        t0.len() == phi0.len(),
    ensures
        r.0.len() == t0.len(),
        r.1.len() == t0.len(),
        events_of(r.0@, r.1@) == sort_by_time(events_of(t0@, phi0@)),
{
    let ghost all = events_of(t0@, phi0@);
    let mut times: Vec<i64> = Vec::new();
    let mut positions: Vec<i64> = Vec::new();
    let mut i: usize = 0;
    while i < t0.len()
        invariant
            i <= t0.len(),
            t0.len() == phi0.len(),
            all == events_of(t0@, phi0@),
            times.len() == positions.len(),
            events_of(times@, positions@) == sort_by_time(all.take(i as int)),
        decreases t0.len() - i,
    {
        let x: Event = (t0[i], phi0[i]);
        let ghost before = events_of(times@, positions@);
        let mut pos: usize = times.len();
        while pos > 0 && times[pos - 1] > x.0
            invariant
                pos <= times.len(),
                times.len() == positions.len(),
                before == events_of(times@, positions@),
                forall|j: int| pos <= j < times.len() ==> before[j].0 > x.0,
            decreases pos,
        {
            pos = pos - 1;
        }
        times.insert(pos, x.0);
        positions.insert(pos, x.1);
        proof {
            lemma_insert_by_time_at(before, x, pos as int);
            assert(events_of(times@, positions@) =~= before.insert(pos as int, x));
            assert(all.take(i as int + 1).drop_last() =~= all.take(i as int));
            assert(all.take(i as int + 1).last() == x);
        }
        i = i + 1;
    }
    proof {
        assert(all.take(t0.len() as int) =~= all);
        law_sort_by_time_ascending(all);
    }
    (times, positions)
}

} // verus!
