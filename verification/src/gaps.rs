//! Gap analysis of repeated passes over a circle.
//!
//! Each of `n` satellites crosses the circle (the equator) first at time
//! `t0[i]` and position `phi0[i]`; every further round adds `dt` to the time
//! and `dphi` to the position. Passes are taken in time order, one per step,
//! and after each step the widest empty arc between all positions crossed so
//! far is reported. Times and positions are integers in units of the caller's
//! choice; the circle has circumference `length` in the position unit.
use vstd::prelude::*;
use crate::circle::{
    largest_gap, largest_gap_of, law_largest_gap_ignores_order, within_circle,
    law_adding_point_never_widens_gap, law_largest_gap_bounded,
};
use crate::sorting::{
    Event, events_of, sort_by_time, sort_events_by_time, sorted_points, lemma_sorted_points,
};

verus! {

broadcast use vstd::seq_lib::group_to_multiset_ensures, vstd::multiset::group_multiset_axioms;

/// Remainder of `x` by the positive modulus `m`, rounded toward zero: it has
/// the sign of `x` and magnitude below `m`.
pub open spec fn trunc_rem(x: int, m: int) -> int {
    if x >= 0 {
        x % m
    } else {
        -((-x) % m)
    }
}

/// `x` is representable as an `i64`.
pub open spec fn in_i64(x: int) -> bool {
    i64::MIN <= x <= i64::MAX
}

/// Time of step `k`: satellite `k % n` in round `k / n`.
pub open spec fn step_time(times: Seq<i64>, dt: int, k: int) -> int {
    times[k % (times.len() as int)] + dt * (k / (times.len() as int))
}

/// Position of step `k`: satellite `k % n` in round `k / n`, reduced toward
/// zero modulo `length`.
pub open spec fn step_position(positions: Seq<i64>, dphi: int, length: int, k: int) -> int {
    trunc_rem(positions[k % (positions.len() as int)] + dphi * (k / (positions.len() as int)), length)
}

/// Every intermediate value of step `k` is representable as an `i64`.
pub open spec fn step_fits(times: Seq<i64>, positions: Seq<i64>, dt: int, dphi: int, k: int) -> bool {
    let n = times.len() as int;
    let round = k / n;
    &&& round <= i64::MAX
    &&& in_i64(dt * round)
    &&& in_i64(times[k % n] + dt * round)
    &&& in_i64(dphi * round)
    &&& in_i64(positions[k % n] + dphi * round)
}

/// Positions of the first `m` steps.
pub open spec fn positions_upto(positions: Seq<i64>, dphi: int, length: int, m: int) -> Seq<i64> {
    Seq::new(m as nat, |j: int| step_position(positions, dphi, length, j) as i64)
}

/// Times of the first `m` steps.
pub open spec fn times_upto(times: Seq<i64>, dt: int, m: int) -> Seq<i64> {
    Seq::new(m as nat, |j: int| step_time(times, dt, j) as i64)
}

/// Outcome of one step of the gap analysis.
#[derive(Clone, Copy, Debug, PartialEq, Eq, Structural)]
pub struct Gap {
    /// Time of the pass taken at this step.
    pub new_t: i64,
    /// Position of the pass taken at this step.
    pub new_phi: i64,
    /// Widest empty arc between all positions crossed so far.
    pub largest_gap: i128,
}

/// The outcome of step `k`.
pub open spec fn gap_at(
    length: int,
    times: Seq<i64>,
    positions: Seq<i64>,
    dt: int,
    dphi: int,
    k: int,
) -> Gap {
    Gap {
        new_t: step_time(times, dt, k) as i64,
        new_phi: step_position(positions, dphi, length, k) as i64,
        largest_gap: (largest_gap_of(positions_upto(positions, dphi, length, k + 1), length)->0) as i128,
    }
}

/// Step `k` can be taken: its counter has a successor and its values fit.
pub open spec fn step_runs(times: Seq<i64>, positions: Seq<i64>, dt: int, dphi: int, k: int) -> bool {
    k < usize::MAX && step_fits(times, positions, dt, dphi, k)
}

/// The times of a sequence of events.
pub open spec fn times_of(events: Seq<Event>) -> Seq<i64> {
    events.map_values(|e: Event| e.0)
}

/// The positions of a sequence of events.
pub open spec fn positions_of(events: Seq<Event>) -> Seq<i64> {
    events.map_values(|e: Event| e.1)
}

proof fn lemma_events_split(times: Seq<i64>, positions: Seq<i64>)
    requires
        times.len() == positions.len(),
    ensures
        times_of(events_of(times, positions)) == times,
        positions_of(events_of(times, positions)) == positions,
{
    assert(times_of(events_of(times, positions)) =~= times);
    assert(positions_of(events_of(times, positions)) =~= positions);
}

/// Step-by-step gap analysis of the passes of several satellites over a
/// circle.
#[derive(Debug)]
pub struct PointGaps {
    length: i64,
    phi: Vec<i64>,
    t: Vec<i64>,
    t0: Vec<i64>,
    phi0: Vec<i64>,
    dt: i64,
    dphi: i64,
    i: usize,
}

impl PointGaps {
    /// Circumference of the circle.
    pub closed spec fn circumference(&self) -> int {
        self.length as int
    }

    /// First-pass times of the satellites, in ascending order.
    pub closed spec fn times(&self) -> Seq<i64> {
        self.t0@
    }

    /// First-pass positions of the satellites, in the order of `times`.
    pub closed spec fn positions(&self) -> Seq<i64> {
        self.phi0@
    }

    /// Time added per round.
    pub closed spec fn time_step(&self) -> int {
        self.dt as int
    }

    /// Position added per round.
    pub closed spec fn position_step(&self) -> int {
        self.dphi as int
    }

    /// Number of steps taken so far.
    pub closed spec fn steps(&self) -> int {
        self.i as int
    }

    /// Internal consistency of the analysis.
    pub closed spec fn wf(&self) -> bool {
        &&& self.length > 0
        &&& self.t0@.len() == self.phi0@.len()
        &&& self.t0@.len() > 0
        &&& forall|j: int|
            0 <= j < self.i ==> #[trigger] step_fits(
                self.t0@,
                self.phi0@,
                self.dt as int,
                self.dphi as int,
                j,
            )
        &&& self.phi@ == sorted_points(
            positions_upto(self.phi0@, self.dphi as int, self.length as int, self.i as int),
        )
        &&& self.t@ == seq![self.t0@[0]] + times_upto(self.t0@, self.dt as int, self.i as int)
    }

    /// What a well-formed analysis guarantees of its schedule: a positive
    /// circumference within `i64`, at least one satellite with as many
    /// first-pass positions as times, and every step taken so far runnable.
    pub proof fn lemma_schedule_facts(&self)
        requires
            self.wf(),
        ensures
            0 < self.circumference() <= i64::MAX,
            self.times().len() == self.positions().len(),
            self.times().len() > 0,
            i64::MIN <= self.time_step() <= i64::MAX,
            i64::MIN <= self.position_step() <= i64::MAX,
            0 <= self.steps() <= usize::MAX,
            forall|j: int| 0 <= j < self.steps() ==> #[trigger] self.runs(j),
    {
    }

    /// Both analyses run on the same circle, satellites and round steps.
    pub open spec fn same_schedule(&self, other: &Self) -> bool {
        &&& self.circumference() == other.circumference()
        &&& self.times() == other.times()
        &&& self.positions() == other.positions()
        &&& self.time_step() == other.time_step()
        &&& self.position_step() == other.position_step()
    }

    /// Step `k` can be taken.
    pub open spec fn runs(&self, k: int) -> bool {
        step_runs(self.times(), self.positions(), self.time_step(), self.position_step(), k)
    }

    /// The outcome of step `k`.
    pub open spec fn gap(&self, k: int) -> Gap {
        gap_at(
            self.circumference(),
            self.times(),
            self.positions(),
            self.time_step(),
            self.position_step(),
            k,
        )
    }

    /// Starts the analysis on a circle of circumference `length`, for
    /// satellites whose first passes are at times `t0` and positions `phi0`,
    /// each later round `delta_t` later and `delta_phi` further on. The
    /// satellites are taken in ascending order of first-pass time; those with
    /// equal times keep their given order.
    pub fn new(length: i64, t0: Vec<i64>, phi0: Vec<i64>, delta_t: i64, delta_phi: i64) -> (r: Self)
        requires
            t0.len() == phi0.len(),
            t0.len() > 0,
            length > 0,
        ensures
            r.wf(),
            r.steps() == 0,
            r.circumference() == length,
            r.time_step() == delta_t,
            r.position_step() == delta_phi,
            r.times() == times_of(sort_by_time(events_of(t0@, phi0@))),
            r.positions() == positions_of(sort_by_time(events_of(t0@, phi0@))),
            r.times().len() == t0.len(),
    {
        let (times, positions) = sort_events_by_time(t0, phi0);
        proof {
            lemma_events_split(times@, positions@);
            lemma_sorted_points(Seq::<i64>::empty());
            assert(positions_upto(positions@, delta_phi as int, length as int, 0) =~= Seq::<
                i64,
            >::empty());
            assert(sorted_points(Seq::<i64>::empty()) =~= Seq::<i64>::empty());
            assert(seq![times@[0]] + times_upto(times@, delta_t as int, 0) =~= seq![times@[0]]);
        }
        let mut t: Vec<i64> = Vec::new();
        t.push(times[0]);
        PointGaps {
            length,
            phi: Vec::new(),
            t,
            t0: times,
            phi0: positions,
            dt: delta_t,
            dphi: delta_phi,
            i: 0,
        }
    }

    /// Takes the next step: the next pass in time order. `None`, with
    /// nothing changed, once the step counter or a time or position of the
    /// step would leave its integer type.
    pub fn next(&mut self) -> (r: Option<Gap>)
        requires
            old(self).wf(),
        ensures
            final(self).wf(),
            final(self).same_schedule(old(self)),
            r is Some <==> old(self).runs(old(self).steps()),
            r matches Some(g) ==> g == old(self).gap(old(self).steps()) && final(self).steps()
                == old(self).steps() + 1,
            r is None ==> final(self).steps() == old(self).steps(),
    {
        let n = self.phi0.len();
        if self.i == usize::MAX {
            return None;
        }
        let round_u = self.i / n;
        let idx = self.i % n;
        if round_u as u64 > i64::MAX as u64 {
            return None;
        }
        let round = round_u as i64;
        let dtk = match self.dt.checked_mul(round) {
            Some(x) => x,
            None => return None,
        };
        let new_t = match self.t0[idx].checked_add(dtk) {
            Some(x) => x,
            None => return None,
        };
        let dpk = match self.dphi.checked_mul(round) {
            Some(x) => x,
            None => return None,
        };
        let raw_phi = match self.phi0[idx].checked_add(dpk) {
            Some(x) => x,
            None => return None,
        };
        let new_phi = raw_phi.checked_rem(self.length).unwrap();
        let ghost k = self.i as int;
        let ghost before = positions_upto(self.phi0@, self.dphi as int, self.length as int, k);
        let ghost after = positions_upto(self.phi0@, self.dphi as int, self.length as int, k + 1);
        let ghost old_phi = self.phi@;
        proof {
            assert(step_fits(self.t0@, self.phi0@, self.dt as int, self.dphi as int, k));
            assert(new_phi as int == step_position(
                self.phi0@,
                self.dphi as int,
                self.length as int,
                k,
            ));
            assert(new_t as int == step_time(self.t0@, self.dt as int, k));
            assert(after =~= before.push(new_phi));
            lemma_sorted_points(before);
            assert(old_phi.push(new_phi).to_multiset() =~= after.to_multiset()) by {
                vstd::seq_lib::to_multiset_build(old_phi, new_phi);
                vstd::seq_lib::to_multiset_build(before, new_phi);
            }
            law_largest_gap_ignores_order(old_phi.push(new_phi), after, self.length as int);
            assert(times_upto(self.t0@, self.dt as int, k + 1) =~= times_upto(
                self.t0@,
                self.dt as int,
                k,
            ).push(new_t));
        }
        self.t.push(new_t);
        self.phi.push(new_phi);
        let lg = largest_gap(&mut self.phi, self.length).unwrap();
        self.i = self.i + 1;
        proof {
            lemma_sorted_points(old_phi.push(new_phi));
            crate::sorting::lemma_sorted_points_unique(after, self.phi@);
            assert(self.t@ =~= seq![self.t0@[0]] + times_upto(self.t0@, self.dt as int, k + 1));
            assert forall|j: int| 0 <= j < self.i implies #[trigger] step_fits(
                self.t0@,
                self.phi0@,
                self.dt as int,
                self.dphi as int,
                j,
            ) by {
                if j < k {
                    assert(step_fits(self.t0@, self.phi0@, self.dt as int, self.dphi as int, j));
                }
            }
        }
        Some(Gap { new_t, new_phi, largest_gap: lg })
    }

    /// Takes up to `count` steps and returns their outcomes; fewer only when
    /// a step cannot be taken (see `next`).
    pub fn take(self, count: usize) -> (r: Vec<Gap>)
        requires
            self.wf(),
        ensures
            r.len() <= count,
            forall|j: int|
                0 <= j < r.len() ==> self.runs(self.steps() + j) && #[trigger] r@[j] == self.gap(
                    self.steps() + j,
                ),
            r.len() < count ==> !self.runs(self.steps() + r.len()),
    {
        let ghost start = self;
        let mut pg = self;
        let mut out: Vec<Gap> = Vec::new();
        let mut done = false;
        while !done && out.len() < count
            invariant
                pg.wf(),
                pg.same_schedule(&start),
                pg.steps() == start.steps() + out.len(),
                out.len() <= count,
                forall|j: int|
                    0 <= j < out.len() ==> start.runs(start.steps() + j) && #[trigger] out@[j]
                        == start.gap(start.steps() + j),
                done ==> !start.runs(start.steps() + out.len()),
            decreases count - out.len() + (if done { 0int } else { 1int }),
        {
            match pg.next() {
                Some(g) => {
                    out.push(g);
                },
                None => {
                    done = true;
                },
            }
        }
        out
    }
}

/// While every step's position stays within `[0, length)`, the widest gap
/// reported never grows from one step to the next.
pub proof fn law_gaps_never_widen_on_circle(
    length: int,
    times: Seq<i64>,
    positions: Seq<i64>,
    dt: int,
    dphi: int,
    k: int,
)
    requires
        0 < length <= i64::MAX,
        times.len() == positions.len(),
        positions.len() > 0,
        k >= 0,
        forall|j: int|
            0 <= j <= k + 1 ==> 0 <= #[trigger] step_position(positions, dphi, length, j) < length,
    ensures
        gap_at(length, times, positions, dt, dphi, k + 1).largest_gap <= gap_at(
            length,
            times,
            positions,
            dt,
            dphi,
            k,
        ).largest_gap,
{
    let before = positions_upto(positions, dphi, length, k + 1);
    let after = positions_upto(positions, dphi, length, k + 2);
    assert forall|j: int| 0 <= j < before.len() implies 0 <= #[trigger] before[j] < length by {
        assert(0 <= step_position(positions, dphi, length, j) < length);
    }
    let x = step_position(positions, dphi, length, k + 1);
    assert(0 <= x < length);
    assert(after =~= before.push(x as i64));
    law_adding_point_never_widens_gap(before, x as i64, length);
    law_largest_gap_bounded(before, length);
    assert forall|j: int| 0 <= j < after.len() implies 0 <= #[trigger] after[j] < length by {
        assert(0 <= step_position(positions, dphi, length, j) < length);
    }
    law_largest_gap_bounded(after, length);
}

/// With every first-pass position within `[0, length)` and a position step
/// that is not negative, every step's position stays within the circle, so
/// the widest gap reported never grows from one step to the next.
pub proof fn law_gaps_never_widen(
    length: int,
    times: Seq<i64>,
    positions: Seq<i64>,
    dt: int,
    dphi: int,
    k: int,
)
    requires
        0 < length <= i64::MAX,
        times.len() == positions.len(),
        positions.len() > 0,
        within_circle(positions, length),
        dphi >= 0,
        k >= 0,
    ensures
        gap_at(length, times, positions, dt, dphi, k + 1).largest_gap <= gap_at(
            length,
            times,
            positions,
            dt,
            dphi,
            k,
        ).largest_gap,
{
    let n = positions.len() as int;
    assert forall|j: int| 0 <= j implies 0 <= #[trigger] step_position(
        positions,
        dphi,
        length,
        j,
    ) < length by {
        let round = j / n;
        assert(0 <= j % n < n);
        assert(0 <= positions[j % n]);
        assert(dphi * round >= 0) by (nonlinear_arith)
            requires
                dphi >= 0,
                round >= 0,
        ;
    }
    law_gaps_never_widen_on_circle(length, times, positions, dt, dphi, k);
}

/// Step `k` is the first within the analysis at which the widest gap drops
/// below `width`, every step up to it running.
pub open spec fn closes_at(
    length: int,
    times: Seq<i64>,
    positions: Seq<i64>,
    dt: int,
    dphi: int,
    width: int,
    k: int,
) -> bool {
    &&& forall|j: int| 0 <= j <= k ==> #[trigger] step_runs(times, positions, dt, dphi, j)
    &&& gap_at(length, times, positions, dt, dphi, k).largest_gap < width
    &&& forall|j: int|
        0 <= j < k ==> #[trigger] gap_at(length, times, positions, dt, dphi, j).largest_gap >= width
}

/// Time of the first pass of satellite `i` (of `satellites` per plane) within
/// an orbit of `period` time units: a full period for the satellite at the
/// node, less the share of the period by which satellite `i` leads.
pub open spec fn walker_time_offset(i: int, satellites: int, period: int) -> int {
    (period - (period * i) / satellites) % period
}

/// Position of the first pass of satellite `i` of plane `j`: the in-plane
/// share plus the plane share of the circle, rounded down to the unit and
/// reduced modulo the circumference.
pub open spec fn walker_position_offset(
    i: int,
    j: int,
    satellites: int,
    planes: int,
    circumference: int,
) -> int {
    ((circumference * i) / satellites + (circumference * j) / planes) % circumference
}

/// First-pass times of all satellites, plane by plane.
pub open spec fn walker_times(satellites: int, planes: int, period: int) -> Seq<i64> {
    Seq::new(
        (satellites * planes) as nat,
        |idx: int| walker_time_offset(idx % satellites, satellites, period) as i64,
    )
}

/// First-pass positions of all satellites, plane by plane.
pub open spec fn walker_positions(satellites: int, planes: int, circumference: int) -> Seq<i64> {
    Seq::new(
        (satellites * planes) as nat,
        |idx: int|
            walker_position_offset(
                idx % satellites,
                idx / satellites,
                satellites,
                planes,
                circumference,
            ) as i64,
    )
}

/// The first-pass events of all satellites in stable time order.
pub open spec fn walker_schedule(
    satellites: int,
    planes: int,
    period: int,
    circumference: int,
) -> Seq<Event> {
    sort_by_time(
        events_of(
            walker_times(satellites, planes, period),
            walker_positions(satellites, planes, circumference),
        ),
    )
}

/// The first passes divide the circle and the orbit evenly: satellite `i`
/// of plane `j` crosses at the `i`-th of `satellites` shares of the circle
/// plus the `j`-th of `planes` shares (each rounded down, taken modulo the
/// circumference); in particular slot 0 of plane `j` crosses at
/// `circumference·j / planes`, and the satellites of plane 0 at
/// `circumference·i / satellites`. In every plane slot 0 passes first, at
/// time 0, and slot `i > 0` at `period − period·i / satellites`.
pub proof fn law_walker_offsets_divide_circle(
    satellites: int,
    planes: int,
    period: int,
    circumference: int,
    i: int,
    j: int,
)
    requires
        satellites > 0,
        planes > 0,
        0 < period <= i64::MAX,
        0 < circumference <= i64::MAX,
        0 <= i < satellites,
        0 <= j < planes,
    ensures
        walker_positions(satellites, planes, circumference).len() == satellites * planes,
        walker_times(satellites, planes, period).len() == satellites * planes,
        walker_positions(satellites, planes, circumference)[j * satellites] == (circumference * j)
            / planes,
        walker_positions(satellites, planes, circumference)[i] == (circumference * i)
            / satellites,
        walker_positions(satellites, planes, circumference)[j * satellites + i] == ((
        circumference * i) / satellites + (circumference * j) / planes) % circumference,
        0 <= walker_positions(satellites, planes, circumference)[j * satellites + i]
            < circumference,
        walker_times(satellites, planes, period)[j * satellites] == 0,
        (period * i) / satellites > 0 ==> walker_times(satellites, planes, period)[j * satellites
            + i] == period - (period * i) / satellites,
        0 <= walker_times(satellites, planes, period)[j * satellites + i] < period,
        walker_times(satellites, planes, period)[j * satellites + i] == walker_times(
            satellites,
            planes,
            period,
        )[i],
{
    let idx = j * satellites + i;
    assert(0 <= idx < satellites * planes) by (nonlinear_arith)
        requires
            0 <= i < satellites,
            0 <= j < planes,
            idx == j * satellites + i,
    ;
    assert(0 <= j * satellites < satellites * planes) by (nonlinear_arith)
        requires
            0 <= j < planes,
            satellites > 0,
    ;
    vstd::arithmetic::div_mod::lemma_fundamental_div_mod_converse(idx, satellites, j, i);
    vstd::arithmetic::div_mod::lemma_fundamental_div_mod_converse(j * satellites, satellites, j, 0);
    vstd::arithmetic::div_mod::lemma_fundamental_div_mod_converse(i, satellites, 0, i);
    assert(0 <= (circumference * i) / satellites < circumference) by (nonlinear_arith)
        requires
            0 <= i < satellites,
            circumference > 0,
    ;
    assert(0 <= (circumference * j) / planes < circumference) by (nonlinear_arith)
        requires
            0 <= j < planes,
            circumference > 0,
    ;
    assert(0 <= (period * i) / satellites < period) by (nonlinear_arith)
        requires
            0 <= i < satellites,
            period > 0,
    ;
    assert((circumference * 0) / satellites == 0);
    assert((period * 0) / satellites == 0);
    assert((period * i) / satellites > 0 ==> (period - (period * i) / satellites) % period == period - (period * i)
        / satellites) by {
        if (period * i) / satellites > 0 {
            vstd::arithmetic::div_mod::lemma_small_mod(
                (period - (period * i) / satellites) as nat,
                period as nat,
            );
        }
    }
    vstd::arithmetic::div_mod::lemma_small_mod((circumference * j / planes) as nat, circumference as nat);
    vstd::arithmetic::div_mod::lemma_small_mod((circumference * i / satellites) as nat, circumference as nat);
    vstd::arithmetic::div_mod::lemma_mod_self_0(period);
}

/// Number of steps the revisit search takes at most.
pub const SEARCH_STEPS: usize = 1000;

fn time_offset(i: u32, satellites: u32, period: i64) -> (r: i64)
    requires
        i < satellites,
        period > 0,
    ensures
        r as int == walker_time_offset(i as int, satellites as int, period as int),
{
    let p = period as u128;
    proof {
        assert(p * (i as u128) <= 0x8000_0000_0000_0000u128 * 0x1_0000_0000u128) by (nonlinear_arith)
            requires
                p <= 0x8000_0000_0000_0000u128,
                (i as u128) <= 0x1_0000_0000u128,
        ;
        assert((p * (i as int)) / (satellites as int) < p) by (nonlinear_arith)
            requires
                0 <= i < satellites,
                p > 0,
        ;
    }
    let phase = (p * (i as u128)) / (satellites as u128);
    let r = (p - phase) % p;
    r as i64
}

fn position_offset(i: u32, j: u32, satellites: u32, planes: u32, circumference: i64) -> (r: i64)
    requires
        i < satellites,
        j < planes,
        circumference > 0,
    ensures
        r as int == walker_position_offset(
            i as int,
            j as int,
            satellites as int,
            planes as int,
            circumference as int,
        ),
{
    let c = circumference as u128;
    proof {
        assert(c * (i as u128) <= 0x8000_0000_0000_0000u128 * 0x1_0000_0000u128) by (nonlinear_arith)
            requires
                c <= 0x8000_0000_0000_0000u128,
                (i as u128) <= 0x1_0000_0000u128,
        ;
        assert(c * (j as u128) <= 0x8000_0000_0000_0000u128 * 0x1_0000_0000u128) by (nonlinear_arith)
            requires
                c <= 0x8000_0000_0000_0000u128,
                (j as u128) <= 0x1_0000_0000u128,
        ;
        assert((c * (i as int)) / (satellites as int) < c) by (nonlinear_arith)
            requires
                0 <= i < satellites,
                c > 0,
        ;
        assert((c * (j as int)) / (planes as int) < c) by (nonlinear_arith)
            requires
                0 <= j < planes,
                c > 0,
        ;
    }
    let a = (c * (i as u128)) / (satellites as u128);
    let b = (c * (j as u128)) / (planes as u128);
    let r = (a + b) % c;
    r as i64
}

/// Revisit time of a Walker Delta constellation whose in-plane passes leave
/// gaps on the equator: `satellites` per plane in `planes` planes, an orbit
/// of `period` time units, an equator of `circumference` position units, the
/// equator turning `drift` position units further per orbit, and an
/// equatorial swath `swath` wide. Steps through the passes in time order, at
/// most `SEARCH_STEPS` of them, and returns the time of the first pass after
/// which no gap on the equator is as wide as the swath; `None` if none does.
pub fn light_simulation_revisit(
    satellites: u32,
    planes: u32,
    period: i64,
    circumference: i64,
    drift: i64,
    swath: i64,
) -> (r: Option<i64>)
    requires
        satellites > 0,
        planes > 0,
        period > 0,
        circumference > 0,
    ensures
        ({
            let schedule = walker_schedule(
                satellites as int,
                planes as int,
                period as int,
                circumference as int,
            );
            let ts = times_of(schedule);
            let ps = positions_of(schedule);
            match r {
                Some(t) => exists|k: int|
                    0 <= k < SEARCH_STEPS && #[trigger] closes_at(
                        circumference as int,
                        ts,
                        ps,
                        period as int,
                        drift as int,
                        swath as int,
                        k,
                    ) && t == gap_at(
                        circumference as int,
                        ts,
                        ps,
                        period as int,
                        drift as int,
                        k,
                    ).new_t,
                None => forall|k: int|
                    0 <= k < SEARCH_STEPS ==> !#[trigger] closes_at(
                        circumference as int,
                        ts,
                        ps,
                        period as int,
                        drift as int,
                        swath as int,
                        k,
                    ),
            }
        }),
{
    let ghost wt = walker_times(satellites as int, planes as int, period as int);
    let ghost wp = walker_positions(satellites as int, planes as int, circumference as int);
    let mut t0: Vec<i64> = Vec::new();
    let mut phi0: Vec<i64> = Vec::new();
    let mut j: u32 = 0;
    while j < planes
        invariant
            j <= planes,
            satellites > 0,
            period > 0,
            circumference > 0,
            wt == walker_times(satellites as int, planes as int, period as int),
            wp == walker_positions(satellites as int, planes as int, circumference as int),
            t0.len() == phi0.len(),
            t0.len() == j * satellites,
            forall|idx: int| 0 <= idx < t0.len() ==> t0@[idx] == wt[idx] && phi0@[idx] == wp[idx],
        decreases planes - j,
    {
        let mut i: u32 = 0;
        while i < satellites
            invariant
                i <= satellites,
                j < planes,
                satellites > 0,
                period > 0,
                circumference > 0,
                wt == walker_times(satellites as int, planes as int, period as int),
                wp == walker_positions(satellites as int, planes as int, circumference as int),
                t0.len() == phi0.len(),
                t0.len() == j * satellites + i,
                forall|idx: int|
                    0 <= idx < t0.len() ==> t0@[idx] == wt[idx] && phi0@[idx] == wp[idx],
            decreases satellites - i,
        {
            let ghost idx = t0.len() as int;
            proof {
                assert(j * satellites + i < planes * satellites) by (nonlinear_arith)
                    requires
                        j < planes,
                        i < satellites,
                ;
                assert(idx / (satellites as int) == j && idx % (satellites as int) == i) by {
                    vstd::arithmetic::div_mod::lemma_fundamental_div_mod_converse(
                        idx,
                        satellites as int,
                        j as int,
                        i as int,
                    );
                }
                assert(planes * satellites == satellites * planes) by (nonlinear_arith);
            }
            t0.push(time_offset(i, satellites, period));
            phi0.push(position_offset(i, j, satellites, planes, circumference));
            i = i + 1;
        }
        proof {
            assert(j * satellites + satellites == (j + 1) * satellites) by (nonlinear_arith);
        }
        j = j + 1;
    }
    proof {
        assert(planes * satellites == satellites * planes) by (nonlinear_arith);
        assert(t0@ =~= wt);
        assert(phi0@ =~= wp);
        assert(t0.len() > 0) by (nonlinear_arith)
            requires
                t0.len() == planes * satellites,
                planes > 0,
                satellites > 0,
        ;
    }
    let mut pg = PointGaps::new(circumference, t0, phi0, period, drift);
    let ghost start = pg;
    let ghost schedule = walker_schedule(
        satellites as int,
        planes as int,
        period as int,
        circumference as int,
    );
    assert(start.times() == times_of(schedule));
    assert(start.positions() == positions_of(schedule));
    assert(start.circumference() == circumference as int);
    assert(start.time_step() == period as int);
    assert(start.position_step() == drift as int);
    let mut k: usize = 0;
    while k < SEARCH_STEPS
        invariant
            pg.wf(),
            pg.same_schedule(&start),
            start.steps() == 0,
            start.times() == times_of(schedule),
            start.positions() == positions_of(schedule),
            start.circumference() == circumference as int,
            start.time_step() == period as int,
            start.position_step() == drift as int,
            schedule == walker_schedule(
                satellites as int,
                planes as int,
                period as int,
                circumference as int,
            ),
            pg.steps() == k,
            k <= SEARCH_STEPS,
            forall|j: int| 0 <= j < k ==> #[trigger] start.runs(j),
            forall|j: int| 0 <= j < k ==> #[trigger] start.gap(j).largest_gap >= swath,
        decreases SEARCH_STEPS - k,
    {
        match pg.next() {
            Some(g) => {
                if g.largest_gap < swath as i128 {
                    proof {
                        assert(closes_at(
                            start.circumference(),
                            start.times(),
                            start.positions(),
                            start.time_step(),
                            start.position_step(),
                            swath as int,
                            k as int,
                        )) by {
                            assert forall|j: int| 0 <= j <= k implies #[trigger] step_runs(
                                start.times(),
                                start.positions(),
                                start.time_step(),
                                start.position_step(),
                                j,
                            ) by {
                                if j < k {
                                    assert(start.runs(j));
                                }
                            }
                            assert forall|j: int| 0 <= j < k implies #[trigger] gap_at(
                                start.circumference(),
                                start.times(),
                                start.positions(),
                                start.time_step(),
                                start.position_step(),
                                j,
                            ).largest_gap >= swath by {
                                assert(start.gap(j).largest_gap >= swath);
                            }
                        }
                    }
                    return Some(g.new_t);
                }
            },
            None => {
                proof {
                    assert forall|m: int| 0 <= m < SEARCH_STEPS implies !#[trigger] closes_at(
                        start.circumference(),
                        start.times(),
                        start.positions(),
                        start.time_step(),
                        start.position_step(),
                        swath as int,
                        m,
                    ) by {
                        if m < k {
                            assert(start.gap(m).largest_gap >= swath);
                        } else {
                            assert(!step_runs(
                                start.times(),
                                start.positions(),
                                start.time_step(),
                                start.position_step(),
                                k as int,
                            ));
                        }
                    }
                }
                return None;
            },
        }
        k = k + 1;
    }
    proof {
        assert forall|m: int| 0 <= m < SEARCH_STEPS implies !#[trigger] closes_at(
            start.circumference(),
            start.times(),
            start.positions(),
            start.time_step(),
            start.position_step(),
            swath as int,
            m,
        ) by {
            assert(start.gap(m).largest_gap >= swath);
        }
    }
    None
}

} // verus!
