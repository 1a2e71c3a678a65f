//! Coverage raster: for each pixel of an equirectangular map of the planet,
//! the earliest time at which some satellite saw it.
//!
//! Pixel `(x, y)` lies at index `y * width + x` of `data`; `None` marks a
//! pixel that was never covered. Times are integers in units of the
//! caller's choice.
use vstd::prelude::*;

verus! {

/// The earlier of two times of first coverage; `None` (never covered) is
/// later than any time.
pub open spec fn earlier(a: Option<i64>, b: Option<i64>) -> Option<i64> {
    match (a, b) {
        (Some(x), Some(y)) => if y < x {
            Some(y)
        } else {
            Some(x)
        },
        (None, _) => b,
        (Some(_), None) => a,
    }
}

/// Pixel-wise earlier of `a` and `b`, over the pixels the two have in common;
/// pixels of `a` beyond the end of `b` are kept.
pub open spec fn combined(a: Seq<Option<i64>>, b: Seq<Option<i64>>) -> Seq<Option<i64>> {
    Seq::new(a.len(), |i: int| if i < b.len() { earlier(a[i], b[i]) } else { a[i] })
}

/// Index of pixel `(x, y)`, the column `x` taken around the map modulo
/// `width`.
pub open spec fn pixel_index(width: int, x: int, y: int) -> int {
    y * width + x % width
}

/// The pixels of `s` that were never covered.
pub open spec fn uncovered(s: Seq<Option<i64>>) -> Seq<Option<i64>> {
    s.filter(never_covered())
}

/// A pixel that was never covered.
pub open spec fn never_covered() -> spec_fn(Option<i64>) -> bool {
    |o: Option<i64>| o is None
}

/// `m` is the latest time of first coverage in `s`, and not below zero.
pub open spec fn is_latest_coverage(s: Seq<Option<i64>>, m: i64) -> bool {
    &&& m >= 0
    &&& forall|i: int| 0 <= i < s.len() ==> (#[trigger] s[i] matches Some(v) ==> v <= m)
    &&& (m == 0 || exists|i: int| 0 <= i < s.len() && #[trigger] s[i] == Some(m))
}

/// A raster of first-coverage times on the equirectangular projection.
pub struct CoverageMap {
    pub width: usize,
    pub height: usize,
    /// Time of first coverage per pixel; `None` = never covered.
    pub data: Vec<Option<i64>>,
}

impl CoverageMap {
    /// The raster holds one entry per pixel.
    pub open spec fn wf(&self) -> bool {
        self.data@.len() == self.width * self.height
    }

    /// An empty raster of `width` by `height` pixels, none of them covered.
    pub fn new(width: usize, height: usize) -> (r: Self)
        requires
            width * height <= usize::MAX,
        ensures
            r.width == width,
            r.height == height,
            r.wf(),
            r.data@ == Seq::new((width * height) as nat, |i: int| None::<i64>),
    {
        let n = width * height;
        let mut data: Vec<Option<i64>> = Vec::new();
        let mut i: usize = 0;
        while i < n
            invariant
                i <= n,
                data@ == Seq::new(i as nat, |j: int| None::<i64>),
            decreases n - i,
        {
            data.push(None);
            i = i + 1;
            proof {
                assert(data@ =~= Seq::new(i as nat, |j: int| None::<i64>));
            }
        }
        CoverageMap { width, height, data }
    }

    /// Pixel-wise minimum: each pixel takes the earlier of its own time and
    /// the time of the same pixel in `other`. Folds per-satellite maps into
    /// the map of the earliest time any satellite covered each pixel.
    pub fn combine_min(&mut self, other: &Self)
        requires
            old(self).width == other.width,
            old(self).height == other.height,
        ensures
            final(self).width == old(self).width,
            final(self).height == old(self).height,
            final(self).data@ == combined(old(self).data@, other.data@),
            final(self).data@.len() == old(self).data@.len(),
            forall|j: int|
                0 <= j < old(self).data@.len() && j >= other.data@.len()
                    ==> #[trigger] final(self).data@[j] == old(self).data@[j],
            forall|j: int|
                0 <= j < old(self).data@.len() && j < other.data@.len() ==> {
                    &&& (#[trigger] final(self).data@[j] == old(self).data@[j]
                        || final(self).data@[j] == other.data@[j])
                    &&& (old(self).data@[j] matches Some(x) ==> (final(self).data@[j] matches Some(v)
                        && v <= x))
                    &&& (other.data@[j] matches Some(y) ==> (final(self).data@[j] matches Some(v)
                        && v <= y))
                },
    {
        let n = if self.data.len() < other.data.len() {
            self.data.len()
        } else {
            other.data.len()
        };
        let ghost start = self.data@;
        let mut i: usize = 0;
        while i < n
            invariant
                i <= n,
                n <= start.len(),
                n <= other.data@.len(),
                n == start.len() || n == other.data@.len(),
                self.width == old(self).width,
                self.height == old(self).height,
                start == old(self).data@,
                self.data@.len() == start.len(),
                forall|j: int|
                    0 <= j < self.data@.len() ==> #[trigger] self.data@[j] == if j < i {
                        earlier(start[j], other.data@[j])
                    } else {
                        start[j]
                    },
            decreases n - i,
        {
            let b = other.data[i];
            let a = self.data[i];
            match (a, b) {
                (Some(x), Some(y)) => {
                    if y < x {
                        self.data.set(i, b);
                    }
                },
                (None, Some(_)) => {
                    self.data.set(i, b);
                },
                _ => {},
            }
            i = i + 1;
        }
        proof {
            assert(self.data@ =~= combined(start, other.data@));
            assert forall|j: int| 0 <= j < start.len() && j < other.data@.len() implies {
                &&& (#[trigger] self.data@[j] == start[j] || self.data@[j] == other.data@[j])
                &&& (start[j] matches Some(x) ==> (self.data@[j] matches Some(v) && v <= x))
                &&& (other.data@[j] matches Some(y) ==> (self.data@[j] matches Some(v) && v <= y))
            } by {
                law_combined_takes_earlier_input(start, other.data@, j);
            }
        }
    }

    /// Records that pixel `(x, y)` was covered at time `t`, the column `x`
    /// wrapped around the map: the pixel keeps the earlier of its time and
    /// `t`.
    pub fn record_coverage(&mut self, x: i64, y: usize, t: i64)
        requires
            old(self).wf(),
            old(self).width > 0,
            y < old(self).height,
        ensures
            final(self).width == old(self).width,
            final(self).height == old(self).height,
            final(self).wf(),
            ({
                let i = pixel_index(old(self).width as int, x as int, y as int);
                &&& 0 <= i < old(self).data@.len()
                &&& final(self).data@ == old(self).data@.update(
                    i,
                    earlier(old(self).data@[i], Some(t)),
                )
                &&& (final(self).data@[i] == old(self).data@[i] || final(self).data@[i]
                    == Some(t))
                &&& (final(self).data@[i] matches Some(v) && v <= t)
                &&& (old(self).data@[i] matches Some(x) ==> (final(self).data@[i] matches Some(v)
                    && v <= x))
                &&& forall|j: int|
                    0 <= j < old(self).data@.len() && j != i ==> #[trigger] final(self).data@[j]
                        == old(self).data@[j]
            }),
    {
        let len = self.data.len();
        let w = self.width as i128;
        let col = (x as i128).checked_rem_euclid(w).unwrap();
        proof {
            assert(0 <= col < w);
            assert(y * self.width + col < self.width * self.height) by (nonlinear_arith)
                requires
                    y < self.height,
                    0 <= col < self.width,
            ;
        }
        let i = y * self.width + col as usize;
        proof {
            law_earlier_is_minimum(self.data@[i as int], Some(t));
        }
        match self.data[i] {
            Some(old_t) => {
                if t < old_t {
                    self.data.set(i, Some(t));
                }
            },
            None => {
                self.data.set(i, Some(t));
            },
        }
    }

    /// The latest time of first coverage over the covered pixels, and not
    /// below zero; `None` when no pixel was covered.
    pub fn latest_first_coverage(&self) -> (r: Option<i64>)
        ensures
            r is None <==> forall|i: int| 0 <= i < self.data@.len() ==> #[trigger] self.data@[i] is None,
            r matches Some(m) ==> is_latest_coverage(self.data@, m),
    {
        let mut t_max: i64 = 0;
        let mut any = false;
        let mut i: usize = 0;
        while i < self.data.len()
            invariant
                i <= self.data@.len(),
                t_max >= 0,
                any <==> exists|j: int| 0 <= j < i && #[trigger] self.data@[j] is Some,
                forall|j: int| 0 <= j < i ==> (#[trigger] self.data@[j] matches Some(v) ==> v <= t_max),
                t_max == 0 || exists|j: int| 0 <= j < i && #[trigger] self.data@[j] == Some(t_max),
            decreases self.data@.len() - i,
        {
            match self.data[i] {
                Some(v) => {
                    any = true;
                    if v > t_max {
                        t_max = v;
                    }
                },
                None => {},
            }
            i = i + 1;
        }
        if any {
            Some(t_max)
        } else {
            None
        }
    }

    /// Number of pixels never covered.
    pub fn uncovered_count(&self) -> (r: usize)
        ensures
            r == uncovered(self.data@).len(),
    {
        let mut count: usize = 0;
        let mut i: usize = 0;
        while i < self.data.len()
            invariant
                i <= self.data@.len(),
                count == uncovered(self.data@.take(i as int)).len(),
                count <= i,
            decreases self.data@.len() - i,
        {
            proof {
                assert(self.data@.take(i as int + 1) =~= self.data@.take(i as int).push(
                    self.data@[i as int],
                ));
                self.data@.take(i as int).lemma_filter_push(self.data@[i as int], never_covered());
            }
            if self.data[i].is_none() {
                count = count + 1;
            }
            i = i + 1;
        }
        proof {
            assert(self.data@.take(self.data@.len() as int) =~= self.data@);
        }
        count
    }
}

/// Columns `[x0, x1)` of one row of the cap, cut to at most one full turn
/// around a map `width` pixels wide.
pub fn row_span(x0: i64, x1: i64, width: usize) -> (r: (i64, i64))
    requires
        x0 + width <= i64::MAX,
    ensures
        r == if x1 - x0 > width {
            (x0, (x0 + width) as i64)
        } else {
            (x0, x1)
        },
{
    if (x1 as i128) - (x0 as i128) > width as i128 {
        (x0, ((x0 as i128) + (width as i128)) as i64)
    } else {
        (x0, x1)
    }
}

/// Taking the earlier of two times does not depend on their order.
pub proof fn law_earlier_commutes(a: Option<i64>, b: Option<i64>)
    ensures
        earlier(a, b) == earlier(b, a),
{
}

/// Taking the earliest of three times does not depend on how they are
/// grouped.
pub proof fn law_earlier_associates(a: Option<i64>, b: Option<i64>, c: Option<i64>)
    ensures
        earlier(earlier(a, b), c) == earlier(a, earlier(b, c)),
{
}

/// Folding maps of one size together gives the same map whatever the order in
/// which they are folded in.
pub proof fn law_combine_order_free(
    a: Seq<Option<i64>>,
    b: Seq<Option<i64>>,
    c: Seq<Option<i64>>,
)
    requires
        a.len() == b.len(),
        b.len() == c.len(),
    ensures
        combined(combined(a, b), c) == combined(combined(a, c), b),
{
    assert(combined(combined(a, b), c) =~= combined(combined(a, c), b));
}

/// The earlier of two times is one of them, is no later than either, and is
/// `None` only when both are.
pub proof fn law_earlier_is_minimum(a: Option<i64>, b: Option<i64>)
    ensures
        earlier(a, b) == a || earlier(a, b) == b,
        a matches Some(x) ==> (earlier(a, b) matches Some(v) && v <= x),
        b matches Some(y) ==> (earlier(a, b) matches Some(v) && v <= y),
        earlier(a, b) is None <==> (a is None && b is None),
{
}

/// Folding two maps keeps the size of the first; a pixel both maps hold takes
/// the value of one of them, no later than either, and a pixel beyond the end
/// of the second keeps its value.
pub proof fn law_combined_takes_earlier_input(a: Seq<Option<i64>>, b: Seq<Option<i64>>, i: int)
    requires
        0 <= i < a.len(),
    ensures
        combined(a, b).len() == a.len(),
        i >= b.len() ==> combined(a, b)[i] == a[i],
        i < b.len() ==> (combined(a, b)[i] == a[i] || combined(a, b)[i] == b[i]),
        i < b.len() ==> (a[i] matches Some(x) ==> (combined(a, b)[i] matches Some(v) && v <= x)),
        i < b.len() ==> (b[i] matches Some(y) ==> (combined(a, b)[i] matches Some(v) && v <= y)),
{
    if i < b.len() {
        law_earlier_is_minimum(a[i], b[i]);
    }
}

/// A pixel holding a time, whatever the time, never counts as uncovered; one
/// holding `None` always does.
pub proof fn law_uncovered_counts_none(s: Seq<Option<i64>>, x: Option<i64>)
    ensures
        uncovered(Seq::<Option<i64>>::empty()).len() == 0,
        uncovered(s.push(x)).len() == uncovered(s).len() + if x is None {
            1int
        } else {
            0int
        },
{
    s.lemma_filter_push(x, never_covered());
    reveal(Seq::filter);
}

/// The count of uncovered pixels is the number of pixels holding `None`: a
/// map whose every pixel holds a time has none, and one whose every pixel
/// holds `None` has as many as it has pixels.
pub proof fn law_uncovered_extremes(s: Seq<Option<i64>>)
    ensures
        (forall|i: int| 0 <= i < s.len() ==> #[trigger] s[i] is Some) ==> uncovered(s).len() == 0,
        (forall|i: int| 0 <= i < s.len() ==> #[trigger] s[i] is None) ==> uncovered(s).len()
            == s.len(),
    decreases s.len(),
{
    if s.len() == 0 {
        law_uncovered_counts_none(s, None);
    } else {
        let d = s.drop_last();
        law_uncovered_extremes(d);
        assert(d.push(s.last()) =~= s);
        law_uncovered_counts_none(d, s.last());
        assert forall|i: int| 0 <= i < d.len() implies d[i] == s[i] by {}
    }
}

/// Folding in another map never makes a pixel's time of first coverage later,
/// and covers each pixel that either map covers.
pub proof fn law_combine_never_later(a: Seq<Option<i64>>, b: Seq<Option<i64>>, i: int)
    requires
        0 <= i < a.len(),
        i < b.len(),
    ensures
        a[i] matches Some(x) ==> (combined(a, b)[i] matches Some(y) && y <= x),
        b[i] matches Some(x) ==> (combined(a, b)[i] matches Some(y) && y <= x),
        combined(a, b)[i] is None <==> (a[i] is None && b[i] is None),
{
}

} // verus!
