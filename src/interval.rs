use vstd::prelude::*;

verus! {

/// An inclusive range of logical time `[lo, hi]`.
#[derive(Clone, Copy, Debug, PartialEq, Eq, Structural)]
pub struct Interval {
    pub lo: i64,
    pub hi: i64,
}

/// An ordered sequence of intervals during which one value was in effect.
pub type History = Vec<Interval>;

impl Interval {
    pub open spec fn wf(self) -> bool {
        self.lo <= self.hi
    }

    pub open spec fn has(self, t: int) -> bool {
        self.lo <= t && t <= self.hi
    }

    pub fn new(lo: i64, hi: i64) -> (r: Interval)
        requires
            lo <= hi,
        ensures
            r == (Interval { lo, hi }),
    {
        Interval { lo, hi }
    }

    pub fn contains(&self, t: i64) -> (r: bool)
        ensures
            r == self.has(t as int),
    {
        self.lo <= t && t <= self.hi
    }

    /// Whether two intervals share at least one point.
    pub fn intersect(a: &Interval, b: &Interval) -> (r: bool)
        requires
            a.wf(),
            b.wf(),
        ensures
            r == intervals_meet(*a, *b),
    {
        if a.contains(b.lo) || a.contains(b.hi) {
            return true;
        }
        if b.contains(a.lo) || b.contains(a.hi) {
            return true;
        }
        false
    }
}

/// Two intervals meet when each starts no later than the other ends.
pub open spec fn intervals_meet(a: Interval, b: Interval) -> bool {
    a.lo <= b.hi && b.lo <= a.hi
}

pub open spec fn history_wf(h: Seq<Interval>) -> bool {
    forall|i: int| 0 <= i < h.len() ==> #[trigger] h[i].wf()
}

/// The coarse intersection of two histories: their first intervals meet, or
/// their last intervals meet. An empty history meets nothing.
pub open spec fn histories_meet(l: Seq<Interval>, r: Seq<Interval>) -> bool {
    l.len() > 0 && r.len() > 0 && (intervals_meet(l[0], r[0]) || intervals_meet(
        l.last(),
        r.last(),
    ))
}

/// Compares the first intervals of two histories, then their last ones.
pub fn intersect_histories(left: &History, right: &History) -> (r: bool)
    requires
        history_wf(left@),
        history_wf(right@),
    ensures
        r == histories_meet(left@, right@),
{
    if left.len() > 0 && right.len() > 0 {
        let ll = left.len() - 1;
        let rl = right.len() - 1;
        return Interval::intersect(&left[0], &right[0]) || Interval::intersect(
            &left[ll],
            &right[rl],
        );
    }
    false
}

/// Meeting is symmetric.
pub proof fn lemma_intersect_symmetric(a: Interval, b: Interval)
    ensures
        intervals_meet(a, b) == intervals_meet(b, a),
{
}

/// Intervals that share an endpoint meet.
pub proof fn lemma_shared_endpoint_meets(a: int, b: int, c: int)
    requires
        a <= b <= c,
        i64::MIN <= a,
        c <= i64::MAX,
    ensures
        intervals_meet(
            Interval { lo: a as i64, hi: b as i64 },
            Interval { lo: b as i64, hi: c as i64 },
        ),
{
}

} // verus!
