use vstd::prelude::*;
use std::cmp::Ordering;
use crate::value::{Value, ValueView, key_cmp_spec, lemma_key_cmp_equal, lemma_key_cmp_refl};
use crate::interval::{Interval, History, intervals_meet, histories_meet, intersect_histories};
use crate::compared::{Compared, CompareOp, compare_holds};

verus! {

/// The mathematical content of a `MemoryMachine`: the distinct values seen,
/// in key order, the history of each, and the logical clock.
pub struct MachineModel {
    pub keys: Seq<ValueView>,
    pub hists: Seq<Seq<Interval>>,
    pub time: int,
}

pub open spec fn point(t: int) -> Interval {
    Interval { lo: t as i64, hi: t as i64 }
}

pub open spec fn has_key(m: MachineModel, v: ValueView) -> bool {
    exists|i: int| 0 <= i < m.keys.len() && m.keys[i] == v
}

pub open spec fn key_index(m: MachineModel, v: ValueView) -> int {
    choose|i: int| 0 <= i < m.keys.len() && m.keys[i] == v
}

/// Where a new key goes: before the first key that is not below it.
pub open spec fn insert_pos(keys: Seq<ValueView>, v: ValueView) -> int
    decreases keys.len(),
{
    if keys.len() == 0 {
        0
    } else if key_cmp_spec(keys[0], v) == Ordering::Less {
        1 + insert_pos(keys.drop_first(), v)
    } else {
        0
    }
}

pub open spec fn run_ends_at(h: Seq<Interval>, t: int) -> bool {
    exists|j: int| 0 <= j < h.len() && h[j].has(t)
}

/// A history after one more tick of its value at time `t`: the interval that
/// holds `t - 1` grows to `t`, or else `[t, t]` is appended.
pub open spec fn extend_history(h: Seq<Interval>, t: int) -> Seq<Interval> {
    if run_ends_at(h, t - 1) {
        let j = choose|j: int| 0 <= j < h.len() && h[j].has(t - 1);
        h.update(j, Interval { lo: h[j].lo, hi: t as i64 })
    } else {
        h.push(point(t))
    }
}

/// The effect of inserting `v`.
pub open spec fn step(m: MachineModel, v: ValueView) -> MachineModel {
    if has_key(m, v) {
        let i = key_index(m, v);
        MachineModel {
            keys: m.keys,
            hists: m.hists.update(i, extend_history(m.hists[i], m.time)),
            time: m.time + 1,
        }
    } else {
        let p = insert_pos(m.keys, v);
        MachineModel {
            keys: m.keys.insert(p, v),
            hists: m.hists.insert(p, seq![point(m.time)]),
            time: m.time + 1,
        }
    }
}

/// Every interval is well formed and lies in `[0, time - 1]`.
pub open spec fn intervals_in_clock(hs: Seq<Seq<Interval>>, time: int) -> bool {
    forall|i: int, j: int|
        0 <= i < hs.len() && 0 <= j < hs[i].len() ==> {
            &&& (#[trigger] hs[i][j]).lo <= hs[i][j].hi
            &&& 0 <= hs[i][j].lo
            &&& hs[i][j].hi < time
        }
}

/// No two intervals, of one value or of two, share a point.
pub open spec fn pairwise_disjoint(hs: Seq<Seq<Interval>>) -> bool {
    forall|i1: int, j1: int, i2: int, j2: int|
        0 <= i1 < hs.len() && 0 <= j1 < hs[i1].len() && 0 <= i2 < hs.len() && 0 <= j2
            < hs[i2].len() && (i1 != i2 || j1 != j2) ==> !intervals_meet(
            #[trigger] hs[i1][j1],
            #[trigger] hs[i2][j2],
        )
}

pub open spec fn tick_owned(hs: Seq<Seq<Interval>>, t: int) -> bool {
    exists|i: int, j: int| 0 <= i < hs.len() && 0 <= j < hs[i].len() && #[trigger] hs[i][j].has(t)
}

/// Every tick before the clock belongs to some interval.
pub open spec fn covers_clock(hs: Seq<Seq<Interval>>, time: int) -> bool {
    forall|t: int| 0 <= t < time ==> #[trigger] tick_owned(hs, t)
}

pub open spec fn keys_unique(keys: Seq<ValueView>) -> bool {
    forall|i: int, j: int| 0 <= i < keys.len() && 0 <= j < keys.len() && i != j ==> keys[i] != keys[j]
}

pub open spec fn model_wf(m: MachineModel) -> bool {
    &&& m.keys.len() == m.hists.len()
    &&& 0 <= m.time <= i64::MAX
    &&& keys_unique(m.keys)
    &&& forall|i: int| 0 <= i < m.hists.len() ==> (#[trigger] m.hists[i]).len() > 0
    &&& intervals_in_clock(m.hists, m.time)
    &&& pairwise_disjoint(m.hists)
    &&& covers_clock(m.hists, m.time)
}

pub open spec fn empty_model() -> MachineModel {
    MachineModel { keys: Seq::empty(), hists: Seq::empty(), time: 0 }
}

proof fn lemma_insert_pos_range(keys: Seq<ValueView>, v: ValueView)
    ensures
        0 <= insert_pos(keys, v) <= keys.len(),
    decreases keys.len(),
{
    if keys.len() > 0 {
        lemma_insert_pos_range(keys.drop_first(), v);
    }
}

proof fn lemma_step_new_key(m: MachineModel, v: ValueView)
    requires
        model_wf(m),
        m.time < i64::MAX,
        !has_key(m, v),
    ensures
        model_wf(step(m, v)),
{
    let p = insert_pos(m.keys, v);
    lemma_insert_pos_range(m.keys, v);
    let m2 = step(m, v);
    let hs = m.hists;
    let hs2 = m2.hists;
    let t = m.time;
    assert(hs2.len() == hs.len() + 1);
    assert forall|k: int| 0 <= k < hs2.len() implies #[trigger] hs2[k] == (if k < p {
        hs[k]
    } else if k == p {
        seq![point(t)]
    } else {
        hs[k - 1]
    }) by {}
    assert forall|k: int| 0 <= k < m2.keys.len() implies #[trigger] m2.keys[k] == (if k < p {
        m.keys[k]
    } else if k == p {
        v
    } else {
        m.keys[k - 1]
    }) by {}
    assert(keys_unique(m2.keys)) by {
        assert forall|i: int, j: int|
            0 <= i < m2.keys.len() && 0 <= j < m2.keys.len() && i != j implies m2.keys[i]
            != m2.keys[j] by {
            let oi = if i < p { i } else { i - 1 };
            let oj = if j < p { j } else { j - 1 };
            if i != p && j != p {
                assert(m2.keys[i] == m.keys[oi]);
                assert(m2.keys[j] == m.keys[oj]);
            } else if i == p {
                assert(m2.keys[j] == m.keys[oj]);
            } else {
                assert(m2.keys[i] == m.keys[oi]);
            }
        }
    }
    assert forall|i: int| 0 <= i < hs2.len() implies (#[trigger] hs2[i]).len() > 0 by {
        if i != p {
            let oi = if i < p { i } else { i - 1 };
            assert(hs2[i] == hs[oi]);
        }
    }
    assert(intervals_in_clock(hs2, t + 1)) by {
        assert forall|i: int, j: int| 0 <= i < hs2.len() && 0 <= j < hs2[i].len() implies {
            &&& (#[trigger] hs2[i][j]).lo <= hs2[i][j].hi
            &&& 0 <= hs2[i][j].lo
            &&& hs2[i][j].hi < t + 1
        } by {
            if i != p {
                let oi = if i < p { i } else { i - 1 };
                assert(hs2[i][j] == hs[oi][j]);
            }
        }
    }
    assert(pairwise_disjoint(hs2)) by {
        assert forall|i1: int, j1: int, i2: int, j2: int|
            0 <= i1 < hs2.len() && 0 <= j1 < hs2[i1].len() && 0 <= i2 < hs2.len() && 0 <= j2
                < hs2[i2].len() && (i1 != i2 || j1 != j2) implies !intervals_meet(
            #[trigger] hs2[i1][j1],
            #[trigger] hs2[i2][j2],
        ) by {
            let o1 = if i1 < p { i1 } else { i1 - 1 };
            let o2 = if i2 < p { i2 } else { i2 - 1 };
            if i1 != p && i2 != p {
                assert(hs2[i1][j1] == hs[o1][j1]);
                assert(hs2[i2][j2] == hs[o2][j2]);
            } else if i1 == p && i2 != p {
                assert(hs2[i2][j2] == hs[o2][j2]);
                assert(hs[o2][j2].hi < t);
            } else if i2 == p && i1 != p {
                assert(hs2[i1][j1] == hs[o1][j1]);
                assert(hs[o1][j1].hi < t);
            }
        }
    }
    assert(covers_clock(hs2, t + 1)) by {
        assert forall|u: int| 0 <= u < t + 1 implies #[trigger] tick_owned(hs2, u) by {
            if u < t {
                assert(tick_owned(hs, u));
                let (i, j) = choose|i: int, j: int|
                    0 <= i < hs.len() && 0 <= j < hs[i].len() && #[trigger] hs[i][j].has(u);
                let ni = if i < p { i } else { i + 1 };
                assert(hs2[ni][j] == hs[i][j]);
                assert(hs2[ni][j].has(u));
            } else {
                assert(hs2[p][0] == point(t));
                assert(hs2[p][0].has(u));
            }
        }
    }
}

proof fn lemma_step_known_key(m: MachineModel, v: ValueView)
    requires
        model_wf(m),
        m.time < i64::MAX,
        has_key(m, v),
    ensures
        model_wf(step(m, v)),
{
    let i0 = key_index(m, v);
    let m2 = step(m, v);
    let hs = m.hists;
    let hs2 = m2.hists;
    let t = m.time;
    let h = hs[i0];
    let h2 = extend_history(h, t);
    assert(hs2 == hs.update(i0, h2));
    if run_ends_at(h, t - 1) {
        let j0 = choose|j: int| 0 <= j < h.len() && h[j].has(t - 1);
        let e = Interval { lo: h[j0].lo, hi: t as i64 };
        assert(h2 == h.update(j0, e));
        assert(intervals_in_clock(hs2, t + 1)) by {
            assert forall|i: int, j: int| 0 <= i < hs2.len() && 0 <= j < hs2[i].len() implies {
                &&& (#[trigger] hs2[i][j]).lo <= hs2[i][j].hi
                &&& 0 <= hs2[i][j].lo
                &&& hs2[i][j].hi < t + 1
            } by {
                assert(hs[i0][j0] == h[j0]);
                if !(i == i0 && j == j0) {
                    assert(hs2[i][j] == hs[i][j]);
                }
            }
        }
        assert(pairwise_disjoint(hs2)) by {
            assert forall|i1: int, j1: int, i2: int, j2: int|
                0 <= i1 < hs2.len() && 0 <= j1 < hs2[i1].len() && 0 <= i2 < hs2.len() && 0
                    <= j2 < hs2[i2].len() && (i1 != i2 || j1 != j2) implies !intervals_meet(
                #[trigger] hs2[i1][j1],
                #[trigger] hs2[i2][j2],
            ) by {
                assert(hs[i0][j0] == h[j0]);
                if !(i1 == i0 && j1 == j0) {
                    assert(hs2[i1][j1] == hs[i1][j1]);
                }
                if !(i2 == i0 && j2 == j0) {
                    assert(hs2[i2][j2] == hs[i2][j2]);
                }
                if i1 == i0 && j1 == j0 {
                    assert(!intervals_meet(hs[i0][j0], hs[i2][j2]));
                    assert(hs[i2][j2].hi < t);
                } else if i2 == i0 && j2 == j0 {
                    assert(!intervals_meet(hs[i1][j1], hs[i0][j0]));
                    assert(hs[i1][j1].hi < t);
                }
            }
        }
        assert(covers_clock(hs2, t + 1)) by {
            assert forall|u: int| 0 <= u < t + 1 implies #[trigger] tick_owned(hs2, u) by {
                assert(hs[i0][j0] == h[j0]);
                if u < t {
                    assert(tick_owned(hs, u));
                    let (i, j) = choose|i: int, j: int|
                        0 <= i < hs.len() && 0 <= j < hs[i].len() && #[trigger] hs[i][j].has(u);
                    assert(hs2[i][j].has(u));
                } else {
                    assert(hs2[i0][j0].has(u));
                }
            }
        }
    } else {
        assert(h2 == h.push(point(t)));
        let jn = h.len() as int;
        assert(intervals_in_clock(hs2, t + 1)) by {
            assert forall|i: int, j: int| 0 <= i < hs2.len() && 0 <= j < hs2[i].len() implies {
                &&& (#[trigger] hs2[i][j]).lo <= hs2[i][j].hi
                &&& 0 <= hs2[i][j].lo
                &&& hs2[i][j].hi < t + 1
            } by {
                if !(i == i0 && j == jn) {
                    assert(hs2[i][j] == hs[i][j]);
                }
            }
        }
        assert(pairwise_disjoint(hs2)) by {
            assert forall|i1: int, j1: int, i2: int, j2: int|
                0 <= i1 < hs2.len() && 0 <= j1 < hs2[i1].len() && 0 <= i2 < hs2.len() && 0
                    <= j2 < hs2[i2].len() && (i1 != i2 || j1 != j2) implies !intervals_meet(
                #[trigger] hs2[i1][j1],
                #[trigger] hs2[i2][j2],
            ) by {
                if !(i1 == i0 && j1 == jn) {
                    assert(hs2[i1][j1] == hs[i1][j1]);
                }
                if !(i2 == i0 && j2 == jn) {
                    assert(hs2[i2][j2] == hs[i2][j2]);
                }
            }
        }
        assert(covers_clock(hs2, t + 1)) by {
            assert forall|u: int| 0 <= u < t + 1 implies #[trigger] tick_owned(hs2, u) by {
                if u < t {
                    assert(tick_owned(hs, u));
                    let (i, j) = choose|i: int, j: int|
                        0 <= i < hs.len() && 0 <= j < hs[i].len() && #[trigger] hs[i][j].has(u);
                    assert(hs2[i][j].has(u));
                } else {
                    assert(hs2[i0][jn].has(u));
                }
            }
        }
    }
    assert forall|i: int| 0 <= i < hs2.len() implies (#[trigger] hs2[i]).len() > 0 by {
        if i != i0 {
            assert(hs2[i] == hs[i]);
        }
    }
}

/// Inserting keeps the model well formed.
pub proof fn lemma_step_wf(m: MachineModel, v: ValueView)
    requires
        model_wf(m),
        m.time < i64::MAX,
    ensures
        model_wf(step(m, v)),
        step(m, v).time == m.time + 1,
{
    if has_key(m, v) {
        lemma_step_known_key(m, v);
    } else {
        lemma_step_new_key(m, v);
    }
}

proof fn lemma_insert_pos_is(keys: Seq<ValueView>, v: ValueView, p: int)
    requires
        0 <= p <= keys.len(),
        forall|k: int| 0 <= k < p ==> key_cmp_spec(#[trigger] keys[k], v) == Ordering::Less,
        p == keys.len() || key_cmp_spec(keys[p], v) != Ordering::Less,
    ensures
        insert_pos(keys, v) == p,
    decreases p,
{
    if p > 0 {
        assert(key_cmp_spec(keys[0], v) == Ordering::Less);
        let d = keys.drop_first();
        assert forall|k: int| 0 <= k < p - 1 implies key_cmp_spec(#[trigger] d[k], v)
            == Ordering::Less by {
            assert(d[k] == keys[k + 1]);
        }
        lemma_insert_pos_is(d, v, p - 1);
    }
}

/// The history recorded for `v`, if `v` was ever inserted.
pub open spec fn lookup(m: MachineModel, v: ValueView) -> Option<Seq<Interval>> {
    if has_key(m, v) {
        Some(m.hists[key_index(m, v)])
    } else {
        None
    }
}

/// Among the first `n` keys, in key order, those whose history meets `ranges`.
pub open spec fn values_meeting_upto(m: MachineModel, ranges: Seq<Interval>, n: int) -> Seq<
    ValueView,
>
    decreases n,
{
    if n <= 0 {
        Seq::empty()
    } else {
        let s = values_meeting_upto(m, ranges, n - 1);
        if histories_meet(ranges, m.hists[n - 1]) {
            s.push(m.keys[n - 1])
        } else {
            s
        }
    }
}

/// The keys, in key order, whose history meets `ranges`.
pub open spec fn values_meeting(m: MachineModel, ranges: Seq<Interval>) -> Seq<ValueView> {
    values_meeting_upto(m, ranges, m.keys.len() as int)
}

/// Among the first `n` keys, the histories of those that satisfy `key op other`.
pub open spec fn hists_matching_upto(
    m: MachineModel,
    other: ValueView,
    op: CompareOp,
    n: int,
) -> Seq<Seq<Interval>>
    decreases n,
{
    if n <= 0 {
        Seq::empty()
    } else {
        let s = hists_matching_upto(m, other, op, n - 1);
        if compare_holds(crate::value::partial_cmp_spec(m.keys[n - 1], other), op) {
            s.push(m.hists[n - 1])
        } else {
            s
        }
    }
}

/// In key order, the histories of the keys that satisfy `key op other`.
pub open spec fn hists_matching(m: MachineModel, other: ValueView, op: CompareOp) -> Seq<
    Seq<Interval>,
> {
    hists_matching_upto(m, other, op, m.keys.len() as int)
}

/// The value in effect at the last tick, if any tick has passed.
pub open spec fn last_value_of(m: MachineModel) -> Option<ValueView> {
    if m.time > 0 {
        let i = choose|i: int| 0 <= i < m.keys.len() && run_ends_at(m.hists[i], m.time - 1);
        Some(m.keys[i])
    } else {
        None
    }
}

/// The index over one variable: each distinct value it held, kept in key
/// order, with the history of when it held it, and a logical clock.
#[derive(Debug)]
pub struct MemoryMachine {
    keys: Vec<Value>,
    hists: Vec<History>,
    logic_time: i64,
}

impl View for MemoryMachine {
    type V = MachineModel;

    closed spec fn view(&self) -> MachineModel {
        MachineModel {
            keys: self.keys@.map_values(|k: Value| k@),
            hists: self.hists@.map_values(|h: History| h@),
            time: self.logic_time as int,
        }
    }
}

fn copy_history(h: &History) -> (r: History)
    ensures
        r@ == h@,
{
    let mut r: History = Vec::new();
    let mut i: usize = 0;
    while i < h.len()
        invariant
            i <= h.len(),
            r@ == h@.subrange(0, i as int),
        decreases h.len() - i,
    {
        r.push(h[i]);
        i = i + 1;
    }
    assert(r@ =~= h@);
    r
}

impl MemoryMachine {
    pub open spec fn wf(&self) -> bool {
        model_wf(self@)
    }

    /// An empty index with its clock at zero.
    pub fn init() -> (r: MemoryMachine)
        ensures
            r.wf(),
            r@ == empty_model(),
    {
        let r = MemoryMachine { keys: Vec::new(), hists: Vec::new(), logic_time: 0 };
        assert(r@.keys =~= Seq::<ValueView>::empty());
        assert(r@.hists =~= Seq::<Seq<Interval>>::empty());
        r
    }

    /// The logical clock: the number of inserts so far.
    pub fn clock(&self) -> (r: i64)
        ensures
            r as int == self@.time,
    {
        self.logic_time
    }

    fn find_key(&self, value: &Value) -> (r: Option<usize>)
        requires
            self.wf(),
        ensures
            match r {
                Some(i) => has_key(self@, value@) && i as int == key_index(self@, value@),
                None => !has_key(self@, value@),
            },
    {
        let ghost m = self@;
        let mut i: usize = 0;
        while i < self.keys.len()
            invariant
                m == self@,
                model_wf(m),
                i <= self.keys.len(),
                forall|k: int| 0 <= k < i ==> m.keys[k] != value@,
            decreases self.keys.len() - i,
        {
            if matches!(self.keys[i].key_cmp(value), Ordering::Equal) {
                proof {
                    lemma_key_cmp_equal(self.keys@[i as int]@, value@);
                    assert(m.keys[i as int] == value@);
                    let c = key_index(m, value@);
                    assert(m.keys[c] == value@);
                }
                return Some(i);
            }
            proof {
                if m.keys[i as int] == value@ {
                    lemma_key_cmp_refl(value@);
                }
            }
            i = i + 1;
        }
        None
    }

    /// Records `value` at the current tick and advances the clock: the
    /// interval of `value` that holds the previous tick grows by one, or else
    /// a new one-tick interval is added.
    pub fn insert(&mut self, value: Value)
        requires
            old(self).wf(),
            old(self)@.time < i64::MAX,
        ensures
            final(self).wf(),
            final(self)@ == step(old(self)@, value@),
            final(self)@.time == old(self)@.time + 1,
    {
        let ghost m = self@;
        proof {
            lemma_step_wf(m, value@);
        }
        let t = self.logic_time;
        match self.find_key(&value) {
            Some(i) => {
                let ghost h = m.hists[i as int];
                let mut j: usize = 0;
                let mut found = false;
                while j < self.hists[i].len() && !found
                    invariant
                        m == self@,
                        model_wf(m),
                        t == m.time,
                        i < self.hists.len(),
                        h == self.hists@[i as int]@,
                        j <= h.len(),
                        !found ==> forall|q: int| 0 <= q < j ==> !(#[trigger] h[q]).has(t - 1),
                        found ==> j < h.len() && h[j as int].has(t - 1),
                    decreases h.len() - j + (if found { 0int } else { 1int }),
                {
                    if self.hists[i][j].contains(t - 1) {
                        found = true;
                    } else {
                        j = j + 1;
                    }
                }
                let ghost h2 = extend_history(h, t as int);
                if found {
                    proof {
                        let j2 = choose|q: int| 0 <= q < h.len() && h[q].has(t - 1);
                        assert(m.hists[i as int][j2] == h[j2]);
                        assert(m.hists[i as int][j as int] == h[j as int]);
                        if j2 != j as int {
                            assert(!intervals_meet(
                                m.hists[i as int][j as int],
                                m.hists[i as int][j2],
                            ));
                        }
                        assert(j2 == j as int);
                    }
                    let lo = self.hists[i][j].lo;
                    let mut row = copy_history(&self.hists[i]);
                    row.set(j, Interval { lo, hi: t });
                    proof {
                        assert(row@ =~= h2);
                    }
                    self.hists.set(i, row);
                } else {
                    proof {
                        assert(!run_ends_at(h, t - 1));
                    }
                    let mut row = copy_history(&self.hists[i]);
                    row.push(Interval { lo: t, hi: t });
                    proof {
                        assert(row@ =~= h2);
                    }
                    self.hists.set(i, row);
                }
                proof {
                    assert(self@.hists =~= m.hists.update(i as int, h2));
                    assert(self.keys@.map_values(|k: Value| k@) =~= m.keys);
                }
            },
            None => {
                let mut p: usize = 0;
                let mut stop = false;
                while p < self.keys.len() && !stop
                    invariant
                        m == self@,
                        p <= self.keys.len(),
                        stop ==> p < self.keys.len() && key_cmp_spec(m.keys[p as int], value@)
                            != Ordering::Less,
                        forall|k: int|
                            0 <= k < p ==> key_cmp_spec(#[trigger] m.keys[k], value@)
                                == Ordering::Less,
                    decreases self.keys.len() - p + (if stop { 0int } else { 1int }),
                {
                    if !matches!(self.keys[p].key_cmp(&value), Ordering::Less) {
                        stop = true;
                    } else {
                        p = p + 1;
                    }
                }
                proof {
                    lemma_insert_pos_is(m.keys, value@, p as int);
                }
                let ghost vv = value@;
                self.keys.insert(p, value);
                self.hists.insert(p, vec![Interval { lo: t, hi: t }]);
                proof {
                    assert(self@.keys =~= m.keys.insert(p as int, vv));
                    assert(self.hists@[p as int]@ =~= seq![point(t as int)]);
                    assert(self@.hists =~= m.hists.insert(p as int, seq![point(t as int)]));
                }
            },
        }
        self.logic_time = t + 1;
    }
    /// A copy of the history of `value`, or `None` if it was never inserted.
    pub fn get(&self, value: &Value) -> (r: Option<History>)
        requires
            self.wf(),
        ensures
            match r {
                Some(h) => lookup(self@, value@) == Some(h@),
                None => lookup(self@, value@).is_none(),
            },
    {
        match self.find_key(value) {
            Some(i) => {
                let h = copy_history(&self.hists[i]);
                Some(h)
            },
            None => None,
        }
    }

    /// The values, in key order, whose history meets `ranges` (first
    /// intervals or last intervals meet).
    pub fn get_values_by_range_inclusive(&self, ranges: &History) -> (r: Vec<Value>)
        requires
            self.wf(),
            crate::interval::history_wf(ranges@),
        ensures
            r@.map_values(|v: Value| v@) == values_meeting(self@, ranges@),
    {
        let ghost m = self@;
        let mut out: Vec<Value> = Vec::new();
        let mut i: usize = 0;
        while i < self.keys.len()
            invariant
                m == self@,
                model_wf(m),
                crate::interval::history_wf(ranges@),
                i <= self.keys.len(),
                out@.map_values(|v: Value| v@) == values_meeting_upto(m, ranges@, i as int),
            decreases self.keys.len() - i,
        {
            proof {
                assert(m.hists[i as int] == self.hists@[i as int]@);
                assert forall|q: int| 0 <= q < m.hists[i as int].len() implies (
                #[trigger] m.hists[i as int][q]).wf() by {
                    assert(m.hists[i as int][q].lo <= m.hists[i as int][q].hi);
                }
            }
            let ghost before = out@;
            if intersect_histories(ranges, &self.hists[i]) {
                out.push(self.keys[i].copied());
                proof {
                    assert(out@.map_values(|v: Value| v@) =~= before.map_values(|v: Value| v@).push(
                        m.keys[i as int],
                    ));
                }
            }
            i = i + 1;
        }
        out
    }

    /// The value recorded at the last tick, or `None` before the first insert.
    pub fn get_last_value(&self) -> (r: Option<&Value>)
        requires
            self.wf(),
        ensures
            match r {
                Some(v) => last_value_of(self@) == Some(v@),
                None => last_value_of(self@).is_none(),
            },
    {
        let ghost m = self@;
        if self.logic_time == 0 {
            return None;
        }
        let last = self.logic_time - 1;
        let mut i: usize = 0;
        while i < self.keys.len()
            invariant
                m == self@,
                model_wf(m),
                m.time > 0,
                last == m.time - 1,
                i <= self.keys.len(),
                forall|k: int| 0 <= k < i ==> !run_ends_at(#[trigger] m.hists[k], last as int),
            decreases self.keys.len() - i,
        {
            let ghost h = m.hists[i as int];
            let mut j: usize = 0;
            while j < self.hists[i].len()
                invariant
                    m == self@,
                    model_wf(m),
                    m.time > 0,
                    last == m.time - 1,
                    i < self.keys.len(),
                    h == m.hists[i as int],
                    h == self.hists@[i as int]@,
                    j <= h.len(),
                    forall|q: int| 0 <= q < j ==> !(#[trigger] h[q]).has(last as int),
                decreases h.len() - j,
            {
                if self.hists[i][j].contains(last) {
                    proof {
                        assert(h[j as int].has(last as int));
                        assert(run_ends_at(m.hists[i as int], m.time - 1));
                        let c = choose|c: int|
                            0 <= c < m.keys.len() && run_ends_at(m.hists[c], m.time - 1);
                        let q = choose|q: int| 0 <= q < m.hists[c].len() && m.hists[c][q].has(m.time - 1);
                        assert(m.hists[i as int][j as int] == h[j as int]);
                        if c != i as int {
                            assert(!intervals_meet(m.hists[i as int][j as int], m.hists[c][q]));
                        }
                    }
                    return Some(&self.keys[i]);
                }
                j = j + 1;
            }
            i = i + 1;
        }
        proof {
            assert(tick_owned(m.hists, last as int));
            let (a, b) = choose|a: int, b: int|
                0 <= a < m.hists.len() && 0 <= b < m.hists[a].len() && #[trigger] m.hists[a][b].has(
                    last as int,
                );
            assert(run_ends_at(m.hists[a], last as int));
        }
        None
    }

    /// The histories, in key order, of the values `key` for which
    /// `key op other` holds.
    pub fn get_by_compare_with(&self, other: &Value, op: CompareOp) -> (r: Vec<History>)
        requires
            self.wf(),
        ensures
            r@.map_values(|h: History| h@) == hists_matching(self@, other@, op),
    {
        let ghost m = self@;
        let mut out: Vec<History> = Vec::new();
        let mut i: usize = 0;
        while i < self.keys.len()
            invariant
                m == self@,
                model_wf(m),
                i <= self.keys.len(),
                out@.map_values(|h: History| h@) == hists_matching_upto(m, other@, op, i as int),
            decreases self.keys.len() - i,
        {
            let ghost before = out@;
            if Value::comparing(&self.keys[i], other, op) {
                out.push(copy_history(&self.hists[i]));
                proof {
                    assert(out@.map_values(|h: History| h@) =~= before.map_values(|h: History| h@).push(
                        m.hists[i as int],
                    ));
                }
            }
            i = i + 1;
        }
        out
    }
}

/// The model after inserting `vs` in order into an empty index.
pub open spec fn replay(vs: Seq<ValueView>) -> MachineModel
    decreases vs.len(),
{
    if vs.len() == 0 {
        empty_model()
    } else {
        step(replay(vs.drop_last()), vs.last())
    }
}

/// The model after inserting `v` into `m` `k` times in a row.
pub open spec fn repeat(m: MachineModel, v: ValueView, k: int) -> MachineModel
    decreases k,
{
    if k <= 0 {
        m
    } else {
        step(repeat(m, v, k - 1), v)
    }
}

/// After `n` inserts into an empty index the clock reads `n`, and the
/// histories of all values split `[0, n - 1]`: every tick lies in some
/// interval, no two intervals share a tick, and no interval leaves the range.
pub proof fn lemma_timeline_partition(vs: Seq<ValueView>)
    requires
        vs.len() <= i64::MAX,
    ensures
        model_wf(replay(vs)),
        replay(vs).time == vs.len(),
        forall|t: int| 0 <= t < vs.len() ==> #[trigger] tick_owned(replay(vs).hists, t),
        pairwise_disjoint(replay(vs).hists),
        intervals_in_clock(replay(vs).hists, vs.len() as int),
    decreases vs.len(),
{
    if vs.len() > 0 {
        lemma_timeline_partition(vs.drop_last());
        lemma_step_wf(replay(vs.drop_last()), vs.last());
    }
}

proof fn lemma_key_index_unique(m: MachineModel, v: ValueView, i: int)
    requires
        model_wf(m),
        0 <= i < m.keys.len(),
        m.keys[i] == v,
    ensures
        has_key(m, v),
        key_index(m, v) == i,
{
    let c = key_index(m, v);
    assert(m.keys[c] == v);
}

proof fn lemma_lookup_self(m: MachineModel, v: ValueView)
    requires
        model_wf(m),
        m.time < i64::MAX,
    ensures
        lookup(step(m, v), v) == if has_key(m, v) {
            Some(extend_history(m.hists[key_index(m, v)], m.time))
        } else {
            Some(seq![point(m.time)])
        },
{
    lemma_step_wf(m, v);
    let m2 = step(m, v);
    if has_key(m, v) {
        let i = key_index(m, v);
        lemma_key_index_unique(m2, v, i);
    } else {
        let p = insert_pos(m.keys, v);
        lemma_insert_pos_range(m.keys, v);
        assert(m2.keys[p] == v);
        lemma_key_index_unique(m2, v, p);
    }
}

proof fn lemma_lookup_other(m: MachineModel, w: ValueView, v: ValueView)
    requires
        model_wf(m),
        m.time < i64::MAX,
        w != v,
    ensures
        lookup(step(m, w), v) == lookup(m, v),
{
    lemma_step_wf(m, w);
    let m2 = step(m, w);
    if has_key(m, v) {
        let i = key_index(m, v);
        if has_key(m, w) {
            assert(m.keys[key_index(m, w)] == w);
            assert(m2.keys[i] == v);
            lemma_key_index_unique(m2, v, i);
        } else {
            let p = insert_pos(m.keys, w);
            lemma_insert_pos_range(m.keys, w);
            let ni = if i < p { i } else { i + 1 };
            assert(m2.keys[ni] == v);
            assert(m2.hists[ni] == m.hists[i]);
            lemma_key_index_unique(m2, v, ni);
        }
    } else {
        if has_key(m2, v) {
            let c = key_index(m2, v);
            if has_key(m, w) {
                assert(m.keys[c] == v);
            } else {
                let p = insert_pos(m.keys, w);
                lemma_insert_pos_range(m.keys, w);
                if c < p {
                    assert(m.keys[c] == v);
                } else if c > p {
                    assert(m.keys[c - 1] == v);
                }
            }
        }
    }
}

/// Inserting one value `k` times in a row into an index that has not seen
/// it leaves it exactly one interval, `[t0, t0 + k - 1]`.
pub proof fn lemma_repeat_run(m: MachineModel, v: ValueView, k: int)
    requires
        model_wf(m),
        !has_key(m, v),
        k >= 1,
        m.time + k <= i64::MAX,
    ensures
        model_wf(repeat(m, v, k)),
        repeat(m, v, k).time == m.time + k,
        lookup(repeat(m, v, k), v) == Some(
            seq![Interval { lo: m.time as i64, hi: (m.time + k - 1) as i64 }],
        ),
    decreases k,
{
    if k == 1 {
        assert(repeat(m, v, 0) == m);
        lemma_step_wf(m, v);
        lemma_lookup_self(m, v);
    } else {
        lemma_repeat_run(m, v, k - 1);
        let mp = repeat(m, v, k - 1);
        lemma_step_wf(mp, v);
        lemma_lookup_self(mp, v);
        let h = seq![Interval { lo: m.time as i64, hi: (m.time + k - 2) as i64 }];
        assert(has_key(mp, v));
        assert(mp.hists[key_index(mp, v)] == h);
        assert(h[0].has(mp.time - 1));
        assert(run_ends_at(h, mp.time - 1));
        assert(extend_history(h, mp.time) =~= seq![
            Interval { lo: m.time as i64, hi: (m.time + k - 1) as i64 },
        ]);
    }
}

/// Inserting `v1, v2, v1`, two values that the index has not seen, gives
/// `v1` the two intervals `[t, t]` and `[t + 2, t + 2]` and `v2` the one
/// interval `[t + 1, t + 1]`.
pub proof fn lemma_interleaved_runs(m: MachineModel, v1: ValueView, v2: ValueView)
    requires
        model_wf(m),
        !has_key(m, v1),
        !has_key(m, v2),
        v1 != v2,
        m.time + 3 <= i64::MAX,
    ensures
        lookup(step(step(step(m, v1), v2), v1), v1) == Some(
            seq![point(m.time), point(m.time + 2)],
        ),
        lookup(step(step(step(m, v1), v2), v1), v2) == Some(seq![point(m.time + 1)]),
{
    let m1 = step(m, v1);
    let m2 = step(m1, v2);
    let m3 = step(m2, v1);
    lemma_step_wf(m, v1);
    lemma_step_wf(m1, v2);
    lemma_step_wf(m2, v1);
    lemma_lookup_self(m, v1);
    lemma_lookup_other(m, v1, v2);
    lemma_lookup_self(m1, v2);
    lemma_lookup_other(m1, v2, v1);
    lemma_lookup_self(m2, v1);
    lemma_lookup_other(m2, v1, v2);
    let h = seq![point(m.time)];
    assert(has_key(m2, v1));
    assert(m2.hists[key_index(m2, v1)] == h);
    assert(!run_ends_at(h, m2.time - 1));
    assert(extend_history(h, m2.time) =~= seq![point(m.time), point(m.time + 2)]);
}

/// After inserting `v`, the last value is `v`.
pub proof fn lemma_last_value_after_insert(m: MachineModel, v: ValueView)
    requires
        model_wf(m),
        m.time < i64::MAX,
    ensures
        last_value_of(step(m, v)) == Some(v),
{
    lemma_step_wf(m, v);
    lemma_lookup_self(m, v);
    let m2 = step(m, v);
    let t = m.time;
    assert(has_key(m2, v));
    let i = key_index(m2, v);
    let h = m2.hists[i];
    assert(lookup(m2, v) == Some(h));
    let jt = if has_key(m, v) {
        let h0 = m.hists[key_index(m, v)];
        if run_ends_at(h0, t - 1) {
            choose|j: int| 0 <= j < h0.len() && h0[j].has(t - 1)
        } else {
            h0.len() as int
        }
    } else {
        0
    };
    assert(0 <= jt < h.len() && h[jt].has(t));
    assert(run_ends_at(m2.hists[i], t));
    let c = choose|c: int| 0 <= c < m2.keys.len() && run_ends_at(m2.hists[c], m2.time - 1);
    let q = choose|q: int| 0 <= q < m2.hists[c].len() && m2.hists[c][q].has(m2.time - 1);
    if c != i {
        assert(!intervals_meet(m2.hists[c][q], m2.hists[i][jt]));
    }
}

proof fn lemma_values_meeting_has(m: MachineModel, ranges: Seq<Interval>, n: int, i: int)
    requires
        0 <= i < n <= m.keys.len(),
        histories_meet(ranges, m.hists[i]),
    ensures
        values_meeting_upto(m, ranges, n).contains(m.keys[i]),
    decreases n,
{
    let s = values_meeting_upto(m, ranges, n - 1);
    if i == n - 1 {
        assert(values_meeting_upto(m, ranges, n) == s.push(m.keys[i]));
        assert(s.push(m.keys[i])[s.len() as int] == m.keys[i]);
    } else {
        lemma_values_meeting_has(m, ranges, n - 1, i);
        let k = choose|k: int| 0 <= k < s.len() && s[k] == m.keys[i];
        if histories_meet(ranges, m.hists[n - 1]) {
            assert(s.push(m.keys[n - 1])[k] == m.keys[i]);
        }
    }
}

/// The values that co-occur with the history of `v` include `v` itself.
pub proof fn lemma_history_selects_own_value(m: MachineModel, v: ValueView, h: Seq<Interval>)
    requires
        model_wf(m),
        lookup(m, v) == Some(h),
        h.len() > 0,
    ensures
        values_meeting(m, h).contains(v),
{
    let i = key_index(m, v);
    assert(m.hists[i] == h);
    assert(h[0] == m.hists[i][0]);
    assert(intervals_meet(h[0], h[0]));
    lemma_values_meeting_has(m, h, m.keys.len() as int, i);
}

} // verus!
