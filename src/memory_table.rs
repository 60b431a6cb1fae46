use vstd::prelude::*;
use crate::value::{Value, ValueView};
use crate::interval::{Interval, History, history_wf};
use crate::compared::CompareOp;
use crate::memory_machine::{
    MemoryMachine,
    MachineModel,
    model_wf,
    step,
    empty_model,
    lookup,
    values_meeting,
    hists_matching,
    hists_matching_upto,
    lemma_step_wf,
};
use crate::print_of_state::PrintOfState;
use crate::expr::{DataVar, BinaryExpr};

verus! {

/// The mathematical content of a `MemoryTable`: variable names in the order
/// they were first written, and the index of each.
pub struct TableModel {
    pub names: Seq<Seq<char>>,
    pub machines: Seq<MachineModel>,
}

pub open spec fn empty_table() -> TableModel {
    TableModel { names: Seq::empty(), machines: Seq::empty() }
}

pub open spec fn has_var(t: TableModel, name: Seq<char>) -> bool {
    exists|i: int| 0 <= i < t.names.len() && t.names[i] == name
}

pub open spec fn var_index(t: TableModel, name: Seq<char>) -> int {
    choose|i: int| 0 <= i < t.names.len() && t.names[i] == name
}

pub open spec fn table_wf(t: TableModel) -> bool {
    &&& t.names.len() == t.machines.len()
    &&& forall|i: int, j: int|
        0 <= i < t.names.len() && 0 <= j < t.names.len() && i != j ==> t.names[i] != t.names[j]
    &&& forall|i: int| 0 <= i < t.machines.len() ==> model_wf(#[trigger] t.machines[i])
}

/// Whether one more write to `name` keeps its clock within `i64`.
pub open spec fn can_write(t: TableModel, name: Seq<char>) -> bool {
    has_var(t, name) ==> t.machines[var_index(t, name)].time < i64::MAX
}

/// The effect of writing `v` to the variable `name`.
pub open spec fn table_insert(t: TableModel, name: Seq<char>, v: ValueView) -> TableModel {
    if has_var(t, name) {
        let i = var_index(t, name);
        TableModel { names: t.names, machines: t.machines.update(i, step(t.machines[i], v)) }
    } else {
        TableModel { names: t.names.push(name), machines: t.machines.push(step(empty_model(), v)) }
    }
}

/// From variable `k` on, the first one whose values meet `h`.
pub open spec fn first_meeting_from(t: TableModel, h: Seq<Interval>, k: int) -> Option<
    Seq<ValueView>,
>
    decreases t.machines.len() - k,
{
    if k < 0 || k >= t.machines.len() {
        None
    } else if values_meeting(t.machines[k], h).len() > 0 {
        Some(values_meeting(t.machines[k], h))
    } else {
        first_meeting_from(t, h, k + 1)
    }
}

/// What `find` returns for the binding `name = v`.
pub open spec fn find_spec(t: TableModel, name: Seq<char>, v: ValueView) -> Option<Seq<ValueView>> {
    if has_var(t, name) {
        match lookup(t.machines[var_index(t, name)], v) {
            Some(h) => first_meeting_from(t, h, 0),
            None => None,
        }
    } else {
        None
    }
}

/// For every variable, its name and its values that meet `h`.
pub open spec fn snapshots(t: TableModel, h: Seq<Interval>) -> Seq<(Seq<char>, Seq<ValueView>)> {
    Seq::new(t.names.len(), |i: int| (t.names[i], values_meeting(t.machines[i], h)))
}

/// The snapshots selected by the anchor variable `sym` under `key op literal`:
/// the first matching key's history is correlated with every variable.
pub open spec fn side_spec(
    t: TableModel,
    sym: Option<Seq<char>>,
    literal: ValueView,
    op: CompareOp,
) -> Seq<(Seq<char>, Seq<ValueView>)> {
    match sym {
        Some(name) => if has_var(t, name) {
            let hs = hists_matching(t.machines[var_index(t, name)], literal, op);
            if hs.len() > 0 {
                snapshots(t, hs[0])
            } else {
                Seq::empty()
            }
        } else {
            Seq::empty()
        },
        None => Seq::empty(),
    }
}

pub open spec fn symbol_of(v: ValueView) -> Option<Seq<char>> {
    match v {
        ValueView::Symbol(s) => Some(s),
        _ => None,
    }
}

/// What `find_by_predicate` returns for `left op right`.
pub open spec fn predicate_spec(t: TableModel, left: ValueView, right: ValueView, op: CompareOp) -> Option<
    Seq<(Seq<char>, Seq<ValueView>)>,
> {
    let ls = symbol_of(left);
    let rs = symbol_of(right);
    if ls.is_some() && rs.is_some() {
        None
    } else {
        let from_l = side_spec(t, ls, right, op);
        let from_r = side_spec(t, rs, left, op);
        if from_l.len() > 0 {
            Some(from_l)
        } else if from_r.len() > 0 {
            Some(from_r)
        } else {
            None
        }
    }
}

pub open spec fn states_view(v: Seq<PrintOfState>) -> Seq<(Seq<char>, Seq<ValueView>)> {
    v.map_values(|p: PrintOfState| p@)
}

/// The variables of one channel, each with its own index and clock.
#[derive(Debug)]
pub struct MemoryTable {
    names: Vec<String>,
    machines: Vec<MemoryMachine>,
}

impl View for MemoryTable {
    type V = TableModel;

    closed spec fn view(&self) -> TableModel {
        TableModel {
            names: self.names@.map_values(|n: String| n@),
            machines: self.machines@.map_values(|m: MemoryMachine| m@),
        }
    }
}

/// Writing to a table keeps it well formed.
pub proof fn lemma_table_insert_wf(t: TableModel, name: Seq<char>, v: ValueView)
    requires
        table_wf(t),
        can_write(t, name),
    ensures
        table_wf(table_insert(t, name, v)),
{
    let t2 = table_insert(t, name, v);
    if has_var(t, name) {
        let i = var_index(t, name);
        lemma_step_wf(t.machines[i], v);
        assert forall|k: int| 0 <= k < t2.machines.len() implies model_wf(#[trigger] t2.machines[k]) by {
            if k != i {
                assert(t2.machines[k] == t.machines[k]);
            }
        }
    } else {
        lemma_step_wf(empty_model(), v);
        assert forall|k: int| 0 <= k < t2.machines.len() implies model_wf(#[trigger] t2.machines[k]) by {
            if k < t.machines.len() {
                assert(t2.machines[k] == t.machines[k]);
            }
        }
        assert forall|a: int, b: int|
            0 <= a < t2.names.len() && 0 <= b < t2.names.len() && a != b implies t2.names[a]
            != t2.names[b] by {
            if a < t.names.len() && b < t.names.len() {
                assert(t2.names[a] == t.names[a]);
                assert(t2.names[b] == t.names[b]);
            } else if a < t.names.len() {
                assert(t2.names[a] == t.names[a]);
            } else if b < t.names.len() {
                assert(t2.names[b] == t.names[b]);
            }
        }
    }
}

proof fn lemma_matching_wf(m: MachineModel, other: ValueView, op: CompareOp, n: int)
    requires
        0 <= n <= m.keys.len(),
        model_wf(m),
    ensures
        forall|k: int|
            0 <= k < hists_matching_upto(m, other, op, n).len() ==> history_wf(
                #[trigger] hists_matching_upto(m, other, op, n)[k],
            ),
    decreases n,
{
    if n > 0 {
        lemma_matching_wf(m, other, op, n - 1);
        lemma_histories_wf(m, n - 1);
        let s = hists_matching_upto(m, other, op, n - 1);
        let s2 = hists_matching_upto(m, other, op, n);
        assert forall|k: int| 0 <= k < s2.len() implies history_wf(#[trigger] s2[k]) by {
            if k < s.len() {
                assert(s2[k] == s[k]);
            } else {
                assert(s2[k] == m.hists[n - 1]);
            }
        }
    }
}

proof fn lemma_histories_wf(m: MachineModel, i: int)
    requires
        model_wf(m),
        0 <= i < m.hists.len(),
    ensures
        history_wf(m.hists[i]),
{
    assert forall|q: int| 0 <= q < m.hists[i].len() implies (#[trigger] m.hists[i][q]).wf() by {
        assert(m.hists[i][q].lo <= m.hists[i][q].hi);
    }
}

impl MemoryTable {
    pub open spec fn wf(&self) -> bool {
        table_wf(self@)
    }

    /// A table with no variables.
    pub fn init() -> (r: MemoryTable)
        ensures
            r.wf(),
            r@ == empty_table(),
    {
        let r = MemoryTable { names: Vec::new(), machines: Vec::new() };
        assert(r@.names =~= Seq::<Seq<char>>::empty());
        assert(r@.machines =~= Seq::<MachineModel>::empty());
        r
    }

    fn find_var(&self, name: &String) -> (r: Option<usize>)
        requires
            self.wf(),
        ensures
            match r {
                Some(i) => has_var(self@, name@) && i as int == var_index(self@, name@),
                None => !has_var(self@, name@),
            },
    {
        let ghost t = self@;
        let mut i: usize = 0;
        while i < self.names.len()
            invariant
                t == self@,
                table_wf(t),
                i <= self.names.len(),
                forall|k: int| 0 <= k < i ==> t.names[k] != name@,
            decreases self.names.len() - i,
        {
            if self.names[i] == *name {
                proof {
                    assert(t.names[i as int] == name@);
                    let c = var_index(t, name@);
                    assert(t.names[c] == name@);
                }
                return Some(i);
            }
            i = i + 1;
        }
        None
    }

    /// Whether one more write to `name_var` keeps its clock within `i64`.
    pub fn can_insert(&self, name_var: &str) -> (r: bool)
        requires
            self.wf(),
        ensures
            r == can_write(self@, name_var@),
    {
        let name = name_var.to_owned();
        match self.find_var(&name) {
            Some(i) => {
                proof {
                    assert(self@.machines[i as int] == self.machines@[i as int]@);
                }
                self.machines[i].clock() < i64::MAX
            },
            None => true,
        }
    }

    /// Writes `value` to the variable `name_var`, creating the variable on
    /// its first write.
    pub fn insert(&mut self, name_var: &str, value: Value)
        requires
            old(self).wf(),
            can_write(old(self)@, name_var@),
        ensures
            final(self).wf(),
            final(self)@ == table_insert(old(self)@, name_var@, value@),
    {
        let ghost t = self@;
        let ghost vv = value@;
        let name = name_var.to_owned();
        match self.find_var(&name) {
            Some(i) => {
                let mut machine = self.machines.remove(i);
                proof {
                    assert(machine@ == t.machines[i as int]);
                    lemma_step_wf(machine@, vv);
                }
                machine.insert(value);
                self.machines.insert(i, machine);
                proof {
                    assert(self@.machines =~= t.machines.update(i as int, step(t.machines[i as int], vv)));
                    assert(self@.names =~= t.names);
                    assert(table_wf(self@));
                }
            },
            None => {
                let mut machine = MemoryMachine::init();
                proof {
                    lemma_step_wf(empty_model(), vv);
                }
                machine.insert(value);
                self.names.push(name);
                self.machines.push(machine);
                proof {
                    assert(self@.machines =~= t.machines.push(step(empty_model(), vv)));
                    assert(self@.names =~= t.names.push(name_var@));
                    assert(table_wf(self@));
                }
            },
        }
    }
    /// The values that co-occur with the binding `var`: the history of
    /// `var.value` in `var.name` is correlated with each variable in turn, and
    /// the first non-empty result is returned. `None` when the variable or
    /// the value was never written.
    pub fn find(&self, var: &DataVar) -> (r: Option<Vec<Value>>)
        requires
            self.wf(),
        ensures
            match r {
                Some(vals) => find_spec(self@, var.name@, var.value@) == Some(
                    vals@.map_values(|v: Value| v@),
                ),
                None => find_spec(self@, var.name@, var.value@).is_none(),
            },
    {
        let ghost t = self@;
        let i = match self.find_var(&var.name) {
            Some(i) => i,
            None => return None,
        };
        proof {
            assert(t.machines[i as int] == self.machines@[i as int]@);
        }
        let h = match self.machines[i].get(&var.value) {
            Some(h) => h,
            None => return None,
        };
        proof {
            let m = t.machines[i as int];
            lemma_histories_wf(m, crate::memory_machine::key_index(m, var.value@));
        }
        let mut k: usize = 0;
        while k < self.machines.len()
            invariant
                t == self@,
                table_wf(t),
                history_wf(h@),
                k <= self.machines.len(),
                find_spec(t, var.name@, var.value@) == first_meeting_from(t, h@, k as int),
            decreases self.machines.len() - k,
        {
            proof {
                assert(t.machines[k as int] == self.machines@[k as int]@);
            }
            let vals = self.machines[k].get_values_by_range_inclusive(&h);
            if vals.len() > 0 {
                return Some(vals);
            }
            k = k + 1;
        }
        None
    }

    /// The snapshots selected by the anchor variable `symbol` under
    /// `key op literal`, or none when there is no anchor, no such variable or
    /// no matching key.
    fn resolve_symbol_operator_get_values_by_range_inclusive(
        &self,
        symbol: Option<&String>,
        literal: &Value,
        op: CompareOp,
    ) -> (r: Vec<PrintOfState>)
        requires
            self.wf(),
        ensures
            states_view(r@) == side_spec(self@, opt_view(symbol), literal@, op),
    {
        let ghost t = self@;
        let mut out: Vec<PrintOfState> = Vec::new();
        let name = match symbol {
            Some(name) => name,
            None => {
                assert(states_view(out@) =~= Seq::empty());
                return out;
            },
        };
        let i = match self.find_var(name) {
            Some(i) => i,
            None => {
                assert(states_view(out@) =~= Seq::empty());
                return out;
            },
        };
        proof {
            assert(t.machines[i as int] == self.machines@[i as int]@);
        }
        let hs = self.machines[i].get_by_compare_with(literal, op);
        if hs.len() == 0 {
            assert(states_view(out@) =~= Seq::empty());
            return out;
        }
        let h = &hs[0];
        proof {
            let m = t.machines[i as int];
            lemma_matching_wf(m, literal@, op, m.keys.len() as int);
            assert(hs@.map_values(|x: History| x@)[0] == h@);
        }
        let mut k: usize = 0;
        while k < self.machines.len()
            invariant
                t == self@,
                table_wf(t),
                history_wf(h@),
                k <= self.machines.len(),
                states_view(out@) =~= snapshots(t, h@).subrange(0, k as int),
            decreases self.machines.len() - k,
        {
            proof {
                assert(t.machines[k as int] == self.machines@[k as int]@);
            }
            let vals = self.machines[k].get_values_by_range_inclusive(h);
            let st = PrintOfState::new(&self.names[k], vals);
            let ghost before = out@;
            out.push(st);
            proof {
                assert(states_view(out@) =~= states_view(before).push(st@));
                assert(snapshots(t, h@).subrange(0, k + 1) =~= snapshots(t, h@).subrange(
                    0,
                    k as int,
                ).push(st@));
            }
            k = k + 1;
        }
        assert(states_view(out@) =~= snapshots(t, h@));
        out
    }

    /// Correlation query for `left op right`. Exactly one side must name a
    /// variable: its first key (in key order) that satisfies the predicate
    /// against the other side selects, from every variable, the values whose
    /// history meets that key's history. The left side is tried first.
    pub fn find_by_predicate(&self, binary_expr: &BinaryExpr) -> (r: Option<Vec<PrintOfState>>)
        requires
            self.wf(),
        ensures
            match r {
                Some(v) => predicate_spec(
                    self@,
                    binary_expr.left@,
                    binary_expr.right@,
                    binary_expr.op,
                ) == Some(states_view(v@)),
                None => predicate_spec(
                    self@,
                    binary_expr.left@,
                    binary_expr.right@,
                    binary_expr.op,
                ).is_none(),
            },
    {
        let left = &binary_expr.left;
        let right = &binary_expr.right;
        let op = binary_expr.op;
        let l_symbol = left.symbol();
        let r_symbol = right.symbol();
        if l_symbol.is_some() && r_symbol.is_some() {
            return None;
        }
        let from_l = self.resolve_symbol_operator_get_values_by_range_inclusive(l_symbol, right, op);
        let from_r = self.resolve_symbol_operator_get_values_by_range_inclusive(r_symbol, left, op);
        if from_l.len() > 0 {
            return Some(from_l);
        }
        if from_r.len() > 0 {
            return Some(from_r);
        }
        None
    }
}

pub open spec fn opt_view(o: Option<&String>) -> Option<Seq<char>> {
    match o {
        Some(s) => Some(s@),
        None => None,
    }
}

} // verus!
