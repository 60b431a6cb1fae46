use vstd::prelude::*;
use crate::value::{Value, ValueView, partial_cmp_spec};
use crate::compared::{CompareOp, compare_holds};
use crate::memory_machine::{MachineModel, hists_matching_upto};
use crate::expr::{DataVar, BinaryExpr};
use crate::print_of_state::PrintOfState;
use crate::memory_table::{
    MemoryTable,
    TableModel,
    table_wf,
    empty_table,
    can_write,
    table_insert,
    predicate_spec,
    symbol_of,
    states_view,
    side_spec,
    has_var,
    var_index,
};
use crate::memory_channel::MemoryChannel;

verus! {

/// The kind of a parsed function expression.
#[derive(Clone, Copy, Debug, PartialEq, Eq, Structural)]
pub enum FuncType {
    OnCreate,
    OnRead,
    Other,
}

/// A parsed function expression: its kind, the channels it names (as
/// symbols), its variable bindings, and the predicates of each channel.
#[derive(Clone, Debug)]
pub struct UnaryFuncExpr {
    pub func_type: FuncType,
    pub channel_names: Vec<Value>,
    pub vars: Option<Vec<DataVar>>,
    pub binary_exprs: Vec<Vec<BinaryExpr>>,
}

/// The answer to a query: the snapshots a read produced, or nothing.
#[derive(Debug)]
pub enum QueryResponse {
    PrintOfStates(Vec<PrintOfState>),
    Empty,
}

/// Runs parsed queries against the channels.
pub struct QueryResolver;

pub open spec fn bindings(vars: Option<Vec<DataVar>>) -> Seq<DataVar> {
    match vars {
        Some(v) => v@,
        None => Seq::empty(),
    }
}

/// A table after the bindings `vars` are written in order; a binding that
/// would take a clock past `i64::MAX` is skipped.
pub open spec fn fill_table(t: TableModel, vars: Seq<DataVar>) -> TableModel
    decreases vars.len(),
{
    if vars.len() == 0 {
        t
    } else {
        let t1 = fill_table(t, vars.drop_last());
        let d = vars.last();
        if can_write(t1, d.name@) {
            table_insert(t1, d.name@, d.value@)
        } else {
            t1
        }
    }
}

/// The channels after each channel in `names` is created if absent and
/// given the bindings `vars`.
pub open spec fn create_channels(
    ch: Map<Seq<char>, TableModel>,
    names: Seq<Value>,
    vars: Seq<DataVar>,
) -> Map<Seq<char>, TableModel>
    decreases names.len(),
{
    if names.len() == 0 {
        ch
    } else {
        let ch1 = create_channels(ch, names.drop_last(), vars);
        match symbol_of(names.last()@) {
            Some(n) => {
                let base = if ch1.contains_key(n) {
                    ch1[n]
                } else {
                    empty_table()
                };
                ch1.insert(n, fill_table(base, vars))
            },
            None => ch1,
        }
    }
}

/// The snapshots of the predicates `es` on table `t`, in order.
pub open spec fn read_exprs(t: TableModel, es: Seq<BinaryExpr>) -> Seq<(Seq<char>, Seq<ValueView>)>
    decreases es.len(),
{
    if es.len() == 0 {
        Seq::empty()
    } else {
        let e = es.last();
        read_exprs(t, es.drop_last()) + match predicate_spec(t, e.left@, e.right@, e.op) {
            Some(s) => s,
            None => Seq::empty(),
        }
    }
}

/// The snapshots of channel `i` of a read: none when its name is not a
/// symbol, the channel does not exist, or it has no predicates.
pub open spec fn read_channel(
    ch: Map<Seq<char>, TableModel>,
    names: Seq<Value>,
    exprs: Seq<Vec<BinaryExpr>>,
    i: int,
) -> Seq<(Seq<char>, Seq<ValueView>)> {
    match symbol_of(names[i]@) {
        Some(n) => if ch.contains_key(n) && i < exprs.len() {
            read_exprs(ch[n], exprs[i]@)
        } else {
            Seq::empty()
        },
        None => Seq::empty(),
    }
}

/// The snapshots of the first `n` channels of a read, in order.
pub open spec fn read_channels(
    ch: Map<Seq<char>, TableModel>,
    names: Seq<Value>,
    exprs: Seq<Vec<BinaryExpr>>,
    n: int,
) -> Seq<(Seq<char>, Seq<ValueView>)>
    decreases n,
{
    if n <= 0 {
        Seq::empty()
    } else {
        read_channels(ch, names, exprs, n - 1) + read_channel(ch, names, exprs, n - 1)
    }
}

pub open spec fn is_action(e: UnaryFuncExpr) -> bool {
    e.func_type == FuncType::OnCreate || e.func_type == FuncType::OnRead
}

/// The index of the first create or read expression at or after `k`.
pub open spec fn first_action_from(es: Seq<UnaryFuncExpr>, k: int) -> Option<int>
    decreases es.len() - k,
{
    if k < 0 || k >= es.len() {
        None
    } else if is_action(es[k]) {
        Some(k)
    } else {
        first_action_from(es, k + 1)
    }
}

/// The channels and the snapshots after the first create or read expression
/// of `es` runs: a create changes the channels and returns no snapshots; a
/// read leaves them and returns its snapshots; with neither, nothing happens.
pub open spec fn resolve_outcome(ch: Map<Seq<char>, TableModel>, es: Seq<UnaryFuncExpr>) -> (
    Map<Seq<char>, TableModel>,
    Option<Seq<(Seq<char>, Seq<ValueView>)>>,
) {
    match first_action_from(es, 0) {
        None => (ch, None),
        Some(i) => if es[i].func_type == FuncType::OnCreate {
            (create_channels(ch, es[i].channel_names@, bindings(es[i].vars)), None)
        } else {
            (
                ch,
                Some(
                    read_channels(
                        ch,
                        es[i].channel_names@,
                        es[i].binary_exprs@,
                        es[i].channel_names.len() as int,
                    ),
                ),
            )
        },
    }
}

pub open spec fn channels_wf(ch: Map<Seq<char>, TableModel>) -> bool {
    forall|k: Seq<char>| #[trigger] ch.contains_key(k) ==> table_wf(ch[k])
}

proof fn lemma_fill_wf(t: TableModel, vars: Seq<DataVar>)
    requires
        table_wf(t),
    ensures
        table_wf(fill_table(t, vars)),
    decreases vars.len(),
{
    if vars.len() > 0 {
        lemma_fill_wf(t, vars.drop_last());
        let t1 = fill_table(t, vars.drop_last());
        let d = vars.last();
        if can_write(t1, d.name@) {
            crate::memory_table::lemma_table_insert_wf(t1, d.name@, d.value@);
        }
    }
}

impl QueryResolver {
    fn fill(table: &mut MemoryTable, vars: &Vec<DataVar>)
        requires
            old(table).wf(),
        ensures
            final(table).wf(),
            final(table)@ == fill_table(old(table)@, vars@),
    {
        let ghost t0 = table@;
        let mut j: usize = 0;
        while j < vars.len()
            invariant
                table.wf(),
                j <= vars.len(),
                table@ == fill_table(t0, vars@.subrange(0, j as int)),
            decreases vars.len() - j,
        {
            proof {
                assert(vars@.subrange(0, j + 1).drop_last() =~= vars@.subrange(0, j as int));
                assert(vars@.subrange(0, j + 1).last() == vars@[j as int]);
            }
            let var = &vars[j];
            if table.can_insert(var.name.as_str()) {
                table.insert(var.name.as_str(), var.value.copied());
            }
            j = j + 1;
        }
        assert(vars@.subrange(0, vars.len() as int) =~= vars@);
    }

    fn on_create(mem_channel: &mut MemoryChannel, expr: &UnaryFuncExpr)
        requires
            old(mem_channel).wf(),
        ensures
            final(mem_channel).wf(),
            final(mem_channel)@ == create_channels(
                old(mem_channel)@,
                expr.channel_names@,
                bindings(expr.vars),
            ),
    {
        let ghost ch0 = mem_channel@;
        let empty: Vec<DataVar> = Vec::new();
        let vars = match &expr.vars {
            Some(v) => v,
            None => &empty,
        };
        assert(vars@ == bindings(expr.vars));
        let names = &expr.channel_names;
        let mut i: usize = 0;
        while i < names.len()
            invariant
                mem_channel.wf(),
                i <= names.len(),
                vars@ == bindings(expr.vars),
                mem_channel@ == create_channels(ch0, names@.subrange(0, i as int), vars@),
            decreases names.len() - i,
        {
            proof {
                assert(names@.subrange(0, i + 1).drop_last() =~= names@.subrange(0, i as int));
                assert(names@.subrange(0, i + 1).last() == names@[i as int]);
            }
            if let Some(name) = names[i].symbol() {
                mem_channel.insert(name.clone(), MemoryTable::init());
                match mem_channel.take(name) {
                    Some(mut table) => {
                        QueryResolver::fill(&mut table, vars);
                        mem_channel.put(name.clone(), table);
                    },
                    None => {},
                }
                proof {
                    let ch1 = create_channels(ch0, names@.subrange(0, i as int), vars@);
                    assert(mem_channel@ =~= ch1.insert(
                        name@,
                        fill_table(
                            if ch1.contains_key(name@) {
                                ch1[name@]
                            } else {
                                empty_table()
                            },
                            vars@,
                        ),
                    ));
                }
            }
            i = i + 1;
        }
        assert(names@.subrange(0, names.len() as int) =~= names@);
    }

    fn read_table(table: &MemoryTable, es: &Vec<BinaryExpr>, out: &mut Vec<PrintOfState>)
        requires
            table.wf(),
        ensures
            states_view(final(out)@) == states_view(old(out)@) + read_exprs(table@, es@),
    {
        let ghost start = states_view(out@);
        let mut k: usize = 0;
        while k < es.len()
            invariant
                table.wf(),
                k <= es.len(),
                states_view(out@) == start + read_exprs(table@, es@.subrange(0, k as int)),
            decreases es.len() - k,
        {
            proof {
                assert(es@.subrange(0, k + 1).drop_last() =~= es@.subrange(0, k as int));
                assert(es@.subrange(0, k + 1).last() == es@[k as int]);
            }
            let ghost before = out@;
            match table.find_by_predicate(&es[k]) {
                Some(mut found) => {
                    let ghost f = found@;
                    out.append(&mut found);
                    proof {
                        assert(states_view(out@) =~= states_view(before) + states_view(f));
                    }
                },
                None => {},
            }
            proof {
                assert(states_view(out@) =~= start + read_exprs(
                    table@,
                    es@.subrange(0, k + 1),
                ));
            }
            k = k + 1;
        }
        assert(es@.subrange(0, es.len() as int) =~= es@);
    }

    fn on_read(mem_channel: &MemoryChannel, expr: &UnaryFuncExpr) -> (r: Vec<PrintOfState>)
        requires
            mem_channel.wf(),
        ensures
            states_view(r@) == read_channels(
                mem_channel@,
                expr.channel_names@,
                expr.binary_exprs@,
                expr.channel_names.len() as int,
            ),
    {
        let mut out: Vec<PrintOfState> = Vec::new();
        let names = &expr.channel_names;
        let mut i: usize = 0;
        assert(states_view(out@) =~= Seq::empty());
        while i < names.len()
            invariant
                mem_channel.wf(),
                i <= names.len(),
                states_view(out@) == read_channels(
                    mem_channel@,
                    names@,
                    expr.binary_exprs@,
                    i as int,
                ),
            decreases names.len() - i,
        {
            let ghost before = states_view(out@);
            if let Some(name) = names[i].symbol() {
                if let Some(table) = mem_channel.get(name) {
                    if i < expr.binary_exprs.len() {
                        QueryResolver::read_table(table, &expr.binary_exprs[i], &mut out);
                    }
                }
            }
            proof {
                assert(states_view(out@) =~= before + read_channel(
                    mem_channel@,
                    names@,
                    expr.binary_exprs@,
                    i as int,
                ));
            }
            i = i + 1;
        }
        out
    }

    /// Runs the first create or read expression of `exprs`. A create makes
    /// each named channel that does not exist and writes the bindings to
    /// each named channel; a read gathers the snapshots of each named
    /// channel's predicates. Channels that do not exist add nothing.
    pub fn resolve(mem_channel: &mut MemoryChannel, exprs: &Vec<UnaryFuncExpr>) -> (r: QueryResponse)
        requires
            old(mem_channel).wf(),
        ensures
            final(mem_channel).wf(),
            final(mem_channel)@ == resolve_outcome(old(mem_channel)@, exprs@).0,
            match r {
                QueryResponse::Empty => resolve_outcome(old(mem_channel)@, exprs@).1 is None,
                QueryResponse::PrintOfStates(v) => resolve_outcome(old(mem_channel)@, exprs@).1
                    == Some(states_view(v@)),
            },
    {
        let ghost ch0 = mem_channel@;
        let mut i: usize = 0;
        while i < exprs.len()
            invariant
                mem_channel.wf(),
                mem_channel@ == ch0,
                ch0 == old(mem_channel)@,
                i <= exprs.len(),
                first_action_from(exprs@, 0) == first_action_from(exprs@, i as int),
            decreases exprs.len() - i,
        {
            let e = &exprs[i];
            match e.func_type {
                FuncType::OnCreate => {
                    assert(first_action_from(exprs@, i as int) == Some(i as int));
                    QueryResolver::on_create(mem_channel, e);
                    return QueryResponse::Empty;
                },
                FuncType::OnRead => {
                    assert(first_action_from(exprs@, i as int) == Some(i as int));
                    let states = QueryResolver::on_read(mem_channel, e);
                    return QueryResponse::PrintOfStates(states);
                },
                FuncType::Other => {},
            }
            i = i + 1;
        }
        QueryResponse::Empty
    }
}

/// No key of any variable of `t` satisfies `e` against either side.
pub open spec fn satisfied_nowhere(t: TableModel, e: BinaryExpr) -> bool {
    forall|j: int, q: int|
        0 <= j < t.machines.len() && 0 <= q < t.machines[j].keys.len() ==> {
            &&& !compare_holds(partial_cmp_spec(#[trigger] t.machines[j].keys[q], e.right@), e.op)
            &&& !compare_holds(partial_cmp_spec(t.machines[j].keys[q], e.left@), e.op)
        }
}

proof fn lemma_no_match(m: MachineModel, other: ValueView, op: CompareOp, n: int)
    requires
        0 <= n <= m.keys.len(),
        forall|q: int| 0 <= q < n ==> !compare_holds(partial_cmp_spec(#[trigger] m.keys[q], other), op),
    ensures
        hists_matching_upto(m, other, op, n).len() == 0,
    decreases n,
{
    if n > 0 {
        lemma_no_match(m, other, op, n - 1);
    }
}

proof fn lemma_side_empty(t: TableModel, sym: Option<Seq<char>>, other: ValueView, op: CompareOp)
    requires
        table_wf(t),
        forall|j: int, q: int|
            0 <= j < t.machines.len() && 0 <= q < t.machines[j].keys.len() ==> !compare_holds(
                partial_cmp_spec(#[trigger] t.machines[j].keys[q], other),
                op,
            ),
    ensures
        side_spec(t, sym, other, op).len() == 0,
{
    if let Some(n) = sym {
        if has_var(t, n) {
            let j = var_index(t, n);
            let m = t.machines[j];
            assert forall|q: int| 0 <= q < m.keys.len() implies !compare_holds(
                partial_cmp_spec(#[trigger] m.keys[q], other),
                op,
            ) by {
                assert(m.keys[q] == t.machines[j].keys[q]);
            }
            lemma_no_match(m, other, op, m.keys.len() as int);
        }
    }
}

proof fn lemma_read_exprs_empty(t: TableModel, es: Seq<BinaryExpr>)
    requires
        table_wf(t),
        forall|k: int| 0 <= k < es.len() ==> satisfied_nowhere(t, #[trigger] es[k]),
    ensures
        read_exprs(t, es) == Seq::<(Seq<char>, Seq<ValueView>)>::empty(),
    decreases es.len(),
{
    if es.len() > 0 {
        let e = es.last();
        assert(satisfied_nowhere(t, es[es.len() - 1]));
        lemma_side_empty(t, symbol_of(e.left@), e.right@, e.op);
        lemma_side_empty(t, symbol_of(e.right@), e.left@, e.op);
        lemma_read_exprs_empty(t, es.drop_last());
        assert(predicate_spec(t, e.left@, e.right@, e.op).is_none());
        assert(read_exprs(t, es) =~= Seq::<(Seq<char>, Seq<ValueView>)>::empty());
    }
}

proof fn lemma_read_channels_empty(
    ch: Map<Seq<char>, TableModel>,
    names: Seq<Value>,
    exprs: Seq<Vec<BinaryExpr>>,
    n: int,
)
    requires
        channels_wf(ch),
        0 <= n <= names.len(),
        forall|i: int, k: int|
            0 <= i < names.len() && i < exprs.len() && 0 <= k < exprs[i]@.len() ==> match symbol_of(
                names[i]@,
            ) {
                Some(c) => ch.contains_key(c) ==> satisfied_nowhere(ch[c], #[trigger] exprs[i]@[k]),
                None => true,
            },
    ensures
        read_channels(ch, names, exprs, n) == Seq::<(Seq<char>, Seq<ValueView>)>::empty(),
    decreases n,
{
    if n > 0 {
        lemma_read_channels_empty(ch, names, exprs, n - 1);
        let i = n - 1;
        if let Some(c) = symbol_of(names[i]@) {
            if ch.contains_key(c) && i < exprs.len() {
                assert forall|k: int| 0 <= k < exprs[i]@.len() implies satisfied_nowhere(
                    ch[c],
                    #[trigger] exprs[i]@[k],
                ) by {}
                lemma_read_exprs_empty(ch[c], exprs[i]@);
            }
        }
        assert(read_channels(ch, names, exprs, n) =~= Seq::<(Seq<char>, Seq<ValueView>)>::empty());
    }
}

/// A read whose predicates no stored value satisfies, on any of the
/// channels it names, returns an empty list of snapshots.
pub proof fn lemma_unsatisfied_read_is_empty(ch: Map<Seq<char>, TableModel>, e: UnaryFuncExpr)
    requires
        channels_wf(ch),
        e.func_type == FuncType::OnRead,
        forall|i: int, k: int|
            0 <= i < e.channel_names.len() && i < e.binary_exprs.len() && 0 <= k
                < e.binary_exprs@[i]@.len() ==> match symbol_of(e.channel_names@[i]@) {
                Some(c) => ch.contains_key(c) ==> satisfied_nowhere(
                    ch[c],
                    #[trigger] e.binary_exprs@[i]@[k],
                ),
                None => true,
            },
    ensures
        resolve_outcome(ch, seq![e]).0 == ch,
        resolve_outcome(ch, seq![e]).1 == Some(Seq::<(Seq<char>, Seq<ValueView>)>::empty()),
{
    assert(seq![e][0] == e);
    assert(first_action_from(seq![e], 0) == Some(0int));
    lemma_read_channels_empty(ch, e.channel_names@, e.binary_exprs@, e.channel_names.len() as int);
}

} // verus!
