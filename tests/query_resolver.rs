use qdb::compared::CompareOp;
use qdb::expr::{BinaryExpr, DataVar};
use qdb::memory_channel::MemoryChannel;
use qdb::memory_table::MemoryTable;
use qdb::print_of_state::PrintOfState;
use qdb::query_resolver::{FuncType, QueryResolver, QueryResponse, UnaryFuncExpr};
use qdb::value::Value;

fn sym(s: &str) -> Value {
    Value::Symbol(s.to_string())
}

fn on_create(channel: &str, vars: Vec<(&str, Value)>) -> UnaryFuncExpr {
    UnaryFuncExpr {
        func_type: FuncType::OnCreate,
        channel_names: vec![sym(channel)],
        vars: Some(
            vars.into_iter()
                .map(|(n, v)| DataVar::new(n.to_string(), v))
                .collect(),
        ),
        binary_exprs: vec![],
    }
}

fn on_read(channel: &str, exprs: Vec<BinaryExpr>) -> UnaryFuncExpr {
    UnaryFuncExpr {
        func_type: FuncType::OnRead,
        channel_names: vec![sym(channel)],
        vars: None,
        binary_exprs: vec![exprs],
    }
}

fn states(r: QueryResponse) -> Vec<PrintOfState> {
    match r {
        QueryResponse::PrintOfStates(v) => v,
        QueryResponse::Empty => panic!("expected snapshots"),
    }
}

#[test]
fn test_query_resolver_resolve() {
    let mut a = MemoryChannel::new();
    // onCreate(my_node)(c:int = 2)
    let created = QueryResolver::resolve(
        &mut a,
        &vec![on_create("my_node", vec![("c", Value::Int(2))])],
    );
    assert!(matches!(created, QueryResponse::Empty));
    // onRead(my_node)(c > 0)
    let aa = QueryResolver::resolve(
        &mut a,
        &vec![on_read(
            "my_node",
            vec![BinaryExpr::new(sym("c"), Value::Int(0), CompareOp::Gt)],
        )],
    );
    assert_eq!(
        vec![PrintOfState::new(&"c".to_string(), vec![Value::Int(2)])],
        states(aa)
    );
}

#[test]
fn unsatisfied_read_is_empty() {
    let mut a = MemoryChannel::new();
    QueryResolver::resolve(
        &mut a,
        &vec![on_create("n", vec![("c", Value::Int(2)), ("d", Value::Null)])],
    );
    let r = QueryResolver::resolve(
        &mut a,
        &vec![on_read(
            "n",
            vec![BinaryExpr::new(sym("c"), Value::Int(100), CompareOp::Gt)],
        )],
    );
    assert!(states(r).is_empty());
}

#[test]
fn read_of_missing_channel_is_empty() {
    let mut a = MemoryChannel::new();
    let r = QueryResolver::resolve(
        &mut a,
        &vec![on_read(
            "nowhere",
            vec![BinaryExpr::new(sym("c"), Value::Int(0), CompareOp::Gt)],
        )],
    );
    assert!(states(r).is_empty());
}

#[test]
fn create_keeps_existing_channel() {
    let mut a = MemoryChannel::new();
    QueryResolver::resolve(&mut a, &vec![on_create("n", vec![("c", Value::Int(1))])]);
    QueryResolver::resolve(&mut a, &vec![on_create("n", vec![("c", Value::Int(5))])]);
    let r = QueryResolver::resolve(
        &mut a,
        &vec![on_read(
            "n",
            vec![BinaryExpr::new(sym("c"), Value::Int(0), CompareOp::Ge)],
        )],
    );
    assert_eq!(
        vec![PrintOfState::new(&"c".to_string(), vec![Value::Int(1)])],
        states(r)
    );
    let t = a.get(&"n".to_string()).unwrap();
    assert_eq!(
        Some(vec![Value::Int(5)]),
        t.find(&DataVar::new("c".to_string(), Value::Int(5)))
    );
}

#[test]
fn only_first_action_runs() {
    let mut a = MemoryChannel::new();
    let other = UnaryFuncExpr {
        func_type: FuncType::Other,
        channel_names: vec![sym("x")],
        vars: None,
        binary_exprs: vec![],
    };
    let r = QueryResolver::resolve(
        &mut a,
        &vec![
            other,
            on_create("n", vec![("c", Value::Int(1))]),
            on_create("m", vec![("c", Value::Int(1))]),
        ],
    );
    assert!(matches!(r, QueryResponse::Empty));
    assert!(a.get(&"n".to_string()).is_some());
    assert!(a.get(&"m".to_string()).is_none());
    assert!(a.get(&"x".to_string()).is_none());
}

#[test]
fn no_action_leaves_channels_alone() {
    let mut a = MemoryChannel::new();
    let r = QueryResolver::resolve(&mut a, &vec![]);
    assert!(matches!(r, QueryResponse::Empty));
}

#[test]
fn channel_take_and_put() {
    let mut a = MemoryChannel::new();
    assert!(a.get(&"n".to_string()).is_none());
    let mut t = MemoryTable::init();
    t.insert("v", Value::Int(3));
    a.insert("n".to_string(), t);
    a.insert("n".to_string(), MemoryTable::init());
    let taken = a.take(&"n".to_string()).unwrap();
    assert_eq!(
        Some(vec![Value::Int(3)]),
        taken.find(&DataVar::new("v".to_string(), Value::Int(3)))
    );
    assert!(a.get(&"n".to_string()).is_none());
    assert!(a.take(&"n".to_string()).is_none());
    a.put("n".to_string(), taken);
    assert!(a.get(&"n".to_string()).is_some());
}
