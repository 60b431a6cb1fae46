use qdb::compared::CompareOp;
use qdb::expr::{BinaryExpr, DataVar};
use qdb::memory_table::MemoryTable;
use qdb::print_of_state::PrintOfState;
use qdb::value::Value;

fn sym(s: &str) -> Value {
    Value::Symbol(s.to_string())
}

#[test]
fn test_memory_table_insert() {
    let mut memory_table = MemoryTable::init();
    memory_table.insert("A", Value::Text("mytext".to_string()));
    memory_table.insert("A", Value::Null);
    memory_table.insert("B", Value::Null);
    memory_table.insert("A", Value::Real(56_010_000));
    memory_table.insert("A", Value::Int(32));
    memory_table.insert("B", Value::Null);

    let found = memory_table.find(&DataVar::new("A".to_string(), Value::Int(32)));
    assert_eq!(Some(vec![Value::Int(32)]), found);
    let found = memory_table.find(&DataVar::new("B".to_string(), Value::Null));
    assert_eq!(Some(vec![Value::Null, Value::Text("mytext".to_string())]), found);
}

#[test]
fn test_memory_table_find() {
    let mut memory_table = MemoryTable::init();
    memory_table.insert("my_var", Value::Text("mytext".to_string()));
    memory_table.insert("my_var", Value::Null);
    memory_table.insert("my_var2", Value::Null);
    let data_var = DataVar::new("my_var".to_string(), Value::Null);
    let a = memory_table.find(&data_var);
    assert_eq!(Some(vec![Value::Null]), a);
}

#[test]
fn test_memory_find_by_predicate() {
    let mut mem_table = MemoryTable::init();
    mem_table.insert("my_val", Value::Int(101));
    mem_table.insert("my_val", Value::Int(101));
    mem_table.insert("my_val2", Value::Int(64));
    mem_table.insert("my_val2", Value::Int(32));
    mem_table.insert("my_val3", Value::Int(32));

    let binary_expr = BinaryExpr::new(Value::Int(101), sym("my_val"), CompareOp::Eq);

    let vec_print_of_state = mem_table.find_by_predicate(&binary_expr).unwrap();

    assert!(vec_print_of_state.contains(&PrintOfState::new(
        &"my_val".to_string(),
        vec![Value::Int(101)]
    )));
    assert!(vec_print_of_state.contains(&PrintOfState::new(
        &"my_val2".to_string(),
        vec![Value::Int(32), Value::Int(64)]
    )));
    assert!(vec_print_of_state.contains(&PrintOfState::new(
        &"my_val3".to_string(),
        vec![Value::Int(32)]
    )));
    assert_eq!(3, vec_print_of_state.len());
}

#[test]
fn find_misses_unknown_variable_or_value() {
    let mut t = MemoryTable::init();
    t.insert("x", Value::Int(1));
    assert_eq!(None, t.find(&DataVar::new("y".to_string(), Value::Int(1))));
    assert_eq!(None, t.find(&DataVar::new("x".to_string(), Value::Int(2))));
}

#[test]
fn both_sides_symbols_give_nothing() {
    let mut t = MemoryTable::init();
    t.insert("a", Value::Int(1));
    t.insert("b", Value::Int(1));
    let e = BinaryExpr::new(sym("a"), sym("b"), CompareOp::Eq);
    assert_eq!(None, t.find_by_predicate(&e));
}

#[test]
fn predicate_with_symbol_on_the_left() {
    let mut t = MemoryTable::init();
    t.insert("x", Value::Int(1));
    t.insert("x", Value::Int(5));
    t.insert("y", Value::Text("p".to_string()));
    t.insert("y", Value::Text("q".to_string()));
    let e = BinaryExpr::new(sym("x"), Value::Int(3), CompareOp::Gt);
    let r = t.find_by_predicate(&e).unwrap();
    assert_eq!(
        vec![
            PrintOfState::new(&"x".to_string(), vec![Value::Int(5)]),
            PrintOfState::new(&"y".to_string(), vec![Value::Text("q".to_string())]),
        ],
        r
    );
}

#[test]
fn first_matching_key_selects() {
    let mut t = MemoryTable::init();
    t.insert("x", Value::Int(9));
    t.insert("x", Value::Int(4));
    let e = BinaryExpr::new(sym("x"), Value::Int(0), CompareOp::Gt);
    let r = t.find_by_predicate(&e).unwrap();
    assert_eq!(
        vec![PrintOfState::new(&"x".to_string(), vec![Value::Int(4)])],
        r
    );
}

#[test]
fn missing_variable_or_no_match_gives_nothing() {
    let mut t = MemoryTable::init();
    t.insert("x", Value::Int(1));
    let missing = BinaryExpr::new(sym("z"), Value::Int(1), CompareOp::Eq);
    assert_eq!(None, t.find_by_predicate(&missing));
    let unmatched = BinaryExpr::new(sym("x"), Value::Int(1), CompareOp::Lt);
    assert_eq!(None, t.find_by_predicate(&unmatched));
}

#[test]
fn can_insert_on_fresh_names() {
    let mut t = MemoryTable::init();
    assert!(t.can_insert("x"));
    t.insert("x", Value::Null);
    assert!(t.can_insert("x"));
}
