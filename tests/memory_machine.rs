use qdb::compared::CompareOp;
use qdb::interval::{intersect_histories, History, Interval};
use qdb::memory_machine::MemoryMachine;
use qdb::value::Value;

fn decimal(units: i64, millionths: i64) -> Value {
    Value::Real(units * 1_000_000 + millionths)
}

fn iv(lo: i64, hi: i64) -> Interval {
    Interval::new(lo, hi)
}

#[test]
fn test_memory_machine() {
    let mut memory_machine = MemoryMachine::init();

    memory_machine.insert(Value::Null);
    memory_machine.insert(Value::Null);
    memory_machine.insert(Value::Null);

    memory_machine.insert(decimal(32, 0));
    memory_machine.insert(decimal(64, 0));

    memory_machine.insert(Value::Null);

    assert_eq!(vec![iv(0, 2), iv(5, 5)], memory_machine.get(&Value::Null).unwrap());
    assert_eq!(vec![iv(3, 3)], memory_machine.get(&decimal(32, 0)).unwrap());
    assert_eq!(vec![iv(4, 4)], memory_machine.get(&decimal(64, 0)).unwrap());
    assert_eq!(6, memory_machine.clock());
}

#[test]
fn test_memory_machine_get_first_by_range_inclusive() {
    let mut memory_machine = MemoryMachine::init();

    memory_machine.insert(Value::Null);
    memory_machine.insert(Value::Null);
    memory_machine.insert(decimal(32, 0));
    memory_machine.insert(decimal(32, 10_000));
    memory_machine.insert(decimal(32, 60_000));
    memory_machine.insert(decimal(32, 70_000));
    memory_machine.insert(Value::Text("my text".to_string()));
    memory_machine.insert(decimal(32, 90_000));
    memory_machine.insert(decimal(32, 0));
    memory_machine.insert(Value::Null);

    let result_a = memory_machine.get_values_by_range_inclusive(&vec![iv(0, 5)]);
    let result_b = memory_machine.get_values_by_range_inclusive(&vec![iv(5, 8)]);
    assert_eq!(
        vec![
            Value::Null,
            decimal(32, 0),
            decimal(32, 10_000),
            decimal(32, 60_000),
            decimal(32, 70_000)
        ],
        result_a
    );
    assert_eq!(
        vec![
            decimal(32, 0),
            decimal(32, 70_000),
            decimal(32, 90_000),
            Value::Text("my text".to_string())
        ],
        result_b
    );
}

#[test]
fn test_get_last_value() {
    let mut memory_machine = MemoryMachine::init();

    memory_machine.insert(Value::Null);
    memory_machine.insert(Value::Null);
    memory_machine.insert(Value::Null);

    memory_machine.insert(decimal(32, 0));

    assert_eq!(&decimal(32, 0), memory_machine.get_last_value().unwrap());
}

#[test]
fn test_memory_machine_get_compare_with() {
    let mut memory_machine = MemoryMachine::init();

    memory_machine.insert(Value::Null);
    memory_machine.insert(Value::Null);
    memory_machine.insert(decimal(35, 0));
    memory_machine.insert(decimal(35, 10_000));

    let result = memory_machine.get_by_compare_with(&decimal(35, 0), CompareOp::Eq);
    assert_eq!(vec![vec![iv(2, 2)]], result);
}

#[test]
fn test_range_intersection() {
    assert!(Interval::intersect(&iv(1, 5), &iv(3, 4)));
    assert!(Interval::intersect(&iv(1, 5), &iv(0, 2)));
    assert!(!Interval::intersect(&iv(6, 9), &iv(1, 2)));
    assert!(!Interval::intersect(&iv(6, 9), &iv(10, 12)));
}

#[test]
fn test_vec_range_intersection() {
    let a: History = vec![iv(0, 2), iv(4, 6)];
    let b: History = vec![iv(0, 1), iv(2, 3)];
    assert!(intersect_histories(&a, &b));

    let a: History = vec![iv(2, 4), iv(5, 8)];
    let b: History = vec![iv(3, 5), iv(8, 10)];
    assert!(intersect_histories(&a, &b));

    let a: History = vec![iv(0, 1)];
    let b: History = vec![iv(0, 0)];
    assert!(intersect_histories(&a, &b));

    let a: History = vec![iv(32, 55), iv(58, 93)];
    let b: History = vec![iv(0, 2), iv(8, 10)];
    assert!(!intersect_histories(&a, &b));

    let a: History = vec![iv(32, 55), iv(58, 93)];
    let b: History = vec![iv(93, 108), iv(110, 120)];
    assert!(!intersect_histories(&a, &b));
}

#[test]
fn empty_history_meets_nothing() {
    let a: History = vec![];
    let b: History = vec![iv(0, 3)];
    assert!(!intersect_histories(&a, &b));
    assert!(!intersect_histories(&b, &a));
}

#[test]
fn clock_counts_inserts() {
    let mut m = MemoryMachine::init();
    assert_eq!(0, m.clock());
    for k in 0..7i64 {
        m.insert(Value::Int(k % 3));
    }
    assert_eq!(7, m.clock());
}

#[test]
fn intervals_partition_the_timeline() {
    let mut m = MemoryMachine::init();
    let values = [1i64, 2, 2, 1, 3, 3, 3, 2, 1, 1];
    for v in values.iter() {
        m.insert(Value::Int(*v));
    }
    let mut owners = vec![0usize; values.len()];
    for v in 1..=3i64 {
        for r in m.get(&Value::Int(v)).unwrap() {
            for t in r.lo..=r.hi {
                owners[t as usize] += 1;
            }
        }
    }
    assert!(owners.iter().all(|c| *c == 1));
    assert_eq!(vec![iv(0, 0), iv(3, 3), iv(8, 9)], m.get(&Value::Int(1)).unwrap());
}

#[test]
fn repeated_value_keeps_one_interval() {
    let mut m = MemoryMachine::init();
    m.insert(Value::Null);
    m.insert(Value::Null);
    for _ in 0..4 {
        m.insert(Value::Text("a".to_string()));
    }
    assert_eq!(vec![iv(2, 5)], m.get(&Value::Text("a".to_string())).unwrap());
}

#[test]
fn interleaved_values_split_intervals() {
    let mut m = MemoryMachine::init();
    m.insert(Value::Int(1));
    m.insert(Value::Int(2));
    m.insert(Value::Int(1));
    assert_eq!(vec![iv(0, 0), iv(2, 2)], m.get(&Value::Int(1)).unwrap());
    assert_eq!(vec![iv(1, 1)], m.get(&Value::Int(2)).unwrap());
}

#[test]
fn last_value_follows_each_insert() {
    let mut m = MemoryMachine::init();
    assert_eq!(None, m.get_last_value());
    for v in [Value::Int(4), Value::Null, Value::Int(4), Value::Symbol("x".to_string())] {
        m.insert(v.clone());
        assert_eq!(Some(&v), m.get_last_value());
    }
}

#[test]
fn history_selects_its_own_value() {
    let mut m = MemoryMachine::init();
    for v in [3i64, 1, 1, 2, 3] {
        m.insert(Value::Int(v));
    }
    for v in 1..=3i64 {
        let h = m.get(&Value::Int(v)).unwrap();
        assert!(m.get_values_by_range_inclusive(&h).contains(&Value::Int(v)));
    }
}

#[test]
fn unseen_value_has_no_history() {
    let mut m = MemoryMachine::init();
    m.insert(Value::Int(1));
    assert_eq!(None, m.get(&Value::Int(2)));
}

#[test]
fn keys_are_kept_in_value_order() {
    let mut m = MemoryMachine::init();
    m.insert(Value::Text("b".to_string()));
    m.insert(Value::Int(5));
    m.insert(Value::Null);
    m.insert(Value::Text("a".to_string()));
    m.insert(Value::Int(-2));
    let all = m.get_values_by_range_inclusive(&vec![iv(0, 4)]);
    assert_eq!(
        vec![
            Value::Null,
            Value::Int(-2),
            Value::Int(5),
            Value::Text("a".to_string()),
            Value::Text("b".to_string())
        ],
        all
    );
}

#[test]
fn compare_selects_in_key_order() {
    let mut m = MemoryMachine::init();
    m.insert(Value::Int(7));
    m.insert(Value::Int(1));
    m.insert(Value::Int(4));
    let r = m.get_by_compare_with(&Value::Int(2), CompareOp::Gt);
    assert_eq!(vec![vec![iv(2, 2)], vec![iv(0, 0)]], r);
}
