use qdb::compared::{CompareOp, Compared};
use qdb::interval::Interval;
use qdb::value::{text_cmp, Value};
use std::cmp::Ordering;

#[test]
fn operators_from_symbols() {
    assert_eq!(Some(CompareOp::Eq), CompareOp::from_symbol("=="));
    assert_eq!(Some(CompareOp::Neq), CompareOp::from_symbol("!="));
    assert_eq!(Some(CompareOp::Ge), CompareOp::from_symbol(">="));
    assert_eq!(Some(CompareOp::Gt), CompareOp::from_symbol(">"));
    assert_eq!(Some(CompareOp::Le), CompareOp::from_symbol("<="));
    assert_eq!(Some(CompareOp::Lt), CompareOp::from_symbol("<"));
    assert_eq!(None, CompareOp::from_symbol("=<"));
    assert_eq!(None, CompareOp::from_symbol(""));
    assert_eq!(None, CompareOp::from_symbol("==="));
}

#[test]
fn operator_truth_table() {
    let ops = [
        CompareOp::Eq,
        CompareOp::Neq,
        CompareOp::Ge,
        CompareOp::Gt,
        CompareOp::Le,
        CompareOp::Lt,
    ];
    let expect = [
        // Less, Equal, Greater
        [false, true, false],
        [true, false, true],
        [false, true, true],
        [false, false, true],
        [true, true, false],
        [true, false, false],
    ];
    let ords = [Ordering::Less, Ordering::Equal, Ordering::Greater];
    for (op, row) in ops.iter().zip(expect.iter()) {
        for (ord, want) in ords.iter().zip(row.iter()) {
            assert_eq!(*want, op.holds(ord));
        }
    }
}

#[test]
fn numbers_compare_by_magnitude() {
    assert_eq!(
        Some(Ordering::Less),
        Value::Int(2).compare_with(&Value::Real(2_500_000))
    );
    assert_eq!(
        Some(Ordering::Equal),
        Value::Real(3_000_000).compare_with(&Value::Int(3))
    );
    assert_eq!(
        Some(Ordering::Greater),
        Value::Int(-1).compare_with(&Value::Int(-5))
    );
    assert!(Value::comparing(&Value::Int(3), &Value::Int(0), CompareOp::Gt));
}

#[test]
fn unordered_pairs_satisfy_nothing() {
    assert_eq!(None, Value::Null.compare_with(&Value::Int(0)));
    assert_eq!(
        None,
        Value::Text("a".to_string()).compare_with(&Value::Symbol("a".to_string()))
    );
    assert!(!Value::comparing(&Value::Null, &Value::Int(0), CompareOp::Neq));
    assert!(Value::comparing(&Value::Null, &Value::Null, CompareOp::Eq));
}

#[test]
fn texts_compare_lexicographically() {
    let s = |x: &str| x.to_string();
    assert_eq!(Ordering::Less, text_cmp(&s("ab"), &s("b")));
    assert_eq!(Ordering::Greater, text_cmp(&s("abc"), &s("ab")));
    assert_eq!(Ordering::Equal, text_cmp(&s("héllo"), &s("héllo")));
    assert_eq!(Ordering::Less, text_cmp(&s(""), &s("a")));
}

#[test]
fn key_order_ranks_variants() {
    assert_eq!(Ordering::Less, Value::Null.key_cmp(&Value::Int(-9)));
    assert_eq!(Ordering::Less, Value::Int(9).key_cmp(&Value::Real(0)));
    assert_eq!(
        Ordering::Greater,
        Value::Symbol("a".to_string()).key_cmp(&Value::Text("z".to_string()))
    );
    assert_eq!(Ordering::Equal, Value::Real(5).key_cmp(&Value::Real(5)));
}

#[test]
fn intersection_is_symmetric() {
    let pairs = [((0, 3), (2, 5)), ((0, 1), (4, 6)), ((-3, 9), (1, 1))];
    for ((a0, a1), (b0, b1)) in pairs {
        let a = Interval::new(a0, a1);
        let b = Interval::new(b0, b1);
        assert_eq!(Interval::intersect(&a, &b), Interval::intersect(&b, &a));
    }
}

#[test]
fn shared_endpoint_intersects() {
    assert!(Interval::intersect(
        &Interval::new(2, 7),
        &Interval::new(7, 11)
    ));
}

#[test]
fn adjacent_points_do_not_intersect() {
    assert!(!Interval::intersect(
        &Interval::new(0, 0),
        &Interval::new(1, 1)
    ));
}
