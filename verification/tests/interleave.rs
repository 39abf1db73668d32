use declarative_pull::pull::{interleave, interleaves};
use declarative_pull::value::Value;

fn eid(e: u64) -> Value {
    Value::Eid(e)
}

fn aid(name: &str) -> Value {
    Value::Aid(name.to_string())
}

#[test]
fn interleave_alternates_values_and_labels() {
    let values = vec![eid(1), eid(2)];
    let constants = vec!["parent/child".to_string()];
    assert_eq!(
        interleave(&values, &constants),
        vec![eid(1), aid("parent/child"), eid(2)]
    );
}

#[test]
fn interleave_of_as_many_labels_as_values_ends_with_a_label() {
    let values = vec![eid(1), eid(2)];
    let constants = vec!["a".to_string(), "b".to_string()];
    assert_eq!(
        interleave(&values, &constants),
        vec![eid(1), aid("a"), eid(2), aid("b")]
    );
}

#[test]
fn interleave_puts_values_at_even_and_labels_at_odd_positions() {
    let values = vec![eid(10), eid(11), eid(12), eid(13)];
    let constants = vec!["x".to_string(), "y".to_string(), "z".to_string()];
    let result = interleave(&values, &constants);
    assert_eq!(result.len(), values.len() + constants.len());
    for i in 0..values.len() {
        assert_eq!(result[2 * i], values[i]);
    }
    for i in 0..constants.len() {
        assert_eq!(result[2 * i + 1], Value::Aid(constants[i].clone()));
    }
}

#[test]
fn interleave_without_labels_returns_the_values() {
    let values = vec![eid(1), Value::String("x".to_string()), Value::Bool(true)];
    let constants: Vec<String> = vec![];
    assert_eq!(interleave(&values, &constants), values);
}

#[test]
fn interleave_without_values_returns_no_values() {
    let values: Vec<Value> = vec![];
    let constants = vec!["a".to_string(), "b".to_string()];
    assert_eq!(interleave(&values, &constants), values);
}

#[test]
fn interleave_of_nothing_is_empty() {
    let values: Vec<Value> = vec![];
    let constants: Vec<String> = vec![];
    assert!(interleave(&values, &constants).is_empty());
}

#[test]
fn interleave_of_one_value_and_one_label() {
    let values = vec![Value::Number(-4)];
    let constants = vec!["age".to_string()];
    assert_eq!(
        interleave(&values, &constants),
        vec![Value::Number(-4), aid("age")]
    );
}

#[test]
fn interleave_accepts_slices() {
    let values = [eid(1), eid(2), eid(3)];
    let constants = ["a".to_string(), "b".to_string()];
    assert_eq!(
        interleave(&values[..], &constants[..]),
        vec![eid(1), aid("a"), eid(2), aid("b"), eid(3)]
    );
}

#[test]
fn interleaves_says_which_shapes_fit() {
    assert!(interleaves(0, 0));
    assert!(interleaves(0, 5));
    assert!(interleaves(5, 0));
    assert!(interleaves(1, 1));
    assert!(interleaves(2, 1));
    assert!(!interleaves(3, 1));
    assert!(!interleaves(1, 2));
    assert!(interleaves(usize::MAX, usize::MAX));
}
