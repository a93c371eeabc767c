use inspequte::dataflow::stack_machine::{StackMachine, StackMachineConfig};

/// Test value type for stack machine unit tests.
#[derive(Clone, Copy, Debug, Eq, PartialEq, Ord, PartialOrd)]
enum TestValue {
    Unknown,
    Scalar,
    Symbol(u32),
}

#[test]
fn push_and_pop_respect_stack_depth_budget() {
    let mut machine = StackMachine::with_config(
        TestValue::Unknown,
        StackMachineConfig {
            max_stack_depth: Some(2),
            max_locals: None,
            max_symbolic_identities: None,
        },
    );

    machine.push(TestValue::Scalar);
    machine.push(TestValue::Symbol(1));
    machine.push(TestValue::Symbol(2));

    assert_eq!(
        machine.stack_values(),
        &[TestValue::Symbol(1), TestValue::Symbol(2)]
    );
    assert_eq!(machine.pop(), TestValue::Symbol(2));
    assert_eq!(machine.pop(), TestValue::Symbol(1));
    assert_eq!(machine.pop(), TestValue::Unknown);
}

#[test]
fn local_load_and_store_use_defaults_and_budget() {
    let mut machine = StackMachine::with_config(
        TestValue::Unknown,
        StackMachineConfig {
            max_stack_depth: None,
            max_locals: Some(2),
            max_symbolic_identities: None,
        },
    );

    machine.store_local(0, TestValue::Scalar);
    machine.store_local(1, TestValue::Symbol(3));
    machine.store_local(2, TestValue::Symbol(9));

    assert_eq!(machine.load_local(0), TestValue::Scalar);
    assert_eq!(machine.load_local(1), TestValue::Symbol(3));
    assert_eq!(machine.load_local(2), TestValue::Unknown);
}

#[test]
fn rewrite_values_updates_stack_and_locals() {
    let mut machine = StackMachine::new(TestValue::Unknown);
    machine.push(TestValue::Scalar);
    machine.push(TestValue::Symbol(10));
    machine.store_local(1, TestValue::Symbol(10));
    machine.store_local(2, TestValue::Symbol(20));

    machine.rewrite_values(|value| {
        if value == TestValue::Symbol(10) {
            TestValue::Unknown
        } else {
            value
        }
    });

    assert_eq!(
        machine.stack_values(),
        &[TestValue::Scalar, TestValue::Unknown]
    );
    assert_eq!(machine.load_local(1), TestValue::Unknown);
    assert_eq!(machine.load_local(2), TestValue::Symbol(20));
}

#[test]
fn store_then_load_gives_the_stored_value() {
    let mut machine = StackMachine::new(0i32);
    machine.store_local(4, 17);
    machine.store_local(4, 23);
    assert_eq!(machine.load_local(4), 23);
    assert_eq!(machine.load_local(3), 0);
}

#[test]
fn pop_n_removes_top_entries() {
    let mut machine = StackMachine::new(0i32);
    machine.push(1);
    machine.push(2);
    machine.push(3);
    machine.pop_n(2);
    assert_eq!(machine.stack_values(), &[1]);
    machine.pop_n(5);
    assert_eq!(machine.stack_len(), 0);
    assert_eq!(machine.peek(), None);
}

fn symbol_id(value: TestValue) -> Option<u32> {
    match value {
        TestValue::Symbol(id) => Some(id),
        _ => None,
    }
}

#[test]
fn canonicalization_and_symbol_cap_normalize_state() {
    let mut machine = StackMachine::with_config(
        TestValue::Unknown,
        StackMachineConfig {
            max_stack_depth: None,
            max_locals: None,
            max_symbolic_identities: Some(2),
        },
    );
    machine.push(TestValue::Symbol(10));
    machine.push(TestValue::Symbol(30));
    machine.push(TestValue::Symbol(20));
    machine.store_local(5, TestValue::Symbol(30));
    machine.store_local(7, TestValue::Symbol(40));

    let kept = machine
        .enforce_symbolic_identity_cap_u32(
            |value| match value {
                TestValue::Symbol(id) => Some(id),
                _ => None,
            },
            |_value| TestValue::Unknown,
        )
        .expect("symbol cap configured");

    assert_eq!(kept, [30, 40].into_iter().collect());

    machine.canonicalize_symbolic_ids_u32(
        |value| match value {
            TestValue::Symbol(id) => Some(id),
            _ => None,
        },
        |_value, mapped| TestValue::Symbol(mapped),
        &[],
    );

    assert_eq!(
        machine.stack_values(),
        &[TestValue::Unknown, TestValue::Symbol(0), TestValue::Unknown]
    );
    assert_eq!(machine.load_local(5), TestValue::Symbol(0));
    assert_eq!(machine.load_local(7), TestValue::Symbol(1));
}

#[test]
fn canonicalization_produces_deterministic_state_keys() {
    let mut left = StackMachine::new(TestValue::Unknown);
    left.push(TestValue::Symbol(10));
    left.push(TestValue::Symbol(20));
    left.store_local(1, TestValue::Symbol(20));

    let mut right = StackMachine::new(TestValue::Unknown);
    right.push(TestValue::Symbol(100));
    right.push(TestValue::Symbol(200));
    right.store_local(1, TestValue::Symbol(200));

    for machine in [&mut left, &mut right] {
        machine.canonicalize_symbolic_ids_u32(
            |value| match value {
                TestValue::Symbol(id) => Some(id),
                _ => None,
            },
            |_value, mapped| TestValue::Symbol(mapped),
            &[],
        );
    }

    assert_eq!(left, right);
}

#[test]
fn canonicalization_numbers_extra_ids_after_tracked_values() {
    let mut machine = StackMachine::new(TestValue::Unknown);
    machine.push(TestValue::Symbol(7));
    machine.store_local(0, TestValue::Scalar);
    machine.store_local(2, TestValue::Symbol(3));
    let mapping = machine.canonicalize_symbolic_ids_u32(symbol_id, |_value, mapped| TestValue::Symbol(mapped), &[9, 7, 11]);
    let pairs: Vec<(u32, u32)> = mapping.into_iter().collect();
    assert_eq!(pairs, vec![(3, 1), (7, 0), (9, 2), (11, 3)]);
    assert_eq!(machine.stack_values(), &[TestValue::Symbol(0)]);
    assert_eq!(machine.load_local(0), TestValue::Scalar);
    assert_eq!(machine.load_local(2), TestValue::Symbol(1));
}

#[test]
fn canonicalization_without_identities_changes_nothing() {
    let mut machine = StackMachine::new(TestValue::Unknown);
    machine.push(TestValue::Scalar);
    let mapping = machine.canonicalize_symbolic_ids_u32(symbol_id, |_value, mapped| TestValue::Symbol(mapped), &[]);
    assert!(mapping.is_empty());
    assert_eq!(machine.stack_values(), &[TestValue::Scalar]);
}

#[test]
fn symbol_cap_is_absent_without_configuration() {
    let mut machine = StackMachine::new(TestValue::Unknown);
    machine.push(TestValue::Symbol(4));
    let kept = machine.enforce_symbolic_identity_cap_u32(symbol_id, |_value| TestValue::Unknown);
    assert!(kept.is_none());
    assert_eq!(machine.stack_values(), &[TestValue::Symbol(4)]);
}

#[test]
fn symbol_cap_keeps_all_identities_under_the_cap() {
    let mut machine = StackMachine::with_config(
        TestValue::Unknown,
        StackMachineConfig {
            max_stack_depth: None,
            max_locals: None,
            max_symbolic_identities: Some(5),
        },
    );
    machine.push(TestValue::Symbol(2));
    machine.store_local(1, TestValue::Symbol(1));
    let kept = machine
        .enforce_symbolic_identity_cap_u32(symbol_id, |_value| TestValue::Unknown)
        .expect("symbol cap configured");
    assert_eq!(kept, [1, 2].into_iter().collect());
    assert_eq!(machine.stack_values(), &[TestValue::Symbol(2)]);
    assert_eq!(machine.load_local(1), TestValue::Symbol(1));
}
