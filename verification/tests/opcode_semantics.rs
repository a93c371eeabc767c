use inspequte::dataflow::opcode_semantics::{
    ApplyOutcome, SemanticsCoverage, SemanticsDebugConfig, SemanticsHooks, ValueDomain,
    apply_default_semantics, apply_semantics,
};
use inspequte::dataflow::stack_machine::StackMachine;
use inspequte::ir::{
    ControlFlowGraph, LineNumber, LocalVariableType, Method, MethodAccess, MethodNullness,
    Nullness,
};
use inspequte::opcodes;

#[derive(Clone, Copy)]
struct TestDomain;

impl ValueDomain<i32> for TestDomain {
    fn unknown_spec(&self) -> i32 {
        -1
    }

    fn scalar_spec(&self) -> i32 {
        1
    }

    fn unknown_value(&self) -> i32 {
        -1
    }

    fn scalar_value(&self) -> i32 {
        1
    }
}

fn empty_method(bytecode: Vec<u8>) -> Method {
    Method {
        name: "MethodX".to_string(),
        descriptor: "()V".to_string(),
        signature: None,
        access: MethodAccess {
            is_public: false,
            is_static: true,
            is_abstract: false,
            is_synchronized: false,
            is_bridge: false,
            is_synthetic: false,
        },
        nullness: MethodNullness {
            return_nullness: Nullness::Unknown,
            parameter_nullness: Vec::new(),
        },
        bytecode,
        line_numbers: Vec::<LineNumber>::new(),
        cfg: ControlFlowGraph {
            blocks: Vec::new(),
            edges: Vec::new(),
        },
        calls: Vec::new(),
        string_literals: Vec::new(),
        exception_handlers: Vec::new(),
        local_variable_types: Vec::<LocalVariableType>::new(),
    }
}

#[test]
fn applies_load_store_and_stack_ops() {
    let method = empty_method(vec![opcodes::ASTORE, 2, opcodes::ALOAD, 2]);
    let mut machine = StackMachine::new(-1);
    machine.push(7);
    let domain = TestDomain;

    assert_eq!(
        apply_default_semantics(&mut machine, &method, 0, opcodes::ASTORE, &domain),
        ApplyOutcome::Applied
    );
    assert_eq!(
        apply_default_semantics(&mut machine, &method, 2, opcodes::ALOAD, &domain),
        ApplyOutcome::Applied
    );
    assert_eq!(machine.pop(), 7);
}

#[test]
fn applies_arithmetic_field_array_and_control_ops() {
    let method = empty_method(vec![
        0x60, // iadd
        0xb4, // getfield
        0x2e, // iaload
        opcodes::IFEQ,
        0x00,
        0x00,
    ]);
    let domain = TestDomain;

    let mut arith_machine = StackMachine::new(-1);
    arith_machine.push(10);
    arith_machine.push(20);
    assert_eq!(
        apply_default_semantics(&mut arith_machine, &method, 0, 0x60, &domain),
        ApplyOutcome::Applied
    );
    assert_eq!(arith_machine.pop(), 1);

    let mut field_machine = StackMachine::new(-1);
    field_machine.push(7);
    assert_eq!(
        apply_default_semantics(&mut field_machine, &method, 1, 0xb4, &domain),
        ApplyOutcome::Applied
    );
    assert_eq!(field_machine.pop(), 1);

    let mut array_machine = StackMachine::new(-1);
    array_machine.push(2);
    array_machine.push(3);
    assert_eq!(
        apply_default_semantics(&mut array_machine, &method, 2, 0x2e, &domain),
        ApplyOutcome::Applied
    );
    assert_eq!(array_machine.pop(), 1);

    let mut control_machine = StackMachine::new(-1);
    control_machine.push(1);
    assert_eq!(
        apply_default_semantics(&mut control_machine, &method, 3, opcodes::IFEQ, &domain),
        ApplyOutcome::Applied
    );
    assert_eq!(control_machine.stack_len(), 0);
}

#[test]
fn applies_multianewarray_using_dimension_operand() {
    let method = empty_method(vec![opcodes::MULTIANEWARRAY, 0, 1, 2]);
    let mut machine = StackMachine::new(-1);
    let domain = TestDomain;
    machine.push(7);
    machine.push(8);
    assert_eq!(
        apply_default_semantics(&mut machine, &method, 0, opcodes::MULTIANEWARRAY, &domain),
        ApplyOutcome::Applied
    );
    assert_eq!(machine.stack_len(), 1);
    assert_eq!(machine.pop(), -1);
}

/// Test hook that overrides one opcode and records post outcomes.
struct TestHook {
    post_outcomes: Vec<ApplyOutcome>,
}

impl SemanticsHooks<i32> for TestHook {
    fn pre_outcome(&self, _machine: StackMachine<i32>, _method: Method, _offset: usize, opcode: u8) -> ApplyOutcome {
        if opcode == opcodes::AALOAD {
            ApplyOutcome::Applied
        } else {
            ApplyOutcome::NotHandled
        }
    }

    fn pre_applied(
        &self,
        _machine: StackMachine<i32>,
        _method: Method,
        _offset: usize,
        _opcode: u8,
        _hooks: Self,
        _after: StackMachine<i32>,
    ) -> bool {
        true
    }

    fn post_applied(
        &self,
        _machine: StackMachine<i32>,
        _method: Method,
        _offset: usize,
        _opcode: u8,
        outcome: ApplyOutcome,
        hooks: Self,
        _after: StackMachine<i32>,
    ) -> bool {
        hooks.post_outcomes.last() == Some(&outcome)
    }

    fn pre_apply(
        &mut self,
        machine: &mut StackMachine<i32>,
        _method: &Method,
        _offset: usize,
        opcode: u8,
    ) -> ApplyOutcome {
        if opcode == opcodes::AALOAD {
            machine.push(42);
            return ApplyOutcome::Applied;
        }
        ApplyOutcome::NotHandled
    }

    fn post_apply(
        &mut self,
        _machine: &mut StackMachine<i32>,
        _method: &Method,
        _offset: usize,
        _opcode: u8,
        outcome: ApplyOutcome,
    ) {
        self.post_outcomes.push(outcome);
    }
}

#[test]
fn hook_precedence_and_fallback_are_counted() {
    let method = empty_method(vec![opcodes::AALOAD, opcodes::INVOKEVIRTUAL]);
    let mut machine = StackMachine::new(-1);
    let domain = TestDomain;
    let mut coverage = SemanticsCoverage::new();
    let mut hook = TestHook {
        post_outcomes: Vec::new(),
    };

    assert_eq!(
        apply_semantics(
            &mut machine,
            &method,
            0,
            opcodes::AALOAD,
            &domain,
            &mut hook,
            &mut coverage,
            SemanticsDebugConfig {
                enabled: false,
                rule_id: "TEST",
            },
        ),
        ApplyOutcome::Applied
    );
    assert_eq!(
        apply_semantics(
            &mut machine,
            &method,
            1,
            opcodes::INVOKEVIRTUAL,
            &domain,
            &mut hook,
            &mut coverage,
            SemanticsDebugConfig {
                enabled: false,
                rule_id: "TEST",
            },
        ),
        ApplyOutcome::NotHandled
    );
    assert_eq!(coverage.applied_by_hook, 1);
    assert_eq!(coverage.applied_by_default, 0);
    assert_eq!(coverage.fallback_not_handled, 1);
    assert_eq!(coverage.hook_override_count(opcodes::AALOAD), 1);
    assert_eq!(coverage.fallback_count(opcodes::INVOKEVIRTUAL), 1);
    assert_eq!(
        hook.post_outcomes,
        vec![ApplyOutcome::Applied, ApplyOutcome::NotHandled]
    );
}

#[test]
fn swap_exchanges_the_top_two_values() {
    let method = empty_method(vec![0x5f]);
    let mut machine = StackMachine::new(-1);
    machine.push(3);
    machine.push(4);
    assert_eq!(
        apply_default_semantics(&mut machine, &method, 0, 0x5f, &TestDomain),
        ApplyOutcome::Applied
    );
    assert_eq!(machine.stack_values(), &[4, 3]);
}
