use inspequte::engine::{AnalysisContext, build_context};
use inspequte::ir::{
    BasicBlock, CallKind, CallSite, Class, ControlFlowGraph, Instruction, InstructionKind, Method,
    MethodAccess, MethodNullness, Nullness,
};
use inspequte::opcodes;
use inspequte::rules::nullness::NullnessRule;

fn access(is_public: bool, is_static: bool, is_abstract: bool) -> MethodAccess {
    MethodAccess {
        is_public,
        is_static,
        is_abstract,
        is_synchronized: false,
        is_bridge: false,
        is_synthetic: false,
    }
}

fn bare_method(name: &str, descriptor: &str, nullness: MethodNullness) -> Method {
    Method {
        name: name.to_string(),
        descriptor: descriptor.to_string(),
        signature: None,
        access: access(true, false, false),
        nullness,
        bytecode: Vec::new(),
        line_numbers: Vec::new(),
        cfg: ControlFlowGraph {
            blocks: Vec::new(),
            edges: Vec::new(),
        },
        calls: Vec::new(),
        string_literals: Vec::new(),
        exception_handlers: Vec::new(),
        local_variable_types: Vec::new(),
    }
}

fn method_with(
    name: &str,
    descriptor: &str,
    access: MethodAccess,
    nullness: MethodNullness,
    bytecode: Vec<u8>,
    instructions: Vec<Instruction>,
    calls: Vec<CallSite>,
) -> Method {
    let end_offset = bytecode.len() as u32;
    Method {
        name: name.to_string(),
        descriptor: descriptor.to_string(),
        signature: None,
        access,
        nullness,
        bytecode,
        line_numbers: Vec::new(),
        cfg: ControlFlowGraph {
            blocks: vec![BasicBlock {
                start_offset: 0,
                end_offset,
                instructions,
            }],
            edges: Vec::new(),
        },
        calls,
        string_literals: Vec::new(),
        exception_handlers: Vec::new(),
        local_variable_types: Vec::new(),
    }
}

fn class_with_methods(name: &str, super_name: Option<&str>, methods: Vec<Method>) -> Class {
    Class {
        name: name.to_string(),
        source_file: None,
        super_name: super_name.map(str::to_string),
        interfaces: Vec::new(),
        referenced_classes: Vec::new(),
        fields: Vec::new(),
        methods,
        artifact_index: 0,
        is_record: false,
    }
}

fn context_for(classes: Vec<Class>) -> AnalysisContext {
    build_context(classes, &[])
}

fn other(offset: u32, opcode: u8) -> Instruction {
    Instruction {
        offset,
        opcode,
        kind: InstructionKind::Other(opcode),
    }
}

#[test]
fn nullness_nullness_override_reports_return_mismatch() {
    let base_method = bare_method(
        "value",
        "()Ljava/lang/String;",
        MethodNullness {
            return_nullness: Nullness::NonNull,
            parameter_nullness: Vec::new(),
        },
    );
    let override_method = bare_method(
        "value",
        "()Ljava/lang/String;",
        MethodNullness {
            return_nullness: Nullness::Nullable,
            parameter_nullness: Vec::new(),
        },
    );
    let base = class_with_methods("com/example/Base", None, vec![base_method]);
    let derived = class_with_methods("com/example/Derived", Some("com/example/Base"), vec![override_method]);
    let context = context_for(vec![base, derived]);

    let results = NullnessRule.run(&context).expect("nullness rule run");

    assert_eq!(1, results.len());
    let message = results[0].message.as_str();
    assert!(message.contains("returns @Nullable but overrides @NonNull"));
}

#[test]
fn nullness_nullness_override_reports_parameter_mismatch() {
    let base_method = bare_method(
        "set",
        "(Ljava/lang/String;)V",
        MethodNullness {
            return_nullness: Nullness::Unknown,
            parameter_nullness: vec![Nullness::Nullable],
        },
    );
    let override_method = bare_method(
        "set",
        "(Ljava/lang/String;)V",
        MethodNullness {
            return_nullness: Nullness::Unknown,
            parameter_nullness: vec![Nullness::NonNull],
        },
    );
    let base = class_with_methods("com/example/Base", None, vec![base_method]);
    let derived = class_with_methods("com/example/Derived", Some("com/example/Base"), vec![override_method]);
    let context = context_for(vec![base, derived]);

    let results = NullnessRule.run(&context).expect("nullness rule run");

    assert_eq!(1, results.len());
    let message = results[0].message.as_str();
    assert!(message.contains("parameter 0 is @NonNull but overrides @Nullable"));
}

#[test]
fn nullness_nullness_flow_reports_returning_null() {
    let method = method_with(
        "value",
        "()Ljava/lang/String;",
        access(true, false, false),
        MethodNullness {
            return_nullness: Nullness::NonNull,
            parameter_nullness: Vec::new(),
        },
        vec![opcodes::ACONST_NULL, opcodes::ARETURN],
        vec![other(0, opcodes::ACONST_NULL), other(1, opcodes::ARETURN)],
        Vec::new(),
    );
    let class = class_with_methods("com/example/ReturnNull", None, vec![method]);
    let context = context_for(vec![class]);

    let results = NullnessRule.run(&context).expect("nullness rule run");

    assert_eq!(1, results.len());
    let message = results[0].message.as_str();
    assert!(message.contains("returns null but is @NonNull"));
}

#[test]
fn nullness_nullness_flow_reports_nullable_receiver() {
    let method = method_with(
        "invoke",
        "(Ljava/lang/Object;)V",
        access(true, true, false),
        MethodNullness {
            return_nullness: Nullness::Unknown,
            parameter_nullness: vec![Nullness::Nullable],
        },
        vec![opcodes::ALOAD_0, opcodes::INVOKEVIRTUAL, 0x00, 0x01, opcodes::RETURN],
        vec![
            other(0, opcodes::ALOAD_0),
            other(1, opcodes::INVOKEVIRTUAL),
            other(4, opcodes::RETURN),
        ],
        vec![CallSite {
            owner: "com/example/Target".to_string(),
            name: "run".to_string(),
            descriptor: "()V".to_string(),
            kind: CallKind::Virtual,
            offset: 1,
        }],
    );
    let class = class_with_methods("com/example/Caller", None, vec![method]);
    let context = context_for(vec![class]);

    let results = NullnessRule.run(&context).expect("nullness rule run");

    assert_eq!(1, results.len());
    let message = results[0].message.as_str();
    assert!(message.contains("possible null receiver"));
}

#[test]
fn nullness_flow_exact_messages() {
    let method = method_with(
        "invoke",
        "(Ljava/lang/Object;)V",
        access(true, true, false),
        MethodNullness {
            return_nullness: Nullness::Unknown,
            parameter_nullness: vec![Nullness::Nullable],
        },
        vec![opcodes::ALOAD_0, opcodes::INVOKEVIRTUAL, 0x00, 0x01, opcodes::RETURN],
        vec![
            other(0, opcodes::ALOAD_0),
            other(1, opcodes::INVOKEVIRTUAL),
            other(4, opcodes::RETURN),
        ],
        vec![CallSite {
            owner: "com/example/Target".to_string(),
            name: "run".to_string(),
            descriptor: "()V".to_string(),
            kind: CallKind::Virtual,
            offset: 1,
        }],
    );
    let class = class_with_methods("com/example/Caller", None, vec![method]);
    let context = context_for(vec![class]);
    let results = NullnessRule.run(&context).expect("nullness rule run");
    assert_eq!(
        results[0].message,
        "Nullness issue: possible null receiver in call to com/example/Target.run()V"
    );
}

fn null_test_method(test: Vec<u8>, test_instructions: Vec<Instruction>, call_offset: u32) -> Method {
    // <test>; aload_0; invokevirtual Target.run; return
    let test_len = test.len() as u32;
    let mut bytecode = test;
    bytecode.extend(vec![opcodes::ALOAD_0, opcodes::INVOKEVIRTUAL, 0x00, 0x01, opcodes::RETURN]);
    let mut method = method_with(
        "invoke",
        "(Ljava/lang/Object;)V",
        access(true, true, false),
        MethodNullness {
            return_nullness: Nullness::Unknown,
            parameter_nullness: vec![Nullness::Unknown],
        },
        bytecode,
        Vec::new(),
        vec![CallSite {
            owner: "com/example/Target".to_string(),
            name: "run".to_string(),
            descriptor: "()V".to_string(),
            kind: CallKind::Virtual,
            offset: call_offset,
        }],
    );
    method.cfg = ControlFlowGraph {
        blocks: vec![
            BasicBlock {
                start_offset: 0,
                end_offset: test_len,
                instructions: test_instructions,
            },
            BasicBlock {
                start_offset: test_len,
                end_offset: test_len + 4,
                instructions: vec![other(test_len, opcodes::ALOAD_0), other(test_len + 1, opcodes::INVOKEVIRTUAL)],
            },
            BasicBlock {
                start_offset: test_len + 4,
                end_offset: test_len + 5,
                instructions: vec![other(test_len + 4, opcodes::RETURN)],
            },
        ],
        edges: vec![
            inspequte::ir::FlowEdge { from: 0, to: test_len, kind: inspequte::ir::EdgeKind::FallThrough },
            inspequte::ir::FlowEdge { from: 0, to: test_len + 4, kind: inspequte::ir::EdgeKind::Branch },
            inspequte::ir::FlowEdge { from: test_len, to: test_len + 4, kind: inspequte::ir::EdgeKind::FallThrough },
        ],
    };
    method
}

fn flow_results(method: Method) -> Vec<String> {
    let class = class_with_methods("com/example/Caller", None, vec![method]);
    let context = context_for(vec![class]);
    NullnessRule
        .run(&context)
        .expect("nullness rule run")
        .into_iter()
        .map(|f| f.message)
        .collect()
}

#[test]
fn nullness_flow_ifnull_makes_local_non_null_on_fall_through() {
    // aload_0; ifnull; aload_0; invokevirtual; return
    // The fall-through of `ifnull` sees the local as non-null.
    let method = null_test_method(
        vec![opcodes::ALOAD_0, opcodes::IFNULL, 0x00, 0x08],
        vec![other(0, opcodes::ALOAD_0), other(1, opcodes::IFNULL)],
        5,
    );
    assert!(flow_results(method).is_empty());
}

#[test]
fn nullness_flow_ifnonnull_makes_local_nullable_on_fall_through() {
    // aload_0; ifnonnull; aload_0; invokevirtual; return
    let method = null_test_method(
        vec![opcodes::ALOAD_0, opcodes::IFNONNULL, 0x00, 0x08],
        vec![other(0, opcodes::ALOAD_0), other(1, opcodes::IFNONNULL)],
        5,
    );
    assert_eq!(
        flow_results(method),
        vec!["Nullness issue: possible null receiver in call to com/example/Target.run()V".to_string()]
    );
}

#[test]
fn nullness_flow_if_acmpne_against_null_literal_refines_local() {
    // aload_0; aconst_null; if_acmpne; aload_0; invokevirtual; return
    // Falling through `x != null` means x is null.
    let method = null_test_method(
        vec![opcodes::ALOAD_0, opcodes::ACONST_NULL, opcodes::IF_ACMPNE, 0x00, 0x08],
        vec![other(0, opcodes::ALOAD_0), other(1, opcodes::ACONST_NULL), other(2, opcodes::IF_ACMPNE)],
        6,
    );
    assert_eq!(
        flow_results(method),
        vec!["Nullness issue: possible null receiver in call to com/example/Target.run()V".to_string()]
    );
}

#[test]
fn nullness_flow_if_acmpeq_against_null_literal_refines_local() {
    // aload_0; aconst_null; if_acmpeq; aload_0; invokevirtual; return
    let method = null_test_method(
        vec![opcodes::ALOAD_0, opcodes::ACONST_NULL, opcodes::IF_ACMPEQ, 0x00, 0x08],
        vec![other(0, opcodes::ALOAD_0), other(1, opcodes::ACONST_NULL), other(2, opcodes::IF_ACMPEQ)],
        6,
    );
    assert!(flow_results(method).is_empty());
}

#[test]
fn nullness_flow_null_test_before_the_end_of_a_block_refines_local() {
    // aload_0; ifnonnull (not last: the block goes on); aload_0; invokevirtual
    // all in one block: the local is nullable after the test.
    let mut method = null_test_method(
        vec![opcodes::ALOAD_0, opcodes::IFNONNULL, 0x00, 0x04],
        vec![other(0, opcodes::ALOAD_0), other(1, opcodes::IFNONNULL)],
        5,
    );
    method.cfg = ControlFlowGraph {
        blocks: vec![BasicBlock {
            start_offset: 0,
            end_offset: 9,
            instructions: vec![
                other(0, opcodes::ALOAD_0),
                other(1, opcodes::IFNONNULL),
                other(4, opcodes::ALOAD_0),
                other(5, opcodes::INVOKEVIRTUAL),
                other(8, opcodes::RETURN),
            ],
        }],
        edges: Vec::new(),
    };
    assert_eq!(
        flow_results(method),
        vec!["Nullness issue: possible null receiver in call to com/example/Target.run()V".to_string()]
    );
}

fn two_calls_method(line_numbers: Vec<inspequte::ir::LineNumber>) -> Method {
    // aload_0; invokevirtual run; aload_0; invokevirtual run; return
    let call = |offset: u32| CallSite {
        owner: "com/example/Target".to_string(),
        name: "run".to_string(),
        descriptor: "()V".to_string(),
        kind: CallKind::Virtual,
        offset,
    };
    let mut method = method_with(
        "invoke",
        "(Ljava/lang/Object;)V",
        access(true, true, false),
        MethodNullness {
            return_nullness: Nullness::Unknown,
            parameter_nullness: vec![Nullness::Nullable],
        },
        vec![opcodes::ALOAD_0, opcodes::INVOKEVIRTUAL, 0x00, 0x01, opcodes::ALOAD_0, opcodes::INVOKEVIRTUAL, 0x00, 0x01, opcodes::RETURN],
        vec![
            other(0, opcodes::ALOAD_0),
            other(1, opcodes::INVOKEVIRTUAL),
            other(4, opcodes::ALOAD_0),
            other(5, opcodes::INVOKEVIRTUAL),
            other(8, opcodes::RETURN),
        ],
        vec![call(1), call(5)],
    );
    method.line_numbers = line_numbers;
    method
}

fn flow_findings_in_class_file(method: Method) -> Vec<inspequte::rules::location::Finding> {
    let class = class_with_methods("com/example/Caller", None, vec![method]);
    let artifacts = vec![inspequte::engine::ArtifactInfo {
        uri: Some("file:///app/com/example/Caller.class".to_string()),
        parent_index: None,
        is_analysis_target: true,
    }];
    let context = build_context(vec![class], &artifacts);
    NullnessRule.run(&context).expect("nullness rule run")
}

#[test]
fn nullness_run_drops_findings_repeating_message_and_location() {
    // Both calls are on the same line: the second finding repeats the first.
    let results = flow_findings_in_class_file(two_calls_method(vec![inspequte::ir::LineNumber { start_pc: 0, line: 7 }]));
    assert_eq!(results.len(), 1);
    assert_eq!(results[0].locations[0].physical.as_ref().unwrap().start_line, Some(7));
}

#[test]
fn nullness_run_keeps_findings_on_different_lines() {
    // With a class file as artifact, each finding has a line: the two calls differ.
    let results = flow_findings_in_class_file(two_calls_method(vec![
        inspequte::ir::LineNumber { start_pc: 0, line: 7 },
        inspequte::ir::LineNumber { start_pc: 4, line: 8 },
    ]));
    assert_eq!(results.len(), 2);
    assert_eq!(results[0].locations[0].physical.as_ref().unwrap().start_line, Some(7));
    assert_eq!(results[1].locations[0].physical.as_ref().unwrap().start_line, Some(8));
}

#[test]
fn nullness_run_without_artifact_drops_findings_of_the_same_method() {
    // Without an artifact the location has no line, so the second finding
    // repeats the first.
    let results = flow_results(two_calls_method(vec![
        inspequte::ir::LineNumber { start_pc: 0, line: 7 },
        inspequte::ir::LineNumber { start_pc: 4, line: 8 },
    ]));
    assert_eq!(results.len(), 1);
}

#[test]
fn supertypes_are_walked_breadth_first_each_name_once() {
    let mut child = class_with_methods("p/Child", Some("p/Base"), Vec::new());
    child.interfaces = vec!["p/Iface".to_string()];
    let mut base = class_with_methods("p/Base", Some("p/Root"), Vec::new());
    base.interfaces = vec!["p/Iface".to_string()];
    let iface = class_with_methods("p/Iface", None, Vec::new());
    let root = class_with_methods("p/Root", None, Vec::new());
    let classes = vec![&child, &base, &iface, &root];
    let supers = inspequte::rules::nullness::collect_supertypes(&child, &classes);
    let names: Vec<&str> = supers.iter().map(|c| c.name.as_str()).collect();
    assert_eq!(names, vec!["p/Base", "p/Iface", "p/Root"]);
}

#[test]
fn entry_state_marks_receiver_and_parameters() {
    let nullness = MethodNullness {
        return_nullness: Nullness::Unknown,
        parameter_nullness: vec![Nullness::Nullable, Nullness::NonNull],
    };
    let method = method_with("m", "(Ljava/lang/Object;Ljava/lang/Object;)V", access(true, false, false), nullness, vec![opcodes::RETURN], vec![other(0, opcodes::RETURN)], Vec::new());
    let state = inspequte::rules::nullness::entry_state(&method, 4);
    assert_eq!(state.locals, vec![Nullness::NonNull, Nullness::Nullable, Nullness::NonNull, Nullness::Unknown]);
    assert!(state.stack.is_empty());
}

#[test]
fn override_findings_follow_method_then_supertype_order() {
    let base_nullness = MethodNullness {
        return_nullness: Nullness::NonNull,
        parameter_nullness: vec![Nullness::Nullable, Nullness::Nullable],
    };
    let child_nullness = MethodNullness {
        return_nullness: Nullness::Nullable,
        parameter_nullness: vec![Nullness::NonNull, Nullness::NonNull],
    };
    let base = class_with_methods("p/Base", None, vec![bare_method("m", "(Ljava/lang/Object;Ljava/lang/Object;)Ljava/lang/Object;", base_nullness)]);
    let child = class_with_methods("p/Child", Some("p/Base"), vec![bare_method("m", "(Ljava/lang/Object;Ljava/lang/Object;)Ljava/lang/Object;", child_nullness)]);
    let classes = vec![&child, &base];
    let found = inspequte::rules::nullness::check_overrides(&classes, &child);
    let messages: Vec<String> = found.iter().map(|f| f.message.clone()).collect();
    assert_eq!(
        messages,
        vec![
            "Nullness override: p/Child.m(Ljava/lang/Object;Ljava/lang/Object;)Ljava/lang/Object; returns @Nullable but overrides @NonNull".to_string(),
            "Nullness override: p/Child.m(Ljava/lang/Object;Ljava/lang/Object;)Ljava/lang/Object; parameter 0 is @NonNull but overrides @Nullable".to_string(),
            "Nullness override: p/Child.m(Ljava/lang/Object;Ljava/lang/Object;)Ljava/lang/Object; parameter 1 is @NonNull but overrides @Nullable".to_string(),
        ]
    );
}
