use inspequte::ir::{
    BasicBlock, CallKind, CallSite, Class, ControlFlowGraph, EdgeKind, ExceptionHandler, Field,
    FieldAccess, FieldRef, FlowEdge, Instruction, InstructionKind, LineNumber, LocalVariableType,
    Method, MethodAccess, MethodNullness,
};
use inspequte::descriptor::method_param_count;
use inspequte::engine::{AnalysisContext, ArtifactInfo, build_context, tag_findings};
use inspequte::rules::dead_code::DeadCodeRule;
use inspequte::rules::location::Finding;

fn empty_cfg() -> ControlFlowGraph {
    ControlFlowGraph {
        blocks: Vec::new(),
        edges: Vec::new(),
    }
}

fn access(is_public: bool, is_static: bool, is_abstract: bool) -> MethodAccess {
    MethodAccess {
        is_public,
        is_static,
        is_abstract,
        is_synchronized: false,
        is_bridge: false,
        is_synthetic: false,
    }
}

fn method_with(
    name: &str,
    descriptor: &str,
    access: MethodAccess,
    bytecode: Vec<u8>,
    calls: Vec<CallSite>,
) -> Method {
    Method {
        name: name.to_string(),
        descriptor: descriptor.to_string(),
        signature: None,
        access,
        nullness: MethodNullness::unknown(method_param_count(descriptor).expect("param count")),
        bytecode,
        line_numbers: Vec::new(),
        cfg: empty_cfg(),
        calls,
        string_literals: Vec::new(),
        exception_handlers: Vec::new(),
        local_variable_types: Vec::new(),
    }
}

fn class_with_methods(name: &str, methods: Vec<Method>) -> Class {
    Class {
        name: name.to_string(),
        source_file: None,
        super_name: None,
        interfaces: Vec::new(),
        referenced_classes: Vec::new(),
        fields: Vec::new(),
        methods,
        artifact_index: 0,
        is_record: false,
    }
}

fn context_for(classes: Vec<Class>) -> AnalysisContext {
    build_context(classes, &[])
}

fn analyze_dead_code(classes: Vec<Class>) -> Vec<Finding> {
    let context = build_context(classes, &[]);
    let findings = DeadCodeRule.run(&context).expect("dead code rule run");
    tag_findings(findings, "DEAD_CODE")
}

fn call(owner: &str, name: &str, descriptor: &str, kind: CallKind, offset: u32) -> CallSite {
    CallSite {
        owner: owner.to_string(),
        name: name.to_string(),
        descriptor: descriptor.to_string(),
        kind,
        offset,
    }
}

#[test]
fn dead_code_rule_reports_unreachable_method() {
    let main_method = method_with(
        "main",
        "([Ljava/lang/String;)V",
        access(true, true, false),
        vec![0],
        vec![CallSite {
            owner: "com/example/App".to_string(),
            name: "reachable".to_string(),
            descriptor: "()V".to_string(),
            kind: CallKind::Static,
            offset: 0,
        }],
    );
    let reachable = method_with("reachable", "()V", access(false, true, false), vec![0], Vec::new());
    let unreachable = method_with("unreachable", "()V", access(false, false, false), vec![0], Vec::new());
    let classes = vec![class_with_methods(
        "com/example/App",
        vec![main_method, reachable, unreachable],
    )];
    let context = context_for(classes);

    let results = DeadCodeRule.run(&context).expect("dead code rule run");

    assert_eq!(1, results.len());
    let message = results[0].message.as_str();
    assert!(message.contains("Unreachable method: com/example/App.unreachable()V"));
}

#[test]
fn dead_code_rule_skips_when_no_entrypoints() {
    let helper = method_with("helper", "()V", access(true, false, false), vec![0], Vec::new());
    let classes = vec![class_with_methods("com/example/Util", vec![helper])];
    let context = context_for(classes);

    let results = DeadCodeRule.run(&context).expect("dead code rule run");

    assert!(results.is_empty());
}

#[test]
fn dead_code_rule_skips_methods_without_body() {
    let main_method = method_with(
        "main",
        "([Ljava/lang/String;)V",
        access(true, true, false),
        vec![0],
        Vec::new(),
    );
    let unreachable = method_with("unreachable", "()V", access(true, false, false), Vec::new(), Vec::new());
    let classes = vec![class_with_methods("com/example/App", vec![main_method, unreachable])];
    let context = context_for(classes);

    let results = DeadCodeRule.run(&context).expect("dead code rule run");

    assert!(results.is_empty());
}

#[test]
fn dead_code_rule_reports_unreachable_method_from_harness() {
    let results = analyze_dead_code(ir_dead_code_rule_reports_unreachable_method_from_harness());

    let messages: Vec<String> = results
        .iter()
        .filter(|result| result.rule_id.as_deref() == Some("DEAD_CODE"))
        .map(|result| result.message.clone())
        .collect();

    assert!(messages.iter().any(|msg| msg.contains("unused()V")));
}

#[test]
fn dead_code_rule_reports_only_the_unused_method_of_compiled_class() {
    let results = analyze_dead_code(ir_dead_code_rule_reports_unreachable_method_from_harness());
    let messages: Vec<String> = results.iter().map(|result| result.message.clone()).collect();
    assert_eq!(messages, vec!["Unreachable method: com/example/App.unused()V".to_string()]);
}

#[test]
fn dead_code_rule_follows_calls_transitively() {
    let entry = method_with(
        "entry",
        "()V",
        access(true, false, false),
        vec![0],
        vec![call("com/example/App", "first", "()V", CallKind::Special, 1)],
    );
    let first = method_with(
        "first",
        "()V",
        access(false, false, false),
        vec![0],
        vec![call("com/example/App", "second", "()V", CallKind::Special, 1)],
    );
    let second = method_with("second", "()V", access(false, false, false), vec![0], Vec::new());
    let context = context_for(vec![class_with_methods("com/example/App", vec![entry, first, second])]);
    let results = DeadCodeRule.run(&context).expect("dead code rule run");
    assert!(results.is_empty());
}

#[test]
fn dead_code_rule_reports_in_key_order() {
    let entry = method_with("entry", "()V", access(true, false, false), vec![0], Vec::new());
    let zeta = method_with("zeta", "()V", access(false, false, false), vec![0], Vec::new());
    let alpha = method_with("alpha", "()V", access(false, false, false), vec![0], Vec::new());
    let other = method_with("beta", "(I)V", access(false, false, false), vec![0], Vec::new());
    let context = context_for(vec![
        class_with_methods("com/example/B", vec![other]),
        class_with_methods("com/example/A", vec![entry, zeta, alpha]),
    ]);
    let results = DeadCodeRule.run(&context).expect("dead code rule run");
    let messages: Vec<&str> = results.iter().map(|result| result.message.as_str()).collect();
    assert_eq!(
        messages,
        vec![
            "Unreachable method: com/example/A.alpha()V",
            "Unreachable method: com/example/A.zeta()V",
            "Unreachable method: com/example/B.beta(I)V",
        ]
    );
}

#[test]
fn dead_code_rule_resolves_virtual_calls_to_all_subclasses() {
    let entry = method_with(
        "entry",
        "()V",
        access(true, true, false),
        vec![0],
        vec![call("com/example/Base", "work", "()V", CallKind::Virtual, 3)],
    );
    let base_work = method_with("work", "()V", access(false, false, false), vec![0], Vec::new());
    let sub_work = method_with("work", "()V", access(false, false, false), vec![0], Vec::new());
    let grand_work = method_with("work", "()V", access(false, false, false), vec![0], Vec::new());
    let mut sub = class_with_methods("com/example/Sub", vec![sub_work]);
    sub.super_name = Some("com/example/Base".to_string());
    let mut grand = class_with_methods("com/example/Grand", vec![grand_work]);
    grand.super_name = Some("com/example/Sub".to_string());
    let context = context_for(vec![
        class_with_methods("com/example/Main", vec![entry]),
        class_with_methods("com/example/Base", vec![base_work]),
        sub,
        grand,
    ]);
    let results = DeadCodeRule.run(&context).expect("dead code rule run");
    let messages: Vec<&str> = results.iter().map(|result| result.message.as_str()).collect();
    assert!(messages.is_empty());
}

#[test]
fn dead_code_rule_ignores_dependency_classes() {
    let entry = method_with("entry", "()V", access(true, false, false), vec![0], Vec::new());
    let mut app = class_with_methods("com/example/App", vec![entry]);
    app.artifact_index = 0;
    let lonely = method_with("lonely", "()V", access(false, false, false), vec![0], Vec::new());
    let mut lib = class_with_methods("com/lib/Lib", vec![lonely]);
    lib.artifact_index = 1;
    let artifacts = vec![
        ArtifactInfo { uri: Some("file:///app.jar".to_string()), parent_index: None, is_analysis_target: true },
        ArtifactInfo { uri: Some("file:///lib.jar".to_string()), parent_index: None, is_analysis_target: false },
    ];
    let context = build_context(vec![app, lib], &artifacts);
    let results = DeadCodeRule.run(&context).expect("dead code rule run");
    assert!(results.is_empty());
}

fn cls(
    name: &str,
    super_name: Option<&str>,
    interfaces: &[&str],
    referenced: &[&str],
    source_file: Option<&str>,
    is_record: bool,
    fields: Vec<Field>,
    methods: Vec<Method>,
) -> Class {
    Class {
        name: name.to_string(),
        source_file: source_file.map(|s| s.to_string()),
        super_name: super_name.map(|s| s.to_string()),
        interfaces: interfaces.iter().map(|s| s.to_string()).collect(),
        referenced_classes: referenced.iter().map(|s| s.to_string()).collect(),
        fields,
        methods,
        artifact_index: 0,
        is_record,
    }
}

fn fldd(name: &str, descriptor: &str, signature: Option<&str>, flags: u16) -> Field {
    Field {
        name: name.to_string(),
        descriptor: descriptor.to_string(),
        signature: signature.map(|s| s.to_string()),
        access: FieldAccess {
            is_static: flags & 0x0008 != 0,
            is_private: flags & 0x0002 != 0,
            is_final: flags & 0x0010 != 0,
        },
    }
}

#[allow(clippy::too_many_arguments)]
fn mth(
    name: &str,
    descriptor: &str,
    signature: Option<&str>,
    flags: u16,
    param_count: usize,
    bytecode: Vec<u8>,
    lines: &[(u32, u32)],
    blocks: Vec<BasicBlock>,
    edges: &[(u32, u32, EdgeKind)],
    exception_handlers: Vec<ExceptionHandler>,
    local_variable_types: Vec<LocalVariableType>,
) -> Method {
    let mut instructions: Vec<&Instruction> = blocks.iter().flat_map(|b| b.instructions.iter()).collect();
    instructions.sort_by_key(|i| i.offset);
    let mut calls = Vec::new();
    let mut string_literals = Vec::new();
    for instruction in instructions {
        match &instruction.kind {
            InstructionKind::Invoke(call) => calls.push(call.clone()),
            InstructionKind::ConstString(value) => string_literals.push(value.clone()),
            _ => {}
        }
    }
    Method {
        name: name.to_string(),
        descriptor: descriptor.to_string(),
        signature: signature.map(|s| s.to_string()),
        access: MethodAccess {
            is_public: flags & 0x0001 != 0,
            is_static: flags & 0x0008 != 0,
            is_abstract: flags & 0x0400 != 0,
            is_synchronized: flags & 0x0020 != 0,
            is_bridge: flags & 0x0040 != 0,
            is_synthetic: flags & 0x1000 != 0,
        },
        nullness: MethodNullness::unknown(param_count),
        bytecode,
        line_numbers: lines
            .iter()
            .map(|(start_pc, line)| LineNumber { start_pc: *start_pc, line: *line })
            .collect(),
        cfg: ControlFlowGraph {
            blocks,
            edges: edges
                .iter()
                .map(|(from, to, kind)| FlowEdge { from: *from, to: *to, kind: *kind })
                .collect(),
        },
        calls,
        string_literals,
        exception_handlers,
        local_variable_types,
    }
}

fn blk(start_offset: u32, end_offset: u32, instructions: Vec<Instruction>) -> BasicBlock {
    BasicBlock { start_offset, end_offset, instructions }
}

fn hnd(start_pc: u32, end_pc: u32, handler_pc: u32, catch_type: Option<&str>) -> ExceptionHandler {
    ExceptionHandler { start_pc, end_pc, handler_pc, catch_type: catch_type.map(|s| s.to_string()) }
}

fn lvt(name: &str, signature: &str, index: u16, start_pc: u32, length: u32) -> LocalVariableType {
    LocalVariableType { name: name.to_string(), signature: signature.to_string(), index, start_pc, length }
}

fn inv(offset: u32, opcode: u8, owner: &str, name: &str, descriptor: &str) -> Instruction {
    let kind = match opcode {
        0xb6 => CallKind::Virtual,
        0xb7 => CallKind::Special,
        0xb8 => CallKind::Static,
        _ => CallKind::Interface,
    };
    Instruction {
        offset,
        opcode,
        kind: InstructionKind::Invoke(CallSite {
            owner: owner.to_string(),
            name: name.to_string(),
            descriptor: descriptor.to_string(),
            kind,
            offset,
        }),
    }
}

fn indy(offset: u32, descriptor: &str, impl_method: Option<&str>) -> Instruction {
    Instruction {
        offset,
        opcode: 0xba,
        kind: InstructionKind::InvokeDynamic {
            descriptor: descriptor.to_string(),
            impl_method: impl_method.map(|s| s.to_string()),
        },
    }
}

fn cstr(offset: u32, opcode: u8, value: &str) -> Instruction {
    Instruction { offset, opcode, kind: InstructionKind::ConstString(value.to_string()) }
}

fn ccls(offset: u32, opcode: u8, value: &str) -> Instruction {
    Instruction { offset, opcode, kind: InstructionKind::ConstClass(value.to_string()) }
}

fn cint(offset: u32, opcode: u8, value: i64) -> Instruction {
    Instruction { offset, opcode, kind: InstructionKind::ConstInt(value) }
}

fn fld(offset: u32, opcode: u8, owner: &str, name: &str, descriptor: &str) -> Instruction {
    Instruction {
        offset,
        opcode,
        kind: InstructionKind::FieldAccess(FieldRef {
            owner: owner.to_string(),
            name: name.to_string(),
            descriptor: descriptor.to_string(),
        }),
    }
}

fn oth(offset: u32, opcode: u8) -> Instruction {
    Instruction { offset, opcode, kind: InstructionKind::Other(opcode) }
}

fn ir_dead_code_rule_reports_unreachable_method_from_harness() -> Vec<Class> {
    vec![
    cls("com/example/App", Some("java/lang/Object"), &[], &["java/lang/Object"], Some("App.java"), false,
      vec![],
      vec![
        mth("<init>", "()V", None, 0x0001, 0,
          vec![42, 183, 0, 1, 177],
          &[(0, 3)],
          vec![blk(0, 5, vec![oth(0, 42), inv(1, 183, "java/lang/Object", "<init>", "()V"), oth(4, 177)])],
          &[],
          vec![],
          vec![]),
        mth("entry", "()V", None, 0x0001, 0,
          vec![42, 182, 0, 7, 177],
          &[(0, 5), (4, 6)],
          vec![blk(0, 5, vec![oth(0, 42), inv(1, 182, "com/example/App", "helper", "()V"), oth(4, 177)])],
          &[],
          vec![],
          vec![]),
        mth("helper", "()V", None, 0x0002, 0,
          vec![177],
          &[(0, 8)],
          vec![blk(0, 1, vec![oth(0, 177)])],
          &[],
          vec![],
          vec![]),
        mth("unused", "()V", None, 0x0002, 0,
          vec![177],
          &[(0, 10)],
          vec![blk(0, 1, vec![oth(0, 177)])],
          &[],
          vec![],
          vec![])
      ])
    ]
}
