use inspequte::ir::{
    BasicBlock, CallKind, CallSite, Class, ControlFlowGraph, EdgeKind, ExceptionHandler, Field,
    FieldAccess, FieldRef, FlowEdge, Instruction, InstructionKind, LineNumber, LocalVariableType,
    Method, MethodAccess, MethodNullness,
};
use inspequte::engine::{Engine, build_context};


fn analyze_sources(classes: Vec<Class>) -> Vec<String> {
    let context = build_context(classes, &[]);
    let output = Engine::new().analyze(context).expect("run analysis");
    output
        .results
        .iter()
        .filter(|result| result.rule_id.as_deref() == Some("EXCEPTION_CAUSE_NOT_PRESERVED"))
        .map(|result| result.message.clone())
        .collect()
}


fn cls(
    name: &str,
    super_name: Option<&str>,
    interfaces: &[&str],
    referenced: &[&str],
    source_file: Option<&str>,
    is_record: bool,
    fields: Vec<Field>,
    methods: Vec<Method>,
) -> Class {
    Class {
        name: name.to_string(),
        source_file: source_file.map(|s| s.to_string()),
        super_name: super_name.map(|s| s.to_string()),
        interfaces: interfaces.iter().map(|s| s.to_string()).collect(),
        referenced_classes: referenced.iter().map(|s| s.to_string()).collect(),
        fields,
        methods,
        artifact_index: 0,
        is_record,
    }
}

fn fldd(name: &str, descriptor: &str, signature: Option<&str>, flags: u16) -> Field {
    Field {
        name: name.to_string(),
        descriptor: descriptor.to_string(),
        signature: signature.map(|s| s.to_string()),
        access: FieldAccess {
            is_static: flags & 0x0008 != 0,
            is_private: flags & 0x0002 != 0,
            is_final: flags & 0x0010 != 0,
        },
    }
}

#[allow(clippy::too_many_arguments)]
fn mth(
    name: &str,
    descriptor: &str,
    signature: Option<&str>,
    flags: u16,
    param_count: usize,
    bytecode: Vec<u8>,
    lines: &[(u32, u32)],
    blocks: Vec<BasicBlock>,
    edges: &[(u32, u32, EdgeKind)],
    exception_handlers: Vec<ExceptionHandler>,
    local_variable_types: Vec<LocalVariableType>,
) -> Method {
    let mut instructions: Vec<&Instruction> = blocks.iter().flat_map(|b| b.instructions.iter()).collect();
    instructions.sort_by_key(|i| i.offset);
    let mut calls = Vec::new();
    let mut string_literals = Vec::new();
    for instruction in instructions {
        match &instruction.kind {
            InstructionKind::Invoke(call) => calls.push(call.clone()),
            InstructionKind::ConstString(value) => string_literals.push(value.clone()),
            _ => {}
        }
    }
    Method {
        name: name.to_string(),
        descriptor: descriptor.to_string(),
        signature: signature.map(|s| s.to_string()),
        access: MethodAccess {
            is_public: flags & 0x0001 != 0,
            is_static: flags & 0x0008 != 0,
            is_abstract: flags & 0x0400 != 0,
            is_synchronized: flags & 0x0020 != 0,
            is_bridge: flags & 0x0040 != 0,
            is_synthetic: flags & 0x1000 != 0,
        },
        nullness: MethodNullness::unknown(param_count),
        bytecode,
        line_numbers: lines
            .iter()
            .map(|(start_pc, line)| LineNumber { start_pc: *start_pc, line: *line })
            .collect(),
        cfg: ControlFlowGraph {
            blocks,
            edges: edges
                .iter()
                .map(|(from, to, kind)| FlowEdge { from: *from, to: *to, kind: *kind })
                .collect(),
        },
        calls,
        string_literals,
        exception_handlers,
        local_variable_types,
    }
}

fn blk(start_offset: u32, end_offset: u32, instructions: Vec<Instruction>) -> BasicBlock {
    BasicBlock { start_offset, end_offset, instructions }
}

fn hnd(start_pc: u32, end_pc: u32, handler_pc: u32, catch_type: Option<&str>) -> ExceptionHandler {
    ExceptionHandler { start_pc, end_pc, handler_pc, catch_type: catch_type.map(|s| s.to_string()) }
}

fn lvt(name: &str, signature: &str, index: u16, start_pc: u32, length: u32) -> LocalVariableType {
    LocalVariableType { name: name.to_string(), signature: signature.to_string(), index, start_pc, length }
}

fn inv(offset: u32, opcode: u8, owner: &str, name: &str, descriptor: &str) -> Instruction {
    let kind = match opcode {
        0xb6 => CallKind::Virtual,
        0xb7 => CallKind::Special,
        0xb8 => CallKind::Static,
        _ => CallKind::Interface,
    };
    Instruction {
        offset,
        opcode,
        kind: InstructionKind::Invoke(CallSite {
            owner: owner.to_string(),
            name: name.to_string(),
            descriptor: descriptor.to_string(),
            kind,
            offset,
        }),
    }
}

fn indy(offset: u32, descriptor: &str, impl_method: Option<&str>) -> Instruction {
    Instruction {
        offset,
        opcode: 0xba,
        kind: InstructionKind::InvokeDynamic {
            descriptor: descriptor.to_string(),
            impl_method: impl_method.map(|s| s.to_string()),
        },
    }
}

fn cstr(offset: u32, opcode: u8, value: &str) -> Instruction {
    Instruction { offset, opcode, kind: InstructionKind::ConstString(value.to_string()) }
}

fn ccls(offset: u32, opcode: u8, value: &str) -> Instruction {
    Instruction { offset, opcode, kind: InstructionKind::ConstClass(value.to_string()) }
}

fn cint(offset: u32, opcode: u8, value: i64) -> Instruction {
    Instruction { offset, opcode, kind: InstructionKind::ConstInt(value) }
}

fn fld(offset: u32, opcode: u8, owner: &str, name: &str, descriptor: &str) -> Instruction {
    Instruction {
        offset,
        opcode,
        kind: InstructionKind::FieldAccess(FieldRef {
            owner: owner.to_string(),
            name: name.to_string(),
            descriptor: descriptor.to_string(),
        }),
    }
}

fn oth(offset: u32, opcode: u8) -> Instruction {
    Instruction { offset, opcode, kind: InstructionKind::Other(opcode) }
}

#[test]
fn exception_cause_reports_missing_cause() {
    let sources = ir_exception_cause_reports_missing_cause();

    let messages = analyze_sources(sources);
    assert!(messages.iter().any(|msg| msg.contains("original cause")));
}
#[test]
fn exception_cause_allows_constructor_cause() {
    let sources = ir_exception_cause_allows_constructor_cause();

    let messages = analyze_sources(sources);
    assert!(messages.is_empty());
}
#[test]
fn exception_cause_allows_rethrow() {
    let sources = ir_exception_cause_allows_rethrow();

    let messages = analyze_sources(sources);
    assert!(messages.is_empty());
}
#[test]
fn exception_cause_allows_init_cause() {
    let sources = ir_exception_cause_allows_init_cause();

    let messages = analyze_sources(sources);
    assert!(messages.is_empty());
}
#[test]
fn exception_cause_reports_path_without_preserve() {
    let sources = ir_exception_cause_reports_path_without_preserve();

    let messages = analyze_sources(sources);
    assert!(messages.iter().any(|msg| msg.contains("original cause")));
}
#[test]
fn exception_cause_allows_add_suppressed() {
    let sources = ir_exception_cause_allows_add_suppressed();

    let messages = analyze_sources(sources);
    assert!(messages.is_empty());
}
#[test]
fn exception_cause_ignores_external_exception_instance() {
    let sources = ir_exception_cause_ignores_external_exception_instance();

    let messages = analyze_sources(sources);
    assert!(messages.is_empty());
}
fn ir_exception_cause_reports_missing_cause() -> Vec<Class> {
    vec![
    cls("com/example/ClassA", Some("java/lang/Object"), &[], &["java/lang/Exception", "java/lang/IllegalStateException", "java/lang/Object", "java/lang/RuntimeException"], Some("ClassA.java"), false,
      vec![],
      vec![
        mth("<init>", "()V", None, 0x0001, 0,
          vec![42, 183, 0, 1, 177],
          &[(0, 4)],
          vec![blk(0, 5, vec![oth(0, 42), inv(1, 183, "java/lang/Object", "<init>", "()V"), oth(4, 177)])],
          &[],
          vec![],
          vec![]),
        mth("methodOne", "()V", None, 0x0001, 0,
          vec![42, 182, 0, 7, 167, 0, 14, 76, 187, 0, 14, 89, 18, 16, 183, 0, 18, 191, 177],
          &[(0, 7), (4, 10), (7, 8), (8, 9), (18, 11)],
          vec![blk(0, 4, vec![oth(0, 42), inv(1, 182, "com/example/ClassA", "MethodX", "()V")]), blk(4, 7, vec![oth(4, 167)]), blk(7, 18, vec![oth(7, 76), oth(8, 187), oth(11, 89), cstr(12, 18, "failed"), inv(14, 183, "java/lang/RuntimeException", "<init>", "(Ljava/lang/String;)V"), oth(17, 191)]), blk(18, 19, vec![oth(18, 177)])],
          &[(0, 4, EdgeKind::FallThrough), (0, 7, EdgeKind::Exception), (4, 18, EdgeKind::Branch)],
          vec![hnd(0, 4, 7, Some("java/lang/Exception"))],
          vec![]),
        mth("MethodX", "()V", None, 0x0002, 0,
          vec![187, 0, 21, 89, 18, 23, 183, 0, 25, 191],
          &[(0, 14)],
          vec![blk(0, 10, vec![oth(0, 187), oth(3, 89), cstr(4, 18, "boom"), inv(6, 183, "java/lang/IllegalStateException", "<init>", "(Ljava/lang/String;)V"), oth(9, 191)])],
          &[],
          vec![],
          vec![])
      ])
    ]
}

fn ir_exception_cause_allows_constructor_cause() -> Vec<Class> {
    vec![
    cls("com/example/ClassB", Some("java/lang/Object"), &[], &["java/lang/Exception", "java/lang/IllegalStateException", "java/lang/Object", "java/lang/RuntimeException"], Some("ClassB.java"), false,
      vec![],
      vec![
        mth("<init>", "()V", None, 0x0001, 0,
          vec![42, 183, 0, 1, 177],
          &[(0, 4)],
          vec![blk(0, 5, vec![oth(0, 42), inv(1, 183, "java/lang/Object", "<init>", "()V"), oth(4, 177)])],
          &[],
          vec![],
          vec![]),
        mth("methodTwo", "()V", None, 0x0001, 0,
          vec![42, 182, 0, 7, 167, 0, 15, 76, 187, 0, 14, 89, 18, 16, 43, 183, 0, 18, 191, 177],
          &[(0, 7), (4, 10), (7, 8), (8, 9), (19, 11)],
          vec![blk(0, 4, vec![oth(0, 42), inv(1, 182, "com/example/ClassB", "MethodX", "()V")]), blk(4, 7, vec![oth(4, 167)]), blk(7, 19, vec![oth(7, 76), oth(8, 187), oth(11, 89), cstr(12, 18, "failed"), oth(14, 43), inv(15, 183, "java/lang/RuntimeException", "<init>", "(Ljava/lang/String;Ljava/lang/Throwable;)V"), oth(18, 191)]), blk(19, 20, vec![oth(19, 177)])],
          &[(0, 4, EdgeKind::FallThrough), (0, 7, EdgeKind::Exception), (4, 19, EdgeKind::Branch)],
          vec![hnd(0, 4, 7, Some("java/lang/Exception"))],
          vec![]),
        mth("MethodX", "()V", None, 0x0002, 0,
          vec![187, 0, 21, 89, 18, 23, 183, 0, 25, 191],
          &[(0, 14)],
          vec![blk(0, 10, vec![oth(0, 187), oth(3, 89), cstr(4, 18, "boom"), inv(6, 183, "java/lang/IllegalStateException", "<init>", "(Ljava/lang/String;)V"), oth(9, 191)])],
          &[],
          vec![],
          vec![])
      ])
    ]
}

fn ir_exception_cause_allows_rethrow() -> Vec<Class> {
    vec![
    cls("com/example/ClassC", Some("java/lang/Object"), &[], &["java/lang/Exception", "java/lang/IllegalStateException", "java/lang/Object"], Some("ClassC.java"), false,
      vec![],
      vec![
        mth("<init>", "()V", None, 0x0001, 0,
          vec![42, 183, 0, 1, 177],
          &[(0, 4)],
          vec![blk(0, 5, vec![oth(0, 42), inv(1, 183, "java/lang/Object", "<init>", "()V"), oth(4, 177)])],
          &[],
          vec![],
          vec![]),
        mth("methodThree", "()V", None, 0x0001, 0,
          vec![42, 182, 0, 7, 167, 0, 6, 76, 43, 191, 177],
          &[(0, 7), (4, 10), (7, 8), (8, 9), (10, 11)],
          vec![blk(0, 4, vec![oth(0, 42), inv(1, 182, "com/example/ClassC", "MethodX", "()V")]), blk(4, 7, vec![oth(4, 167)]), blk(7, 10, vec![oth(7, 76), oth(8, 43), oth(9, 191)]), blk(10, 11, vec![oth(10, 177)])],
          &[(0, 4, EdgeKind::FallThrough), (0, 7, EdgeKind::Exception), (4, 10, EdgeKind::Branch)],
          vec![hnd(0, 4, 7, Some("java/lang/Exception"))],
          vec![]),
        mth("MethodX", "()V", None, 0x0002, 0,
          vec![187, 0, 14, 89, 18, 16, 183, 0, 18, 191],
          &[(0, 14)],
          vec![blk(0, 10, vec![oth(0, 187), oth(3, 89), cstr(4, 18, "boom"), inv(6, 183, "java/lang/IllegalStateException", "<init>", "(Ljava/lang/String;)V"), oth(9, 191)])],
          &[],
          vec![],
          vec![])
      ])
    ]
}

fn ir_exception_cause_allows_init_cause() -> Vec<Class> {
    vec![
    cls("com/example/ClassD", Some("java/lang/Object"), &[], &["java/lang/Exception", "java/lang/IllegalStateException", "java/lang/Object", "java/lang/RuntimeException"], Some("ClassD.java"), false,
      vec![],
      vec![
        mth("<init>", "()V", None, 0x0001, 0,
          vec![42, 183, 0, 1, 177],
          &[(0, 4)],
          vec![blk(0, 5, vec![oth(0, 42), inv(1, 183, "java/lang/Object", "<init>", "()V"), oth(4, 177)])],
          &[],
          vec![],
          vec![]),
        mth("methodFour", "()V", None, 0x0001, 0,
          vec![42, 182, 0, 7, 167, 0, 22, 76, 187, 0, 14, 89, 18, 16, 183, 0, 18, 77, 44, 43, 182, 0, 21, 87, 44, 191, 177],
          &[(0, 7), (4, 12), (7, 8), (8, 9), (18, 10), (24, 11), (26, 13)],
          vec![blk(0, 4, vec![oth(0, 42), inv(1, 182, "com/example/ClassD", "MethodX", "()V")]), blk(4, 7, vec![oth(4, 167)]), blk(7, 26, vec![oth(7, 76), oth(8, 187), oth(11, 89), cstr(12, 18, "failed"), inv(14, 183, "java/lang/RuntimeException", "<init>", "(Ljava/lang/String;)V"), oth(17, 77), oth(18, 44), oth(19, 43), inv(20, 182, "java/lang/RuntimeException", "initCause", "(Ljava/lang/Throwable;)Ljava/lang/Throwable;"), oth(23, 87), oth(24, 44), oth(25, 191)]), blk(26, 27, vec![oth(26, 177)])],
          &[(0, 4, EdgeKind::FallThrough), (0, 7, EdgeKind::Exception), (4, 26, EdgeKind::Branch)],
          vec![hnd(0, 4, 7, Some("java/lang/Exception"))],
          vec![]),
        mth("MethodX", "()V", None, 0x0002, 0,
          vec![187, 0, 25, 89, 18, 27, 183, 0, 29, 191],
          &[(0, 16)],
          vec![blk(0, 10, vec![oth(0, 187), oth(3, 89), cstr(4, 18, "boom"), inv(6, 183, "java/lang/IllegalStateException", "<init>", "(Ljava/lang/String;)V"), oth(9, 191)])],
          &[],
          vec![],
          vec![])
      ])
    ]
}

fn ir_exception_cause_reports_path_without_preserve() -> Vec<Class> {
    vec![
    cls("com/example/ClassE", Some("java/lang/Object"), &[], &["java/lang/Exception", "java/lang/IllegalStateException", "java/lang/Object", "java/lang/RuntimeException"], Some("ClassE.java"), false,
      vec![],
      vec![
        mth("<init>", "()V", None, 0x0001, 0,
          vec![42, 183, 0, 1, 177],
          &[(0, 4)],
          vec![blk(0, 5, vec![oth(0, 42), inv(1, 183, "java/lang/Object", "<init>", "()V"), oth(4, 177)])],
          &[],
          vec![],
          vec![]),
        mth("methodFive", "(Z)V", None, 0x0001, 1,
          vec![42, 182, 0, 7, 167, 0, 26, 77, 187, 0, 14, 89, 18, 16, 183, 0, 18, 78, 27, 153, 0, 9, 45, 44, 182, 0, 21, 87, 45, 191, 177],
          &[(0, 7), (4, 14), (7, 8), (8, 9), (18, 10), (22, 11), (28, 13), (30, 15)],
          vec![blk(0, 4, vec![oth(0, 42), inv(1, 182, "com/example/ClassE", "MethodX", "()V")]), blk(4, 7, vec![oth(4, 167)]), blk(7, 22, vec![oth(7, 77), oth(8, 187), oth(11, 89), cstr(12, 18, "failed"), inv(14, 183, "java/lang/RuntimeException", "<init>", "(Ljava/lang/String;)V"), oth(17, 78), oth(18, 27), oth(19, 153)]), blk(22, 28, vec![oth(22, 45), oth(23, 44), inv(24, 182, "java/lang/RuntimeException", "initCause", "(Ljava/lang/Throwable;)Ljava/lang/Throwable;"), oth(27, 87)]), blk(28, 30, vec![oth(28, 45), oth(29, 191)]), blk(30, 31, vec![oth(30, 177)])],
          &[(0, 4, EdgeKind::FallThrough), (0, 7, EdgeKind::Exception), (4, 30, EdgeKind::Branch), (7, 28, EdgeKind::Branch), (7, 22, EdgeKind::FallThrough), (22, 28, EdgeKind::FallThrough)],
          vec![hnd(0, 4, 7, Some("java/lang/Exception"))],
          vec![]),
        mth("MethodX", "()V", None, 0x0002, 0,
          vec![187, 0, 25, 89, 18, 27, 183, 0, 29, 191],
          &[(0, 18)],
          vec![blk(0, 10, vec![oth(0, 187), oth(3, 89), cstr(4, 18, "boom"), inv(6, 183, "java/lang/IllegalStateException", "<init>", "(Ljava/lang/String;)V"), oth(9, 191)])],
          &[],
          vec![],
          vec![])
      ])
    ]
}

fn ir_exception_cause_allows_add_suppressed() -> Vec<Class> {
    vec![
    cls("com/example/ClassF", Some("java/lang/Object"), &[], &["java/lang/Exception", "java/lang/IllegalStateException", "java/lang/Object", "java/lang/RuntimeException"], Some("ClassF.java"), false,
      vec![],
      vec![
        mth("<init>", "()V", None, 0x0001, 0,
          vec![42, 183, 0, 1, 177],
          &[(0, 4)],
          vec![blk(0, 5, vec![oth(0, 42), inv(1, 183, "java/lang/Object", "<init>", "()V"), oth(4, 177)])],
          &[],
          vec![],
          vec![]),
        mth("methodSix", "()V", None, 0x0001, 0,
          vec![42, 182, 0, 7, 167, 0, 21, 76, 187, 0, 14, 89, 18, 16, 183, 0, 18, 77, 44, 43, 182, 0, 21, 44, 191, 177],
          &[(0, 7), (4, 12), (7, 8), (8, 9), (18, 10), (23, 11), (25, 13)],
          vec![blk(0, 4, vec![oth(0, 42), inv(1, 182, "com/example/ClassF", "MethodX", "()V")]), blk(4, 7, vec![oth(4, 167)]), blk(7, 25, vec![oth(7, 76), oth(8, 187), oth(11, 89), cstr(12, 18, "failed"), inv(14, 183, "java/lang/RuntimeException", "<init>", "(Ljava/lang/String;)V"), oth(17, 77), oth(18, 44), oth(19, 43), inv(20, 182, "java/lang/RuntimeException", "addSuppressed", "(Ljava/lang/Throwable;)V"), oth(23, 44), oth(24, 191)]), blk(25, 26, vec![oth(25, 177)])],
          &[(0, 4, EdgeKind::FallThrough), (0, 7, EdgeKind::Exception), (4, 25, EdgeKind::Branch)],
          vec![hnd(0, 4, 7, Some("java/lang/Exception"))],
          vec![]),
        mth("MethodX", "()V", None, 0x0002, 0,
          vec![187, 0, 25, 89, 18, 27, 183, 0, 29, 191],
          &[(0, 16)],
          vec![blk(0, 10, vec![oth(0, 187), oth(3, 89), cstr(4, 18, "boom"), inv(6, 183, "java/lang/IllegalStateException", "<init>", "(Ljava/lang/String;)V"), oth(9, 191)])],
          &[],
          vec![],
          vec![])
      ])
    ]
}

fn ir_exception_cause_ignores_external_exception_instance() -> Vec<Class> {
    vec![
    cls("com/example/ClassG", Some("java/lang/Object"), &[], &["java/lang/Exception", "java/lang/IllegalStateException", "java/lang/Object", "java/lang/RuntimeException"], Some("ClassG.java"), false,
      vec![],
      vec![
        mth("<init>", "()V", None, 0x0001, 0,
          vec![42, 183, 0, 1, 177],
          &[(0, 4)],
          vec![blk(0, 5, vec![oth(0, 42), inv(1, 183, "java/lang/Object", "<init>", "()V"), oth(4, 177)])],
          &[],
          vec![],
          vec![]),
        mth("methodSeven", "()V", None, 0x0001, 0,
          vec![187, 0, 7, 89, 18, 9, 183, 0, 11, 76, 42, 182, 0, 14, 167, 0, 6, 77, 43, 191, 177],
          &[(0, 6), (10, 8), (14, 11), (17, 9), (18, 10), (20, 12)],
          vec![blk(0, 10, vec![oth(0, 187), oth(3, 89), cstr(4, 18, "failed"), inv(6, 183, "java/lang/RuntimeException", "<init>", "(Ljava/lang/String;)V"), oth(9, 76)]), blk(10, 14, vec![oth(10, 42), inv(11, 182, "com/example/ClassG", "MethodX", "()V")]), blk(14, 17, vec![oth(14, 167)]), blk(17, 20, vec![oth(17, 77), oth(18, 43), oth(19, 191)]), blk(20, 21, vec![oth(20, 177)])],
          &[(0, 10, EdgeKind::FallThrough), (10, 14, EdgeKind::FallThrough), (10, 17, EdgeKind::Exception), (14, 20, EdgeKind::Branch)],
          vec![hnd(10, 14, 17, Some("java/lang/Exception"))],
          vec![]),
        mth("MethodX", "()V", None, 0x0002, 0,
          vec![187, 0, 21, 89, 18, 23, 183, 0, 25, 191],
          &[(0, 15)],
          vec![blk(0, 10, vec![oth(0, 187), oth(3, 89), cstr(4, 18, "boom"), inv(6, 183, "java/lang/IllegalStateException", "<init>", "(Ljava/lang/String;)V"), oth(9, 191)])],
          &[],
          vec![],
          vec![])
      ])
    ]
}

