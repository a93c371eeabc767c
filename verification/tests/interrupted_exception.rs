use inspequte::ir::{
    BasicBlock, CallKind, CallSite, Class, ControlFlowGraph, EdgeKind, ExceptionHandler, Field,
    FieldAccess, FieldRef, FlowEdge, Instruction, InstructionKind, LineNumber, LocalVariableType,
    Method, MethodAccess, MethodNullness,
};
use inspequte::engine::{Engine, build_context};


fn analyze_sources(classes: Vec<Class>) -> Vec<String> {
    let context = build_context(classes, &[]);
    let output = Engine::new().analyze(context).expect("run analysis");
    output
        .results
        .iter()
        .filter(|result| result.rule_id.as_deref() == Some("INTERRUPTED_EXCEPTION_NOT_RESTORED"))
        .map(|result| result.message.clone())
        .collect()
}


fn cls(
    name: &str,
    super_name: Option<&str>,
    interfaces: &[&str],
    referenced: &[&str],
    source_file: Option<&str>,
    is_record: bool,
    fields: Vec<Field>,
    methods: Vec<Method>,
) -> Class {
    Class {
        name: name.to_string(),
        source_file: source_file.map(|s| s.to_string()),
        super_name: super_name.map(|s| s.to_string()),
        interfaces: interfaces.iter().map(|s| s.to_string()).collect(),
        referenced_classes: referenced.iter().map(|s| s.to_string()).collect(),
        fields,
        methods,
        artifact_index: 0,
        is_record,
    }
}

fn fldd(name: &str, descriptor: &str, signature: Option<&str>, flags: u16) -> Field {
    Field {
        name: name.to_string(),
        descriptor: descriptor.to_string(),
        signature: signature.map(|s| s.to_string()),
        access: FieldAccess {
            is_static: flags & 0x0008 != 0,
            is_private: flags & 0x0002 != 0,
            is_final: flags & 0x0010 != 0,
        },
    }
}

#[allow(clippy::too_many_arguments)]
fn mth(
    name: &str,
    descriptor: &str,
    signature: Option<&str>,
    flags: u16,
    param_count: usize,
    bytecode: Vec<u8>,
    lines: &[(u32, u32)],
    blocks: Vec<BasicBlock>,
    edges: &[(u32, u32, EdgeKind)],
    exception_handlers: Vec<ExceptionHandler>,
    local_variable_types: Vec<LocalVariableType>,
) -> Method {
    let mut instructions: Vec<&Instruction> = blocks.iter().flat_map(|b| b.instructions.iter()).collect();
    instructions.sort_by_key(|i| i.offset);
    let mut calls = Vec::new();
    let mut string_literals = Vec::new();
    for instruction in instructions {
        match &instruction.kind {
            InstructionKind::Invoke(call) => calls.push(call.clone()),
            InstructionKind::ConstString(value) => string_literals.push(value.clone()),
            _ => {}
        }
    }
    Method {
        name: name.to_string(),
        descriptor: descriptor.to_string(),
        signature: signature.map(|s| s.to_string()),
        access: MethodAccess {
            is_public: flags & 0x0001 != 0,
            is_static: flags & 0x0008 != 0,
            is_abstract: flags & 0x0400 != 0,
            is_synchronized: flags & 0x0020 != 0,
            is_bridge: flags & 0x0040 != 0,
            is_synthetic: flags & 0x1000 != 0,
        },
        nullness: MethodNullness::unknown(param_count),
        bytecode,
        line_numbers: lines
            .iter()
            .map(|(start_pc, line)| LineNumber { start_pc: *start_pc, line: *line })
            .collect(),
        cfg: ControlFlowGraph {
            blocks,
            edges: edges
                .iter()
                .map(|(from, to, kind)| FlowEdge { from: *from, to: *to, kind: *kind })
                .collect(),
        },
        calls,
        string_literals,
        exception_handlers,
        local_variable_types,
    }
}

fn blk(start_offset: u32, end_offset: u32, instructions: Vec<Instruction>) -> BasicBlock {
    BasicBlock { start_offset, end_offset, instructions }
}

fn hnd(start_pc: u32, end_pc: u32, handler_pc: u32, catch_type: Option<&str>) -> ExceptionHandler {
    ExceptionHandler { start_pc, end_pc, handler_pc, catch_type: catch_type.map(|s| s.to_string()) }
}

fn lvt(name: &str, signature: &str, index: u16, start_pc: u32, length: u32) -> LocalVariableType {
    LocalVariableType { name: name.to_string(), signature: signature.to_string(), index, start_pc, length }
}

fn inv(offset: u32, opcode: u8, owner: &str, name: &str, descriptor: &str) -> Instruction {
    let kind = match opcode {
        0xb6 => CallKind::Virtual,
        0xb7 => CallKind::Special,
        0xb8 => CallKind::Static,
        _ => CallKind::Interface,
    };
    Instruction {
        offset,
        opcode,
        kind: InstructionKind::Invoke(CallSite {
            owner: owner.to_string(),
            name: name.to_string(),
            descriptor: descriptor.to_string(),
            kind,
            offset,
        }),
    }
}

fn indy(offset: u32, descriptor: &str, impl_method: Option<&str>) -> Instruction {
    Instruction {
        offset,
        opcode: 0xba,
        kind: InstructionKind::InvokeDynamic {
            descriptor: descriptor.to_string(),
            impl_method: impl_method.map(|s| s.to_string()),
        },
    }
}

fn cstr(offset: u32, opcode: u8, value: &str) -> Instruction {
    Instruction { offset, opcode, kind: InstructionKind::ConstString(value.to_string()) }
}

fn ccls(offset: u32, opcode: u8, value: &str) -> Instruction {
    Instruction { offset, opcode, kind: InstructionKind::ConstClass(value.to_string()) }
}

fn cint(offset: u32, opcode: u8, value: i64) -> Instruction {
    Instruction { offset, opcode, kind: InstructionKind::ConstInt(value) }
}

fn fld(offset: u32, opcode: u8, owner: &str, name: &str, descriptor: &str) -> Instruction {
    Instruction {
        offset,
        opcode,
        kind: InstructionKind::FieldAccess(FieldRef {
            owner: owner.to_string(),
            name: name.to_string(),
            descriptor: descriptor.to_string(),
        }),
    }
}

fn oth(offset: u32, opcode: u8) -> Instruction {
    Instruction { offset, opcode, kind: InstructionKind::Other(opcode) }
}

#[test]
fn mod_interrupted_exception_reports_missing_restore() {
    let sources = ir_mod_interrupted_exception_reports_missing_restore();
    let messages = analyze_sources(sources);
    assert!(messages.iter().any(|msg| msg.contains("interrupt status")));
}
#[test]
fn mod_interrupted_exception_allows_restore() {
    let sources = ir_mod_interrupted_exception_allows_restore();
    let messages = analyze_sources(sources);
    assert!(messages.is_empty());
}
#[test]
fn mod_interrupted_exception_allows_rethrow() {
    let sources = ir_mod_interrupted_exception_allows_rethrow();
    let messages = analyze_sources(sources);
    assert!(messages.is_empty());
}
#[test]
fn mod_interrupted_exception_allows_throw_declaration() {
    let sources = ir_mod_interrupted_exception_allows_throw_declaration();
    let messages = analyze_sources(sources);
    assert!(messages.is_empty());
}
#[test]
fn mod_interrupted_exception_reports_multi_catch() {
    let sources = ir_mod_interrupted_exception_reports_multi_catch();
    let messages = analyze_sources(sources);
    assert!(messages.iter().any(|msg| msg.contains("interrupt status")));
}
#[test]
fn mod_interrupted_exception_reports_throwable_catch() {
    let sources = ir_mod_interrupted_exception_reports_throwable_catch();
    let messages = analyze_sources(sources);
    assert!(messages.iter().any(|msg| msg.contains("interrupt status")));
}
#[test]
fn mod_interrupted_exception_reports_exception_catch() {
    let sources = ir_mod_interrupted_exception_reports_exception_catch();
    let messages = analyze_sources(sources);
    assert!(messages.iter().any(|msg| msg.contains("interrupt status")));
}
#[test]
fn mod_interrupted_exception_allows_logging_and_restore() {
    let sources = ir_mod_interrupted_exception_allows_logging_and_restore();
    let messages = analyze_sources(sources);
    assert!(messages.is_empty());
}
#[test]
fn mod_interrupted_exception_allows_conditional_restore() {
    let sources = ir_mod_interrupted_exception_allows_conditional_restore();
    let messages = analyze_sources(sources);
    assert!(messages.is_empty());
}
#[test]
fn mod_interrupted_exception_allows_finally_restore() {
    let sources = ir_mod_interrupted_exception_allows_finally_restore();
    let messages = analyze_sources(sources);
    assert!(messages.is_empty());
}
fn ir_mod_interrupted_exception_reports_missing_restore() -> Vec<Class> {
    vec![
    cls("com/example/ClassAlpha", Some("java/lang/Object"), &[], &["java/io/PrintStream", "java/lang/InterruptedException", "java/lang/Object", "java/lang/System", "java/lang/Thread"], Some("ClassAlpha.java"), false,
      vec![],
      vec![
        mth("<init>", "()V", None, 0x0001, 0,
          vec![42, 183, 0, 1, 177],
          &[(0, 4)],
          vec![blk(0, 5, vec![oth(0, 42), inv(1, 183, "java/lang/Object", "<init>", "()V"), oth(4, 177)])],
          &[],
          vec![],
          vec![]),
        mth("methodOne", "()V", None, 0x0001, 0,
          vec![20, 0, 7, 184, 0, 9, 167, 0, 12, 76, 178, 0, 17, 18, 23, 182, 0, 25, 177],
          &[(0, 7), (6, 10), (9, 8), (10, 9), (18, 11)],
          vec![blk(0, 6, vec![cint(0, 20, 10), inv(3, 184, "java/lang/Thread", "sleep", "(J)V")]), blk(6, 9, vec![oth(6, 167)]), blk(9, 18, vec![oth(9, 76), fld(10, 178, "java/lang/System", "out", "Ljava/io/PrintStream;"), cstr(13, 18, "Interrupted"), inv(15, 182, "java/io/PrintStream", "println", "(Ljava/lang/String;)V")]), blk(18, 19, vec![oth(18, 177)])],
          &[(0, 6, EdgeKind::FallThrough), (0, 9, EdgeKind::Exception), (6, 18, EdgeKind::Branch), (9, 18, EdgeKind::FallThrough)],
          vec![hnd(0, 6, 9, Some("java/lang/InterruptedException"))],
          vec![])
      ])
    ]
}

fn ir_mod_interrupted_exception_allows_restore() -> Vec<Class> {
    vec![
    cls("com/example/ClassBeta", Some("java/lang/Object"), &[], &["java/lang/InterruptedException", "java/lang/Object", "java/lang/Thread"], Some("ClassBeta.java"), false,
      vec![],
      vec![
        mth("<init>", "()V", None, 0x0001, 0,
          vec![42, 183, 0, 1, 177],
          &[(0, 4)],
          vec![blk(0, 5, vec![oth(0, 42), inv(1, 183, "java/lang/Object", "<init>", "()V"), oth(4, 177)])],
          &[],
          vec![],
          vec![]),
        mth("methodTwo", "()V", None, 0x0001, 0,
          vec![20, 0, 7, 184, 0, 9, 167, 0, 10, 76, 184, 0, 17, 182, 0, 21, 177],
          &[(0, 7), (6, 10), (9, 8), (10, 9), (16, 11)],
          vec![blk(0, 6, vec![cint(0, 20, 10), inv(3, 184, "java/lang/Thread", "sleep", "(J)V")]), blk(6, 9, vec![oth(6, 167)]), blk(9, 16, vec![oth(9, 76), inv(10, 184, "java/lang/Thread", "currentThread", "()Ljava/lang/Thread;"), inv(13, 182, "java/lang/Thread", "interrupt", "()V")]), blk(16, 17, vec![oth(16, 177)])],
          &[(0, 6, EdgeKind::FallThrough), (0, 9, EdgeKind::Exception), (6, 16, EdgeKind::Branch), (9, 16, EdgeKind::FallThrough)],
          vec![hnd(0, 6, 9, Some("java/lang/InterruptedException"))],
          vec![])
      ])
    ]
}

fn ir_mod_interrupted_exception_allows_rethrow() -> Vec<Class> {
    vec![
    cls("com/example/ClassGamma", Some("java/lang/Object"), &[], &["java/lang/InterruptedException", "java/lang/Object", "java/lang/RuntimeException", "java/lang/Thread"], Some("ClassGamma.java"), false,
      vec![],
      vec![
        mth("<init>", "()V", None, 0x0001, 0,
          vec![42, 183, 0, 1, 177],
          &[(0, 4)],
          vec![blk(0, 5, vec![oth(0, 42), inv(1, 183, "java/lang/Object", "<init>", "()V"), oth(4, 177)])],
          &[],
          vec![],
          vec![]),
        mth("methodThree", "()V", None, 0x0001, 0,
          vec![20, 0, 7, 184, 0, 9, 167, 0, 13, 76, 187, 0, 17, 89, 43, 183, 0, 19, 191, 177],
          &[(0, 7), (6, 10), (9, 8), (10, 9), (19, 11)],
          vec![blk(0, 6, vec![cint(0, 20, 10), inv(3, 184, "java/lang/Thread", "sleep", "(J)V")]), blk(6, 9, vec![oth(6, 167)]), blk(9, 19, vec![oth(9, 76), oth(10, 187), oth(13, 89), oth(14, 43), inv(15, 183, "java/lang/RuntimeException", "<init>", "(Ljava/lang/Throwable;)V"), oth(18, 191)]), blk(19, 20, vec![oth(19, 177)])],
          &[(0, 6, EdgeKind::FallThrough), (0, 9, EdgeKind::Exception), (6, 19, EdgeKind::Branch)],
          vec![hnd(0, 6, 9, Some("java/lang/InterruptedException"))],
          vec![])
      ])
    ]
}

fn ir_mod_interrupted_exception_allows_throw_declaration() -> Vec<Class> {
    vec![
    cls("com/example/ClassEta", Some("java/lang/Object"), &[], &["java/lang/InterruptedException", "java/lang/Object", "java/lang/Thread"], Some("ClassEta.java"), false,
      vec![],
      vec![
        mth("<init>", "()V", None, 0x0001, 0,
          vec![42, 183, 0, 1, 177],
          &[(0, 4)],
          vec![blk(0, 5, vec![oth(0, 42), inv(1, 183, "java/lang/Object", "<init>", "()V"), oth(4, 177)])],
          &[],
          vec![],
          vec![]),
        mth("methodThree", "()V", None, 0x0001, 0,
          vec![20, 0, 7, 184, 0, 9, 177],
          &[(0, 6), (6, 7)],
          vec![blk(0, 7, vec![cint(0, 20, 10), inv(3, 184, "java/lang/Thread", "sleep", "(J)V"), oth(6, 177)])],
          &[],
          vec![],
          vec![])
      ])
    ]
}

fn ir_mod_interrupted_exception_reports_multi_catch() -> Vec<Class> {
    vec![
    cls("com/example/ClassDelta", Some("java/lang/Object"), &[], &["java/io/PrintStream", "java/lang/Exception", "java/lang/IllegalArgumentException", "java/lang/InterruptedException", "java/lang/Object", "java/lang/System", "java/lang/Thread"], Some("ClassDelta.java"), false,
      vec![],
      vec![
        mth("<init>", "()V", None, 0x0001, 0,
          vec![42, 183, 0, 1, 177],
          &[(0, 4)],
          vec![blk(0, 5, vec![oth(0, 42), inv(1, 183, "java/lang/Object", "<init>", "()V"), oth(4, 177)])],
          &[],
          vec![],
          vec![]),
        mth("methodFour", "()V", None, 0x0001, 0,
          vec![20, 0, 7, 184, 0, 9, 167, 0, 11, 76, 178, 0, 19, 43, 182, 0, 25, 177],
          &[(0, 7), (6, 10), (9, 8), (10, 9), (17, 11)],
          vec![blk(0, 6, vec![cint(0, 20, 10), inv(3, 184, "java/lang/Thread", "sleep", "(J)V")]), blk(6, 9, vec![oth(6, 167)]), blk(9, 17, vec![oth(9, 76), fld(10, 178, "java/lang/System", "out", "Ljava/io/PrintStream;"), oth(13, 43), inv(14, 182, "java/io/PrintStream", "println", "(Ljava/lang/Object;)V")]), blk(17, 18, vec![oth(17, 177)])],
          &[(0, 6, EdgeKind::FallThrough), (0, 9, EdgeKind::Exception), (6, 17, EdgeKind::Branch), (9, 17, EdgeKind::FallThrough)],
          vec![hnd(0, 6, 9, Some("java/lang/InterruptedException")), hnd(0, 6, 9, Some("java/lang/IllegalArgumentException"))],
          vec![])
      ])
    ]
}

fn ir_mod_interrupted_exception_reports_throwable_catch() -> Vec<Class> {
    vec![
    cls("com/example/ClassTheta", Some("java/lang/Object"), &[], &["java/io/PrintStream", "java/lang/Object", "java/lang/System", "java/lang/Thread", "java/lang/Throwable"], Some("ClassTheta.java"), false,
      vec![],
      vec![
        mth("<init>", "()V", None, 0x0001, 0,
          vec![42, 183, 0, 1, 177],
          &[(0, 4)],
          vec![blk(0, 5, vec![oth(0, 42), inv(1, 183, "java/lang/Object", "<init>", "()V"), oth(4, 177)])],
          &[],
          vec![],
          vec![]),
        mth("methodFive", "()V", None, 0x0001, 0,
          vec![20, 0, 7, 184, 0, 9, 167, 0, 11, 76, 178, 0, 17, 43, 182, 0, 23, 177],
          &[(0, 7), (6, 10), (9, 8), (10, 9), (17, 11)],
          vec![blk(0, 6, vec![cint(0, 20, 10), inv(3, 184, "java/lang/Thread", "sleep", "(J)V")]), blk(6, 9, vec![oth(6, 167)]), blk(9, 17, vec![oth(9, 76), fld(10, 178, "java/lang/System", "out", "Ljava/io/PrintStream;"), oth(13, 43), inv(14, 182, "java/io/PrintStream", "println", "(Ljava/lang/Object;)V")]), blk(17, 18, vec![oth(17, 177)])],
          &[(0, 6, EdgeKind::FallThrough), (0, 9, EdgeKind::Exception), (6, 17, EdgeKind::Branch), (9, 17, EdgeKind::FallThrough)],
          vec![hnd(0, 6, 9, Some("java/lang/Throwable"))],
          vec![])
      ])
    ]
}

fn ir_mod_interrupted_exception_reports_exception_catch() -> Vec<Class> {
    vec![
    cls("com/example/ClassEpsilon", Some("java/lang/Object"), &[], &["java/io/PrintStream", "java/lang/Exception", "java/lang/Object", "java/lang/System", "java/lang/Thread"], Some("ClassEpsilon.java"), false,
      vec![],
      vec![
        mth("<init>", "()V", None, 0x0001, 0,
          vec![42, 183, 0, 1, 177],
          &[(0, 4)],
          vec![blk(0, 5, vec![oth(0, 42), inv(1, 183, "java/lang/Object", "<init>", "()V"), oth(4, 177)])],
          &[],
          vec![],
          vec![]),
        mth("methodFive", "()V", None, 0x0001, 0,
          vec![20, 0, 7, 184, 0, 9, 167, 0, 11, 76, 178, 0, 17, 43, 182, 0, 23, 177],
          &[(0, 7), (6, 10), (9, 8), (10, 9), (17, 11)],
          vec![blk(0, 6, vec![cint(0, 20, 10), inv(3, 184, "java/lang/Thread", "sleep", "(J)V")]), blk(6, 9, vec![oth(6, 167)]), blk(9, 17, vec![oth(9, 76), fld(10, 178, "java/lang/System", "out", "Ljava/io/PrintStream;"), oth(13, 43), inv(14, 182, "java/io/PrintStream", "println", "(Ljava/lang/Object;)V")]), blk(17, 18, vec![oth(17, 177)])],
          &[(0, 6, EdgeKind::FallThrough), (0, 9, EdgeKind::Exception), (6, 17, EdgeKind::Branch), (9, 17, EdgeKind::FallThrough)],
          vec![hnd(0, 6, 9, Some("java/lang/Exception"))],
          vec![])
      ])
    ]
}

fn ir_mod_interrupted_exception_allows_logging_and_restore() -> Vec<Class> {
    vec![
    cls("com/example/ClassIota", Some("java/lang/Object"), &[], &["java/io/PrintStream", "java/lang/InterruptedException", "java/lang/Object", "java/lang/System", "java/lang/Thread"], Some("ClassIota.java"), false,
      vec![],
      vec![
        mth("<init>", "()V", None, 0x0001, 0,
          vec![42, 183, 0, 1, 177],
          &[(0, 4)],
          vec![blk(0, 5, vec![oth(0, 42), inv(1, 183, "java/lang/Object", "<init>", "()V"), oth(4, 177)])],
          &[],
          vec![],
          vec![]),
        mth("methodSix", "()V", None, 0x0001, 0,
          vec![20, 0, 7, 184, 0, 9, 167, 0, 17, 76, 178, 0, 17, 43, 182, 0, 23, 184, 0, 29, 182, 0, 33, 177],
          &[(0, 7), (6, 11), (9, 8), (10, 9), (17, 10), (23, 12)],
          vec![blk(0, 6, vec![cint(0, 20, 10), inv(3, 184, "java/lang/Thread", "sleep", "(J)V")]), blk(6, 9, vec![oth(6, 167)]), blk(9, 23, vec![oth(9, 76), fld(10, 178, "java/lang/System", "out", "Ljava/io/PrintStream;"), oth(13, 43), inv(14, 182, "java/io/PrintStream", "println", "(Ljava/lang/Object;)V"), inv(17, 184, "java/lang/Thread", "currentThread", "()Ljava/lang/Thread;"), inv(20, 182, "java/lang/Thread", "interrupt", "()V")]), blk(23, 24, vec![oth(23, 177)])],
          &[(0, 6, EdgeKind::FallThrough), (0, 9, EdgeKind::Exception), (6, 23, EdgeKind::Branch), (9, 23, EdgeKind::FallThrough)],
          vec![hnd(0, 6, 9, Some("java/lang/InterruptedException"))],
          vec![])
      ])
    ]
}

fn ir_mod_interrupted_exception_allows_conditional_restore() -> Vec<Class> {
    vec![
    cls("com/example/ClassKappa", Some("java/lang/Object"), &[], &["java/lang/InterruptedException", "java/lang/Object", "java/lang/Thread"], Some("ClassKappa.java"), false,
      vec![],
      vec![
        mth("<init>", "()V", None, 0x0001, 0,
          vec![42, 183, 0, 1, 177],
          &[(0, 4)],
          vec![blk(0, 5, vec![oth(0, 42), inv(1, 183, "java/lang/Object", "<init>", "()V"), oth(4, 177)])],
          &[],
          vec![],
          vec![]),
        mth("methodSeven", "(Z)V", None, 0x0001, 1,
          vec![20, 0, 7, 184, 0, 9, 167, 0, 14, 77, 27, 153, 0, 9, 184, 0, 17, 182, 0, 21, 177],
          &[(0, 7), (6, 12), (9, 8), (10, 9), (14, 10), (20, 13)],
          vec![blk(0, 6, vec![cint(0, 20, 10), inv(3, 184, "java/lang/Thread", "sleep", "(J)V")]), blk(6, 9, vec![oth(6, 167)]), blk(9, 14, vec![oth(9, 77), oth(10, 27), oth(11, 153)]), blk(14, 20, vec![inv(14, 184, "java/lang/Thread", "currentThread", "()Ljava/lang/Thread;"), inv(17, 182, "java/lang/Thread", "interrupt", "()V")]), blk(20, 21, vec![oth(20, 177)])],
          &[(0, 6, EdgeKind::FallThrough), (0, 9, EdgeKind::Exception), (6, 20, EdgeKind::Branch), (9, 20, EdgeKind::Branch), (9, 14, EdgeKind::FallThrough), (14, 20, EdgeKind::FallThrough)],
          vec![hnd(0, 6, 9, Some("java/lang/InterruptedException"))],
          vec![])
      ])
    ]
}

fn ir_mod_interrupted_exception_allows_finally_restore() -> Vec<Class> {
    vec![
    cls("com/example/ClassZeta", Some("java/lang/Object"), &[], &["java/lang/InterruptedException", "java/lang/Object", "java/lang/Thread", "java/lang/Throwable"], Some("ClassZeta.java"), false,
      vec![],
      vec![
        mth("<init>", "()V", None, 0x0001, 0,
          vec![42, 183, 0, 1, 177],
          &[(0, 4)],
          vec![blk(0, 5, vec![oth(0, 42), inv(1, 183, "java/lang/Object", "<init>", "()V"), oth(4, 177)])],
          &[],
          vec![],
          vec![]),
        mth("methodSix", "()V", None, 0x0001, 0,
          vec![3, 60, 20, 0, 7, 184, 0, 9, 27, 153, 0, 41, 184, 0, 15, 182, 0, 19, 167, 0, 32, 77, 4, 60, 27, 153, 0, 25, 184, 0, 15, 182, 0, 19, 167, 0, 16, 78, 27, 153, 0, 9, 184, 0, 15, 182, 0, 19, 45, 191, 177],
          &[(0, 6), (2, 8), (8, 12), (12, 13), (21, 9), (22, 10), (24, 12), (28, 13), (37, 12), (42, 13), (48, 15), (50, 16)],
          vec![blk(0, 2, vec![cint(0, 3, 0), oth(1, 60)]), blk(2, 8, vec![cint(2, 20, 10), inv(5, 184, "java/lang/Thread", "sleep", "(J)V")]), blk(8, 12, vec![oth(8, 27), oth(9, 153)]), blk(12, 21, vec![inv(12, 184, "java/lang/Thread", "currentThread", "()Ljava/lang/Thread;"), inv(15, 182, "java/lang/Thread", "interrupt", "()V"), oth(18, 167)]), blk(21, 24, vec![oth(21, 77), cint(22, 4, 1), oth(23, 60)]), blk(24, 28, vec![oth(24, 27), oth(25, 153)]), blk(28, 37, vec![inv(28, 184, "java/lang/Thread", "currentThread", "()Ljava/lang/Thread;"), inv(31, 182, "java/lang/Thread", "interrupt", "()V"), oth(34, 167)]), blk(37, 42, vec![oth(37, 78), oth(38, 27), oth(39, 153)]), blk(42, 48, vec![inv(42, 184, "java/lang/Thread", "currentThread", "()Ljava/lang/Thread;"), inv(45, 182, "java/lang/Thread", "interrupt", "()V")]), blk(48, 50, vec![oth(48, 45), oth(49, 191)]), blk(50, 51, vec![oth(50, 177)])],
          &[(0, 2, EdgeKind::FallThrough), (2, 8, EdgeKind::FallThrough), (2, 21, EdgeKind::Exception), (2, 37, EdgeKind::Exception), (8, 50, EdgeKind::Branch), (8, 12, EdgeKind::FallThrough), (12, 50, EdgeKind::Branch), (21, 24, EdgeKind::FallThrough), (21, 37, EdgeKind::Exception), (24, 50, EdgeKind::Branch), (24, 28, EdgeKind::FallThrough), (28, 50, EdgeKind::Branch), (37, 48, EdgeKind::Branch), (37, 42, EdgeKind::FallThrough), (42, 48, EdgeKind::FallThrough)],
          vec![hnd(2, 8, 21, Some("java/lang/InterruptedException")), hnd(2, 8, 37, None), hnd(21, 24, 37, None)],
          vec![])
      ])
    ]
}

