use inspequte::ir::{
    BasicBlock, CallKind, CallSite, Class, ControlFlowGraph, EdgeKind, ExceptionHandler, Field,
    FieldAccess, FieldRef, FlowEdge, Instruction, InstructionKind, LineNumber, LocalVariableType,
    Method, MethodAccess, MethodNullness,
};
use inspequte::engine::{Engine, build_context};
use inspequte::rules::autocloseable_not_closed::is_autocloseable_type;


fn analyze_java_sources(classes: Vec<Class>) -> Vec<String> {
    let context = build_context(classes, &[]);
    let output = Engine::new().analyze(context).expect("run analysis");
    output
        .results
        .iter()
        .filter(|result| result.rule_id.as_deref() == Some("AUTOCLOSEABLE_NOT_CLOSED"))
        .map(|result| result.message.clone())
        .collect()
}


fn cls(
    name: &str,
    super_name: Option<&str>,
    interfaces: &[&str],
    referenced: &[&str],
    source_file: Option<&str>,
    is_record: bool,
    fields: Vec<Field>,
    methods: Vec<Method>,
) -> Class {
    Class {
        name: name.to_string(),
        source_file: source_file.map(|s| s.to_string()),
        super_name: super_name.map(|s| s.to_string()),
        interfaces: interfaces.iter().map(|s| s.to_string()).collect(),
        referenced_classes: referenced.iter().map(|s| s.to_string()).collect(),
        fields,
        methods,
        artifact_index: 0,
        is_record,
    }
}

fn fldd(name: &str, descriptor: &str, signature: Option<&str>, flags: u16) -> Field {
    Field {
        name: name.to_string(),
        descriptor: descriptor.to_string(),
        signature: signature.map(|s| s.to_string()),
        access: FieldAccess {
            is_static: flags & 0x0008 != 0,
            is_private: flags & 0x0002 != 0,
            is_final: flags & 0x0010 != 0,
        },
    }
}

#[allow(clippy::too_many_arguments)]
fn mth(
    name: &str,
    descriptor: &str,
    signature: Option<&str>,
    flags: u16,
    param_count: usize,
    bytecode: Vec<u8>,
    lines: &[(u32, u32)],
    blocks: Vec<BasicBlock>,
    edges: &[(u32, u32, EdgeKind)],
    exception_handlers: Vec<ExceptionHandler>,
    local_variable_types: Vec<LocalVariableType>,
) -> Method {
    let mut instructions: Vec<&Instruction> = blocks.iter().flat_map(|b| b.instructions.iter()).collect();
    instructions.sort_by_key(|i| i.offset);
    let mut calls = Vec::new();
    let mut string_literals = Vec::new();
    for instruction in instructions {
        match &instruction.kind {
            InstructionKind::Invoke(call) => calls.push(call.clone()),
            InstructionKind::ConstString(value) => string_literals.push(value.clone()),
            _ => {}
        }
    }
    Method {
        name: name.to_string(),
        descriptor: descriptor.to_string(),
        signature: signature.map(|s| s.to_string()),
        access: MethodAccess {
            is_public: flags & 0x0001 != 0,
            is_static: flags & 0x0008 != 0,
            is_abstract: flags & 0x0400 != 0,
            is_synchronized: flags & 0x0020 != 0,
            is_bridge: flags & 0x0040 != 0,
            is_synthetic: flags & 0x1000 != 0,
        },
        nullness: MethodNullness::unknown(param_count),
        bytecode,
        line_numbers: lines
            .iter()
            .map(|(start_pc, line)| LineNumber { start_pc: *start_pc, line: *line })
            .collect(),
        cfg: ControlFlowGraph {
            blocks,
            edges: edges
                .iter()
                .map(|(from, to, kind)| FlowEdge { from: *from, to: *to, kind: *kind })
                .collect(),
        },
        calls,
        string_literals,
        exception_handlers,
        local_variable_types,
    }
}

fn blk(start_offset: u32, end_offset: u32, instructions: Vec<Instruction>) -> BasicBlock {
    BasicBlock { start_offset, end_offset, instructions }
}

fn hnd(start_pc: u32, end_pc: u32, handler_pc: u32, catch_type: Option<&str>) -> ExceptionHandler {
    ExceptionHandler { start_pc, end_pc, handler_pc, catch_type: catch_type.map(|s| s.to_string()) }
}

fn lvt(name: &str, signature: &str, index: u16, start_pc: u32, length: u32) -> LocalVariableType {
    LocalVariableType { name: name.to_string(), signature: signature.to_string(), index, start_pc, length }
}

fn inv(offset: u32, opcode: u8, owner: &str, name: &str, descriptor: &str) -> Instruction {
    let kind = match opcode {
        0xb6 => CallKind::Virtual,
        0xb7 => CallKind::Special,
        0xb8 => CallKind::Static,
        _ => CallKind::Interface,
    };
    Instruction {
        offset,
        opcode,
        kind: InstructionKind::Invoke(CallSite {
            owner: owner.to_string(),
            name: name.to_string(),
            descriptor: descriptor.to_string(),
            kind,
            offset,
        }),
    }
}

fn indy(offset: u32, descriptor: &str, impl_method: Option<&str>) -> Instruction {
    Instruction {
        offset,
        opcode: 0xba,
        kind: InstructionKind::InvokeDynamic {
            descriptor: descriptor.to_string(),
            impl_method: impl_method.map(|s| s.to_string()),
        },
    }
}

fn cstr(offset: u32, opcode: u8, value: &str) -> Instruction {
    Instruction { offset, opcode, kind: InstructionKind::ConstString(value.to_string()) }
}

fn ccls(offset: u32, opcode: u8, value: &str) -> Instruction {
    Instruction { offset, opcode, kind: InstructionKind::ConstClass(value.to_string()) }
}

fn cint(offset: u32, opcode: u8, value: i64) -> Instruction {
    Instruction { offset, opcode, kind: InstructionKind::ConstInt(value) }
}

fn fld(offset: u32, opcode: u8, owner: &str, name: &str, descriptor: &str) -> Instruction {
    Instruction {
        offset,
        opcode,
        kind: InstructionKind::FieldAccess(FieldRef {
            owner: owner.to_string(),
            name: name.to_string(),
            descriptor: descriptor.to_string(),
        }),
    }
}

fn oth(offset: u32, opcode: u8) -> Instruction {
    Instruction { offset, opcode, kind: InstructionKind::Other(opcode) }
}

#[test]
fn reports_unclosed_autocloseable() {
    let sources = ir_reports_unclosed_autocloseable();

    let messages = analyze_java_sources(sources);
    assert_eq!(messages.len(), 1);
    assert!(messages[0].contains("may not be closed on all paths"));
    assert!(messages[0].contains("use try-with-resources"));
}
#[test]
fn does_not_report_try_with_resources() {
    let sources = ir_does_not_report_try_with_resources();

    let messages = analyze_java_sources(sources);
    assert!(messages.is_empty(), "did not expect finding: {messages:?}");
}
#[test]
fn does_not_report_finally_close() {
    let sources = ir_does_not_report_finally_close();

    let messages = analyze_java_sources(sources);
    assert!(messages.is_empty(), "did not expect finding: {messages:?}");
}
#[test]
fn does_not_report_escape_via_field() {
    let sources = ir_does_not_report_escape_via_field();

    let messages = analyze_java_sources(sources);
    assert!(messages.is_empty(), "did not expect finding: {messages:?}");
}
#[test]
fn does_not_report_escape_via_return() {
    let sources = ir_does_not_report_escape_via_return();

    let messages = analyze_java_sources(sources);
    assert!(messages.is_empty(), "did not expect finding: {messages:?}");
}
#[test]
fn does_not_report_escape_via_argument() {
    let sources = ir_does_not_report_escape_via_argument();

    let messages = analyze_java_sources(sources);
    assert!(messages.is_empty(), "did not expect finding: {messages:?}");
}
#[test]
fn does_not_report_escape_via_array() {
    let sources = ir_does_not_report_escape_via_array();

    let messages = analyze_java_sources(sources);
    assert!(messages.is_empty(), "did not expect finding: {messages:?}");
}
#[test]
fn does_not_report_wrapper_pattern() {
    let sources = ir_does_not_report_wrapper_pattern();

    let messages = analyze_java_sources(sources);
    assert!(messages.is_empty(), "did not expect finding: {messages:?}");
}
#[test]
fn does_not_report_excluded_noop_types() {
    let sources = ir_does_not_report_excluded_noop_types();

    let messages = analyze_java_sources(sources);
    assert!(messages.is_empty(), "did not expect finding: {messages:?}");
}
#[test]
fn reports_early_return_before_close() {
    let sources = ir_reports_early_return_before_close();

    let messages = analyze_java_sources(sources);
    assert_eq!(messages.len(), 1);
}
#[test]
fn reports_partial_close_for_multiple_resources() {
    let sources = ir_reports_partial_close_for_multiple_resources();

    let messages = analyze_java_sources(sources);
    assert_eq!(
        messages.len(),
        1,
        "expected exactly one finding for varTwo: {messages:?}"
    );
}
#[test]
fn reports_factory_method_returning_autocloseable() {
    let sources = ir_reports_factory_method_returning_autocloseable();

    let messages = analyze_java_sources(sources);
    assert_eq!(messages.len(), 1);
    assert!(messages[0].contains("may not be closed on all paths"));
}
#[test]
fn does_not_report_non_autocloseable() {
    let sources = ir_does_not_report_non_autocloseable();

    let messages = analyze_java_sources(sources);
    assert!(messages.is_empty(), "did not expect finding: {messages:?}");
}
#[test]
fn reports_app_defined_autocloseable_subclass() {
    let sources = ir_reports_app_defined_autocloseable_subclass();

    let messages = analyze_java_sources(sources);
    assert_eq!(messages.len(), 1);
    assert!(messages[0].contains("may not be closed on all paths"));
}
#[test]
fn reports_inner_resource_wrapped_by_excluded_noop_type() {
    let sources = ir_reports_inner_resource_wrapped_by_excluded_noop_type();

    let messages = analyze_java_sources(sources);
    assert_eq!(
        messages.len(),
        1,
        "inner resource should be reported when wrapped by excluded no-op type: {messages:?}"
    );
}
#[test]
fn does_not_report_null_guard_before_close() {
    let sources = ir_does_not_report_null_guard_before_close();

    let messages = analyze_java_sources(sources);
    assert!(
        messages.is_empty(),
        "null-guarded close should not be reported: {messages:?}"
    );
}
fn ir_reports_unclosed_autocloseable() -> Vec<Class> {
    vec![
    cls("com/example/ClassA", Some("java/lang/Object"), &[], &["java/io/FileInputStream", "java/io/InputStream", "java/lang/Exception", "java/lang/Object"], Some("ClassA.java"), false,
      vec![],
      vec![
        mth("<init>", "()V", None, 0x0001, 0,
          vec![42, 183, 0, 1, 177],
          &[(0, 7)],
          vec![blk(0, 5, vec![oth(0, 42), inv(1, 183, "java/lang/Object", "<init>", "()V"), oth(4, 177)])],
          &[],
          vec![],
          vec![]),
        mth("methodX", "()V", None, 0x0001, 0,
          vec![187, 0, 7, 89, 18, 9, 183, 0, 11, 76, 43, 182, 0, 14, 87, 177],
          &[(0, 9), (10, 10), (15, 11)],
          vec![blk(0, 16, vec![oth(0, 187), oth(3, 89), cstr(4, 18, "f.txt"), inv(6, 183, "java/io/FileInputStream", "<init>", "(Ljava/lang/String;)V"), oth(9, 76), oth(10, 43), inv(11, 182, "java/io/InputStream", "read", "()I"), oth(14, 87), oth(15, 177)])],
          &[],
          vec![],
          vec![])
      ])
    ]
}

fn ir_does_not_report_try_with_resources() -> Vec<Class> {
    vec![
    cls("com/example/ClassB", Some("java/lang/Object"), &[], &["java/io/FileInputStream", "java/io/InputStream", "java/lang/Exception", "java/lang/Object", "java/lang/Throwable"], Some("ClassB.java"), false,
      vec![],
      vec![
        mth("<init>", "()V", None, 0x0001, 0,
          vec![42, 183, 0, 1, 177],
          &[(0, 7)],
          vec![blk(0, 5, vec![oth(0, 42), inv(1, 183, "java/lang/Object", "<init>", "()V"), oth(4, 177)])],
          &[],
          vec![],
          vec![]),
        mth("methodX", "()V", None, 0x0001, 0,
          vec![187, 0, 7, 89, 18, 9, 183, 0, 11, 76, 43, 182, 0, 14, 87, 43, 182, 0, 20, 167, 0, 19, 77, 43, 182, 0, 20, 167, 0, 9, 78, 44, 45, 182, 0, 25, 44, 191, 177],
          &[(0, 9), (10, 10), (15, 11), (22, 9), (38, 12)],
          vec![blk(0, 10, vec![oth(0, 187), oth(3, 89), cstr(4, 18, "f.txt"), inv(6, 183, "java/io/FileInputStream", "<init>", "(Ljava/lang/String;)V"), oth(9, 76)]), blk(10, 15, vec![oth(10, 43), inv(11, 182, "java/io/InputStream", "read", "()I"), oth(14, 87)]), blk(15, 22, vec![oth(15, 43), inv(16, 182, "java/io/InputStream", "close", "()V"), oth(19, 167)]), blk(22, 23, vec![oth(22, 77)]), blk(23, 27, vec![oth(23, 43), inv(24, 182, "java/io/InputStream", "close", "()V")]), blk(27, 30, vec![oth(27, 167)]), blk(30, 36, vec![oth(30, 78), oth(31, 44), oth(32, 45), inv(33, 182, "java/lang/Throwable", "addSuppressed", "(Ljava/lang/Throwable;)V")]), blk(36, 38, vec![oth(36, 44), oth(37, 191)]), blk(38, 39, vec![oth(38, 177)])],
          &[(0, 10, EdgeKind::FallThrough), (10, 15, EdgeKind::FallThrough), (10, 22, EdgeKind::Exception), (15, 38, EdgeKind::Branch), (22, 23, EdgeKind::FallThrough), (23, 27, EdgeKind::FallThrough), (23, 30, EdgeKind::Exception), (27, 36, EdgeKind::Branch), (30, 36, EdgeKind::FallThrough)],
          vec![hnd(10, 15, 22, Some("java/lang/Throwable")), hnd(23, 27, 30, Some("java/lang/Throwable"))],
          vec![])
      ])
    ]
}

fn ir_does_not_report_finally_close() -> Vec<Class> {
    vec![
    cls("com/example/ClassC", Some("java/lang/Object"), &[], &["java/io/FileInputStream", "java/io/InputStream", "java/lang/Exception", "java/lang/Object", "java/lang/Throwable"], Some("ClassC.java"), false,
      vec![],
      vec![
        mth("<init>", "()V", None, 0x0001, 0,
          vec![42, 183, 0, 1, 177],
          &[(0, 7)],
          vec![blk(0, 5, vec![oth(0, 42), inv(1, 183, "java/lang/Object", "<init>", "()V"), oth(4, 177)])],
          &[],
          vec![],
          vec![]),
        mth("methodX", "()V", None, 0x0001, 0,
          vec![187, 0, 7, 89, 18, 9, 183, 0, 11, 76, 43, 182, 0, 14, 87, 43, 182, 0, 20, 167, 0, 10, 77, 43, 182, 0, 20, 44, 191, 177],
          &[(0, 9), (10, 11), (15, 13), (19, 14), (22, 13), (27, 14), (29, 15)],
          vec![blk(0, 10, vec![oth(0, 187), oth(3, 89), cstr(4, 18, "f.txt"), inv(6, 183, "java/io/FileInputStream", "<init>", "(Ljava/lang/String;)V"), oth(9, 76)]), blk(10, 15, vec![oth(10, 43), inv(11, 182, "java/io/InputStream", "read", "()I"), oth(14, 87)]), blk(15, 22, vec![oth(15, 43), inv(16, 182, "java/io/InputStream", "close", "()V"), oth(19, 167)]), blk(22, 29, vec![oth(22, 77), oth(23, 43), inv(24, 182, "java/io/InputStream", "close", "()V"), oth(27, 44), oth(28, 191)]), blk(29, 30, vec![oth(29, 177)])],
          &[(0, 10, EdgeKind::FallThrough), (10, 15, EdgeKind::FallThrough), (10, 22, EdgeKind::Exception), (15, 29, EdgeKind::Branch)],
          vec![hnd(10, 15, 22, None)],
          vec![])
      ])
    ]
}

fn ir_does_not_report_escape_via_field() -> Vec<Class> {
    vec![
    cls("com/example/ClassD", Some("java/lang/Object"), &[], &["java/io/FileInputStream", "java/lang/Exception", "java/lang/Object"], Some("ClassD.java"), false,
      vec![fldd("fieldOne", "Ljava/io/InputStream;", None, 0x0002)],
      vec![
        mth("<init>", "()V", None, 0x0001, 0,
          vec![42, 183, 0, 1, 177],
          &[(0, 7)],
          vec![blk(0, 5, vec![oth(0, 42), inv(1, 183, "java/lang/Object", "<init>", "()V"), oth(4, 177)])],
          &[],
          vec![],
          vec![]),
        mth("methodX", "()V", None, 0x0001, 0,
          vec![42, 187, 0, 7, 89, 18, 9, 183, 0, 11, 181, 0, 14, 177],
          &[(0, 11), (13, 12)],
          vec![blk(0, 14, vec![oth(0, 42), oth(1, 187), oth(4, 89), cstr(5, 18, "f.txt"), inv(7, 183, "java/io/FileInputStream", "<init>", "(Ljava/lang/String;)V"), fld(10, 181, "com/example/ClassD", "fieldOne", "Ljava/io/InputStream;"), oth(13, 177)])],
          &[],
          vec![],
          vec![])
      ])
    ]
}

fn ir_does_not_report_escape_via_return() -> Vec<Class> {
    vec![
    cls("com/example/ClassE", Some("java/lang/Object"), &[], &["java/io/FileInputStream", "java/lang/Exception", "java/lang/Object"], Some("ClassE.java"), false,
      vec![],
      vec![
        mth("<init>", "()V", None, 0x0001, 0,
          vec![42, 183, 0, 1, 177],
          &[(0, 7)],
          vec![blk(0, 5, vec![oth(0, 42), inv(1, 183, "java/lang/Object", "<init>", "()V"), oth(4, 177)])],
          &[],
          vec![],
          vec![]),
        mth("methodX", "()Ljava/io/InputStream;", None, 0x0001, 0,
          vec![187, 0, 7, 89, 18, 9, 183, 0, 11, 176],
          &[(0, 9)],
          vec![blk(0, 10, vec![oth(0, 187), oth(3, 89), cstr(4, 18, "f.txt"), inv(6, 183, "java/io/FileInputStream", "<init>", "(Ljava/lang/String;)V"), oth(9, 176)])],
          &[],
          vec![],
          vec![])
      ])
    ]
}

fn ir_does_not_report_escape_via_argument() -> Vec<Class> {
    vec![
    cls("com/example/ClassF", Some("java/lang/Object"), &[], &["java/io/FileInputStream", "java/lang/Exception", "java/lang/Object"], Some("ClassF.java"), false,
      vec![],
      vec![
        mth("<init>", "()V", None, 0x0001, 0,
          vec![42, 183, 0, 1, 177],
          &[(0, 7)],
          vec![blk(0, 5, vec![oth(0, 42), inv(1, 183, "java/lang/Object", "<init>", "()V"), oth(4, 177)])],
          &[],
          vec![],
          vec![]),
        mth("methodX", "()V", None, 0x0001, 0,
          vec![187, 0, 7, 89, 18, 9, 183, 0, 11, 76, 42, 43, 182, 0, 14, 177],
          &[(0, 9), (10, 10), (15, 11)],
          vec![blk(0, 16, vec![oth(0, 187), oth(3, 89), cstr(4, 18, "f.txt"), inv(6, 183, "java/io/FileInputStream", "<init>", "(Ljava/lang/String;)V"), oth(9, 76), oth(10, 42), oth(11, 43), inv(12, 182, "com/example/ClassF", "helperMethod", "(Ljava/io/InputStream;)V"), oth(15, 177)])],
          &[],
          vec![],
          vec![]),
        mth("helperMethod", "(Ljava/io/InputStream;)V", None, 0x0002, 1,
          vec![177],
          &[(0, 13)],
          vec![blk(0, 1, vec![oth(0, 177)])],
          &[],
          vec![],
          vec![])
      ])
    ]
}

fn ir_does_not_report_escape_via_array() -> Vec<Class> {
    vec![
    cls("com/example/ClassG", Some("java/lang/Object"), &[], &["java/io/FileInputStream", "java/lang/Exception", "java/lang/Object"], Some("ClassG.java"), false,
      vec![],
      vec![
        mth("<init>", "()V", None, 0x0001, 0,
          vec![42, 183, 0, 1, 177],
          &[(0, 7)],
          vec![blk(0, 5, vec![oth(0, 42), inv(1, 183, "java/lang/Object", "<init>", "()V"), oth(4, 177)])],
          &[],
          vec![],
          vec![]),
        mth("methodX", "()V", None, 0x0001, 0,
          vec![4, 189, 0, 2, 76, 187, 0, 7, 89, 18, 9, 183, 0, 11, 77, 43, 3, 44, 83, 177],
          &[(0, 9), (5, 10), (15, 11), (19, 12)],
          vec![blk(0, 20, vec![cint(0, 4, 1), oth(1, 189), oth(4, 76), oth(5, 187), oth(8, 89), cstr(9, 18, "f.txt"), inv(11, 183, "java/io/FileInputStream", "<init>", "(Ljava/lang/String;)V"), oth(14, 77), oth(15, 43), cint(16, 3, 0), oth(17, 44), oth(18, 83), oth(19, 177)])],
          &[],
          vec![],
          vec![])
      ])
    ]
}

fn ir_does_not_report_wrapper_pattern() -> Vec<Class> {
    vec![
    cls("com/example/ClassH", Some("java/lang/Object"), &[], &["java/io/BufferedReader", "java/io/FileReader", "java/lang/Exception", "java/lang/Object", "java/lang/Throwable"], Some("ClassH.java"), false,
      vec![],
      vec![
        mth("<init>", "()V", None, 0x0001, 0,
          vec![42, 183, 0, 1, 177],
          &[(0, 7)],
          vec![blk(0, 5, vec![oth(0, 42), inv(1, 183, "java/lang/Object", "<init>", "()V"), oth(4, 177)])],
          &[],
          vec![],
          vec![]),
        mth("methodX", "()V", None, 0x0001, 0,
          vec![187, 0, 7, 89, 187, 0, 9, 89, 18, 11, 183, 0, 13, 183, 0, 16, 76, 43, 182, 0, 19, 87, 43, 182, 0, 23, 167, 0, 10, 77, 43, 182, 0, 23, 44, 191, 177],
          &[(0, 9), (17, 11), (22, 13), (26, 14), (29, 13), (34, 14), (36, 15)],
          vec![blk(0, 17, vec![oth(0, 187), oth(3, 89), oth(4, 187), oth(7, 89), cstr(8, 18, "f.txt"), inv(10, 183, "java/io/FileReader", "<init>", "(Ljava/lang/String;)V"), inv(13, 183, "java/io/BufferedReader", "<init>", "(Ljava/io/Reader;)V"), oth(16, 76)]), blk(17, 22, vec![oth(17, 43), inv(18, 182, "java/io/BufferedReader", "readLine", "()Ljava/lang/String;"), oth(21, 87)]), blk(22, 29, vec![oth(22, 43), inv(23, 182, "java/io/BufferedReader", "close", "()V"), oth(26, 167)]), blk(29, 36, vec![oth(29, 77), oth(30, 43), inv(31, 182, "java/io/BufferedReader", "close", "()V"), oth(34, 44), oth(35, 191)]), blk(36, 37, vec![oth(36, 177)])],
          &[(0, 17, EdgeKind::FallThrough), (17, 22, EdgeKind::FallThrough), (17, 29, EdgeKind::Exception), (22, 36, EdgeKind::Branch)],
          vec![hnd(17, 22, 29, None)],
          vec![])
      ])
    ]
}

fn ir_does_not_report_excluded_noop_types() -> Vec<Class> {
    vec![
    cls("com/example/ClassI", Some("java/lang/Object"), &[], &["java/io/ByteArrayOutputStream", "java/io/StringReader", "java/io/StringWriter", "java/lang/Exception", "java/lang/Object"], Some("ClassI.java"), false,
      vec![],
      vec![
        mth("<init>", "()V", None, 0x0001, 0,
          vec![42, 183, 0, 1, 177],
          &[(0, 8)],
          vec![blk(0, 5, vec![oth(0, 42), inv(1, 183, "java/lang/Object", "<init>", "()V"), oth(4, 177)])],
          &[],
          vec![],
          vec![]),
        mth("methodX", "()[B", None, 0x0001, 0,
          vec![187, 0, 7, 89, 183, 0, 9, 76, 43, 16, 42, 182, 0, 10, 43, 182, 0, 14, 176],
          &[(0, 10), (8, 11), (14, 12)],
          vec![blk(0, 19, vec![oth(0, 187), oth(3, 89), inv(4, 183, "java/io/ByteArrayOutputStream", "<init>", "()V"), oth(7, 76), oth(8, 43), cint(9, 16, 42), inv(11, 182, "java/io/ByteArrayOutputStream", "write", "(I)V"), oth(14, 43), inv(15, 182, "java/io/ByteArrayOutputStream", "toByteArray", "()[B"), oth(18, 176)])],
          &[],
          vec![],
          vec![]),
        mth("methodY", "()Ljava/lang/String;", None, 0x0001, 0,
          vec![187, 0, 18, 89, 183, 0, 20, 76, 43, 18, 21, 182, 0, 23, 43, 182, 0, 26, 176],
          &[(0, 16), (8, 17), (14, 18)],
          vec![blk(0, 19, vec![oth(0, 187), oth(3, 89), inv(4, 183, "java/io/StringWriter", "<init>", "()V"), oth(7, 76), oth(8, 43), cstr(9, 18, "hello"), inv(11, 182, "java/io/StringWriter", "write", "(Ljava/lang/String;)V"), oth(14, 43), inv(15, 182, "java/io/StringWriter", "toString", "()Ljava/lang/String;"), oth(18, 176)])],
          &[],
          vec![],
          vec![]),
        mth("methodZ", "()I", None, 0x0001, 0,
          vec![187, 0, 30, 89, 18, 21, 183, 0, 32, 76, 43, 182, 0, 34, 172],
          &[(0, 22), (10, 23)],
          vec![blk(0, 15, vec![oth(0, 187), oth(3, 89), cstr(4, 18, "hello"), inv(6, 183, "java/io/StringReader", "<init>", "(Ljava/lang/String;)V"), oth(9, 76), oth(10, 43), inv(11, 182, "java/io/StringReader", "read", "()I"), oth(14, 172)])],
          &[],
          vec![],
          vec![])
      ])
    ]
}

fn ir_reports_early_return_before_close() -> Vec<Class> {
    vec![
    cls("com/example/ClassJ", Some("java/lang/Object"), &[], &["java/io/FileInputStream", "java/io/InputStream", "java/lang/Exception", "java/lang/Object"], Some("ClassJ.java"), false,
      vec![],
      vec![
        mth("<init>", "()V", None, 0x0001, 0,
          vec![42, 183, 0, 1, 177],
          &[(0, 7)],
          vec![blk(0, 5, vec![oth(0, 42), inv(1, 183, "java/lang/Object", "<init>", "()V"), oth(4, 177)])],
          &[],
          vec![],
          vec![]),
        mth("methodX", "(Z)V", None, 0x0001, 1,
          vec![187, 0, 7, 89, 18, 9, 183, 0, 11, 77, 27, 153, 0, 4, 177, 44, 182, 0, 14, 177],
          &[(0, 9), (10, 10), (14, 11), (15, 13), (19, 14)],
          vec![blk(0, 14, vec![oth(0, 187), oth(3, 89), cstr(4, 18, "f.txt"), inv(6, 183, "java/io/FileInputStream", "<init>", "(Ljava/lang/String;)V"), oth(9, 77), oth(10, 27), oth(11, 153)]), blk(14, 15, vec![oth(14, 177)]), blk(15, 20, vec![oth(15, 44), inv(16, 182, "java/io/InputStream", "close", "()V"), oth(19, 177)])],
          &[(0, 15, EdgeKind::Branch), (0, 14, EdgeKind::FallThrough)],
          vec![],
          vec![])
      ])
    ]
}

fn ir_reports_partial_close_for_multiple_resources() -> Vec<Class> {
    vec![
    cls("com/example/ClassK", Some("java/lang/Object"), &[], &["java/io/FileInputStream", "java/io/FileOutputStream", "java/io/InputStream", "java/io/OutputStream", "java/lang/Exception", "java/lang/Object", "java/lang/Throwable"], Some("ClassK.java"), false,
      vec![],
      vec![
        mth("<init>", "()V", None, 0x0001, 0,
          vec![42, 183, 0, 1, 177],
          &[(0, 9)],
          vec![blk(0, 5, vec![oth(0, 42), inv(1, 183, "java/lang/Object", "<init>", "()V"), oth(4, 177)])],
          &[],
          vec![],
          vec![]),
        mth("methodX", "()V", None, 0x0001, 0,
          vec![187, 0, 7, 89, 18, 9, 183, 0, 11, 76, 187, 0, 14, 89, 18, 16, 183, 0, 18, 77, 43, 182, 0, 19, 87, 44, 16, 42, 182, 0, 25, 43, 182, 0, 31, 167, 0, 10, 78, 43, 182, 0, 31, 45, 191, 177],
          &[(0, 11), (10, 12), (20, 14), (25, 15), (31, 17), (35, 18), (38, 17), (43, 18), (45, 19)],
          vec![blk(0, 20, vec![oth(0, 187), oth(3, 89), cstr(4, 18, "in.txt"), inv(6, 183, "java/io/FileInputStream", "<init>", "(Ljava/lang/String;)V"), oth(9, 76), oth(10, 187), oth(13, 89), cstr(14, 18, "out.txt"), inv(16, 183, "java/io/FileOutputStream", "<init>", "(Ljava/lang/String;)V"), oth(19, 77)]), blk(20, 31, vec![oth(20, 43), inv(21, 182, "java/io/InputStream", "read", "()I"), oth(24, 87), oth(25, 44), cint(26, 16, 42), inv(28, 182, "java/io/OutputStream", "write", "(I)V")]), blk(31, 38, vec![oth(31, 43), inv(32, 182, "java/io/InputStream", "close", "()V"), oth(35, 167)]), blk(38, 45, vec![oth(38, 78), oth(39, 43), inv(40, 182, "java/io/InputStream", "close", "()V"), oth(43, 45), oth(44, 191)]), blk(45, 46, vec![oth(45, 177)])],
          &[(0, 20, EdgeKind::FallThrough), (20, 31, EdgeKind::FallThrough), (20, 38, EdgeKind::Exception), (31, 45, EdgeKind::Branch)],
          vec![hnd(20, 31, 38, None)],
          vec![])
      ])
    ]
}

fn ir_reports_factory_method_returning_autocloseable() -> Vec<Class> {
    vec![
    cls("com/example/ClassL", Some("java/lang/Object"), &[], &["java/io/InputStream", "java/lang/Exception", "java/lang/Object", "java/lang/String", "java/nio/file/Files", "java/nio/file/OpenOption", "java/nio/file/Path"], Some("ClassL.java"), false,
      vec![],
      vec![
        mth("<init>", "()V", None, 0x0001, 0,
          vec![42, 183, 0, 1, 177],
          &[(0, 8)],
          vec![blk(0, 5, vec![oth(0, 42), inv(1, 183, "java/lang/Object", "<init>", "()V"), oth(4, 177)])],
          &[],
          vec![],
          vec![]),
        mth("methodX", "()V", None, 0x0001, 0,
          vec![18, 7, 3, 189, 0, 9, 184, 0, 11, 3, 189, 0, 17, 184, 0, 19, 76, 43, 182, 0, 25, 87, 177],
          &[(0, 10), (17, 11), (22, 12)],
          vec![blk(0, 23, vec![cstr(0, 18, "f.txt"), cint(2, 3, 0), oth(3, 189), inv(6, 184, "java/nio/file/Path", "of", "(Ljava/lang/String;[Ljava/lang/String;)Ljava/nio/file/Path;"), cint(9, 3, 0), oth(10, 189), inv(13, 184, "java/nio/file/Files", "newInputStream", "(Ljava/nio/file/Path;[Ljava/nio/file/OpenOption;)Ljava/io/InputStream;"), oth(16, 76), oth(17, 43), inv(18, 182, "java/io/InputStream", "read", "()I"), oth(21, 87), oth(22, 177)])],
          &[],
          vec![],
          vec![])
      ])
    ]
}

fn ir_does_not_report_non_autocloseable() -> Vec<Class> {
    vec![
    cls("com/example/ClassM", Some("java/lang/Object"), &[], &["java/lang/Object"], Some("ClassM.java"), false,
      vec![],
      vec![
        mth("<init>", "()V", None, 0x0001, 0,
          vec![42, 183, 0, 1, 177],
          &[(0, 4)],
          vec![blk(0, 5, vec![oth(0, 42), inv(1, 183, "java/lang/Object", "<init>", "()V"), oth(4, 177)])],
          &[],
          vec![],
          vec![]),
        mth("methodX", "()V", None, 0x0001, 0,
          vec![187, 0, 2, 89, 183, 0, 1, 76, 43, 182, 0, 7, 87, 177],
          &[(0, 6), (8, 7), (13, 8)],
          vec![blk(0, 14, vec![oth(0, 187), oth(3, 89), inv(4, 183, "java/lang/Object", "<init>", "()V"), oth(7, 76), oth(8, 43), inv(9, 182, "java/lang/Object", "toString", "()Ljava/lang/String;"), oth(12, 87), oth(13, 177)])],
          &[],
          vec![],
          vec![])
      ])
    ]
}

fn ir_reports_app_defined_autocloseable_subclass() -> Vec<Class> {
    vec![
    cls("com/example/ClassN$ClassResource", Some("java/lang/Object"), &["java/lang/AutoCloseable"], &["com/example/ClassN", "java/lang/AutoCloseable", "java/lang/Object"], Some("ClassN.java"), false,
      vec![],
      vec![
        mth("<init>", "()V", None, 0x0000, 0,
          vec![42, 183, 0, 1, 177],
          &[(0, 10)],
          vec![blk(0, 5, vec![oth(0, 42), inv(1, 183, "java/lang/Object", "<init>", "()V"), oth(4, 177)])],
          &[],
          vec![],
          vec![]),
        mth("doWork", "()V", None, 0x0000, 0,
          vec![177],
          &[(0, 11)],
          vec![blk(0, 1, vec![oth(0, 177)])],
          &[],
          vec![],
          vec![]),
        mth("close", "()V", None, 0x0001, 0,
          vec![177],
          &[(0, 14)],
          vec![blk(0, 1, vec![oth(0, 177)])],
          &[],
          vec![],
          vec![])
      ]),
    cls("com/example/ClassN", Some("java/lang/Object"), &[], &["com/example/ClassN$ClassResource", "java/lang/Object"], Some("ClassN.java"), false,
      vec![],
      vec![
        mth("<init>", "()V", None, 0x0001, 0,
          vec![42, 183, 0, 1, 177],
          &[(0, 4)],
          vec![blk(0, 5, vec![oth(0, 42), inv(1, 183, "java/lang/Object", "<init>", "()V"), oth(4, 177)])],
          &[],
          vec![],
          vec![]),
        mth("methodX", "()V", None, 0x0001, 0,
          vec![187, 0, 7, 89, 183, 0, 9, 76, 43, 182, 0, 10, 177],
          &[(0, 6), (8, 7), (12, 8)],
          vec![blk(0, 13, vec![oth(0, 187), oth(3, 89), inv(4, 183, "com/example/ClassN$ClassResource", "<init>", "()V"), oth(7, 76), oth(8, 43), inv(9, 182, "com/example/ClassN$ClassResource", "doWork", "()V"), oth(12, 177)])],
          &[],
          vec![],
          vec![])
      ])
    ]
}

fn ir_reports_inner_resource_wrapped_by_excluded_noop_type() -> Vec<Class> {
    vec![
    cls("com/example/ClassO", Some("java/lang/Object"), &[], &["java/io/FileInputStream", "java/lang/Exception", "java/lang/Object", "javax/imageio/stream/MemoryCacheImageInputStream"], Some("ClassO.java"), false,
      vec![],
      vec![
        mth("<init>", "()V", None, 0x0001, 0,
          vec![42, 183, 0, 1, 177],
          &[(0, 8)],
          vec![blk(0, 5, vec![oth(0, 42), inv(1, 183, "java/lang/Object", "<init>", "()V"), oth(4, 177)])],
          &[],
          vec![],
          vec![]),
        mth("methodX", "()V", None, 0x0001, 0,
          vec![187, 0, 7, 89, 18, 9, 183, 0, 11, 76, 187, 0, 14, 89, 43, 183, 0, 16, 77, 44, 182, 0, 19, 87, 44, 182, 0, 23, 177],
          &[(0, 10), (10, 11), (19, 12), (24, 13), (28, 14)],
          vec![blk(0, 29, vec![oth(0, 187), oth(3, 89), cstr(4, 18, "f.txt"), inv(6, 183, "java/io/FileInputStream", "<init>", "(Ljava/lang/String;)V"), oth(9, 76), oth(10, 187), oth(13, 89), oth(14, 43), inv(15, 183, "javax/imageio/stream/MemoryCacheImageInputStream", "<init>", "(Ljava/io/InputStream;)V"), oth(18, 77), oth(19, 44), inv(20, 182, "javax/imageio/stream/MemoryCacheImageInputStream", "readByte", "()B"), oth(23, 87), oth(24, 44), inv(25, 182, "javax/imageio/stream/MemoryCacheImageInputStream", "close", "()V"), oth(28, 177)])],
          &[],
          vec![],
          vec![])
      ])
    ]
}

fn ir_does_not_report_null_guard_before_close() -> Vec<Class> {
    vec![
    cls("com/example/ClassQ", Some("java/lang/Object"), &[], &["java/io/InputStream", "java/lang/Exception", "java/lang/Object"], Some("ClassQ.java"), false,
      vec![],
      vec![
        mth("<init>", "()V", None, 0x0001, 0,
          vec![42, 183, 0, 1, 177],
          &[(0, 6)],
          vec![blk(0, 5, vec![oth(0, 42), inv(1, 183, "java/lang/Object", "<init>", "()V"), oth(4, 177)])],
          &[],
          vec![],
          vec![]),
        mth("getStream", "()Ljava/io/InputStream;", None, 0x0008, 0,
          vec![1, 176],
          &[(0, 7)],
          vec![blk(0, 2, vec![oth(0, 1), oth(1, 176)])],
          &[],
          vec![],
          vec![]),
        mth("methodX", "()V", None, 0x0001, 0,
          vec![184, 0, 7, 76, 43, 199, 0, 4, 177, 43, 182, 0, 13, 177],
          &[(0, 10), (4, 11), (9, 12), (13, 13)],
          vec![blk(0, 8, vec![inv(0, 184, "com/example/ClassQ", "getStream", "()Ljava/io/InputStream;"), oth(3, 76), oth(4, 43), oth(5, 199)]), blk(8, 9, vec![oth(8, 177)]), blk(9, 14, vec![oth(9, 43), inv(10, 182, "java/io/InputStream", "close", "()V"), oth(13, 177)])],
          &[(0, 9, EdgeKind::Branch), (0, 8, EdgeKind::FallThrough)],
          vec![],
          vec![])
      ])
    ]
}


#[test]
fn reports_unclosed_autocloseable_kotlin_message() {
    let mut sources = ir_reports_unclosed_autocloseable();
    sources[0].source_file = Some("ClassA.kt".to_string());

    let messages = analyze_java_sources(sources);
    assert_eq!(messages.len(), 1);
    assert!(messages[0].contains("may not be closed on all paths"));
    assert!(
        messages[0].contains("use .use {}"),
        "Kotlin message should suggest .use {{}}, got: {messages:?}",
    );
}

#[test]
fn autocloseable_type_follows_superclasses_and_interfaces_at_any_depth() {
    let classes = vec![
        cls("com/example/Handle", None, &["com/example/Resource"], &[], None, false, vec![], vec![]),
        cls("com/example/Resource", None, &["java/io/Closeable"], &[], None, false, vec![], vec![]),
        cls("com/example/Leaf", Some("com/example/Mid"), &[], &[], None, false, vec![], vec![]),
        cls("com/example/Mid", Some("com/example/Handle"), &[], &[], None, false, vec![], vec![]),
        cls("com/example/Plain", Some("java/lang/Object"), &[], &[], None, false, vec![], vec![]),
        cls("com/example/LoopA", Some("com/example/LoopB"), &[], &[], None, false, vec![], vec![]),
        cls("com/example/LoopB", Some("com/example/LoopA"), &[], &[], None, false, vec![], vec![]),
    ];
    let refs: Vec<&Class> = classes.iter().collect();
    assert!(is_autocloseable_type("com/example/Leaf", &refs));
    assert!(is_autocloseable_type("com/example/Mid", &refs));
    assert!(is_autocloseable_type("java/io/FileInputStream", &refs));
    assert!(!is_autocloseable_type("com/example/Plain", &refs));
    assert!(!is_autocloseable_type("com/example/LoopA", &refs));
    assert!(!is_autocloseable_type("com/example/Unknown", &refs));
}
