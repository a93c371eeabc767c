use inspequte::ir::{
    BasicBlock, CallKind, CallSite, Class, ControlFlowGraph, EdgeKind, ExceptionHandler, Field,
    FieldAccess, FieldRef, FlowEdge, Instruction, InstructionKind, LineNumber, LocalVariableType,
    Method, MethodAccess, MethodNullness,
};
use inspequte::engine::{Engine, EngineOutput, build_context};


fn compile_and_analyze_all(classes: &[Class]) -> EngineOutput {
    let context = build_context(classes.to_vec(), &[]);
    Engine::new().analyze(context).expect("run analysis")
}
fn return_messages(output: &EngineOutput) -> Vec<String> {
    output
        .results
        .iter()
        .filter(|result| result.rule_id.as_deref() == Some("RETURN_IN_FINALLY"))
        .filter_map(|result| Some(result.message.clone()))
        .collect()
}

fn cls(
    name: &str,
    super_name: Option<&str>,
    interfaces: &[&str],
    referenced: &[&str],
    source_file: Option<&str>,
    is_record: bool,
    fields: Vec<Field>,
    methods: Vec<Method>,
) -> Class {
    Class {
        name: name.to_string(),
        source_file: source_file.map(|s| s.to_string()),
        super_name: super_name.map(|s| s.to_string()),
        interfaces: interfaces.iter().map(|s| s.to_string()).collect(),
        referenced_classes: referenced.iter().map(|s| s.to_string()).collect(),
        fields,
        methods,
        artifact_index: 0,
        is_record,
    }
}

fn fldd(name: &str, descriptor: &str, signature: Option<&str>, flags: u16) -> Field {
    Field {
        name: name.to_string(),
        descriptor: descriptor.to_string(),
        signature: signature.map(|s| s.to_string()),
        access: FieldAccess {
            is_static: flags & 0x0008 != 0,
            is_private: flags & 0x0002 != 0,
            is_final: flags & 0x0010 != 0,
        },
    }
}

#[allow(clippy::too_many_arguments)]
fn mth(
    name: &str,
    descriptor: &str,
    signature: Option<&str>,
    flags: u16,
    param_count: usize,
    bytecode: Vec<u8>,
    lines: &[(u32, u32)],
    blocks: Vec<BasicBlock>,
    edges: &[(u32, u32, EdgeKind)],
    exception_handlers: Vec<ExceptionHandler>,
    local_variable_types: Vec<LocalVariableType>,
) -> Method {
    let mut instructions: Vec<&Instruction> = blocks.iter().flat_map(|b| b.instructions.iter()).collect();
    instructions.sort_by_key(|i| i.offset);
    let mut calls = Vec::new();
    let mut string_literals = Vec::new();
    for instruction in instructions {
        match &instruction.kind {
            InstructionKind::Invoke(call) => calls.push(call.clone()),
            InstructionKind::ConstString(value) => string_literals.push(value.clone()),
            _ => {}
        }
    }
    Method {
        name: name.to_string(),
        descriptor: descriptor.to_string(),
        signature: signature.map(|s| s.to_string()),
        access: MethodAccess {
            is_public: flags & 0x0001 != 0,
            is_static: flags & 0x0008 != 0,
            is_abstract: flags & 0x0400 != 0,
            is_synchronized: flags & 0x0020 != 0,
            is_bridge: flags & 0x0040 != 0,
            is_synthetic: flags & 0x1000 != 0,
        },
        nullness: MethodNullness::unknown(param_count),
        bytecode,
        line_numbers: lines
            .iter()
            .map(|(start_pc, line)| LineNumber { start_pc: *start_pc, line: *line })
            .collect(),
        cfg: ControlFlowGraph {
            blocks,
            edges: edges
                .iter()
                .map(|(from, to, kind)| FlowEdge { from: *from, to: *to, kind: *kind })
                .collect(),
        },
        calls,
        string_literals,
        exception_handlers,
        local_variable_types,
    }
}

fn blk(start_offset: u32, end_offset: u32, instructions: Vec<Instruction>) -> BasicBlock {
    BasicBlock { start_offset, end_offset, instructions }
}

fn hnd(start_pc: u32, end_pc: u32, handler_pc: u32, catch_type: Option<&str>) -> ExceptionHandler {
    ExceptionHandler { start_pc, end_pc, handler_pc, catch_type: catch_type.map(|s| s.to_string()) }
}

fn lvt(name: &str, signature: &str, index: u16, start_pc: u32, length: u32) -> LocalVariableType {
    LocalVariableType { name: name.to_string(), signature: signature.to_string(), index, start_pc, length }
}

fn inv(offset: u32, opcode: u8, owner: &str, name: &str, descriptor: &str) -> Instruction {
    let kind = match opcode {
        0xb6 => CallKind::Virtual,
        0xb7 => CallKind::Special,
        0xb8 => CallKind::Static,
        _ => CallKind::Interface,
    };
    Instruction {
        offset,
        opcode,
        kind: InstructionKind::Invoke(CallSite {
            owner: owner.to_string(),
            name: name.to_string(),
            descriptor: descriptor.to_string(),
            kind,
            offset,
        }),
    }
}

fn indy(offset: u32, descriptor: &str, impl_method: Option<&str>) -> Instruction {
    Instruction {
        offset,
        opcode: 0xba,
        kind: InstructionKind::InvokeDynamic {
            descriptor: descriptor.to_string(),
            impl_method: impl_method.map(|s| s.to_string()),
        },
    }
}

fn cstr(offset: u32, opcode: u8, value: &str) -> Instruction {
    Instruction { offset, opcode, kind: InstructionKind::ConstString(value.to_string()) }
}

fn ccls(offset: u32, opcode: u8, value: &str) -> Instruction {
    Instruction { offset, opcode, kind: InstructionKind::ConstClass(value.to_string()) }
}

fn cint(offset: u32, opcode: u8, value: i64) -> Instruction {
    Instruction { offset, opcode, kind: InstructionKind::ConstInt(value) }
}

fn fld(offset: u32, opcode: u8, owner: &str, name: &str, descriptor: &str) -> Instruction {
    Instruction {
        offset,
        opcode,
        kind: InstructionKind::FieldAccess(FieldRef {
            owner: owner.to_string(),
            name: name.to_string(),
            descriptor: descriptor.to_string(),
        }),
    }
}

fn oth(offset: u32, opcode: u8) -> Instruction {
    Instruction { offset, opcode, kind: InstructionKind::Other(opcode) }
}

#[test]
fn return_in_finally_reports_return_in_finally_block() {
    let sources = ir_return_in_finally_reports_return_in_finally_block();

    let analysis = compile_and_analyze_all(&sources);

    let messages = return_messages(&analysis);
    assert_eq!(messages.len(), 1);
    assert!(messages[0].contains("Return in finally overrides exceptions"));
}
#[test]
fn return_in_finally_ignores_return_after_try_finally() {
    let sources = ir_return_in_finally_ignores_return_after_try_finally();

    let analysis = compile_and_analyze_all(&sources);

    let messages = return_messages(&analysis);
    assert!(
        messages.is_empty(),
        "expected no RETURN_IN_FINALLY, got {messages:?}"
    );
}
#[test]
fn return_in_finally_reports_return_overriding_prior_return() {
    let sources = ir_return_in_finally_reports_return_overriding_prior_return();

    let analysis = compile_and_analyze_all(&sources);

    let messages = return_messages(&analysis);
    assert_eq!(messages.len(), 1);
}
fn ir_return_in_finally_reports_return_in_finally_block() -> Vec<Class> {
    vec![
    cls("example/ClassA", Some("java/lang/Object"), &[], &["java/lang/Object", "java/lang/RuntimeException", "java/lang/Throwable"], Some("ClassA.java"), false,
      vec![],
      vec![
        mth("<init>", "()V", None, 0x0001, 0,
          vec![42, 183, 0, 1, 177],
          &[(0, 4)],
          vec![blk(0, 5, vec![oth(0, 42), inv(1, 183, "java/lang/Object", "<init>", "()V"), oth(4, 177)])],
          &[],
          vec![],
          vec![]),
        mth("MethodX", "()I", None, 0x0000, 0,
          vec![187, 0, 7, 89, 18, 9, 183, 0, 11, 191, 76, 4, 172],
          &[(0, 7), (10, 9)],
          vec![blk(0, 10, vec![oth(0, 187), oth(3, 89), cstr(4, 18, "fail"), inv(6, 183, "java/lang/RuntimeException", "<init>", "(Ljava/lang/String;)V"), oth(9, 191)]), blk(10, 11, vec![oth(10, 76)]), blk(11, 13, vec![cint(11, 4, 1), oth(12, 172)])],
          &[(0, 10, EdgeKind::Exception), (10, 11, EdgeKind::FallThrough), (10, 10, EdgeKind::Exception)],
          vec![hnd(0, 11, 10, None)],
          vec![])
      ])
    ]
}

fn ir_return_in_finally_ignores_return_after_try_finally() -> Vec<Class> {
    vec![
    cls("example/ClassB", Some("java/lang/Object"), &[], &["java/lang/Object", "java/lang/Throwable"], Some("ClassB.java"), false,
      vec![],
      vec![
        mth("<init>", "()V", None, 0x0001, 0,
          vec![42, 183, 0, 1, 177],
          &[(0, 4)],
          vec![blk(0, 5, vec![oth(0, 42), inv(1, 183, "java/lang/Object", "<init>", "()V"), oth(4, 177)])],
          &[],
          vec![],
          vec![]),
        mth("MethodY", "()I", None, 0x0000, 0,
          vec![4, 60, 5, 60, 167, 0, 8, 77, 5, 60, 44, 191, 27, 172],
          &[(0, 8), (2, 10), (4, 11), (7, 10), (10, 11), (12, 12)],
          vec![blk(0, 2, vec![cint(0, 4, 1), oth(1, 60)]), blk(2, 7, vec![cint(2, 5, 2), oth(3, 60), oth(4, 167)]), blk(7, 12, vec![oth(7, 77), cint(8, 5, 2), oth(9, 60), oth(10, 44), oth(11, 191)]), blk(12, 14, vec![oth(12, 27), oth(13, 172)])],
          &[(0, 2, EdgeKind::FallThrough), (0, 7, EdgeKind::Exception), (2, 12, EdgeKind::Branch)],
          vec![hnd(0, 2, 7, None)],
          vec![])
      ])
    ]
}

fn ir_return_in_finally_reports_return_overriding_prior_return() -> Vec<Class> {
    vec![
    cls("example/ClassC", Some("java/lang/Object"), &[], &["java/lang/Object", "java/lang/Throwable"], Some("ClassC.java"), false,
      vec![],
      vec![
        mth("<init>", "()V", None, 0x0001, 0,
          vec![42, 183, 0, 1, 177],
          &[(0, 4)],
          vec![blk(0, 5, vec![oth(0, 42), inv(1, 183, "java/lang/Object", "<init>", "()V"), oth(4, 177)])],
          &[],
          vec![],
          vec![]),
        mth("MethodZ", "()I", None, 0x0000, 0,
          vec![4, 60, 5, 172, 77, 5, 172],
          &[(0, 7), (2, 9)],
          vec![blk(0, 2, vec![cint(0, 4, 1), oth(1, 60)]), blk(2, 4, vec![cint(2, 5, 2), oth(3, 172)]), blk(4, 7, vec![oth(4, 77), cint(5, 5, 2), oth(6, 172)])],
          &[(0, 2, EdgeKind::FallThrough), (0, 4, EdgeKind::Exception)],
          vec![hnd(0, 2, 4, None)],
          vec![])
      ])
    ]
}

