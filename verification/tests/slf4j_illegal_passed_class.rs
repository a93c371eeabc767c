use inspequte::ir::{
    BasicBlock, CallKind, CallSite, Class, ControlFlowGraph, EdgeKind, ExceptionHandler, Field,
    FieldAccess, FieldRef, FlowEdge, Instruction, InstructionKind, LineNumber, LocalVariableType,
    Method, MethodAccess, MethodNullness,
};
use inspequte::engine::{build_context, tag_findings};
use inspequte::report::sort_findings;
use inspequte::rules::slf4j_illegal_passed_class::Slf4jIllegalPassedClassRule;


fn analyze_sources(classes: Vec<Class>) -> Vec<String> {
    let context = build_context(classes, &[]);
    let findings = Slf4jIllegalPassedClassRule.run(&context).expect("run rule");
    let tagged = tag_findings(findings, "SLF4J_ILLEGAL_PASSED_CLASS");
    sort_findings(tagged)
        .iter()
        .map(|result| result.message.clone())
        .collect()
}


fn cls(
    name: &str,
    super_name: Option<&str>,
    interfaces: &[&str],
    referenced: &[&str],
    source_file: Option<&str>,
    is_record: bool,
    fields: Vec<Field>,
    methods: Vec<Method>,
) -> Class {
    Class {
        name: name.to_string(),
        source_file: source_file.map(|s| s.to_string()),
        super_name: super_name.map(|s| s.to_string()),
        interfaces: interfaces.iter().map(|s| s.to_string()).collect(),
        referenced_classes: referenced.iter().map(|s| s.to_string()).collect(),
        fields,
        methods,
        artifact_index: 0,
        is_record,
    }
}

fn fldd(name: &str, descriptor: &str, signature: Option<&str>, flags: u16) -> Field {
    Field {
        name: name.to_string(),
        descriptor: descriptor.to_string(),
        signature: signature.map(|s| s.to_string()),
        access: FieldAccess {
            is_static: flags & 0x0008 != 0,
            is_private: flags & 0x0002 != 0,
            is_final: flags & 0x0010 != 0,
        },
    }
}

#[allow(clippy::too_many_arguments)]
fn mth(
    name: &str,
    descriptor: &str,
    signature: Option<&str>,
    flags: u16,
    param_count: usize,
    bytecode: Vec<u8>,
    lines: &[(u32, u32)],
    blocks: Vec<BasicBlock>,
    edges: &[(u32, u32, EdgeKind)],
    exception_handlers: Vec<ExceptionHandler>,
    local_variable_types: Vec<LocalVariableType>,
) -> Method {
    let mut instructions: Vec<&Instruction> = blocks.iter().flat_map(|b| b.instructions.iter()).collect();
    instructions.sort_by_key(|i| i.offset);
    let mut calls = Vec::new();
    let mut string_literals = Vec::new();
    for instruction in instructions {
        match &instruction.kind {
            InstructionKind::Invoke(call) => calls.push(call.clone()),
            InstructionKind::ConstString(value) => string_literals.push(value.clone()),
            _ => {}
        }
    }
    Method {
        name: name.to_string(),
        descriptor: descriptor.to_string(),
        signature: signature.map(|s| s.to_string()),
        access: MethodAccess {
            is_public: flags & 0x0001 != 0,
            is_static: flags & 0x0008 != 0,
            is_abstract: flags & 0x0400 != 0,
            is_synchronized: flags & 0x0020 != 0,
            is_bridge: flags & 0x0040 != 0,
            is_synthetic: flags & 0x1000 != 0,
        },
        nullness: MethodNullness::unknown(param_count),
        bytecode,
        line_numbers: lines
            .iter()
            .map(|(start_pc, line)| LineNumber { start_pc: *start_pc, line: *line })
            .collect(),
        cfg: ControlFlowGraph {
            blocks,
            edges: edges
                .iter()
                .map(|(from, to, kind)| FlowEdge { from: *from, to: *to, kind: *kind })
                .collect(),
        },
        calls,
        string_literals,
        exception_handlers,
        local_variable_types,
    }
}

fn blk(start_offset: u32, end_offset: u32, instructions: Vec<Instruction>) -> BasicBlock {
    BasicBlock { start_offset, end_offset, instructions }
}

fn hnd(start_pc: u32, end_pc: u32, handler_pc: u32, catch_type: Option<&str>) -> ExceptionHandler {
    ExceptionHandler { start_pc, end_pc, handler_pc, catch_type: catch_type.map(|s| s.to_string()) }
}

fn lvt(name: &str, signature: &str, index: u16, start_pc: u32, length: u32) -> LocalVariableType {
    LocalVariableType { name: name.to_string(), signature: signature.to_string(), index, start_pc, length }
}

fn inv(offset: u32, opcode: u8, owner: &str, name: &str, descriptor: &str) -> Instruction {
    let kind = match opcode {
        0xb6 => CallKind::Virtual,
        0xb7 => CallKind::Special,
        0xb8 => CallKind::Static,
        _ => CallKind::Interface,
    };
    Instruction {
        offset,
        opcode,
        kind: InstructionKind::Invoke(CallSite {
            owner: owner.to_string(),
            name: name.to_string(),
            descriptor: descriptor.to_string(),
            kind,
            offset,
        }),
    }
}

fn indy(offset: u32, descriptor: &str, impl_method: Option<&str>) -> Instruction {
    Instruction {
        offset,
        opcode: 0xba,
        kind: InstructionKind::InvokeDynamic {
            descriptor: descriptor.to_string(),
            impl_method: impl_method.map(|s| s.to_string()),
        },
    }
}

fn cstr(offset: u32, opcode: u8, value: &str) -> Instruction {
    Instruction { offset, opcode, kind: InstructionKind::ConstString(value.to_string()) }
}

fn ccls(offset: u32, opcode: u8, value: &str) -> Instruction {
    Instruction { offset, opcode, kind: InstructionKind::ConstClass(value.to_string()) }
}

fn cint(offset: u32, opcode: u8, value: i64) -> Instruction {
    Instruction { offset, opcode, kind: InstructionKind::ConstInt(value) }
}

fn fld(offset: u32, opcode: u8, owner: &str, name: &str, descriptor: &str) -> Instruction {
    Instruction {
        offset,
        opcode,
        kind: InstructionKind::FieldAccess(FieldRef {
            owner: owner.to_string(),
            name: name.to_string(),
            descriptor: descriptor.to_string(),
        }),
    }
}

fn oth(offset: u32, opcode: u8) -> Instruction {
    Instruction { offset, opcode, kind: InstructionKind::Other(opcode) }
}

#[test]
fn slf4j_illegal_passed_class_reports_illegal_literals() {
    let sources = ir_slf4j_illegal_passed_class_reports_illegal_literals();

    let messages = analyze_sources(sources);

    assert_eq!(messages.len(), 1);
    assert!(messages.iter().any(|msg| msg.contains("ClassB")));
}
#[test]
fn slf4j_illegal_passed_class_allows_expected_classes() {
    let sources = ir_slf4j_illegal_passed_class_allows_expected_classes();

    let messages = analyze_sources(sources);

    assert!(messages.is_empty());
}
fn ir_slf4j_illegal_passed_class_reports_illegal_literals() -> Vec<Class> {
    vec![
    cls("com/example/ClassA", Some("java/lang/Object"), &[], &["com/example/ClassB", "java/lang/Object", "org/slf4j/LoggerFactory"], Some("ClassA.java"), false,
      vec![fldd("fieldA", "Lorg/slf4j/Logger;", None, 0x0012)],
      vec![
        mth("<init>", "()V", None, 0x0001, 0,
          vec![42, 183, 0, 1, 42, 18, 7, 184, 0, 9, 181, 0, 15, 177],
          &[(0, 6), (4, 7)],
          vec![blk(0, 14, vec![oth(0, 42), inv(1, 183, "java/lang/Object", "<init>", "()V"), oth(4, 42), ccls(5, 18, "com/example/ClassB"), inv(7, 184, "org/slf4j/LoggerFactory", "getLogger", "(Ljava/lang/Class;)Lorg/slf4j/Logger;"), fld(10, 181, "com/example/ClassA", "fieldA", "Lorg/slf4j/Logger;"), oth(13, 177)])],
          &[],
          vec![],
          vec![])
      ]),
    cls("com/example/ClassB", Some("java/lang/Object"), &[], &["java/lang/Object"], Some("ClassA.java"), false,
      vec![],
      vec![
        mth("<init>", "()V", None, 0x0000, 0,
          vec![42, 183, 0, 1, 177],
          &[(0, 5)],
          vec![blk(0, 5, vec![oth(0, 42), inv(1, 183, "java/lang/Object", "<init>", "()V"), oth(4, 177)])],
          &[],
          vec![],
          vec![])
      ]),
    cls("org/slf4j/Logger", Some("java/lang/Object"), &[], &["java/lang/Object"], Some("Logger.java"), false,
      vec![],
      vec![
        
      ]),
    cls("org/slf4j/LoggerFactory", Some("java/lang/Object"), &[], &["java/lang/Object"], Some("LoggerFactory.java"), false,
      vec![],
      vec![
        mth("<init>", "()V", None, 0x0001, 0,
          vec![42, 183, 0, 1, 177],
          &[(0, 3)],
          vec![blk(0, 5, vec![oth(0, 42), inv(1, 183, "java/lang/Object", "<init>", "()V"), oth(4, 177)])],
          &[],
          vec![],
          vec![]),
        mth("getLogger", "(Ljava/lang/Class;)Lorg/slf4j/Logger;", Some("(Ljava/lang/Class<*>;)Lorg/slf4j/Logger;"), 0x0009, 1,
          vec![1, 176],
          &[(0, 5)],
          vec![blk(0, 2, vec![oth(0, 1), oth(1, 176)])],
          &[],
          vec![],
          vec![lvt("clazz", "Ljava/lang/Class<*>;", 0, 0, 2)])
      ])
    ]
}

fn ir_slf4j_illegal_passed_class_allows_expected_classes() -> Vec<Class> {
    vec![
    cls("com/example/ClassA$ClassB", Some("java/lang/Object"), &[], &["com/example/ClassA", "java/lang/Object", "org/slf4j/LoggerFactory"], Some("ClassA.java"), false,
      vec![fldd("fieldA", "Lorg/slf4j/Logger;", None, 0x0012), fldd("fieldB", "Lorg/slf4j/Logger;", None, 0x0012)],
      vec![
        mth("<init>", "()V", None, 0x0000, 0,
          vec![42, 183, 0, 1, 42, 18, 7, 184, 0, 9, 181, 0, 15, 42, 18, 19, 184, 0, 9, 181, 0, 21, 177],
          &[(0, 10), (4, 11), (13, 12)],
          vec![blk(0, 23, vec![oth(0, 42), inv(1, 183, "java/lang/Object", "<init>", "()V"), oth(4, 42), ccls(5, 18, "com/example/ClassA$ClassB"), inv(7, 184, "org/slf4j/LoggerFactory", "getLogger", "(Ljava/lang/Class;)Lorg/slf4j/Logger;"), fld(10, 181, "com/example/ClassA$ClassB", "fieldA", "Lorg/slf4j/Logger;"), oth(13, 42), ccls(14, 18, "com/example/ClassA"), inv(16, 184, "org/slf4j/LoggerFactory", "getLogger", "(Ljava/lang/Class;)Lorg/slf4j/Logger;"), fld(19, 181, "com/example/ClassA$ClassB", "fieldB", "Lorg/slf4j/Logger;"), oth(22, 177)])],
          &[],
          vec![],
          vec![])
      ]),
    cls("com/example/ClassA", Some("java/lang/Object"), &[], &["com/example/ClassA$ClassB", "java/lang/Object", "org/slf4j/LoggerFactory"], Some("ClassA.java"), false,
      vec![fldd("fieldA", "Lorg/slf4j/Logger;", None, 0x0012)],
      vec![
        mth("<init>", "()V", None, 0x0001, 0,
          vec![42, 183, 0, 1, 42, 18, 7, 184, 0, 9, 181, 0, 15, 177],
          &[(0, 5), (4, 6)],
          vec![blk(0, 14, vec![oth(0, 42), inv(1, 183, "java/lang/Object", "<init>", "()V"), oth(4, 42), ccls(5, 18, "com/example/ClassA"), inv(7, 184, "org/slf4j/LoggerFactory", "getLogger", "(Ljava/lang/Class;)Lorg/slf4j/Logger;"), fld(10, 181, "com/example/ClassA", "fieldA", "Lorg/slf4j/Logger;"), oth(13, 177)])],
          &[],
          vec![],
          vec![]),
        mth("methodOne", "()Lorg/slf4j/Logger;", None, 0x0001, 0,
          vec![42, 182, 0, 19, 184, 0, 9, 176],
          &[(0, 8)],
          vec![blk(0, 8, vec![oth(0, 42), inv(1, 182, "java/lang/Object", "getClass", "()Ljava/lang/Class;"), inv(4, 184, "org/slf4j/LoggerFactory", "getLogger", "(Ljava/lang/Class;)Lorg/slf4j/Logger;"), oth(7, 176)])],
          &[],
          vec![],
          vec![])
      ]),
    cls("org/slf4j/Logger", Some("java/lang/Object"), &[], &["java/lang/Object"], Some("Logger.java"), false,
      vec![],
      vec![
        
      ]),
    cls("org/slf4j/LoggerFactory", Some("java/lang/Object"), &[], &["java/lang/Object"], Some("LoggerFactory.java"), false,
      vec![],
      vec![
        mth("<init>", "()V", None, 0x0001, 0,
          vec![42, 183, 0, 1, 177],
          &[(0, 3)],
          vec![blk(0, 5, vec![oth(0, 42), inv(1, 183, "java/lang/Object", "<init>", "()V"), oth(4, 177)])],
          &[],
          vec![],
          vec![]),
        mth("getLogger", "(Ljava/lang/Class;)Lorg/slf4j/Logger;", Some("(Ljava/lang/Class<*>;)Lorg/slf4j/Logger;"), 0x0009, 1,
          vec![1, 176],
          &[(0, 5)],
          vec![blk(0, 2, vec![oth(0, 1), oth(1, 176)])],
          &[],
          vec![],
          vec![lvt("clazz", "Ljava/lang/Class<*>;", 0, 0, 2)])
      ])
    ]
}

