use inspequte::ir::{
    BasicBlock, CallKind, CallSite, Class, ControlFlowGraph, EdgeKind, ExceptionHandler, Field,
    FieldAccess, FieldRef, FlowEdge, Instruction, InstructionKind, LineNumber, LocalVariableType,
    Method, MethodAccess, MethodNullness,
};
use inspequte::engine::{build_context, tag_findings};
use inspequte::report::sort_findings;
use inspequte::rules::record_array_field::RecordArrayFieldRule;


fn analyze_sources(classes: Vec<Class>) -> Vec<String> {
    let context = build_context(classes, &[]);
    let findings = RecordArrayFieldRule.run(&context).expect("run rule");
    let tagged = tag_findings(findings, "RECORD_ARRAY_FIELD");
    sort_findings(tagged)
        .iter()
        .map(|result| result.message.clone())
        .collect()
}


fn cls(
    name: &str,
    super_name: Option<&str>,
    interfaces: &[&str],
    referenced: &[&str],
    source_file: Option<&str>,
    is_record: bool,
    fields: Vec<Field>,
    methods: Vec<Method>,
) -> Class {
    Class {
        name: name.to_string(),
        source_file: source_file.map(|s| s.to_string()),
        super_name: super_name.map(|s| s.to_string()),
        interfaces: interfaces.iter().map(|s| s.to_string()).collect(),
        referenced_classes: referenced.iter().map(|s| s.to_string()).collect(),
        fields,
        methods,
        artifact_index: 0,
        is_record,
    }
}

fn fldd(name: &str, descriptor: &str, signature: Option<&str>, flags: u16) -> Field {
    Field {
        name: name.to_string(),
        descriptor: descriptor.to_string(),
        signature: signature.map(|s| s.to_string()),
        access: FieldAccess {
            is_static: flags & 0x0008 != 0,
            is_private: flags & 0x0002 != 0,
            is_final: flags & 0x0010 != 0,
        },
    }
}

#[allow(clippy::too_many_arguments)]
fn mth(
    name: &str,
    descriptor: &str,
    signature: Option<&str>,
    flags: u16,
    param_count: usize,
    bytecode: Vec<u8>,
    lines: &[(u32, u32)],
    blocks: Vec<BasicBlock>,
    edges: &[(u32, u32, EdgeKind)],
    exception_handlers: Vec<ExceptionHandler>,
    local_variable_types: Vec<LocalVariableType>,
) -> Method {
    let mut instructions: Vec<&Instruction> = blocks.iter().flat_map(|b| b.instructions.iter()).collect();
    instructions.sort_by_key(|i| i.offset);
    let mut calls = Vec::new();
    let mut string_literals = Vec::new();
    for instruction in instructions {
        match &instruction.kind {
            InstructionKind::Invoke(call) => calls.push(call.clone()),
            InstructionKind::ConstString(value) => string_literals.push(value.clone()),
            _ => {}
        }
    }
    Method {
        name: name.to_string(),
        descriptor: descriptor.to_string(),
        signature: signature.map(|s| s.to_string()),
        access: MethodAccess {
            is_public: flags & 0x0001 != 0,
            is_static: flags & 0x0008 != 0,
            is_abstract: flags & 0x0400 != 0,
            is_synchronized: flags & 0x0020 != 0,
            is_bridge: flags & 0x0040 != 0,
            is_synthetic: flags & 0x1000 != 0,
        },
        nullness: MethodNullness::unknown(param_count),
        bytecode,
        line_numbers: lines
            .iter()
            .map(|(start_pc, line)| LineNumber { start_pc: *start_pc, line: *line })
            .collect(),
        cfg: ControlFlowGraph {
            blocks,
            edges: edges
                .iter()
                .map(|(from, to, kind)| FlowEdge { from: *from, to: *to, kind: *kind })
                .collect(),
        },
        calls,
        string_literals,
        exception_handlers,
        local_variable_types,
    }
}

fn blk(start_offset: u32, end_offset: u32, instructions: Vec<Instruction>) -> BasicBlock {
    BasicBlock { start_offset, end_offset, instructions }
}

fn hnd(start_pc: u32, end_pc: u32, handler_pc: u32, catch_type: Option<&str>) -> ExceptionHandler {
    ExceptionHandler { start_pc, end_pc, handler_pc, catch_type: catch_type.map(|s| s.to_string()) }
}

fn lvt(name: &str, signature: &str, index: u16, start_pc: u32, length: u32) -> LocalVariableType {
    LocalVariableType { name: name.to_string(), signature: signature.to_string(), index, start_pc, length }
}

fn inv(offset: u32, opcode: u8, owner: &str, name: &str, descriptor: &str) -> Instruction {
    let kind = match opcode {
        0xb6 => CallKind::Virtual,
        0xb7 => CallKind::Special,
        0xb8 => CallKind::Static,
        _ => CallKind::Interface,
    };
    Instruction {
        offset,
        opcode,
        kind: InstructionKind::Invoke(CallSite {
            owner: owner.to_string(),
            name: name.to_string(),
            descriptor: descriptor.to_string(),
            kind,
            offset,
        }),
    }
}

fn indy(offset: u32, descriptor: &str, impl_method: Option<&str>) -> Instruction {
    Instruction {
        offset,
        opcode: 0xba,
        kind: InstructionKind::InvokeDynamic {
            descriptor: descriptor.to_string(),
            impl_method: impl_method.map(|s| s.to_string()),
        },
    }
}

fn cstr(offset: u32, opcode: u8, value: &str) -> Instruction {
    Instruction { offset, opcode, kind: InstructionKind::ConstString(value.to_string()) }
}

fn ccls(offset: u32, opcode: u8, value: &str) -> Instruction {
    Instruction { offset, opcode, kind: InstructionKind::ConstClass(value.to_string()) }
}

fn cint(offset: u32, opcode: u8, value: i64) -> Instruction {
    Instruction { offset, opcode, kind: InstructionKind::ConstInt(value) }
}

fn fld(offset: u32, opcode: u8, owner: &str, name: &str, descriptor: &str) -> Instruction {
    Instruction {
        offset,
        opcode,
        kind: InstructionKind::FieldAccess(FieldRef {
            owner: owner.to_string(),
            name: name.to_string(),
            descriptor: descriptor.to_string(),
        }),
    }
}

fn oth(offset: u32, opcode: u8) -> Instruction {
    Instruction { offset, opcode, kind: InstructionKind::Other(opcode) }
}

#[test]
fn record_array_field_reports_array_component() {
    let sources = ir_record_array_field_reports_array_component();
    let messages = analyze_sources(sources);
    assert!(messages.iter().any(|msg| msg.contains("array type")));
}
#[test]
fn record_array_field_ignores_non_array_component() {
    let sources = ir_record_array_field_ignores_non_array_component();
    let messages = analyze_sources(sources);
    assert!(messages.is_empty());
}
#[test]
fn record_array_field_ignores_non_record_class() {
    let sources = ir_record_array_field_ignores_non_record_class();
    let messages = analyze_sources(sources);
    assert!(messages.is_empty());
}
#[test]
fn record_array_field_ignores_static_array_field() {
    let sources = ir_record_array_field_ignores_static_array_field();
    let messages = analyze_sources(sources);
    assert!(messages.is_empty());
}
fn ir_record_array_field_reports_array_component() -> Vec<Class> {
    vec![
    cls("com/example/ClassA", Some("java/lang/Record"), &[], &["java/lang/Record", "java/lang/invoke/MethodHandles", "java/lang/invoke/MethodHandles$Lookup", "java/lang/runtime/ObjectMethods"], Some("ClassA.java"), true,
      vec![fldd("varOne", "[Ljava/lang/String;", None, 0x0012)],
      vec![
        mth("<init>", "([Ljava/lang/String;)V", None, 0x0001, 1,
          vec![42, 183, 0, 1, 42, 43, 181, 0, 7, 177],
          &[(0, 3)],
          vec![blk(0, 10, vec![oth(0, 42), inv(1, 183, "java/lang/Record", "<init>", "()V"), oth(4, 42), oth(5, 43), fld(6, 181, "com/example/ClassA", "varOne", "[Ljava/lang/String;"), oth(9, 177)])],
          &[],
          vec![],
          vec![]),
        mth("toString", "()Ljava/lang/String;", None, 0x0011, 0,
          vec![42, 186, 0, 13, 0, 0, 176],
          &[(0, 3)],
          vec![blk(0, 7, vec![oth(0, 42), indy(1, "(Lcom/example/ClassA;)Ljava/lang/String;", Some("varOne")), oth(6, 176)])],
          &[],
          vec![],
          vec![]),
        mth("hashCode", "()I", None, 0x0011, 0,
          vec![42, 186, 0, 17, 0, 0, 172],
          &[(0, 3)],
          vec![blk(0, 7, vec![oth(0, 42), indy(1, "(Lcom/example/ClassA;)I", Some("varOne")), oth(6, 172)])],
          &[],
          vec![],
          vec![]),
        mth("equals", "(Ljava/lang/Object;)Z", None, 0x0011, 1,
          vec![42, 43, 186, 0, 21, 0, 0, 172],
          &[(0, 3)],
          vec![blk(0, 8, vec![oth(0, 42), oth(1, 43), indy(2, "(Lcom/example/ClassA;Ljava/lang/Object;)Z", Some("varOne")), oth(7, 172)])],
          &[],
          vec![],
          vec![]),
        mth("varOne", "()[Ljava/lang/String;", None, 0x0001, 0,
          vec![42, 180, 0, 7, 176],
          &[(0, 3)],
          vec![blk(0, 5, vec![oth(0, 42), fld(1, 180, "com/example/ClassA", "varOne", "[Ljava/lang/String;"), oth(4, 176)])],
          &[],
          vec![],
          vec![])
      ])
    ]
}

fn ir_record_array_field_ignores_non_array_component() -> Vec<Class> {
    vec![
    cls("com/example/ClassB", Some("java/lang/Record"), &[], &["java/lang/Record", "java/lang/invoke/MethodHandles", "java/lang/invoke/MethodHandles$Lookup", "java/lang/runtime/ObjectMethods"], Some("ClassB.java"), true,
      vec![fldd("varOne", "Ljava/lang/String;", None, 0x0012)],
      vec![
        mth("<init>", "(Ljava/lang/String;)V", None, 0x0001, 1,
          vec![42, 183, 0, 1, 42, 43, 181, 0, 7, 177],
          &[(0, 3)],
          vec![blk(0, 10, vec![oth(0, 42), inv(1, 183, "java/lang/Record", "<init>", "()V"), oth(4, 42), oth(5, 43), fld(6, 181, "com/example/ClassB", "varOne", "Ljava/lang/String;"), oth(9, 177)])],
          &[],
          vec![],
          vec![]),
        mth("toString", "()Ljava/lang/String;", None, 0x0011, 0,
          vec![42, 186, 0, 13, 0, 0, 176],
          &[(0, 3)],
          vec![blk(0, 7, vec![oth(0, 42), indy(1, "(Lcom/example/ClassB;)Ljava/lang/String;", Some("varOne")), oth(6, 176)])],
          &[],
          vec![],
          vec![]),
        mth("hashCode", "()I", None, 0x0011, 0,
          vec![42, 186, 0, 17, 0, 0, 172],
          &[(0, 3)],
          vec![blk(0, 7, vec![oth(0, 42), indy(1, "(Lcom/example/ClassB;)I", Some("varOne")), oth(6, 172)])],
          &[],
          vec![],
          vec![]),
        mth("equals", "(Ljava/lang/Object;)Z", None, 0x0011, 1,
          vec![42, 43, 186, 0, 21, 0, 0, 172],
          &[(0, 3)],
          vec![blk(0, 8, vec![oth(0, 42), oth(1, 43), indy(2, "(Lcom/example/ClassB;Ljava/lang/Object;)Z", Some("varOne")), oth(7, 172)])],
          &[],
          vec![],
          vec![]),
        mth("varOne", "()Ljava/lang/String;", None, 0x0001, 0,
          vec![42, 180, 0, 7, 176],
          &[(0, 3)],
          vec![blk(0, 5, vec![oth(0, 42), fld(1, 180, "com/example/ClassB", "varOne", "Ljava/lang/String;"), oth(4, 176)])],
          &[],
          vec![],
          vec![])
      ])
    ]
}

fn ir_record_array_field_ignores_non_record_class() -> Vec<Class> {
    vec![
    cls("com/example/ClassC", Some("java/lang/Object"), &[], &["java/lang/Object"], Some("ClassC.java"), false,
      vec![fldd("fieldA", "[Ljava/lang/String;", None, 0x0012)],
      vec![
        mth("<init>", "([Ljava/lang/String;)V", None, 0x0001, 1,
          vec![42, 183, 0, 1, 42, 43, 181, 0, 7, 177],
          &[(0, 5), (4, 6), (9, 7)],
          vec![blk(0, 10, vec![oth(0, 42), inv(1, 183, "java/lang/Object", "<init>", "()V"), oth(4, 42), oth(5, 43), fld(6, 181, "com/example/ClassC", "fieldA", "[Ljava/lang/String;"), oth(9, 177)])],
          &[],
          vec![],
          vec![])
      ])
    ]
}

fn ir_record_array_field_ignores_static_array_field() -> Vec<Class> {
    vec![
    cls("com/example/ClassD", Some("java/lang/Record"), &[], &["java/lang/Record", "java/lang/String", "java/lang/invoke/MethodHandles", "java/lang/invoke/MethodHandles$Lookup", "java/lang/runtime/ObjectMethods"], Some("ClassD.java"), true,
      vec![fldd("varOne", "Ljava/lang/String;", None, 0x0012), fldd("FIELD_A", "[Ljava/lang/String;", None, 0x0019)],
      vec![
        mth("<init>", "(Ljava/lang/String;)V", None, 0x0001, 1,
          vec![42, 183, 0, 1, 42, 43, 181, 0, 7, 177],
          &[(0, 3)],
          vec![blk(0, 10, vec![oth(0, 42), inv(1, 183, "java/lang/Record", "<init>", "()V"), oth(4, 42), oth(5, 43), fld(6, 181, "com/example/ClassD", "varOne", "Ljava/lang/String;"), oth(9, 177)])],
          &[],
          vec![],
          vec![]),
        mth("toString", "()Ljava/lang/String;", None, 0x0011, 0,
          vec![42, 186, 0, 13, 0, 0, 176],
          &[(0, 3)],
          vec![blk(0, 7, vec![oth(0, 42), indy(1, "(Lcom/example/ClassD;)Ljava/lang/String;", Some("varOne")), oth(6, 176)])],
          &[],
          vec![],
          vec![]),
        mth("hashCode", "()I", None, 0x0011, 0,
          vec![42, 186, 0, 17, 0, 0, 172],
          &[(0, 3)],
          vec![blk(0, 7, vec![oth(0, 42), indy(1, "(Lcom/example/ClassD;)I", Some("varOne")), oth(6, 172)])],
          &[],
          vec![],
          vec![]),
        mth("equals", "(Ljava/lang/Object;)Z", None, 0x0011, 1,
          vec![42, 43, 186, 0, 21, 0, 0, 172],
          &[(0, 3)],
          vec![blk(0, 8, vec![oth(0, 42), oth(1, 43), indy(2, "(Lcom/example/ClassD;Ljava/lang/Object;)Z", Some("varOne")), oth(7, 172)])],
          &[],
          vec![],
          vec![]),
        mth("varOne", "()Ljava/lang/String;", None, 0x0001, 0,
          vec![42, 180, 0, 7, 176],
          &[(0, 3)],
          vec![blk(0, 5, vec![oth(0, 42), fld(1, 180, "com/example/ClassD", "varOne", "Ljava/lang/String;"), oth(4, 176)])],
          &[],
          vec![],
          vec![]),
        mth("<clinit>", "()V", None, 0x0008, 0,
          vec![4, 189, 0, 25, 89, 3, 18, 27, 83, 179, 0, 29, 177],
          &[(0, 4)],
          vec![blk(0, 13, vec![cint(0, 4, 1), oth(1, 189), oth(4, 89), cint(5, 3, 0), cstr(6, 18, "a"), oth(8, 83), fld(9, 179, "com/example/ClassD", "FIELD_A", "[Ljava/lang/String;"), oth(12, 177)])],
          &[],
          vec![],
          vec![])
      ])
    ]
}

