use inspequte::ir::{
    BasicBlock, CallKind, CallSite, Class, ControlFlowGraph, EdgeKind, ExceptionHandler, Field,
    FieldAccess, FieldRef, FlowEdge, Instruction, InstructionKind, LineNumber, LocalVariableType,
    Method, MethodAccess, MethodNullness,
};
use inspequte::engine::{Engine, build_context};


fn analyze_sources(classes: Vec<Class>) -> Vec<String> {
    let context = build_context(classes, &[]);
    let output = Engine::new().analyze(context).expect("run analysis");
    output
        .results
        .iter()
        .filter(|result| result.rule_id.as_deref() == Some("MUTATE_UNMODIFIABLE_COLLECTION"))
        .map(|result| result.message.clone())
        .collect()
}


fn cls(
    name: &str,
    super_name: Option<&str>,
    interfaces: &[&str],
    referenced: &[&str],
    source_file: Option<&str>,
    is_record: bool,
    fields: Vec<Field>,
    methods: Vec<Method>,
) -> Class {
    Class {
        name: name.to_string(),
        source_file: source_file.map(|s| s.to_string()),
        super_name: super_name.map(|s| s.to_string()),
        interfaces: interfaces.iter().map(|s| s.to_string()).collect(),
        referenced_classes: referenced.iter().map(|s| s.to_string()).collect(),
        fields,
        methods,
        artifact_index: 0,
        is_record,
    }
}

fn fldd(name: &str, descriptor: &str, signature: Option<&str>, flags: u16) -> Field {
    Field {
        name: name.to_string(),
        descriptor: descriptor.to_string(),
        signature: signature.map(|s| s.to_string()),
        access: FieldAccess {
            is_static: flags & 0x0008 != 0,
            is_private: flags & 0x0002 != 0,
            is_final: flags & 0x0010 != 0,
        },
    }
}

#[allow(clippy::too_many_arguments)]
fn mth(
    name: &str,
    descriptor: &str,
    signature: Option<&str>,
    flags: u16,
    param_count: usize,
    bytecode: Vec<u8>,
    lines: &[(u32, u32)],
    blocks: Vec<BasicBlock>,
    edges: &[(u32, u32, EdgeKind)],
    exception_handlers: Vec<ExceptionHandler>,
    local_variable_types: Vec<LocalVariableType>,
) -> Method {
    let mut instructions: Vec<&Instruction> = blocks.iter().flat_map(|b| b.instructions.iter()).collect();
    instructions.sort_by_key(|i| i.offset);
    let mut calls = Vec::new();
    let mut string_literals = Vec::new();
    for instruction in instructions {
        match &instruction.kind {
            InstructionKind::Invoke(call) => calls.push(call.clone()),
            InstructionKind::ConstString(value) => string_literals.push(value.clone()),
            _ => {}
        }
    }
    Method {
        name: name.to_string(),
        descriptor: descriptor.to_string(),
        signature: signature.map(|s| s.to_string()),
        access: MethodAccess {
            is_public: flags & 0x0001 != 0,
            is_static: flags & 0x0008 != 0,
            is_abstract: flags & 0x0400 != 0,
            is_synchronized: flags & 0x0020 != 0,
            is_bridge: flags & 0x0040 != 0,
            is_synthetic: flags & 0x1000 != 0,
        },
        nullness: MethodNullness::unknown(param_count),
        bytecode,
        line_numbers: lines
            .iter()
            .map(|(start_pc, line)| LineNumber { start_pc: *start_pc, line: *line })
            .collect(),
        cfg: ControlFlowGraph {
            blocks,
            edges: edges
                .iter()
                .map(|(from, to, kind)| FlowEdge { from: *from, to: *to, kind: *kind })
                .collect(),
        },
        calls,
        string_literals,
        exception_handlers,
        local_variable_types,
    }
}

fn blk(start_offset: u32, end_offset: u32, instructions: Vec<Instruction>) -> BasicBlock {
    BasicBlock { start_offset, end_offset, instructions }
}

fn hnd(start_pc: u32, end_pc: u32, handler_pc: u32, catch_type: Option<&str>) -> ExceptionHandler {
    ExceptionHandler { start_pc, end_pc, handler_pc, catch_type: catch_type.map(|s| s.to_string()) }
}

fn lvt(name: &str, signature: &str, index: u16, start_pc: u32, length: u32) -> LocalVariableType {
    LocalVariableType { name: name.to_string(), signature: signature.to_string(), index, start_pc, length }
}

fn inv(offset: u32, opcode: u8, owner: &str, name: &str, descriptor: &str) -> Instruction {
    let kind = match opcode {
        0xb6 => CallKind::Virtual,
        0xb7 => CallKind::Special,
        0xb8 => CallKind::Static,
        _ => CallKind::Interface,
    };
    Instruction {
        offset,
        opcode,
        kind: InstructionKind::Invoke(CallSite {
            owner: owner.to_string(),
            name: name.to_string(),
            descriptor: descriptor.to_string(),
            kind,
            offset,
        }),
    }
}

fn indy(offset: u32, descriptor: &str, impl_method: Option<&str>) -> Instruction {
    Instruction {
        offset,
        opcode: 0xba,
        kind: InstructionKind::InvokeDynamic {
            descriptor: descriptor.to_string(),
            impl_method: impl_method.map(|s| s.to_string()),
        },
    }
}

fn cstr(offset: u32, opcode: u8, value: &str) -> Instruction {
    Instruction { offset, opcode, kind: InstructionKind::ConstString(value.to_string()) }
}

fn ccls(offset: u32, opcode: u8, value: &str) -> Instruction {
    Instruction { offset, opcode, kind: InstructionKind::ConstClass(value.to_string()) }
}

fn cint(offset: u32, opcode: u8, value: i64) -> Instruction {
    Instruction { offset, opcode, kind: InstructionKind::ConstInt(value) }
}

fn fld(offset: u32, opcode: u8, owner: &str, name: &str, descriptor: &str) -> Instruction {
    Instruction {
        offset,
        opcode,
        kind: InstructionKind::FieldAccess(FieldRef {
            owner: owner.to_string(),
            name: name.to_string(),
            descriptor: descriptor.to_string(),
        }),
    }
}

fn oth(offset: u32, opcode: u8) -> Instruction {
    Instruction { offset, opcode, kind: InstructionKind::Other(opcode) }
}

#[test]
fn mutate_unmodifiable_collection_reports_list_of_mutation() {
    let sources = ir_mutate_unmodifiable_collection_reports_list_of_mutation();

    let messages = analyze_sources(sources);
    assert_eq!(messages.len(), 1);
    assert!(messages[0].contains("mutable copy"));
}
#[test]
fn mutate_unmodifiable_collection_reports_collections_wrapper_mutation() {
    let sources = ir_mutate_unmodifiable_collection_reports_collections_wrapper_mutation();

    let messages = analyze_sources(sources);
    assert_eq!(messages.len(), 1);
    assert!(messages[0].contains("methodY"));
}
#[test]
fn mutate_unmodifiable_collection_ignores_mutable_copy() {
    let sources = ir_mutate_unmodifiable_collection_ignores_mutable_copy();

    let messages = analyze_sources(sources);
    assert!(messages.is_empty());
}
#[test]
fn mutate_unmodifiable_collection_reports_only_unmodifiable_receiver() {
    let sources = ir_mutate_unmodifiable_collection_reports_only_unmodifiable_receiver();

    let messages = analyze_sources(sources);
    assert_eq!(messages.len(), 1);
    assert!(messages[0].contains("methodW"));
}
fn ir_mutate_unmodifiable_collection_reports_list_of_mutation() -> Vec<Class> {
    vec![
    cls("com/example/ClassA", Some("java/lang/Object"), &[], &["java/lang/Object", "java/util/List"], Some("ClassA.java"), false,
      vec![],
      vec![
        mth("<init>", "()V", None, 0x0001, 0,
          vec![42, 183, 0, 1, 177],
          &[(0, 6)],
          vec![blk(0, 5, vec![oth(0, 42), inv(1, 183, "java/lang/Object", "<init>", "()V"), oth(4, 177)])],
          &[],
          vec![],
          vec![]),
        mth("methodX", "()V", None, 0x0001, 0,
          vec![18, 7, 184, 0, 9, 76, 43, 18, 15, 185, 0, 17, 2, 0, 87, 177],
          &[(0, 8), (6, 9), (15, 10)],
          vec![blk(0, 16, vec![cstr(0, 18, "tmpValue"), inv(2, 184, "java/util/List", "of", "(Ljava/lang/Object;)Ljava/util/List;"), oth(5, 76), oth(6, 43), cstr(7, 18, "varTwo"), inv(9, 185, "java/util/List", "add", "(Ljava/lang/Object;)Z"), oth(14, 87), oth(15, 177)])],
          &[],
          vec![],
          vec![lvt("varOne", "Ljava/util/List<Ljava/lang/String;>;", 1, 6, 10)])
      ])
    ]
}

fn ir_mutate_unmodifiable_collection_reports_collections_wrapper_mutation() -> Vec<Class> {
    vec![
    cls("com/example/ClassB", Some("java/lang/Object"), &[], &["java/lang/Object", "java/util/ArrayList", "java/util/Collections", "java/util/List"], Some("ClassB.java"), false,
      vec![],
      vec![
        mth("<init>", "()V", None, 0x0001, 0,
          vec![42, 183, 0, 1, 177],
          &[(0, 8)],
          vec![blk(0, 5, vec![oth(0, 42), inv(1, 183, "java/lang/Object", "<init>", "()V"), oth(4, 177)])],
          &[],
          vec![],
          vec![]),
        mth("methodY", "()V", None, 0x0001, 0,
          vec![187, 0, 7, 89, 183, 0, 9, 184, 0, 10, 76, 43, 18, 16, 185, 0, 18, 2, 0, 87, 177],
          &[(0, 10), (11, 11), (20, 12)],
          vec![blk(0, 21, vec![oth(0, 187), oth(3, 89), inv(4, 183, "java/util/ArrayList", "<init>", "()V"), inv(7, 184, "java/util/Collections", "unmodifiableList", "(Ljava/util/List;)Ljava/util/List;"), oth(10, 76), oth(11, 43), cstr(12, 18, "varTwo"), inv(14, 185, "java/util/List", "add", "(Ljava/lang/Object;)Z"), oth(19, 87), oth(20, 177)])],
          &[],
          vec![],
          vec![lvt("varOne", "Ljava/util/List<Ljava/lang/String;>;", 1, 11, 10)])
      ])
    ]
}

fn ir_mutate_unmodifiable_collection_ignores_mutable_copy() -> Vec<Class> {
    vec![
    cls("com/example/ClassC", Some("java/lang/Object"), &[], &["java/lang/Object", "java/util/ArrayList", "java/util/List"], Some("ClassC.java"), false,
      vec![],
      vec![
        mth("<init>", "()V", None, 0x0001, 0,
          vec![42, 183, 0, 1, 177],
          &[(0, 7)],
          vec![blk(0, 5, vec![oth(0, 42), inv(1, 183, "java/lang/Object", "<init>", "()V"), oth(4, 177)])],
          &[],
          vec![],
          vec![]),
        mth("methodZ", "()V", None, 0x0001, 0,
          vec![187, 0, 7, 89, 18, 9, 184, 0, 11, 183, 0, 17, 76, 43, 18, 20, 185, 0, 22, 2, 0, 87, 177],
          &[(0, 9), (13, 10), (22, 11)],
          vec![blk(0, 23, vec![oth(0, 187), oth(3, 89), cstr(4, 18, "tmpValue"), inv(6, 184, "java/util/List", "of", "(Ljava/lang/Object;)Ljava/util/List;"), inv(9, 183, "java/util/ArrayList", "<init>", "(Ljava/util/Collection;)V"), oth(12, 76), oth(13, 43), cstr(14, 18, "varTwo"), inv(16, 185, "java/util/List", "add", "(Ljava/lang/Object;)Z"), oth(21, 87), oth(22, 177)])],
          &[],
          vec![],
          vec![lvt("varOne", "Ljava/util/List<Ljava/lang/String;>;", 1, 13, 10)])
      ])
    ]
}

fn ir_mutate_unmodifiable_collection_reports_only_unmodifiable_receiver() -> Vec<Class> {
    vec![
    cls("com/example/ClassD", Some("java/lang/Object"), &[], &["java/lang/Object", "java/util/ArrayList", "java/util/List", "java/util/Set"], Some("ClassD.java"), false,
      vec![],
      vec![
        mth("<init>", "()V", None, 0x0001, 0,
          vec![42, 183, 0, 1, 177],
          &[(0, 8)],
          vec![blk(0, 5, vec![oth(0, 42), inv(1, 183, "java/lang/Object", "<init>", "()V"), oth(4, 177)])],
          &[],
          vec![],
          vec![]),
        mth("methodW", "()V", None, 0x0001, 0,
          vec![18, 7, 184, 0, 9, 76, 43, 18, 7, 185, 0, 15, 2, 0, 87, 187, 0, 19, 89, 183, 0, 21, 77, 44, 18, 22, 185, 0, 24, 2, 0, 87, 177],
          &[(0, 10), (6, 11), (15, 13), (23, 14), (32, 15)],
          vec![blk(0, 33, vec![cstr(0, 18, "tmpValue"), inv(2, 184, "java/util/Set", "of", "(Ljava/lang/Object;)Ljava/util/Set;"), oth(5, 76), oth(6, 43), cstr(7, 18, "tmpValue"), inv(9, 185, "java/util/Set", "remove", "(Ljava/lang/Object;)Z"), oth(14, 87), oth(15, 187), oth(18, 89), inv(19, 183, "java/util/ArrayList", "<init>", "()V"), oth(22, 77), oth(23, 44), cstr(24, 18, "varThree"), inv(26, 185, "java/util/List", "add", "(Ljava/lang/Object;)Z"), oth(31, 87), oth(32, 177)])],
          &[],
          vec![],
          vec![lvt("varOne", "Ljava/util/Set<Ljava/lang/String;>;", 1, 6, 27), lvt("varTwo", "Ljava/util/List<Ljava/lang/String;>;", 2, 23, 10)])
      ])
    ]
}

