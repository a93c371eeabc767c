use inspequte::ir::{
    BasicBlock, CallKind, CallSite, Class, ControlFlowGraph, EdgeKind, ExceptionHandler, Field,
    FieldAccess, FieldRef, FlowEdge, Instruction, InstructionKind, LineNumber, LocalVariableType,
    Method, MethodAccess, MethodNullness,
};
use inspequte::engine::{ArtifactInfo, Engine, EngineOutput, build_context};


fn compile_and_analyze_all(classes: &[Class]) -> EngineOutput {
    let context = build_context(classes.to_vec(), &[]);
    Engine::new().analyze(context).expect("run analysis")
}
fn deserialize_messages(output: &EngineOutput) -> Vec<String> {
    output
        .results
        .iter()
        .filter(|result| result.rule_id.as_deref() == Some("DESERIALIZATION_READ_OBJECT_CALL"))
        .filter_map(|result| Some(result.message.clone()))
        .collect()
}

fn cls(
    name: &str,
    super_name: Option<&str>,
    interfaces: &[&str],
    referenced: &[&str],
    source_file: Option<&str>,
    is_record: bool,
    fields: Vec<Field>,
    methods: Vec<Method>,
) -> Class {
    Class {
        name: name.to_string(),
        source_file: source_file.map(|s| s.to_string()),
        super_name: super_name.map(|s| s.to_string()),
        interfaces: interfaces.iter().map(|s| s.to_string()).collect(),
        referenced_classes: referenced.iter().map(|s| s.to_string()).collect(),
        fields,
        methods,
        artifact_index: 0,
        is_record,
    }
}

fn fldd(name: &str, descriptor: &str, signature: Option<&str>, flags: u16) -> Field {
    Field {
        name: name.to_string(),
        descriptor: descriptor.to_string(),
        signature: signature.map(|s| s.to_string()),
        access: FieldAccess {
            is_static: flags & 0x0008 != 0,
            is_private: flags & 0x0002 != 0,
            is_final: flags & 0x0010 != 0,
        },
    }
}

#[allow(clippy::too_many_arguments)]
fn mth(
    name: &str,
    descriptor: &str,
    signature: Option<&str>,
    flags: u16,
    param_count: usize,
    bytecode: Vec<u8>,
    lines: &[(u32, u32)],
    blocks: Vec<BasicBlock>,
    edges: &[(u32, u32, EdgeKind)],
    exception_handlers: Vec<ExceptionHandler>,
    local_variable_types: Vec<LocalVariableType>,
) -> Method {
    let mut instructions: Vec<&Instruction> = blocks.iter().flat_map(|b| b.instructions.iter()).collect();
    instructions.sort_by_key(|i| i.offset);
    let mut calls = Vec::new();
    let mut string_literals = Vec::new();
    for instruction in instructions {
        match &instruction.kind {
            InstructionKind::Invoke(call) => calls.push(call.clone()),
            InstructionKind::ConstString(value) => string_literals.push(value.clone()),
            _ => {}
        }
    }
    Method {
        name: name.to_string(),
        descriptor: descriptor.to_string(),
        signature: signature.map(|s| s.to_string()),
        access: MethodAccess {
            is_public: flags & 0x0001 != 0,
            is_static: flags & 0x0008 != 0,
            is_abstract: flags & 0x0400 != 0,
            is_synchronized: flags & 0x0020 != 0,
            is_bridge: flags & 0x0040 != 0,
            is_synthetic: flags & 0x1000 != 0,
        },
        nullness: MethodNullness::unknown(param_count),
        bytecode,
        line_numbers: lines
            .iter()
            .map(|(start_pc, line)| LineNumber { start_pc: *start_pc, line: *line })
            .collect(),
        cfg: ControlFlowGraph {
            blocks,
            edges: edges
                .iter()
                .map(|(from, to, kind)| FlowEdge { from: *from, to: *to, kind: *kind })
                .collect(),
        },
        calls,
        string_literals,
        exception_handlers,
        local_variable_types,
    }
}

fn blk(start_offset: u32, end_offset: u32, instructions: Vec<Instruction>) -> BasicBlock {
    BasicBlock { start_offset, end_offset, instructions }
}

fn hnd(start_pc: u32, end_pc: u32, handler_pc: u32, catch_type: Option<&str>) -> ExceptionHandler {
    ExceptionHandler { start_pc, end_pc, handler_pc, catch_type: catch_type.map(|s| s.to_string()) }
}

fn lvt(name: &str, signature: &str, index: u16, start_pc: u32, length: u32) -> LocalVariableType {
    LocalVariableType { name: name.to_string(), signature: signature.to_string(), index, start_pc, length }
}

fn inv(offset: u32, opcode: u8, owner: &str, name: &str, descriptor: &str) -> Instruction {
    let kind = match opcode {
        0xb6 => CallKind::Virtual,
        0xb7 => CallKind::Special,
        0xb8 => CallKind::Static,
        _ => CallKind::Interface,
    };
    Instruction {
        offset,
        opcode,
        kind: InstructionKind::Invoke(CallSite {
            owner: owner.to_string(),
            name: name.to_string(),
            descriptor: descriptor.to_string(),
            kind,
            offset,
        }),
    }
}

fn indy(offset: u32, descriptor: &str, impl_method: Option<&str>) -> Instruction {
    Instruction {
        offset,
        opcode: 0xba,
        kind: InstructionKind::InvokeDynamic {
            descriptor: descriptor.to_string(),
            impl_method: impl_method.map(|s| s.to_string()),
        },
    }
}

fn cstr(offset: u32, opcode: u8, value: &str) -> Instruction {
    Instruction { offset, opcode, kind: InstructionKind::ConstString(value.to_string()) }
}

fn ccls(offset: u32, opcode: u8, value: &str) -> Instruction {
    Instruction { offset, opcode, kind: InstructionKind::ConstClass(value.to_string()) }
}

fn cint(offset: u32, opcode: u8, value: i64) -> Instruction {
    Instruction { offset, opcode, kind: InstructionKind::ConstInt(value) }
}

fn fld(offset: u32, opcode: u8, owner: &str, name: &str, descriptor: &str) -> Instruction {
    Instruction {
        offset,
        opcode,
        kind: InstructionKind::FieldAccess(FieldRef {
            owner: owner.to_string(),
            name: name.to_string(),
            descriptor: descriptor.to_string(),
        }),
    }
}

fn oth(offset: u32, opcode: u8) -> Instruction {
    Instruction { offset, opcode, kind: InstructionKind::Other(opcode) }
}

#[test]
fn deserialization_read_object_call_reports_read_object() {
    let sources = ir_deserialization_read_object_call_reports_read_object();

    let output = compile_and_analyze_all(&sources);
    let messages = deserialize_messages(&output);
    assert!(
        messages
            .iter()
            .any(|msg| msg.contains("Avoid ObjectInputStream deserialization call")),
        "expected DESERIALIZATION_READ_OBJECT_CALL finding for readObject, got {messages:?}"
    );
}
#[test]
fn deserialization_read_object_call_reports_read_unshared() {
    let sources = ir_deserialization_read_object_call_reports_read_unshared();

    let output = compile_and_analyze_all(&sources);
    let messages = deserialize_messages(&output);
    assert!(
        messages
            .iter()
            .any(|msg| msg.contains("Avoid ObjectInputStream deserialization call")),
        "expected DESERIALIZATION_READ_OBJECT_CALL finding for readUnshared, got {messages:?}"
    );
}
#[test]
fn deserialization_read_object_call_ignores_non_deserialization_reads() {
    let sources = ir_deserialization_read_object_call_ignores_non_deserialization_reads();

    let output = compile_and_analyze_all(&sources);
    let messages = deserialize_messages(&output);
    assert!(
        messages.is_empty(),
        "did not expect DESERIALIZATION_READ_OBJECT_CALL finding for non-deserialization API: {messages:?}"
    );
}
fn ir_deserialization_read_object_call_reports_read_object() -> Vec<Class> {
    vec![
    cls("com/example/ClassA", Some("java/lang/Object"), &[], &["java/io/ObjectInputStream", "java/lang/Exception", "java/lang/Object"], Some("ClassA.java"), false,
      vec![],
      vec![
        mth("<init>", "()V", None, 0x0001, 0,
          vec![42, 183, 0, 1, 177],
          &[(0, 4)],
          vec![blk(0, 5, vec![oth(0, 42), inv(1, 183, "java/lang/Object", "<init>", "()V"), oth(4, 177)])],
          &[],
          vec![],
          vec![]),
        mth("methodX", "(Ljava/io/ObjectInputStream;)Ljava/lang/Object;", None, 0x0001, 1,
          vec![43, 182, 0, 7, 176],
          &[(0, 6)],
          vec![blk(0, 5, vec![oth(0, 43), inv(1, 182, "java/io/ObjectInputStream", "readObject", "()Ljava/lang/Object;"), oth(4, 176)])],
          &[],
          vec![],
          vec![])
      ])
    ]
}

fn ir_deserialization_read_object_call_reports_read_unshared() -> Vec<Class> {
    vec![
    cls("com/example/ClassB", Some("java/lang/Object"), &[], &["java/io/ObjectInputStream", "java/lang/Exception", "java/lang/Object"], Some("ClassB.java"), false,
      vec![],
      vec![
        mth("<init>", "()V", None, 0x0001, 0,
          vec![42, 183, 0, 1, 177],
          &[(0, 4)],
          vec![blk(0, 5, vec![oth(0, 42), inv(1, 183, "java/lang/Object", "<init>", "()V"), oth(4, 177)])],
          &[],
          vec![],
          vec![]),
        mth("methodY", "(Ljava/io/ObjectInputStream;)Ljava/lang/Object;", None, 0x0001, 1,
          vec![43, 182, 0, 7, 176],
          &[(0, 6)],
          vec![blk(0, 5, vec![oth(0, 43), inv(1, 182, "java/io/ObjectInputStream", "readUnshared", "()Ljava/lang/Object;"), oth(4, 176)])],
          &[],
          vec![],
          vec![])
      ])
    ]
}

fn ir_deserialization_read_object_call_ignores_non_deserialization_reads() -> Vec<Class> {
    vec![
    cls("com/example/ClassC", Some("java/lang/Object"), &[], &["java/io/DataInputStream", "java/lang/Exception", "java/lang/Object"], Some("ClassC.java"), false,
      vec![],
      vec![
        mth("<init>", "()V", None, 0x0001, 0,
          vec![42, 183, 0, 1, 177],
          &[(0, 4)],
          vec![blk(0, 5, vec![oth(0, 42), inv(1, 183, "java/lang/Object", "<init>", "()V"), oth(4, 177)])],
          &[],
          vec![],
          vec![]),
        mth("methodZ", "(Ljava/io/DataInputStream;)I", None, 0x0001, 1,
          vec![43, 182, 0, 7, 172],
          &[(0, 6)],
          vec![blk(0, 5, vec![oth(0, 43), inv(1, 182, "java/io/DataInputStream", "readInt", "()I"), oth(4, 172)])],
          &[],
          vec![],
          vec![])
      ])
    ]
}


fn analyze_with_classpath(app: Vec<Class>, classpath: Vec<Class>) -> EngineOutput {
    let mut classes = Vec::new();
    for mut class in app {
        class.artifact_index = 0;
        classes.push(class);
    }
    for mut class in classpath {
        class.artifact_index = 1;
        classes.push(class);
    }
    let artifacts = vec![
        ArtifactInfo {
            uri: Some("file:///tmp/app/classes".to_string()),
            parent_index: None,
            is_analysis_target: true,
        },
        ArtifactInfo {
            uri: Some("file:///tmp/classpath/classes".to_string()),
            parent_index: None,
            is_analysis_target: false,
        },
    ];
    let context = build_context(classes, &artifacts);
    Engine::new().analyze(context).expect("run analysis")
}

#[test]
fn deserialization_read_object_call_ignores_classpath_calls() {
    let analysis = analyze_with_classpath(ir_deserialization_read_object_call_ignores_classpath_calls_app(), ir_deserialization_read_object_call_ignores_classpath_calls_classpath());
    let messages = deserialize_messages(&analysis);
    assert!(
        messages.is_empty(),
        "classpath classes must be out of scope for DESERIALIZATION_READ_OBJECT_CALL: {messages:?}"
    );
}

fn ir_deserialization_read_object_call_ignores_classpath_calls_app() -> Vec<Class> {
    vec![
    cls("com/example/ClassA", Some("java/lang/Object"), &[], &["java/lang/Object"], Some("ClassA.java"), false,
      vec![],
      vec![
        mth("<init>", "()V", None, 0x0001, 0,
          vec![42, 183, 0, 1, 177],
          &[(0, 3)],
          vec![blk(0, 5, vec![oth(0, 42), inv(1, 183, "java/lang/Object", "<init>", "()V"), oth(4, 177)])],
          &[],
          vec![],
          vec![]),
        mth("methodX", "()V", None, 0x0001, 0,
          vec![177],
          &[(0, 4)],
          vec![blk(0, 1, vec![oth(0, 177)])],
          &[],
          vec![],
          vec![])
      ])
    ]
}

fn ir_deserialization_read_object_call_ignores_classpath_calls_classpath() -> Vec<Class> {
    vec![
    cls("com/example/ClassB", Some("java/lang/Object"), &[], &["java/io/ObjectInputStream", "java/lang/Exception", "java/lang/Object"], Some("ClassB.java"), false,
      vec![],
      vec![
        mth("<init>", "()V", None, 0x0001, 0,
          vec![42, 183, 0, 1, 177],
          &[(0, 4)],
          vec![blk(0, 5, vec![oth(0, 42), inv(1, 183, "java/lang/Object", "<init>", "()V"), oth(4, 177)])],
          &[],
          vec![],
          vec![]),
        mth("methodY", "(Ljava/io/ObjectInputStream;)Ljava/lang/Object;", None, 0x0001, 1,
          vec![43, 182, 0, 7, 176],
          &[(0, 6)],
          vec![blk(0, 5, vec![oth(0, 43), inv(1, 182, "java/io/ObjectInputStream", "readObject", "()Ljava/lang/Object;"), oth(4, 176)])],
          &[],
          vec![],
          vec![])
      ])
    ]
}
