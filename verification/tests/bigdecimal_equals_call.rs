use inspequte::ir::{
    BasicBlock, CallKind, CallSite, Class, ControlFlowGraph, EdgeKind, ExceptionHandler, Field,
    FieldAccess, FieldRef, FlowEdge, Instruction, InstructionKind, LineNumber, LocalVariableType,
    Method, MethodAccess, MethodNullness,
};
use inspequte::engine::{ArtifactInfo, Engine, EngineOutput, build_context};


fn compile_and_analyze_all(classes: &[Class]) -> EngineOutput {
    let context = build_context(classes.to_vec(), &[]);
    Engine::new().analyze(context).expect("run analysis")
}
fn bigdecimal_equals_messages(output: &EngineOutput) -> Vec<String> {
    output
        .results
        .iter()
        .filter(|result| result.rule_id.as_deref() == Some("BIGDECIMAL_EQUALS_CALL"))
        .filter_map(|result| Some(result.message.clone()))
        .collect()
}

fn cls(
    name: &str,
    super_name: Option<&str>,
    interfaces: &[&str],
    referenced: &[&str],
    source_file: Option<&str>,
    is_record: bool,
    fields: Vec<Field>,
    methods: Vec<Method>,
) -> Class {
    Class {
        name: name.to_string(),
        source_file: source_file.map(|s| s.to_string()),
        super_name: super_name.map(|s| s.to_string()),
        interfaces: interfaces.iter().map(|s| s.to_string()).collect(),
        referenced_classes: referenced.iter().map(|s| s.to_string()).collect(),
        fields,
        methods,
        artifact_index: 0,
        is_record,
    }
}

fn fldd(name: &str, descriptor: &str, signature: Option<&str>, flags: u16) -> Field {
    Field {
        name: name.to_string(),
        descriptor: descriptor.to_string(),
        signature: signature.map(|s| s.to_string()),
        access: FieldAccess {
            is_static: flags & 0x0008 != 0,
            is_private: flags & 0x0002 != 0,
            is_final: flags & 0x0010 != 0,
        },
    }
}

#[allow(clippy::too_many_arguments)]
fn mth(
    name: &str,
    descriptor: &str,
    signature: Option<&str>,
    flags: u16,
    param_count: usize,
    bytecode: Vec<u8>,
    lines: &[(u32, u32)],
    blocks: Vec<BasicBlock>,
    edges: &[(u32, u32, EdgeKind)],
    exception_handlers: Vec<ExceptionHandler>,
    local_variable_types: Vec<LocalVariableType>,
) -> Method {
    let mut instructions: Vec<&Instruction> = blocks.iter().flat_map(|b| b.instructions.iter()).collect();
    instructions.sort_by_key(|i| i.offset);
    let mut calls = Vec::new();
    let mut string_literals = Vec::new();
    for instruction in instructions {
        match &instruction.kind {
            InstructionKind::Invoke(call) => calls.push(call.clone()),
            InstructionKind::ConstString(value) => string_literals.push(value.clone()),
            _ => {}
        }
    }
    Method {
        name: name.to_string(),
        descriptor: descriptor.to_string(),
        signature: signature.map(|s| s.to_string()),
        access: MethodAccess {
            is_public: flags & 0x0001 != 0,
            is_static: flags & 0x0008 != 0,
            is_abstract: flags & 0x0400 != 0,
            is_synchronized: flags & 0x0020 != 0,
            is_bridge: flags & 0x0040 != 0,
            is_synthetic: flags & 0x1000 != 0,
        },
        nullness: MethodNullness::unknown(param_count),
        bytecode,
        line_numbers: lines
            .iter()
            .map(|(start_pc, line)| LineNumber { start_pc: *start_pc, line: *line })
            .collect(),
        cfg: ControlFlowGraph {
            blocks,
            edges: edges
                .iter()
                .map(|(from, to, kind)| FlowEdge { from: *from, to: *to, kind: *kind })
                .collect(),
        },
        calls,
        string_literals,
        exception_handlers,
        local_variable_types,
    }
}

fn blk(start_offset: u32, end_offset: u32, instructions: Vec<Instruction>) -> BasicBlock {
    BasicBlock { start_offset, end_offset, instructions }
}

fn hnd(start_pc: u32, end_pc: u32, handler_pc: u32, catch_type: Option<&str>) -> ExceptionHandler {
    ExceptionHandler { start_pc, end_pc, handler_pc, catch_type: catch_type.map(|s| s.to_string()) }
}

fn lvt(name: &str, signature: &str, index: u16, start_pc: u32, length: u32) -> LocalVariableType {
    LocalVariableType { name: name.to_string(), signature: signature.to_string(), index, start_pc, length }
}

fn inv(offset: u32, opcode: u8, owner: &str, name: &str, descriptor: &str) -> Instruction {
    let kind = match opcode {
        0xb6 => CallKind::Virtual,
        0xb7 => CallKind::Special,
        0xb8 => CallKind::Static,
        _ => CallKind::Interface,
    };
    Instruction {
        offset,
        opcode,
        kind: InstructionKind::Invoke(CallSite {
            owner: owner.to_string(),
            name: name.to_string(),
            descriptor: descriptor.to_string(),
            kind,
            offset,
        }),
    }
}

fn indy(offset: u32, descriptor: &str, impl_method: Option<&str>) -> Instruction {
    Instruction {
        offset,
        opcode: 0xba,
        kind: InstructionKind::InvokeDynamic {
            descriptor: descriptor.to_string(),
            impl_method: impl_method.map(|s| s.to_string()),
        },
    }
}

fn cstr(offset: u32, opcode: u8, value: &str) -> Instruction {
    Instruction { offset, opcode, kind: InstructionKind::ConstString(value.to_string()) }
}

fn ccls(offset: u32, opcode: u8, value: &str) -> Instruction {
    Instruction { offset, opcode, kind: InstructionKind::ConstClass(value.to_string()) }
}

fn cint(offset: u32, opcode: u8, value: i64) -> Instruction {
    Instruction { offset, opcode, kind: InstructionKind::ConstInt(value) }
}

fn fld(offset: u32, opcode: u8, owner: &str, name: &str, descriptor: &str) -> Instruction {
    Instruction {
        offset,
        opcode,
        kind: InstructionKind::FieldAccess(FieldRef {
            owner: owner.to_string(),
            name: name.to_string(),
            descriptor: descriptor.to_string(),
        }),
    }
}

fn oth(offset: u32, opcode: u8) -> Instruction {
    Instruction { offset, opcode, kind: InstructionKind::Other(opcode) }
}

#[test]
fn bigdecimal_equals_call_reports_equals_usage() {
    let sources = ir_bigdecimal_equals_call_reports_equals_usage();

    let output = compile_and_analyze_all(&sources);
    let messages = bigdecimal_equals_messages(&output);
    assert!(
        messages
            .iter()
            .any(|msg| msg.contains("Avoid BigDecimal.equals()")),
        "expected BIGDECIMAL_EQUALS_CALL finding, got {messages:?}"
    );
}
#[test]
fn bigdecimal_equals_call_ignores_compare_to() {
    let sources = ir_bigdecimal_equals_call_ignores_compare_to();

    let output = compile_and_analyze_all(&sources);
    let messages = bigdecimal_equals_messages(&output);
    assert!(
        messages.is_empty(),
        "did not expect BIGDECIMAL_EQUALS_CALL finding for compareTo(): {messages:?}"
    );
}
fn ir_bigdecimal_equals_call_reports_equals_usage() -> Vec<Class> {
    vec![
    cls("com/example/ClassA", Some("java/lang/Object"), &[], &["java/lang/Object", "java/math/BigDecimal"], Some("ClassA.java"), false,
      vec![],
      vec![
        mth("<init>", "()V", None, 0x0001, 0,
          vec![42, 183, 0, 1, 177],
          &[(0, 4)],
          vec![blk(0, 5, vec![oth(0, 42), inv(1, 183, "java/lang/Object", "<init>", "()V"), oth(4, 177)])],
          &[],
          vec![],
          vec![]),
        mth("methodX", "(Ljava/math/BigDecimal;Ljava/math/BigDecimal;)Z", None, 0x0001, 2,
          vec![43, 44, 182, 0, 7, 172],
          &[(0, 6)],
          vec![blk(0, 6, vec![oth(0, 43), oth(1, 44), inv(2, 182, "java/math/BigDecimal", "equals", "(Ljava/lang/Object;)Z"), oth(5, 172)])],
          &[],
          vec![],
          vec![])
      ])
    ]
}

fn ir_bigdecimal_equals_call_ignores_compare_to() -> Vec<Class> {
    vec![
    cls("com/example/ClassB", Some("java/lang/Object"), &[], &["java/lang/Object", "java/math/BigDecimal"], Some("ClassB.java"), false,
      vec![],
      vec![
        mth("<init>", "()V", None, 0x0001, 0,
          vec![42, 183, 0, 1, 177],
          &[(0, 4)],
          vec![blk(0, 5, vec![oth(0, 42), inv(1, 183, "java/lang/Object", "<init>", "()V"), oth(4, 177)])],
          &[],
          vec![],
          vec![]),
        mth("methodY", "(Ljava/math/BigDecimal;Ljava/math/BigDecimal;)Z", None, 0x0001, 2,
          vec![43, 44, 182, 0, 7, 154, 0, 7, 4, 167, 0, 4, 3, 172],
          &[(0, 6)],
          vec![blk(0, 8, vec![oth(0, 43), oth(1, 44), inv(2, 182, "java/math/BigDecimal", "compareTo", "(Ljava/math/BigDecimal;)I"), oth(5, 154)]), blk(8, 12, vec![cint(8, 4, 1), oth(9, 167)]), blk(12, 13, vec![cint(12, 3, 0)]), blk(13, 14, vec![oth(13, 172)])],
          &[(0, 12, EdgeKind::Branch), (0, 8, EdgeKind::FallThrough), (8, 13, EdgeKind::Branch), (12, 13, EdgeKind::FallThrough)],
          vec![],
          vec![])
      ])
    ]
}


fn analyze_with_classpath(app: Vec<Class>, classpath: Vec<Class>) -> EngineOutput {
    let mut classes = Vec::new();
    for mut class in app {
        class.artifact_index = 0;
        classes.push(class);
    }
    for mut class in classpath {
        class.artifact_index = 1;
        classes.push(class);
    }
    let artifacts = vec![
        ArtifactInfo {
            uri: Some("file:///tmp/app/classes".to_string()),
            parent_index: None,
            is_analysis_target: true,
        },
        ArtifactInfo {
            uri: Some("file:///tmp/classpath/classes".to_string()),
            parent_index: None,
            is_analysis_target: false,
        },
    ];
    let context = build_context(classes, &artifacts);
    Engine::new().analyze(context).expect("run analysis")
}

#[test]
fn bigdecimal_equals_call_ignores_classpath_calls() {
    let analysis = analyze_with_classpath(ir_bigdecimal_equals_call_ignores_classpath_calls_app(), ir_bigdecimal_equals_call_ignores_classpath_calls_classpath());
    let messages = bigdecimal_equals_messages(&analysis);
    assert!(
        messages.is_empty(),
        "classpath classes must be out of scope for BIGDECIMAL_EQUALS_CALL: {messages:?}"
    );
}

fn ir_bigdecimal_equals_call_ignores_classpath_calls_app() -> Vec<Class> {
    vec![
    cls("com/example/ClassA", Some("java/lang/Object"), &[], &["java/lang/Object"], Some("ClassA.java"), false,
      vec![],
      vec![
        mth("<init>", "()V", None, 0x0001, 0,
          vec![42, 183, 0, 1, 177],
          &[(0, 3)],
          vec![blk(0, 5, vec![oth(0, 42), inv(1, 183, "java/lang/Object", "<init>", "()V"), oth(4, 177)])],
          &[],
          vec![],
          vec![]),
        mth("methodX", "()V", None, 0x0001, 0,
          vec![177],
          &[(0, 4)],
          vec![blk(0, 1, vec![oth(0, 177)])],
          &[],
          vec![],
          vec![])
      ])
    ]
}

fn ir_bigdecimal_equals_call_ignores_classpath_calls_classpath() -> Vec<Class> {
    vec![
    cls("com/example/ClassB", Some("java/lang/Object"), &[], &["java/lang/Object", "java/math/BigDecimal"], Some("ClassB.java"), false,
      vec![],
      vec![
        mth("<init>", "()V", None, 0x0001, 0,
          vec![42, 183, 0, 1, 177],
          &[(0, 4)],
          vec![blk(0, 5, vec![oth(0, 42), inv(1, 183, "java/lang/Object", "<init>", "()V"), oth(4, 177)])],
          &[],
          vec![],
          vec![]),
        mth("methodY", "(Ljava/math/BigDecimal;Ljava/math/BigDecimal;)Z", None, 0x0001, 2,
          vec![43, 44, 182, 0, 7, 172],
          &[(0, 6)],
          vec![blk(0, 6, vec![oth(0, 43), oth(1, 44), inv(2, 182, "java/math/BigDecimal", "equals", "(Ljava/lang/Object;)Z"), oth(5, 172)])],
          &[],
          vec![],
          vec![])
      ])
    ]
}
