//! Intermediate representation of parsed JVM classes and methods.
use vstd::prelude::*;

verus! {

/// A parsed class.
#[derive(Clone, Debug)]
pub struct Class {
    pub name: String,
    pub source_file: Option<String>,
    pub super_name: Option<String>,
    pub interfaces: Vec<String>,
    pub referenced_classes: Vec<String>,
    pub fields: Vec<Field>,
    pub methods: Vec<Method>,
    pub artifact_index: i64,
    pub is_record: bool,
}

/// A field of a class.
#[derive(Clone, Debug)]
pub struct Field {
    pub name: String,
    pub descriptor: String,
    pub signature: Option<String>,
    pub access: FieldAccess,
}

/// Field access flags used for rule filtering.
#[derive(Clone, Copy, Debug)]
pub struct FieldAccess {
    pub is_static: bool,
    pub is_private: bool,
    pub is_final: bool,
}

/// A method and its bytecode.
#[derive(Clone, Debug)]
pub struct Method {
    pub name: String,
    pub descriptor: String,
    pub signature: Option<String>,
    pub access: MethodAccess,
    pub nullness: MethodNullness,
    pub bytecode: Vec<u8>,
    pub line_numbers: Vec<LineNumber>,
    pub cfg: ControlFlowGraph,
    pub calls: Vec<CallSite>,
    pub string_literals: Vec<String>,
    pub exception_handlers: Vec<ExceptionHandler>,
    pub local_variable_types: Vec<LocalVariableType>,
}

/// Method access flags used for rule filtering.
#[derive(Clone, Copy, Debug)]
pub struct MethodAccess {
    pub is_public: bool,
    pub is_static: bool,
    pub is_abstract: bool,
    pub is_synchronized: bool,
    pub is_bridge: bool,
    pub is_synthetic: bool,
}

/// An entry of the exception table of a Code attribute.
#[derive(Clone, Debug)]
pub struct ExceptionHandler {
    pub start_pc: u32,
    pub end_pc: u32,
    pub handler_pc: u32,
    pub catch_type: Option<String>,
}

/// Mapping entry from bytecode offsets to source lines.
#[derive(Clone, Copy, Debug)]
pub struct LineNumber {
    pub start_pc: u32,
    pub line: u32,
}

/// Generic signature of a local variable, from the LocalVariableTypeTable.
#[derive(Clone, Debug)]
pub struct LocalVariableType {
    pub name: String,
    pub signature: String,
    pub index: u16,
    pub start_pc: u32,
    pub length: u32,
}

/// Basic block graph of a method's bytecode.
#[derive(Clone, Debug)]
pub struct ControlFlowGraph {
    pub blocks: Vec<BasicBlock>,
    pub edges: Vec<FlowEdge>,
}

/// A basic block covering a range of bytecode offsets.
#[derive(Clone, Debug)]
pub struct BasicBlock {
    pub start_offset: u32,
    pub end_offset: u32,
    pub instructions: Vec<Instruction>,
}

/// Edge between two basic blocks, identified by their start offsets.
#[derive(Clone, Copy, Debug)]
pub struct FlowEdge {
    pub from: u32,
    pub to: u32,
    pub kind: EdgeKind,
}

/// Classification of control-flow edges.
#[derive(Clone, Copy, Debug, PartialEq, Eq, Structural)]
pub enum EdgeKind {
    FallThrough,
    Branch,
    Exception,
}

/// A decoded bytecode instruction.
#[derive(Clone, Debug)]
pub struct Instruction {
    pub offset: u32,
    pub opcode: u8,
    pub kind: InstructionKind,
}

/// A field reference operand.
#[derive(Clone, Debug)]
pub struct FieldRef {
    pub owner: String,
    pub name: String,
    pub descriptor: String,
}

/// What an instruction refers to, as far as the rules need it.
#[derive(Clone, Debug)]
pub enum InstructionKind {
    Invoke(CallSite),
    InvokeDynamic { descriptor: String, impl_method: Option<String> },
    ConstString(String),
    ConstClass(String),
    ConstInt(i64),
    FieldAccess(FieldRef),
    Other(u8),
}

/// A call site extracted from bytecode.
#[derive(Clone, Debug)]
pub struct CallSite {
    pub owner: String,
    pub name: String,
    pub descriptor: String,
    pub kind: CallKind,
    pub offset: u32,
}

/// Invoke opcode classification.
#[derive(Clone, Copy, Debug, PartialEq, Eq, Structural)]
pub enum CallKind {
    Virtual,
    Interface,
    Special,
    Static,
}

/// Nullness classification from JSpecify annotations.
#[derive(Clone, Copy, Debug, PartialEq, Eq, Structural)]
pub enum Nullness {
    Unknown,
    NonNull,
    Nullable,
}

/// Nullness annotations of a method signature.
#[derive(Clone, Debug)]
pub struct MethodNullness {
    pub return_nullness: Nullness,
    pub parameter_nullness: Vec<Nullness>,
}

impl MethodNullness {
    /// Nullness with every position unknown, for `param_count` parameters.
    pub fn unknown(param_count: usize) -> (res: Self)
        ensures
            res.return_nullness == Nullness::Unknown,
            res.parameter_nullness@.len() == param_count,
            forall|i: int|
                0 <= i < param_count ==> res.parameter_nullness@[i] == Nullness::Unknown,
    {
        let mut params: Vec<Nullness> = Vec::new();
        let mut i: usize = 0;
        while i < param_count
            invariant
                i <= param_count,
                params@.len() == i,
                forall|j: int| 0 <= j < i ==> params@[j] == Nullness::Unknown,
            decreases param_count - i,
        {
            params.push(Nullness::Unknown);
            i = i + 1;
        }
        MethodNullness { return_nullness: Nullness::Unknown, parameter_nullness: params }
    }
}

/// Number of leading line-table entries whose start offset is at most `offset`.
pub open spec fn covered_prefix_len(entries: Seq<LineNumber>, offset: u32) -> nat
    decreases entries.len(),
{
    if entries.len() == 0 || entries[0].start_pc > offset {
        0
    } else {
        1 + covered_prefix_len(entries.drop_first(), offset)
    }
}

/// The source line of `offset`: the line of the last entry of the leading run of
/// entries that start at or before `offset`.
pub open spec fn line_for_offset_spec(entries: Seq<LineNumber>, offset: u32) -> Option<u32> {
    let k = covered_prefix_len(entries, offset);
    if k == 0 {
        None
    } else {
        Some(entries[k - 1].line)
    }
}

proof fn lemma_covered_prefix(entries: Seq<LineNumber>, offset: u32, i: int)
    requires
        0 <= i <= entries.len(),
        forall|j: int| 0 <= j < i ==> entries[j].start_pc <= offset,
    ensures
        covered_prefix_len(entries, offset) >= i,
        i < entries.len() && entries[i].start_pc > offset ==> covered_prefix_len(entries, offset)
            == i,
        i == entries.len() ==> covered_prefix_len(entries, offset) == i,
    decreases i,
{
    if i > 0 {
        lemma_covered_prefix(entries.drop_first(), offset, i - 1);
    }
}

impl Method {
    /// Looks up the source line for a bytecode offset.
    pub fn line_for_offset(&self, offset: u32) -> (res: Option<u32>)
        ensures
            res == line_for_offset_spec(self.line_numbers@, offset),
    {
        let mut candidate: Option<u32> = None;
        let mut i: usize = 0;
        while i < self.line_numbers.len()
            invariant
                i <= self.line_numbers@.len(),
                forall|j: int| 0 <= j < i ==> self.line_numbers@[j].start_pc <= offset,
                candidate == (if i == 0 {
                    None::<u32>
                } else {
                    Some(self.line_numbers@[i - 1].line)
                }),
            decreases self.line_numbers.len() - i,
        {
            let entry = self.line_numbers[i];
            if entry.start_pc <= offset {
                candidate = Some(entry.line);
            } else {
                proof {
                    lemma_covered_prefix(self.line_numbers@, offset, i as int);
                }
                return candidate;
            }
            i = i + 1;
        }
        proof {
            lemma_covered_prefix(self.line_numbers@, offset, i as int);
        }
        candidate
    }
}

/// The classes behind a list of class references.
pub open spec fn class_seq(v: Seq<&Class>) -> Seq<Class> {
    v.map_values(|c: &Class| *c)
}

} // verus!
