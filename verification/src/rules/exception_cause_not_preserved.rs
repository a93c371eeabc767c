//! Reports catch handlers that throw a new exception without keeping the
//! caught one as its cause (or as a suppressed exception).
use vstd::prelude::*;
use crate::dataflow::frame::{ensure_local, ensured, pop_or_unknown};
use crate::dataflow::worklist::{InstructionStep, WorklistSemantics, WorklistState, analyze_method, insert_sorted_unique, strictly_increasing};
use crate::descriptor::{ReturnKind, jdescriptor_parse, method_descriptor_summary, return_kind_of};
use crate::engine::{AnalysisContext, opt_view};
use crate::error::AnalysisError;
use crate::flatten::contains_u32;
use crate::ir::{CallKind, CallSite, Class, Instruction, InstructionKind, Method};
use crate::opcodes;
use crate::rules::location::{
    Finding, FindingView, RuleMetadata, finding, finding_views, method_location_spec,
    method_location_with_line, push_finding,
};
use crate::text::str_eq;

verus! {

/// An abstract value: the caught exception, an object created at an offset,
/// or anything else.
#[derive(Clone, Copy, Debug, PartialEq, Eq, PartialOrd, Ord, Structural)]
pub enum Value {
    Unknown,
    Other,
    Caught,
    New(u32),
}

/// Program point, operand stack, locals, and the creation offsets (each once)
/// of the exceptions that were given the caught one as cause.
#[derive(Clone, Debug, PartialEq, Eq, PartialOrd, Ord)]
pub struct CauseState {
    block_start: u32,
    instruction_index: usize,
    stack: Vec<Value>,
    locals: Vec<Value>,
    preserved: Vec<u32>,
}

/// A cause state as plain values.
#[verifier::ext_equal]
pub struct CauseView {
    pub block_start: u32,
    pub instruction_index: usize,
    pub stack: Seq<Value>,
    pub locals: Seq<Value>,
    pub preserved: Set<u32>,
}

impl View for CauseState {
    type V = CauseView;

    closed spec fn view(&self) -> CauseView {
        CauseView {
            block_start: self.block_start,
            instruction_index: self.instruction_index,
            stack: self.stack@,
            locals: self.locals@,
            preserved: self.preserved@.to_set(),
        }
    }
}

impl CauseState {
    /// The state at a handler entry: the caught exception on the stack, no
    /// local and nothing preserved.
    pub fn at_handler(handler_pc: u32) -> (res: Self)
        ensures
            res@ == (CauseView {
                block_start: handler_pc,
                instruction_index: 0,
                stack: seq![Value::Caught],
                locals: Seq::empty(),
                preserved: Set::empty(),
            }),
    {
        let mut stack: Vec<Value> = Vec::new();
        stack.push(Value::Caught);
        let res = CauseState {
            block_start: handler_pc,
            instruction_index: 0,
            stack,
            locals: Vec::new(),
            preserved: Vec::new(),
        };
        assert(res@ =~= (CauseView {
            block_start: handler_pc,
            instruction_index: 0,
            stack: seq![Value::Caught],
            locals: Seq::empty(),
            preserved: Set::empty(),
        }));
        res
    }
}

impl WorklistState for CauseState {
    closed spec fn position(self) -> (u32, usize) {
        (self.block_start, self.instruction_index)
    }

    closed spec fn repositioned(self, block_start: u32, instruction_index: usize) -> Self {
        CauseState { block_start, instruction_index, ..self }
    }

    proof fn lemma_repositioned(self, block_start: u32, instruction_index: usize) {
    }

    fn block_start(&self) -> (res: u32) {
        self.block_start
    }

    fn instruction_index(&self) -> (res: usize) {
        self.instruction_index
    }

    fn set_position(&mut self, block_start: u32, instruction_index: usize) {
        self.block_start = block_start;
        self.instruction_index = instruction_index;
    }
}

/// The top of the stack and the rest; `Unknown` and the same stack when it
/// is empty.
pub open spec fn pop_spec(s: Seq<Value>) -> (Seq<Value>, Value) {
    if s.len() == 0 {
        (s, Value::Unknown)
    } else {
        (s.drop_last(), s.last())
    }
}

/// The stack after `n` pops (each on an empty stack doing nothing).
pub open spec fn pop_n(s: Seq<Value>, n: nat) -> Seq<Value> {
    if n >= s.len() {
        Seq::empty()
    } else {
        s.subrange(0, s.len() - n)
    }
}

/// Pops `n` values (each pop on an empty stack does nothing).
pub fn pop_values(stack: &mut Vec<Value>, n: usize)
    ensures
        final(stack)@ == pop_n(old(stack)@, n as nat),
{
    let ghost start = stack@;
    let mut k: usize = 0;
    while k < n
        invariant
            k <= n,
            stack@ == pop_n(start, k as nat),
        decreases n - k,
    {
        stack.pop();
        k = k + 1;
        proof {
            if k < start.len() {
                assert(stack@ =~= start.subrange(0, start.len() - k));
            }
        }
    }
}

/// The local slot an `aload`/`astore` instruction names: its operand byte
/// (none past the end of the code) or the slot of its short form.
pub open spec fn local_slot(bytecode: Seq<u8>, ins: Instruction) -> Option<int> {
    let op = ins.opcode;
    if op == opcodes::ASTORE || op == opcodes::ALOAD {
        if ins.offset + 1 < bytecode.len() {
            Some(bytecode[ins.offset + 1] as int)
        } else {
            None
        }
    } else if op == opcodes::ASTORE_0 || op == opcodes::ALOAD_0 {
        Some(0)
    } else if op == opcodes::ASTORE_1 || op == opcodes::ALOAD_1 {
        Some(1)
    } else if op == opcodes::ASTORE_2 || op == opcodes::ALOAD_2 {
        Some(2)
    } else if op == opcodes::ASTORE_3 || op == opcodes::ALOAD_3 {
        Some(3)
    } else {
        None
    }
}

/// The local slot of an `aload`/`astore` instruction.
pub fn local_index_for(method: &Method, instruction: &Instruction) -> (res: Option<usize>)
    ensures
        match local_slot(method.bytecode@, *instruction) {
            Some(i) => res == Some(i as usize) && i < 256,
            None => res is None,
        },
{
    let op = instruction.opcode;
    if op == opcodes::ASTORE || op == opcodes::ALOAD {
        let i = instruction.offset as usize;
        if i < method.bytecode.len() && i + 1 < method.bytecode.len() {
            Some(method.bytecode[i + 1] as usize)
        } else {
            None
        }
    } else if op == opcodes::ASTORE_0 || op == opcodes::ALOAD_0 {
        Some(0)
    } else if op == opcodes::ASTORE_1 || op == opcodes::ALOAD_1 {
        Some(1)
    } else if op == opcodes::ASTORE_2 || op == opcodes::ALOAD_2 {
        Some(2)
    } else if op == opcodes::ASTORE_3 || op == opcodes::ALOAD_3 {
        Some(3)
    } else {
        None
    }
}

/// An `aload` instruction.
pub open spec fn is_load(op: u8) -> bool {
    op == opcodes::ALOAD || opcodes::ALOAD_0 <= op <= opcodes::ALOAD_3
}

/// An `astore` instruction.
pub open spec fn is_store(op: u8) -> bool {
    op == opcodes::ASTORE || opcodes::ASTORE_0 <= op <= opcodes::ASTORE_3
}

/// An instruction that pushes a constant.
pub open spec fn is_constant_push(op: u8) -> bool {
    op == opcodes::ACONST_NULL || (opcodes::ICONST_M1 <= op <= opcodes::ICONST_5) || op == opcodes::BIPUSH || op
        == opcodes::SIPUSH || op == opcodes::LDC || op == opcodes::LDC_W || op == opcodes::LDC2_W
}

/// A branch on one operand.
pub open spec fn is_unary_branch(op: u8) -> bool {
    (opcodes::IFEQ <= op <= opcodes::IFLE) || op == opcodes::IFNULL || op == opcodes::IFNONNULL || op
        == opcodes::TABLESWITCH || op == opcodes::LOOKUPSWITCH
}

/// A branch comparing two operands.
pub open spec fn is_binary_branch(op: u8) -> bool {
    opcodes::IF_ICMPEQ <= op <= opcodes::IF_ACMPNE
}

/// The stack and locals after the opcode part of an instruction.
pub open spec fn opcode_effect(bytecode: Seq<u8>, ins: Instruction, stack: Seq<Value>, locals: Seq<Value>) -> (
    Seq<Value>,
    Seq<Value>,
) {
    let op = ins.opcode;
    if is_load(op) {
        match local_slot(bytecode, ins) {
            Some(i) => {
                let l = ensured(locals, i, Value::Unknown);
                (stack.push(l[i]), l)
            },
            None => (stack.push(Value::Unknown), locals),
        }
    } else if is_store(op) {
        let (rest, v) = pop_spec(stack);
        match local_slot(bytecode, ins) {
            Some(i) => (rest, ensured(locals, i, Value::Unknown).update(i, v)),
            None => (rest, locals),
        }
    } else if op == opcodes::NEW {
        (stack.push(Value::New(ins.offset)), locals)
    } else if op == opcodes::DUP {
        if stack.len() > 0 {
            (stack.push(stack.last()), locals)
        } else {
            (stack, locals)
        }
    } else if op == opcodes::POP {
        (pop_n(stack, 1), locals)
    } else if op == opcodes::POP2 {
        (pop_n(stack, 2), locals)
    } else if op == opcodes::AALOAD {
        (pop_n(stack, 2).push(Value::Other), locals)
    } else if op == opcodes::AASTORE {
        (pop_n(stack, 3), locals)
    } else if is_constant_push(op) {
        (stack.push(Value::Other), locals)
    } else if is_unary_branch(op) {
        (pop_n(stack, 1), locals)
    } else if is_binary_branch(op) {
        (pop_n(stack, 2), locals)
    } else {
        (stack, locals)
    }
}

/// Applies the opcode part of an instruction to the stack and locals.
pub fn apply_opcode(method: &Method, instruction: &Instruction, stack: &mut Vec<Value>, locals: &mut Vec<Value>)
    ensures
        (final(stack)@, final(locals)@) == opcode_effect(method.bytecode@, *instruction, old(stack)@, old(locals)@),
{
    let op = instruction.opcode;
    if op == opcodes::ALOAD || (opcodes::ALOAD_0 <= op && op <= opcodes::ALOAD_3) {
        match local_index_for(method, instruction) {
            Some(i) => {
                ensure_local(locals, i, Value::Unknown);
                let v = locals[i];
                stack.push(v);
            },
            None => stack.push(Value::Unknown),
        }
    } else if op == opcodes::ASTORE || (opcodes::ASTORE_0 <= op && op <= opcodes::ASTORE_3) {
        match local_index_for(method, instruction) {
            Some(i) => {
                ensure_local(locals, i, Value::Unknown);
                let v = pop_or_unknown(stack, Value::Unknown);
                locals.set(i, v);
            },
            None => {
                pop_or_unknown(stack, Value::Unknown);
            },
        }
    } else if op == opcodes::NEW {
        stack.push(Value::New(instruction.offset));
    } else if op == opcodes::DUP {
        if stack.len() > 0 {
            let top = stack[stack.len() - 1];
            stack.push(top);
        }
    } else if op == opcodes::POP {
        pop_values(stack, 1);
    } else if op == opcodes::POP2 {
        pop_values(stack, 2);
    } else if op == opcodes::AALOAD {
        pop_values(stack, 2);
        stack.push(Value::Other);
    } else if op == opcodes::AASTORE {
        pop_values(stack, 3);
    } else if op == opcodes::ACONST_NULL || (opcodes::ICONST_M1 <= op && op <= opcodes::ICONST_5) || op
        == opcodes::BIPUSH || op == opcodes::SIPUSH || op == opcodes::LDC || op == opcodes::LDC_W || op
        == opcodes::LDC2_W {
        stack.push(Value::Other);
    } else if (opcodes::IFEQ <= op && op <= opcodes::IFLE) || op == opcodes::IFNULL || op == opcodes::IFNONNULL
        || op == opcodes::TABLESWITCH || op == opcodes::LOOKUPSWITCH {
        pop_values(stack, 1);
    } else if opcodes::IF_ICMPEQ <= op && op <= opcodes::IF_ACMPNE {
        pop_values(stack, 2);
    }
}


/// Among the top `n` values of the stack is the caught exception.
pub open spec fn caught_among_top(st: Seq<Value>, n: nat) -> bool {
    exists|i: int| 0 <= i < st.len() && st.len() - n <= i && #[trigger] st[i] == Value::Caught
}

/// A call that keeps the caught exception when it is among the arguments: a
/// constructor, `initCause` or `addSuppressed`.
pub open spec fn preserving_call(call: CallSite) -> bool {
    call.name@ == "<init>"@ || call.name@ == "initCause"@ || call.name@ == "addSuppressed"@
}

/// The state after a call: arguments and receiver popped; an exception created
/// here that gets the caught one as cause or suppressed exception is marked
/// preserved; the result pushed (`initCause` returns its receiver, a
/// constructor nothing).
pub open spec fn invoke_effect(call: CallSite, s: CauseView, params: Seq<crate::descriptor::TypeShape>, ret: crate::descriptor::TypeShape) -> CauseView {
    let has_caught = caught_among_top(s.stack, params.len());
    let after_args = pop_n(s.stack, params.len());
    let after_receiver = if call.kind == CallKind::Static { after_args } else { pop_spec(after_args).0 };
    let receiver = if call.kind == CallKind::Static { None } else { Some(pop_spec(after_args).1) };
    let preserved = match receiver {
        Some(Value::New(a)) => if has_caught && preserving_call(call) {
            s.preserved.insert(a)
        } else {
            s.preserved
        },
        _ => s.preserved,
    };
    let pushed = if call.name@ == "<init>"@ {
        None
    } else if call.name@ == "initCause"@ {
        receiver
    } else if return_kind_of(ret) == ReturnKind::Void {
        None
    } else {
        Some(Value::Other)
    };
    CauseView {
        stack: match pushed {
            Some(v) => after_receiver.push(v),
            None => after_receiver,
        },
        preserved,
        ..s
    }
}

/// Pops `n` values and tells whether the caught exception was among them.
pub fn pop_arguments(stack: &mut Vec<Value>, n: usize) -> (res: bool)
    ensures
        final(stack)@ == pop_n(old(stack)@, n as nat),
        res == caught_among_top(old(stack)@, n as nat),
{
    let ghost start = stack@;
    let mut found = false;
    let mut k: usize = 0;
    while k < n
        invariant
            k <= n,
            stack@ == pop_n(start, k as nat),
            found == exists|i: int| 0 <= i < start.len() && start.len() - k <= i && #[trigger] start[i] == Value::Caught,
        decreases n - k,
    {
        let v = pop_or_unknown(stack, Value::Unknown);
        proof {
            if k < start.len() {
                assert(v == start[start.len() - k - 1]);
            }
        }
        if v == Value::Caught {
            found = true;
        }
        k = k + 1;
        proof {
            if k < start.len() {
                assert(stack@ =~= start.subrange(0, start.len() - k));
            }
            if exists|i: int| 0 <= i < start.len() && start.len() - k <= i && #[trigger] start[i] == Value::Caught {
                let i = choose|i: int| 0 <= i < start.len() && start.len() - k <= i && #[trigger] start[i] == Value::Caught;
                if i == start.len() - k {
                    assert(v == Value::Caught);
                }
            }
        }
    }
    found
}

/// Adds an offset to the preserved ones.
pub fn add_preserved(preserved: &mut Vec<u32>, a: u32)
    ensures
        final(preserved)@.to_set() == old(preserved)@.to_set().insert(a),
{
    if !contains_u32(preserved, a) {
        preserved.push(a);
        proof {
            vstd::seq_lib::lemma_seq_contains_after_push(old(preserved)@, a, a);
            assert(preserved@.to_set() =~= old(preserved)@.to_set().insert(a)) by {
                assert forall|x: u32| preserved@.contains(x) <==> old(preserved)@.contains(x) || x == a by {
                    if preserved@.contains(x) && x != a {
                        let i = choose|i: int| 0 <= i < preserved@.len() && preserved@[i] == x;
                        assert(old(preserved)@[i] == x);
                    }
                    if old(preserved)@.contains(x) {
                        let i = choose|i: int| 0 <= i < old(preserved)@.len() && old(preserved)@[i] == x;
                        assert(preserved@[i] == x);
                    }
                }
            }
        }
    } else {
        assert(preserved@.to_set() =~= old(preserved)@.to_set().insert(a));
    }
}

/// Applies a call to the state; an error when its descriptor does not parse.
pub fn handle_invoke(call: &CallSite, state: &mut CauseState) -> (res: Result<(), AnalysisError>)
    ensures
        match jdescriptor_parse(call.descriptor@) {
            Some((params, ret)) => res is Ok && final(state)@ == invoke_effect(*call, old(state)@, params, ret),
            None => res is Err,
        },
{
    let summary = method_descriptor_summary(call.descriptor.as_str())?;
    let ghost before = state@;
    let has_caught = pop_arguments(&mut state.stack, summary.param_count);
    let receiver = if call.kind == CallKind::Static {
        None
    } else {
        Some(pop_or_unknown(&mut state.stack, Value::Unknown))
    };
    let name = call.name.as_str();
    let is_init = str_eq(name, "<init>");
    let is_init_cause = str_eq(name, "initCause");
    let is_add_suppressed = str_eq(name, "addSuppressed");
    match receiver {
        Some(Value::New(a)) => {
            if has_caught && (is_init || is_init_cause || is_add_suppressed) {
                add_preserved(&mut state.preserved, a);
            }
        },
        _ => {},
    }
    let pushed = if is_init {
        None
    } else if is_init_cause {
        receiver
    } else if summary.return_kind == ReturnKind::Void {
        None
    } else {
        Some(Value::Other)
    };
    match pushed {
        Some(v) => state.stack.push(v),
        None => {},
    }
    proof {
        let (params, ret) = jdescriptor_parse(call.descriptor@).unwrap();
        assert(summary.param_count == params.len());
        assert(state@ =~= invoke_effect(*call, before, params, ret));
    }
    Ok(())
}

/// The state after an instruction's effect: its opcode part, then its call.
pub open spec fn apply_spec(bytecode: Seq<u8>, ins: Instruction, s: CauseView) -> CauseView {
    let (stack, locals) = opcode_effect(bytecode, ins, s.stack, s.locals);
    let s1 = CauseView { stack, locals, ..s };
    match ins.kind {
        InstructionKind::Invoke(call) => match jdescriptor_parse(call.descriptor@) {
            Some((params, ret)) => invoke_effect(call, s1, params, ret),
            None => s1,
        },
        _ => s1,
    }
}

/// Applying the instruction fails: a call whose descriptor does not parse.
pub open spec fn apply_fails(ins: Instruction) -> bool {
    match ins.kind {
        InstructionKind::Invoke(call) => jdescriptor_parse(call.descriptor@) is None,
        _ => false,
    }
}

/// Applies an instruction's effect to the state.
pub fn apply_stack_effect(method: &Method, instruction: &Instruction, state: &mut CauseState) -> (res: Result<(), AnalysisError>)
    ensures
        apply_fails(*instruction) ==> res is Err,
        !apply_fails(*instruction) ==> res is Ok && final(state)@ == apply_spec(method.bytecode@, *instruction, old(state)@),
{
    let ghost before = state@;
    apply_opcode(method, instruction, &mut state.stack, &mut state.locals);
    let ghost mid = state@;
    proof {
        let (stack, locals) = opcode_effect(method.bytecode@, *instruction, before.stack, before.locals);
        assert(mid =~= CauseView { stack, locals, ..before });
    }
    match &instruction.kind {
        InstructionKind::Invoke(call) => handle_invoke(call, state),
        _ => Ok(()),
    }
}

/// A return instruction.
pub open spec fn is_return_spec(op: u8) -> bool {
    op == opcodes::IRETURN || op == opcodes::LRETURN || op == opcodes::FRETURN || op == opcodes::DRETURN || op
        == opcodes::ARETURN || op == opcodes::RETURN
}

/// What a `throw` reports: its offset, when it throws an exception created
/// in the handler without the caught one preserved.
pub open spec fn throw_findings(ins: Instruction, s: CauseView) -> Seq<u32> {
    match pop_spec(s.stack).1 {
        Value::New(a) => if !s.preserved.contains(a) {
            seq![ins.offset]
        } else {
            Seq::empty()
        },
        _ => Seq::empty(),
    }
}

/// One step of the handler walk: a return ends the path, a `throw` ends it
/// and reports an unpreserved new exception, anything else applies its effect.
pub fn cause_transfer(method: &Method, instruction: &Instruction, state: &mut CauseState) -> (res: Result<
    InstructionStep<u32>,
    AnalysisError,
>)
    ensures
        is_return_spec(instruction.opcode) && apply_fails(*instruction) ==> res is Err,
        is_return_spec(instruction.opcode) && !apply_fails(*instruction) ==> (res matches Ok(step)
            && step.terminate_path && step.findings@ == Seq::<u32>::empty()),
        !is_return_spec(instruction.opcode) && instruction.opcode == opcodes::ATHROW ==> (res matches Ok(step)
            && step.terminate_path && step.findings@ == throw_findings(*instruction, old(state)@)),
        !is_return_spec(instruction.opcode) && instruction.opcode != opcodes::ATHROW && apply_fails(*instruction)
            ==> res is Err,
        !is_return_spec(instruction.opcode) && instruction.opcode != opcodes::ATHROW && !apply_fails(*instruction)
            ==> (res matches Ok(step) && !step.terminate_path && step.findings@ == Seq::<u32>::empty() && final(state)@
            == apply_spec(method.bytecode@, *instruction, old(state)@)),
{
    let op = instruction.opcode;
    if op == opcodes::IRETURN || op == opcodes::LRETURN || op == opcodes::FRETURN || op == opcodes::DRETURN || op
        == opcodes::ARETURN || op == opcodes::RETURN {
        apply_stack_effect(method, instruction, state)?;
        return Ok(InstructionStep::terminate_path());
    }
    if op == opcodes::ATHROW {
        let ghost before = state@;
        let thrown = pop_or_unknown(&mut state.stack, Value::Unknown);
        let mut step: InstructionStep<u32> = InstructionStep::terminate_path();
        match thrown {
            Value::New(a) => {
                if !contains_u32(&state.preserved, a) {
                    step = step.with_finding(instruction.offset);
                }
            },
            _ => {},
        }
        proof {
            assert(step.findings@ =~= throw_findings(*instruction, before));
        }
        return Ok(step);
    }
    apply_stack_effect(method, instruction, state)?;
    Ok(InstructionStep::continue_path())
}


/// Walks the paths from a handler entry.
pub struct HandlerSemantics {
    pub handler_pc: u32,
}

impl WorklistSemantics for HandlerSemantics {
    type State = CauseState;

    type Finding = u32;

    fn initial_states(&self, method: &Method) -> (res: Vec<CauseState>)
        ensures
            res@.len() == 1,
            res@[0]@ == (CauseView {
                block_start: self.handler_pc,
                instruction_index: 0,
                stack: seq![Value::Caught],
                locals: Seq::empty(),
                preserved: Set::empty(),
            }),
    {
        let mut v: Vec<CauseState> = Vec::new();
        v.push(CauseState::at_handler(self.handler_pc));
        v
    }

    fn transfer_instruction(&self, method: &Method, instruction: &Instruction, state: &mut CauseState) -> (res: Result<
        InstructionStep<u32>,
        AnalysisError,
    >)
        ensures
            is_return_spec(instruction.opcode) && apply_fails(*instruction) ==> res is Err,
            is_return_spec(instruction.opcode) && !apply_fails(*instruction) ==> (res matches Ok(step)
                && step.terminate_path && step.findings@ == Seq::<u32>::empty()),
            !is_return_spec(instruction.opcode) && instruction.opcode == opcodes::ATHROW ==> (res matches Ok(step)
                && step.terminate_path && step.findings@ == throw_findings(*instruction, old(state)@)),
            !is_return_spec(instruction.opcode) && instruction.opcode != opcodes::ATHROW && apply_fails(*instruction)
                ==> res is Err,
            !is_return_spec(instruction.opcode) && instruction.opcode != opcodes::ATHROW && !apply_fails(*instruction)
                ==> (res matches Ok(step) && !step.terminate_path && step.findings@ == Seq::<u32>::empty() && final(state)@
                == apply_spec(method.bytecode@, *instruction, old(state)@)),
    {
        cause_transfer(method, instruction, state)
    }
}

/// The offsets, ascending and each once, of the `throw` instructions reached
/// from the handler entry that throw an exception created on the way without
/// the caught one preserved.
pub fn analyze_handler(method: &Method, handler_pc: u32) -> (res: Result<Vec<u32>, AnalysisError>)
    ensures
        res matches Ok(v) ==> strictly_increasing(v@),
{
    let semantics = HandlerSemantics { handler_pc };
    let found = analyze_method(method, &semantics)?;
    let mut out: Vec<u32> = Vec::new();
    let mut i: usize = 0;
    while i < found.len()
        invariant
            i <= found@.len(),
            strictly_increasing(out@),
        decreases found.len() - i,
    {
        insert_sorted_unique(&mut out, found[i]);
        i = i + 1;
    }
    Ok(out)
}

/// The handler entry offsets of the method, ascending and each once.
pub fn handler_offsets(method: &Method) -> (res: Vec<u32>)
    ensures
        strictly_increasing(res@),
        forall|o: u32|
            res@.contains(o) <==> exists|h: int|
                0 <= h < method.exception_handlers@.len() && #[trigger] method.exception_handlers@[h].handler_pc == o,
{
    let mut out: Vec<u32> = Vec::new();
    let mut i: usize = 0;
    while i < method.exception_handlers.len()
        invariant
            i <= method.exception_handlers@.len(),
            strictly_increasing(out@),
            forall|o: u32|
                out@.contains(o) <==> exists|h: int|
                    0 <= h < i && #[trigger] method.exception_handlers@[h].handler_pc == o,
        decreases method.exception_handlers.len() - i,
    {
        let ghost before = out@;
        let pc = method.exception_handlers[i].handler_pc;
        insert_sorted_unique(&mut out, pc);
        proof {
            assert forall|o: u32|
                out@.contains(o) <==> exists|h: int|
                    0 <= h < i + 1 && #[trigger] method.exception_handlers@[h].handler_pc == o by {
                assert(out@.to_set().contains(o) == out@.contains(o));
                assert(before.to_set().contains(o) == before.contains(o));
                if exists|h: int| 0 <= h < i + 1 && #[trigger] method.exception_handlers@[h].handler_pc == o {
                    let h = choose|h: int| 0 <= h < i + 1 && #[trigger] method.exception_handlers@[h].handler_pc == o;
                    if h < i {
                        assert(before.contains(o));
                    }
                }
            }
        }
        i = i + 1;
    }
    out
}

/// The message of every finding.
pub open spec fn cause_message() -> Seq<char> {
    "Catch handler throws a new exception without preserving the original cause; pass the caught exception as a cause or call initCause/addSuppressed before throwing."@
}

/// The finding for a `throw` at `offset` in method `m` of class `c`.
pub open spec fn cause_finding(uri: Option<Seq<char>>, c: Class, m: Method, offset: u32) -> FindingView {
    FindingView {
        rule_id: None,
        message: cause_message(),
        locations: seq![method_location_spec(
            c.name@,
            m.name@,
            m.descriptor@,
            uri,
            crate::ir::line_for_offset_spec(m.line_numbers@, offset),
        )],
    }
}

/// The finding reports a `throw` in a method with bytecode and an exception
/// handler, of an analysis-target class.
pub open spec fn reports_lost_cause(ctx: AnalysisContext, f: FindingView) -> bool {
    exists|ci: int, mi: int, offset: u32|
        #![trigger cause_finding(ctx.class_uri(ctx.targets()[ci]), ctx.targets()[ci], ctx.targets()[ci].methods@[mi], offset)]
        0 <= ci < ctx.targets().len() && 0 <= mi < ctx.targets()[ci].methods@.len()
            && ctx.targets()[ci].methods@[mi].bytecode@.len() > 0
            && ctx.targets()[ci].methods@[mi].exception_handlers@.len() > 0
            && f == cause_finding(ctx.class_uri(ctx.targets()[ci]), ctx.targets()[ci], ctx.targets()[ci].methods@[mi], offset)
}

/// Reports handlers that lose the caught exception.
#[derive(Clone, Copy, Debug)]
pub struct ExceptionCauseNotPreservedRule;

impl ExceptionCauseNotPreservedRule {
    /// The rule's id, name and description.
    pub fn metadata(&self) -> (res: RuleMetadata)
        ensures
            res.id@ == "EXCEPTION_CAUSE_NOT_PRESERVED"@,
    {
        RuleMetadata {
            id: "EXCEPTION_CAUSE_NOT_PRESERVED",
            name: "Exception cause not preserved",
            description: "Catch handlers that throw new exceptions without preserving the cause",
        }
    }

    /// For each method with bytecode of the analysis-target classes, each
    /// handler entry in ascending order, and each offending `throw` in
    /// ascending order: one finding at the line of the `throw`.
    pub fn run(&self, context: &AnalysisContext) -> (res: Result<Vec<Finding>, AnalysisError>)
        ensures
            res matches Ok(v) ==> forall|i: int|
                0 <= i < v@.len() ==> reports_lost_cause(*context, #[trigger] finding_views(v@)[i]),
    {
        let classes = context.analysis_target_classes();
        let mut results: Vec<Finding> = Vec::new();
        let mut ci: usize = 0;
        while ci < classes.len()
            invariant
                ci <= classes@.len(),
                classes@ == context.targets(),
                forall|i: int|
                    0 <= i < results@.len() ==> reports_lost_cause(*context, #[trigger] finding_views(results@)[i]),
            decreases classes.len() - ci,
        {
            let class = &classes[ci];
            let uri = context.class_artifact_uri(class);
            let mut mi: usize = 0;
            while mi < class.methods.len()
                invariant
                    ci < classes@.len(),
                    classes@ == context.targets(),
                    *class == classes@[ci as int],
                    opt_view(uri) == context.class_uri(*class),
                    mi <= class.methods@.len(),
                    forall|i: int|
                        0 <= i < results@.len() ==> reports_lost_cause(*context, #[trigger] finding_views(results@)[i]),
                decreases class.methods.len() - mi,
            {
                let method = &class.methods[mi];
                if method.bytecode.len() > 0 {
                    let handlers = handler_offsets(method);
                    let mut hi: usize = 0;
                    while hi < handlers.len()
                        invariant
                            ci < classes@.len(),
                            classes@ == context.targets(),
                            *class == classes@[ci as int],
                            mi < class.methods@.len(),
                            *method == class.methods@[mi as int],
                            method.bytecode@.len() > 0,
                            forall|o: u32|
                                handlers@.contains(o) <==> exists|h: int|
                                    0 <= h < method.exception_handlers@.len()
                                        && #[trigger] method.exception_handlers@[h].handler_pc == o,
                            opt_view(uri) == context.class_uri(*class),
                            hi <= handlers@.len(),
                            forall|i: int|
                                0 <= i < results@.len() ==> reports_lost_cause(*context, #[trigger] finding_views(results@)[i]),
                        decreases handlers.len() - hi,
                    {
                        proof {
                            assert(handlers@.contains(handlers@[hi as int]));
                        }
                        let throws = analyze_handler(method, handlers[hi])?;
                        let mut k: usize = 0;
                        while k < throws.len()
                            invariant
                                ci < classes@.len(),
                                classes@ == context.targets(),
                                *class == classes@[ci as int],
                                mi < class.methods@.len(),
                                *method == class.methods@[mi as int],
                                method.bytecode@.len() > 0,
                                method.exception_handlers@.len() > 0,
                                opt_view(uri) == context.class_uri(*class),
                                k <= throws@.len(),
                                forall|i: int|
                                    0 <= i < results@.len() ==> reports_lost_cause(*context, #[trigger] finding_views(results@)[i]),
                            decreases throws.len() - k,
                        {
                            let offset = throws[k];
                            let line = method.line_for_offset(offset);
                            let artifact_uri: Option<&str> = match &uri {
                                Some(s) => Some(s.as_str()),
                                None => None,
                            };
                            let location = method_location_with_line(
                                class.name.as_str(),
                                method.name.as_str(),
                                method.descriptor.as_str(),
                                artifact_uri,
                                line,
                            );
                            let message = "Catch handler throws a new exception without preserving the original cause; pass the caught exception as a cause or call initCause/addSuppressed before throwing.".to_owned();
                            let f = finding(message, location);
                            proof {
                                assert(f@ == cause_finding(context.class_uri(*class), *class, *method, offset));
                                assert(context.targets()[ci as int].methods@[mi as int] == *method);
                                assert(reports_lost_cause(*context, f@));
                            }
                            let ghost prev = finding_views(results@);
                            let ghost fv = f@;
                            push_finding(&mut results, f);
                            proof {
                                assert(finding_views(results@) == prev.push(fv));
                                assert(finding_views(results@).len() == prev.len() + 1);
                                assert forall|i: int| 0 <= i < results@.len() implies reports_lost_cause(
                                    *context,
                                    #[trigger] finding_views(results@)[i],
                                ) by {
                                    if i < prev.len() {
                                        assert(finding_views(results@)[i] == prev[i]);
                                    } else {
                                        assert(finding_views(results@)[i] == fv);
                                    }
                                }
                            }
                            k = k + 1;
                        }
                        hi = hi + 1;
                    }
                }
                mi = mi + 1;
            }
            ci = ci + 1;
        }
        Ok(results)
    }
}

} // verus!
