//! Symbolic execution of a method that tracks locally created resources
//! (auto-closeables, executor services) from their creation to their release,
//! reporting the creation sites still held when a path leaves the method.
use vstd::prelude::*;
use crate::dataflow::opcode_semantics::{effect_applied, effect_of, ApplyOutcome, SemanticsCoverage, SemanticsDebugConfig, SemanticsHooks, ValueDomain, apply_semantics};
use crate::dataflow::stack_machine::{StackMachine, StackMachineConfig, popped, pushed, top_or};
use crate::dataflow::worklist::{BlockEndStep, InstructionStep, WorklistSemantics, WorklistState, analyze_method, insert_sorted_unique, strictly_increasing};
use crate::descriptor::{ReturnKind, TypeShape, jdescriptor_parse, method_descriptor_summary, method_param_count, method_return_class_name, method_return_kind, return_kind_of};
use crate::error::AnalysisError;
use crate::flatten::contains_u32;
use crate::ir::{CallKind, CallSite, Class, EdgeKind, Instruction, InstructionKind, Method, class_seq};
use crate::opcodes;
use crate::rules::autocloseable_not_closed::{autocloseable_type_spec, close_call_spec, excluded_noop_spec, is_autocloseable_constructor, is_autocloseable_type, is_close_call, is_excluded_noop_type};
use crate::rules::executor_service_not_shutdown::{executor_factory_spec, executor_service_type_spec, is_executor_constructor, is_executor_factory_call, is_shutdown_call, shutdown_call_spec};

verus! {

/// Stack depth kept by the symbolic machine.
pub const MAX_TRACKED_STACK_DEPTH: usize = 32;

/// The resource a lifecycle analysis tracks.
#[derive(Clone, Copy, Debug, PartialEq, Eq, Structural)]
pub enum ResourceKind {
    AutoCloseable,
    ExecutorService,
}

/// A value on the symbolic stack: a resource created at an offset, or
/// anything else.
#[derive(Clone, Copy, Debug, PartialEq, Eq, PartialOrd, Ord, Structural)]
pub enum Value {
    Unknown,
    Symbol(u32),
}

/// Which edge of a null test on a tracked resource a block end follows.
#[derive(Clone, Copy, Debug, PartialEq, Eq, PartialOrd, Ord, Structural)]
pub enum BranchFilter {
    TakeBranch,
    TakeFallThrough,
}

/// Every value is unknown to the default semantics.
pub struct ResourceValueDomain;

impl ValueDomain<Value> for ResourceValueDomain {
    open spec fn unknown_spec(&self) -> Value {
        Value::Unknown
    }

    open spec fn scalar_spec(&self) -> Value {
        Value::Unknown
    }

    fn unknown_value(&self) -> (res: Value) {
        Value::Unknown
    }

    fn scalar_value(&self) -> (res: Value) {
        Value::Unknown
    }
}

/// Gives each `new` the symbol of its offset.
pub struct AllocationHook {
    pub allocation_offset: u32,
}

impl SemanticsHooks<Value> for AllocationHook {
    open spec fn pre_outcome(&self, machine: StackMachine<Value>, method: Method, offset: usize, opcode: u8) -> ApplyOutcome {
        if opcode == opcodes::NEW {
            ApplyOutcome::Applied
        } else {
            ApplyOutcome::NotHandled
        }
    }

    open spec fn pre_applied(
        &self,
        machine: StackMachine<Value>,
        method: Method,
        offset: usize,
        opcode: u8,
        hooks: Self,
        after: StackMachine<Value>,
    ) -> bool {
        &&& opcode == opcodes::NEW ==> after.stack() == pushed(
            machine.config(),
            machine.stack(),
            Value::Symbol(self.allocation_offset),
        ) && after.locals() == machine.locals() && after.default_value() == machine.default_value()
            && after.config() == machine.config()
        &&& opcode != opcodes::NEW ==> after == machine
        &&& hooks.allocation_offset == self.allocation_offset
    }

    open spec fn post_applied(
        &self,
        machine: StackMachine<Value>,
        method: Method,
        offset: usize,
        opcode: u8,
        outcome: ApplyOutcome,
        hooks: Self,
        after: StackMachine<Value>,
    ) -> bool {
        &&& after == machine
        &&& hooks.allocation_offset == self.allocation_offset
    }

    fn post_apply(
        &mut self,
        machine: &mut StackMachine<Value>,
        method: &Method,
        offset: usize,
        opcode: u8,
        outcome: ApplyOutcome,
    ) {
    }

    fn pre_apply(&mut self, machine: &mut StackMachine<Value>, method: &Method, offset: usize, opcode: u8) -> (res: ApplyOutcome)
        ensures
            (res == ApplyOutcome::Applied) == (opcode == opcodes::NEW),
            opcode == opcodes::NEW ==> final(machine).stack() == pushed(
                old(machine).config(),
                old(machine).stack(),
                Value::Symbol(old(self).allocation_offset),
            ) && final(machine).locals() == old(machine).locals() && final(machine).default_value()
                == old(machine).default_value() && final(machine).config() == old(machine).config(),
            opcode != opcodes::NEW ==> *final(machine) == *old(machine),
            final(self).allocation_offset == old(self).allocation_offset,
    {
        if opcode == opcodes::NEW {
            machine.push(Value::Symbol(self.allocation_offset));
            ApplyOutcome::Applied
        } else {
            ApplyOutcome::NotHandled
        }
    }
}

/// Program point, symbolic machine, the creation offsets of the resources
/// still held (ascending), and the branch filter of a null test just taken.
#[derive(Clone, Debug, PartialEq, Eq, PartialOrd, Ord)]
pub struct ExecutionState {
    pub block_start: u32,
    pub instruction_index: usize,
    pub machine: StackMachine<Value>,
    pub active: Vec<u32>,
    pub branch_filter: Option<BranchFilter>,
}

impl WorklistState for ExecutionState {
    closed spec fn position(self) -> (u32, usize) {
        (self.block_start, self.instruction_index)
    }

    closed spec fn repositioned(self, block_start: u32, instruction_index: usize) -> Self {
        ExecutionState { block_start, instruction_index, ..self }
    }

    proof fn lemma_repositioned(self, block_start: u32, instruction_index: usize) {
    }

    fn block_start(&self) -> (res: u32) {
        self.block_start
    }

    fn instruction_index(&self) -> (res: usize) {
        self.instruction_index
    }

    fn set_position(&mut self, block_start: u32, instruction_index: usize) {
        self.block_start = block_start;
        self.instruction_index = instruction_index;
    }
}

/// The values of `v`, ascending and without repeats.
pub fn normalized(v: &Vec<u32>) -> (res: Vec<u32>)
    ensures
        strictly_increasing(res@),
        res@.to_set() == v@.to_set(),
{
    let mut out: Vec<u32> = Vec::new();
    let mut i: usize = 0;
    while i < v.len()
        invariant
            i <= v@.len(),
            strictly_increasing(out@),
            out@.to_set() == v@.subrange(0, i as int).to_set(),
        decreases v.len() - i,
    {
        insert_sorted_unique(&mut out, v[i]);
        proof {
            assert(v@.subrange(0, i + 1) =~= v@.subrange(0, i as int) + seq![v@[i as int]]);
            Seq::lemma_to_set_insert_commutes(v@.subrange(0, i as int), v@[i as int]);
        }
        i = i + 1;
    }
    assert(v@.subrange(0, i as int) =~= v@);
    out
}

/// Removes `x` from an ascending list.
pub fn remove_value(v: &mut Vec<u32>, x: u32)
    requires
        strictly_increasing(old(v)@),
    ensures
        strictly_increasing(final(v)@),
        final(v)@.to_set() == old(v)@.to_set().remove(x),
{
    let ghost before = v@;
    let mut i: usize = 0;
    while i < v.len()
        invariant
            v@ == before,
            before == old(v)@,
            strictly_increasing(before),
            i <= v@.len(),
            forall|j: int| 0 <= j < i ==> v@[j] != x,
        decreases v.len() - i,
    {
        if v[i] == x {
            v.remove(i);
            proof {
                assert(v@ =~= before.remove(i as int));
                assert forall|a: int, b: int| 0 <= a < b < v@.len() implies v@[a] < v@[b] by {
                    if a < i && b < i {
                    } else if a < i {
                        assert(v@[b] == before[b + 1]);
                    } else {
                        assert(v@[a] == before[a + 1] && v@[b] == before[b + 1]);
                    }
                }
                assert forall|y: u32| v@.to_set().contains(y) == before.to_set().remove(x).contains(y) by {
                    if v@.to_set().contains(y) {
                        let k = choose|k: int| 0 <= k < v@.len() && v@[k] == y;
                        if k < i {
                            assert(before[k] == y);
                        } else {
                            assert(before[k + 1] == y);
                            assert(before[i as int] < before[k + 1]);
                        }
                    }
                    if before.to_set().remove(x).contains(y) {
                        let k = choose|k: int| 0 <= k < before.len() && before[k] == y;
                        if k < i {
                            assert(v@[k] == y);
                        } else {
                            assert(v@[k - 1] == y);
                        }
                    }
                }
                assert(v@.to_set() =~= before.to_set().remove(x));
                assert(before == old(v)@);
            }
            return;
        }
        i = i + 1;
    }
    proof {
        assert(before.to_set() =~= before.to_set().remove(x));
    }
}

/// Releases the resource a value stands for, if it is one.
pub fn escape_value(value: Value, state: &mut ExecutionState)
    requires
        strictly_increasing(old(state).active@),
    ensures
        strictly_increasing(final(state).active@),
        final(state).active@.to_set() == match value {
            Value::Symbol(s) => old(state).active@.to_set().remove(s),
            Value::Unknown => old(state).active@.to_set(),
        },
        final(state).machine == old(state).machine,
        final(state).branch_filter == old(state).branch_filter,
        final(state).block_start == old(state).block_start,
        final(state).instruction_index == old(state).instruction_index,
{
    match value {
        Value::Symbol(symbol) => remove_value(&mut state.active, symbol),
        Value::Unknown => {},
    }
}

/// Releases the resource on top of the stack, if it is one (the value stays).
pub fn escape_top_symbol(state: &mut ExecutionState)
    requires
        strictly_increasing(old(state).active@),
    ensures
        strictly_increasing(final(state).active@),
        final(state).active@.to_set() == if old(state).machine.stack().len() > 0 {
            match old(state).machine.stack().last() {
                Value::Symbol(s) => old(state).active@.to_set().remove(s),
                Value::Unknown => old(state).active@.to_set(),
            }
        } else {
            old(state).active@.to_set()
        },
        final(state).machine == old(state).machine,
        final(state).branch_filter == old(state).branch_filter,
        final(state).block_start == old(state).block_start,
        final(state).instruction_index == old(state).instruction_index,
{
    let len = state.machine.stack_len();
    if len > 0 {
        let top = state.machine.stack_values()[len - 1];
        escape_value(top, state);
    }
}

/// Applies the default stack effect of an instruction, with `new` creating the
/// symbol of its offset.
pub fn apply_stack_effect(method: &Method, instruction: &Instruction, state: &mut ExecutionState)
    ensures
        instruction.opcode == opcodes::NEW ==> {
            &&& final(state).machine.stack() == pushed(
                old(state).machine.config(),
                old(state).machine.stack(),
                Value::Symbol(instruction.offset),
            )
            &&& final(state).machine.locals() == old(state).machine.locals()
            &&& final(state).machine.default_value() == old(state).machine.default_value()
            &&& final(state).machine.config() == old(state).machine.config()
        },
        instruction.opcode != opcodes::NEW ==> match effect_of(instruction.opcode) {
            Some(effect) => effect_applied(
                old(state).machine,
                final(state).machine,
                method.bytecode@,
                instruction.offset as usize,
                Value::Unknown,
                Value::Unknown,
                effect,
            ),
            None => final(state).machine == old(state).machine,
        },
        final(state).active == old(state).active,
        final(state).block_start == old(state).block_start,
        final(state).instruction_index == old(state).instruction_index,
        final(state).branch_filter == old(state).branch_filter,
{
    let domain = ResourceValueDomain;
    let mut hook = AllocationHook { allocation_offset: instruction.offset };
    let mut coverage = SemanticsCoverage::new();
    let _ = apply_semantics(
        &mut state.machine,
        method,
        instruction.offset as usize,
        instruction.opcode,
        &domain,
        &mut hook,
        &mut coverage,
        SemanticsDebugConfig::disabled(),
    );
}

/// Marks a symbol as a held resource.
pub fn hold(state: &mut ExecutionState, symbol: u32)
    requires
        strictly_increasing(old(state).active@),
    ensures
        strictly_increasing(final(state).active@),
        final(state).active@.to_set() == old(state).active@.to_set().insert(symbol),
        final(state).block_start == old(state).block_start,
        final(state).instruction_index == old(state).instruction_index,
        final(state).machine == old(state).machine,
        final(state).branch_filter == old(state).branch_filter,
{
    insert_sorted_unique(&mut state.active, symbol);
}

/// The type `name` is of the tracked kind: a known JDK type is among the
/// names its superclasses and interfaces lead to (itself included).
pub open spec fn resource_type_spec(kind: ResourceKind, classes: Seq<Class>, name: Seq<char>) -> bool {
    match kind {
        ResourceKind::AutoCloseable => autocloseable_type_spec(classes, name),
        ResourceKind::ExecutorService => executor_service_type_spec(classes, name),
    }
}

/// The values `n` pops take off `stack`, in the order popped (the default on
/// an empty stack).
pub open spec fn popped_args(stack: Seq<Value>, d: Value, n: nat) -> Seq<Value> {
    Seq::new(n, |i: int| top_or(popped(stack, i as nat), d))
}

/// The resources among some values.
pub open spec fn symbols_of(vs: Seq<Value>) -> Set<u32> {
    Set::new(|s: u32| exists|i: int| 0 <= i < vs.len() && vs[i] == Value::Symbol(s))
}

/// A value with the resource `s` forgotten.
pub open spec fn forget(v: Value, s: u32) -> Value {
    if v == Value::Symbol(s) {
        Value::Unknown
    } else {
        v
    }
}

/// The type the class path decides on for a call: the owner of a
/// constructor, else the class a call returns.
pub open spec fn decided_type(call: CallSite, ret: TypeShape) -> Seq<char> {
    if call.name@ == "<init>"@ {
        call.owner@
    } else {
        match ret {
            TypeShape::Object(n) => n,
            _ => Seq::empty(),
        }
    }
}

/// The stack, locals and held resources after a call with parameters
/// `params` and result `ret`, where `is_res` tells whether
/// `decided_type(call, ret)` is of the tracked kind. The arguments and (unless static) the
/// receiver are popped. A constructor of a tracked type holds its new object,
/// one of another type forgets it; then, unless the owner is a no-op
/// resource, the arguments escape. Another call lets the arguments escape,
/// releases its receiver when it is `close()` (`shutdown()` and the like for
/// executors), and pushes its result: held at the call's offset when it is of
/// the tracked kind (an executor factory), unknown otherwise.
pub open spec fn invoke_effect(
    kind: ResourceKind,
    call: CallSite,
    params: Seq<TypeShape>,
    ret: TypeShape,
    is_res: bool,
    cfg: StackMachineConfig,
    d: Value,
    stack: Seq<Value>,
    locals: Map<usize, Value>,
    active: Set<u32>,
) -> (Seq<Value>, Map<usize, Value>, Set<u32>) {
    let n = params.len();
    let args = popped_args(stack, d, n);
    let st1 = popped(stack, n);
    let has_recv = call.kind != CallKind::Static;
    let recv = if has_recv { top_or(st1, d) } else { Value::Unknown };
    let st2 = if has_recv { popped(st1, 1) } else { st1 };
    let argsyms = symbols_of(args);
    if call.name@ == "<init>"@ {
        let excluded = kind == ResourceKind::AutoCloseable && excluded_noop_spec(call.owner@);
        let (st3, loc3, act3) = match recv {
            Value::Symbol(s) => if !excluded && is_res {
                (st2, locals, active.insert(s))
            } else {
                (st2.map_values(|v: Value| forget(v, s)), locals.map_values(|v: Value| forget(v, s)), active)
            },
            Value::Unknown => (st2, locals, active),
        };
        (st3, loc3, if excluded { act3 } else { act3.difference(argsyms) })
    } else {
        let releases = match kind {
            ResourceKind::AutoCloseable => close_call_spec(call),
            ResourceKind::ExecutorService => shutdown_call_spec(call),
        };
        let act = match recv {
            Value::Symbol(s) => if releases { active.difference(argsyms).remove(s) } else { active.difference(argsyms) },
            Value::Unknown => active.difference(argsyms),
        };
        let rk = return_kind_of(ret);
        let held = match kind {
            ResourceKind::AutoCloseable => rk == ReturnKind::Reference && ret is Object && !excluded_noop_spec(decided_type(call, ret)) && is_res,
            ResourceKind::ExecutorService => executor_factory_spec(call),
        };
        if held {
            (pushed(cfg, st2, Value::Symbol(call.offset)), locals, act.insert(call.offset))
        } else if rk != ReturnKind::Void {
            (pushed(cfg, st2, Value::Unknown), locals, act)
        } else {
            (st2, locals, act)
        }
    }
}

/// Pops a call's `n` arguments and, when `has_receiver`, its receiver.
fn pop_call_operands(state: &mut ExecutionState, n: usize, has_receiver: bool) -> (res: (Vec<Value>, Value))
    ensures
        res.0@ == popped_args(old(state).machine.stack(), old(state).machine.default_value(), n as nat),
        res.1 == (if has_receiver {
            top_or(popped(old(state).machine.stack(), n as nat), old(state).machine.default_value())
        } else {
            Value::Unknown
        }),
        final(state).machine.stack() == (if has_receiver {
            popped(popped(old(state).machine.stack(), n as nat), 1)
        } else {
            popped(old(state).machine.stack(), n as nat)
        }),
        final(state).machine.locals() == old(state).machine.locals(),
        final(state).machine.default_value() == old(state).machine.default_value(),
        final(state).machine.config() == old(state).machine.config(),
        final(state).active == old(state).active,
        final(state).block_start == old(state).block_start,
        final(state).instruction_index == old(state).instruction_index,
        final(state).branch_filter == old(state).branch_filter,
{
    let ghost st0 = state.machine.stack();
    let ghost d = state.machine.default_value();
    let mut args: Vec<Value> = Vec::new();
    let mut k: usize = 0;
    assert(popped(st0, 0) =~= st0);
    while k < n
        invariant
            k <= n,
            args@ == popped_args(st0, d, k as nat),
            state.machine.stack() == popped(st0, k as nat),
            state.machine.locals() == old(state).machine.locals(),
            state.machine.default_value() == d,
            d == old(state).machine.default_value(),
            st0 == old(state).machine.stack(),
            state.machine.config() == old(state).machine.config(),
            state.active == old(state).active,
            state.block_start == old(state).block_start,
            state.instruction_index == old(state).instruction_index,
            state.branch_filter == old(state).branch_filter,
        decreases n - k,
    {
        let v = state.machine.pop();
        args.push(v);
        k = k + 1;
        assert(popped(popped(st0, (k - 1) as nat), 1) =~= popped(st0, k as nat));
        assert(args@ =~= popped_args(st0, d, k as nat));
    }
    let receiver = if has_receiver {
        state.machine.pop()
    } else {
        Value::Unknown
    };
    (args, receiver)
}

/// Lets each of the values escape: the resources among them are no longer held.
fn escape_all(args: &Vec<Value>, state: &mut ExecutionState)
    requires
        strictly_increasing(old(state).active@),
    ensures
        strictly_increasing(final(state).active@),
        final(state).active@.to_set() == old(state).active@.to_set().difference(symbols_of(args@)),
        final(state).machine == old(state).machine,
        final(state).block_start == old(state).block_start,
        final(state).instruction_index == old(state).instruction_index,
        final(state).branch_filter == old(state).branch_filter,
{
    let ghost a0 = state.active@.to_set();
    let mut i: usize = 0;
    assert(a0 =~= a0.difference(symbols_of(args@.subrange(0, 0))));
    while i < args.len()
        invariant
            i <= args@.len(),
            strictly_increasing(state.active@),
            a0 == old(state).active@.to_set(),
            state.active@.to_set() == a0.difference(symbols_of(args@.subrange(0, i as int))),
            state.machine == old(state).machine,
            state.block_start == old(state).block_start,
            state.instruction_index == old(state).instruction_index,
            state.branch_filter == old(state).branch_filter,
        decreases args.len() - i,
    {
        escape_value(args[i], state);
        proof {
            let pre = args@.subrange(0, i as int);
            let post = args@.subrange(0, i + 1);
            assert forall|x: u32| symbols_of(post).contains(x) == (symbols_of(pre).contains(x) || args@[i as int] == Value::Symbol(x)) by {
                if symbols_of(post).contains(x) {
                    let j = choose|j: int| 0 <= j < post.len() && post[j] == Value::Symbol(x);
                    if j < i {
                        assert(pre[j] == post[j]);
                    }
                }
                if symbols_of(pre).contains(x) {
                    let j = choose|j: int| 0 <= j < pre.len() && pre[j] == Value::Symbol(x);
                    assert(post[j] == pre[j]);
                }
                if args@[i as int] == Value::Symbol(x) {
                    assert(post[i as int] == args@[i as int]);
                }
            }
            assert(state.active@.to_set() =~= a0.difference(symbols_of(post)));
        }
        i = i + 1;
    }
    assert(args@.subrange(0, args@.len() as int) =~= args@);
}

/// Forgets the resource `symbol`: every stack and local value that is it
/// becomes unknown.
fn forget_symbol(state: &mut ExecutionState, symbol: u32)
    ensures
        final(state).machine.stack() == old(state).machine.stack().map_values(|v: Value| forget(v, symbol)),
        final(state).machine.locals() == old(state).machine.locals().map_values(|v: Value| forget(v, symbol)),
        final(state).machine.default_value() == old(state).machine.default_value(),
        final(state).machine.config() == old(state).machine.config(),
        final(state).active == old(state).active,
        final(state).block_start == old(state).block_start,
        final(state).instruction_index == old(state).instruction_index,
        final(state).branch_filter == old(state).branch_filter,
{
    state.machine.rewrite_values(|v: Value| -> (r: Value)
        ensures
            r == forget(v, symbol),
    {
        if v == Value::Symbol(symbol) {
            Value::Unknown
        } else {
            v
        }
    });
    assert(state.machine.stack() =~= old(state).machine.stack().map_values(|v: Value| forget(v, symbol)));
    assert(state.machine.locals() =~= old(state).machine.locals().map_values(|v: Value| forget(v, symbol)));
}

/// Applies a call: constructors of tracked types take hold of their new
/// object, releases (`close`, `shutdown`) let go of their receiver, arguments
/// escape, and results of tracked types are held at the call's offset.
#[verifier::spinoff_prover]
pub fn handle_invoke(kind: ResourceKind, call: &CallSite, state: &mut ExecutionState, classes: &Vec<&Class>) -> (res: Result<(), AnalysisError>)
    requires
        strictly_increasing(old(state).active@),
    ensures
        (res is Err) == (jdescriptor_parse(call.descriptor@) is None),
        strictly_increasing(final(state).active@),
        final(state).block_start == old(state).block_start,
        final(state).instruction_index == old(state).instruction_index,
        final(state).branch_filter == old(state).branch_filter,
        final(state).machine.default_value() == old(state).machine.default_value(),
        final(state).machine.config() == old(state).machine.config(),
        jdescriptor_parse(call.descriptor@) matches Some((params, ret)) ==> (
            final(state).machine.stack(),
            final(state).machine.locals(),
            final(state).active@.to_set(),
        ) == invoke_effect(
            kind,
            *call,
            params,
            ret,
            resource_type_spec(kind, class_seq(classes@), decided_type(*call, ret)),
            old(state).machine.config(),
            old(state).machine.default_value(),
            old(state).machine.stack(),
            old(state).machine.locals(),
            old(state).active@.to_set(),
        ),
{
    proof {
        reveal_strlit("<init>");
    }
    let ghost cs = class_seq(classes@);
    let ghost cfg = state.machine.config();
    let ghost d = state.machine.default_value();
    let ghost st0 = state.machine.stack();
    let ghost loc0 = state.machine.locals();
    let ghost act0 = state.active@.to_set();
    let summary = method_descriptor_summary(call.descriptor.as_str())?;
    let ghost parsed = jdescriptor_parse(call.descriptor@)->0;
    let ghost params = parsed.0;
    let ghost ret = parsed.1;
    let (args, receiver) = pop_call_operands(state, summary.param_count, call.kind != CallKind::Static);
    let ghost st2 = state.machine.stack();
    if crate::text::str_eq(call.name.as_str(), "<init>") {
        let excluded = match kind {
            ResourceKind::AutoCloseable => is_excluded_noop_type(call.owner.as_str()),
            ResourceKind::ExecutorService => false,
        };
        let is_res = match kind {
            ResourceKind::AutoCloseable => is_autocloseable_constructor(call, classes),
            ResourceKind::ExecutorService => is_executor_constructor(call, classes),
        };
        let tracks = !excluded && is_res;
        match receiver {
            Value::Symbol(symbol) => {
                if tracks {
                    hold(state, symbol);
                } else {
                    forget_symbol(state, symbol);
                }
            },
            _ => {},
        }
        if !excluded {
            escape_all(&args, state);
        }
        proof {
            assert(call.name@ == "<init>"@);
            assert(decided_type(*call, ret) == call.owner@);
            assert(is_res == resource_type_spec(kind, cs, decided_type(*call, ret)));
            let e = invoke_effect(kind, *call, params, ret, is_res, cfg, d, st0, loc0, act0);
            assert(state.machine.stack() == e.0);
            assert(state.machine.locals() == e.1);
            assert(state.active@.to_set() =~= e.2);
        }
        return Ok(());
    }
    let releases = match kind {
        ResourceKind::AutoCloseable => is_close_call(call),
        ResourceKind::ExecutorService => is_shutdown_call(call),
    };
    let release_receiver: Option<u32> = if releases {
        match receiver {
            Value::Symbol(symbol) => if contains_u32(&state.active, symbol) {
                Some(symbol)
            } else {
                None
            },
            _ => None,
        }
    } else {
        None
    };
    escape_all(&args, state);
    match release_receiver {
        Some(symbol) => remove_value(&mut state.active, symbol),
        None => {},
    }
    let ghost act = state.active@.to_set();
    proof {
        match receiver {
            Value::Symbol(s) => if releases {
                assert(act =~= act0.difference(symbols_of(args@)).remove(s));
            },
            Value::Unknown => {},
        }
    }
    let mut is_res = false;
    let ghost mut decided = false;
    let mut held = false;
    match kind {
        ResourceKind::AutoCloseable => {
            if summary.return_kind == ReturnKind::Reference {
                match method_return_class_name(call.descriptor.as_str()) {
                    Ok(Some(return_class)) => {
                        is_res = is_autocloseable_type(return_class.as_str(), classes);
                        proof {
                            decided = true;
                            assert(decided_type(*call, ret) == return_class@);
                        }
                        if !is_excluded_noop_type(return_class.as_str()) && is_res {
                            held = true;
                        }
                    },
                    _ => {},
                }
            }
        },
        ResourceKind::ExecutorService => {
            held = is_executor_factory_call(call);
        },
    }
    if held {
        hold(state, call.offset);
        state.machine.push(Value::Symbol(call.offset));
    } else if summary.return_kind != ReturnKind::Void {
        state.machine.push(Value::Unknown);
    }
    proof {
        let w = resource_type_spec(kind, cs, decided_type(*call, ret));
        assert(decided ==> is_res == w);
        let e = invoke_effect(kind, *call, params, ret, w, cfg, d, st0, loc0, act0);
        assert(state.machine.stack() == e.0);
        assert(state.machine.locals() == e.1);
        assert(state.active@.to_set() =~= e.2);
    }
    Ok(())
}

/// Applies an `invokedynamic`: its arguments are popped and escape, and a
/// non-void result is pushed as unknown.
pub fn handle_invoke_dynamic(descriptor: &str, state: &mut ExecutionState) -> (res: Result<(), AnalysisError>)
    requires
        strictly_increasing(old(state).active@),
    ensures
        (res is Err) == (jdescriptor_parse(descriptor@) is None),
        strictly_increasing(final(state).active@),
        final(state).block_start == old(state).block_start,
        final(state).instruction_index == old(state).instruction_index,
        final(state).branch_filter == old(state).branch_filter,
        final(state).machine.default_value() == old(state).machine.default_value(),
        final(state).machine.config() == old(state).machine.config(),
        final(state).machine.locals() == old(state).machine.locals(),
        jdescriptor_parse(descriptor@) matches Some((params, ret)) ==> {
            let rest = popped(old(state).machine.stack(), params.len());
            &&& final(state).machine.stack() == if return_kind_of(ret) != ReturnKind::Void {
                pushed(old(state).machine.config(), rest, Value::Unknown)
            } else {
                rest
            }
            &&& final(state).active@.to_set() == old(state).active@.to_set().difference(
                symbols_of(popped_args(old(state).machine.stack(), old(state).machine.default_value(), params.len())),
            )
        },
{
    let summary = method_descriptor_summary(descriptor)?;
    let (args, _) = pop_call_operands(state, summary.param_count, false);
    escape_all(&args, state);
    if summary.return_kind != ReturnKind::Void {
        state.machine.push(Value::Unknown);
    }
    Ok(())
}

/// The successors of `block_start` along its branch edges (or its
/// fall-through edges), ascending and without repeats.
pub fn branch_successors(method: &Method, block_start: u32, filter: BranchFilter) -> (res: Vec<u32>)
    ensures
        strictly_increasing(res@),
        forall|t: u32| #[trigger] res@.contains(t) == exists|i: int|
            0 <= i < method.cfg.edges@.len() && method.cfg.edges@[i].from == block_start && method.cfg.edges@[i].to == t
                && method.cfg.edges@[i].kind == (match filter {
                    BranchFilter::TakeBranch => EdgeKind::Branch,
                    BranchFilter::TakeFallThrough => EdgeKind::FallThrough,
                }),
{
    let wanted = match filter {
        BranchFilter::TakeBranch => EdgeKind::Branch,
        BranchFilter::TakeFallThrough => EdgeKind::FallThrough,
    };
    let edges = &method.cfg.edges;
    let mut selected: Vec<u32> = Vec::new();
    let mut i: usize = 0;
    while i < edges.len()
        invariant
            i <= edges@.len(),
            edges@ == method.cfg.edges@,
            strictly_increasing(selected@),
            forall|t: u32| #[trigger] selected@.contains(t) == exists|k: int|
                0 <= k < i && edges@[k].from == block_start && edges@[k].to == t && edges@[k].kind == wanted,
        decreases edges.len() - i,
    {
        let edge = edges[i];
        if edge.from == block_start && edge.kind == wanted {
            let ghost before = selected@;
            insert_sorted_unique(&mut selected, edge.to);
            proof {
                assert forall|t: u32| #[trigger] selected@.contains(t) == exists|k: int|
                    0 <= k < i + 1 && edges@[k].from == block_start && edges@[k].to == t && edges@[k].kind == wanted by {
                    assert(selected@.to_set().contains(t) == selected@.contains(t));
                    assert(before.to_set().contains(t) == before.contains(t));
                    if t == edge.to {
                        assert(edges@[i as int] == edge);
                    }
                }
            }
        } else {
            proof {
                assert forall|t: u32| #[trigger] selected@.contains(t) == exists|k: int|
                    0 <= k < i + 1 && edges@[k].from == block_start && edges@[k].to == t && edges@[k].kind == wanted by {
                    if exists|k: int| 0 <= k < i + 1 && edges@[k].from == block_start && edges@[k].to == t && edges@[k].kind == wanted {
                        let k = choose|k: int| 0 <= k < i + 1 && edges@[k].from == block_start && edges@[k].to == t && edges@[k].kind == wanted;
                        if k == i {
                            assert(edges@[k] == edge);
                        }
                    }
                }
            }
        }
        i = i + 1;
    }
    selected
}

/// A copy of the state, with no branch filter, at the start of each successor.
pub fn follow_successors_without_branch_filter(state: &ExecutionState, successors: &[u32]) -> (res: BlockEndStep<ExecutionState, u32>)
    ensures
        res.findings@.len() == 0,
        res.next_states@.len() == successors@.len(),
        forall|i: int|
            0 <= i < successors@.len() ==> (#[trigger] res.next_states@[i]).block_start == successors@[i]
                && res.next_states@[i].instruction_index == 0,
{
    let mut next = state.clone();
    next.branch_filter = None;
    BlockEndStep::follow_all_successors(&next, successors)
}

/// The opcodes whose transfer goes to the call handlers (all but the ones
/// the lifecycle handles itself).
pub open spec fn lifecycle_handled_by_call(op: u8) -> bool {
    op != opcodes::AASTORE && op != opcodes::ARETURN && op != opcodes::ATHROW && op != opcodes::PUTSTATIC
        && op != opcodes::PUTFIELD && op != opcodes::IFNULL && op != opcodes::IFNONNULL
}

/// Block `b` has an edge of the filter's kind to `t`.
pub open spec fn filtered_edge(method: Method, b: u32, filter: BranchFilter, t: u32) -> bool {
    exists|i: int|
        0 <= i < method.cfg.edges@.len() && method.cfg.edges@[i].from == b && method.cfg.edges@[i].to == t
            && method.cfg.edges@[i].kind == (match filter {
                BranchFilter::TakeBranch => EdgeKind::Branch,
                BranchFilter::TakeFallThrough => EdgeKind::FallThrough,
            })
}

/// The blocks a block end goes on to: under a branch filter with matching
/// edges, their targets ascending and each once; otherwise `successors`.
pub open spec fn lifecycle_targets(method: Method, state: ExecutionState, successors: Seq<u32>, targets: Seq<u32>) -> bool {
    match state.branch_filter {
        Some(f) => if exists|t: u32| filtered_edge(method, state.block_start, f, t) {
            strictly_increasing(targets) && forall|t: u32| #[trigger] targets.contains(t) == filtered_edge(method, state.block_start, f, t)
        } else {
            targets == successors
        },
        None => targets == successors,
    }
}

/// The worklist callbacks of a lifecycle analysis.
pub struct LifecycleSemantics<'a> {
    pub kind: ResourceKind,
    pub entry_block: u32,
    pub classes: &'a Vec<&'a Class>,
}

impl<'a> WorklistSemantics for LifecycleSemantics<'a> {
    type State = ExecutionState;

    type Finding = u32;

    fn initial_states(&self, method: &Method) -> (res: Vec<ExecutionState>)
        ensures
            res@.len() == 1,
            res@[0].block_start == self.entry_block,
            res@[0].instruction_index == 0,
            res@[0].machine.stack() == Seq::<Value>::empty(),
            res@[0].machine.locals() == Map::<usize, Value>::empty(),
            res@[0].machine.default_value() == Value::Unknown,
            res@[0].machine.config() == (StackMachineConfig {
                max_stack_depth: Some(MAX_TRACKED_STACK_DEPTH),
                max_locals: None,
                max_symbolic_identities: None,
            }),
            res@[0].active@ == Seq::<u32>::empty(),
            res@[0].branch_filter is None,
    {
        let machine = StackMachine::with_config(
            Value::Unknown,
            StackMachineConfig { max_stack_depth: Some(MAX_TRACKED_STACK_DEPTH), max_locals: None, max_symbolic_identities: None },
        );
        let mut v: Vec<ExecutionState> = Vec::new();
        v.push(ExecutionState {
            block_start: self.entry_block,
            instruction_index: 0,
            machine,
            active: Vec::new(),
            branch_filter: None,
        });
        v
    }

    fn transfer_instruction(&self, method: &Method, instruction: &Instruction, state: &mut ExecutionState) -> (res: Result<
        InstructionStep<u32>,
        AnalysisError,
    >)
        ensures
            (res is Err) == (lifecycle_handled_by_call(instruction.opcode) && match instruction.kind {
                InstructionKind::Invoke(call) => jdescriptor_parse(call.descriptor@) is None,
                InstructionKind::InvokeDynamic { descriptor, .. } => jdescriptor_parse(descriptor@) is None,
                _ => false,
            }),
            res matches Ok(step) ==> step.findings@ == Seq::<u32>::empty() && !step.terminate_path,
            final(state).block_start == old(state).block_start,
            final(state).instruction_index == old(state).instruction_index,
    {
        state.branch_filter = None;
        state.active = normalized(&state.active);
        let op = instruction.opcode;
        if op == opcodes::AASTORE {
            escape_top_symbol(state);
            state.machine.pop_n(3);
        } else if op == opcodes::ARETURN || op == opcodes::ATHROW {
            let value = state.machine.pop();
            escape_value(value, state);
        } else if op == opcodes::PUTSTATIC {
            escape_top_symbol(state);
            state.machine.pop_n(1);
        } else if op == opcodes::PUTFIELD {
            escape_top_symbol(state);
            state.machine.pop_n(2);
        } else if op == opcodes::IFNULL || op == opcodes::IFNONNULL {
            let value = state.machine.pop();
            match value {
                Value::Symbol(symbol) => {
                    if contains_u32(&state.active, symbol) {
                        state.branch_filter = Some(if op == opcodes::IFNULL {
                            BranchFilter::TakeFallThrough
                        } else {
                            BranchFilter::TakeBranch
                        });
                    }
                },
                Value::Unknown => {},
            }
        } else {
            match &instruction.kind {
                InstructionKind::Invoke(call) => {
                    handle_invoke(self.kind, call, state, self.classes)?;
                },
                InstructionKind::InvokeDynamic { descriptor, .. } => {
                    handle_invoke_dynamic(descriptor.as_str(), state)?;
                },
                _ => apply_stack_effect(method, instruction, state),
            }
        }
        Ok(InstructionStep::continue_path())
    }

    fn on_block_end(&self, method: &Method, state: &ExecutionState, successors: &[u32]) -> (res: Result<
        BlockEndStep<ExecutionState, u32>,
        AnalysisError,
    >)
        ensures
            successors@.len() == 0 ==> (res matches Ok(step) && step.findings@ == state.active@
                && step.next_states@.len() == 0),
            successors@.len() > 0 ==> (res matches Ok(step) && step.findings@.len() == 0 && lifecycle_targets(
                *method,
                *state,
                successors@,
                step.next_states@.map_values(|n: ExecutionState| n.block_start),
            ) && forall|i: int| 0 <= i < step.next_states@.len() ==> (#[trigger] step.next_states@[i]).instruction_index == 0),
    {
        if successors.len() == 0 {
            let mut step = BlockEndStep::terminal();
            let mut i: usize = 0;
            while i < state.active.len()
                invariant
                    i <= state.active@.len(),
                    step.findings@ == state.active@.subrange(0, i as int),
                    step.next_states@.len() == 0,
                decreases state.active.len() - i,
            {
                step = step.with_finding(state.active[i]);
                proof {
                    assert(step.findings@ =~= state.active@.subrange(0, i + 1));
                }
                i = i + 1;
            }
            proof {
                assert(state.active@.subrange(0, i as int) =~= state.active@);
            }
            return Ok(step);
        }
        let filtered: Vec<u32> = match state.branch_filter {
            Some(filter) => branch_successors(method, state.block_start, filter),
            None => Vec::new(),
        };
        if filtered.len() > 0 {
            let step = follow_successors_without_branch_filter(state, filtered.as_slice());
            proof {
                assert(step.next_states@.map_values(|n: ExecutionState| n.block_start) =~= filtered@);
                match state.branch_filter {
                    Some(f) => {
                        assert(filtered@.contains(filtered@[0]));
                        assert forall|t: u32| #[trigger] filtered@.contains(t) == filtered_edge(*method, state.block_start, f, t) by {}
                        assert(filtered_edge(*method, state.block_start, f, filtered@[0]));
                    },
                    None => {
                        assert(filtered@.len() == 0);
                    },
                }
            }
            return Ok(step);
        }
        let step = follow_successors_without_branch_filter(state, successors);
        proof {
            assert(step.next_states@.map_values(|n: ExecutionState| n.block_start) =~= successors@);
            match state.branch_filter {
                Some(f) => {
                    if exists|t: u32| filtered_edge(*method, state.block_start, f, t) {
                        let t = choose|t: u32| filtered_edge(*method, state.block_start, f, t);
                        assert(filtered@.contains(t));
                    }
                },
                None => {},
            }
        }
        Ok(step)
    }
}

/// The smallest block start of the method (0 without blocks).
pub fn entry_block(method: &Method) -> (res: u32)
    ensures
        method.cfg.blocks@.len() == 0 ==> res == 0,
        method.cfg.blocks@.len() > 0 ==> (exists|i: int| 0 <= i < method.cfg.blocks@.len() && method.cfg.blocks@[i].start_offset == res)
            && forall|i: int| 0 <= i < method.cfg.blocks@.len() ==> res <= #[trigger] method.cfg.blocks@[i].start_offset,
{
    if method.cfg.blocks.len() == 0 {
        return 0;
    }
    let mut best = method.cfg.blocks[0].start_offset;
    let mut i: usize = 1;
    while i < method.cfg.blocks.len()
        invariant
            1 <= i <= method.cfg.blocks@.len(),
            exists|k: int| 0 <= k < i && method.cfg.blocks@[k].start_offset == best,
            forall|k: int| 0 <= k < i ==> best <= #[trigger] method.cfg.blocks@[k].start_offset,
        decreases method.cfg.blocks.len() - i,
    {
        if method.cfg.blocks[i].start_offset < best {
            best = method.cfg.blocks[i].start_offset;
        }
        i = i + 1;
    }
    best
}

/// The creation offsets of the resources that some path leaves held,
/// ascending and without repeats.
pub fn analyze_lifecycle(kind: ResourceKind, method: &Method, classes: &Vec<&Class>) -> (res: Result<Vec<u32>, AnalysisError>)
    ensures
        res matches Ok(v) ==> strictly_increasing(v@),
{
    let semantics = LifecycleSemantics { kind, entry_block: entry_block(method), classes };
    let findings = analyze_method(method, &semantics)?;
    let mut out: Vec<u32> = Vec::new();
    let mut i: usize = 0;
    while i < findings.len()
        invariant
            strictly_increasing(out@),
        decreases findings.len() - i,
    {
        insert_sorted_unique(&mut out, findings[i]);
        i = i + 1;
    }
    Ok(out)
}

} // verus!
