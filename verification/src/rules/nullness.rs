//! Nullness checks guided by JSpecify annotations: overrides that weaken a
//! contract, and a forward dataflow over each method that reports calls on a
//! possibly null receiver and `@NonNull` methods returning null.
use vstd::prelude::*;
use crate::descriptor::{ReturnKind, jdescriptor_parse, method_descriptor_summary, return_kind_of};
use crate::engine::{AnalysisContext, opt_view};
use crate::error::AnalysisError;
use crate::ir::{BasicBlock, CallKind, CallSite, Class, Instruction, Method, Nullness, class_seq};
use crate::opcodes;
use crate::rules::location::{
    Finding, FindingView, RuleMetadata, dedup_findings, deduplicate_findings, finding, finding_spec, finding_views, keys_distinct, lemma_dedup_findings, method_location_spec,
    method_location_with_line, push_finding,
};
use crate::bytecode::{instruction_length, opcode_length};
use crate::dataflow::worklist::{MethodGraph, last_block_with_start};
use crate::ir::{EdgeKind, FlowEdge};
use crate::rules::prefer_enumset::context_classes;
use crate::text::{decimal, push_decimal, str_eq, views};
use std::collections::{BTreeMap, VecDeque};

verus! {

broadcast use vstd::std_specs::btree::group_btree_axioms;

/// A stack value: its nullness, the local it was loaded from, if any, and
/// whether it is the `null` literal.
#[derive(Clone, Copy, Debug, PartialEq, Eq, Structural)]
pub struct StackValue {
    pub nullness: Nullness,
    pub local: Option<usize>,
    pub null_literal: bool,
}

/// The nullness of each local and of each stack value.
#[derive(Clone, Debug)]
pub struct FlowState {
    pub locals: Vec<Nullness>,
    pub stack: Vec<StackValue>,
}

/// A flow state as plain values.
#[verifier::ext_equal]
pub struct FlowView {
    pub locals: Seq<Nullness>,
    pub stack: Seq<StackValue>,
}

impl View for FlowState {
    type V = FlowView;

    open spec fn view(&self) -> FlowView {
        FlowView { locals: self.locals@, stack: self.stack@ }
    }
}

/// What the last null test of a block tells about a local on each edge.
#[derive(Clone, Copy, Debug, PartialEq, Eq, Structural)]
pub struct BranchRefinement {
    pub local: usize,
    pub branch_nullness: Nullness,
    pub fallthrough_nullness: Nullness,
}

/// A value of unknown nullness, from no local.
pub open spec fn unknown_value() -> StackValue {
    StackValue { nullness: Nullness::Unknown, local: None, null_literal: false }
}

/// The top of the stack and the rest; an unknown value on an empty stack.
pub open spec fn pop_spec(s: Seq<StackValue>) -> (Seq<StackValue>, StackValue) {
    if s.len() == 0 {
        (s, unknown_value())
    } else {
        (s.drop_last(), s.last())
    }
}

/// The stack after `n` pops (each on an empty stack doing nothing).
pub open spec fn pop_n(s: Seq<StackValue>, n: nat) -> Seq<StackValue> {
    if n >= s.len() {
        Seq::empty()
    } else {
        s.subrange(0, s.len() - n)
    }
}

/// The nullness of a local, unknown past the end.
pub open spec fn load_spec(l: Seq<Nullness>, i: int) -> Nullness {
    if 0 <= i < l.len() {
        l[i]
    } else {
        Nullness::Unknown
    }
}

/// The locals with slot `i` set, when it exists.
pub open spec fn set_spec(l: Seq<Nullness>, i: int, n: Nullness) -> Seq<Nullness> {
    if 0 <= i < l.len() {
        l.update(i, n)
    } else {
        l
    }
}

/// The byte after the opcode (a local slot operand), or 0 past the end.
pub open spec fn operand_index(bytecode: Seq<u8>, offset: u32) -> int {
    if offset + 1 < bytecode.len() {
        bytecode[offset + 1] as int
    } else {
        0
    }
}

/// The index of the last call at `offset`, if any.
pub open spec fn last_call_at(calls: Seq<CallSite>, offset: u32) -> Option<int> {
    if exists|k: int|
        0 <= k < calls.len() && calls[k].offset == offset && forall|j: int|
            k < j < calls.len() ==> (#[trigger] calls[j]).offset != offset {
        Some(
            choose|k: int|
                0 <= k < calls.len() && calls[k].offset == offset && forall|j: int|
                    k < j < calls.len() ==> (#[trigger] calls[j]).offset != offset,
        )
    } else {
        None
    }
}

/// The index of the last class named `name`, if any.
pub open spec fn last_class_named(classes: Seq<Class>, name: Seq<char>) -> Option<int> {
    if exists|k: int|
        0 <= k < classes.len() && classes[k].name@ == name && forall|j: int|
            k < j < classes.len() ==> (#[trigger] classes[j]).name@ != name {
        Some(
            choose|k: int|
                0 <= k < classes.len() && classes[k].name@ == name && forall|j: int|
                    k < j < classes.len() ==> (#[trigger] classes[j]).name@ != name,
        )
    } else {
        None
    }
}

/// The index of the first method of `c` named `name` with descriptor `d`.
pub open spec fn first_method(c: Class, name: Seq<char>, d: Seq<char>) -> Option<int> {
    if exists|k: int|
        0 <= k < c.methods@.len() && c.methods@[k].name@ == name && c.methods@[k].descriptor@ == d && forall|j: int|
            0 <= j < k ==> !((#[trigger] c.methods@[j]).name@ == name && c.methods@[j].descriptor@ == d) {
        Some(
            choose|k: int|
                0 <= k < c.methods@.len() && c.methods@[k].name@ == name && c.methods@[k].descriptor@ == d
                    && forall|j: int|
                    0 <= j < k ==> !((#[trigger] c.methods@[j]).name@ == name && c.methods@[j].descriptor@ == d),
        )
    } else {
        None
    }
}

/// The declared return nullness of the called method, unknown when the
/// callee is not among the classes.
pub open spec fn callee_return_nullness(classes: Seq<Class>, call: CallSite) -> Nullness {
    match last_class_named(classes, call.owner@) {
        Some(ci) => match first_method(classes[ci], call.name@, call.descriptor@) {
            Some(mi) => classes[ci].methods@[mi].nullness.return_nullness,
            None => Nullness::Unknown,
        },
        None => Nullness::Unknown,
    }
}

/// The message for a call on a possibly null receiver.
pub open spec fn receiver_message(call: CallSite) -> Seq<char> {
    "Nullness issue: possible null receiver in call to "@ + call.owner@ + "."@ + call.name@ + call.descriptor@
}

/// The message for a `@NonNull` method returning null.
pub open spec fn return_message(c: Class, m: Method) -> Seq<char> {
    "Nullness issue: "@ + c.name@ + "."@ + m.name@ + m.descriptor@ + " returns null but is @NonNull"@
}

/// The location of a flow finding at `offset` in method `m` of class `c`.
pub open spec fn flow_location(uri: Option<Seq<char>>, c: Class, m: Method, offset: u32) -> crate::rules::location::LocationView {
    method_location_spec(c.name@, m.name@, m.descriptor@, uri, crate::ir::line_for_offset_spec(m.line_numbers@, offset))
}

/// An invoke instruction.
pub open spec fn is_invoke(op: u8) -> bool {
    op == opcodes::INVOKEVIRTUAL || op == opcodes::INVOKEINTERFACE || op == opcodes::INVOKESPECIAL || op
        == opcodes::INVOKESTATIC
}

/// Applying the instruction fails: an invoke whose call descriptor does not
/// parse.
#[verifier::opaque]
pub open spec fn step_fails(m: Method, ins: Instruction) -> bool {
    is_invoke(ins.opcode) && match last_call_at(m.calls@, ins.offset) {
        Some(k) => jdescriptor_parse(m.calls@[k].descriptor@) is None,
        None => false,
    }
}

/// The state after an invoke instruction and what it reports: the call at its
/// offset pops its arguments and receiver (a possibly null receiver is
/// reported) and pushes a reference result with the callee's declared
/// nullness; nothing happens without a call there.
pub open spec fn invoke_step(
    classes: Seq<Class>,
    uri: Option<Seq<char>>,
    c: Class,
    m: Method,
    ins: Instruction,
    s: FlowView,
) -> (FlowView, Seq<FindingView>) {
    match last_call_at(m.calls@, ins.offset) {
        Some(k) => {
            let call = m.calls@[k];
            match jdescriptor_parse(call.descriptor@) {
                Some((params, ret)) => {
                    let after_args = pop_n(s.stack, params.len());
                    let after_receiver = if call.kind == CallKind::Static { after_args } else { pop_spec(after_args).0 };
                    let findings = if call.kind != CallKind::Static && pop_spec(after_args).1.nullness == Nullness::Nullable {
                        seq![finding_spec(receiver_message(call), flow_location(uri, c, m, ins.offset))]
                    } else {
                        Seq::empty()
                    };
                    let stack = if return_kind_of(ret) == ReturnKind::Reference {
                        after_receiver.push(StackValue { nullness: callee_return_nullness(classes, call), local: None, null_literal: false })
                    } else {
                        after_receiver
                    };
                    (FlowView { stack, ..s }, findings)
                },
                None => (s, Seq::empty()),
            }
        },
        None => (s, Seq::empty()),
    }
}

/// The state after `areturn` and what it reports: a possibly null value
/// returned from a `@NonNull` method.
pub open spec fn return_step(uri: Option<Seq<char>>, c: Class, m: Method, ins: Instruction, s: FlowView) -> (FlowView, Seq<FindingView>) {
    let (rest, v) = pop_spec(s.stack);
    let findings = if m.nullness.return_nullness == Nullness::NonNull && v.nullness == Nullness::Nullable {
        seq![finding_spec(return_message(c, m), flow_location(uri, c, m, ins.offset))]
    } else {
        Seq::empty()
    };
    (FlowView { stack: rest, ..s }, findings)
}

/// The refinement of a null test of `local`: on the branch edge the local is
/// null when `null_on_branch`, non-null otherwise; the fall-through edge
/// gets the other.
pub open spec fn test_refinement(local: usize, null_on_branch: bool) -> BranchRefinement {
    if null_on_branch {
        BranchRefinement { local, branch_nullness: Nullness::Nullable, fallthrough_nullness: Nullness::NonNull }
    } else {
        BranchRefinement { local, branch_nullness: Nullness::NonNull, fallthrough_nullness: Nullness::Nullable }
    }
}

/// A null test on the state `s` (its operands already popped): when the
/// tested value came from a local, the refinement of that local, and the
/// local set to its fall-through nullness.
pub open spec fn null_test(s: FlowView, target: Option<usize>, null_on_branch: bool) -> (FlowView, Option<BranchRefinement>) {
    match target {
        Some(l) => {
            let r = test_refinement(l, null_on_branch);
            (FlowView { locals: set_spec(s.locals, l as int, r.fallthrough_nullness), ..s }, Some(r))
        },
        None => (s, None),
    }
}

/// The local compared with the `null` literal by `if_acmpeq`/`if_acmpne`.
pub open spec fn compared_local(left: StackValue, right: StackValue) -> Option<usize> {
    if left.local is Some && right.null_literal {
        left.local
    } else if right.local is Some && left.null_literal {
        right.local
    } else {
        None
    }
}

/// The state after an instruction, the refinement it yields (a null test),
/// and what it reports.
#[verifier::opaque]
pub open spec fn step_spec(
    classes: Seq<Class>,
    uri: Option<Seq<char>>,
    c: Class,
    m: Method,
    ins: Instruction,
    s: FlowView,
) -> (FlowView, Option<BranchRefinement>, Seq<FindingView>) {
    let op = ins.opcode;
    if op == opcodes::ACONST_NULL {
        (FlowView { stack: s.stack.push(StackValue { nullness: Nullness::Nullable, local: None, null_literal: true }), ..s }, None, Seq::empty())
    } else if op == opcodes::ALOAD || (opcodes::ALOAD_0 <= op <= opcodes::ALOAD_3) {
        let i = if op == opcodes::ALOAD { operand_index(m.bytecode@, ins.offset) } else { op - opcodes::ALOAD_0 };
        (FlowView { stack: s.stack.push(StackValue { nullness: load_spec(s.locals, i), local: Some(i as usize), null_literal: false }), ..s }, None, Seq::empty())
    } else if op == opcodes::ASTORE || (opcodes::ASTORE_0 <= op <= opcodes::ASTORE_3) {
        let i = if op == opcodes::ASTORE { operand_index(m.bytecode@, ins.offset) } else { op - opcodes::ASTORE_0 };
        let (rest, v) = pop_spec(s.stack);
        (FlowView { stack: rest, locals: set_spec(s.locals, i, v.nullness) }, None, Seq::empty())
    } else if op == opcodes::POP {
        (FlowView { stack: pop_n(s.stack, 1), ..s }, None, Seq::empty())
    } else if op == opcodes::DUP {
        if s.stack.len() > 0 {
            (FlowView { stack: s.stack.push(s.stack.last()), ..s }, None, Seq::empty())
        } else {
            (s, None, Seq::empty())
        }
    } else if op == opcodes::NEW {
        (FlowView { stack: s.stack.push(StackValue { nullness: Nullness::NonNull, local: None, null_literal: false }), ..s }, None, Seq::empty())
    } else if op == opcodes::IFNULL || op == opcodes::IFNONNULL {
        let (rest, v) = pop_spec(s.stack);
        let (s2, r) = null_test(FlowView { stack: rest, ..s }, v.local, op == opcodes::IFNULL);
        (s2, r, Seq::empty())
    } else if op == opcodes::IF_ACMPEQ || op == opcodes::IF_ACMPNE {
        let (r1, right) = pop_spec(s.stack);
        let (rest, left) = pop_spec(r1);
        let (s2, r) = null_test(FlowView { stack: rest, ..s }, compared_local(left, right), op == opcodes::IF_ACMPEQ);
        (s2, r, Seq::empty())
    } else if is_invoke(op) {
        let (s2, f2) = invoke_step(classes, uri, c, m, ins, s);
        (s2, None, f2)
    } else if op == opcodes::ARETURN {
        let (s2, f2) = return_step(uri, c, m, ins, s);
        (s2, None, f2)
    } else {
        (s, None, Seq::empty())
    }
}

/// The transfer of the first `k` instructions of a block: the state, the
/// refinement of its last null test, and the findings in order.
#[verifier::opaque]
pub open spec fn block_spec(
    classes: Seq<Class>,
    uri: Option<Seq<char>>,
    c: Class,
    m: Method,
    ins: Seq<Instruction>,
    k: int,
    input: FlowView,
) -> (FlowView, Option<BranchRefinement>, Seq<FindingView>)
    decreases k,
{
    if k <= 0 {
        (input, None, Seq::empty())
    } else {
        let (s, r, f) = block_spec(classes, uri, c, m, ins, k - 1, input);
        let (s2, r2, f2) = step_spec(classes, uri, c, m, ins[k - 1], s);
        (s2, if r2 is Some { r2 } else { r }, f + f2)
    }
}

/// Some instruction among the first `k` fails.
pub open spec fn block_fails(m: Method, ins: Seq<Instruction>, k: int) -> bool {
    exists|i: int| 0 <= i < k && i < ins.len() && step_fails(m, #[trigger] ins[i])
}



/// The top of the stack, removed; an unknown value on an empty stack.
pub fn pop_value(stack: &mut Vec<StackValue>) -> (res: StackValue)
    ensures
        (final(stack)@, res) == pop_spec(old(stack)@),
{
    match stack.pop() {
        Some(v) => v,
        None => StackValue { nullness: Nullness::Unknown, local: None, null_literal: false },
    }
}

/// Pops `n` values (each pop on an empty stack does nothing).
pub fn pop_values(stack: &mut Vec<StackValue>, n: usize)
    ensures
        final(stack)@ == pop_n(old(stack)@, n as nat),
{
    let ghost start = stack@;
    let mut k: usize = 0;
    while k < n
        invariant
            k <= n,
            stack@ == pop_n(start, k as nat),
        decreases n - k,
    {
        stack.pop();
        k = k + 1;
        proof {
            if k < start.len() {
                assert(stack@ =~= start.subrange(0, start.len() - k));
            }
        }
    }
}

/// The nullness of a local, unknown past the end.
pub fn load_local(locals: &Vec<Nullness>, index: usize) -> (res: Nullness)
    ensures
        res == load_spec(locals@, index as int),
{
    if index < locals.len() {
        locals[index]
    } else {
        Nullness::Unknown
    }
}

/// Sets a local when the slot exists.
pub fn set_local(locals: &mut Vec<Nullness>, index: usize, n: Nullness)
    ensures
        final(locals)@ == set_spec(old(locals)@, index as int, n),
{
    if index < locals.len() {
        locals.set(index, n);
    }
}

/// The byte after the opcode at `offset`, or 0 past the end of the code.
pub fn local_operand(method: &Method, offset: u32) -> (res: usize)
    ensures
        res == operand_index(method.bytecode@, offset),
{
    let i = offset as usize;
    if i < method.bytecode.len() && i + 1 < method.bytecode.len() {
        method.bytecode[i + 1] as usize
    } else {
        0
    }
}

/// The index of the last call at `offset`.
pub fn find_call_at(method: &Method, offset: u32) -> (res: Option<usize>)
    ensures
        match res {
            Some(k) => last_call_at(method.calls@, offset) == Some(k as int) && k < method.calls@.len(),
            None => last_call_at(method.calls@, offset) is None,
        },
{
    let calls = &method.calls;
    let mut k = calls.len();
    while k > 0
        invariant
            k <= calls@.len(),
            calls@ == method.calls@,
            forall|j: int| k <= j < calls@.len() ==> (#[trigger] calls@[j]).offset != offset,
        decreases k,
    {
        if calls[k - 1].offset == offset {
            proof {
                let w = (k - 1) as int;
                assert(calls@[w].offset == offset);
                let r = last_call_at(method.calls@, offset);
                assert(r is Some);
                let c = r->0;
                assert(0 <= c < calls@.len() && calls@[c].offset == offset && forall|j: int|
                    c < j < calls@.len() ==> (#[trigger] calls@[j]).offset != offset);
                if c < w {
                    assert(calls@[w].offset != offset);
                } else if c > w {
                    assert(calls@[c].offset != offset);
                }
            }
            return Some(k - 1);
        }
        k = k - 1;
    }
    None
}

/// The index of the last class named `name`.
pub fn find_class(classes: &Vec<&Class>, name: &str) -> (res: Option<usize>)
    ensures
        match res {
            Some(k) => last_class_named(class_seq(classes@), name@) == Some(k as int) && k < classes@.len(),
            None => last_class_named(class_seq(classes@), name@) is None,
        },
{
    let ghost cs = class_seq(classes@);
    let mut k = classes.len();
    while k > 0
        invariant
            k <= classes@.len(),
            cs == class_seq(classes@),
            forall|j: int| k <= j < cs.len() ==> (#[trigger] cs[j]).name@ != name@,
        decreases k,
    {
        let c: &Class = classes[k - 1];
        if str_eq(c.name.as_str(), name) {
            proof {
                assert(cs[k - 1] == *c);
                let w = choose|w: int|
                    0 <= w < cs.len() && cs[w].name@ == name@ && forall|j: int|
                        w < j < cs.len() ==> (#[trigger] cs[j]).name@ != name@;
                if w < k - 1 {
                    assert(cs[k - 1].name@ != name@);
                } else if w > k - 1 {
                    assert(cs[w].name@ != name@);
                }
            }
            return Some(k - 1);
        }
        proof {
            assert(cs[k - 1] == *c);
        }
        k = k - 1;
    }
    None
}

/// The index of the first method of the class named `name` with descriptor
/// `descriptor`.
pub fn find_method(class: &Class, name: &str, descriptor: &str) -> (res: Option<usize>)
    ensures
        match res {
            Some(k) => first_method(*class, name@, descriptor@) == Some(k as int) && k < class.methods@.len(),
            None => first_method(*class, name@, descriptor@) is None,
        },
{
    let mut k: usize = 0;
    while k < class.methods.len()
        invariant
            k <= class.methods@.len(),
            forall|j: int|
                0 <= j < k ==> !((#[trigger] class.methods@[j]).name@ == name@ && class.methods@[j].descriptor@
                    == descriptor@),
        decreases class.methods.len() - k,
    {
        let m = &class.methods[k];
        if str_eq(m.name.as_str(), name) && str_eq(m.descriptor.as_str(), descriptor) {
            proof {
                let w = choose|w: int|
                    0 <= w < class.methods@.len() && class.methods@[w].name@ == name@ && class.methods@[w].descriptor@
                        == descriptor@ && forall|j: int|
                        0 <= j < w ==> !((#[trigger] class.methods@[j]).name@ == name@
                            && class.methods@[j].descriptor@ == descriptor@);
                if w < k {
                    assert(!(class.methods@[w].name@ == name@ && class.methods@[w].descriptor@ == descriptor@));
                } else if w > k {
                    assert(!(class.methods@[k as int].name@ == name@ && class.methods@[k as int].descriptor@ == descriptor@));
                }
            }
            return Some(k);
        }
        k = k + 1;
    }
    None
}

/// The declared return nullness of the called method, when the callee is
/// among the classes.
pub fn lookup_return_nullness(classes: &Vec<&Class>, call: &CallSite) -> (res: Option<Nullness>)
    ensures
        match res {
            Some(n) => n == callee_return_nullness(class_seq(classes@), *call),
            None => callee_return_nullness(class_seq(classes@), *call) == Nullness::Unknown,
        },
{
    let ci = find_class(classes, call.owner.as_str())?;
    let class: &Class = classes[ci];
    proof {
        assert(class_seq(classes@)[ci as int] == *class);
    }
    let mi = find_method(class, call.name.as_str(), call.descriptor.as_str())?;
    Some(class.methods[mi].nullness.return_nullness)
}


/// Applies an invoke instruction.
#[verifier::spinoff_prover]
pub fn transfer_invoke(
    classes: &Vec<&Class>,
    uri: &Option<String>,
    class: &Class,
    method: &Method,
    inst: &Instruction,
    state: &mut FlowState,
    results: &mut Vec<Finding>,
) -> (res: Result<(), AnalysisError>)
    ensures
        (match last_call_at(method.calls@, inst.offset) {
            Some(k) => jdescriptor_parse(method.calls@[k].descriptor@) is None,
            None => false,
        }) ==> res is Err,
        !(match last_call_at(method.calls@, inst.offset) {
            Some(k) => jdescriptor_parse(method.calls@[k].descriptor@) is None,
            None => false,
        }) ==> ({
            let (s2, f2) = invoke_step(class_seq(classes@), opt_view(*uri), *class, *method, *inst, old(state)@);
            &&& res is Ok
            &&& final(state)@ == s2
            &&& finding_views(final(results)@) == finding_views(old(results)@) + f2
        }),
{
    let ghost before = state@;
    let ghost start = finding_views(results@);
    if let Some(k) = find_call_at(method, inst.offset) {
        let call = &method.calls[k];
        let summary = method_descriptor_summary(call.descriptor.as_str())?;
        pop_values(&mut state.stack, summary.param_count);
        if call.kind != CallKind::Static {
            let receiver = pop_value(&mut state.stack);
            if receiver.nullness == Nullness::Nullable {
                let mut message = "Nullness issue: possible null receiver in call to ".to_owned();
                message.append(call.owner.as_str());
                message.append(".");
                message.append(call.name.as_str());
                message.append(call.descriptor.as_str());
                let line = method.line_for_offset(inst.offset);
                let artifact_uri: Option<&str> = match uri {
                    Some(u) => Some(u.as_str()),
                    None => None,
                };
                let location = method_location_with_line(
                    class.name.as_str(),
                    method.name.as_str(),
                    method.descriptor.as_str(),
                    artifact_uri,
                    line,
                );
                push_finding(results, finding(message, location));
            }
        }
        if summary.return_kind == ReturnKind::Reference {
            let n = match lookup_return_nullness(classes, call) {
                Some(n) => n,
                None => Nullness::Unknown,
            };
            state.stack.push(StackValue { nullness: n, local: None, null_literal: false });
        }
        proof {
            let (params, ret) = jdescriptor_parse(call.descriptor@).unwrap();
            assert(summary.param_count == params.len());
        }
    }
    proof {
        let (s2, f2) = invoke_step(class_seq(classes@), opt_view(*uri), *class, *method, *inst, before);
        assert(state@ =~= s2);
        assert(finding_views(results@) =~= start + f2);
    }
    Ok(())
}

/// Applies `areturn`.
pub fn transfer_return(
    uri: &Option<String>,
    class: &Class,
    method: &Method,
    inst: &Instruction,
    state: &mut FlowState,
    results: &mut Vec<Finding>,
)
    ensures
        ({
            let (s2, f2) = return_step(opt_view(*uri), *class, *method, *inst, old(state)@);
            &&& final(state)@ == s2
            &&& finding_views(final(results)@) == finding_views(old(results)@) + f2
        }),
{
    let ghost before = state@;
    let ghost start = finding_views(results@);
    let v = pop_value(&mut state.stack);
    if method.nullness.return_nullness == Nullness::NonNull && v.nullness == Nullness::Nullable {
        let mut message = "Nullness issue: ".to_owned();
        message.append(class.name.as_str());
        message.append(".");
        message.append(method.name.as_str());
        message.append(method.descriptor.as_str());
        message.append(" returns null but is @NonNull");
        let line = method.line_for_offset(inst.offset);
        let artifact_uri: Option<&str> = match uri {
            Some(u) => Some(u.as_str()),
            None => None,
        };
        let location = method_location_with_line(
            class.name.as_str(),
            method.name.as_str(),
            method.descriptor.as_str(),
            artifact_uri,
            line,
        );
        push_finding(results, finding(message, location));
    }
    proof {
        let (s2, f2) = return_step(opt_view(*uri), *class, *method, *inst, before);
        assert(state@ =~= s2);
        assert(finding_views(results@) =~= start + f2);
    }
}

/// Applies a null test whose operands are popped: refines `target`, if any,
/// and records the refinement.
pub fn apply_null_test(
    state: &mut FlowState,
    target: Option<usize>,
    null_on_branch: bool,
    refinement: &mut Option<BranchRefinement>,
)
    ensures
        ({
            let (s2, r2) = null_test(old(state)@, target, null_on_branch);
            &&& final(state)@ == s2
            &&& *final(refinement) == (if r2 is Some { r2 } else { *old(refinement) })
        }),
{
    if let Some(local) = target {
        let r = if null_on_branch {
            BranchRefinement { local, branch_nullness: Nullness::Nullable, fallthrough_nullness: Nullness::NonNull }
        } else {
            BranchRefinement { local, branch_nullness: Nullness::NonNull, fallthrough_nullness: Nullness::Nullable }
        };
        set_local(&mut state.locals, local, r.fallthrough_nullness);
        *refinement = Some(r);
    }
}

/// Applies one instruction: updates the state, records the refinement of a
/// null test, and appends what it reports.
pub fn transfer_step(
    classes: &Vec<&Class>,
    uri: &Option<String>,
    class: &Class,
    method: &Method,
    inst: &Instruction,
    state: &mut FlowState,
    refinement: &mut Option<BranchRefinement>,
    results: &mut Vec<Finding>,
) -> (res: Result<(), AnalysisError>)
    ensures
        step_fails(*method, *inst) ==> res is Err,
        !step_fails(*method, *inst) ==> {
            let (s2, r2, f2) = step_spec(class_seq(classes@), opt_view(*uri), *class, *method, *inst, old(state)@);
            &&& res is Ok
            &&& final(state)@ == s2
            &&& *final(refinement) == (if r2 is Some { r2 } else { *old(refinement) })
            &&& finding_views(final(results)@) == finding_views(old(results)@) + f2
        },
{
    reveal(step_spec);
    reveal(step_fails);
    let ghost before = state@;
    let ghost start = finding_views(results@);
    let op = inst.opcode;
    if op == opcodes::ACONST_NULL {
        state.stack.push(StackValue { nullness: Nullness::Nullable, local: None, null_literal: true });
    } else if op == opcodes::ALOAD || (opcodes::ALOAD_0 <= op && op <= opcodes::ALOAD_3) {
        let i = if op == opcodes::ALOAD {
            local_operand(method, inst.offset)
        } else {
            (op - opcodes::ALOAD_0) as usize
        };
        let n = load_local(&state.locals, i);
        state.stack.push(StackValue { nullness: n, local: Some(i), null_literal: false });
    } else if op == opcodes::ASTORE || (opcodes::ASTORE_0 <= op && op <= opcodes::ASTORE_3) {
        let i = if op == opcodes::ASTORE {
            local_operand(method, inst.offset)
        } else {
            (op - opcodes::ASTORE_0) as usize
        };
        let v = pop_value(&mut state.stack);
        set_local(&mut state.locals, i, v.nullness);
    } else if op == opcodes::POP {
        pop_values(&mut state.stack, 1);
    } else if op == opcodes::DUP {
        if state.stack.len() > 0 {
            let top = state.stack[state.stack.len() - 1];
            state.stack.push(top);
        }
    } else if op == opcodes::NEW {
        state.stack.push(StackValue { nullness: Nullness::NonNull, local: None, null_literal: false });
    } else if op == opcodes::IFNULL || op == opcodes::IFNONNULL {
        let v = pop_value(&mut state.stack);
        apply_null_test(state, v.local, op == opcodes::IFNULL, refinement);
    } else if op == opcodes::IF_ACMPEQ || op == opcodes::IF_ACMPNE {
        let right = pop_value(&mut state.stack);
        let left = pop_value(&mut state.stack);
        let target = if left.local.is_some() && right.null_literal {
            left.local
        } else if right.local.is_some() && left.null_literal {
            right.local
        } else {
            None
        };
        apply_null_test(state, target, op == opcodes::IF_ACMPEQ, refinement);
    } else if op == opcodes::INVOKEVIRTUAL || op == opcodes::INVOKEINTERFACE || op == opcodes::INVOKESPECIAL || op
        == opcodes::INVOKESTATIC {
        transfer_invoke(classes, uri, class, method, inst, state, results)?;
    } else if op == opcodes::ARETURN {
        transfer_return(uri, class, method, inst, state, results);
    }
    proof {
        let (s2, r2, f2) = step_spec(class_seq(classes@), opt_view(*uri), *class, *method, *inst, before);
        assert(state@ =~= s2);
        assert(finding_views(results@) =~= start + f2);
    }
    Ok(())
}


/// A copy of the values.
pub fn copy_nullness(v: &Vec<Nullness>) -> (res: Vec<Nullness>)
    ensures
        res@ == v@,
{
    let mut out: Vec<Nullness> = Vec::new();
    let mut i: usize = 0;
    while i < v.len()
        invariant
            i <= v@.len(),
            out@ == v@.subrange(0, i as int),
        decreases v.len() - i,
    {
        out.push(v[i]);
        i = i + 1;
        assert(out@ =~= v@.subrange(0, i as int));
    }
    assert(v@.subrange(0, i as int) =~= v@);
    out
}

/// A copy of the values.
pub fn copy_stack(v: &Vec<StackValue>) -> (res: Vec<StackValue>)
    ensures
        res@ == v@,
{
    let mut out: Vec<StackValue> = Vec::new();
    let mut i: usize = 0;
    while i < v.len()
        invariant
            i <= v@.len(),
            out@ == v@.subrange(0, i as int),
        decreases v.len() - i,
    {
        out.push(v[i]);
        i = i + 1;
        assert(out@ =~= v@.subrange(0, i as int));
    }
    assert(v@.subrange(0, i as int) =~= v@);
    out
}

/// A copy of a flow state.
pub fn copy_state(s: &FlowState) -> (res: FlowState)
    ensures
        res@ == s@,
{
    FlowState { locals: copy_nullness(&s.locals), stack: copy_stack(&s.stack) }
}

/// Unfolds the block transfer by one instruction.
pub proof fn lemma_block_step(
    classes: Seq<Class>,
    uri: Option<Seq<char>>,
    c: Class,
    m: Method,
    ins: Seq<Instruction>,
    k: int,
    input: FlowView,
)
    requires
        0 <= k < ins.len(),
    ensures
        ({
            let (s, r, f) = block_spec(classes, uri, c, m, ins, k, input);
            let (s2, r2, f2) = step_spec(classes, uri, c, m, ins[k], s);
            block_spec(classes, uri, c, m, ins, k + 1, input) == (s2, if r2 is Some { r2 } else { r }, f + f2)
        }),
{
    reveal_with_fuel(block_spec, 2);
}

/// Nothing has been transferred yet.
pub proof fn lemma_block_start(
    classes: Seq<Class>,
    uri: Option<Seq<char>>,
    c: Class,
    m: Method,
    ins: Seq<Instruction>,
    input: FlowView,
)
    ensures
        block_spec(classes, uri, c, m, ins, 0, input) == (input, None::<BranchRefinement>, Seq::<FindingView>::empty()),
{
    reveal_with_fuel(block_spec, 1);
}

/// The transfer of a whole block from the state `input`: the state at its
/// end, the refinement of its last null test, and its findings in order;
/// an error when an instruction fails.
#[verifier::spinoff_prover]
pub fn transfer_block(
    classes: &Vec<&Class>,
    uri: &Option<String>,
    class: &Class,
    method: &Method,
    block: &BasicBlock,
    input: &FlowState,
) -> (res: Result<(FlowState, Option<BranchRefinement>, Vec<Finding>), AnalysisError>)
    ensures
        block_fails(*method, block.instructions@, block.instructions@.len() as int) ==> res is Err,
        !block_fails(*method, block.instructions@, block.instructions@.len() as int) ==> (res matches Ok(
            (s, r, f),
        ) && {
            let (s2, r2, f2) = block_spec(
                class_seq(classes@),
                opt_view(*uri),
                *class,
                *method,
                block.instructions@,
                block.instructions@.len() as int,
                input@,
            );
            s@ == s2 && r == r2 && finding_views(f@) == f2
        }),
{
    let ghost cs = class_seq(classes@);
    let ghost u = opt_view(*uri);
    let ins = &block.instructions;
    let mut state = copy_state(input);
    let mut refinement: Option<BranchRefinement> = None;
    let mut results: Vec<Finding> = Vec::new();
    proof {
        assert(finding_views(results@) =~= Seq::<FindingView>::empty());
        lemma_block_start(cs, u, *class, *method, ins@, input@);
        assert(state@ =~= input@);
    }
    let mut i: usize = 0;
    while i < ins.len()
        invariant
            i <= ins@.len(),
            ins@ == block.instructions@,
            cs == class_seq(classes@),
            u == opt_view(*uri),
            !block_fails(*method, ins@, i as int),
            ({
                let (s2, r2, f2) = block_spec(cs, u, *class, *method, ins@, i as int, input@);
                state@ == s2 && refinement == r2 && finding_views(results@) == f2
            }),
        decreases ins.len() - i,
    {
        let inst = &ins[i];
        proof {
            lemma_block_step(cs, u, *class, *method, ins@, i as int, input@);
        }
        let r = transfer_step(classes, uri, class, method, inst, &mut state, &mut refinement, &mut results);
        if r.is_err() {
            proof {
                assert(step_fails(*method, ins@[i as int]));
                assert(block_fails(*method, ins@, ins@.len() as int));
            }
            return Err(r.unwrap_err());
        }
        proof {
            if block_fails(*method, ins@, i + 1) {
                let j = choose|j: int| 0 <= j < i + 1 && j < ins@.len() && step_fails(*method, #[trigger] ins@[j]);
                if j < i {
                    assert(block_fails(*method, ins@, i as int));
                }
            }
        }
        i = i + 1;
    }
    Ok((state, refinement, results))
}


/// The join of two nullness facts: kept when they agree, unknown otherwise.
pub open spec fn join_nullness_spec(l: Nullness, r: Nullness) -> Nullness {
    if l == Nullness::NonNull && r == Nullness::NonNull {
        Nullness::NonNull
    } else if l == Nullness::Nullable && r == Nullness::Nullable {
        Nullness::Nullable
    } else {
        Nullness::Unknown
    }
}

/// Joins two nullness facts.
pub fn join_nullness(left: Nullness, right: Nullness) -> (res: Nullness)
    ensures
        res == join_nullness_spec(left, right),
{
    match (left, right) {
        (Nullness::NonNull, Nullness::NonNull) => Nullness::NonNull,
        (Nullness::Nullable, Nullness::Nullable) => Nullness::Nullable,
        _ => Nullness::Unknown,
    }
}

/// Joining two nullness facts keeps the fact when both paths agree on it,
/// and gives unknown when they differ; so the join is idempotent (a fact
/// joined with itself, `Nullable` included, stays that fact) and does not
/// depend on the order of the paths.
pub proof fn lemma_join_nullness_agreement(a: Nullness, b: Nullness)
    ensures
        join_nullness_spec(a, b) == (if a == b { a } else { Nullness::Unknown }),
        join_nullness_spec(a, a) == a,
        join_nullness_spec(a, b) == join_nullness_spec(b, a),
{
}

/// The join of two stack values.
pub open spec fn join_value(a: StackValue, b: StackValue) -> StackValue {
    StackValue {
        nullness: join_nullness_spec(a.nullness, b.nullness),
        local: if a.local == b.local { a.local } else { None },
        null_literal: a.null_literal && b.null_literal,
    }
}

/// The join of two states: locals joined slot by slot (unknown past an
/// end), stacks joined value by value when of the same height, else empty.
pub open spec fn join_view(a: FlowView, b: FlowView) -> FlowView {
    let n = if a.locals.len() >= b.locals.len() { a.locals.len() } else { b.locals.len() };
    FlowView {
        locals: Seq::new(n, |i: int| join_nullness_spec(load_spec(a.locals, i), load_spec(b.locals, i))),
        stack: if a.stack.len() == b.stack.len() {
            Seq::new(a.stack.len(), |i: int| join_value(a.stack[i], b.stack[i]))
        } else {
            Seq::empty()
        },
    }
}

/// Joins two states.
pub fn join_states(left: &FlowState, right: &FlowState) -> (res: FlowState)
    ensures
        res@ == join_view(left@, right@),
{
    let n = if left.locals.len() >= right.locals.len() {
        left.locals.len()
    } else {
        right.locals.len()
    };
    let mut locals: Vec<Nullness> = Vec::new();
    let mut i: usize = 0;
    while i < n
        invariant
            i <= n,
            n == if left.locals@.len() >= right.locals@.len() { left.locals@.len() } else { right.locals@.len() },
            locals@.len() == i,
            forall|k: int|
                0 <= k < i ==> #[trigger] locals@[k] == join_nullness_spec(
                    load_spec(left.locals@, k),
                    load_spec(right.locals@, k),
                ),
        decreases n - i,
    {
        let l = load_local(&left.locals, i);
        let r = load_local(&right.locals, i);
        locals.push(join_nullness(l, r));
        i = i + 1;
    }
    let mut stack: Vec<StackValue> = Vec::new();
    if left.stack.len() == right.stack.len() {
        let mut j: usize = 0;
        while j < left.stack.len()
            invariant
                j <= left.stack@.len(),
                left.stack@.len() == right.stack@.len(),
                stack@.len() == j,
                forall|k: int| 0 <= k < j ==> #[trigger] stack@[k] == join_value(left.stack@[k], right.stack@[k]),
            decreases left.stack.len() - j,
        {
            let a = left.stack[j];
            let b = right.stack[j];
            let local = if a.local == b.local {
                a.local
            } else {
                None
            };
            stack.push(StackValue { nullness: join_nullness(a.nullness, b.nullness), local, null_literal: a.null_literal && b.null_literal });
            j = j + 1;
        }
    }
    let res = FlowState { locals, stack };
    assert(res@ =~= join_view(left@, right@));
    res
}

/// The state on one edge out of a block with a null test.
pub open spec fn refine_view(s: FlowView, r: BranchRefinement, branch: bool) -> FlowView {
    FlowView {
        locals: set_spec(s.locals, r.local as int, if branch { r.branch_nullness } else { r.fallthrough_nullness }),
        ..s
    }
}

impl BranchRefinement {
    /// The state on the branch edge (`branch`) or the fall-through edge.
    pub fn apply_to(&self, state: &FlowState, branch: bool) -> (res: FlowState)
        ensures
            res@ == refine_view(state@, *self, branch),
    {
        let mut next = copy_state(state);
        let value = if branch {
            self.branch_nullness
        } else {
            self.fallthrough_nullness
        };
        set_local(&mut next.locals, self.local, value);
        assert(next@ =~= refine_view(state@, *self, branch));
        next
    }
}

/// Whether two states are the same.
pub fn states_equal(a: &FlowState, b: &FlowState) -> (res: bool)
    ensures
        res == (a@ == b@),
{
    if a.locals.len() != b.locals.len() || a.stack.len() != b.stack.len() {
        return false;
    }
    let mut i: usize = 0;
    while i < a.locals.len()
        invariant
            i <= a.locals@.len(),
            a.locals@.len() == b.locals@.len(),
            forall|k: int| 0 <= k < i ==> a.locals@[k] == b.locals@[k],
        decreases a.locals.len() - i,
    {
        if a.locals[i] != b.locals[i] {
            return false;
        }
        i = i + 1;
    }
    let mut j: usize = 0;
    while j < a.stack.len()
        invariant
            j <= a.stack@.len(),
            a.stack@.len() == b.stack@.len(),
            forall|k: int| 0 <= k < j ==> a.stack@[k] == b.stack@[k],
        decreases a.stack.len() - j,
    {
        if a.stack[j] != b.stack[j] {
            return false;
        }
        j = j + 1;
    }
    assert(a.locals@ =~= b.locals@);
    assert(a.stack@ =~= b.stack@);
    true
}


/// The local slot an `aload`/`astore` instruction at `off` names, 0 for other
/// instructions.
pub open spec fn slot_at(code: Seq<u8>, off: int) -> int {
    let op = code[off];
    if op == opcodes::ALOAD || op == opcodes::ASTORE {
        if off + 1 < code.len() {
            code[off + 1] as int
        } else {
            0
        }
    } else if opcodes::ALOAD_0 <= op <= opcodes::ALOAD_3 {
        op - opcodes::ALOAD_0
    } else if opcodes::ASTORE_0 <= op <= opcodes::ASTORE_3 {
        op - opcodes::ASTORE_0
    } else {
        0
    }
}

/// The largest local slot named by the instructions from `off`, at least
/// `acc`; `None` when the instructions do not decode.
pub open spec fn max_slot_from(code: Seq<u8>, off: int, acc: int) -> Option<int>
    decreases code.len() - off,
{
    if off < 0 || off >= code.len() {
        Some(acc)
    } else {
        match instruction_length(code, off) {
            Some(l) => max_slot_from(code, off + l, if slot_at(code, off) > acc { slot_at(code, off) } else { acc }),
            None => None,
        }
    }
}

/// The value, capped at `usize::MAX`.
pub open spec fn capped(x: int) -> int {
    if x > usize::MAX {
        usize::MAX as int
    } else {
        x
    }
}

/// The number of local slots the flow analysis tracks: one past the largest
/// slot named by the code or taken by the receiver and parameters.
pub open spec fn local_count_spec(m: Method) -> Option<int> {
    match max_slot_from(m.bytecode@, 0, 0) {
        None => None,
        Some(top) => match jdescriptor_parse(m.descriptor@) {
            None => None,
            Some((params, _)) => {
                let taken = capped((if m.access.is_static { 0int } else { 1int }) + params.len());
                Some(capped((if top > taken { top } else { taken }) + 1))
            },
        },
    }
}

/// The number of local slots of a method; an error when its code does not
/// decode or its descriptor does not parse.
pub fn local_count(method: &Method) -> (res: Result<usize, AnalysisError>)
    ensures
        match local_count_spec(*method) {
            Some(n) => res == Ok::<usize, AnalysisError>(n as usize),
            None => res is Err,
        },
{
    let code = &method.bytecode;
    let mut max_index: usize = 0;
    let mut offset: usize = 0;
    while offset < code.len()
        invariant
            code@ == method.bytecode@,
            max_slot_from(code@, offset as int, max_index as int) == max_slot_from(code@, 0, 0),
        decreases code.len() - offset,
    {
        let op = code[offset];
        let slot: usize = if op == opcodes::ALOAD || op == opcodes::ASTORE {
            if offset + 1 < code.len() {
                code[offset + 1] as usize
            } else {
                0
            }
        } else if opcodes::ALOAD_0 <= op && op <= opcodes::ALOAD_3 {
            (op - opcodes::ALOAD_0) as usize
        } else if opcodes::ASTORE_0 <= op && op <= opcodes::ASTORE_3 {
            (op - opcodes::ASTORE_0) as usize
        } else {
            0
        };
        if slot > max_index {
            max_index = slot;
        }
        let length = opcode_length(code, offset)?;
        offset = offset + length;
    }
    let summary = method_descriptor_summary(method.descriptor.as_str())?;
    let base: usize = if method.access.is_static { 0 } else { 1 };
    let taken = base.saturating_add(summary.param_count);
    let top = if max_index > taken { max_index } else { taken };
    Ok(top.saturating_add(1))
}

/// A flow finding of method `m` of class `c`: a call of `m` on a possibly
/// null receiver, or `m` returning null while `@NonNull`.
pub open spec fn flow_finding(uri: Option<Seq<char>>, c: Class, m: Method, f: FindingView) -> bool {
    ||| exists|k: int, o: u32|
        #![trigger m.calls@[k], flow_location(uri, c, m, o)]
        0 <= k < m.calls@.len() && f == finding_spec(receiver_message(m.calls@[k]), flow_location(uri, c, m, o))
    ||| (m.nullness.return_nullness == Nullness::NonNull && exists|o: u32|
        f == finding_spec(return_message(c, m), #[trigger] flow_location(uri, c, m, o)))
}

/// Every finding of a block transfer is a flow finding of the method.
pub proof fn lemma_block_findings(
    classes: Seq<Class>,
    uri: Option<Seq<char>>,
    c: Class,
    m: Method,
    ins: Seq<Instruction>,
    k: int,
    input: FlowView,
)
    requires
        0 <= k <= ins.len(),
    ensures
        forall|i: int|
            0 <= i < block_spec(classes, uri, c, m, ins, k, input).2.len() ==> flow_finding(
                uri,
                c,
                m,
                #[trigger] block_spec(classes, uri, c, m, ins, k, input).2[i],
            ),
    decreases k,
{
    if k == 0 {
        lemma_block_start(classes, uri, c, m, ins, input);
    } else {
        lemma_block_findings(classes, uri, c, m, ins, k - 1, input);
        lemma_block_step(classes, uri, c, m, ins, k - 1, input);
        let (s, r, f) = block_spec(classes, uri, c, m, ins, k - 1, input);
        let inst = ins[k - 1];
        let (s2, r2, f2) = step_spec(classes, uri, c, m, inst, s);
        assert forall|i: int| 0 <= i < f2.len() implies flow_finding(uri, c, m, #[trigger] f2[i]) by {
            reveal(step_spec);
            if is_invoke(inst.opcode) && !(inst.opcode == opcodes::ACONST_NULL) {
                match last_call_at(m.calls@, inst.offset) {
                    Some(j) => {
                        assert(0 <= j < m.calls@.len());
                        assert(f2[i] == finding_spec(receiver_message(m.calls@[j]), flow_location(uri, c, m, inst.offset)));
                    },
                    None => {},
                }
            }
        }
        let total = block_spec(classes, uri, c, m, ins, k, input).2;
        assert(total == f + f2);
        assert forall|i: int| 0 <= i < total.len() implies flow_finding(uri, c, m, #[trigger] total[i]) by {
            if i < f.len() {
                assert(total[i] == f[i]);
            } else {
                assert(total[i] == f2[i - f.len()]);
            }
        }
    }
}


/// Appends findings.
pub fn append_findings(out: &mut Vec<Finding>, more: Vec<Finding>)
    ensures
        finding_views(final(out)@) == finding_views(old(out)@) + finding_views(more@),
{
    let ghost added = more@;
    let mut more = more;
    out.append(&mut more);
    assert(finding_views(out@) =~= finding_views(old(out)@) + finding_views(added));
}

/// The nullness the flow analysis starts slot `i` with: a parameter's
/// declared nullness for its slot, non-null for the receiver, else unknown.
pub open spec fn entry_local(m: Method, i: int) -> Nullness {
    let base: int = if m.access.is_static { 0 } else { 1 };
    let params = m.nullness.parameter_nullness@;
    if base <= i && i - base < params.len() {
        params[i - base]
    } else if !m.access.is_static && i == 0 {
        Nullness::NonNull
    } else {
        Nullness::Unknown
    }
}

/// The state the flow analysis starts from, with `n` local slots and an
/// empty stack.
pub open spec fn entry_view(m: Method, n: int) -> FlowView {
    FlowView { locals: Seq::new(n as nat, |i: int| entry_local(m, i)), stack: Seq::empty() }
}

/// The state at the method's entry: the receiver non-null, each parameter
/// with its declared nullness, every other slot unknown; an empty stack.
pub fn entry_state(method: &Method, local_count: usize) -> (res: FlowState)
    ensures
        res@ == entry_view(*method, local_count as int),
        res.locals@.len() == local_count,
        res.stack@.len() == 0,
{
    let mut locals: Vec<Nullness> = Vec::new();
    let mut i: usize = 0;
    while i < local_count
        invariant
            i <= local_count,
            locals@.len() == i,
            forall|j: int| 0 <= j < i ==> locals@[j] == Nullness::Unknown,
        decreases local_count - i,
    {
        locals.push(Nullness::Unknown);
        i = i + 1;
    }
    if !method.access.is_static && local_count > 0 {
        locals.set(0, Nullness::NonNull);
    }
    let base: usize = if method.access.is_static { 0 } else { 1 };
    let params = &method.nullness.parameter_nullness;
    let mut k: usize = 0;
    while k < params.len()
        invariant
            k <= params@.len(),
            params@ == method.nullness.parameter_nullness@,
            locals@.len() == local_count,
            base == (if method.access.is_static { 0usize } else { 1usize }),
            forall|j: int| 0 <= j < local_count ==> locals@[j] == (if base <= j && j - base < k {
                params@[j - base]
            } else if !method.access.is_static && j == 0 {
                Nullness::NonNull
            } else {
                Nullness::Unknown
            }),
        decreases params.len() - k,
    {
        if k < usize::MAX && base + k < local_count {
            locals.set(base + k, params[k]);
        }
        k = k + 1;
    }
    let res = FlowState { locals, stack: Vec::new() };
    assert(res@ =~= entry_view(*method, local_count as int));
    res
}

/// The sources of the edges into block `to`, in edge order.
pub open spec fn sources_into(edges: Seq<FlowEdge>, to: u32) -> Seq<u32>
    decreases edges.len(),
{
    if edges.len() == 0 {
        seq![]
    } else {
        let rest = sources_into(edges.drop_last(), to);
        if edges.last().to == to {
            rest.push(edges.last().from)
        } else {
            rest
        }
    }
}

/// The targets and kinds of the edges out of block `from`, in edge order.
pub open spec fn targets_from(edges: Seq<FlowEdge>, from: u32) -> Seq<(u32, EdgeKind)>
    decreases edges.len(),
{
    if edges.len() == 0 {
        seq![]
    } else {
        let rest = targets_from(edges.drop_last(), from);
        if edges.last().from == from {
            rest.push((edges.last().to, edges.last().kind))
        } else {
            rest
        }
    }
}

/// The edges into block `to`: their sources, in order.
pub fn predecessors_of(method: &Method, to: u32) -> (res: Vec<u32>)
    ensures
        res@ == sources_into(method.cfg.edges@, to),
{
    let mut out: Vec<u32> = Vec::new();
    let mut i: usize = 0;
    while i < method.cfg.edges.len()
        invariant
            i <= method.cfg.edges@.len(),
            out@ == sources_into(method.cfg.edges@.subrange(0, i as int), to),
        decreases method.cfg.edges.len() - i,
    {
        proof {
            assert(method.cfg.edges@.subrange(0, i + 1).drop_last() =~= method.cfg.edges@.subrange(0, i as int));
        }
        if method.cfg.edges[i].to == to {
            out.push(method.cfg.edges[i].from);
        }
        i = i + 1;
    }
    assert(method.cfg.edges@.subrange(0, i as int) =~= method.cfg.edges@);
    out
}

/// The edges out of block `from`: their targets and kinds, in order.
pub fn successors_of(method: &Method, from: u32) -> (res: Vec<(u32, EdgeKind)>)
    ensures
        res@ == targets_from(method.cfg.edges@, from),
{
    let mut out: Vec<(u32, EdgeKind)> = Vec::new();
    let mut i: usize = 0;
    while i < method.cfg.edges.len()
        invariant
            i <= method.cfg.edges@.len(),
            out@ == targets_from(method.cfg.edges@.subrange(0, i as int), from),
        decreases method.cfg.edges.len() - i,
    {
        proof {
            assert(method.cfg.edges@.subrange(0, i + 1).drop_last() =~= method.cfg.edges@.subrange(0, i as int));
        }
        if method.cfg.edges[i].from == from {
            out.push((method.cfg.edges[i].to, method.cfg.edges[i].kind));
        }
        i = i + 1;
    }
    assert(method.cfg.edges@.subrange(0, i as int) =~= method.cfg.edges@);
    out
}

/// The view of each state of a table.
pub open spec fn state_views(t: Map<u32, FlowState>) -> Map<u32, FlowView> {
    Map::new(|b: u32| t.contains_key(b), |b: u32| t[b]@)
}

/// Some block starts at `b`.
pub open spec fn starts_at(blocks: Seq<BasicBlock>, b: u32) -> bool {
    exists|i: int| 0 <= i < blocks.len() && blocks[i].start_offset == b
}

/// The block the flow analysis runs for start `b`: the last one starting
/// there.
pub open spec fn block_for(blocks: Seq<BasicBlock>, b: u32) -> BasicBlock {
    blocks[choose|i: int| last_block_with_start(blocks, b, i)]
}

/// Only one block is the last to start at `b`.
pub proof fn lemma_last_block_unique(blocks: Seq<BasicBlock>, b: u32, i: int)
    requires
        last_block_with_start(blocks, b, i),
    ensures
        block_for(blocks, b) == blocks[i],
{
    let j = choose|j: int| last_block_with_start(blocks, b, j);
    assert(last_block_with_start(blocks, b, j));
    if j < i {
        assert(blocks[i].start_offset != b);
    } else if i < j {
        assert(blocks[j].start_offset != b);
    }
}

/// The join, in order, of the out-states of those of `preds` that have one.
pub open spec fn merged_preds(outs: Map<u32, FlowView>, preds: Seq<u32>) -> Option<FlowView>
    decreases preds.len(),
{
    if preds.len() == 0 {
        None
    } else {
        let prev = merged_preds(outs, preds.drop_last());
        let p = preds.last();
        if outs.contains_key(p) {
            match prev {
                Some(e) => Some(join_view(e, outs[p])),
                None => Some(outs[p]),
            }
        } else {
            prev
        }
    }
}

/// The state block `b` starts from: past the entry block, the join of its
/// predecessors' out-states when some has one; else its recorded in-state,
/// or the entry state.
pub open spec fn block_input(m: Method, entry: FlowView, ins: Map<u32, FlowView>, outs: Map<u32, FlowView>, b: u32) -> FlowView {
    let recorded = if ins.contains_key(b) {
        ins[b]
    } else {
        entry
    };
    let preds = sources_into(m.cfg.edges@, b);
    if b != 0 && preds.len() > 0 {
        match merged_preds(outs, preds) {
            Some(x) => x,
            None => recorded,
        }
    } else {
        recorded
    }
}

/// The state carried along an edge of kind `kind` out of a block that ends
/// in `out` with refinement `r`.
pub open spec fn edge_state(out: FlowView, r: Option<BranchRefinement>, kind: EdgeKind) -> FlowView {
    match r {
        Some(r) => match kind {
            EdgeKind::Branch => refine_view(out, r, true),
            EdgeKind::FallThrough => refine_view(out, r, false),
            EdgeKind::Exception => out,
        },
        None => out,
    }
}

/// The in-states and worklist after passing `out` along the edges `succs` in
/// order: a successor's in-state is joined with what arrives (or set to it
/// when it has none), and the successor is queued when that changed it.
pub open spec fn pass_to_successors(
    succs: Seq<(u32, EdgeKind)>,
    out: FlowView,
    r: Option<BranchRefinement>,
    ins: Map<u32, FlowView>,
    wl: Seq<u32>,
) -> (Map<u32, FlowView>, Seq<u32>)
    decreases succs.len(),
{
    if succs.len() == 0 {
        (ins, wl)
    } else {
        let (ins1, wl1) = pass_to_successors(succs.drop_last(), out, r, ins, wl);
        let (succ, kind) = succs.last();
        let next = edge_state(out, r, kind);
        if ins1.contains_key(succ) {
            let joined = join_view(ins1[succ], next);
            (ins1.insert(succ, joined), if joined != ins1[succ] {
                wl1.push(succ)
            } else {
                wl1
            })
        } else {
            (ins1.insert(succ, next), wl1.push(succ))
        }
    }
}

/// The flow analysis from worklist `wl`, in-states `ins` and out-states
/// `outs`, with `fuel` steps left: the findings so far followed by those of
/// every block processed, in order; `None` when a processed block's code
/// fails or the steps run out. A queued start that no block has is dropped.
pub open spec fn flow_run(
    classes: Seq<Class>,
    uri: Option<Seq<char>>,
    c: Class,
    m: Method,
    entry: FlowView,
    fuel: nat,
    wl: Seq<u32>,
    ins: Map<u32, FlowView>,
    outs: Map<u32, FlowView>,
    found: Seq<FindingView>,
) -> Option<Seq<FindingView>>
    decreases fuel,
{
    if fuel == 0 {
        None
    } else if wl.len() == 0 {
        Some(found)
    } else {
        let b = wl[0];
        let rest = wl.drop_first();
        if !starts_at(m.cfg.blocks@, b) {
            flow_run(classes, uri, c, m, entry, (fuel - 1) as nat, rest, ins, outs, found)
        } else {
            let code = block_for(m.cfg.blocks@, b).instructions@;
            if block_fails(m, code, code.len() as int) {
                None
            } else {
                let input = block_input(m, entry, ins, outs, b);
                let (out, r, f) = block_spec(classes, uri, c, m, code, code.len() as int, input);
                let (ins2, wl2) = pass_to_successors(targets_from(m.cfg.edges@, b), out, r, ins, rest);
                flow_run(classes, uri, c, m, entry, (fuel - 1) as nat, wl2, ins2, outs.insert(b, out), found + f)
            }
        }
    }
}

/// The flow findings of method `m` of `c`, or `None` when the analysis stops
/// with an error: the run starts with block 0 queued (when there is one) and
/// the entry state recorded for it, and has `u64::MAX` steps.
pub open spec fn flow_findings(classes: Seq<Class>, uri: Option<Seq<char>>, c: Class, m: Method) -> Option<Seq<FindingView>> {
    match local_count_spec(m) {
        None => None,
        Some(n) => {
            let entry = entry_view(m, n);
            if starts_at_zero(m.cfg.blocks@) {
                flow_run(
                    classes,
                    uri,
                    c,
                    m,
                    entry,
                    u64::MAX as nat,
                    seq![0u32],
                    Map::<u32, FlowView>::empty().insert(0u32, entry),
                    Map::empty(),
                    Seq::empty(),
                )
            } else {
                flow_run(classes, uri, c, m, entry, u64::MAX as nat, Seq::empty(), Map::empty(), Map::empty(), Seq::empty())
            }
        },
    }
}

/// A forward dataflow over the method's blocks from the first, joining states
/// where paths meet and refining a local on the edges of a null test; each
/// block transfer's findings in the order the blocks are processed. Every
/// finding is a flow finding of the method. The run stops with an error when a
/// call descriptor does not parse, when the code does not decode, or after
/// `u64::MAX` steps.
#[verifier::spinoff_prover]
#[verifier::rlimit(50)]
pub fn check_method_flow(classes: &Vec<&Class>, uri: &Option<String>, class: &Class, method: &Method) -> (res: Result<
    Vec<Finding>,
    AnalysisError,
>)
    ensures
        match flow_findings(class_seq(classes@), opt_view(*uri), *class, *method) {
            Some(f) => res matches Ok(v) && finding_views(v@) == f,
            None => res is Err,
        },
        res matches Ok(v) ==> forall|i: int|
            0 <= i < v@.len() ==> flow_finding(opt_view(*uri), *class, *method, #[trigger] finding_views(v@)[i]),
        local_count_spec(*method) is None ==> res is Err,
        local_count_spec(*method) is Some && !starts_at_zero(method.cfg.blocks@) ==> (res matches Ok(v) && v@.len() == 0),
{
    let ghost has_entry = starts_at_zero(method.cfg.blocks@);
    let ghost cs = class_seq(classes@);
    let ghost u = opt_view(*uri);
    let count = local_count(method)?;
    let entry = entry_state(method, count);
    let graph = MethodGraph::new(method);
    let mut in_states: BTreeMap<u32, FlowState> = BTreeMap::new();
    let mut out_states: BTreeMap<u32, FlowState> = BTreeMap::new();
    let mut worklist: VecDeque<u32> = VecDeque::new();
    let mut results: Vec<Finding> = Vec::new();
    if graph.blocks.contains_key(&0) {
        in_states.insert(0, copy_state(&entry));
        worklist.push_back(0);
    }
    let mut steps: u64 = 0;
    proof {
        assert(graph.blocks@.contains_key(0u32) == has_entry);
        assert(finding_views(results@) =~= Seq::<FindingView>::empty());
        assert(state_views(out_states@) =~= Map::<u32, FlowView>::empty());
        if has_entry {
            assert(state_views(in_states@) =~= Map::<u32, FlowView>::empty().insert(0u32, entry@));
            assert(worklist@ =~= seq![0u32]);
        } else {
            assert(state_views(in_states@) =~= Map::<u32, FlowView>::empty());
            assert(worklist@ =~= Seq::<u32>::empty());
        }
    }
    loop
        invariant
            graph.describes(method),
            has_entry == starts_at_zero(method.cfg.blocks@),
            local_count_spec(*method) == Some(count as int),
            entry@ == entry_view(*method, count as int),
            cs == class_seq(classes@),
            u == opt_view(*uri),
            !has_entry ==> worklist@.len() == 0 && results@.len() == 0 && steps == 0,
            flow_run(
                cs,
                u,
                *class,
                *method,
                entry@,
                (u64::MAX - steps) as nat,
                worklist@,
                state_views(in_states@),
                state_views(out_states@),
                finding_views(results@),
            ) == flow_findings(cs, u, *class, *method),
            forall|i: int|
                0 <= i < results@.len() ==> flow_finding(opt_view(*uri), *class, *method, #[trigger] finding_views(results@)[i]),
        decreases u64::MAX - steps,
    {
        let ghost fuel = (u64::MAX - steps) as nat;
        let ghost wl0 = worklist@;
        let ghost ins0 = state_views(in_states@);
        let ghost outs0 = state_views(out_states@);
        let ghost found0 = finding_views(results@);
        if steps == u64::MAX {
            return Err(AnalysisError::StepLimitExceeded);
        }
        steps = steps + 1;
        let block_start = match worklist.pop_front() {
            Some(b) => b,
            None => {
                return Ok(results);
            },
        };
        let ghost rest = worklist@;
        proof {
            assert(wl0.len() > 0 && wl0[0] == block_start && rest == wl0.drop_first());
        }
        let block_index = match graph.blocks.get(&block_start) {
            Some(index) => *index,
            None => {
                proof {
                    assert(!starts_at(method.cfg.blocks@, block_start));
                }
                continue;
            },
        };
        proof {
            assert(graph.blocks@.contains_key(block_start));
            assert(last_block_with_start(method.cfg.blocks@, block_start, block_index as int));
            lemma_last_block_unique(method.cfg.blocks@, block_start, block_index as int);
            assert(starts_at(method.cfg.blocks@, block_start));
        }
        let block = &method.cfg.blocks[block_index];
        let preds = predecessors_of(method, block_start);
        let in_state = if block_start != 0 && preds.len() > 0 {
            let mut merged: Option<FlowState> = None;
            let mut p: usize = 0;
            proof {
                assert(preds@.subrange(0, 0) =~= Seq::<u32>::empty());
            }
            while p < preds.len()
                invariant
                    p <= preds@.len(),
                    outs0 == state_views(out_states@),
                    match merged {
                        Some(x) => merged_preds(outs0, preds@.subrange(0, p as int)) == Some(x@),
                        None => merged_preds(outs0, preds@.subrange(0, p as int)) is None,
                    },
                decreases preds.len() - p,
            {
                proof {
                    assert(preds@.subrange(0, p + 1).drop_last() =~= preds@.subrange(0, p as int));
                    assert(preds@.subrange(0, p + 1).last() == preds@[p as int]);
                }
                match out_states.get(&preds[p]) {
                    Some(state) => {
                        merged = Some(
                            match &merged {
                                Some(existing) => join_states(existing, state),
                                None => copy_state(state),
                            },
                        );
                    },
                    None => {},
                }
                p = p + 1;
            }
            proof {
                assert(preds@.subrange(0, p as int) =~= preds@);
            }
            match merged {
                Some(m) => m,
                None => match in_states.get(&block_start) {
                    Some(s) => copy_state(s),
                    None => copy_state(&entry),
                },
            }
        } else {
            match in_states.get(&block_start) {
                Some(s) => copy_state(s),
                None => copy_state(&entry),
            }
        };
        proof {
            assert(in_state@ == block_input(*method, entry@, ins0, outs0, block_start));
        }
        let (out_state, refinement, block_results) = transfer_block(classes, uri, class, method, block, &in_state)?;
        proof {
            lemma_block_findings(
                class_seq(classes@),
                opt_view(*uri),
                *class,
                *method,
                block.instructions@,
                block.instructions@.len() as int,
                in_state@,
            );
        }
        let ghost bs = block_spec(cs, u, *class, *method, block.instructions@, block.instructions@.len() as int, in_state@);
        out_states.insert(block_start, copy_state(&out_state));
        proof {
            assert(state_views(out_states@) =~= outs0.insert(block_start, out_state@));
        }
        let succs = successors_of(method, block_start);
        let mut q: usize = 0;
        proof {
            assert(succs@.subrange(0, 0) =~= Seq::<(u32, EdgeKind)>::empty());
        }
        while q < succs.len()
            invariant
                q <= succs@.len(),
                (state_views(in_states@), worklist@) == pass_to_successors(
                    succs@.subrange(0, q as int),
                    out_state@,
                    refinement,
                    ins0,
                    rest,
                ),
            decreases succs.len() - q,
        {
            let ghost ins1 = state_views(in_states@);
            let ghost wl1 = worklist@;
            proof {
                assert(succs@.subrange(0, q + 1).drop_last() =~= succs@.subrange(0, q as int));
                assert(succs@.subrange(0, q + 1).last() == succs@[q as int]);
            }
            let (succ, kind) = succs[q];
            let mut next_state = copy_state(&out_state);
            match refinement {
                Some(r) => {
                    match kind {
                        EdgeKind::Branch => {
                            next_state = r.apply_to(&next_state, true);
                        },
                        EdgeKind::FallThrough => {
                            next_state = r.apply_to(&next_state, false);
                        },
                        EdgeKind::Exception => {},
                    }
                },
                None => {},
            }
            proof {
                assert(next_state@ == edge_state(out_state@, refinement, kind));
            }
            let (updated, should_push) = match in_states.get(&succ) {
                Some(existing) => {
                    let joined = join_states(existing, &next_state);
                    let changed = !states_equal(&joined, existing);
                    (joined, changed)
                },
                None => (next_state, true),
            };
            in_states.insert(succ, updated);
            if should_push {
                worklist.push_back(succ);
            }
            proof {
                assert(state_views(in_states@) =~= ins1.insert(succ, updated@));
            }
            q = q + 1;
        }
        proof {
            assert(succs@.subrange(0, q as int) =~= succs@);
        }
        let ghost before = finding_views(results@);
        let ghost added = finding_views(block_results@);
        proof {
            assert(added == block_spec(
                class_seq(classes@),
                opt_view(*uri),
                *class,
                *method,
                block.instructions@,
                block.instructions@.len() as int,
                in_state@,
            ).2);
        }
        append_findings(&mut results, block_results);
        proof {
            assert(finding_views(results@) == before + added);
            assert(finding_views(results@).len() == results@.len());
            assert forall|i: int|
                0 <= i < results@.len() implies flow_finding(opt_view(*uri), *class, *method, #[trigger] finding_views(results@)[i]) by {
                if i >= before.len() {
                    assert(finding_views(results@)[i] == added[i - before.len()]);
                } else {
                    assert(finding_views(results@)[i] == before[i]);
                }
            }
        }
    }
}


/// Some block starts at offset 0, where the flow analysis begins.
pub open spec fn starts_at_zero(blocks: Seq<BasicBlock>) -> bool {
    exists|i: int| 0 <= i < blocks.len() && blocks[i].start_offset == 0
}

/// The names a class directly extends or implements: its superclass, then
/// its interfaces in order.
pub open spec fn direct_super_names(c: Class) -> Seq<Seq<char>> {
    (match c.super_name {
        Some(s) => seq![s@],
        None => Seq::empty(),
    }) + views(c.interfaces@)
}

/// The breadth-first walk over supertype names from `queue`, with `fuel`
/// steps left: a name seen before is skipped; a name with no class among
/// `classes` is only marked seen; otherwise the last class of that name is
/// added and its own direct supertypes queued.
#[verifier::opaque]
pub open spec fn supertype_walk(
    classes: Seq<Class>,
    fuel: nat,
    queue: Seq<Seq<char>>,
    seen: Seq<Seq<char>>,
    found: Seq<Class>,
) -> Seq<Class>
    decreases fuel,
{
    if fuel == 0 || queue.len() == 0 {
        found
    } else {
        let name = queue[0];
        let rest = queue.drop_first();
        if seen.contains(name) {
            supertype_walk(classes, (fuel - 1) as nat, rest, seen, found)
        } else {
            match last_class_named(classes, name) {
                None => supertype_walk(classes, (fuel - 1) as nat, rest, seen.push(name), found),
                Some(k) => supertype_walk(
                    classes,
                    (fuel - 1) as nat,
                    rest + direct_super_names(classes[k]),
                    seen.push(name),
                    found.push(classes[k]),
                ),
            }
        }
    }
}

/// The supertypes of `c` among `classes`: its superclass and interfaces,
/// then theirs, breadth first, each name once (the last class of that
/// name); the walk has `u64::MAX` steps.
#[verifier::opaque]
pub open spec fn supertypes_spec(classes: Seq<Class>, c: Class) -> Seq<Class> {
    supertype_walk(classes, u64::MAX as nat, direct_super_names(c), Seq::empty(), Seq::empty())
}

/// Whether `name` is among `seen`.
fn name_seen(seen: &Vec<String>, name: &str) -> (res: bool)
    ensures
        res == views(seen@).contains(name@),
{
    let mut s: usize = 0;
    while s < seen.len()
        invariant
            s <= seen@.len(),
            forall|t: int| 0 <= t < s ==> seen@[t]@ != name@,
        decreases seen.len() - s,
    {
        if str_eq(seen[s].as_str(), name) {
            assert(views(seen@)[s as int] == name@);
            return true;
        }
        s = s + 1;
    }
    assert forall|t: int| 0 <= t < views(seen@).len() implies views(seen@)[t] != name@ by {
        assert(views(seen@)[t] == seen@[t]@);
    }
    false
}

/// Queues the direct supertype names of `c`.
fn queue_super_names(queue: &mut VecDeque<String>, c: &Class)
    ensures
        views(final(queue)@) == views(old(queue)@) + direct_super_names(*c),
{
    let ghost start = views(queue@);
    if let Some(super_name) = &c.super_name {
        queue.push_back(super_name.clone());
    }
    let ghost q0 = views(queue@);
    proof {
        assert(q0 =~= start + match c.super_name {
            Some(sn) => seq![sn@],
            None => Seq::<Seq<char>>::empty(),
        });
    }
    let mut j: usize = 0;
    while j < c.interfaces.len()
        invariant
            j <= c.interfaces@.len(),
            views(queue@) == q0 + views(c.interfaces@.subrange(0, j as int)),
        decreases c.interfaces.len() - j,
    {
        let ghost before = queue@;
        let name = c.interfaces[j].clone();
        queue.push_back(name);
        proof {
            assert(queue@ == before.push(c.interfaces@[j as int]));
            assert(views(queue@) =~= views(before).push(c.interfaces@[j as int]@));
            assert(views(c.interfaces@.subrange(0, j + 1)) =~= views(c.interfaces@.subrange(0, j as int)).push(c.interfaces@[j as int]@));
        }
        j = j + 1;
    }
    proof {
        assert(c.interfaces@.subrange(0, j as int) =~= c.interfaces@);
        assert(views(queue@) =~= start + direct_super_names(*c));
    }
}

/// The supertypes of a class among `classes`: its superclass and interfaces,
/// then theirs, breadth first, each name once (the last class of that name).
/// The walk stops after `u64::MAX` steps.
#[verifier::spinoff_prover]
pub fn collect_supertypes<'a>(class: &Class, classes: &Vec<&'a Class>) -> (res: Vec<&'a Class>)
    ensures
        class_seq(res@) == supertypes_spec(class_seq(classes@), *class),
        forall|i: int| 0 <= i < res@.len() ==> class_seq(classes@).contains(*#[trigger] res@[i]),
{
    let ghost cs = class_seq(classes@);
    proof {
        reveal(supertypes_spec);
        reveal(supertype_walk);
    }
    let mut result: Vec<&Class> = Vec::new();
    let mut seen: Vec<String> = Vec::new();
    let mut queue: VecDeque<String> = VecDeque::new();
    proof {
        assert(views(queue@) =~= Seq::<Seq<char>>::empty());
    }
    queue_super_names(&mut queue, class);
    proof {
        assert(views(queue@) =~= direct_super_names(*class));
        assert(views(seen@) =~= Seq::<Seq<char>>::empty());
        assert(class_seq(result@) =~= Seq::<Class>::empty());
    }
    let mut steps: u64 = 0;
    loop
        invariant
            cs == class_seq(classes@),
            supertype_walk(cs, (u64::MAX - steps) as nat, views(queue@), views(seen@), class_seq(result@))
                == supertypes_spec(cs, *class),
            forall|i: int| 0 <= i < result@.len() ==> class_seq(classes@).contains(*#[trigger] result@[i]),
        decreases u64::MAX - steps,
    {
        let ghost q = views(queue@);
        let ghost seen0 = views(seen@);
        let ghost found0 = class_seq(result@);
        proof {
            reveal(supertype_walk);
        }
        if steps == u64::MAX {
            return result;
        }
        steps = steps + 1;
        let name = match queue.pop_front() {
            Some(n) => n,
            None => {
                return result;
            },
        };
        proof {
            assert(q[0] == name@);
            assert(views(queue@) =~= q.drop_first());
        }
        if name_seen(&seen, name.as_str()) {
            continue;
        }
        let found = find_class(classes, name.as_str());
        let ghost name_v = name@;
        seen.push(name);
        proof {
            assert(views(seen@) =~= seen0.push(name_v));
        }
        let ci = match found {
            Some(ci) => ci,
            None => {
                continue;
            },
        };
        let super_class: &Class = classes[ci];
        proof {
            assert(class_seq(classes@)[ci as int] == *super_class);
        }
        result.push(super_class);
        proof {
            assert(class_seq(result@) =~= found0.push(*super_class));
        }
        queue_super_names(&mut queue, super_class);
    }
}

/// The finding for an override returning `@Nullable` over `@NonNull`.
pub open spec fn override_return_finding(c: Class, m: Method) -> FindingView {
    finding_spec(
        "Nullness override: "@ + c.name@ + "."@ + m.name@ + m.descriptor@ + " returns @Nullable but overrides @NonNull"@,
        method_location_spec(c.name@, m.name@, m.descriptor@, None, None),
    )
}

/// The finding for an override taking `@NonNull` where the overridden method
/// takes `@Nullable`.
pub open spec fn override_param_finding(c: Class, m: Method, i: nat) -> FindingView {
    finding_spec(
        "Nullness override: "@ + c.name@ + "."@ + m.name@ + m.descriptor@ + " parameter "@ + decimal(i)
            + " is @NonNull but overrides @Nullable"@,
        method_location_spec(c.name@, m.name@, m.descriptor@, None, None),
    )
}

/// A method of `c` and the same method (by name and descriptor) of a class
/// `b` of the context conflict on their return or on parameter `i`, and `f`
/// reports it.
#[verifier::opaque]
pub open spec fn override_finding(classes: Seq<Class>, c: Class, f: FindingView) -> bool {
    exists|mi: int, j: int|
        #![trigger c.methods@[mi], classes[j]]
        0 <= mi < c.methods@.len() && 0 <= j < classes.len() && match first_method(
            classes[j],
            c.methods@[mi].name@,
            c.methods@[mi].descriptor@,
        ) {
            Some(bi) => {
                let m = c.methods@[mi];
                let bm = classes[j].methods@[bi];
                ||| (bm.nullness.return_nullness == Nullness::NonNull && m.nullness.return_nullness == Nullness::Nullable
                    && f == override_return_finding(c, m))
                ||| exists|i: nat|
                    i < m.nullness.parameter_nullness@.len() && i < bm.nullness.parameter_nullness@.len()
                        && bm.nullness.parameter_nullness@[i as int] == Nullness::Nullable
                        && m.nullness.parameter_nullness@[i as int] == Nullness::NonNull
                        && f == #[trigger] override_param_finding(c, m, i)
            },
            None => false,
        }
}

/// The parameter conflicts among the first `k` parameters of an override
/// `m` of `c` over `bm`: one finding per parameter taken `@NonNull` over
/// `@Nullable`, in order.
#[verifier::opaque]
pub open spec fn param_conflicts(c: Class, m: Method, bm: Method, k: int) -> Seq<FindingView>
    decreases k,
{
    if k <= 0 {
        Seq::empty()
    } else {
        param_conflicts(c, m, bm, k - 1) + if bm.nullness.parameter_nullness@[k - 1] == Nullness::Nullable
            && m.nullness.parameter_nullness@[k - 1] == Nullness::NonNull {
            seq![override_param_finding(c, m, (k - 1) as nat)]
        } else {
            Seq::empty()
        }
    }
}

/// One more parameter adds its conflict, if any.
#[verifier::spinoff_prover]
pub proof fn lemma_param_conflicts_step(c: Class, m: Method, bm: Method, k: int)
    requires
        0 <= k,
    ensures
        param_conflicts(c, m, bm, 0) == Seq::<FindingView>::empty(),
        param_conflicts(c, m, bm, k + 1) == param_conflicts(c, m, bm, k) + if bm.nullness.parameter_nullness@[k]
            == Nullness::Nullable && m.nullness.parameter_nullness@[k] == Nullness::NonNull {
            seq![override_param_finding(c, m, k as nat)]
        } else {
            Seq::<FindingView>::empty()
        },
{
    reveal(param_conflicts);
}

/// The conflicts of method `m` of `c` with the same method of `sc`, if `sc`
/// declares it: the return conflict, then the parameter conflicts.
#[verifier::opaque]
pub open spec fn override_pair(c: Class, m: Method, sc: Class) -> Seq<FindingView> {
    match first_method(sc, m.name@, m.descriptor@) {
        None => Seq::empty(),
        Some(bi) => {
            let bm = sc.methods@[bi];
            let n = m.nullness.parameter_nullness@.len();
            let bn = bm.nullness.parameter_nullness@.len();
            (if bm.nullness.return_nullness == Nullness::NonNull && m.nullness.return_nullness == Nullness::Nullable {
                seq![override_return_finding(c, m)]
            } else {
                Seq::empty()
            }) + param_conflicts(c, m, bm, if n < bn { n as int } else { bn as int })
        },
    }
}

/// The conflicts of method `m` of `c` with the first `k` of `sups`, in order.
#[verifier::opaque]
pub open spec fn override_over(c: Class, m: Method, sups: Seq<Class>, k: int) -> Seq<FindingView>
    decreases k,
{
    if k <= 0 {
        Seq::empty()
    } else {
        override_over(c, m, sups, k - 1) + override_pair(c, m, sups[k - 1])
    }
}

/// The conflicts of the first `k` methods of `c` with `sups`, in order.
#[verifier::opaque]
pub open spec fn overrides_of(c: Class, sups: Seq<Class>, k: int) -> Seq<FindingView>
    decreases k,
{
    if k <= 0 {
        Seq::empty()
    } else {
        overrides_of(c, sups, k - 1) + override_over(c, c.methods@[k - 1], sups, sups.len() as int)
    }
}

/// The method `first_method` names is one of the class's.
pub proof fn lemma_first_method_in_range(c: Class, name: Seq<char>, d: Seq<char>)
    ensures
        first_method(c, name, d) matches Some(k) ==> 0 <= k < c.methods@.len(),
{
}

/// Each parameter conflict of an override of `bm` (method `bi` of class `j`)
/// by method `mi` of `c` is an override finding.
#[verifier::spinoff_prover]
pub proof fn lemma_param_conflicts_sound(cs: Seq<Class>, c: Class, mi: int, j: int, bi: int, k: int)
    requires
        0 <= mi < c.methods@.len(),
        0 <= j < cs.len(),
        first_method(cs[j], c.methods@[mi].name@, c.methods@[mi].descriptor@) == Some(bi),
        0 <= k <= c.methods@[mi].nullness.parameter_nullness@.len(),
        k <= cs[j].methods@[bi].nullness.parameter_nullness@.len(),
    ensures
        forall|i: int| 0 <= i < param_conflicts(c, c.methods@[mi], cs[j].methods@[bi], k).len() ==> override_finding(
            cs,
            c,
            #[trigger] param_conflicts(c, c.methods@[mi], cs[j].methods@[bi], k)[i],
        ),
    decreases k,
{
    let m = c.methods@[mi];
    let bm = cs[j].methods@[bi];
    if k > 0 {
        lemma_param_conflicts_sound(cs, c, mi, j, bi, k - 1);
        lemma_param_conflicts_step(c, m, bm, k - 1);
        let prev = param_conflicts(c, m, bm, k - 1);
        assert forall|i: int| 0 <= i < param_conflicts(c, m, bm, k).len() implies override_finding(
            cs,
            c,
            #[trigger] param_conflicts(c, m, bm, k)[i],
        ) by {
            if i < prev.len() {
                assert(param_conflicts(c, m, bm, k)[i] == prev[i]);
            } else {
                assert(param_conflicts(c, m, bm, k)[i] == override_param_finding(c, m, (k - 1) as nat));
                assert(override_finding(cs, c, override_param_finding(c, m, (k - 1) as nat))) by {
                    reveal(override_finding);
                    assert(c.methods@[mi] == m && cs[j].methods@[bi] == bm);
                }
            }
        }
    } else {
        lemma_param_conflicts_step(c, m, bm, 0);
    }
}

/// Each conflict of method `mi` of `c` with the first `k` of `sups` (all of
/// them classes of `cs`) is an override finding.
#[verifier::spinoff_prover]
pub proof fn lemma_override_over_sound(cs: Seq<Class>, c: Class, mi: int, sups: Seq<Class>, k: int)
    requires
        0 <= mi < c.methods@.len(),
        0 <= k <= sups.len(),
        forall|i: int| 0 <= i < sups.len() ==> cs.contains(#[trigger] sups[i]),
    ensures
        forall|i: int| 0 <= i < override_over(c, c.methods@[mi], sups, k).len() ==> override_finding(
            cs,
            c,
            #[trigger] override_over(c, c.methods@[mi], sups, k)[i],
        ),
    decreases k,
{
    reveal(override_over);
    reveal(override_pair);
    let m = c.methods@[mi];
    if k > 0 {
        lemma_override_over_sound(cs, c, mi, sups, k - 1);
        let sc = sups[k - 1];
        assert(cs.contains(sc));
        let j = choose|j: int| 0 <= j < cs.len() && cs[j] == sc;
        let prev = override_over(c, m, sups, k - 1);
        let pair = override_pair(c, m, sc);
        match first_method(sc, m.name@, m.descriptor@) {
            Some(bi) => {
                let bm = sc.methods@[bi];
                let n = m.nullness.parameter_nullness@.len();
                let bn = bm.nullness.parameter_nullness@.len();
                let cnt: int = if n < bn { n as int } else { bn as int };
                lemma_first_method_in_range(sc, m.name@, m.descriptor@);
                lemma_param_conflicts_sound(cs, c, mi, j, bi, cnt);
                let ret: Seq<FindingView> = if bm.nullness.return_nullness == Nullness::NonNull
                    && m.nullness.return_nullness == Nullness::Nullable {
                    seq![override_return_finding(c, m)]
                } else {
                    Seq::empty()
                };
                assert(pair == ret + param_conflicts(c, m, bm, cnt));
                assert forall|i: int| 0 <= i < pair.len() implies override_finding(cs, c, #[trigger] pair[i]) by {
                    if i < ret.len() {
                        assert(pair[i] == override_return_finding(c, m));
                        assert(override_finding(cs, c, override_return_finding(c, m))) by {
                            reveal(override_finding);
                            assert(c.methods@[mi] == m && cs[j] == sc);
                        }
                    } else {
                        assert(pair[i] == param_conflicts(c, m, bm, cnt)[i - ret.len()]);
                    }
                }
            },
            None => {},
        }
        assert forall|i: int| 0 <= i < override_over(c, m, sups, k).len() implies override_finding(
            cs,
            c,
            #[trigger] override_over(c, m, sups, k)[i],
        ) by {
            if i < prev.len() {
                assert(override_over(c, m, sups, k)[i] == prev[i]);
            } else {
                assert(override_over(c, m, sups, k)[i] == pair[i - prev.len()]);
            }
        }
    }
}

/// Each conflict of the first `k` methods of `c` with `sups` (all of them
/// classes of `cs`) is an override finding.
#[verifier::spinoff_prover]
pub proof fn lemma_overrides_sound(cs: Seq<Class>, c: Class, sups: Seq<Class>, k: int)
    requires
        0 <= k <= c.methods@.len(),
        forall|i: int| 0 <= i < sups.len() ==> cs.contains(#[trigger] sups[i]),
    ensures
        forall|i: int| 0 <= i < overrides_of(c, sups, k).len() ==> override_finding(cs, c, #[trigger] overrides_of(c, sups, k)[i]),
    decreases k,
{
    reveal(overrides_of);
    if k > 0 {
        lemma_overrides_sound(cs, c, sups, k - 1);
        lemma_override_over_sound(cs, c, k - 1, sups, sups.len() as int);
        let prev = overrides_of(c, sups, k - 1);
        let more = override_over(c, c.methods@[k - 1], sups, sups.len() as int);
        assert forall|i: int| 0 <= i < overrides_of(c, sups, k).len() implies override_finding(
            cs,
            c,
            #[trigger] overrides_of(c, sups, k)[i],
        ) by {
            if i < prev.len() {
                assert(overrides_of(c, sups, k)[i] == prev[i]);
            } else {
                assert(overrides_of(c, sups, k)[i] == more[i - prev.len()]);
            }
        }
    }
}

/// The folds over methods and supertypes, one step at a time.
pub proof fn lemma_overrides_step(c: Class, m: Method, sups: Seq<Class>, k: int)
    requires
        0 <= k,
    ensures
        overrides_of(c, sups, 0) == Seq::<FindingView>::empty(),
        override_over(c, m, sups, 0) == Seq::<FindingView>::empty(),
        overrides_of(c, sups, k + 1) == overrides_of(c, sups, k) + override_over(c, c.methods@[k], sups, sups.len() as int),
        override_over(c, m, sups, k + 1) == override_over(c, m, sups, k) + override_pair(c, m, sups[k]),
{
    reveal(overrides_of);
    reveal(override_over);
}

/// The override findings of `c` among `classes`.
#[verifier::opaque]
pub open spec fn override_findings(classes: Seq<Class>, c: Class) -> Seq<FindingView> {
    overrides_of(c, supertypes_spec(classes, c), c.methods@.len() as int)
}

/// Appends the parameter conflicts among the first `count` parameters of an
/// override `method` of `class` over `base`.
#[verifier::spinoff_prover]
fn push_param_conflicts(class: &Class, method: &Method, base: &Method, count: usize, results: &mut Vec<Finding>)
    requires
        count <= method.nullness.parameter_nullness@.len(),
        count <= base.nullness.parameter_nullness@.len(),
    ensures
        finding_views(final(results)@) == finding_views(old(results)@) + param_conflicts(*class, *method, *base, count as int),
{
    let ghost start = finding_views(results@);
    proof {
        lemma_param_conflicts_step(*class, *method, *base, 0);
        assert(start + param_conflicts(*class, *method, *base, 0) =~= start);
    }
    let mut index: usize = 0;
    while index < count
        invariant
            index <= count,
            count <= method.nullness.parameter_nullness@.len(),
            count <= base.nullness.parameter_nullness@.len(),
            finding_views(results@) == start + param_conflicts(*class, *method, *base, index as int),
        decreases count - index,
    {
        proof {
            lemma_param_conflicts_step(*class, *method, *base, index as int);
        }
        let ghost prev = finding_views(results@);
        if base.nullness.parameter_nullness[index] == Nullness::Nullable
            && method.nullness.parameter_nullness[index] == Nullness::NonNull {
            let f = param_conflict_finding(class, method, index);
            push_finding(results, f);
            proof {
                assert(finding_views(results@) == prev.push(f@));
                assert(finding_views(results@) =~= start + param_conflicts(*class, *method, *base, index + 1));
            }
        } else {
            proof {
                assert(finding_views(results@) =~= start + param_conflicts(*class, *method, *base, index + 1));
            }
        }
        index = index + 1;
    }
}

/// The finding for parameter `index` of an override `method` of `class`
/// taken `@NonNull` over `@Nullable`.
#[verifier::spinoff_prover]
fn param_conflict_finding(class: &Class, method: &Method, index: usize) -> (res: Finding)
    ensures
        res@ == override_param_finding(*class, *method, index as nat),
{
    let mut message = "Nullness override: ".to_owned();
    message.append(class.name.as_str());
    message.append(".");
    message.append(method.name.as_str());
    message.append(method.descriptor.as_str());
    message.append(" parameter ");
    push_decimal(&mut message, index as u64);
    message.append(" is @NonNull but overrides @Nullable");
    let location = method_location_with_line(
        class.name.as_str(),
        method.name.as_str(),
        method.descriptor.as_str(),
        None,
        None,
    );
    finding(message, location)
}

/// Appends the conflicts of an override `method` of `class` with the same
/// method of `super_class`, if it declares one.
#[verifier::spinoff_prover]
fn push_pair_conflicts(class: &Class, method: &Method, super_class: &Class, results: &mut Vec<Finding>)
    ensures
        finding_views(final(results)@) == finding_views(old(results)@) + override_pair(*class, *method, *super_class),
{
    let ghost start = finding_views(results@);
    proof {
        reveal(override_pair);
    }
    match find_method(super_class, method.name.as_str(), method.descriptor.as_str()) {
        Some(bi) => {
            let base = &super_class.methods[bi];
            let ghost ret_part: Seq<FindingView> = if base.nullness.return_nullness == Nullness::NonNull
                && method.nullness.return_nullness == Nullness::Nullable {
                seq![override_return_finding(*class, *method)]
            } else {
                Seq::empty()
            };
            if base.nullness.return_nullness == Nullness::NonNull && method.nullness.return_nullness
                == Nullness::Nullable {
                let mut message = "Nullness override: ".to_owned();
                message.append(class.name.as_str());
                message.append(".");
                message.append(method.name.as_str());
                message.append(method.descriptor.as_str());
                message.append(" returns @Nullable but overrides @NonNull");
                let location = method_location_with_line(
                    class.name.as_str(),
                    method.name.as_str(),
                    method.descriptor.as_str(),
                    None,
                    None,
                );
                let f = finding(message, location);
                proof {
                    assert(f@ == override_return_finding(*class, *method));
                }
                push_finding(results, f);
            }
            proof {
                assert(finding_views(results@) =~= start + ret_part);
            }
            let n = method.nullness.parameter_nullness.len();
            let bn = base.nullness.parameter_nullness.len();
            let count = if n < bn { n } else { bn };
            push_param_conflicts(class, method, base, count, results);
            proof {
                assert(finding_views(results@) =~= start + override_pair(*class, *method, *super_class));
            }
        },
        None => {
            proof {
                assert(finding_views(results@) =~= start + override_pair(*class, *method, *super_class));
            }
        },
    }
}

/// The override findings of a class: for each method and each supertype
/// declaring it, a finding when the override returns `@Nullable` over
/// `@NonNull`, then one per parameter taken `@NonNull` over `@Nullable`.
#[verifier::spinoff_prover]
pub fn check_overrides(classes: &Vec<&Class>, class: &Class) -> (res: Vec<Finding>)
    ensures
        finding_views(res@) == override_findings(class_seq(classes@), *class),
        forall|i: int| 0 <= i < res@.len() ==> override_finding(class_seq(classes@), *class, #[trigger] finding_views(res@)[i]),
{
    let ghost cs = class_seq(classes@);
    proof {
        reveal(override_findings);
    }
    let supertypes = collect_supertypes(class, classes);
    let ghost sups = class_seq(supertypes@);
    let mut results: Vec<Finding> = Vec::new();
    proof {
        assert(finding_views(results@) =~= Seq::<FindingView>::empty());
        lemma_overrides_step(*class, class.methods@[0], sups, 0);
    }
    let mut mi: usize = 0;
    while mi < class.methods.len()
        invariant
            mi <= class.methods@.len(),
            cs == class_seq(classes@),
            sups == class_seq(supertypes@),
            sups == supertypes_spec(cs, *class),
            finding_views(results@) == overrides_of(*class, sups, mi as int),
            forall|i: int| 0 <= i < supertypes@.len() ==> cs.contains(*#[trigger] supertypes@[i]),
        decreases class.methods.len() - mi,
    {
        let method = &class.methods[mi];
        let ghost start = finding_views(results@);
        let mut si: usize = 0;
        proof {
            lemma_overrides_step(*class, *method, sups, mi as int);
            assert(start + override_over(*class, *method, sups, 0) =~= start);
        }
        while si < supertypes.len()
            invariant
                mi < class.methods@.len(),
                *method == class.methods@[mi as int],
                si <= supertypes@.len(),
                sups == class_seq(supertypes@),
                finding_views(results@) == start + override_over(*class, *method, sups, si as int),
            decreases supertypes.len() - si,
        {
            let super_class: &Class = supertypes[si];
            proof {
                assert(sups[si as int] == *super_class);
            }
            push_pair_conflicts(class, method, super_class, &mut results);
            proof {
                lemma_overrides_step(*class, *method, sups, si as int);
                assert(finding_views(results@) =~= start + override_over(*class, *method, sups, si + 1));
            }
            si = si + 1;
        }
        proof {
            assert(finding_views(results@) =~= overrides_of(*class, sups, mi + 1));
        }
        mi = mi + 1;
    }
    proof {
        assert forall|i: int| 0 <= i < sups.len() implies cs.contains(#[trigger] sups[i]) by {
            assert(sups[i] == *supertypes@[i]);
        }
        lemma_overrides_sound(cs, *class, sups, class.methods@.len() as int);
    }
    results
}

/// The flow findings of the first `k` methods of `c` that have bytecode, in
/// order; `None` when the analysis of one of them stops with an error.
pub open spec fn nullness_method_findings(cc: Seq<Class>, uri: Option<Seq<char>>, c: Class, k: int) -> Option<Seq<FindingView>>
    decreases k,
{
    if k <= 0 {
        Some(Seq::empty())
    } else {
        match nullness_method_findings(cc, uri, c, k - 1) {
            None => None,
            Some(prev) => {
                let m = c.methods@[k - 1];
                if m.bytecode@.len() > 0 {
                    match flow_findings(cc, uri, c, m) {
                        None => None,
                        Some(f) => Some(prev + f),
                    }
                } else {
                    Some(prev)
                }
            },
        }
    }
}

/// The findings of the first `k` analysis-target classes before repeats are
/// dropped: for each, its override findings, then its methods' flow findings.
pub open spec fn nullness_targets_findings(ctx: AnalysisContext, k: int) -> Option<Seq<FindingView>>
    decreases k,
{
    if k <= 0 {
        Some(Seq::empty())
    } else {
        match nullness_targets_findings(ctx, k - 1) {
            None => None,
            Some(prev) => {
                let c = ctx.targets()[k - 1];
                let cc = context_classes(ctx);
                match nullness_method_findings(cc, ctx.class_uri(c), c, c.methods@.len() as int) {
                    None => None,
                    Some(f) => Some(prev + override_findings(cc, c) + f),
                }
            },
        }
    }
}

/// Once the analysis of a method fails, the findings of more methods are
/// none either.
pub proof fn lemma_method_findings_none(cc: Seq<Class>, uri: Option<Seq<char>>, c: Class, k: int, n: int)
    requires
        0 <= k <= n,
        nullness_method_findings(cc, uri, c, k) is None,
    ensures
        nullness_method_findings(cc, uri, c, n) is None,
    decreases n - k,
{
    if k < n {
        lemma_method_findings_none(cc, uri, c, k, n - 1);
    }
}

/// Once a class's analysis fails, the findings of more classes are none
/// either.
pub proof fn lemma_targets_findings_none(ctx: AnalysisContext, k: int, n: int)
    requires
        0 <= k <= n,
        nullness_targets_findings(ctx, k) is None,
    ensures
        nullness_targets_findings(ctx, n) is None,
    decreases n - k,
{
    if k < n {
        lemma_targets_findings_none(ctx, k, n - 1);
    }
}

/// What the nullness rule reports on a context: the findings of every
/// analysis-target class, a repeat of an earlier finding's key dropped;
/// `None` when a method's flow analysis stops with an error.
pub open spec fn nullness_findings(ctx: AnalysisContext) -> Option<Seq<FindingView>> {
    match nullness_targets_findings(ctx, ctx.targets().len() as int) {
        Some(f) => Some(dedup_findings(f)),
        None => None,
    }
}

/// The finding reports, for an analysis-target class, an override conflict
/// or a flow finding of one of its methods with bytecode.
#[verifier::opaque]
pub open spec fn reports_nullness(ctx: AnalysisContext, f: FindingView) -> bool {
    exists|ci: int|
        #![trigger ctx.targets()[ci]]
        0 <= ci < ctx.targets().len() && {
            let c = ctx.targets()[ci];
            ||| override_finding(context_classes(ctx), c, f)
            ||| exists|mi: int|
                0 <= mi < c.methods@.len() && (#[trigger] c.methods@[mi]).bytecode@.len() > 0 && flow_finding(
                    ctx.class_uri(c),
                    c,
                    c.methods@[mi],
                    f,
                )
        }
}

/// An override finding of a target class is reported.
pub proof fn lemma_reports_override(ctx: AnalysisContext, ci: int, f: FindingView)
    requires
        0 <= ci < ctx.targets().len(),
        override_finding(context_classes(ctx), ctx.targets()[ci], f),
    ensures
        reports_nullness(ctx, f),
{
    reveal(reports_nullness);
}

/// A flow finding of a method with bytecode of a target class is reported.
pub proof fn lemma_reports_flow(ctx: AnalysisContext, ci: int, mi: int, f: FindingView)
    requires
        0 <= ci < ctx.targets().len(),
        0 <= mi < ctx.targets()[ci].methods@.len(),
        ctx.targets()[ci].methods@[mi].bytecode@.len() > 0,
        flow_finding(ctx.class_uri(ctx.targets()[ci]), ctx.targets()[ci], ctx.targets()[ci].methods@[mi], f),
    ensures
        reports_nullness(ctx, f),
{
    reveal(reports_nullness);
    assert(ctx.targets()[ci].methods@[mi].bytecode@.len() > 0);
}

/// Nullness checks guided by JSpecify annotations.
#[derive(Clone, Copy, Debug)]
pub struct NullnessRule;

impl NullnessRule {
    /// The rule's id, name and description.
    pub fn metadata(&self) -> (res: RuleMetadata)
        ensures
            res.id@ == "NULLNESS"@,
    {
        RuleMetadata { id: "NULLNESS", name: "Nullness checks", description: "Nullness issues guided by JSpecify annotations" }
    }

    /// For each analysis-target class: its override findings, then the flow
    /// findings of each of its methods with bytecode; a finding whose message
    /// and first location repeat an earlier one's is dropped.
    #[verifier::spinoff_prover]
    #[verifier::rlimit(50)]
    pub fn run(&self, context: &AnalysisContext) -> (res: Result<Vec<Finding>, AnalysisError>)
        ensures
            match nullness_findings(*context) {
                Some(f) => res matches Ok(v) && finding_views(v@) == f,
                None => res is Err,
            },
            res matches Ok(v) ==> forall|i: int|
                0 <= i < v@.len() ==> reports_nullness(*context, #[trigger] finding_views(v@)[i]),
            res matches Ok(v) ==> keys_distinct(finding_views(v@)),
    {
        let all = context.all_classes();
        let ghost cc = context_classes(*context);
        proof {
            assert forall|j: int| 0 <= j < cc.len() implies *all@[j] == cc[j] by {
                if j >= context.targets().len() {
                    assert(*all@[context.targets().len() + (j - context.targets().len())]
                        == context.dependencies()[j - context.targets().len()]);
                }
            }
            assert(class_seq(all@) =~= cc);
        }
        let classes = context.analysis_target_classes();
        let mut results: Vec<Finding> = Vec::new();
        proof {
            assert(finding_views(results@) =~= Seq::<FindingView>::empty());
        }
        let mut ci: usize = 0;
        while ci < classes.len()
            invariant
                ci <= classes@.len(),
                classes@ == context.targets(),
                class_seq(all@) == context_classes(*context),
                cc == context_classes(*context),
                nullness_targets_findings(*context, ci as int) == Some(finding_views(results@)),
                forall|i: int| 0 <= i < results@.len() ==> reports_nullness(*context, #[trigger] finding_views(results@)[i]),
            decreases classes.len() - ci,
        {
            let class = &classes[ci];
            let ghost before_class = finding_views(results@);
            let overrides = check_overrides(&all, class);
            let ghost before = finding_views(results@);
            let ghost added = finding_views(overrides@);
            append_findings(&mut results, overrides);
            proof {
                assert(finding_views(results@) == before + added);
                assert(finding_views(results@).len() == results@.len());
                assert forall|i: int| 0 <= i < results@.len() implies reports_nullness(
                    *context,
                    #[trigger] finding_views(results@)[i],
                ) by {
                    if i >= before.len() {
                        assert(finding_views(results@)[i] == added[i - before.len()]);
                        assert(context.targets()[ci as int] == *class);
                        lemma_reports_override(*context, ci as int, finding_views(results@)[i]);
                    } else {
                        assert(finding_views(results@)[i] == before[i]);
                    }
                }
            }
            let ghost after_overrides = finding_views(results@);
            let uri = context.class_artifact_uri(class);
            let mut mi: usize = 0;
            proof {
                assert(after_overrides + Seq::<FindingView>::empty() =~= after_overrides);
            }
            while mi < class.methods.len()
                invariant
                    ci < classes@.len(),
                    classes@ == context.targets(),
                    *class == classes@[ci as int],
                    opt_view(uri) == context.class_uri(*class),
                    class_seq(all@) == context_classes(*context),
                    cc == context_classes(*context),
                    mi <= class.methods@.len(),
                    nullness_method_findings(cc, opt_view(uri), *class, mi as int) matches Some(f)
                        && finding_views(results@) == after_overrides + f,
                    forall|i: int| 0 <= i < results@.len() ==> reports_nullness(*context, #[trigger] finding_views(results@)[i]),
                decreases class.methods.len() - mi,
            {
                let method = &class.methods[mi];
                let ghost sofar = finding_views(results@);
                if method.bytecode.len() > 0 {
                    let flow = match check_method_flow(&all, &uri, class, method) {
                        Ok(flow) => flow,
                        Err(e) => {
                            proof {
                                assert(class.methods@[mi as int] == *method);
                                lemma_method_findings_none(cc, opt_view(uri), *class, mi + 1, class.methods@.len() as int);
                                assert(context.targets()[ci as int] == *class);
                                lemma_targets_findings_none(*context, ci + 1, context.targets().len() as int);
                            }
                            return Err(e);
                        },
                    };
                    let ghost before = finding_views(results@);
                    let ghost added = finding_views(flow@);
                    append_findings(&mut results, flow);
                    proof {
                        assert(finding_views(results@) == before + added);
                        assert(finding_views(results@).len() == results@.len());
                        assert forall|i: int| 0 <= i < results@.len() implies reports_nullness(
                            *context,
                            #[trigger] finding_views(results@)[i],
                        ) by {
                            if i >= before.len() {
                                assert(finding_views(results@)[i] == added[i - before.len()]);
                                assert(context.targets()[ci as int] == *class);
                                assert(class.methods@[mi as int] == *method);
                                lemma_reports_flow(*context, ci as int, mi as int, finding_views(results@)[i]);
                            } else {
                                assert(finding_views(results@)[i] == before[i]);
                            }
                        }
                        let f = nullness_method_findings(cc, opt_view(uri), *class, mi as int)->0;
                        assert(finding_views(results@) =~= after_overrides + (f + added));
                    }
                }
                mi = mi + 1;
            }
            proof {
                let f = nullness_method_findings(cc, opt_view(uri), *class, class.methods@.len() as int)->0;
                assert(context.targets()[ci as int] == *class);
                assert(finding_views(results@) =~= before_class + override_findings(cc, *class) + f);
            }
            ci = ci + 1;
        }
        let ghost raw = finding_views(results@);
        let deduped = deduplicate_findings(results);
        proof {
            lemma_dedup_findings(raw);
            assert forall|i: int| 0 <= i < deduped@.len() implies reports_nullness(*context, #[trigger] finding_views(deduped@)[i]) by {
                let x = finding_views(deduped@)[i];
                assert(raw.contains(x));
                let j = choose|j: int| 0 <= j < raw.len() && raw[j] == x;
                assert(reports_nullness(*context, raw[j]));
            }
        }
        Ok(deduped)
    }
}

} // verus!
