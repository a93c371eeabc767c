//! Reports array comparisons by reference (`==`/`!=` on two arrays) or with
//! `equals()` called on an array, found by interpreting each method's bytecode
//! in order over a value domain that tracks array dimensions.
use vstd::prelude::*;
use crate::bytecode::{decodes_from, lemma_call_parses, method_decodes, opcode_length};
use crate::dataflow::opcode_semantics::{
    ApplyOutcome, SemanticsCoverage, SemanticsDebugConfig, SemanticsHooks, ValueDomain, apply_semantics,
    count_of, coverage_has_room,
};
use crate::dataflow::stack_machine::{StackMachine, StackMachineConfig, popped, pushed, top_or};
use crate::descriptor::{DescriptorType, parse_method_descriptor};
use crate::engine::{AnalysisContext, opt_view, targets_decode};
use crate::error::AnalysisError;
use crate::ir::{CallSite, Class, Method};
use crate::opcodes;
use crate::rules::call_scan::{about_method, method_message};
use crate::rules::location::{
    Finding, FindingView, RuleMetadata, finding, finding_views, method_location_spec,
    method_location_with_line, push_finding,
};
use crate::text::str_eq;

verus! {

/// What the analysis knows of a value: an array of some dimensions, a
/// non-array, or nothing.
#[derive(Clone, Copy, Debug, PartialEq, Eq, Structural)]
pub enum ValueKind {
    Unknown,
    Array(u8),
    NonArray,
}

/// Scalars are non-arrays; unknown references stay unknown.
pub struct ArrayValueDomain;

impl ValueDomain<ValueKind> for ArrayValueDomain {
    open spec fn unknown_spec(&self) -> ValueKind {
        ValueKind::Unknown
    }

    open spec fn scalar_spec(&self) -> ValueKind {
        ValueKind::NonArray
    }

    fn unknown_value(&self) -> (res: ValueKind) {
        ValueKind::Unknown
    }

    fn scalar_value(&self) -> (res: ValueKind) {
        ValueKind::NonArray
    }
}

/// Array-aware semantics for array creation, loads and reference comparison;
/// records where two arrays are compared by reference.
pub struct ArraySemanticsHook {
    pub reference_equality_offsets: Vec<u32>,
}

impl ArraySemanticsHook {
    /// Hands out the recorded comparison offsets and forgets them.
    pub fn take_reference_equality_offsets(&mut self) -> (res: Vec<u32>)
        ensures
            res@ == old(self).reference_equality_offsets@,
            final(self).reference_equality_offsets@ == Seq::<u32>::empty(),
    {
        let mut taken: Vec<u32> = Vec::new();
        std::mem::swap(&mut taken, &mut self.reference_equality_offsets);
        taken
    }
}

/// The element of an array of `v`: one dimension less, a non-array for a
/// one-dimensional array, unknown for anything else.
pub open spec fn element_of(v: ValueKind) -> ValueKind {
    match v {
        ValueKind::Array(dims) => if dims > 1 {
            ValueKind::Array((dims - 1) as u8)
        } else {
            ValueKind::NonArray
        },
        _ => ValueKind::Unknown,
    }
}

/// The dimension count a `multianewarray` at `offset` names, or 0 past the code.
pub open spec fn dims_operand(code: Seq<u8>, offset: usize) -> u8 {
    if offset + 3 < code.len() { code[offset + 3] } else { 0 }
}

/// The kind of an element loaded from an array of kind `a`.
pub open spec fn element_kind(a: ValueKind) -> ValueKind {
    match a {
        ValueKind::Array(d) => if d > 1 { ValueKind::Array((d - 1) as u8) } else { ValueKind::NonArray },
        _ => ValueKind::Unknown,
    }
}

/// The opcodes the array hook handles itself.
pub open spec fn array_hook_handles(opcode: u8) -> bool {
    ||| opcode == opcodes::NEWARRAY
    ||| opcode == opcodes::ANEWARRAY
    ||| opcode == opcodes::MULTIANEWARRAY
    ||| opcode == opcodes::AALOAD
    ||| opcode == opcodes::ARRAYLENGTH
    ||| opcode == opcodes::IF_ACMPEQ
    ||| opcode == opcodes::IF_ACMPNE
}

/// The stack the array hook leaves for a handled opcode.
pub open spec fn array_hook_stack(
    config: StackMachineConfig,
    s: Seq<ValueKind>,
    d: ValueKind,
    code: Seq<u8>,
    offset: usize,
    opcode: u8,
) -> Seq<ValueKind> {
    if opcode == opcodes::NEWARRAY || opcode == opcodes::ANEWARRAY {
        pushed(config, popped(s, 1), ValueKind::Array(1))
    } else if opcode == opcodes::MULTIANEWARRAY {
        let dims = dims_operand(code, offset);
        pushed(config, popped(s, dims as nat), if dims > 0 { ValueKind::Array(dims) } else { ValueKind::Unknown })
    } else if opcode == opcodes::AALOAD {
        pushed(config, popped(s, 2), element_kind(top_or(popped(s, 1), d)))
    } else if opcode == opcodes::ARRAYLENGTH {
        pushed(config, popped(s, 1), ValueKind::NonArray)
    } else {
        popped(s, 2)
    }
}

/// Popping once more pops one more.
pub proof fn lemma_popped_again<V>(s: Seq<V>, n: nat)
    ensures
        popped(popped(s, n), 1) == popped(s, n + 1),
{
    assert(popped(popped(s, n), 1) =~= popped(s, n + 1));
}

impl SemanticsHooks<ValueKind> for ArraySemanticsHook {
    open spec fn pre_outcome(&self, machine: StackMachine<ValueKind>, method: Method, offset: usize, opcode: u8) -> ApplyOutcome {
        if array_hook_handles(opcode) {
            ApplyOutcome::Applied
        } else {
            ApplyOutcome::NotHandled
        }
    }

    open spec fn pre_applied(
        &self,
        machine: StackMachine<ValueKind>,
        method: Method,
        offset: usize,
        opcode: u8,
        hooks: Self,
        after: StackMachine<ValueKind>,
    ) -> bool {
        &&& !array_hook_handles(opcode) ==> after == machine && hooks.reference_equality_offsets@
            == self.reference_equality_offsets@
        &&& array_hook_handles(opcode) ==> after.stack() == array_hook_stack(
            machine.config(),
            machine.stack(),
            machine.default_value(),
            method.bytecode@,
            offset,
            opcode,
        )
        &&& after.locals() == machine.locals()
        &&& after.default_value() == machine.default_value()
        &&& after.config() == machine.config()
        &&& (opcode == opcodes::IF_ACMPEQ || opcode == opcodes::IF_ACMPNE) ==> hooks.reference_equality_offsets@
            == if top_or(machine.stack(), machine.default_value()) is Array && top_or(
            popped(machine.stack(), 1),
            machine.default_value(),
        ) is Array {
            self.reference_equality_offsets@.push(offset as u32)
        } else {
            self.reference_equality_offsets@
        }
        &&& array_hook_handles(opcode) && opcode != opcodes::IF_ACMPEQ && opcode != opcodes::IF_ACMPNE
            ==> hooks.reference_equality_offsets@ == self.reference_equality_offsets@
    }

    open spec fn post_applied(
        &self,
        machine: StackMachine<ValueKind>,
        method: Method,
        offset: usize,
        opcode: u8,
        outcome: ApplyOutcome,
        hooks: Self,
        after: StackMachine<ValueKind>,
    ) -> bool {
        &&& after == machine
        &&& hooks.reference_equality_offsets@ == self.reference_equality_offsets@
    }

    fn post_apply(
        &mut self,
        machine: &mut StackMachine<ValueKind>,
        method: &Method,
        offset: usize,
        opcode: u8,
        outcome: ApplyOutcome,
    ) {
    }

    fn pre_apply(
        &mut self,
        machine: &mut StackMachine<ValueKind>,
        method: &Method,
        offset: usize,
        opcode: u8,
    ) -> (res: ApplyOutcome)
        ensures
            (res == ApplyOutcome::Applied) == array_hook_handles(opcode),
            !array_hook_handles(opcode) ==> *final(machine) == *old(machine) && final(self).reference_equality_offsets@
                == old(self).reference_equality_offsets@,
            array_hook_handles(opcode) ==> final(machine).stack() == array_hook_stack(
                old(machine).config(),
                old(machine).stack(),
                old(machine).default_value(),
                method.bytecode@,
                offset,
                opcode,
            ),
            final(machine).locals() == old(machine).locals(),
            final(machine).default_value() == old(machine).default_value(),
            final(machine).config() == old(machine).config(),
            (opcode == opcodes::IF_ACMPEQ || opcode == opcodes::IF_ACMPNE) ==> final(self).reference_equality_offsets@
                == if top_or(old(machine).stack(), old(machine).default_value()) is Array && top_or(
                popped(old(machine).stack(), 1),
                old(machine).default_value(),
            ) is Array {
                old(self).reference_equality_offsets@.push(offset as u32)
            } else {
                old(self).reference_equality_offsets@
            },
            array_hook_handles(opcode) && opcode != opcodes::IF_ACMPEQ && opcode != opcodes::IF_ACMPNE
                ==> final(self).reference_equality_offsets@ == old(self).reference_equality_offsets@,
    {
        proof {
            lemma_popped_again(machine.stack(), 1);
        }
        if opcode == opcodes::NEWARRAY || opcode == opcodes::ANEWARRAY {
            machine.pop();
            machine.push(ValueKind::Array(1));
            ApplyOutcome::Applied
        } else if opcode == opcodes::MULTIANEWARRAY {
            let dims: u8 = if offset < method.bytecode.len() && method.bytecode.len() - offset > 3 {
                method.bytecode[offset + 3]
            } else {
                0
            };
            let ghost s0 = machine.stack();
            let mut k: u8 = 0;
            while k < dims
                invariant
                    k <= dims,
                    machine.stack() == popped(s0, k as nat),
                    machine.locals() == old(machine).locals(),
                    machine.default_value() == old(machine).default_value(),
                    machine.config() == old(machine).config(),
                decreases dims - k,
            {
                machine.pop();
                proof {
                    lemma_popped_again(s0, k as nat);
                }
                k = k + 1;
            }
            if dims > 0 {
                machine.push(ValueKind::Array(dims));
            } else {
                machine.push(ValueKind::Unknown);
            }
            ApplyOutcome::Applied
        } else if opcode == opcodes::AALOAD {
            machine.pop();
            let array = machine.pop();
            let value = match array {
                ValueKind::Array(dims) => if dims > 1 {
                    ValueKind::Array(dims - 1)
                } else {
                    ValueKind::NonArray
                },
                _ => ValueKind::Unknown,
            };
            machine.push(value);
            ApplyOutcome::Applied
        } else if opcode == opcodes::ARRAYLENGTH {
            machine.pop();
            machine.push(ValueKind::NonArray);
            ApplyOutcome::Applied
        } else if opcode == opcodes::IF_ACMPEQ || opcode == opcodes::IF_ACMPNE {
            let right = machine.pop();
            let left = machine.pop();
            if matches!(left, ValueKind::Array(_)) && matches!(right, ValueKind::Array(_)) {
                self.reference_equality_offsets.push(offset as u32);
            }
            ApplyOutcome::Applied
        } else {
            ApplyOutcome::NotHandled
        }
    }
}

/// The next call of the method at `offset`, scanning forward from
/// `*next_call_index`: calls before `offset` are skipped, a call at `offset` is
/// returned (and passed), and the scan stops at the first later call.
pub fn callsite_for_offset<'a>(method: &'a Method, next_call_index: &mut usize, offset: u32) -> (res: Option<&'a CallSite>)
    ensures
        *old(next_call_index) <= *final(next_call_index) <= method.calls@.len() || *final(next_call_index)
            == *old(next_call_index),
        forall|i: int| *old(next_call_index) <= i < *final(next_call_index) && (res is None || i < *final(next_call_index) - 1)
            ==> (#[trigger] method.calls@[i]).offset < offset,
        match res {
            Some(call) => *final(next_call_index) >= 1 && *call == method.calls@[*final(next_call_index) - 1]
                && call.offset == offset,
            None => *final(next_call_index) >= method.calls@.len() || method.calls@[*final(next_call_index) as int].offset > offset,
        },
{
    while *next_call_index < method.calls.len()
        invariant
            *old(next_call_index) <= *next_call_index,
            *old(next_call_index) <= method.calls@.len() ==> *next_call_index <= method.calls@.len(),
            *old(next_call_index) > method.calls@.len() ==> *next_call_index == *old(next_call_index),
            forall|i: int| *old(next_call_index) <= i < *next_call_index ==> (#[trigger] method.calls@[i]).offset < offset,
        decreases method.calls@.len() - *next_call_index,
    {
        let call = &method.calls[*next_call_index];
        if call.offset < offset {
            *next_call_index = *next_call_index + 1;
            continue;
        }
        if call.offset == offset {
            *next_call_index = *next_call_index + 1;
            return Some(call);
        }
        return None;
    }
    None
}

/// The value a parameter of a descriptor type starts as: an array of its
/// dimensions, otherwise a non-array.
pub open spec fn parameter_value(t: crate::descriptor::TypeShape) -> ValueKind {
    match t {
        crate::descriptor::TypeShape::Array(_, dims) => ValueKind::Array(dims),
        _ => ValueKind::NonArray,
    }
}

/// The locals a method starts with: `this` (when not static) and each
/// parameter, a `long` or `double` taking a second slot.
pub fn initial_locals(method: &Method) -> (res: Result<Vec<(usize, ValueKind)>, AnalysisError>)
    ensures
        res is Err <==> crate::descriptor::jdescriptor_parse(method.descriptor@) is None,
{
    let parsed = match parse_method_descriptor(method.descriptor.as_str()) {
        Some(p) => p,
        None => {
            return Err(AnalysisError::InvalidDescriptor(method.descriptor.clone()));
        },
    };
    let mut locals: Vec<(usize, ValueKind)> = Vec::new();
    let mut index: usize = 0;
    if !method.access.is_static {
        locals.push((index, ValueKind::NonArray));
        index = 1;
    }
    let mut i: usize = 0;
    while i < parsed.parameter_types.len()
        invariant
            i <= parsed.parameter_types@.len(),
            index <= 1 + 2 * i,
        decreases parsed.parameter_types.len() - i,
    {
        if index >= usize::MAX - 2 {
            break;
        }
        let value = match &parsed.parameter_types[i] {
            DescriptorType::Array(_, dims) => ValueKind::Array(*dims),
            _ => ValueKind::NonArray,
        };
        locals.push((index, value));
        index = index + 1;
        match &parsed.parameter_types[i] {
            DescriptorType::Long | DescriptorType::Double => {
                locals.push((index, ValueKind::NonArray));
                index = index + 1;
            },
            _ => {},
        }
        i = i + 1;
    }
    Ok(locals)
}

/// Argument count and returned value of a called method.
#[derive(Clone, Copy, Debug)]
pub struct CallDescriptorSummary {
    pub arg_count: usize,
    pub return_kind: Option<ValueKind>,
}

/// The argument count and the value returned by a call with this descriptor:
/// an array of its dimensions, a non-array for a class, nothing for a
/// primitive or `void`.
pub fn call_descriptor_summary(descriptor: &str) -> (res: Result<CallDescriptorSummary, AnalysisError>)
    ensures
        match crate::descriptor::jdescriptor_parse(descriptor@) {
            Some((params, ret)) => res matches Ok(s) && s.arg_count == params.len() && s.return_kind == match ret {
                crate::descriptor::TypeShape::Array(_, dims) => Some(ValueKind::Array(dims)),
                crate::descriptor::TypeShape::Object(_) => Some(ValueKind::NonArray),
                _ => None::<ValueKind>,
            },
            None => res is Err,
        },
{
    let parsed = match parse_method_descriptor(descriptor) {
        Some(p) => p,
        None => {
            return Err(AnalysisError::InvalidDescriptor(descriptor.to_owned()));
        },
    };
    let return_kind = match &parsed.return_type {
        DescriptorType::Array(_, dims) => Some(ValueKind::Array(*dims)),
        DescriptorType::Object(_) => Some(ValueKind::NonArray),
        _ => None,
    };
    Ok(CallDescriptorSummary { arg_count: parsed.parameter_types.len(), return_kind })
}

/// The message for a reference comparison of arrays in method `m` of `c`.
pub open spec fn reference_equality_message(c: Class, m: Method) -> Seq<char> {
    about_method("Array comparison uses reference equality: "@, c, m, ""@)
}

/// The message for `equals()` called on an array in method `m` of `c`.
pub open spec fn equals_call_message(c: Class, m: Method) -> Seq<char> {
    about_method("Array comparison uses equals(): "@, c, m, ""@)
}

/// The finding is about method `m` of `c`: one of the two messages, at the
/// method's location with the line of some bytecode offset.
pub open spec fn array_finding_of(uri: Option<Seq<char>>, c: Class, m: Method, f: FindingView) -> bool {
    exists|o: u32|
        #![trigger crate::ir::line_for_offset_spec(m.line_numbers@, o)]
        {
            &&& f.rule_id is None
            &&& f.message == reference_equality_message(c, m) || f.message == equals_call_message(c, m)
            &&& f.locations == seq![method_location_spec(c.name@, m.name@, m.descriptor@, uri, crate::ir::line_for_offset_spec(m.line_numbers@, o))]
        }
}

/// Findings and coverage counters of one method.
pub struct MethodAnalysis {
    pub results: Vec<Finding>,
    pub coverage: SemanticsCoverage,
}

/// Coverage counters that are all at most `bound`.
pub open spec fn coverage_within(c: SemanticsCoverage, bound: int) -> bool {
    &&& c.applied_by_hook + c.applied_by_default + c.fallback_not_handled <= bound
    &&& forall|op: u8| #[trigger] count_of(c.overridden(), op) <= bound
    &&& forall|op: u8| #[trigger] count_of(c.fallbacks(), op) <= bound
}

/// One more counted event keeps the counters within one more.
pub proof fn lemma_coverage_step(old: SemanticsCoverage, new: SemanticsCoverage, op: u8, bound: int, later: int)
    requires
        coverage_within(old, bound),
        bound + 1 <= later,
        crate::dataflow::opcode_semantics::counted_hook(old, new, op)
            || crate::dataflow::opcode_semantics::counted_default(old, new)
            || crate::dataflow::opcode_semantics::counted_fallback(old, new, op),
    ensures
        coverage_within(new, later),
{
    assert forall|o: u8| #[trigger] count_of(new.overridden(), o) <= later by {
        assert(count_of(old.overridden(), o) <= bound);
    }
    assert forall|o: u8| #[trigger] count_of(new.fallbacks(), o) <= later by {
        assert(count_of(old.fallbacks(), o) <= bound);
    }
}

fn report(class: &Class, method: &Method, uri: &Option<String>, prefix: &str, offset: u32) -> (res: Finding)
    ensures
        res@.rule_id is None,
        res@.message == about_method(prefix@, *class, *method, ""@),
        res@.locations == seq![method_location_spec(class.name@, method.name@, method.descriptor@, opt_view(*uri), crate::ir::line_for_offset_spec(method.line_numbers@, offset))],
{
    let message = method_message(prefix, class, method, "");
    let line = method.line_for_offset(offset);
    let artifact_uri: Option<&str> = match uri {
        Some(s) => Some(s.as_str()),
        None => None,
    };
    let location = method_location_with_line(
        class.name.as_str(),
        method.name.as_str(),
        method.descriptor.as_str(),
        artifact_uri,
        line,
    );
    finding(message, location)
}

/// Interprets the method's bytecode in order and reports array comparisons.
pub fn analyze_method(class: &Class, method: &Method, uri: &Option<String>) -> (res: Result<MethodAnalysis, AnalysisError>)
    ensures
        res matches Ok(a) ==> forall|i: int|
            0 <= i < a.results@.len() ==> array_finding_of(opt_view(*uri), *class, *method, #[trigger] finding_views(a.results@)[i]),
        method_decodes(*method) ==> res is Ok,
{
    let mut results: Vec<Finding> = Vec::new();
    let mut next_call_index: usize = 0;
    let mut machine = StackMachine::new(ValueKind::Unknown);
    let domain = ArrayValueDomain;
    let mut hooks = ArraySemanticsHook { reference_equality_offsets: Vec::new() };
    let mut coverage = SemanticsCoverage::new();
    let debug = SemanticsDebugConfig { enabled: false, rule_id: "ARRAY_EQUALS" };
    let locals = initial_locals(method)?;
    let mut li: usize = 0;
    while li < locals.len()
        decreases locals.len() - li,
    {
        let (index, value) = locals[li];
        machine.store_local(index, value);
        li = li + 1;
    }
    proof {
        reveal_strlit("Array comparison uses reference equality: ");
        reveal_strlit("Array comparison uses equals(): ");
        reveal_strlit("");
    }
    let mut offset: usize = 0;
    while offset < method.bytecode.len()
        invariant
            coverage_within(coverage, offset as int),
            forall|i: int|
                0 <= i < results@.len() ==> array_finding_of(opt_view(*uri), *class, *method, #[trigger] finding_views(results@)[i]),
            next_call_index <= method.calls@.len(),
            method_decodes(*method) ==> decodes_from(method.bytecode@, offset as int),
        decreases method.bytecode.len() - offset,
    {
        let opcode = method.bytecode[offset];
        let ghost before = coverage;
        let outcome = apply_semantics(&mut machine, method, offset, opcode, &domain, &mut hooks, &mut coverage, debug);
        let ghost after = coverage;
        if outcome == ApplyOutcome::Applied {
            let offsets = hooks.take_reference_equality_offsets();
            let mut k: usize = 0;
            while k < offsets.len()
                invariant
                    forall|i: int|
                        0 <= i < results@.len() ==> array_finding_of(opt_view(*uri), *class, *method, #[trigger] finding_views(results@)[i]),
                decreases offsets.len() - k,
            {
                let f = report(class, method, uri, "Array comparison uses reference equality: ", offsets[k]);
                let ghost fv = f@;
                let ghost prev = finding_views(results@);
                assert(array_finding_of(opt_view(*uri), *class, *method, fv));
                push_finding(&mut results, f);
                proof {
                    assert(finding_views(results@) == prev.push(fv));
                    assert forall|i: int| 0 <= i < results@.len() implies array_finding_of(opt_view(*uri), *class, *method, #[trigger] finding_views(results@)[i]) by {
                        if i < prev.len() {
                            assert(finding_views(results@)[i] == prev[i]);
                        } else {
                            assert(finding_views(results@)[i] == fv);
                        }
                    }
                }
                k = k + 1;
            }
        } else if opcode == opcodes::INVOKEVIRTUAL || opcode == opcodes::INVOKESPECIAL
            || opcode == opcodes::INVOKEINTERFACE || opcode == opcodes::INVOKESTATIC {
            match callsite_for_offset(method, &mut next_call_index, offset as u32) {
                Some(call) => {
                    proof {
                        if method_decodes(*method) {
                            assert(*call == method.calls@[next_call_index - 1]);
                            lemma_call_parses(*method, *call);
                        }
                    }
                    let summary = call_descriptor_summary(call.descriptor.as_str())?;
                    machine.pop_n(summary.arg_count);
                    if opcode != opcodes::INVOKESTATIC {
                        let receiver = machine.pop();
                        if str_eq(call.name.as_str(), "equals") && str_eq(call.descriptor.as_str(), "(Ljava/lang/Object;)Z")
                            && matches!(receiver, ValueKind::Array(_)) {
                            let f = report(class, method, uri, "Array comparison uses equals(): ", offset as u32);
                            let ghost fv = f@;
                            let ghost prev = finding_views(results@);
                            assert(array_finding_of(opt_view(*uri), *class, *method, fv));
                            push_finding(&mut results, f);
                            proof {
                                assert(finding_views(results@) == prev.push(fv));
                                assert forall|i: int| 0 <= i < results@.len() implies array_finding_of(opt_view(*uri), *class, *method, #[trigger] finding_views(results@)[i]) by {
                                    if i < prev.len() {
                                        assert(finding_views(results@)[i] == prev[i]);
                                    } else {
                                        assert(finding_views(results@)[i] == fv);
                                    }
                                }
                            }
                        }
                    }
                    match summary.return_kind {
                        Some(kind) => machine.push(kind),
                        None => {},
                    }
                },
                None => {},
            }
        }
        let length = opcode_length(&method.bytecode, offset)?;
        proof {
            lemma_coverage_step(before, after, opcode, offset as int, offset + length);
        }
        offset = offset + length;
    }
    Ok(MethodAnalysis { results, coverage })
}

/// Reports array comparisons by reference or with `equals()`.
#[derive(Clone, Copy, Debug)]
pub struct ArrayEqualsRule;

/// The finding is about a method with bytecode of an analysis-target class.
pub open spec fn reports_array_comparison(ctx: AnalysisContext, f: FindingView) -> bool {
    exists|ci: int, mi: int|
        #![trigger ctx.targets()[ci].methods@[mi]]
        0 <= ci < ctx.targets().len() && 0 <= mi < ctx.targets()[ci].methods@.len()
            && ctx.targets()[ci].methods@[mi].bytecode@.len() > 0 && array_finding_of(
            ctx.class_uri(ctx.targets()[ci]),
            ctx.targets()[ci],
            ctx.targets()[ci].methods@[mi],
            f,
        )
}

impl ArrayEqualsRule {
    /// The rule's id, name and description.
    pub fn metadata(&self) -> (res: RuleMetadata)
        ensures
            res.id@ == "ARRAY_EQUALS"@,
    {
        RuleMetadata {
            id: "ARRAY_EQUALS",
            name: "Array equals",
            description: "Array comparisons using == or equals()",
        }
    }

    /// The array comparisons of every method with bytecode of the
    /// analysis-target classes.
    pub fn run(&self, context: &AnalysisContext) -> (res: Result<Vec<Finding>, AnalysisError>)
        ensures
            targets_decode(*context) ==> res is Ok,
            res matches Ok(v) ==> forall|i: int|
                0 <= i < v@.len() ==> reports_array_comparison(*context, #[trigger] finding_views(v@)[i]),
    {
        let classes = context.analysis_target_classes();
        let mut results: Vec<Finding> = Vec::new();
        let mut ci: usize = 0;
        while ci < classes.len()
            invariant
                ci <= classes@.len(),
                classes@ == context.targets(),
                forall|i: int|
                    0 <= i < results@.len() ==> reports_array_comparison(*context, #[trigger] finding_views(results@)[i]),
            decreases classes.len() - ci,
        {
            let class = &classes[ci];
            let uri = context.class_artifact_uri(class);
            let mut mi: usize = 0;
            while mi < class.methods.len()
                invariant
                    ci < classes@.len(),
                    classes@ == context.targets(),
                    *class == classes@[ci as int],
                    opt_view(uri) == context.class_uri(*class),
                    mi <= class.methods@.len(),
                    forall|i: int|
                        0 <= i < results@.len() ==> reports_array_comparison(*context, #[trigger] finding_views(results@)[i]),
                decreases class.methods.len() - mi,
            {
                let method = &class.methods[mi];
                proof {
                    assert(context.targets()[ci as int].methods@[mi as int] == *method);
                }
                if method.bytecode.len() > 0 {
                    let analysis = analyze_method(class, method, &uri)?;
                    let mut found = analysis.results;
                    let ghost prev = finding_views(results@);
                    let ghost add = finding_views(found@);
                    proof {
                        assert(context.targets()[ci as int].methods@[mi as int] == *method);
                        assert forall|i: int| 0 <= i < add.len() implies reports_array_comparison(*context, #[trigger] add[i]) by {
                            assert(array_finding_of(opt_view(uri), *class, *method, finding_views(found@)[i]));
                        }
                    }
                    results.append(&mut found);
                    proof {
                        assert(finding_views(results@) =~= prev + add);
                        assert forall|i: int| 0 <= i < results@.len() implies reports_array_comparison(*context, #[trigger] finding_views(results@)[i]) by {
                            if i < prev.len() {
                                assert(finding_views(results@)[i] == prev[i]);
                            } else {
                                assert(finding_views(results@)[i] == add[i - prev.len()]);
                            }
                        }
                    }
                }
                mi = mi + 1;
            }
            ci = ci + 1;
        }
        Ok(results)
    }
}

} // verus!
