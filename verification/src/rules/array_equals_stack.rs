//! The array-comparison rule over a plain operand stack and local array, with
//! arrays tracked without their dimensions.
use vstd::prelude::*;
use crate::bytecode::{decodes_from, instruction_length, lemma_call_parses, method_decodes, opcode_length};
use crate::dataflow::frame::{ensure_local, ensured, pop_or_unknown};
use crate::descriptor::{DescriptorType, ReturnKind, TypeShape, jdescriptor_parse, method_param_count, method_return_kind, parse_method_descriptor, return_kind_of};
use crate::engine::{AnalysisContext, opt_view, targets_decode};
use crate::error::AnalysisError;
use crate::ir::{CallSite, Class, Method};
use crate::opcodes;
use crate::rules::array_equals::{array_finding_of, reports_array_comparison};
use crate::rules::call_scan::method_message;
use crate::rules::location::{Finding, FindingView, RuleMetadata, finding, finding_views, method_location_with_line, push_finding};
use crate::rules::nullness::{find_call_at, last_call_at};
use crate::text::str_eq;

verus! {

/// What the analysis knows of a value.
#[derive(Clone, Copy, Debug, PartialEq, Eq, Structural)]
pub enum SlotValue {
    Unknown,
    Array,
    NonArray,
}

/// The slots of parameters of these types: one each, two for `long` and
/// `double`; arrays are known as arrays.
pub open spec fn param_slots(params: Seq<TypeShape>) -> Seq<SlotValue>
    decreases params.len(),
{
    if params.len() == 0 {
        Seq::empty()
    } else {
        param_slots(params.drop_last()) + match params.last() {
            TypeShape::Array(_, _) => seq![SlotValue::Array],
            TypeShape::Long | TypeShape::Double => seq![SlotValue::NonArray, SlotValue::NonArray],
            _ => seq![SlotValue::NonArray],
        }
    }
}

/// The locals a method starts with; `None` when its descriptor does not parse.
pub open spec fn initial_slots_spec(m: Method) -> Option<Seq<SlotValue>> {
    match jdescriptor_parse(m.descriptor@) {
        Some((params, _)) => Some(
            (if m.access.is_static { Seq::<SlotValue>::empty() } else { seq![SlotValue::NonArray] }) + param_slots(params),
        ),
        None => None,
    }
}

/// The locals a method starts with: `this` (when not static) and each
/// parameter, a `long` or `double` taking a second slot.
pub fn initial_slots(method: &Method) -> (res: Result<Vec<SlotValue>, AnalysisError>)
    ensures
        match initial_slots_spec(*method) {
            Some(l) => res matches Ok(v) && v@ == l,
            None => res is Err,
        },
{
    let parsed = match parse_method_descriptor(method.descriptor.as_str()) {
        Some(p) => p,
        None => {
            return Err(AnalysisError::InvalidDescriptor(method.descriptor.clone()));
        },
    };
    let ghost params = parsed@.0;
    let ghost base = if method.access.is_static { Seq::<SlotValue>::empty() } else { seq![SlotValue::NonArray] };
    let mut locals: Vec<SlotValue> = Vec::new();
    if !method.access.is_static {
        locals.push(SlotValue::NonArray);
    }
    let mut i: usize = 0;
    proof {
        assert(params.take(0) =~= Seq::<TypeShape>::empty());
        assert(locals@ =~= base + param_slots(params.take(0)));
    }
    while i < parsed.parameter_types.len()
        invariant
            i <= parsed.parameter_types@.len(),
            params == parsed@.0,
            locals@ == base + param_slots(params.take(i as int)),
        decreases parsed.parameter_types.len() - i,
    {
        let ghost before = locals@;
        proof {
            assert(params.take(i + 1).drop_last() =~= params.take(i as int));
            assert(params.take(i + 1).last() == parsed.parameter_types@[i as int]@);
        }
        match &parsed.parameter_types[i] {
            DescriptorType::Array(_, _) => locals.push(SlotValue::Array),
            DescriptorType::Long | DescriptorType::Double => {
                locals.push(SlotValue::NonArray);
                locals.push(SlotValue::NonArray);
            },
            _ => locals.push(SlotValue::NonArray),
        }
        i = i + 1;
        assert(locals@ =~= base + param_slots(params.take(i as int)));
    }
    assert(params.take(i as int) =~= params);
    Ok(locals)
}

fn report(class: &Class, method: &Method, uri: &Option<String>, prefix: &str, offset: u32) -> (res: Finding)
    ensures
        res@.rule_id is None,
        res@.message == crate::rules::call_scan::about_method(prefix@, *class, *method, ""@),
        res@.locations == seq![crate::rules::location::method_location_spec(class.name@, method.name@, method.descriptor@, opt_view(*uri), crate::ir::line_for_offset_spec(method.line_numbers@, offset))],
{
    let message = method_message(prefix, class, method, "");
    let line = method.line_for_offset(offset);
    let artifact_uri: Option<&str> = match uri {
        Some(s) => Some(s.as_str()),
        None => None,
    };
    let location = method_location_with_line(class.name.as_str(), method.name.as_str(), method.descriptor.as_str(), artifact_uri, line);
    finding(message, location)
}

fn operand(method: &Method, offset: usize) -> (res: usize)
    ensures
        res < 256,
        res == if offset + 1 < method.bytecode@.len() { method.bytecode@[offset + 1] as usize } else { 0usize },
{
    if offset < method.bytecode.len() && method.bytecode.len() - offset > 1 {
        method.bytecode[offset + 1] as usize
    } else {
        0
    }
}

fn push_report(results: &mut Vec<Finding>, f: Finding, class: &Class, method: &Method, uri: &Option<String>)
    requires
        array_finding_of(opt_view(*uri), *class, *method, f@),
        forall|i: int| 0 <= i < old(results)@.len() ==> array_finding_of(opt_view(*uri), *class, *method, #[trigger] finding_views(old(results)@)[i]),
    ensures
        forall|i: int| 0 <= i < final(results)@.len() ==> array_finding_of(opt_view(*uri), *class, *method, #[trigger] finding_views(final(results)@)[i]),
        finding_views(final(results)@) == finding_views(old(results)@).push(f@),
{
    let ghost prev = finding_views(results@);
    let ghost fv = f@;
    push_finding(results, f);
    assert(finding_views(results@) == prev.push(fv));
    assert forall|i: int| 0 <= i < results@.len() implies array_finding_of(opt_view(*uri), *class, *method, #[trigger] finding_views(results@)[i]) by {
        if i < prev.len() {
            assert(finding_views(results@)[i] == prev[i]);
        } else {
            assert(finding_views(results@)[i] == fv);
        }
    }
}

/// The top of the stack and the rest; an unknown value on an empty stack.
pub open spec fn pop_slot(s: Seq<SlotValue>) -> (Seq<SlotValue>, SlotValue) {
    if s.len() > 0 {
        (s.drop_last(), s.last())
    } else {
        (s, SlotValue::Unknown)
    }
}

/// The stack without its top `n` values (as far as there are any).
pub open spec fn drop_slots(s: Seq<SlotValue>, n: nat) -> Seq<SlotValue>
    decreases n,
{
    if n == 0 {
        s
    } else {
        let r = drop_slots(s, (n - 1) as nat);
        if r.len() > 0 { r.drop_last() } else { r }
    }
}

/// The byte at `i` of the code, 0 past its end.
pub open spec fn code_byte(code: Seq<u8>, i: int) -> u8 {
    if 0 <= i < code.len() {
        code[i]
    } else {
        0u8
    }
}

/// An array comparison found at `off`, with the message's `prefix`.
pub open spec fn comparison_finding(uri: Option<Seq<char>>, c: Class, m: Method, prefix: Seq<char>, off: int) -> FindingView {
    FindingView {
        rule_id: None,
        message: crate::rules::call_scan::about_method(prefix, c, m, ""@),
        locations: seq![crate::rules::location::method_location_spec(
            c.name@,
            m.name@,
            m.descriptor@,
            uri,
            crate::ir::line_for_offset_spec(m.line_numbers@, off as u32),
        )],
    }
}

/// A call at `off` whose descriptor does not parse: the interpretation fails there.
pub open spec fn slots_step_fails(m: Method, off: int) -> bool {
    let op = code_byte(m.bytecode@, off);
    &&& (op == opcodes::INVOKEVIRTUAL || op == opcodes::INVOKESPECIAL || op == opcodes::INVOKEINTERFACE
        || op == opcodes::INVOKESTATIC)
    &&& last_call_at(m.calls@, off as u32) matches Some(k)
    &&& jdescriptor_parse(m.calls@[k].descriptor@) is None
}

/// The value a call leaves: an array or another object for a reference result.
pub open spec fn result_slot(ret: TypeShape) -> SlotValue {
    match ret {
        TypeShape::Array(_, _) => SlotValue::Array,
        TypeShape::Object(_) => SlotValue::NonArray,
        _ => SlotValue::Unknown,
    }
}

/// The effect of a call on the stack and what it reports: the arguments are
/// popped, then (unless static) the receiver, reported when it is an array
/// and the call is `equals(Object)`; a reference result is pushed.
pub open spec fn slots_call_step(
    c: Class,
    m: Method,
    uri: Option<Seq<char>>,
    off: int,
    has_receiver: bool,
    call: CallSite,
    params: Seq<TypeShape>,
    ret: TypeShape,
    stack: Seq<SlotValue>,
) -> (Seq<SlotValue>, Seq<FindingView>) {
    let s1 = drop_slots(stack, params.len());
    let (s2, f) = if has_receiver {
        let (r, receiver) = pop_slot(s1);
        (
            r,
            if call.name@ == "equals"@ && call.descriptor@ == "(Ljava/lang/Object;)Z"@ && receiver == SlotValue::Array {
                seq![comparison_finding(uri, c, m, "Array comparison uses equals(): "@, off)]
            } else {
                Seq::empty()
            },
        )
    } else {
        (s1, Seq::empty())
    };
    (if return_kind_of(ret) == ReturnKind::Reference { s2.push(result_slot(ret)) } else { s2 }, f)
}

/// The locals, stack and findings after the instruction at `off`.
#[verifier::opaque]
pub open spec fn slots_step(
    c: Class,
    m: Method,
    uri: Option<Seq<char>>,
    off: int,
    locals: Seq<SlotValue>,
    stack: Seq<SlotValue>,
) -> (Seq<SlotValue>, Seq<SlotValue>, Seq<FindingView>) {
    let code = m.bytecode@;
    let op = code_byte(code, off);
    if op == opcodes::ACONST_NULL {
        (locals, stack.push(SlotValue::Unknown), Seq::empty())
    } else if op == opcodes::ALOAD || (opcodes::ALOAD_0 <= op <= opcodes::ALOAD_3) {
        let index: int = if op == opcodes::ALOAD { code_byte(code, off + 1) as int } else { (op - opcodes::ALOAD_0) as int };
        let l2 = ensured(locals, index, SlotValue::Unknown);
        (l2, stack.push(l2[index]), Seq::empty())
    } else if op == opcodes::ASTORE || (opcodes::ASTORE_0 <= op <= opcodes::ASTORE_3) {
        let index: int = if op == opcodes::ASTORE { code_byte(code, off + 1) as int } else { (op - opcodes::ASTORE_0) as int };
        let l2 = ensured(locals, index, SlotValue::Unknown);
        let (rest, v) = pop_slot(stack);
        (l2.update(index, v), rest, Seq::empty())
    } else if op == opcodes::NEWARRAY || op == opcodes::ANEWARRAY {
        (locals, drop_slots(stack, 1).push(SlotValue::Array), Seq::empty())
    } else if op == opcodes::MULTIANEWARRAY {
        (locals, drop_slots(stack, code_byte(code, off + 3) as nat).push(SlotValue::Array), Seq::empty())
    } else if op == opcodes::NEW || op == opcodes::LDC || op == opcodes::LDC_W || op == opcodes::LDC2_W {
        (locals, stack.push(SlotValue::NonArray), Seq::empty())
    } else if op == opcodes::DUP {
        (locals, if stack.len() > 0 { stack.push(stack.last()) } else { stack }, Seq::empty())
    } else if op == opcodes::POP {
        (locals, drop_slots(stack, 1), Seq::empty())
    } else if op == opcodes::IF_ACMPEQ || op == opcodes::IF_ACMPNE {
        let (r1, right) = pop_slot(stack);
        let (rest, left) = pop_slot(r1);
        (
            locals,
            rest,
            if left == SlotValue::Array && right == SlotValue::Array {
                seq![comparison_finding(uri, c, m, "Array comparison uses reference equality: "@, off)]
            } else {
                Seq::empty()
            },
        )
    } else if op == opcodes::INVOKEVIRTUAL || op == opcodes::INVOKESPECIAL || op == opcodes::INVOKEINTERFACE || op
        == opcodes::INVOKESTATIC {
        match last_call_at(m.calls@, off as u32) {
            Some(k) => match jdescriptor_parse(m.calls@[k].descriptor@) {
                Some((params, ret)) => {
                    let (s2, f) = slots_call_step(c, m, uri, off, op != opcodes::INVOKESTATIC, m.calls@[k], params, ret, stack);
                    (locals, s2, f)
                },
                None => (locals, stack, Seq::empty()),
            },
            None => (locals, stack, Seq::empty()),
        }
    } else {
        (locals, stack, Seq::empty())
    }
}

/// The findings of interpreting the code from `off` to its end with the given
/// locals and stack, in order; `None` when an instruction does not decode or
/// a call's descriptor does not parse.
#[verifier::opaque]
pub open spec fn slots_run(
    c: Class,
    m: Method,
    uri: Option<Seq<char>>,
    off: int,
    locals: Seq<SlotValue>,
    stack: Seq<SlotValue>,
) -> Option<Seq<FindingView>>
    decreases m.bytecode@.len() - off,
{
    if off < 0 || off >= m.bytecode@.len() {
        Some(Seq::empty())
    } else if slots_step_fails(m, off) {
        None
    } else {
        let (l2, s2, f) = slots_step(c, m, uri, off, locals, stack);
        match instruction_length(m.bytecode@, off) {
            Some(len) => match slots_run(c, m, uri, off + len, l2, s2) {
                Some(rest) => Some(f + rest),
                None => None,
            },
            None => None,
        }
    }
}

/// One instruction of the interpretation, unfolded.
pub proof fn lemma_slots_run_unfold(c: Class, m: Method, uri: Option<Seq<char>>, off: int, locals: Seq<SlotValue>, stack: Seq<SlotValue>)
    ensures
        slots_run(c, m, uri, off, locals, stack) == if off < 0 || off >= m.bytecode@.len() {
            Some(Seq::<FindingView>::empty())
        } else if slots_step_fails(m, off) {
            None
        } else {
            let (l2, s2, f) = slots_step(c, m, uri, off, locals, stack);
            match instruction_length(m.bytecode@, off) {
                Some(len) => match slots_run(c, m, uri, off + len, l2, s2) {
                    Some(rest) => Some(f + rest),
                    None => None,
                },
                None => None,
            }
        },
{
    reveal_with_fuel(slots_run, 1);
}

/// The array comparisons of the whole method, in order: interpretation from
/// offset 0 with the initial locals and an empty stack; `None` when a
/// descriptor does not parse or the code does not decode.
pub open spec fn slots_analysis(c: Class, m: Method, uri: Option<Seq<char>>) -> Option<Seq<FindingView>> {
    match initial_slots_spec(m) {
        Some(l) => slots_run(c, m, uri, 0, l, Seq::empty()),
        None => None,
    }
}

/// Every finding of one step is an array comparison of the method.
pub proof fn lemma_slots_step_findings(
    c: Class,
    m: Method,
    uri: Option<Seq<char>>,
    off: int,
    locals: Seq<SlotValue>,
    stack: Seq<SlotValue>,
)
    ensures
        forall|i: int|
            0 <= i < slots_step(c, m, uri, off, locals, stack).2.len() ==> array_finding_of(
                uri,
                c,
                m,
                #[trigger] slots_step(c, m, uri, off, locals, stack).2[i],
            ),
{
    reveal(slots_step);
    let f = slots_step(c, m, uri, off, locals, stack).2;
    assert forall|i: int| 0 <= i < f.len() implies array_finding_of(uri, c, m, #[trigger] f[i]) by {
        let _ = crate::ir::line_for_offset_spec(m.line_numbers@, off as u32);
    }
}

/// Pops `n` values (each pop on an empty stack does nothing).
fn drop_slots_exec(stack: &mut Vec<SlotValue>, n: usize)
    ensures
        final(stack)@ == drop_slots(old(stack)@, n as nat),
{
    let ghost s0 = stack@;
    let mut k: usize = 0;
    while k < n
        invariant
            k <= n,
            stack@ == drop_slots(s0, k as nat),
        decreases n - k,
    {
        stack.pop();
        k = k + 1;
    }
}

/// Applies the call `k` at `offset` to the stack and appends what it
/// reports; an error when its descriptor does not parse.
fn slots_call_exec(
    class: &Class,
    method: &Method,
    uri: &Option<String>,
    offset: usize,
    has_receiver: bool,
    k: usize,
    stack: &mut Vec<SlotValue>,
    results: &mut Vec<Finding>,
) -> (res: Result<(), AnalysisError>)
    requires
        k < method.calls@.len(),
    ensures
        match jdescriptor_parse(method.calls@[k as int].descriptor@) {
            Some((params, ret)) => {
                let (s2, f2) = slots_call_step(*class, *method, opt_view(*uri), offset as int, has_receiver, method.calls@[k as int], params, ret, old(stack)@);
                &&& res is Ok
                &&& final(stack)@ == s2
                &&& finding_views(final(results)@) == finding_views(old(results)@) + f2
            },
            None => res is Err,
        },
{
    proof {
        reveal_strlit("Array comparison uses equals(): ");
        reveal_strlit("");
    }
    let ghost r0 = finding_views(results@);
    let call = &method.calls[k];
    let arg_count = method_param_count(call.descriptor.as_str())?;
    drop_slots_exec(stack, arg_count);
    let mut reported = false;
    if has_receiver {
        let receiver = pop_or_unknown(stack, SlotValue::Unknown);
        if str_eq(call.name.as_str(), "equals") && str_eq(call.descriptor.as_str(), "(Ljava/lang/Object;)Z")
            && receiver == SlotValue::Array {
            let f = report(class, method, uri, "Array comparison uses equals(): ", offset as u32);
            push_finding(results, f);
            reported = true;
        }
    }
    if !reported {
        assert(finding_views(results@) =~= r0 + Seq::<FindingView>::empty());
    }
    if method_return_kind(call.descriptor.as_str())? == ReturnKind::Reference {
        let value = match parse_method_descriptor(call.descriptor.as_str()) {
            Some(parsed) => match parsed.return_type {
                DescriptorType::Array(_, _) => SlotValue::Array,
                DescriptorType::Object(_) => SlotValue::NonArray,
                _ => SlotValue::Unknown,
            },
            None => SlotValue::Unknown,
        };
        stack.push(value);
    }
    Ok(())
}

/// Applies the instruction at `offset` to the locals and the stack and
/// appends what it reports; an error when it is a call whose descriptor does
/// not parse.
#[verifier::spinoff_prover]
fn slots_step_exec(
    class: &Class,
    method: &Method,
    uri: &Option<String>,
    offset: usize,
    locals: &mut Vec<SlotValue>,
    stack: &mut Vec<SlotValue>,
    results: &mut Vec<Finding>,
) -> (res: Result<(), AnalysisError>)
    requires
        offset < method.bytecode@.len(),
    ensures
        slots_step_fails(*method, offset as int) ==> res is Err,
        !slots_step_fails(*method, offset as int) ==> {
            let (l2, s2, f2) = slots_step(*class, *method, opt_view(*uri), offset as int, old(locals)@, old(stack)@);
            &&& res is Ok
            &&& final(locals)@ == l2
            &&& final(stack)@ == s2
            &&& finding_views(final(results)@) == finding_views(old(results)@) + f2
        },
{
    proof {
        reveal(slots_step);
        reveal_strlit("Array comparison uses reference equality: ");
        reveal_strlit("Array comparison uses equals(): ");
        reveal_strlit("");
    }
    let ghost r0 = finding_views(results@);
    let opcode = method.bytecode[offset];
    assert(code_byte(method.bytecode@, offset as int) == opcode);
    if opcode == opcodes::ACONST_NULL {
        stack.push(SlotValue::Unknown);
    } else if opcode == opcodes::ALOAD || (opcodes::ALOAD_0 <= opcode && opcode <= opcodes::ALOAD_3) {
        let index = if opcode == opcodes::ALOAD { operand(method, offset) } else { (opcode - opcodes::ALOAD_0) as usize };
        ensure_local(locals, index, SlotValue::Unknown);
        stack.push(locals[index]);
    } else if opcode == opcodes::ASTORE || (opcodes::ASTORE_0 <= opcode && opcode <= opcodes::ASTORE_3) {
        let index = if opcode == opcodes::ASTORE { operand(method, offset) } else { (opcode - opcodes::ASTORE_0) as usize };
        ensure_local(locals, index, SlotValue::Unknown);
        let value = pop_or_unknown(stack, SlotValue::Unknown);
        locals.set(index, value);
    } else if opcode == opcodes::NEWARRAY || opcode == opcodes::ANEWARRAY {
        drop_slots_exec(stack, 1);
        stack.push(SlotValue::Array);
    } else if opcode == opcodes::MULTIANEWARRAY {
        let dims: u8 = if method.bytecode.len() - offset > 3 { method.bytecode[offset + 3] } else { 0 };
        drop_slots_exec(stack, dims as usize);
        stack.push(SlotValue::Array);
    } else if opcode == opcodes::NEW || opcode == opcodes::LDC || opcode == opcodes::LDC_W || opcode == opcodes::LDC2_W {
        stack.push(SlotValue::NonArray);
    } else if opcode == opcodes::DUP {
        if stack.len() > 0 {
            let top = stack[stack.len() - 1];
            stack.push(top);
        }
    } else if opcode == opcodes::POP {
        drop_slots_exec(stack, 1);
    } else if opcode == opcodes::IF_ACMPEQ || opcode == opcodes::IF_ACMPNE {
        let right = pop_or_unknown(stack, SlotValue::Unknown);
        let left = pop_or_unknown(stack, SlotValue::Unknown);
        if left == SlotValue::Array && right == SlotValue::Array {
            let f = report(class, method, uri, "Array comparison uses reference equality: ", offset as u32);
            push_finding(results, f);
            return Ok(());
        }
    } else if opcode == opcodes::INVOKEVIRTUAL || opcode == opcodes::INVOKESPECIAL
        || opcode == opcodes::INVOKEINTERFACE || opcode == opcodes::INVOKESTATIC {
        match find_call_at(method, offset as u32) {
            Some(k) => {
                slots_call_exec(class, method, uri, offset, opcode != opcodes::INVOKESTATIC, k, stack, results)?;
                return Ok(());
            },
            None => {},
        }
    }
    assert(finding_views(results@) =~= r0 + Seq::<FindingView>::empty());
    Ok(())
}

/// Interprets the method's bytecode in order and reports array comparisons.
#[verifier::spinoff_prover]
pub fn analyze_method_stack(class: &Class, method: &Method, uri: &Option<String>) -> (res: Result<Vec<Finding>, AnalysisError>)
    ensures
        match slots_analysis(*class, *method, opt_view(*uri)) {
            Some(f) => res matches Ok(v) && finding_views(v@) == f,
            None => res is Err,
        },
        res matches Ok(v) ==> forall|i: int|
            0 <= i < v@.len() ==> array_finding_of(opt_view(*uri), *class, *method, #[trigger] finding_views(v@)[i]),
        method_decodes(*method) ==> res is Ok,
{
    let ghost u = opt_view(*uri);
    let mut results: Vec<Finding> = Vec::new();
    let mut locals = initial_slots(method)?;
    let mut stack: Vec<SlotValue> = Vec::new();
    let ghost total = slots_analysis(*class, *method, u);
    proof {
        assert(finding_views(results@) =~= Seq::<FindingView>::empty());
        match slots_run(*class, *method, u, 0, locals@, stack@) {
            Some(rest) => assert(Seq::<FindingView>::empty() + rest =~= rest),
            None => {},
        }
    }
    let mut offset: usize = 0;
    while offset < method.bytecode.len()
        invariant
            forall|i: int|
                0 <= i < results@.len() ==> array_finding_of(opt_view(*uri), *class, *method, #[trigger] finding_views(results@)[i]),
            method_decodes(*method) ==> decodes_from(method.bytecode@, offset as int),
            u == opt_view(*uri),
            total == slots_analysis(*class, *method, u),
            total == match slots_run(*class, *method, u, offset as int, locals@, stack@) {
                Some(rest) => Some(finding_views(results@) + rest),
                None => None::<Seq<FindingView>>,
            },
        decreases method.bytecode.len() - offset,
    {
        let ghost l0 = locals@;
        let ghost s0 = stack@;
        let ghost r0 = finding_views(results@);
        let ghost off = offset as int;
        proof {
            lemma_slots_run_unfold(*class, *method, u, off, l0, s0);
            if method_decodes(*method) {
                assert(!slots_step_fails(*method, off)) by {
                    if slots_step_fails(*method, off) {
                        let k = last_call_at(method.calls@, off as u32)->0;
                        lemma_call_parses(*method, method.calls@[k]);
                    }
                }
            }
        }
        slots_step_exec(class, method, uri, offset, &mut locals, &mut stack, &mut results)?;
        proof {
            assert(!slots_step_fails(*method, off));
            lemma_slots_step_findings(*class, *method, u, off, l0, s0);
            let f2 = slots_step(*class, *method, u, off, l0, s0).2;
            assert(finding_views(results@) == r0 + f2);
            assert forall|i: int| 0 <= i < results@.len() implies array_finding_of(opt_view(*uri), *class, *method, #[trigger] finding_views(results@)[i]) by {
                if i < r0.len() {
                    assert(finding_views(results@)[i] == r0[i]);
                } else {
                    assert(finding_views(results@)[i] == f2[i - r0.len()]);
                }
            }
        }
        let length = opcode_length(&method.bytecode, offset)?;
        proof {
            let (l2, s2, f2) = slots_step(*class, *method, u, off, l0, s0);
            match slots_run(*class, *method, u, off + length, l2, s2) {
                Some(rest) => assert(r0 + (f2 + rest) =~= (r0 + f2) + rest),
                None => {},
            }
        }
        offset = offset + length;
    }
    proof {
        lemma_slots_run_unfold(*class, *method, u, offset as int, locals@, stack@);
        assert(finding_views(results@) + Seq::<FindingView>::empty() =~= finding_views(results@));
    }
    Ok(results)
}

/// The array-comparison rule over a plain operand stack.
#[derive(Clone, Copy, Debug)]
pub struct ArrayEqualsStackRule;

impl ArrayEqualsStackRule {
    /// The rule's id, name and description.
    pub fn metadata(&self) -> (res: RuleMetadata)
        ensures
            res.id@ == "ARRAY_EQUALS"@,
    {
        RuleMetadata { id: "ARRAY_EQUALS", name: "Array equals", description: "Array comparisons using == or equals()" }
    }

    /// The array comparisons of every method with bytecode of the
    /// analysis-target classes, class by class and method by method.
    pub fn run(&self, context: &AnalysisContext) -> (res: Result<Vec<Finding>, AnalysisError>)
        ensures
            targets_decode(*context) ==> res is Ok,
            match slots_targets_findings(*context, context.targets().len() as int) {
                Some(f) => res matches Ok(v) && finding_views(v@) == f,
                None => res is Err,
            },
            res matches Ok(v) ==> forall|i: int|
                0 <= i < v@.len() ==> reports_array_comparison(*context, #[trigger] finding_views(v@)[i]),
    {
        let classes = context.analysis_target_classes();
        let mut results: Vec<Finding> = Vec::new();
        let mut ci: usize = 0;
        proof {
            assert(finding_views(results@) =~= Seq::<FindingView>::empty());
        }
        while ci < classes.len()
            invariant
                ci <= classes@.len(),
                classes@ == context.targets(),
                slots_targets_findings(*context, ci as int) == Some(finding_views(results@)),
                forall|i: int|
                    0 <= i < results@.len() ==> reports_array_comparison(*context, #[trigger] finding_views(results@)[i]),
            decreases classes.len() - ci,
        {
            let class = &classes[ci];
            let uri = context.class_artifact_uri(class);
            let ghost before_class = finding_views(results@);
            let mut mi: usize = 0;
            proof {
                assert(finding_views(results@) =~= before_class + Seq::<FindingView>::empty());
            }
            while mi < class.methods.len()
                invariant
                    ci < classes@.len(),
                    classes@ == context.targets(),
                    slots_targets_findings(*context, ci as int) == Some(before_class),
                    *class == classes@[ci as int],
                    opt_view(uri) == context.class_uri(*class),
                    mi <= class.methods@.len(),
                    slots_class_findings(*context, *class, mi as int) == Some(finding_views(results@).subrange(before_class.len() as int, finding_views(results@).len() as int)),
                    before_class.len() <= results@.len(),
                    finding_views(results@).subrange(0, before_class.len() as int) == before_class,
                    forall|i: int|
                        0 <= i < results@.len() ==> reports_array_comparison(*context, #[trigger] finding_views(results@)[i]),
                decreases class.methods.len() - mi,
            {
                let method = &class.methods[mi];
                proof {
                    assert(context.targets()[ci as int].methods@[mi as int] == *method);
                }
                let ghost prev = finding_views(results@);
                if method.bytecode.len() > 0 {
                    let mut found = match analyze_method_stack(class, method, &uri) {
                        Ok(f) => f,
                        Err(e) => {
                            proof {
                                assert(slots_class_findings(*context, *class, mi + 1) is None);
                                lemma_slots_class_none(*context, *class, mi + 1, class.methods@.len() as int);
                                lemma_slots_targets_none(*context, ci as int + 1, context.targets().len() as int);
                            }
                            return Err(e);
                        },
                    };
                    let ghost add = finding_views(found@);
                    proof {
                        assert forall|i: int| 0 <= i < add.len() implies reports_array_comparison(*context, #[trigger] add[i]) by {
                            assert(array_finding_of(opt_view(uri), *class, *method, finding_views(found@)[i]));
                        }
                    }
                    results.append(&mut found);
                    proof {
                        assert(finding_views(results@) =~= prev + add);
                        assert forall|i: int| 0 <= i < results@.len() implies reports_array_comparison(*context, #[trigger] finding_views(results@)[i]) by {
                            if i < prev.len() {
                                assert(finding_views(results@)[i] == prev[i]);
                            } else {
                                assert(finding_views(results@)[i] == add[i - prev.len()]);
                            }
                        }
                        assert(finding_views(results@).subrange(before_class.len() as int, finding_views(results@).len() as int)
                            =~= prev.subrange(before_class.len() as int, prev.len() as int) + add);
                        assert(finding_views(results@).subrange(0, before_class.len() as int) =~= prev.subrange(0, before_class.len() as int));
                    }
                }
                mi = mi + 1;
            }
            proof {
                let all = finding_views(results@);
                assert(all =~= before_class + all.subrange(before_class.len() as int, all.len() as int));
            }
            ci = ci + 1;
        }
        Ok(results)
    }
}

/// The array comparisons of the first `k` methods of `c` that have bytecode,
/// in order; `None` when the analysis of one of them fails.
pub open spec fn slots_class_findings(ctx: AnalysisContext, c: Class, k: int) -> Option<Seq<FindingView>>
    decreases k,
{
    if k <= 0 {
        Some(Seq::empty())
    } else {
        let m = c.methods@[k - 1];
        match slots_class_findings(ctx, c, k - 1) {
            Some(prev) => if m.bytecode@.len() == 0 {
                Some(prev)
            } else {
                match slots_analysis(c, m, ctx.class_uri(c)) {
                    Some(f) => Some(prev + f),
                    None => None,
                }
            },
            None => None,
        }
    }
}

/// The array comparisons of the first `k` analysis-target classes, in order;
/// `None` when the analysis of one of their methods fails.
pub open spec fn slots_targets_findings(ctx: AnalysisContext, k: int) -> Option<Seq<FindingView>>
    decreases k,
{
    if k <= 0 {
        Some(Seq::empty())
    } else {
        match slots_targets_findings(ctx, k - 1) {
            Some(prev) => {
                let c = ctx.targets()[k - 1];
                match slots_class_findings(ctx, c, c.methods@.len() as int) {
                    Some(f) => Some(prev + f),
                    None => None,
                }
            },
            None => None,
        }
    }
}

/// A failure among the first `k` methods is a failure among the first `n`.
pub proof fn lemma_slots_class_none(ctx: AnalysisContext, c: Class, k: int, n: int)
    requires
        0 <= k <= n,
        slots_class_findings(ctx, c, k) is None,
    ensures
        slots_class_findings(ctx, c, n) is None,
    decreases n - k,
{
    if k < n {
        lemma_slots_class_none(ctx, c, k + 1, n);
    }
}

/// A failure among the first `k` classes is a failure among the first `n`.
pub proof fn lemma_slots_targets_none(ctx: AnalysisContext, k: int, n: int)
    requires
        0 <= k <= n,
        slots_targets_findings(ctx, k) is None,
    ensures
        slots_targets_findings(ctx, n) is None,
    decreases n - k,
{
    if k < n {
        lemma_slots_targets_none(ctx, k + 1, n);
    }
}

} // verus!
