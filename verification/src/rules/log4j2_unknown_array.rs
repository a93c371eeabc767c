//! Reports Log4j 2 logging calls whose varargs argument array has a length the
//! analysis cannot tell.
use vstd::prelude::*;
use crate::bytecode::{decodes_from, instruction_length, method_decodes, opcode_length};
use crate::dataflow::frame::{ensure_local, ensured, pop_or_unknown};
use crate::descriptor::{DescriptorType, ReturnKind, TypeShape, jdescriptor_parse, method_return_kind, parse_method_descriptor, return_kind_of};
use crate::engine::{AnalysisContext, opt_view, targets_decode};
use crate::error::AnalysisError;
use crate::ir::{CallKind, CallSite, Class, Method};
use crate::opcodes;
use crate::rules::nullness::{find_call_at, last_call_at};
use crate::rules::location::{
    Finding, FindingView, RuleMetadata, finding, finding_spec, finding_views, method_location_spec, method_location_with_line,
    push_finding,
};
use crate::text::str_eq;

verus! {

/// What the analysis knows of a value: a non-negative int constant, an array
/// of known or unknown length, or nothing.
#[derive(Clone, Copy, Debug, PartialEq, Eq, Structural)]
pub enum ArgValue {
    Unknown,
    IntConst(usize),
    Array(Option<usize>),
}

/// The call is a Log4j 2 `Logger` logging method.
pub open spec fn log4j2_logger_call_spec(call: CallSite) -> bool {
    call.owner@ == "org/apache/logging/log4j/Logger"@ && (call.name@ == "trace"@ || call.name@ == "debug"@
        || call.name@ == "info"@ || call.name@ == "warn"@ || call.name@ == "error"@)
}

/// Whether the call is a Log4j 2 `Logger` logging method.
pub fn is_log4j2_logger_call(call: &CallSite) -> (res: bool)
    ensures
        res == log4j2_logger_call_spec(*call),
{
    if !str_eq(call.owner.as_str(), "org/apache/logging/log4j/Logger") {
        return false;
    }
    let n = call.name.as_str();
    str_eq(n, "trace") || str_eq(n, "debug") || str_eq(n, "info") || str_eq(n, "warn") || str_eq(n, "error")
}

/// Position of the `Object[]` varargs parameter after the format string (and
/// an optional leading `Marker`), when the parameters have that shape.
pub open spec fn varargs_index_spec(params: Seq<TypeShape>) -> Option<int> {
    if params.len() < 2 {
        None
    } else {
        let index: int = if params[0] == TypeShape::Object("org/apache/logging/log4j/Marker"@) { 1 } else { 0 };
        if params[index] == TypeShape::Object("java/lang/String"@) && params.len() == index + 2
            && (params[index + 1] matches TypeShape::Array(Some(e), _) && e == "java/lang/Object"@) {
            Some(index + 1)
        } else {
            None
        }
    }
}

fn is_object(t: &DescriptorType, name: &str) -> (res: bool)
    ensures
        res == (t@ == TypeShape::Object(name@)),
{
    match t {
        DescriptorType::Object(n) => str_eq(n.as_str(), name),
        _ => false,
    }
}

/// The varargs array position of a Log4j 2 logging call's parameters.
pub fn log4j2_varargs_array_index(params: &Vec<DescriptorType>) -> (res: Option<usize>)
    ensures
        match varargs_index_spec(params@.map_values(|t: DescriptorType| t@)) {
            Some(i) => res == Some(i as usize),
            None => res is None,
        },
{
    let ghost shapes = params@.map_values(|t: DescriptorType| t@);
    if params.len() < 2 {
        return None;
    }
    let index: usize = if is_object(&params[0], "org/apache/logging/log4j/Marker") { 1 } else { 0 };
    assert(shapes[0] == params@[0]@);
    if !is_object(&params[index], "java/lang/String") {
        assert(shapes[index as int] == params@[index as int]@);
        return None;
    }
    assert(shapes[index as int] == params@[index as int]@);
    if params.len() != index + 2 {
        return None;
    }
    assert(shapes[index + 1] == params@[index + 1]@);
    match &params[index + 1] {
        DescriptorType::Array(Some(element), _) => {
            if str_eq(element.as_str(), "java/lang/Object") {
                Some(index + 1)
            } else {
                None
            }
        },
        _ => None,
    }
}

/// The finding reports an unknown varargs array in method `m` of `c`.
pub open spec fn unknown_array_finding(uri: Option<Seq<char>>, c: Class, m: Method, f: FindingView) -> bool {
    exists|o: u32|
        #![trigger crate::ir::line_for_offset_spec(m.line_numbers@, o)]
        f == FindingView {
            rule_id: None,
            message: "Log4j2 varargs argument array length is unknown"@,
            locations: seq![method_location_spec(c.name@, m.name@, m.descriptor@, uri, crate::ir::line_for_offset_spec(m.line_numbers@, o))],
        }
}

fn operand(method: &Method, offset: usize) -> (res: u8)
    ensures
        res == if offset + 1 < method.bytecode@.len() { method.bytecode@[offset + 1] } else { 0u8 },
{
    if offset < method.bytecode.len() && method.bytecode.len() - offset > 1 {
        method.bytecode[offset + 1]
    } else {
        0
    }
}

fn operand2(method: &Method, offset: usize) -> (res: u8)
    ensures
        res == if offset + 2 < method.bytecode@.len() { method.bytecode@[offset + 2] } else { 0u8 },
{
    if offset < method.bytecode.len() && method.bytecode.len() - offset > 2 {
        method.bytecode[offset + 2]
    } else {
        0
    }
}

/// The top of the stack and the rest; an unknown value on an empty stack.
pub open spec fn pop_arg(s: Seq<ArgValue>) -> (Seq<ArgValue>, ArgValue) {
    if s.len() > 0 {
        (s.drop_last(), s.last())
    } else {
        (s, ArgValue::Unknown)
    }
}

/// The stack without its top (unchanged when empty).
pub open spec fn drop_top(s: Seq<ArgValue>) -> Seq<ArgValue> {
    if s.len() > 0 {
        s.drop_last()
    } else {
        s
    }
}

/// Pops `n` values: the rest of the stack, and the values in the order popped.
pub open spec fn pop_args(s: Seq<ArgValue>, n: nat) -> (Seq<ArgValue>, Seq<ArgValue>)
    decreases n,
{
    if n == 0 {
        (s, Seq::empty())
    } else {
        let (r, p) = pop_args(s, (n - 1) as nat);
        let (r2, v) = pop_arg(r);
        (r2, p.push(v))
    }
}

/// The byte at `i` of the code, 0 past its end.
pub open spec fn code_byte(code: Seq<u8>, i: int) -> u8 {
    if 0 <= i < code.len() {
        code[i]
    } else {
        0u8
    }
}

/// The message of every finding of this rule.
pub open spec fn unknown_array_message() -> Seq<char> {
    "Log4j2 varargs argument array length is unknown"@
}

/// A call at `off` whose descriptor does not parse: the interpretation fails there.
pub open spec fn log4j_step_fails(m: Method, off: int) -> bool {
    let op = code_byte(m.bytecode@, off);
    &&& (op == opcodes::INVOKEVIRTUAL || op == opcodes::INVOKESPECIAL || op == opcodes::INVOKEINTERFACE
        || op == opcodes::INVOKESTATIC)
    &&& last_call_at(m.calls@, off as u32) matches Some(k)
    &&& jdescriptor_parse(m.calls@[k].descriptor@) is None
}

/// The effect of a call on the stack and what it reports: the arguments and
/// the receiver are popped, a Log4j 2 varargs call whose array is not of a
/// known length is reported at the call's line, and a non-void result is
/// pushed as unknown.
pub open spec fn log4j_call_step(
    c: Class,
    m: Method,
    uri: Option<Seq<char>>,
    off: int,
    call: CallSite,
    params: Seq<TypeShape>,
    ret: TypeShape,
    stack: Seq<ArgValue>,
) -> (Seq<ArgValue>, Seq<FindingView>) {
    let count = params.len();
    let (r1, popped) = pop_args(stack, count);
    let r2 = if call.kind != CallKind::Static { drop_top(r1) } else { r1 };
    let reported = log4j2_logger_call_spec(call) && match varargs_index_spec(params) {
        Some(ai) => !(popped[count - 1 - ai] matches ArgValue::Array(Some(_))),
        None => false,
    };
    let f = if reported {
        seq![finding_spec(
            unknown_array_message(),
            method_location_spec(c.name@, m.name@, m.descriptor@, uri, crate::ir::line_for_offset_spec(m.line_numbers@, off as u32)),
        )]
    } else {
        Seq::empty()
    };
    (if return_kind_of(ret) == ReturnKind::Void { r2 } else { r2.push(ArgValue::Unknown) }, f)
}

/// The locals, stack and findings after the instruction at `off`.
#[verifier::opaque]
pub open spec fn log4j_step(
    c: Class,
    m: Method,
    uri: Option<Seq<char>>,
    off: int,
    locals: Seq<ArgValue>,
    stack: Seq<ArgValue>,
) -> (Seq<ArgValue>, Seq<ArgValue>, Seq<FindingView>) {
    let code = m.bytecode@;
    let op = code_byte(code, off);
    if op == opcodes::ACONST_NULL || op == opcodes::ICONST_M1 || op == opcodes::LDC || op == opcodes::LDC_W || op
        == opcodes::LDC2_W {
        (locals, stack.push(ArgValue::Unknown), Seq::empty())
    } else if opcodes::ICONST_0 <= op <= opcodes::ICONST_5 {
        (locals, stack.push(ArgValue::IntConst((op - opcodes::ICONST_0) as usize)), Seq::empty())
    } else if op == opcodes::BIPUSH {
        let b = code_byte(code, off + 1);
        (locals, stack.push(if b < 128 { ArgValue::IntConst(b as usize) } else { ArgValue::Unknown }), Seq::empty())
    } else if op == opcodes::SIPUSH {
        let high = code_byte(code, off + 1);
        let low = code_byte(code, off + 2);
        (
            locals,
            stack.push(if high < 128 { ArgValue::IntConst((high * 256 + low) as usize) } else { ArgValue::Unknown }),
            Seq::empty(),
        )
    } else if op == opcodes::ALOAD || (opcodes::ALOAD_0 <= op <= opcodes::ALOAD_3) {
        let index: int = if op == opcodes::ALOAD { code_byte(code, off + 1) as int } else { (op - opcodes::ALOAD_0) as int };
        let l2 = ensured(locals, index, ArgValue::Unknown);
        (l2, stack.push(l2[index]), Seq::empty())
    } else if op == opcodes::ASTORE || (opcodes::ASTORE_0 <= op <= opcodes::ASTORE_3) {
        let index: int = if op == opcodes::ASTORE { code_byte(code, off + 1) as int } else { (op - opcodes::ASTORE_0) as int };
        let l2 = ensured(locals, index, ArgValue::Unknown);
        let (rest, v) = pop_arg(stack);
        (l2.update(index, v), rest, Seq::empty())
    } else if op == opcodes::NEWARRAY || op == opcodes::ANEWARRAY {
        let (rest, count) = pop_arg(stack);
        let len = match count {
            ArgValue::IntConst(v) => Some(v),
            _ => None,
        };
        (locals, rest.push(ArgValue::Array(len)), Seq::empty())
    } else if op == opcodes::DUP {
        (locals, if stack.len() > 0 { stack.push(stack.last()) } else { stack }, Seq::empty())
    } else if op == opcodes::AASTORE {
        (locals, drop_top(drop_top(drop_top(stack))), Seq::empty())
    } else if op == opcodes::POP {
        (locals, drop_top(stack), Seq::empty())
    } else if op == opcodes::INVOKEVIRTUAL || op == opcodes::INVOKESPECIAL || op == opcodes::INVOKEINTERFACE || op
        == opcodes::INVOKESTATIC {
        match last_call_at(m.calls@, off as u32) {
            Some(k) => match jdescriptor_parse(m.calls@[k].descriptor@) {
                Some((params, ret)) => {
                    let (s2, f) = log4j_call_step(c, m, uri, off, m.calls@[k], params, ret, stack);
                    (locals, s2, f)
                },
                None => (locals, stack, Seq::empty()),
            },
            None => (locals, stack, Seq::empty()),
        }
    } else {
        (locals, stack, Seq::empty())
    }
}

/// The findings of interpreting the code from `off` to its end with the given
/// locals and stack, in order; `None` when an instruction does not decode or
/// a call's descriptor does not parse.
#[verifier::opaque]
pub open spec fn log4j_run(
    c: Class,
    m: Method,
    uri: Option<Seq<char>>,
    off: int,
    locals: Seq<ArgValue>,
    stack: Seq<ArgValue>,
) -> Option<Seq<FindingView>>
    decreases m.bytecode@.len() - off,
{
    if off < 0 || off >= m.bytecode@.len() {
        Some(Seq::empty())
    } else if log4j_step_fails(m, off) {
        None
    } else {
        let (l2, s2, f) = log4j_step(c, m, uri, off, locals, stack);
        match instruction_length(m.bytecode@, off) {
            Some(len) => match log4j_run(c, m, uri, off + len, l2, s2) {
                Some(rest) => Some(f + rest),
                None => None,
            },
            None => None,
        }
    }
}

/// One instruction of the interpretation, unfolded.
pub proof fn lemma_run_unfold(c: Class, m: Method, uri: Option<Seq<char>>, off: int, locals: Seq<ArgValue>, stack: Seq<ArgValue>)
    ensures
        log4j_run(c, m, uri, off, locals, stack) == if off < 0 || off >= m.bytecode@.len() {
            Some(Seq::<FindingView>::empty())
        } else if log4j_step_fails(m, off) {
            None
        } else {
            let (l2, s2, f) = log4j_step(c, m, uri, off, locals, stack);
            match instruction_length(m.bytecode@, off) {
                Some(len) => match log4j_run(c, m, uri, off + len, l2, s2) {
                    Some(rest) => Some(f + rest),
                    None => None,
                },
                None => None,
            }
        },
{
    reveal_with_fuel(log4j_run, 1);
}

/// The findings of the whole method: interpretation from offset 0 with an
/// unknown value in each parameter slot (and `this`) and an empty stack;
/// `None` when the method's own descriptor does not parse.
pub open spec fn log4j_analysis(c: Class, m: Method, uri: Option<Seq<char>>) -> Option<Seq<FindingView>> {
    match jdescriptor_parse(m.descriptor@) {
        Some((params, _)) => log4j_run(
            c,
            m,
            uri,
            0,
            Seq::new(params.len() + if m.access.is_static { 0nat } else { 1nat }, |i: int| ArgValue::Unknown),
            Seq::empty(),
        ),
        None => None,
    }
}

/// Every finding of one step is a finding of this rule about the method.
pub proof fn lemma_step_findings(
    c: Class,
    m: Method,
    uri: Option<Seq<char>>,
    off: int,
    locals: Seq<ArgValue>,
    stack: Seq<ArgValue>,
)
    ensures
        forall|i: int|
            0 <= i < log4j_step(c, m, uri, off, locals, stack).2.len() ==> unknown_array_finding(
                uri,
                c,
                m,
                #[trigger] log4j_step(c, m, uri, off, locals, stack).2[i],
            ),
{
    reveal(log4j_step);
    let f = log4j_step(c, m, uri, off, locals, stack).2;
    assert forall|i: int| 0 <= i < f.len() implies unknown_array_finding(uri, c, m, #[trigger] f[i]) by {
        let _ = crate::ir::line_for_offset_spec(m.line_numbers@, off as u32);
    }
}

/// Applies the call `k` at `offset`: pops its arguments and receiver, reports
/// a Log4j 2 varargs call with an array of unknown length, pushes a non-void
/// result; an error when its descriptor does not parse.
fn interpret_call(
    class: &Class,
    method: &Method,
    uri: &Option<String>,
    offset: usize,
    k: usize,
    stack: &mut Vec<ArgValue>,
    results: &mut Vec<Finding>,
) -> (res: Result<(), AnalysisError>)
    requires
        k < method.calls@.len(),
    ensures
        match jdescriptor_parse(method.calls@[k as int].descriptor@) {
            Some((params, ret)) => {
                let (s2, f2) = log4j_call_step(*class, *method, opt_view(*uri), offset as int, method.calls@[k as int], params, ret, old(stack)@);
                &&& res is Ok
                &&& final(stack)@ == s2
                &&& finding_views(final(results)@) == finding_views(old(results)@) + f2
            },
            None => res is Err,
        },
{
    let call = &method.calls[k];
    let call_parsed = match parse_method_descriptor(call.descriptor.as_str()) {
        Some(d) => d,
        None => {
            return Err(AnalysisError::InvalidDescriptor(call.descriptor.clone()));
        },
    };
    let ghost s0 = stack@;
    let ghost r0 = finding_views(results@);
    let count = call_parsed.parameter_types.len();
    let mut popped: Vec<ArgValue> = Vec::new();
    let mut j: usize = 0;
    proof {
        assert(pop_args(s0, 0) == (s0, Seq::<ArgValue>::empty()));
        assert(popped@ =~= Seq::<ArgValue>::empty());
    }
    while j < count
        invariant
            j <= count,
            (stack@, popped@) == pop_args(s0, j as nat),
        decreases count - j,
    {
        popped.push(pop_or_unknown(stack, ArgValue::Unknown));
        j = j + 1;
    }
    if call.kind != CallKind::Static {
        stack.pop();
    }
    let mut reported = false;
    if is_log4j2_logger_call(call) {
        match log4j2_varargs_array_index(&call_parsed.parameter_types) {
            Some(array_index) => {
                let array_arg = if array_index < count { popped[count - 1 - array_index] } else { ArgValue::Unknown };
                let is_known = match array_arg {
                    ArgValue::Array(Some(_)) => true,
                    _ => false,
                };
                if !is_known {
                    let message = "Log4j2 varargs argument array length is unknown".to_owned();
                    let line = method.line_for_offset(offset as u32);
                    let artifact_uri: Option<&str> = match uri {
                        Some(s) => Some(s.as_str()),
                        None => None,
                    };
                    let location = method_location_with_line(
                        class.name.as_str(),
                        method.name.as_str(),
                        method.descriptor.as_str(),
                        artifact_uri,
                        line,
                    );
                    push_finding(results, finding(message, location));
                    reported = true;
                }
            },
            None => {},
        }
    }
    if !reported {
        assert(finding_views(results@) =~= r0 + Seq::<FindingView>::empty());
    }
    match method_return_kind(call.descriptor.as_str())? {
        ReturnKind::Void => {},
        _ => stack.push(ArgValue::Unknown),
    }
    Ok(())
}

/// Applies the instruction at `offset` to the locals and the stack and
/// appends what it reports; an error when it is a call whose descriptor does
/// not parse.
#[verifier::spinoff_prover]
fn interpret_step(
    class: &Class,
    method: &Method,
    uri: &Option<String>,
    offset: usize,
    locals: &mut Vec<ArgValue>,
    stack: &mut Vec<ArgValue>,
    results: &mut Vec<Finding>,
) -> (res: Result<(), AnalysisError>)
    requires
        offset < method.bytecode@.len(),
    ensures
        log4j_step_fails(*method, offset as int) ==> res is Err,
        !log4j_step_fails(*method, offset as int) ==> {
            let (l2, s2, f2) = log4j_step(*class, *method, opt_view(*uri), offset as int, old(locals)@, old(stack)@);
            &&& res is Ok
            &&& final(locals)@ == l2
            &&& final(stack)@ == s2
            &&& finding_views(final(results)@) == finding_views(old(results)@) + f2
        },
{
    reveal(log4j_step);
    let ghost r0 = finding_views(results@);
    let opcode = method.bytecode[offset];
    assert(code_byte(method.bytecode@, offset as int) == opcode);
    if opcode == opcodes::ACONST_NULL || opcode == opcodes::ICONST_M1 || opcode == opcodes::LDC
        || opcode == opcodes::LDC_W || opcode == opcodes::LDC2_W {
        stack.push(ArgValue::Unknown);
    } else if opcodes::ICONST_0 <= opcode && opcode <= opcodes::ICONST_5 {
        stack.push(ArgValue::IntConst((opcode - opcodes::ICONST_0) as usize));
    } else if opcode == opcodes::BIPUSH {
        let b = operand(method, offset);
        if b < 128 {
            stack.push(ArgValue::IntConst(b as usize));
        } else {
            stack.push(ArgValue::Unknown);
        }
    } else if opcode == opcodes::SIPUSH {
        let high = operand(method, offset);
        let low = operand2(method, offset);
        if high < 128 {
            stack.push(ArgValue::IntConst((high as usize) * 256 + (low as usize)));
        } else {
            stack.push(ArgValue::Unknown);
        }
    } else if opcode == opcodes::ALOAD || (opcodes::ALOAD_0 <= opcode && opcode <= opcodes::ALOAD_3) {
        let index = if opcode == opcodes::ALOAD { operand(method, offset) as usize } else { (opcode - opcodes::ALOAD_0) as usize };
        ensure_local(locals, index, ArgValue::Unknown);
        stack.push(locals[index]);
    } else if opcode == opcodes::ASTORE || (opcodes::ASTORE_0 <= opcode && opcode <= opcodes::ASTORE_3) {
        let index = if opcode == opcodes::ASTORE { operand(method, offset) as usize } else { (opcode - opcodes::ASTORE_0) as usize };
        ensure_local(locals, index, ArgValue::Unknown);
        let value = pop_or_unknown(stack, ArgValue::Unknown);
        locals.set(index, value);
    } else if opcode == opcodes::NEWARRAY || opcode == opcodes::ANEWARRAY {
        let count = pop_or_unknown(stack, ArgValue::Unknown);
        let len = match count {
            ArgValue::IntConst(v) => Some(v),
            _ => None,
        };
        stack.push(ArgValue::Array(len));
    } else if opcode == opcodes::DUP {
        if stack.len() > 0 {
            let top = stack[stack.len() - 1];
            stack.push(top);
        }
    } else if opcode == opcodes::AASTORE {
        stack.pop();
        stack.pop();
        stack.pop();
    } else if opcode == opcodes::POP {
        stack.pop();
    } else if opcode == opcodes::INVOKEVIRTUAL || opcode == opcodes::INVOKESPECIAL
        || opcode == opcodes::INVOKEINTERFACE || opcode == opcodes::INVOKESTATIC {
        match find_call_at(method, offset as u32) {
            Some(k) => {
                interpret_call(class, method, uri, offset, k, stack, results)?;
                return Ok(());
            },
            None => {},
        }
    }
    assert(finding_views(results@) =~= r0 + Seq::<FindingView>::empty());
    Ok(())
}

/// Interprets the method's bytecode in order and reports Log4j 2 calls with
/// an unknown varargs array.
#[verifier::spinoff_prover]
pub fn analyze_method(class: &Class, method: &Method, uri: &Option<String>) -> (res: Result<Vec<Finding>, AnalysisError>)
    ensures
        match log4j_analysis(*class, *method, opt_view(*uri)) {
            Some(f) => res matches Ok(v) && finding_views(v@) == f,
            None => res is Err,
        },
        res matches Ok(v) ==> forall|i: int|
            0 <= i < v@.len() ==> unknown_array_finding(opt_view(*uri), *class, *method, #[trigger] finding_views(v@)[i]),
        method_decodes(*method) ==> res is Ok,
{
    let ghost u = opt_view(*uri);
    let mut results: Vec<Finding> = Vec::new();
    let parsed = match parse_method_descriptor(method.descriptor.as_str()) {
        Some(p) => p,
        None => {
            return Err(AnalysisError::InvalidDescriptor(method.descriptor.clone()));
        },
    };
    let mut locals: Vec<ArgValue> = Vec::new();
    if !method.access.is_static {
        locals.push(ArgValue::Unknown);
    }
    let ghost base: nat = if method.access.is_static { 0nat } else { 1nat };
    let mut p: usize = 0;
    while p < parsed.parameter_types.len()
        invariant
            p <= parsed.parameter_types@.len(),
            base == (if method.access.is_static { 0nat } else { 1nat }),
            locals@ == Seq::new((p + base) as nat, |i: int| ArgValue::Unknown),
        decreases parsed.parameter_types.len() - p,
    {
        locals.push(ArgValue::Unknown);
        p = p + 1;
        assert(locals@ =~= Seq::new((p + base) as nat, |i: int| ArgValue::Unknown));
    }
    let mut stack: Vec<ArgValue> = Vec::new();
    let ghost total = log4j_analysis(*class, *method, u);
    proof {
        assert(locals@ =~= Seq::new((parsed@.0.len() + base) as nat, |i: int| ArgValue::Unknown));
        assert(finding_views(results@) =~= Seq::<FindingView>::empty());
        match log4j_run(*class, *method, u, 0, locals@, stack@) {
            Some(rest) => assert(Seq::<FindingView>::empty() + rest =~= rest),
            None => {},
        }
    }
    let mut offset: usize = 0;
    while offset < method.bytecode.len()
        invariant
            forall|i: int|
                0 <= i < results@.len() ==> unknown_array_finding(opt_view(*uri), *class, *method, #[trigger] finding_views(results@)[i]),
            method_decodes(*method) ==> decodes_from(method.bytecode@, offset as int),
            u == opt_view(*uri),
            total == log4j_analysis(*class, *method, u),
            total == match log4j_run(*class, *method, u, offset as int, locals@, stack@) {
                Some(rest) => Some(finding_views(results@) + rest),
                None => None::<Seq<FindingView>>,
            },
        decreases method.bytecode.len() - offset,
    {
        let ghost l0 = locals@;
        let ghost s0 = stack@;
        let ghost r0 = finding_views(results@);
        let ghost off = offset as int;
        proof {
            lemma_run_unfold(*class, *method, u, off, l0, s0);
            if method_decodes(*method) {
                assert(!log4j_step_fails(*method, off)) by {
                    if log4j_step_fails(*method, off) {
                        let k = last_call_at(method.calls@, off as u32)->0;
                        crate::bytecode::lemma_call_parses(*method, method.calls@[k]);
                    }
                }
            }
        }
        interpret_step(class, method, uri, offset, &mut locals, &mut stack, &mut results)?;
        proof {
            assert(!log4j_step_fails(*method, off));
            lemma_step_findings(*class, *method, u, off, l0, s0);
            let f2 = log4j_step(*class, *method, u, off, l0, s0).2;
            assert(finding_views(results@) == r0 + f2);
            assert forall|i: int| 0 <= i < results@.len() implies unknown_array_finding(opt_view(*uri), *class, *method, #[trigger] finding_views(results@)[i]) by {
                if i < r0.len() {
                    assert(finding_views(results@)[i] == r0[i]);
                } else {
                    assert(finding_views(results@)[i] == f2[i - r0.len()]);
                }
            }
        }
        let length = opcode_length(&method.bytecode, offset)?;
        proof {
            let (l2, s2, f2) = log4j_step(*class, *method, u, off, l0, s0);
            match log4j_run(*class, *method, u, off + length, l2, s2) {
                Some(rest) => assert(r0 + (f2 + rest) =~= (r0 + f2) + rest),
                None => {},
            }
        }
        offset = offset + length;
    }
    proof {
        lemma_run_unfold(*class, *method, u, offset as int, locals@, stack@);
        assert(finding_views(results@) + Seq::<FindingView>::empty() =~= finding_views(results@));
    }
    Ok(results)
}

/// The finding is about a method with bytecode of an analysis-target class.
pub open spec fn reports_unknown_array(ctx: AnalysisContext, f: FindingView) -> bool {
    exists|ci: int, mi: int|
        #![trigger ctx.targets()[ci].methods@[mi]]
        0 <= ci < ctx.targets().len() && 0 <= mi < ctx.targets()[ci].methods@.len() && unknown_array_finding(
            ctx.class_uri(ctx.targets()[ci]),
            ctx.targets()[ci],
            ctx.targets()[ci].methods@[mi],
            f,
        )
}

/// Reports Log4j 2 varargs calls whose argument array has an unknown length.
#[derive(Clone, Copy, Debug)]
pub struct Log4j2UnknownArrayRule;

impl Log4j2UnknownArrayRule {
    /// The rule's id, name and description.
    pub fn metadata(&self) -> (res: RuleMetadata)
        ensures
            res.id@ == "LOG4J2_UNKNOWN_ARRAY"@,
    {
        RuleMetadata {
            id: "LOG4J2_UNKNOWN_ARRAY",
            name: "Log4j2 unknown array",
            description: "Log4j2 varargs calls with unknown argument arrays",
        }
    }

    /// Nothing when Log4j 2 is not in use; otherwise the unknown varargs arrays
    /// of every method with bytecode of the analysis-target classes, class by
    /// class and method by method.
    pub fn run(&self, context: &AnalysisContext) -> (res: Result<Vec<Finding>, AnalysisError>)
        ensures
            targets_decode(*context) ==> res is Ok,
            !context.log4j2_present() ==> (res matches Ok(v) && v@.len() == 0),
            context.log4j2_present() ==> match log4j_targets_findings(*context, context.targets().len() as int) {
                Some(f) => res matches Ok(v) && finding_views(v@) == f,
                None => res is Err,
            },
            res matches Ok(v) ==> forall|i: int|
                0 <= i < v@.len() ==> reports_unknown_array(*context, #[trigger] finding_views(v@)[i]),
    {
        let mut results: Vec<Finding> = Vec::new();
        if !context.has_log4j2() {
            return Ok(results);
        }
        let classes = context.analysis_target_classes();
        let mut ci: usize = 0;
        proof {
            assert(finding_views(results@) =~= Seq::<FindingView>::empty());
        }
        while ci < classes.len()
            invariant
                ci <= classes@.len(),
                classes@ == context.targets(),
                context.log4j2_present(),
                log4j_targets_findings(*context, ci as int) == Some(finding_views(results@)),
                forall|i: int|
                    0 <= i < results@.len() ==> reports_unknown_array(*context, #[trigger] finding_views(results@)[i]),
            decreases classes.len() - ci,
        {
            let class = &classes[ci];
            let uri = context.class_artifact_uri(class);
            let ghost before_class = finding_views(results@);
            let mut mi: usize = 0;
            proof {
                assert(finding_views(results@) =~= before_class + Seq::<FindingView>::empty());
            }
            while mi < class.methods.len()
                invariant
                    ci < classes@.len(),
                    classes@ == context.targets(),
                    context.log4j2_present(),
                    log4j_targets_findings(*context, ci as int) == Some(before_class),
                    *class == classes@[ci as int],
                    opt_view(uri) == context.class_uri(*class),
                    mi <= class.methods@.len(),
                    log4j_class_findings(*context, *class, mi as int) == Some(finding_views(results@).subrange(before_class.len() as int, finding_views(results@).len() as int)),
                    before_class.len() <= results@.len(),
                    finding_views(results@).subrange(0, before_class.len() as int) == before_class,
                    forall|i: int|
                        0 <= i < results@.len() ==> reports_unknown_array(*context, #[trigger] finding_views(results@)[i]),
                decreases class.methods.len() - mi,
            {
                let method = &class.methods[mi];
                proof {
                    assert(context.targets()[ci as int].methods@[mi as int] == *method);
                }
                let ghost prev = finding_views(results@);
                if method.bytecode.len() > 0 {
                    let mut found = match analyze_method(class, method, &uri) {
                        Ok(f) => f,
                        Err(e) => {
                            proof {
                                assert(log4j_class_findings(*context, *class, mi + 1) is None);
                                lemma_class_findings_none(*context, *class, mi + 1, class.methods@.len() as int);
                                lemma_targets_findings_none(*context, ci as int + 1, context.targets().len() as int);
                            }
                            return Err(e);
                        },
                    };
                    let ghost add = finding_views(found@);
                    proof {
                        assert(context.targets()[ci as int].methods@[mi as int] == *method);
                        assert forall|i: int| 0 <= i < add.len() implies reports_unknown_array(*context, #[trigger] add[i]) by {
                            assert(unknown_array_finding(opt_view(uri), *class, *method, finding_views(found@)[i]));
                        }
                    }
                    results.append(&mut found);
                    proof {
                        assert(finding_views(results@) =~= prev + add);
                        assert forall|i: int| 0 <= i < results@.len() implies reports_unknown_array(*context, #[trigger] finding_views(results@)[i]) by {
                            if i < prev.len() {
                                assert(finding_views(results@)[i] == prev[i]);
                            } else {
                                assert(finding_views(results@)[i] == add[i - prev.len()]);
                            }
                        }
                        assert(finding_views(results@).subrange(before_class.len() as int, finding_views(results@).len() as int)
                            =~= prev.subrange(before_class.len() as int, prev.len() as int) + add);
                        assert(finding_views(results@).subrange(0, before_class.len() as int) =~= prev.subrange(0, before_class.len() as int));
                    }
                }
                mi = mi + 1;
            }
            proof {
                let all = finding_views(results@);
                assert(all =~= before_class + all.subrange(before_class.len() as int, all.len() as int));
            }
            ci = ci + 1;
        }
        Ok(results)
    }
}

/// The findings of the first `k` methods of `c` that have bytecode, in order;
/// `None` when the analysis of one of them fails.
pub open spec fn log4j_class_findings(ctx: AnalysisContext, c: Class, k: int) -> Option<Seq<FindingView>>
    decreases k,
{
    if k <= 0 {
        Some(Seq::empty())
    } else {
        let m = c.methods@[k - 1];
        match log4j_class_findings(ctx, c, k - 1) {
            Some(prev) => if m.bytecode@.len() == 0 {
                Some(prev)
            } else {
                match log4j_analysis(c, m, ctx.class_uri(c)) {
                    Some(f) => Some(prev + f),
                    None => None,
                }
            },
            None => None,
        }
    }
}

/// The findings of the first `k` analysis-target classes, in order; `None`
/// when the analysis of one of their methods fails.
pub open spec fn log4j_targets_findings(ctx: AnalysisContext, k: int) -> Option<Seq<FindingView>>
    decreases k,
{
    if k <= 0 {
        Some(Seq::empty())
    } else {
        match log4j_targets_findings(ctx, k - 1) {
            Some(prev) => {
                let c = ctx.targets()[k - 1];
                match log4j_class_findings(ctx, c, c.methods@.len() as int) {
                    Some(f) => Some(prev + f),
                    None => None,
                }
            },
            None => None,
        }
    }
}

/// A failure among the first `k` methods is a failure among the first `n`.
pub proof fn lemma_class_findings_none(ctx: AnalysisContext, c: Class, k: int, n: int)
    requires
        0 <= k <= n,
        log4j_class_findings(ctx, c, k) is None,
    ensures
        log4j_class_findings(ctx, c, n) is None,
    decreases n - k,
{
    if k < n {
        lemma_class_findings_none(ctx, c, k + 1, n);
    }
}

/// A failure among the first `k` classes is a failure among the first `n`.
pub proof fn lemma_targets_findings_none(ctx: AnalysisContext, k: int, n: int)
    requires
        0 <= k <= n,
        log4j_targets_findings(ctx, k) is None,
    ensures
        log4j_targets_findings(ctx, n) is None,
    decreases n - k,
{
    if k < n {
        lemma_targets_findings_none(ctx, k + 1, n);
    }
}

} // verus!
