//! Reports `LoggerFactory.getLogger(X.class)` where `X` is neither the calling
//! class nor one of its outer classes.
use vstd::prelude::*;
use crate::bytecode::{decodes_from, instruction_length, method_decodes, opcode_length};
use crate::dataflow::frame::{ensure_local, ensured, pop_or_unknown};
use crate::descriptor::{DescriptorType, ReturnKind, TypeShape, jdescriptor_parse, method_return_kind, parse_method_descriptor, return_kind_of};
use crate::engine::{AnalysisContext, opt_view, targets_decode};
use crate::error::AnalysisError;
use crate::ir::{CallKind, CallSite, Class, Instruction, InstructionKind, Method};
use crate::opcodes;
use crate::rules::nullness::{find_call_at, last_call_at};
use crate::rules::location::{
    Finding, FindingView, RuleMetadata, finding, finding_views, method_location_spec, method_location_with_line,
    push_finding,
};
use crate::text::{str_eq, views};

verus! {

/// What the analysis knows of a reference: a class literal (by its position in
/// the literal table), the result of `getClass()`, or nothing.
#[derive(Clone, Copy, Debug, PartialEq, Eq, Structural)]
pub enum ClassValue {
    Unknown,
    ClassLiteral(usize),
    GetClass,
}

/// `passed` is the caller class or one of its outer classes: the caller's name
/// up to one of its `$` separators.
pub open spec fn acceptable_class_spec(caller: Seq<char>, passed: Seq<char>) -> bool {
    passed == caller || exists|i: int| 0 <= i < caller.len() && caller[i] == '$' && passed == caller.subrange(0, i)
}

/// Whether the passed class is the caller class or one of its outer classes.
pub fn is_acceptable_class(caller_class: &str, passed_class: &str) -> (res: bool)
    ensures
        res == acceptable_class_spec(caller_class@, passed_class@),
{
    if str_eq(caller_class, passed_class) {
        return true;
    }
    let chars = crate::text::chars_of(caller_class);
    let n = chars.len();
    let mut i: usize = 0;
    while i < n
        invariant
            n == caller_class@.len(),
            chars@ == caller_class@,
            i <= n,
            caller_class@ != passed_class@,
            forall|j: int| 0 <= j < i && caller_class@[j] == '$' ==> passed_class@ != caller_class@.subrange(0, j),
        decreases n - i,
    {
        if chars[i] == '$' {
            let prefix = crate::text::substring(caller_class, 0, i);
            if str_eq(prefix.as_str(), passed_class) {
                return true;
            }
        }
        i = i + 1;
    }
    false
}

/// The call is `Object.getClass()`.
pub open spec fn get_class_call_spec(call: CallSite) -> bool {
    call.owner@ == "java/lang/Object"@ && call.name@ == "getClass"@ && call.descriptor@ == "()Ljava/lang/Class;"@
}

/// Whether the call is `Object.getClass()`.
pub fn is_get_class_call(call: &CallSite) -> (res: bool)
    ensures
        res == get_class_call_spec(*call),
{
    str_eq(call.owner.as_str(), "java/lang/Object") && str_eq(call.name.as_str(), "getClass") && str_eq(
        call.descriptor.as_str(),
        "()Ljava/lang/Class;",
    )
}

/// Whether the call is `LoggerFactory.getLogger(Class)`.
pub fn is_get_logger_call(call: &CallSite, params: &Vec<DescriptorType>) -> (res: bool)
    ensures
        res == (call.owner@ == "org/slf4j/LoggerFactory"@ && call.name@ == "getLogger"@ && params@.len() == 1
            && params@[0]@ == crate::descriptor::TypeShape::Object("java/lang/Class"@)),
{
    if !str_eq(call.owner.as_str(), "org/slf4j/LoggerFactory") || !str_eq(call.name.as_str(), "getLogger") {
        return false;
    }
    if params.len() != 1 {
        return false;
    }
    match &params[0] {
        DescriptorType::Object(name) => str_eq(name.as_str(), "java/lang/Class"),
        _ => false,
    }
}

/// The instruction at `(b, k)` is the first one of the method's blocks, in
/// order, at offset `offset`.
pub open spec fn first_instruction_at(method: Method, offset: u32, b: int, k: int) -> bool {
    let blocks = method.cfg.blocks@;
    &&& 0 <= b < blocks.len()
    &&& 0 <= k < blocks[b].instructions@.len()
    &&& blocks[b].instructions@[k].offset == offset
    &&& forall|b2: int, k2: int|
        0 <= b2 < blocks.len() && 0 <= k2 < blocks[b2].instructions@.len() && (b2 < b || (b2 == b && k2 < k))
            ==> (#[trigger] blocks[b2].instructions@[k2]).offset != offset
}

/// The first instruction of the method's blocks, in order, at `offset`; none
/// when no instruction has that offset.
pub fn instruction_at(method: &Method, offset: u32) -> (res: Option<&Instruction>)
    ensures
        match res {
            Some(ins) => exists|b: int, k: int|
                first_instruction_at(*method, offset, b, k) && *ins == method.cfg.blocks@[b].instructions@[k],
            None => forall|b: int, k: int|
                0 <= b < method.cfg.blocks@.len() && 0 <= k < method.cfg.blocks@[b].instructions@.len()
                    ==> (#[trigger] method.cfg.blocks@[b].instructions@[k]).offset != offset,
        },
{
    let mut b: usize = 0;
    while b < method.cfg.blocks.len()
        invariant
            b <= method.cfg.blocks@.len(),
            forall|b2: int, k2: int|
                0 <= b2 < b && 0 <= k2 < method.cfg.blocks@[b2].instructions@.len()
                    ==> (#[trigger] method.cfg.blocks@[b2].instructions@[k2]).offset != offset,
        decreases method.cfg.blocks.len() - b,
    {
        let block = &method.cfg.blocks[b];
        let mut k: usize = 0;
        while k < block.instructions.len()
            invariant
                b < method.cfg.blocks@.len(),
                *block == method.cfg.blocks@[b as int],
                k <= block.instructions@.len(),
                forall|b2: int, k2: int|
                    0 <= b2 < b && 0 <= k2 < method.cfg.blocks@[b2].instructions@.len()
                        ==> (#[trigger] method.cfg.blocks@[b2].instructions@[k2]).offset != offset,
                forall|k2: int| 0 <= k2 < k ==> (#[trigger] block.instructions@[k2]).offset != offset,
            decreases block.instructions.len() - k,
        {
            if block.instructions[k].offset == offset {
                proof {
                    assert(first_instruction_at(*method, offset, b as int, k as int));
                }
                return Some(&block.instructions[k]);
            }
            k = k + 1;
        }
        b = b + 1;
    }
    None
}

/// The finding names a class literal passed to `getLogger` by a method of
/// `c` that is not acceptable for `c`, at the method with some line.
pub open spec fn illegal_class_finding(uri: Option<Seq<char>>, c: Class, m: Method, f: FindingView) -> bool {
    exists|passed: Seq<char>, o: u32|
        #![trigger acceptable_class_spec(c.name@, passed), crate::ir::line_for_offset_spec(m.line_numbers@, o)]
        {
            &&& !acceptable_class_spec(c.name@, passed)
            &&& f == FindingView {
                rule_id: None,
                message: "Illegal class passed to LoggerFactory.getLogger: "@ + passed,
                locations: seq![method_location_spec(c.name@, m.name@, m.descriptor@, uri, crate::ir::line_for_offset_spec(m.line_numbers@, o))],
            }
        }
}

fn operand(method: &Method, offset: usize) -> (res: usize)
    ensures
        res < 256,
        res == if offset + 1 < method.bytecode@.len() { method.bytecode@[offset + 1] as usize } else { 0usize },
{
    if offset < method.bytecode.len() && method.bytecode.len() - offset > 1 {
        method.bytecode[offset + 1] as usize
    } else {
        0
    }
}

/// The instruction of the method's blocks first at `offset`, if any.
#[verifier::opaque]
pub open spec fn instr_at_spec(m: Method, offset: u32) -> Option<Instruction> {
    if exists|b: int, k: int| #[trigger] first_instruction_at(m, offset, b, k) {
        let (b, k) = choose|b: int, k: int| #[trigger] first_instruction_at(m, offset, b, k);
        Some(m.cfg.blocks@[b].instructions@[k])
    } else {
        None
    }
}

/// The first instruction at an offset is at one position only.
pub proof fn lemma_first_instruction_unique(m: Method, offset: u32, b: int, k: int, b2: int, k2: int)
    requires
        first_instruction_at(m, offset, b, k),
        first_instruction_at(m, offset, b2, k2),
    ensures
        b == b2 && k == k2,
{
    if b2 < b || (b2 == b && k2 < k) {
        assert(m.cfg.blocks@[b2].instructions@[k2].offset != offset);
    }
    if b < b2 || (b == b2 && k < k2) {
        assert(m.cfg.blocks@[b].instructions@[k].offset != offset);
    }
}

/// The byte at `i` of the code, 0 past its end.
pub open spec fn code_byte(code: Seq<u8>, i: int) -> u8 {
    if 0 <= i < code.len() {
        code[i]
    } else {
        0u8
    }
}

/// The top of the stack and the rest; an unknown value on an empty stack.
pub open spec fn pop_class_value(s: Seq<ClassValue>) -> (Seq<ClassValue>, ClassValue) {
    if s.len() > 0 {
        (s.drop_last(), s.last())
    } else {
        (s, ClassValue::Unknown)
    }
}

/// The stack without its top (unchanged when empty).
pub open spec fn drop_class_value(s: Seq<ClassValue>) -> Seq<ClassValue> {
    if s.len() > 0 {
        s.drop_last()
    } else {
        s
    }
}

/// Pops `n` values: the rest of the stack, and the values in the order popped.
pub open spec fn pop_class_values(s: Seq<ClassValue>, n: nat) -> (Seq<ClassValue>, Seq<ClassValue>)
    decreases n,
{
    if n == 0 {
        (s, Seq::empty())
    } else {
        let (r, p) = pop_class_values(s, (n - 1) as nat);
        let (r2, v) = pop_class_value(r);
        (r2, p.push(v))
    }
}

/// A call at `off` whose descriptor does not parse: the interpretation fails there.
pub open spec fn slf4j_step_fails(m: Method, off: int) -> bool {
    let op = code_byte(m.bytecode@, off);
    &&& (op == opcodes::INVOKEVIRTUAL || op == opcodes::INVOKESPECIAL || op == opcodes::INVOKEINTERFACE
        || op == opcodes::INVOKESTATIC)
    &&& last_call_at(m.calls@, off as u32) matches Some(k)
    &&& jdescriptor_parse(m.calls@[k].descriptor@) is None
}

/// `getLogger(Class)` of `LoggerFactory`.
pub open spec fn get_logger_spec(call: CallSite, params: Seq<TypeShape>) -> bool {
    call.owner@ == "org/slf4j/LoggerFactory"@ && call.name@ == "getLogger"@ && params.len() == 1 && params[0]
        == TypeShape::Object("java/lang/Class"@)
}

/// The finding for the class `passed` given to `getLogger` at `off`.
pub open spec fn illegal_finding_at(uri: Option<Seq<char>>, c: Class, m: Method, passed: Seq<char>, off: int) -> FindingView {
    FindingView {
        rule_id: None,
        message: "Illegal class passed to LoggerFactory.getLogger: "@ + passed,
        locations: seq![method_location_spec(c.name@, m.name@, m.descriptor@, uri, crate::ir::line_for_offset_spec(m.line_numbers@, off as u32))],
    }
}

/// The effect of a call on the stack and what it reports: the arguments and
/// the receiver are popped; `getLogger` given a class literal that is not
/// acceptable for the class is reported; the result is pushed (`getClass()`
/// as such, anything else as unknown).
pub open spec fn slf4j_call_step(
    c: Class,
    m: Method,
    uri: Option<Seq<char>>,
    off: int,
    call: CallSite,
    params: Seq<TypeShape>,
    ret: TypeShape,
    lits: Seq<Seq<char>>,
    stack: Seq<ClassValue>,
) -> (Seq<ClassValue>, Seq<FindingView>) {
    let count = params.len();
    let (r1, args) = pop_class_values(stack, count);
    let r2 = if call.kind != CallKind::Static { drop_class_value(r1) } else { r1 };
    let f = if get_logger_spec(call, params) && (args[count - 1] matches ClassValue::ClassLiteral(li) && li
        < lits.len() && !acceptable_class_spec(c.name@, lits[li as int])) {
        seq![illegal_finding_at(uri, c, m, lits[args[count - 1]->0 as int], off)]
    } else {
        Seq::empty()
    };
    let rk = return_kind_of(ret);
    (
        if rk == ReturnKind::Void {
            r2
        } else if rk == ReturnKind::Reference && get_class_call_spec(call) {
            r2.push(ClassValue::GetClass)
        } else {
            r2.push(ClassValue::Unknown)
        },
        f,
    )
}

/// The locals, stack, class-literal table and findings after the
/// instruction at `off`.
#[verifier::opaque]
pub open spec fn slf4j_step(
    c: Class,
    m: Method,
    uri: Option<Seq<char>>,
    off: int,
    locals: Seq<ClassValue>,
    stack: Seq<ClassValue>,
    lits: Seq<Seq<char>>,
) -> (Seq<ClassValue>, Seq<ClassValue>, Seq<Seq<char>>, Seq<FindingView>) {
    let code = m.bytecode@;
    let op = code_byte(code, off);
    if op == opcodes::ACONST_NULL {
        (locals, stack.push(ClassValue::Unknown), lits, Seq::empty())
    } else if op == opcodes::ALOAD || (opcodes::ALOAD_0 <= op <= opcodes::ALOAD_3) {
        let index: int = if op == opcodes::ALOAD { code_byte(code, off + 1) as int } else { (op - opcodes::ALOAD_0) as int };
        let l2 = ensured(locals, index, ClassValue::Unknown);
        (l2, stack.push(l2[index]), lits, Seq::empty())
    } else if op == opcodes::ASTORE || (opcodes::ASTORE_0 <= op <= opcodes::ASTORE_3) {
        let index: int = if op == opcodes::ASTORE { code_byte(code, off + 1) as int } else { (op - opcodes::ASTORE_0) as int };
        let l2 = ensured(locals, index, ClassValue::Unknown);
        let (rest, v) = pop_class_value(stack);
        (l2.update(index, v), rest, lits, Seq::empty())
    } else if op == opcodes::LDC || op == opcodes::LDC_W || op == opcodes::LDC2_W {
        match instr_at_spec(m, off as u32) {
            Some(ins) => match ins.kind {
                InstructionKind::ConstClass(n) => (
                    locals,
                    stack.push(ClassValue::ClassLiteral(lits.len() as usize)),
                    lits.push(n@),
                    Seq::empty(),
                ),
                _ => (locals, stack.push(ClassValue::Unknown), lits, Seq::empty()),
            },
            None => (locals, stack.push(ClassValue::Unknown), lits, Seq::empty()),
        }
    } else if op == opcodes::DUP {
        (locals, if stack.len() > 0 { stack.push(stack.last()) } else { stack }, lits, Seq::empty())
    } else if op == opcodes::POP {
        (locals, drop_class_value(stack), lits, Seq::empty())
    } else if op == opcodes::INVOKEVIRTUAL || op == opcodes::INVOKESPECIAL || op == opcodes::INVOKEINTERFACE || op
        == opcodes::INVOKESTATIC {
        match last_call_at(m.calls@, off as u32) {
            Some(k) => match jdescriptor_parse(m.calls@[k].descriptor@) {
                Some((params, ret)) => {
                    let (s2, f) = slf4j_call_step(c, m, uri, off, m.calls@[k], params, ret, lits, stack);
                    (locals, s2, lits, f)
                },
                None => (locals, stack, lits, Seq::empty()),
            },
            None => (locals, stack, lits, Seq::empty()),
        }
    } else {
        (locals, stack, lits, Seq::empty())
    }
}

/// The findings of interpreting the code from `off` to its end with the given
/// locals, stack and class-literal table, in order; `None` when an
/// instruction does not decode or a call's descriptor does not parse.
#[verifier::opaque]
pub open spec fn slf4j_run(
    c: Class,
    m: Method,
    uri: Option<Seq<char>>,
    off: int,
    locals: Seq<ClassValue>,
    stack: Seq<ClassValue>,
    lits: Seq<Seq<char>>,
) -> Option<Seq<FindingView>>
    decreases m.bytecode@.len() - off,
{
    if off < 0 || off >= m.bytecode@.len() {
        Some(Seq::empty())
    } else if slf4j_step_fails(m, off) {
        None
    } else {
        let (l2, s2, t2, f) = slf4j_step(c, m, uri, off, locals, stack, lits);
        match instruction_length(m.bytecode@, off) {
            Some(len) => match slf4j_run(c, m, uri, off + len, l2, s2, t2) {
                Some(rest) => Some(f + rest),
                None => None,
            },
            None => None,
        }
    }
}

/// One instruction of the interpretation, unfolded.
pub proof fn lemma_slf4j_run_unfold(
    c: Class,
    m: Method,
    uri: Option<Seq<char>>,
    off: int,
    locals: Seq<ClassValue>,
    stack: Seq<ClassValue>,
    lits: Seq<Seq<char>>,
)
    ensures
        slf4j_run(c, m, uri, off, locals, stack, lits) == if off < 0 || off >= m.bytecode@.len() {
            Some(Seq::<FindingView>::empty())
        } else if slf4j_step_fails(m, off) {
            None
        } else {
            let (l2, s2, t2, f) = slf4j_step(c, m, uri, off, locals, stack, lits);
            match instruction_length(m.bytecode@, off) {
                Some(len) => match slf4j_run(c, m, uri, off + len, l2, s2, t2) {
                    Some(rest) => Some(f + rest),
                    None => None,
                },
                None => None,
            }
        },
{
    reveal_with_fuel(slf4j_run, 1);
}

/// The findings of the whole method, in order: interpretation from offset 0
/// with an unknown value in each parameter slot (and `this`), an empty stack
/// and no class literal yet; `None` when a descriptor does not parse or the
/// code does not decode.
pub open spec fn slf4j_analysis(c: Class, m: Method, uri: Option<Seq<char>>) -> Option<Seq<FindingView>> {
    match jdescriptor_parse(m.descriptor@) {
        Some((params, _)) => slf4j_run(
            c,
            m,
            uri,
            0,
            Seq::new(params.len() + if m.access.is_static { 0nat } else { 1nat }, |i: int| ClassValue::Unknown),
            Seq::empty(),
            Seq::empty(),
        ),
        None => None,
    }
}

/// Every finding of one step is an illegal class of the method.
pub proof fn lemma_slf4j_step_findings(
    c: Class,
    m: Method,
    uri: Option<Seq<char>>,
    off: int,
    locals: Seq<ClassValue>,
    stack: Seq<ClassValue>,
    lits: Seq<Seq<char>>,
)
    ensures
        forall|i: int|
            0 <= i < slf4j_step(c, m, uri, off, locals, stack, lits).3.len() ==> illegal_class_finding(
                uri,
                c,
                m,
                #[trigger] slf4j_step(c, m, uri, off, locals, stack, lits).3[i],
            ),
{
    reveal(slf4j_step);
    let f = slf4j_step(c, m, uri, off, locals, stack, lits).3;
    assert forall|i: int| 0 <= i < f.len() implies illegal_class_finding(uri, c, m, #[trigger] f[i]) by {
        let _ = crate::ir::line_for_offset_spec(m.line_numbers@, off as u32);
        let k = last_call_at(m.calls@, off as u32)->0;
        let parsed = jdescriptor_parse(m.calls@[k].descriptor@)->0;
        let count = parsed.0.len();
        let (r1, args) = pop_class_values(stack, count);
        let passed = lits[args[count - 1]->0 as int];
        assert(acceptable_class_spec(c.name@, passed) == false);
    }
}

/// Applies the call `k` at `offset` to the stack and appends what it
/// reports; an error when its descriptor does not parse.
fn slf4j_call_exec(
    class: &Class,
    method: &Method,
    uri: &Option<String>,
    offset: usize,
    k: usize,
    literals: &Vec<String>,
    stack: &mut Vec<ClassValue>,
    results: &mut Vec<Finding>,
) -> (res: Result<(), AnalysisError>)
    requires
        k < method.calls@.len(),
    ensures
        match jdescriptor_parse(method.calls@[k as int].descriptor@) {
            Some((params, ret)) => {
                let (s2, f2) = slf4j_call_step(*class, *method, opt_view(*uri), offset as int, method.calls@[k as int], params, ret, views(literals@), old(stack)@);
                &&& res is Ok
                &&& final(stack)@ == s2
                &&& finding_views(final(results)@) == finding_views(old(results)@) + f2
            },
            None => res is Err,
        },
{
    let call = &method.calls[k];
    let call_parsed = match parse_method_descriptor(call.descriptor.as_str()) {
        Some(d) => d,
        None => {
            return Err(AnalysisError::InvalidDescriptor(call.descriptor.clone()));
        },
    };
    let ghost s0 = stack@;
    let ghost r0 = finding_views(results@);
    let count = call_parsed.parameter_types.len();
    let mut args: Vec<ClassValue> = Vec::new();
    let mut j: usize = 0;
    proof {
        assert(pop_class_values(s0, 0) == (s0, Seq::<ClassValue>::empty()));
        assert(args@ =~= Seq::<ClassValue>::empty());
    }
    while j < count
        invariant
            j <= count,
            (stack@, args@) == pop_class_values(s0, j as nat),
        decreases count - j,
    {
        args.push(pop_or_unknown(stack, ClassValue::Unknown));
        j = j + 1;
    }
    if call.kind != CallKind::Static {
        stack.pop();
    }
    let mut reported = false;
    if is_get_logger_call(call, &call_parsed.parameter_types) {
        let first = args[count - 1];
        match first {
            ClassValue::ClassLiteral(li) => {
                if li < literals.len() {
                    let passed = &literals[li];
                    proof {
                        assert(views(literals@)[li as int] == passed@);
                    }
                    if !is_acceptable_class(class.name.as_str(), passed.as_str()) {
                        let mut message = "Illegal class passed to LoggerFactory.getLogger: ".to_owned();
                        message.append(passed.as_str());
                        let line = method.line_for_offset(offset as u32);
                        let artifact_uri: Option<&str> = match uri {
                            Some(s) => Some(s.as_str()),
                            None => None,
                        };
                        let location = method_location_with_line(
                            class.name.as_str(),
                            method.name.as_str(),
                            method.descriptor.as_str(),
                            artifact_uri,
                            line,
                        );
                        proof {
                            reveal_strlit("Illegal class passed to LoggerFactory.getLogger: ");
                        }
                        push_finding(results, finding(message, location));
                        reported = true;
                    }
                }
            },
            _ => {},
        }
    }
    if !reported {
        assert(finding_views(results@) =~= r0 + Seq::<FindingView>::empty());
    }
    match method_return_kind(call.descriptor.as_str())? {
        ReturnKind::Void => {},
        ReturnKind::Primitive => stack.push(ClassValue::Unknown),
        ReturnKind::Reference => {
            if is_get_class_call(call) {
                stack.push(ClassValue::GetClass);
            } else {
                stack.push(ClassValue::Unknown);
            }
        },
    }
    Ok(())
}

/// The value a constant load at `offset` pushes: a new entry of the
/// class-literal table for a class constant, unknown otherwise.
fn load_constant(method: &Method, offset: usize, literals: &mut Vec<String>) -> (res: ClassValue)
    ensures
        match instr_at_spec(*method, offset as u32) {
            Some(ins) => match ins.kind {
                InstructionKind::ConstClass(n) => res == ClassValue::ClassLiteral(old(literals)@.len() as usize)
                    && views(final(literals)@) == views(old(literals)@).push(n@),
                _ => res == ClassValue::Unknown && final(literals)@ == old(literals)@,
            },
            None => res == ClassValue::Unknown && final(literals)@ == old(literals)@,
        },
{
    let ghost t0 = views(literals@);
    match instruction_at(method, offset as u32) {
        Some(ins) => {
            proof {
                let (b, k) = choose|b: int, k: int|
                    #[trigger] first_instruction_at(*method, offset as u32, b, k) && *ins == method.cfg.blocks@[b].instructions@[k];
                let (b2, k2) = choose|b2: int, k2: int| #[trigger] first_instruction_at(*method, offset as u32, b2, k2);
                lemma_first_instruction_unique(*method, offset as u32, b, k, b2, k2);
                reveal(instr_at_spec);
                assert(instr_at_spec(*method, offset as u32) == Some(*ins));
            }
            match &ins.kind {
                InstructionKind::ConstClass(name) => {
                    literals.push(name.clone());
                    assert(views(literals@) =~= t0.push(name@));
                    ClassValue::ClassLiteral(literals.len() - 1)
                },
                _ => ClassValue::Unknown,
            }
        },
        None => {
            proof {
                reveal(instr_at_spec);
            }
            ClassValue::Unknown
        },
    }
}

/// Applies the instruction at `offset` to the locals, the stack and the
/// class-literal table and appends what it reports; an error when it is a
/// call whose descriptor does not parse.
#[verifier::spinoff_prover]
fn slf4j_step_exec(
    class: &Class,
    method: &Method,
    uri: &Option<String>,
    offset: usize,
    locals: &mut Vec<ClassValue>,
    stack: &mut Vec<ClassValue>,
    literals: &mut Vec<String>,
    results: &mut Vec<Finding>,
) -> (res: Result<(), AnalysisError>)
    requires
        offset < method.bytecode@.len(),
    ensures
        slf4j_step_fails(*method, offset as int) ==> res is Err,
        !slf4j_step_fails(*method, offset as int) ==> {
            let (l2, s2, t2, f2) = slf4j_step(*class, *method, opt_view(*uri), offset as int, old(locals)@, old(stack)@, views(old(literals)@));
            &&& res is Ok
            &&& final(locals)@ == l2
            &&& final(stack)@ == s2
            &&& views(final(literals)@) == t2
            &&& finding_views(final(results)@) == finding_views(old(results)@) + f2
        },
{
    reveal(slf4j_step);
    let ghost r0 = finding_views(results@);
    let opcode = method.bytecode[offset];
    assert(code_byte(method.bytecode@, offset as int) == opcode);
    if opcode == opcodes::ACONST_NULL {
        stack.push(ClassValue::Unknown);
    } else if opcode == opcodes::ALOAD || (opcodes::ALOAD_0 <= opcode && opcode <= opcodes::ALOAD_3) {
        let index = if opcode == opcodes::ALOAD { operand(method, offset) } else { (opcode - opcodes::ALOAD_0) as usize };
        ensure_local(locals, index, ClassValue::Unknown);
        stack.push(locals[index]);
    } else if opcode == opcodes::ASTORE || (opcodes::ASTORE_0 <= opcode && opcode <= opcodes::ASTORE_3) {
        let index = if opcode == opcodes::ASTORE { operand(method, offset) } else { (opcode - opcodes::ASTORE_0) as usize };
        ensure_local(locals, index, ClassValue::Unknown);
        let value = pop_or_unknown(stack, ClassValue::Unknown);
        locals.set(index, value);
    } else if opcode == opcodes::LDC || opcode == opcodes::LDC_W || opcode == opcodes::LDC2_W {
        let value = load_constant(method, offset, literals);
        stack.push(value);
    } else if opcode == opcodes::DUP {
        if stack.len() > 0 {
            let top = stack[stack.len() - 1];
            stack.push(top);
        }
    } else if opcode == opcodes::POP {
        stack.pop();
    } else if opcode == opcodes::INVOKEVIRTUAL || opcode == opcodes::INVOKESPECIAL
        || opcode == opcodes::INVOKEINTERFACE || opcode == opcodes::INVOKESTATIC {
        match find_call_at(method, offset as u32) {
            Some(k) => {
                slf4j_call_exec(class, method, uri, offset, k, literals, stack, results)?;
                return Ok(());
            },
            None => {},
        }
    }
    assert(finding_views(results@) =~= r0 + Seq::<FindingView>::empty());
    Ok(())
}

/// Interprets the method's bytecode in order and reports illegal classes
/// passed to `LoggerFactory.getLogger`.
#[verifier::spinoff_prover]
pub fn analyze_method(class: &Class, method: &Method, uri: &Option<String>) -> (res: Result<Vec<Finding>, AnalysisError>)
    ensures
        match slf4j_analysis(*class, *method, opt_view(*uri)) {
            Some(f) => res matches Ok(v) && finding_views(v@) == f,
            None => res is Err,
        },
        res matches Ok(v) ==> forall|i: int|
            0 <= i < v@.len() ==> illegal_class_finding(opt_view(*uri), *class, *method, #[trigger] finding_views(v@)[i]),
        method_decodes(*method) ==> res is Ok,
{
    let ghost u = opt_view(*uri);
    let mut results: Vec<Finding> = Vec::new();
    let mut literals: Vec<String> = Vec::new();
    let parsed = match parse_method_descriptor(method.descriptor.as_str()) {
        Some(p) => p,
        None => {
            return Err(AnalysisError::InvalidDescriptor(method.descriptor.clone()));
        },
    };
    let mut locals: Vec<ClassValue> = Vec::new();
    if !method.access.is_static {
        locals.push(ClassValue::Unknown);
    }
    let ghost base: nat = if method.access.is_static { 0nat } else { 1nat };
    let mut p: usize = 0;
    while p < parsed.parameter_types.len()
        invariant
            p <= parsed.parameter_types@.len(),
            base == (if method.access.is_static { 0nat } else { 1nat }),
            locals@ == Seq::new((p + base) as nat, |i: int| ClassValue::Unknown),
        decreases parsed.parameter_types.len() - p,
    {
        locals.push(ClassValue::Unknown);
        p = p + 1;
        assert(locals@ =~= Seq::new((p + base) as nat, |i: int| ClassValue::Unknown));
    }
    let mut stack: Vec<ClassValue> = Vec::new();
    let ghost total = slf4j_analysis(*class, *method, u);
    proof {
        assert(locals@ =~= Seq::new((parsed@.0.len() + base) as nat, |i: int| ClassValue::Unknown));
        assert(finding_views(results@) =~= Seq::<FindingView>::empty());
        assert(views(literals@) =~= Seq::<Seq<char>>::empty());
        match slf4j_run(*class, *method, u, 0, locals@, stack@, views(literals@)) {
            Some(rest) => assert(Seq::<FindingView>::empty() + rest =~= rest),
            None => {},
        }
    }
    let mut offset: usize = 0;
    while offset < method.bytecode.len()
        invariant
            forall|i: int|
                0 <= i < results@.len() ==> illegal_class_finding(opt_view(*uri), *class, *method, #[trigger] finding_views(results@)[i]),
            method_decodes(*method) ==> decodes_from(method.bytecode@, offset as int),
            u == opt_view(*uri),
            total == slf4j_analysis(*class, *method, u),
            total == match slf4j_run(*class, *method, u, offset as int, locals@, stack@, views(literals@)) {
                Some(rest) => Some(finding_views(results@) + rest),
                None => None::<Seq<FindingView>>,
            },
        decreases method.bytecode.len() - offset,
    {
        let ghost l0 = locals@;
        let ghost s0 = stack@;
        let ghost t0 = views(literals@);
        let ghost r0 = finding_views(results@);
        let ghost off = offset as int;
        proof {
            lemma_slf4j_run_unfold(*class, *method, u, off, l0, s0, t0);
            if method_decodes(*method) {
                assert(!slf4j_step_fails(*method, off)) by {
                    if slf4j_step_fails(*method, off) {
                        let k = last_call_at(method.calls@, off as u32)->0;
                        crate::bytecode::lemma_call_parses(*method, method.calls@[k]);
                    }
                }
            }
        }
        slf4j_step_exec(class, method, uri, offset, &mut locals, &mut stack, &mut literals, &mut results)?;
        proof {
            assert(!slf4j_step_fails(*method, off));
            lemma_slf4j_step_findings(*class, *method, u, off, l0, s0, t0);
            let f2 = slf4j_step(*class, *method, u, off, l0, s0, t0).3;
            assert(finding_views(results@) == r0 + f2);
            assert forall|i: int| 0 <= i < results@.len() implies illegal_class_finding(opt_view(*uri), *class, *method, #[trigger] finding_views(results@)[i]) by {
                if i < r0.len() {
                    assert(finding_views(results@)[i] == r0[i]);
                } else {
                    assert(finding_views(results@)[i] == f2[i - r0.len()]);
                }
            }
        }
        let length = opcode_length(&method.bytecode, offset)?;
        proof {
            let (l2, s2, t2, f2) = slf4j_step(*class, *method, u, off, l0, s0, t0);
            match slf4j_run(*class, *method, u, off + length, l2, s2, t2) {
                Some(rest) => assert(r0 + (f2 + rest) =~= (r0 + f2) + rest),
                None => {},
            }
        }
        offset = offset + length;
    }
    proof {
        lemma_slf4j_run_unfold(*class, *method, u, offset as int, locals@, stack@, views(literals@));
        assert(finding_views(results@) + Seq::<FindingView>::empty() =~= finding_views(results@));
    }
    Ok(results)
}

/// The finding is about a method with bytecode of an analysis-target class.
pub open spec fn reports_illegal_class(ctx: AnalysisContext, f: FindingView) -> bool {
    exists|ci: int, mi: int|
        #![trigger ctx.targets()[ci].methods@[mi]]
        0 <= ci < ctx.targets().len() && 0 <= mi < ctx.targets()[ci].methods@.len() && illegal_class_finding(
            ctx.class_uri(ctx.targets()[ci]),
            ctx.targets()[ci],
            ctx.targets()[ci].methods@[mi],
            f,
        )
}

/// Reports classes passed to `LoggerFactory.getLogger` that are not the
/// caller class or one of its outer classes.
#[derive(Clone, Copy, Debug)]
pub struct Slf4jIllegalPassedClassRule;

impl Slf4jIllegalPassedClassRule {
    /// The rule's id, name and description.
    pub fn metadata(&self) -> (res: RuleMetadata)
        ensures
            res.id@ == "SLF4J_ILLEGAL_PASSED_CLASS"@,
    {
        RuleMetadata {
            id: "SLF4J_ILLEGAL_PASSED_CLASS",
            name: "SLF4J illegal passed class",
            description: "LoggerFactory.getLogger should be called with the caller class",
        }
    }

    /// The illegal classes passed by every method with bytecode of the
    /// analysis-target classes, class by class and method by method.
    pub fn run(&self, context: &AnalysisContext) -> (res: Result<Vec<Finding>, AnalysisError>)
        ensures
            targets_decode(*context) ==> res is Ok,
            match slf4j_targets_findings(*context, context.targets().len() as int) {
                Some(f) => res matches Ok(v) && finding_views(v@) == f,
                None => res is Err,
            },
            res matches Ok(v) ==> forall|i: int|
                0 <= i < v@.len() ==> reports_illegal_class(*context, #[trigger] finding_views(v@)[i]),
    {
        let classes = context.analysis_target_classes();
        let mut results: Vec<Finding> = Vec::new();
        let mut ci: usize = 0;
        proof {
            assert(finding_views(results@) =~= Seq::<FindingView>::empty());
        }
        while ci < classes.len()
            invariant
                ci <= classes@.len(),
                classes@ == context.targets(),
                slf4j_targets_findings(*context, ci as int) == Some(finding_views(results@)),
                forall|i: int|
                    0 <= i < results@.len() ==> reports_illegal_class(*context, #[trigger] finding_views(results@)[i]),
            decreases classes.len() - ci,
        {
            let class = &classes[ci];
            let uri = context.class_artifact_uri(class);
            let ghost before_class = finding_views(results@);
            let mut mi: usize = 0;
            proof {
                assert(finding_views(results@) =~= before_class + Seq::<FindingView>::empty());
            }
            while mi < class.methods.len()
                invariant
                    ci < classes@.len(),
                    classes@ == context.targets(),
                    slf4j_targets_findings(*context, ci as int) == Some(before_class),
                    *class == classes@[ci as int],
                    opt_view(uri) == context.class_uri(*class),
                    mi <= class.methods@.len(),
                    slf4j_class_findings(*context, *class, mi as int) == Some(finding_views(results@).subrange(before_class.len() as int, finding_views(results@).len() as int)),
                    before_class.len() <= results@.len(),
                    finding_views(results@).subrange(0, before_class.len() as int) == before_class,
                    forall|i: int|
                        0 <= i < results@.len() ==> reports_illegal_class(*context, #[trigger] finding_views(results@)[i]),
                decreases class.methods.len() - mi,
            {
                let method = &class.methods[mi];
                proof {
                    assert(context.targets()[ci as int].methods@[mi as int] == *method);
                }
                let ghost prev = finding_views(results@);
                if method.bytecode.len() > 0 {
                    let mut found = match analyze_method(class, method, &uri) {
                        Ok(f) => f,
                        Err(e) => {
                            proof {
                                assert(slf4j_class_findings(*context, *class, mi + 1) is None);
                                lemma_slf4j_class_none(*context, *class, mi + 1, class.methods@.len() as int);
                                lemma_slf4j_targets_none(*context, ci as int + 1, context.targets().len() as int);
                            }
                            return Err(e);
                        },
                    };
                    let ghost add = finding_views(found@);
                    proof {
                        assert forall|i: int| 0 <= i < add.len() implies reports_illegal_class(*context, #[trigger] add[i]) by {
                            assert(illegal_class_finding(opt_view(uri), *class, *method, finding_views(found@)[i]));
                        }
                    }
                    results.append(&mut found);
                    proof {
                        assert(finding_views(results@) =~= prev + add);
                        assert forall|i: int| 0 <= i < results@.len() implies reports_illegal_class(*context, #[trigger] finding_views(results@)[i]) by {
                            if i < prev.len() {
                                assert(finding_views(results@)[i] == prev[i]);
                            } else {
                                assert(finding_views(results@)[i] == add[i - prev.len()]);
                            }
                        }
                        assert(finding_views(results@).subrange(before_class.len() as int, finding_views(results@).len() as int)
                            =~= prev.subrange(before_class.len() as int, prev.len() as int) + add);
                        assert(finding_views(results@).subrange(0, before_class.len() as int) =~= prev.subrange(0, before_class.len() as int));
                    }
                }
                mi = mi + 1;
            }
            proof {
                let all = finding_views(results@);
                assert(all =~= before_class + all.subrange(before_class.len() as int, all.len() as int));
            }
            ci = ci + 1;
        }
        Ok(results)
    }
}

/// The findings of the first `k` methods of `c` that have bytecode, in order;
/// `None` when the analysis of one of them fails.
pub open spec fn slf4j_class_findings(ctx: AnalysisContext, c: Class, k: int) -> Option<Seq<FindingView>>
    decreases k,
{
    if k <= 0 {
        Some(Seq::empty())
    } else {
        let m = c.methods@[k - 1];
        match slf4j_class_findings(ctx, c, k - 1) {
            Some(prev) => if m.bytecode@.len() == 0 {
                Some(prev)
            } else {
                match slf4j_analysis(c, m, ctx.class_uri(c)) {
                    Some(f) => Some(prev + f),
                    None => None,
                }
            },
            None => None,
        }
    }
}

/// The findings of the first `k` analysis-target classes, in order; `None`
/// when the analysis of one of their methods fails.
pub open spec fn slf4j_targets_findings(ctx: AnalysisContext, k: int) -> Option<Seq<FindingView>>
    decreases k,
{
    if k <= 0 {
        Some(Seq::empty())
    } else {
        match slf4j_targets_findings(ctx, k - 1) {
            Some(prev) => {
                let c = ctx.targets()[k - 1];
                match slf4j_class_findings(ctx, c, c.methods@.len() as int) {
                    Some(f) => Some(prev + f),
                    None => None,
                }
            },
            None => None,
        }
    }
}

/// A failure among the first `k` methods is a failure among the first `n`.
pub proof fn lemma_slf4j_class_none(ctx: AnalysisContext, c: Class, k: int, n: int)
    requires
        0 <= k <= n,
        slf4j_class_findings(ctx, c, k) is None,
    ensures
        slf4j_class_findings(ctx, c, n) is None,
    decreases n - k,
{
    if k < n {
        lemma_slf4j_class_none(ctx, c, k + 1, n);
    }
}

/// A failure among the first `k` classes is a failure among the first `n`.
pub proof fn lemma_slf4j_targets_none(ctx: AnalysisContext, k: int, n: int)
    requires
        0 <= k <= n,
        slf4j_targets_findings(ctx, k) is None,
    ensures
        slf4j_targets_findings(ctx, n) is None,
    decreases n - k,
{
    if k < n {
        lemma_slf4j_targets_none(ctx, k + 1, n);
    }
}

} // verus!
