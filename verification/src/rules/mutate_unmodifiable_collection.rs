//! Reports mutator calls on collections known to be unmodifiable: results of
//! `List.of`, `Collections.unmodifiable*`, `Stream.toList()` and the like.
use vstd::prelude::*;
use crate::bytecode::{decodes_from, instruction_length, lemma_call_parses, method_decodes, opcode_length};
use crate::dataflow::frame::{ensure_local, ensured, pop_or_unknown};
use crate::descriptor::{ReturnKind, jdescriptor_parse, method_param_count, method_return_kind, return_kind_of};
use crate::engine::{AnalysisContext, opt_view, targets_decode};
use crate::error::AnalysisError;
use crate::ir::{CallKind, CallSite, Class, Method};
use crate::opcodes;
use crate::rules::nullness::{find_call_at, last_call_at};
use crate::rules::call_scan::{about_method, method_message};
use crate::rules::location::{
    Finding, FindingView, RuleMetadata, finding, finding_views, method_location_spec, method_location_with_line,
    push_finding,
};
use crate::text::{seq_starts_with, starts_with, str_eq};

verus! {

/// What the analysis knows of a value.
#[derive(Clone, Copy, Debug, PartialEq, Eq, Structural)]
pub enum CollectionValue {
    Unknown,
    KnownUnmodifiable,
}

/// The call returns an unmodifiable collection.
pub open spec fn unmodifiable_factory_spec(call: CallSite) -> bool {
    ||| (call.owner@ == "java/util/stream/Stream"@ && call.name@ == "toList"@ && call.descriptor@ == "()Ljava/util/List;"@)
    ||| (call.kind == CallKind::Static && {
        let (o, n) = (call.owner@, call.name@);
        ||| ((o == "java/util/List"@ || o == "java/util/Set"@) && (n == "of"@ || n == "copyOf"@))
        ||| (o == "java/util/Map"@ && (n == "of"@ || n == "ofEntries"@ || n == "copyOf"@))
        ||| (o == "java/util/Collections"@ && (seq_starts_with(n, "unmodifiable"@) || seq_starts_with(n, "empty"@)
            || seq_starts_with(n, "singleton"@)))
    })
}

/// Whether the call returns an unmodifiable collection.
pub fn is_unmodifiable_factory_call(call: &CallSite) -> (res: bool)
    ensures
        res == unmodifiable_factory_spec(*call),
{
    let o = call.owner.as_str();
    let n = call.name.as_str();
    if str_eq(o, "java/util/stream/Stream") && str_eq(n, "toList") && str_eq(call.descriptor.as_str(), "()Ljava/util/List;") {
        return true;
    }
    if call.kind != CallKind::Static {
        return false;
    }
    ((str_eq(o, "java/util/List") || str_eq(o, "java/util/Set")) && (str_eq(n, "of") || str_eq(n, "copyOf")))
        || (str_eq(o, "java/util/Map") && (str_eq(n, "of") || str_eq(n, "ofEntries") || str_eq(n, "copyOf")))
        || (str_eq(o, "java/util/Collections") && (starts_with(n, "unmodifiable") || starts_with(n, "empty")
            || starts_with(n, "singleton")))
}

/// The method name is one of the collection mutators.
pub open spec fn mutator_name_spec(n: Seq<char>) -> bool {
    n == "add"@ || n == "addAll"@ || n == "clear"@ || n == "compute"@ || n == "computeIfAbsent"@ || n
        == "computeIfPresent"@ || n == "merge"@ || n == "put"@ || n == "putAll"@ || n == "putIfAbsent"@ || n
        == "remove"@ || n == "removeAll"@ || n == "removeIf"@ || n == "replace"@ || n == "replaceAll"@ || n
        == "retainAll"@ || n == "set"@ || n == "sort"@
}

/// The call is a mutator of a `java.util` type.
pub open spec fn mutator_call_spec(call: CallSite) -> bool {
    seq_starts_with(call.owner@, "java/util/"@) && mutator_name_spec(call.name@)
}

/// Whether the call is a mutator of a `java.util` type.
/// The collection mutators: the methods of `java.util` collections and maps
/// that add, put, remove, replace, clear, sort or recompute entries.
pub open spec fn collection_mutators() -> Set<Seq<char>> {
    set![
        "add"@,
        "addAll"@,
        "clear"@,
        "compute"@,
        "computeIfAbsent"@,
        "computeIfPresent"@,
        "merge"@,
        "put"@,
        "putAll"@,
        "putIfAbsent"@,
        "remove"@,
        "removeAll"@,
        "removeIf"@,
        "replace"@,
        "replaceAll"@,
        "retainAll"@,
        "set"@,
        "sort"@
    ]
}

/// A call mutates a collection exactly when its owner is in `java/util/`
/// (the first 10 characters) and its name is one of the collection
/// mutators (`add`, `put`, `remove`, `clear`, ...).
pub proof fn lemma_mutator_calls(call: CallSite)
    ensures
        mutator_call_spec(call) <==> (call.owner@.len() >= 10 && call.owner@.subrange(0, 10) == "java/util/"@
            && collection_mutators().contains(call.name@)),
{
    reveal_strlit("java/util/");
}
pub fn is_mutator_call(call: &CallSite) -> (res: bool)
    ensures
        res == mutator_call_spec(*call),
{
    if !starts_with(call.owner.as_str(), "java/util/") {
        return false;
    }
    let n = call.name.as_str();
    str_eq(n, "add") || str_eq(n, "addAll") || str_eq(n, "clear") || str_eq(n, "compute") || str_eq(n, "computeIfAbsent")
        || str_eq(n, "computeIfPresent") || str_eq(n, "merge") || str_eq(n, "put") || str_eq(n, "putAll") || str_eq(
        n,
        "putIfAbsent",
    ) || str_eq(n, "remove") || str_eq(n, "removeAll") || str_eq(n, "removeIf") || str_eq(n, "replace") || str_eq(
        n,
        "replaceAll",
    ) || str_eq(n, "retainAll") || str_eq(n, "set") || str_eq(n, "sort")
}

/// The message for a mutator call `call` in method `m` of `c`.
pub open spec fn mutation_message(c: Class, m: Method, call: CallSite) -> Seq<char> {
    about_method("Unmodifiable collection is mutated in "@, c, m, "; create a mutable copy before calling "@)
        + call.name@ + "()."@
}

/// The finding reports a mutator call of method `m` of `c` at its line.
pub open spec fn mutation_finding(uri: Option<Seq<char>>, c: Class, m: Method, f: FindingView) -> bool {
    exists|k: int|
        #![trigger m.calls@[k]]
        0 <= k < m.calls@.len() && mutator_call_spec(m.calls@[k]) && f == FindingView {
            rule_id: None,
            message: mutation_message(c, m, m.calls@[k]),
            locations: seq![method_location_spec(c.name@, m.name@, m.descriptor@, uri, crate::ir::line_for_offset_spec(m.line_numbers@, m.calls@[k].offset))],
        }
}

/// The stack without its top `n` values (all of them when it is shorter).
pub open spec fn drop_top(s: Seq<CollectionValue>, n: nat) -> Seq<CollectionValue> {
    s.subrange(0, if n >= s.len() { 0 } else { s.len() - n })
}

/// The receiver a call takes off the stack once its arguments are gone.
pub open spec fn call_receiver(s: Seq<CollectionValue>, call: CallSite, params: nat) -> CollectionValue {
    let rest = drop_top(s, params);
    if call.kind != CallKind::Static && rest.len() > 0 { rest.last() } else { CollectionValue::Unknown }
}

/// The stack after a call whose descriptor has `params` parameters and
/// returns `ret`: arguments and receiver are popped, and the result is pushed.
pub open spec fn stack_after_call(s: Seq<CollectionValue>, call: CallSite, params: nat, ret: ReturnKind) -> Seq<CollectionValue> {
    let rest = drop_top(s, params);
    let base = if call.kind != CallKind::Static && rest.len() > 0 { rest.drop_last() } else { rest };
    if unmodifiable_factory_spec(call) {
        base.push(CollectionValue::KnownUnmodifiable)
    } else if ret == ReturnKind::Void {
        base
    } else {
        base.push(CollectionValue::Unknown)
    }
}

/// The finding for a mutator `call` made by method `m` of `c`.
pub open spec fn call_mutation_finding(uri: Option<Seq<char>>, c: Class, m: Method, call: CallSite) -> FindingView {
    FindingView {
        rule_id: None,
        message: mutation_message(c, m, call),
        locations: seq![method_location_spec(c.name@, m.name@, m.descriptor@, uri, crate::ir::line_for_offset_spec(m.line_numbers@, call.offset))],
    }
}

/// Applies a call to the operand stack and reports a mutator called on an
/// unmodifiable collection.
pub fn handle_call(
    class: &Class,
    method: &Method,
    uri: &Option<String>,
    call: &CallSite,
    stack: &mut Vec<CollectionValue>,
    results: &mut Vec<Finding>,
) -> (res: Result<(), AnalysisError>)
    requires
        exists|k: int| 0 <= k < method.calls@.len() && method.calls@[k] == *call,
        forall|i: int| 0 <= i < old(results)@.len() ==> mutation_finding(opt_view(*uri), *class, *method, #[trigger] finding_views(old(results)@)[i]),
    ensures
        forall|i: int| 0 <= i < final(results)@.len() ==> mutation_finding(opt_view(*uri), *class, *method, #[trigger] finding_views(final(results)@)[i]),
        (res is Err) == (jdescriptor_parse(call.descriptor@) is None),
        jdescriptor_parse(call.descriptor@) matches Some((params, ret)) ==> {
            &&& final(stack)@ == stack_after_call(old(stack)@, *call, params.len(), return_kind_of(ret))
            &&& finding_views(final(results)@) == finding_views(old(results)@) + if call_receiver(old(stack)@, *call, params.len())
                == CollectionValue::KnownUnmodifiable && mutator_call_spec(*call) {
                seq![call_mutation_finding(opt_view(*uri), *class, *method, *call)]
            } else {
                Seq::<FindingView>::empty()
            }
        },
{
    let ghost start = finding_views(results@);
    let param_count = method_param_count(call.descriptor.as_str())?;
    let ghost s0 = stack@;
    let mut k: usize = 0;
    while k < param_count
        invariant
            k <= param_count,
            stack@ == drop_top(s0, k as nat),
        decreases param_count - k,
    {
        stack.pop();
        proof {
            assert(stack@ =~= drop_top(s0, (k + 1) as nat));
        }
        k = k + 1;
    }
    let ghost rest = stack@;
    let receiver = if call.kind != CallKind::Static {
        pop_or_unknown(stack, CollectionValue::Unknown)
    } else {
        CollectionValue::Unknown
    };
    let ghost base = stack@;
    proof {
        assert(receiver == call_receiver(s0, *call, param_count as nat));
        assert(base == (if call.kind != CallKind::Static && rest.len() > 0 { rest.drop_last() } else { rest }));
    }
    if receiver == CollectionValue::KnownUnmodifiable && is_mutator_call(call) {
        let mut message = method_message(
            "Unmodifiable collection is mutated in ",
            class,
            method,
            "; create a mutable copy before calling ",
        );
        message.append(call.name.as_str());
        message.append("().");
        let line = method.line_for_offset(call.offset);
        let artifact_uri: Option<&str> = match uri {
            Some(s) => Some(s.as_str()),
            None => None,
        };
        let location = method_location_with_line(class.name.as_str(), method.name.as_str(), method.descriptor.as_str(), artifact_uri, line);
        let f = finding(message, location);
        let ghost fv = f@;
        let ghost prev = finding_views(results@);
        proof {
            reveal_strlit("().");
            let k = choose|k: int| 0 <= k < method.calls@.len() && method.calls@[k] == *call;
            assert(mutation_finding(opt_view(*uri), *class, *method, fv)) by {
                assert(method.calls@[k] == *call);
            }
        }
        push_finding(results, f);
        proof {
            assert(finding_views(results@) == prev.push(fv));
            assert(fv == call_mutation_finding(opt_view(*uri), *class, *method, *call));
            assert(finding_views(results@) =~= start + seq![fv]);
            assert forall|i: int| 0 <= i < results@.len() implies mutation_finding(opt_view(*uri), *class, *method, #[trigger] finding_views(results@)[i]) by {
                if i < prev.len() {
                    assert(finding_views(results@)[i] == prev[i]);
                } else {
                    assert(finding_views(results@)[i] == fv);
                }
            }
        }
    }
    else {
        assert(finding_views(results@) =~= start + Seq::<FindingView>::empty());
    }
    if is_unmodifiable_factory_call(call) {
        stack.push(CollectionValue::KnownUnmodifiable);
    } else {
        match method_return_kind(call.descriptor.as_str())? {
            ReturnKind::Void => {},
            _ => stack.push(CollectionValue::Unknown),
        }
    }
    proof {
        let (ps, r) = jdescriptor_parse(call.descriptor@)->0;
        assert(ps.len() == param_count);
        assert(stack@ == stack_after_call(s0, *call, ps.len(), return_kind_of(r)));
    }
    Ok(())
}

fn operand(method: &Method, offset: usize) -> (res: usize)
    ensures
        res < 256,
        res == if offset + 1 < method.bytecode@.len() { method.bytecode@[offset + 1] as usize } else { 0usize },
{
    if offset < method.bytecode.len() && method.bytecode.len() - offset > 1 {
        method.bytecode[offset + 1] as usize
    } else {
        0
    }
}

/// The byte at `i` of the code, 0 past its end.
pub open spec fn code_byte(code: Seq<u8>, i: int) -> u8 {
    if 0 <= i < code.len() {
        code[i]
    } else {
        0u8
    }
}

/// A call at `off` whose descriptor does not parse: the interpretation fails there.
pub open spec fn mutation_step_fails(m: Method, off: int) -> bool {
    let op = code_byte(m.bytecode@, off);
    &&& (op == opcodes::INVOKEVIRTUAL || op == opcodes::INVOKESPECIAL || op == opcodes::INVOKEINTERFACE
        || op == opcodes::INVOKESTATIC)
    &&& last_call_at(m.calls@, off as u32) matches Some(k)
    &&& jdescriptor_parse(m.calls@[k].descriptor@) is None
}

/// What a call reports: a mutator called on a known unmodifiable collection.
pub open spec fn call_findings(uri: Option<Seq<char>>, c: Class, m: Method, call: CallSite, s: Seq<CollectionValue>, params: nat) -> Seq<FindingView> {
    if call_receiver(s, call, params) == CollectionValue::KnownUnmodifiable && mutator_call_spec(call) {
        seq![call_mutation_finding(uri, c, m, call)]
    } else {
        Seq::empty()
    }
}

/// The locals, stack and findings after the instruction at `off`.
#[verifier::opaque]
pub open spec fn mutation_step(
    c: Class,
    m: Method,
    uri: Option<Seq<char>>,
    off: int,
    locals: Seq<CollectionValue>,
    stack: Seq<CollectionValue>,
) -> (Seq<CollectionValue>, Seq<CollectionValue>, Seq<FindingView>) {
    let code = m.bytecode@;
    let op = code_byte(code, off);
    if op == opcodes::ACONST_NULL || op == opcodes::LDC || op == opcodes::LDC_W || op == opcodes::LDC2_W || op
        == opcodes::NEW || op == opcodes::ANEWARRAY || op == opcodes::NEWARRAY || op == opcodes::MULTIANEWARRAY {
        (locals, stack.push(CollectionValue::Unknown), Seq::empty())
    } else if op == opcodes::ALOAD || (opcodes::ALOAD_0 <= op <= opcodes::ALOAD_3) {
        let index: int = if op == opcodes::ALOAD { code_byte(code, off + 1) as int } else { (op - opcodes::ALOAD_0) as int };
        let l2 = ensured(locals, index, CollectionValue::Unknown);
        (l2, stack.push(l2[index]), Seq::empty())
    } else if op == opcodes::ASTORE || (opcodes::ASTORE_0 <= op <= opcodes::ASTORE_3) {
        let index: int = if op == opcodes::ASTORE { code_byte(code, off + 1) as int } else { (op - opcodes::ASTORE_0) as int };
        let l2 = ensured(locals, index, CollectionValue::Unknown);
        let v = if stack.len() > 0 { stack.last() } else { CollectionValue::Unknown };
        (l2.update(index, v), drop_top(stack, 1), Seq::empty())
    } else if op == opcodes::DUP {
        (locals, if stack.len() > 0 { stack.push(stack.last()) } else { stack }, Seq::empty())
    } else if op == opcodes::POP {
        (locals, drop_top(stack, 1), Seq::empty())
    } else if op == opcodes::POP2 {
        (locals, drop_top(stack, 2), Seq::empty())
    } else if op == opcodes::AASTORE {
        (locals, drop_top(stack, 3), Seq::empty())
    } else if op == opcodes::AALOAD {
        (locals, drop_top(stack, 2).push(CollectionValue::Unknown), Seq::empty())
    } else if op == opcodes::INVOKEVIRTUAL || op == opcodes::INVOKESPECIAL || op == opcodes::INVOKEINTERFACE || op
        == opcodes::INVOKESTATIC {
        match last_call_at(m.calls@, off as u32) {
            Some(k) => match jdescriptor_parse(m.calls@[k].descriptor@) {
                Some((params, ret)) => (
                    locals,
                    stack_after_call(stack, m.calls@[k], params.len(), return_kind_of(ret)),
                    call_findings(uri, c, m, m.calls@[k], stack, params.len()),
                ),
                None => (locals, stack, Seq::empty()),
            },
            None => (locals, stack, Seq::empty()),
        }
    } else {
        (locals, stack, Seq::empty())
    }
}

/// The findings of interpreting the code from `off` to its end with the given
/// locals and stack, in order; `None` when an instruction does not decode or
/// a call's descriptor does not parse.
#[verifier::opaque]
pub open spec fn mutation_run(
    c: Class,
    m: Method,
    uri: Option<Seq<char>>,
    off: int,
    locals: Seq<CollectionValue>,
    stack: Seq<CollectionValue>,
) -> Option<Seq<FindingView>>
    decreases m.bytecode@.len() - off,
{
    if off < 0 || off >= m.bytecode@.len() {
        Some(Seq::empty())
    } else if mutation_step_fails(m, off) {
        None
    } else {
        let (l2, s2, f) = mutation_step(c, m, uri, off, locals, stack);
        match instruction_length(m.bytecode@, off) {
            Some(len) => match mutation_run(c, m, uri, off + len, l2, s2) {
                Some(rest) => Some(f + rest),
                None => None,
            },
            None => None,
        }
    }
}

/// One instruction of the interpretation, unfolded.
pub proof fn lemma_mutation_run_unfold(c: Class, m: Method, uri: Option<Seq<char>>, off: int, locals: Seq<CollectionValue>, stack: Seq<CollectionValue>)
    ensures
        mutation_run(c, m, uri, off, locals, stack) == if off < 0 || off >= m.bytecode@.len() {
            Some(Seq::<FindingView>::empty())
        } else if mutation_step_fails(m, off) {
            None
        } else {
            let (l2, s2, f) = mutation_step(c, m, uri, off, locals, stack);
            match instruction_length(m.bytecode@, off) {
                Some(len) => match mutation_run(c, m, uri, off + len, l2, s2) {
                    Some(rest) => Some(f + rest),
                    None => None,
                },
                None => None,
            }
        },
{
    reveal_with_fuel(mutation_run, 1);
}

/// The mutations found in the whole method, in order: interpretation from
/// offset 0 with an unknown value in each parameter slot (and `this`) and an
/// empty stack; `None` when a descriptor does not parse or the code does not
/// decode.
pub open spec fn mutation_analysis(c: Class, m: Method, uri: Option<Seq<char>>) -> Option<Seq<FindingView>> {
    match jdescriptor_parse(m.descriptor@) {
        Some((params, _)) => mutation_run(
            c,
            m,
            uri,
            0,
            Seq::new(params.len() + if m.access.is_static { 0nat } else { 1nat }, |i: int| CollectionValue::Unknown),
            Seq::empty(),
        ),
        None => None,
    }
}

/// Pops `n` values (each pop on an empty stack does nothing).
fn pop_values(stack: &mut Vec<CollectionValue>, n: usize)
    ensures
        final(stack)@ == drop_top(old(stack)@, n as nat),
{
    let ghost s0 = stack@;
    let mut k: usize = 0;
    assert(s0.subrange(0, s0.len() as int) =~= s0);
    while k < n
        invariant
            k <= n,
            stack@ == drop_top(s0, k as nat),
        decreases n - k,
    {
        stack.pop();
        k = k + 1;
        assert(stack@ =~= drop_top(s0, k as nat));
    }
}

/// Applies the instruction at `offset` to the locals and the stack and
/// appends what it reports; an error when it is a call whose descriptor does
/// not parse.
#[verifier::spinoff_prover]
fn mutation_step_exec(
    class: &Class,
    method: &Method,
    uri: &Option<String>,
    offset: usize,
    locals: &mut Vec<CollectionValue>,
    stack: &mut Vec<CollectionValue>,
    results: &mut Vec<Finding>,
) -> (res: Result<(), AnalysisError>)
    requires
        offset < method.bytecode@.len(),
        forall|i: int| 0 <= i < old(results)@.len() ==> mutation_finding(opt_view(*uri), *class, *method, #[trigger] finding_views(old(results)@)[i]),
    ensures
        forall|i: int| 0 <= i < final(results)@.len() ==> mutation_finding(opt_view(*uri), *class, *method, #[trigger] finding_views(final(results)@)[i]),
        mutation_step_fails(*method, offset as int) ==> res is Err,
        !mutation_step_fails(*method, offset as int) ==> {
            let (l2, s2, f2) = mutation_step(*class, *method, opt_view(*uri), offset as int, old(locals)@, old(stack)@);
            &&& res is Ok
            &&& final(locals)@ == l2
            &&& final(stack)@ == s2
            &&& finding_views(final(results)@) == finding_views(old(results)@) + f2
        },
{
    reveal(mutation_step);
    let ghost r0 = finding_views(results@);
    let ghost s0 = stack@;
    let opcode = method.bytecode[offset];
    assert(code_byte(method.bytecode@, offset as int) == opcode);
    if opcode == opcodes::ACONST_NULL || opcode == opcodes::LDC || opcode == opcodes::LDC_W || opcode == opcodes::LDC2_W
        || opcode == opcodes::NEW || opcode == opcodes::ANEWARRAY || opcode == opcodes::NEWARRAY
        || opcode == opcodes::MULTIANEWARRAY {
        stack.push(CollectionValue::Unknown);
    } else if opcode == opcodes::ALOAD || (opcodes::ALOAD_0 <= opcode && opcode <= opcodes::ALOAD_3) {
        let index = if opcode == opcodes::ALOAD { operand(method, offset) } else { (opcode - opcodes::ALOAD_0) as usize };
        ensure_local(locals, index, CollectionValue::Unknown);
        stack.push(locals[index]);
    } else if opcode == opcodes::ASTORE || (opcodes::ASTORE_0 <= opcode && opcode <= opcodes::ASTORE_3) {
        let index = if opcode == opcodes::ASTORE { operand(method, offset) } else { (opcode - opcodes::ASTORE_0) as usize };
        ensure_local(locals, index, CollectionValue::Unknown);
        let value = pop_or_unknown(stack, CollectionValue::Unknown);
        locals.set(index, value);
        assert(stack@ =~= drop_top(s0, 1));
    } else if opcode == opcodes::DUP {
        if stack.len() > 0 {
            let top = stack[stack.len() - 1];
            stack.push(top);
        }
    } else if opcode == opcodes::POP {
        pop_values(stack, 1);
    } else if opcode == opcodes::POP2 {
        pop_values(stack, 2);
    } else if opcode == opcodes::AASTORE {
        pop_values(stack, 3);
    } else if opcode == opcodes::AALOAD {
        pop_values(stack, 2);
        stack.push(CollectionValue::Unknown);
    } else if opcode == opcodes::INVOKEVIRTUAL || opcode == opcodes::INVOKESPECIAL
        || opcode == opcodes::INVOKEINTERFACE || opcode == opcodes::INVOKESTATIC {
        match find_call_at(method, offset as u32) {
            Some(k) => {
                let call = &method.calls[k];
                handle_call(class, method, uri, call, stack, results)?;
                return Ok(());
            },
            None => {},
        }
    }
    assert(finding_views(results@) =~= r0 + Seq::<FindingView>::empty());
    Ok(())
}

/// Interprets the method's bytecode in order and reports mutations of
/// unmodifiable collections.
#[verifier::spinoff_prover]
pub fn analyze_method(class: &Class, method: &Method, uri: &Option<String>) -> (res: Result<Vec<Finding>, AnalysisError>)
    ensures
        match mutation_analysis(*class, *method, opt_view(*uri)) {
            Some(f) => res matches Ok(v) && finding_views(v@) == f,
            None => res is Err,
        },
        res matches Ok(v) ==> forall|i: int|
            0 <= i < v@.len() ==> mutation_finding(opt_view(*uri), *class, *method, #[trigger] finding_views(v@)[i]),
        method_decodes(*method) ==> res is Ok,
{
    let ghost u = opt_view(*uri);
    let mut results: Vec<Finding> = Vec::new();
    let param_count = method_param_count(method.descriptor.as_str())?;
    let mut locals: Vec<CollectionValue> = Vec::new();
    if !method.access.is_static {
        locals.push(CollectionValue::Unknown);
    }
    let ghost base: nat = if method.access.is_static { 0nat } else { 1nat };
    let mut p: usize = 0;
    while p < param_count
        invariant
            p <= param_count,
            base == (if method.access.is_static { 0nat } else { 1nat }),
            locals@ == Seq::new((p + base) as nat, |i: int| CollectionValue::Unknown),
        decreases param_count - p,
    {
        locals.push(CollectionValue::Unknown);
        p = p + 1;
        assert(locals@ =~= Seq::new((p + base) as nat, |i: int| CollectionValue::Unknown));
    }
    let mut stack: Vec<CollectionValue> = Vec::new();
    let ghost total = mutation_analysis(*class, *method, u);
    proof {
        assert(finding_views(results@) =~= Seq::<FindingView>::empty());
        match mutation_run(*class, *method, u, 0, locals@, stack@) {
            Some(rest) => assert(Seq::<FindingView>::empty() + rest =~= rest),
            None => {},
        }
    }
    let mut offset: usize = 0;
    while offset < method.bytecode.len()
        invariant
            forall|i: int|
                0 <= i < results@.len() ==> mutation_finding(opt_view(*uri), *class, *method, #[trigger] finding_views(results@)[i]),
            method_decodes(*method) ==> decodes_from(method.bytecode@, offset as int),
            u == opt_view(*uri),
            total == mutation_analysis(*class, *method, u),
            total == match mutation_run(*class, *method, u, offset as int, locals@, stack@) {
                Some(rest) => Some(finding_views(results@) + rest),
                None => None::<Seq<FindingView>>,
            },
        decreases method.bytecode.len() - offset,
    {
        let ghost l0 = locals@;
        let ghost s0 = stack@;
        let ghost r0 = finding_views(results@);
        let ghost off = offset as int;
        proof {
            lemma_mutation_run_unfold(*class, *method, u, off, l0, s0);
            if method_decodes(*method) {
                assert(!mutation_step_fails(*method, off)) by {
                    if mutation_step_fails(*method, off) {
                        let k = last_call_at(method.calls@, off as u32)->0;
                        lemma_call_parses(*method, method.calls@[k]);
                    }
                }
            }
        }
        mutation_step_exec(class, method, uri, offset, &mut locals, &mut stack, &mut results)?;
        proof {
            assert(!mutation_step_fails(*method, off));
        }
        let length = opcode_length(&method.bytecode, offset)?;
        proof {
            let (l2, s2, f2) = mutation_step(*class, *method, u, off, l0, s0);
            match mutation_run(*class, *method, u, off + length, l2, s2) {
                Some(rest) => assert(r0 + (f2 + rest) =~= (r0 + f2) + rest),
                None => {},
            }
        }
        offset = offset + length;
    }
    proof {
        lemma_mutation_run_unfold(*class, *method, u, offset as int, locals@, stack@);
        assert(finding_views(results@) + Seq::<FindingView>::empty() =~= finding_views(results@));
    }
    Ok(results)
}

/// The finding is about a method with bytecode of an analysis-target class.
pub open spec fn reports_mutation(ctx: AnalysisContext, f: FindingView) -> bool {
    exists|ci: int, mi: int|
        #![trigger ctx.targets()[ci].methods@[mi]]
        0 <= ci < ctx.targets().len() && 0 <= mi < ctx.targets()[ci].methods@.len() && mutation_finding(
            ctx.class_uri(ctx.targets()[ci]),
            ctx.targets()[ci],
            ctx.targets()[ci].methods@[mi],
            f,
        )
}

/// Reports mutator calls on known unmodifiable collections.
#[derive(Clone, Copy, Debug)]
pub struct MutateUnmodifiableCollectionRule;

impl MutateUnmodifiableCollectionRule {
    /// The rule's id, name and description.
    pub fn metadata(&self) -> (res: RuleMetadata)
        ensures
            res.id@ == "MUTATE_UNMODIFIABLE_COLLECTION"@,
    {
        RuleMetadata {
            id: "MUTATE_UNMODIFIABLE_COLLECTION",
            name: "Mutation on unmodifiable collection",
            description: "Mutation calls on known JDK unmodifiable collection values",
        }
    }

    /// The mutations found in every method with bytecode of the
    /// analysis-target classes, class by class and method by method.
    pub fn run(&self, context: &AnalysisContext) -> (res: Result<Vec<Finding>, AnalysisError>)
        ensures
            targets_decode(*context) ==> res is Ok,
            match mutation_targets_findings(*context, context.targets().len() as int) {
                Some(f) => res matches Ok(v) && finding_views(v@) == f,
                None => res is Err,
            },
            res matches Ok(v) ==> forall|i: int|
                0 <= i < v@.len() ==> reports_mutation(*context, #[trigger] finding_views(v@)[i]),
    {
        let classes = context.analysis_target_classes();
        let mut results: Vec<Finding> = Vec::new();
        let mut ci: usize = 0;
        proof {
            assert(finding_views(results@) =~= Seq::<FindingView>::empty());
        }
        while ci < classes.len()
            invariant
                ci <= classes@.len(),
                classes@ == context.targets(),
                mutation_targets_findings(*context, ci as int) == Some(finding_views(results@)),
                forall|i: int|
                    0 <= i < results@.len() ==> reports_mutation(*context, #[trigger] finding_views(results@)[i]),
            decreases classes.len() - ci,
        {
            let class = &classes[ci];
            let uri = context.class_artifact_uri(class);
            let ghost before_class = finding_views(results@);
            let mut mi: usize = 0;
            proof {
                assert(finding_views(results@) =~= before_class + Seq::<FindingView>::empty());
            }
            while mi < class.methods.len()
                invariant
                    ci < classes@.len(),
                    classes@ == context.targets(),
                    mutation_targets_findings(*context, ci as int) == Some(before_class),
                    *class == classes@[ci as int],
                    opt_view(uri) == context.class_uri(*class),
                    mi <= class.methods@.len(),
                    mutation_class_findings(*context, *class, mi as int) == Some(finding_views(results@).subrange(before_class.len() as int, finding_views(results@).len() as int)),
                    before_class.len() <= results@.len(),
                    finding_views(results@).subrange(0, before_class.len() as int) == before_class,
                    forall|i: int|
                        0 <= i < results@.len() ==> reports_mutation(*context, #[trigger] finding_views(results@)[i]),
                decreases class.methods.len() - mi,
            {
                let method = &class.methods[mi];
                proof {
                    assert(context.targets()[ci as int].methods@[mi as int] == *method);
                }
                let ghost prev = finding_views(results@);
                if method.bytecode.len() > 0 {
                    let mut found = match analyze_method(class, method, &uri) {
                        Ok(f) => f,
                        Err(e) => {
                            proof {
                                assert(mutation_class_findings(*context, *class, mi + 1) is None);
                                lemma_mutation_class_none(*context, *class, mi + 1, class.methods@.len() as int);
                                lemma_mutation_targets_none(*context, ci as int + 1, context.targets().len() as int);
                            }
                            return Err(e);
                        },
                    };
                    let ghost add = finding_views(found@);
                    proof {
                        assert forall|i: int| 0 <= i < add.len() implies reports_mutation(*context, #[trigger] add[i]) by {
                            assert(mutation_finding(opt_view(uri), *class, *method, finding_views(found@)[i]));
                        }
                    }
                    results.append(&mut found);
                    proof {
                        assert(finding_views(results@) =~= prev + add);
                        assert forall|i: int| 0 <= i < results@.len() implies reports_mutation(*context, #[trigger] finding_views(results@)[i]) by {
                            if i < prev.len() {
                                assert(finding_views(results@)[i] == prev[i]);
                            } else {
                                assert(finding_views(results@)[i] == add[i - prev.len()]);
                            }
                        }
                        assert(finding_views(results@).subrange(before_class.len() as int, finding_views(results@).len() as int)
                            =~= prev.subrange(before_class.len() as int, prev.len() as int) + add);
                        assert(finding_views(results@).subrange(0, before_class.len() as int) =~= prev.subrange(0, before_class.len() as int));
                    }
                }
                mi = mi + 1;
            }
            proof {
                let all = finding_views(results@);
                assert(all =~= before_class + all.subrange(before_class.len() as int, all.len() as int));
            }
            ci = ci + 1;
        }
        Ok(results)
    }
}

/// The findings of the first `k` methods of `c` that have bytecode, in order;
/// `None` when the analysis of one of them fails.
pub open spec fn mutation_class_findings(ctx: AnalysisContext, c: Class, k: int) -> Option<Seq<FindingView>>
    decreases k,
{
    if k <= 0 {
        Some(Seq::empty())
    } else {
        let m = c.methods@[k - 1];
        match mutation_class_findings(ctx, c, k - 1) {
            Some(prev) => if m.bytecode@.len() == 0 {
                Some(prev)
            } else {
                match mutation_analysis(c, m, ctx.class_uri(c)) {
                    Some(f) => Some(prev + f),
                    None => None,
                }
            },
            None => None,
        }
    }
}

/// The findings of the first `k` analysis-target classes, in order; `None`
/// when the analysis of one of their methods fails.
pub open spec fn mutation_targets_findings(ctx: AnalysisContext, k: int) -> Option<Seq<FindingView>>
    decreases k,
{
    if k <= 0 {
        Some(Seq::empty())
    } else {
        match mutation_targets_findings(ctx, k - 1) {
            Some(prev) => {
                let c = ctx.targets()[k - 1];
                match mutation_class_findings(ctx, c, c.methods@.len() as int) {
                    Some(f) => Some(prev + f),
                    None => None,
                }
            },
            None => None,
        }
    }
}

/// A failure among the first `k` methods is a failure among the first `n`.
pub proof fn lemma_mutation_class_none(ctx: AnalysisContext, c: Class, k: int, n: int)
    requires
        0 <= k <= n,
        mutation_class_findings(ctx, c, k) is None,
    ensures
        mutation_class_findings(ctx, c, n) is None,
    decreases n - k,
{
    if k < n {
        lemma_mutation_class_none(ctx, c, k + 1, n);
    }
}

/// A failure among the first `k` classes is a failure among the first `n`.
pub proof fn lemma_mutation_targets_none(ctx: AnalysisContext, k: int, n: int)
    requires
        0 <= k <= n,
        mutation_targets_findings(ctx, k) is None,
    ensures
        mutation_targets_findings(ctx, n) is None,
    decreases n - k,
{
    if k < n {
        lemma_mutation_targets_none(ctx, k + 1, n);
    }
}

} // verus!
