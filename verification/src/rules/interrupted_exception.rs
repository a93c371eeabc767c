//! Reports `InterruptedException` handlers that neither restore the interrupt
//! status nor rethrow.
use vstd::prelude::*;
use crate::dataflow::worklist::{InstructionStep, WorklistSemantics, WorklistState, analyze_method};
use crate::engine::{AnalysisContext, opt_view};
use crate::error::AnalysisError;
use crate::flatten::contains_u32;
use crate::ir::{Class, Instruction, InstructionKind, Method};
use crate::opcodes;
use crate::rules::call_scan::{about_method, method_message};
use crate::rules::location::{
    Finding, FindingView, RuleMetadata, finding, finding_views, method_location_spec,
    method_location_with_line, push_finding,
};
use crate::text::str_eq;
use std::collections::BTreeMap;

verus! {

broadcast use vstd::std_specs::btree::group_btree_axioms;

/// The catch type covers `InterruptedException`: the exception itself,
/// `Exception` or `Throwable`.
pub open spec fn interrupted_catch_spec(catch_type: Option<Seq<char>>) -> bool {
    match catch_type {
        Some(t) => t == "java/lang/InterruptedException"@ || t == "java/lang/Exception"@ || t
            == "java/lang/Throwable"@,
        None => false,
    }
}

/// Whether a handler's catch type covers `InterruptedException`.
pub fn is_interrupted_exception_handler(catch_type: Option<&str>) -> (res: bool)
    ensures
        res == interrupted_catch_spec(
            match catch_type {
                Some(t) => Some(t@),
                None => None,
            },
        ),
{
    match catch_type {
        Some(t) => str_eq(t, "java/lang/InterruptedException") || str_eq(t, "java/lang/Exception")
            || str_eq(t, "java/lang/Throwable"),
        None => false,
    }
}

/// The instruction is a call to `Thread.currentThread()`.
pub open spec fn is_current_thread_call(i: Instruction) -> bool {
    i.kind matches InstructionKind::Invoke(call) && call.owner@ == "java/lang/Thread"@ && call.name@
        == "currentThread"@ && call.descriptor@ == "()Ljava/lang/Thread;"@
}

/// The instruction is a call to `Thread.interrupt()`.
pub open spec fn is_interrupt_call(i: Instruction) -> bool {
    i.kind matches InstructionKind::Invoke(call) && call.owner@ == "java/lang/Thread"@ && call.name@
        == "interrupt"@ && call.descriptor@ == "()V"@
}

/// Walking `s` in order, with `seen` telling whether `currentThread()` was
/// already called: an `athrow` comes, or an `interrupt()` after a
/// `currentThread()`.
pub open spec fn restores_from(s: Seq<Instruction>, seen: bool) -> bool
    decreases s.len(),
{
    if s.len() == 0 {
        false
    } else if s[0].opcode == opcodes::ATHROW {
        true
    } else if is_current_thread_call(s[0]) {
        restores_from(s.drop_first(), true)
    } else if is_interrupt_call(s[0]) && seen {
        true
    } else {
        restores_from(s.drop_first(), seen)
    }
}

fn is_thread_call(instruction: &Instruction, name: &str, descriptor: &str) -> (res: bool)
    ensures
        res == (instruction.kind matches InstructionKind::Invoke(call) && call.owner@ == "java/lang/Thread"@
            && call.name@ == name@ && call.descriptor@ == descriptor@),
{
    match &instruction.kind {
        InstructionKind::Invoke(call) => str_eq(call.owner.as_str(), "java/lang/Thread") && str_eq(
            call.name.as_str(),
            name,
        ) && str_eq(call.descriptor.as_str(), descriptor),
        _ => false,
    }
}

/// Whether the instructions, in order, rethrow or restore the interrupt status
/// with `Thread.currentThread()` followed later by `interrupt()`.
pub fn handler_restores_interrupt(instructions: &[&Instruction]) -> (res: bool)
    ensures
        res == restores_from(instructions@.map_values(|i: &Instruction| *i), false),
{
    let ghost all = instructions@.map_values(|i: &Instruction| *i);
    let mut seen_current_thread = false;
    let mut k: usize = 0;
    assert(all.subrange(0, all.len() as int) =~= all);
    while k < instructions.len()
        invariant
            k <= instructions@.len(),
            all == instructions@.map_values(|i: &Instruction| *i),
            restores_from(all, false) == restores_from(all.subrange(k as int, all.len() as int), seen_current_thread),
        decreases instructions.len() - k,
    {
        let instruction: &Instruction = instructions[k];
        let ghost rest = all.subrange(k as int, all.len() as int);
        proof {
            assert(rest[0] == *instruction);
            assert(rest.drop_first() =~= all.subrange(k + 1, all.len() as int));
            reveal_strlit("currentThread");
            reveal_strlit("()Ljava/lang/Thread;");
            reveal_strlit("interrupt");
            reveal_strlit("()V");
        }
        if instruction.opcode == opcodes::ATHROW {
            return true;
        }
        if is_thread_call(instruction, "currentThread", "()Ljava/lang/Thread;") {
            seen_current_thread = true;
        } else if is_thread_call(instruction, "interrupt", "()V") {
            if seen_current_thread {
                return true;
            }
        }
        k = k + 1;
    }
    false
}

/// Program point used to enumerate the instructions reachable from a handler.
#[derive(Clone, Copy, Debug, PartialEq, Eq, PartialOrd, Ord)]
pub struct ReachableInstructionState {
    pub block_start: u32,
    pub instruction_index: usize,
}

impl WorklistState for ReachableInstructionState {
    closed spec fn position(self) -> (u32, usize) {
        (self.block_start, self.instruction_index)
    }

    closed spec fn repositioned(self, block_start: u32, instruction_index: usize) -> Self {
        ReachableInstructionState { block_start, instruction_index, ..self }
    }

    proof fn lemma_repositioned(self, block_start: u32, instruction_index: usize) {
    }

    fn block_start(&self) -> (res: u32) {
        self.block_start
    }

    fn instruction_index(&self) -> (res: usize) {
        self.instruction_index
    }

    fn set_position(&mut self, block_start: u32, instruction_index: usize) {
        self.block_start = block_start;
        self.instruction_index = instruction_index;
    }
}

/// Collects the offset of every instruction reached from a handler entry.
pub struct ReachableInstructionSemantics {
    pub handler_pc: u32,
}

impl WorklistSemantics for ReachableInstructionSemantics {
    type State = ReachableInstructionState;

    type Finding = u32;

    fn initial_states(&self, method: &Method) -> (res: Vec<ReachableInstructionState>)
        ensures
            res@ == seq![ReachableInstructionState { block_start: self.handler_pc, instruction_index: 0 }],
    {
        let mut v: Vec<ReachableInstructionState> = Vec::new();
        v.push(ReachableInstructionState { block_start: self.handler_pc, instruction_index: 0 });
        v
    }

    fn transfer_instruction(
        &self,
        method: &Method,
        instruction: &Instruction,
        state: &mut ReachableInstructionState,
    ) -> (res: Result<InstructionStep<u32>, AnalysisError>)
        ensures
            res matches Ok(step) && step.findings@ == seq![instruction.offset] && !step.terminate_path,
            *final(state) == *old(state),
    {
        let res = InstructionStep::continue_path().with_finding(instruction.offset);
        assert(res.findings@ =~= seq![instruction.offset]);
        Ok(res)
    }
}

/// The instruction at `(b, k)` is the last one of the method's blocks, in
/// order, at offset `offset`.
pub open spec fn last_instruction_at(method: Method, offset: u32, b: int, k: int) -> bool {
    let blocks = method.cfg.blocks@;
    &&& 0 <= b < blocks.len()
    &&& 0 <= k < blocks[b].instructions@.len()
    &&& blocks[b].instructions@[k].offset == offset
    &&& forall|b2: int, k2: int|
        0 <= b2 < blocks.len() && 0 <= k2 < blocks[b2].instructions@.len() && (b2 > b || (b2 == b
            && k2 > k)) ==> (#[trigger] blocks[b2].instructions@[k2]).offset != offset
}

/// `ins` is the last instruction of the method at its offset.
pub open spec fn is_method_instruction(method: Method, ins: Instruction) -> bool {
    exists|b: int, k: int|
        last_instruction_at(method, ins.offset, b, k) && ins == method.cfg.blocks@[b].instructions@[k]
}

/// Where each instruction offset of the method is: the block and position of
/// the last instruction with that offset.
pub fn instruction_positions(method: &Method) -> (res: BTreeMap<u32, (usize, usize)>)
    ensures
        forall|o: u32|
            #[trigger] res@.contains_key(o) ==> last_instruction_at(
                *method,
                o,
                res@[o].0 as int,
                res@[o].1 as int,
            ),
        forall|b2: int, k2: int|
            0 <= b2 < method.cfg.blocks@.len() && 0 <= k2 < method.cfg.blocks@[b2].instructions@.len()
                ==> res@.contains_key(#[trigger] method.cfg.blocks@[b2].instructions@[k2].offset),
{
    let mut map: BTreeMap<u32, (usize, usize)> = BTreeMap::new();
    let blocks = &method.cfg.blocks;
    let mut b: usize = 0;
    while b < blocks.len()
        invariant
            b <= blocks@.len(),
            blocks@ == method.cfg.blocks@,
            forall|o: u32|
                #[trigger] map@.contains_key(o) ==> {
                    let (pb, pk) = map@[o];
                    &&& pb < b
                    &&& pk < blocks@[pb as int].instructions@.len()
                    &&& blocks@[pb as int].instructions@[pk as int].offset == o
                    &&& forall|b2: int, k2: int|
                        0 <= b2 < b && 0 <= k2 < blocks@[b2].instructions@.len() && (b2 > pb || (b2 == pb
                            && k2 > pk)) ==> (#[trigger] blocks@[b2].instructions@[k2]).offset != o
                },
            forall|b2: int, k2: int|
                0 <= b2 < b && 0 <= k2 < blocks@[b2].instructions@.len() ==> map@.contains_key(
                    #[trigger] blocks@[b2].instructions@[k2].offset,
                ),
        decreases blocks.len() - b,
    {
        let instructions = &blocks[b].instructions;
        let mut k: usize = 0;
        while k < instructions.len()
            invariant
                b < blocks@.len(),
                k <= instructions@.len(),
                instructions@ == blocks@[b as int].instructions@,
                forall|o: u32|
                    #[trigger] map@.contains_key(o) ==> {
                        let (pb, pk) = map@[o];
                        &&& pb <= b
                        &&& pb == b ==> pk < k
                        &&& pk < blocks@[pb as int].instructions@.len()
                        &&& blocks@[pb as int].instructions@[pk as int].offset == o
                        &&& forall|b2: int, k2: int|
                            0 <= b2 <= b && 0 <= k2 < blocks@[b2].instructions@.len() && (b2 < b || k2
                                < k) && (b2 > pb || (b2 == pb && k2 > pk)) ==> (
                            #[trigger] blocks@[b2].instructions@[k2]).offset != o
                    },
                forall|b2: int, k2: int|
                    0 <= b2 <= b && 0 <= k2 < blocks@[b2].instructions@.len() && (b2 < b || k2 < k)
                        ==> map@.contains_key(#[trigger] blocks@[b2].instructions@[k2].offset),
            decreases instructions.len() - k,
        {
            let offset = instructions[k].offset;
            map.insert(offset, (b, k));
            k = k + 1;
        }
        b = b + 1;
    }
    map
}

/// The last instruction of the method at offset `o`, if any.
pub open spec fn instruction_at_offset(method: Method, o: u32) -> Option<Instruction> {
    if exists|b: int, k: int| last_instruction_at(method, o, b, k) {
        let (b, k) = choose|b: int, k: int| last_instruction_at(method, o, b, k);
        Some(method.cfg.blocks@[b].instructions@[k])
    } else {
        None
    }
}

/// The instructions at `offsets`, in order, skipping offsets with none.
pub open spec fn instructions_at_spec(method: Method, offsets: Seq<u32>) -> Seq<Instruction>
    decreases offsets.len(),
{
    if offsets.len() == 0 {
        seq![]
    } else {
        let rest = instructions_at_spec(method, offsets.drop_last());
        match instruction_at_offset(method, offsets.last()) {
            Some(ins) => rest.push(ins),
            None => rest,
        }
    }
}

/// Only one position is the last at an offset.
pub proof fn lemma_last_instruction_unique(method: Method, o: u32, b: int, k: int, b2: int, k2: int)
    requires
        last_instruction_at(method, o, b, k),
        last_instruction_at(method, o, b2, k2),
    ensures
        b == b2 && k == k2,
{
    let blocks = method.cfg.blocks@;
    if b2 > b || (b2 == b && k2 > k) {
        assert(blocks[b2].instructions@[k2].offset != o);
    }
    if b > b2 || (b == b2 && k > k2) {
        assert(blocks[b].instructions@[k].offset != o);
    }
}

/// The instructions at the given offsets, in order, skipping offsets that are
/// not an instruction of the method; each is the last instruction of the
/// method with its offset.
pub fn instructions_at<'a>(method: &'a Method, offsets: &Vec<u32>) -> (res: Vec<&'a Instruction>)
    ensures
        res@.len() <= offsets@.len(),
        forall|i: int|
            0 <= i < res@.len() ==> is_method_instruction(*method, *#[trigger] res@[i]),
        res@.map_values(|r: &Instruction| *r) == instructions_at_spec(*method, offsets@),
{
    let positions = instruction_positions(method);
    let mut out: Vec<&Instruction> = Vec::new();
    let mut i: usize = 0;
    while i < offsets.len()
        invariant
            i <= offsets@.len(),
            out@.len() <= i,
            forall|o: u32|
                #[trigger] positions@.contains_key(o) ==> last_instruction_at(
                    *method,
                    o,
                    positions@[o].0 as int,
                    positions@[o].1 as int,
                ),
            forall|b2: int, k2: int|
                0 <= b2 < method.cfg.blocks@.len() && 0 <= k2 < method.cfg.blocks@[b2].instructions@.len()
                    ==> positions@.contains_key(#[trigger] method.cfg.blocks@[b2].instructions@[k2].offset),
            forall|j: int|
                0 <= j < out@.len() ==> is_method_instruction(*method, *#[trigger] out@[j]),
            out@.map_values(|r: &Instruction| *r) == instructions_at_spec(*method, offsets@.subrange(0, i as int)),
        decreases offsets.len() - i,
    {
        let offset = offsets[i];
        let ghost before = out@;
        proof {
            assert(offsets@.subrange(0, i + 1).drop_last() =~= offsets@.subrange(0, i as int));
        }
        match positions.get(&offset) {
            Some(position) => {
                let (b, k) = *position;
                assert(last_instruction_at(*method, offset, b as int, k as int));
                let instruction = &method.cfg.blocks[b].instructions[k];
                out.push(instruction);
                proof {
                    let (cb, ck) = choose|cb: int, ck: int| last_instruction_at(*method, offset, cb, ck);
                    lemma_last_instruction_unique(*method, offset, b as int, k as int, cb, ck);
                    assert(instruction_at_offset(*method, offset) == Some(*instruction));
                    assert(out@.map_values(|r: &Instruction| *r) =~= before.map_values(|r: &Instruction| *r).push(*instruction));
                }
            },
            None => {
                proof {
                    if exists|cb: int, ck: int| last_instruction_at(*method, offset, cb, ck) {
                        let (cb, ck) = choose|cb: int, ck: int| last_instruction_at(*method, offset, cb, ck);
                        assert(positions@.contains_key(method.cfg.blocks@[cb].instructions@[ck].offset));
                    }
                }
            },
        }
        i = i + 1;
    }
    assert(offsets@.subrange(0, i as int) =~= offsets@);
    out
}

/// The instructions reachable from a handler entry, in the order the worklist
/// reaches them.
pub fn collect_reachable_instructions<'a>(method: &'a Method, handler_pc: u32) -> (res: Result<
    Vec<&'a Instruction>,
    AnalysisError,
>)
    ensures
        res matches Ok(v) ==> forall|i: int|
            0 <= i < v@.len() ==> is_method_instruction(*method, *#[trigger] v@[i]),
{
    let semantics = ReachableInstructionSemantics { handler_pc };
    let offsets = analyze_method(method, &semantics)?;
    Ok(instructions_at(method, &offsets))
}

/// The message reported for a method.
pub open spec fn interrupted_message(c: Class, m: Method) -> Seq<char> {
    about_method("InterruptedException is caught but interrupt status is not restored in "@, c, m, ""@)
}

/// The finding for a handler of method `m` of class `c`.
pub open spec fn handler_finding(uri: Option<Seq<char>>, c: Class, m: Method, handler_pc: u32) -> FindingView {
    FindingView {
        rule_id: None,
        message: interrupted_message(c, m),
        locations: seq![method_location_spec(
            c.name@,
            m.name@,
            m.descriptor@,
            uri,
            crate::ir::line_for_offset_spec(m.line_numbers@, handler_pc),
        )],
    }
}

/// The finding reports a handler of a method with bytecode of an
/// analysis-target class, whose catch type covers `InterruptedException`.
pub open spec fn reports_interrupted_handler(ctx: AnalysisContext, f: FindingView) -> bool {
    exists|ci: int, mi: int, hi: int|
        #![trigger ctx.targets()[ci].methods@[mi].exception_handlers@[hi]]
        0 <= ci < ctx.targets().len() && 0 <= mi < ctx.targets()[ci].methods@.len() && 0 <= hi
            < ctx.targets()[ci].methods@[mi].exception_handlers@.len() && {
            let c = ctx.targets()[ci];
            let m = c.methods@[mi];
            let h = m.exception_handlers@[hi];
            &&& m.bytecode@.len() > 0
            &&& interrupted_catch_spec(opt_view(h.catch_type))
            &&& f == handler_finding(ctx.class_uri(c), c, m, h.handler_pc)
        }
}

/// Reports `InterruptedException` handlers that do not restore the interrupt
/// status.
#[derive(Clone, Copy, Debug)]
pub struct InterruptedExceptionRule;

impl InterruptedExceptionRule {
    /// The rule's id, name and description.
    pub fn metadata(&self) -> (res: RuleMetadata)
        ensures
            res.id@ == "INTERRUPTED_EXCEPTION_NOT_RESTORED"@,
    {
        RuleMetadata {
            id: "INTERRUPTED_EXCEPTION_NOT_RESTORED",
            name: "InterruptedException not properly handled",
            description: "Restore interrupt status when catching InterruptedException",
        }
    }

    /// One finding per handler entry (each entry offset once per method) that
    /// catches `InterruptedException` and, on the instructions reachable from
    /// it, neither rethrows nor calls `Thread.currentThread().interrupt()`.
    pub fn run(&self, context: &AnalysisContext) -> (res: Result<Vec<Finding>, AnalysisError>)
        ensures
            res matches Ok(v) ==> forall|i: int|
                0 <= i < v@.len() ==> reports_interrupted_handler(*context, #[trigger] finding_views(v@)[i]),
    {
        let classes = context.analysis_target_classes();
        let mut results: Vec<Finding> = Vec::new();
        let mut ci: usize = 0;
        while ci < classes.len()
            invariant
                ci <= classes@.len(),
                classes@ == context.targets(),
                forall|i: int|
                    0 <= i < results@.len() ==> reports_interrupted_handler(
                        *context,
                        #[trigger] finding_views(results@)[i],
                    ),
            decreases classes.len() - ci,
        {
            let class = &classes[ci];
            let uri = context.class_artifact_uri(class);
            let mut mi: usize = 0;
            while mi < class.methods.len()
                invariant
                    ci < classes@.len(),
                    classes@ == context.targets(),
                    *class == classes@[ci as int],
                    opt_view(uri) == context.class_uri(*class),
                    mi <= class.methods@.len(),
                    forall|i: int|
                        0 <= i < results@.len() ==> reports_interrupted_handler(
                            *context,
                            #[trigger] finding_views(results@)[i],
                        ),
                decreases class.methods.len() - mi,
            {
                let method = &class.methods[mi];
                if method.bytecode.len() > 0 {
                    let mut handled: Vec<u32> = Vec::new();
                    let mut hi: usize = 0;
                    while hi < method.exception_handlers.len()
                        invariant
                            ci < classes@.len(),
                            classes@ == context.targets(),
                            *class == classes@[ci as int],
                            mi < class.methods@.len(),
                            *method == class.methods@[mi as int],
                            method.bytecode@.len() > 0,
                            opt_view(uri) == context.class_uri(*class),
                            hi <= method.exception_handlers@.len(),
                            forall|i: int|
                                0 <= i < results@.len() ==> reports_interrupted_handler(
                                    *context,
                                    #[trigger] finding_views(results@)[i],
                                ),
                        decreases method.exception_handlers.len() - hi,
                    {
                        let handler = &method.exception_handlers[hi];
                        let catch_type: Option<&str> = match &handler.catch_type {
                            Some(t) => Some(t.as_str()),
                            None => None,
                        };
                        if is_interrupted_exception_handler(catch_type) && !contains_u32(&handled, handler.handler_pc) {
                            handled.push(handler.handler_pc);
                            let instructions = collect_reachable_instructions(method, handler.handler_pc)?;
                            if !handler_restores_interrupt(instructions.as_slice()) {
                                let message = method_message(
                                    "InterruptedException is caught but interrupt status is not restored in ",
                                    class,
                                    method,
                                    "",
                                );
                                let line = method.line_for_offset(handler.handler_pc);
                                let artifact_uri: Option<&str> = match &uri {
                                    Some(s) => Some(s.as_str()),
                                    None => None,
                                };
                                let location = method_location_with_line(
                                    class.name.as_str(),
                                    method.name.as_str(),
                                    method.descriptor.as_str(),
                                    artifact_uri,
                                    line,
                                );
                                let f = finding(message, location);
                                proof {
                                    reveal_strlit("");
                                    assert(f@ == handler_finding(context.class_uri(*class), *class, *method, handler.handler_pc));
                                    assert(context.targets()[ci as int].methods@[mi as int].exception_handlers@[hi as int]
                                        == *handler);
                                    assert(reports_interrupted_handler(*context, f@));
                                }
                                let ghost prev = finding_views(results@);
                                let ghost fv = f@;
                                push_finding(&mut results, f);
                                proof {
                                    assert(finding_views(results@) == prev.push(fv));
                                    assert(finding_views(results@).len() == prev.len() + 1);
                                    assert forall|i: int| 0 <= i < results@.len() implies reports_interrupted_handler(
                                        *context,
                                        #[trigger] finding_views(results@)[i],
                                    ) by {
                                        if i < prev.len() {
                                            assert(finding_views(results@)[i] == prev[i]);
                                        } else {
                                            assert(finding_views(results@)[i] == fv);
                                        }
                                    }
                                }
                            }
                        }
                        hi = hi + 1;
                    }
                }
                mi = mi + 1;
            }
            ci = ci + 1;
        }
        Ok(results)
    }
}

} // verus!
