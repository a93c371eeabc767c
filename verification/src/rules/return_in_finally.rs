//! Reports `return` instructions reached from a `finally` handler, where they
//! discard the pending exception or return value.
use vstd::prelude::*;
use crate::dataflow::worklist::{InstructionStep, WorklistSemantics, WorklistState, analyze_method, insert_sorted_unique, strictly_increasing};
use crate::engine::{AnalysisContext, opt_view};
use crate::error::AnalysisError;
use crate::flatten::contains_u32;
use crate::ir::{Class, Instruction, Method};
use crate::opcodes;
use crate::rules::location::{
    Finding, FindingView, RuleMetadata, finding, finding_views, method_location_spec,
    method_location_with_line, push_finding,
};

verus! {

/// A return instruction.
pub open spec fn is_return_spec(op: u8) -> bool {
    op == opcodes::IRETURN || op == opcodes::LRETURN || op == opcodes::FRETURN || op == opcodes::DRETURN || op
        == opcodes::ARETURN || op == opcodes::RETURN
}

/// Whether the opcode returns from the method.
pub fn is_return_opcode(op: u8) -> (res: bool)
    ensures
        res == is_return_spec(op),
{
    op == opcodes::IRETURN || op == opcodes::LRETURN || op == opcodes::FRETURN || op == opcodes::DRETURN || op
        == opcodes::ARETURN || op == opcodes::RETURN
}

/// A program point of the walk from a handler entry.
#[derive(Clone, Copy, Debug, PartialEq, Eq, PartialOrd, Ord)]
pub struct ReturnScanState {
    pub block_start: u32,
    pub instruction_index: usize,
}

impl WorklistState for ReturnScanState {
    closed spec fn position(self) -> (u32, usize) {
        (self.block_start, self.instruction_index)
    }

    closed spec fn repositioned(self, block_start: u32, instruction_index: usize) -> Self {
        ReturnScanState { block_start, instruction_index, ..self }
    }

    proof fn lemma_repositioned(self, block_start: u32, instruction_index: usize) {
    }

    fn block_start(&self) -> (res: u32) {
        self.block_start
    }

    fn instruction_index(&self) -> (res: usize) {
        self.instruction_index
    }

    fn set_position(&mut self, block_start: u32, instruction_index: usize) {
        self.block_start = block_start;
        self.instruction_index = instruction_index;
    }
}

/// What visiting an instruction reports: its offset when it is a return.
pub fn scan_return(instruction: &Instruction) -> (res: InstructionStep<u32>)
    ensures
        !res.terminate_path,
        res.findings@ == if is_return_spec(instruction.opcode) {
            seq![instruction.offset]
        } else {
            Seq::<u32>::empty()
        },
{
    let step = InstructionStep::continue_path();
    if is_return_opcode(instruction.opcode) {
        let res = step.with_finding(instruction.offset);
        assert(res.findings@ =~= seq![instruction.offset]);
        res
    } else {
        step
    }
}

/// Collects the offsets of the return instructions reached from a handler
/// entry.
pub struct ReturnScanSemantics {
    pub handler_pc: u32,
}

impl WorklistSemantics for ReturnScanSemantics {
    type State = ReturnScanState;

    type Finding = u32;

    fn initial_states(&self, method: &Method) -> (res: Vec<ReturnScanState>)
        ensures
            res@ == seq![ReturnScanState { block_start: self.handler_pc, instruction_index: 0 }],
    {
        let mut v: Vec<ReturnScanState> = Vec::new();
        v.push(ReturnScanState { block_start: self.handler_pc, instruction_index: 0 });
        v
    }

    fn transfer_instruction(&self, method: &Method, instruction: &Instruction, state: &mut ReturnScanState) -> (res: Result<
        InstructionStep<u32>,
        AnalysisError,
    >)
        ensures
            res matches Ok(step) && !step.terminate_path && step.findings@ == (if is_return_spec(instruction.opcode) {
                seq![instruction.offset]
            } else {
                Seq::<u32>::empty()
            }),
            *final(state) == *old(state),
    {
        Ok(scan_return(instruction))
    }
}

/// The handler has no catch type: it is a `finally` handler.
pub open spec fn has_finally_handler_at(m: Method, o: u32) -> bool {
    exists|h: int|
        0 <= h < m.exception_handlers@.len() && (#[trigger] m.exception_handlers@[h]).catch_type is None
            && m.exception_handlers@[h].handler_pc == o
}

/// The entry offsets of the method's `finally` handlers, ascending and each
/// once.
pub fn finally_handler_offsets(method: &Method) -> (res: Vec<u32>)
    ensures
        strictly_increasing(res@),
        forall|o: u32| res@.contains(o) <==> has_finally_handler_at(*method, o),
{
    let mut out: Vec<u32> = Vec::new();
    let mut i: usize = 0;
    while i < method.exception_handlers.len()
        invariant
            i <= method.exception_handlers@.len(),
            strictly_increasing(out@),
            forall|o: u32|
                out@.contains(o) <==> exists|h: int|
                    0 <= h < i && (#[trigger] method.exception_handlers@[h]).catch_type is None
                        && method.exception_handlers@[h].handler_pc == o,
        decreases method.exception_handlers.len() - i,
    {
        let handler = &method.exception_handlers[i];
        if handler.catch_type.is_none() {
            let ghost before = out@;
            insert_sorted_unique(&mut out, handler.handler_pc);
            proof {
                assert forall|o: u32|
                    out@.contains(o) <==> exists|h: int|
                        0 <= h < i + 1 && (#[trigger] method.exception_handlers@[h]).catch_type is None
                            && method.exception_handlers@[h].handler_pc == o by {
                    assert(out@.to_set().contains(o) == out@.contains(o));
                    assert(before.to_set().contains(o) == before.contains(o));
                    if exists|h: int|
                        0 <= h < i + 1 && (#[trigger] method.exception_handlers@[h]).catch_type is None
                            && method.exception_handlers@[h].handler_pc == o {
                        let h = choose|h: int|
                            0 <= h < i + 1 && (#[trigger] method.exception_handlers@[h]).catch_type is None
                                && method.exception_handlers@[h].handler_pc == o;
                        if h < i {
                            assert(before.contains(o));
                        }
                    }
                }
            }
        } else {
            proof {
                assert forall|o: u32|
                    out@.contains(o) <==> exists|h: int|
                        0 <= h < i + 1 && (#[trigger] method.exception_handlers@[h]).catch_type is None
                            && method.exception_handlers@[h].handler_pc == o by {
                    if exists|h: int|
                        0 <= h < i + 1 && (#[trigger] method.exception_handlers@[h]).catch_type is None
                            && method.exception_handlers@[h].handler_pc == o {
                        let h = choose|h: int|
                            0 <= h < i + 1 && (#[trigger] method.exception_handlers@[h]).catch_type is None
                                && method.exception_handlers@[h].handler_pc == o;
                        assert(h != i);
                    }
                }
            }
        }
        i = i + 1;
    }
    out
}

/// The offsets, ascending and each once, of the return instructions reached
/// from a handler entry.
pub fn return_offsets_in_handler(method: &Method, handler_pc: u32) -> (res: Result<Vec<u32>, AnalysisError>)
    ensures
        res matches Ok(v) ==> strictly_increasing(v@),
{
    let semantics = ReturnScanSemantics { handler_pc };
    let found = analyze_method(method, &semantics)?;
    let mut out: Vec<u32> = Vec::new();
    let mut i: usize = 0;
    while i < found.len()
        invariant
            i <= found@.len(),
            strictly_increasing(out@),
        decreases found.len() - i,
    {
        insert_sorted_unique(&mut out, found[i]);
        i = i + 1;
    }
    Ok(out)
}

/// The message of every finding.
pub open spec fn return_message() -> Seq<char> {
    "Return in finally overrides exceptions or prior returns. Move the return outside the finally block or return after the try/finally."@
}

/// The finding for a return at `offset` in method `m` of class `c`.
pub open spec fn return_finding(uri: Option<Seq<char>>, c: Class, m: Method, offset: u32) -> FindingView {
    FindingView {
        rule_id: None,
        message: return_message(),
        locations: seq![method_location_spec(
            c.name@,
            m.name@,
            m.descriptor@,
            uri,
            crate::ir::line_for_offset_spec(m.line_numbers@, offset),
        )],
    }
}

/// The finding reports a return in a method with bytecode and a `finally`
/// handler, of an analysis-target class.
pub open spec fn reports_return_in_finally(ctx: AnalysisContext, f: FindingView) -> bool {
    exists|ci: int, mi: int, offset: u32|
        #![trigger return_finding(ctx.class_uri(ctx.targets()[ci]), ctx.targets()[ci], ctx.targets()[ci].methods@[mi], offset)]
        0 <= ci < ctx.targets().len() && 0 <= mi < ctx.targets()[ci].methods@.len()
            && ctx.targets()[ci].methods@[mi].bytecode@.len() > 0
            && (exists|o: u32| has_finally_handler_at(ctx.targets()[ci].methods@[mi], o))
            && f == return_finding(ctx.class_uri(ctx.targets()[ci]), ctx.targets()[ci], ctx.targets()[ci].methods@[mi], offset)
}

/// Reports returns inside `finally` blocks.
#[derive(Clone, Copy, Debug)]
pub struct ReturnInFinallyRule;

impl ReturnInFinallyRule {
    /// The rule's id, name and description.
    pub fn metadata(&self) -> (res: RuleMetadata)
        ensures
            res.id@ == "RETURN_IN_FINALLY"@,
    {
        RuleMetadata {
            id: "RETURN_IN_FINALLY",
            name: "Return in finally",
            description: "Return statements in finally blocks override exceptions or prior returns",
        }
    }

    /// For each method with bytecode of the analysis-target classes: one
    /// finding per return instruction reached from a `finally` handler entry
    /// (handlers in ascending order, returns ascending within each, each
    /// return once per method).
    pub fn run(&self, context: &AnalysisContext) -> (res: Result<Vec<Finding>, AnalysisError>)
        ensures
            res matches Ok(v) ==> forall|i: int|
                0 <= i < v@.len() ==> reports_return_in_finally(*context, #[trigger] finding_views(v@)[i]),
    {
        let classes = context.analysis_target_classes();
        let mut results: Vec<Finding> = Vec::new();
        let mut ci: usize = 0;
        while ci < classes.len()
            invariant
                ci <= classes@.len(),
                classes@ == context.targets(),
                forall|i: int|
                    0 <= i < results@.len() ==> reports_return_in_finally(*context, #[trigger] finding_views(results@)[i]),
            decreases classes.len() - ci,
        {
            let class = &classes[ci];
            let uri = context.class_artifact_uri(class);
            let mut mi: usize = 0;
            while mi < class.methods.len()
                invariant
                    ci < classes@.len(),
                    classes@ == context.targets(),
                    *class == classes@[ci as int],
                    opt_view(uri) == context.class_uri(*class),
                    mi <= class.methods@.len(),
                    forall|i: int|
                        0 <= i < results@.len() ==> reports_return_in_finally(*context, #[trigger] finding_views(results@)[i]),
                decreases class.methods.len() - mi,
            {
                let method = &class.methods[mi];
                if method.bytecode.len() > 0 {
                    let handlers = finally_handler_offsets(method);
                    let mut seen: Vec<u32> = Vec::new();
                    let mut hi: usize = 0;
                    while hi < handlers.len()
                        invariant
                            ci < classes@.len(),
                            classes@ == context.targets(),
                            *class == classes@[ci as int],
                            mi < class.methods@.len(),
                            *method == class.methods@[mi as int],
                            method.bytecode@.len() > 0,
                            forall|o: u32| handlers@.contains(o) <==> has_finally_handler_at(*method, o),
                            opt_view(uri) == context.class_uri(*class),
                            hi <= handlers@.len(),
                            forall|i: int|
                                0 <= i < results@.len() ==> reports_return_in_finally(*context, #[trigger] finding_views(results@)[i]),
                        decreases handlers.len() - hi,
                    {
                        proof {
                            assert(handlers@.contains(handlers@[hi as int]));
                        }
                        let return_offsets = return_offsets_in_handler(method, handlers[hi])?;
                        let mut k: usize = 0;
                        while k < return_offsets.len()
                            invariant
                                ci < classes@.len(),
                                classes@ == context.targets(),
                                *class == classes@[ci as int],
                                mi < class.methods@.len(),
                                *method == class.methods@[mi as int],
                                method.bytecode@.len() > 0,
                                has_finally_handler_at(*method, handlers@[hi as int]),
                                opt_view(uri) == context.class_uri(*class),
                                k <= return_offsets@.len(),
                                forall|i: int|
                                    0 <= i < results@.len() ==> reports_return_in_finally(*context, #[trigger] finding_views(results@)[i]),
                            decreases return_offsets.len() - k,
                        {
                            let offset = return_offsets[k];
                            if !contains_u32(&seen, offset) {
                                seen.push(offset);
                                let line = method.line_for_offset(offset);
                                let artifact_uri: Option<&str> = match &uri {
                                    Some(s) => Some(s.as_str()),
                                    None => None,
                                };
                                let location = method_location_with_line(
                                    class.name.as_str(),
                                    method.name.as_str(),
                                    method.descriptor.as_str(),
                                    artifact_uri,
                                    line,
                                );
                                let message = "Return in finally overrides exceptions or prior returns. Move the return outside the finally block or return after the try/finally.".to_owned();
                                let f = finding(message, location);
                                proof {
                                    assert(f@ == return_finding(context.class_uri(*class), *class, *method, offset));
                                    assert(context.targets()[ci as int].methods@[mi as int] == *method);
                                    assert(reports_return_in_finally(*context, f@));
                                }
                                let ghost prev = finding_views(results@);
                                let ghost fv = f@;
                                push_finding(&mut results, f);
                                proof {
                                    assert(finding_views(results@) == prev.push(fv));
                                    assert(finding_views(results@).len() == prev.len() + 1);
                                    assert forall|i: int| 0 <= i < results@.len() implies reports_return_in_finally(
                                        *context,
                                        #[trigger] finding_views(results@)[i],
                                    ) by {
                                        if i < prev.len() {
                                            assert(finding_views(results@)[i] == prev[i]);
                                        } else {
                                            assert(finding_views(results@)[i] == fv);
                                        }
                                    }
                                }
                            }
                            k = k + 1;
                        }
                        hi = hi + 1;
                    }
                }
                mi = mi + 1;
            }
            ci = ci + 1;
        }
        Ok(results)
    }
}

} // verus!
