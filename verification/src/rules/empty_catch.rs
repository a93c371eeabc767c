//! Reports exception handlers whose entry block does nothing meaningful.
use vstd::prelude::*;
use crate::engine::{AnalysisContext, opt_view};
use crate::error::AnalysisError;
use crate::flatten::{concat_map, lemma_concat_map_empty, lemma_concat_map_full, lemma_concat_map_step};
use crate::ir::{BasicBlock, Class, ExceptionHandler, Instruction, Method, line_for_offset_spec};
use crate::opcodes;
use crate::rules::location::{
    Finding, FindingView, RuleMetadata, finding, finding_spec, finding_views, method_location_spec,
    method_location_with_line, push_finding,
};
use crate::rules::prefer_enumset::context_classes;

verus! {

/// An instruction that does nothing meaningful in a handler: a no-op, storing
/// or dropping the exception, a jump, a return or a rethrow.
pub open spec fn is_trivial_spec(op: u8) -> bool {
    ||| op == opcodes::NOP
    ||| op == opcodes::ASTORE
    ||| (opcodes::ASTORE_0 <= op <= opcodes::ASTORE_3)
    ||| op == opcodes::POP
    ||| op == opcodes::GOTO
    ||| op == opcodes::JSR
    ||| (opcodes::IRETURN <= op <= opcodes::RETURN)
    ||| op == opcodes::ATHROW
}

/// Whether the opcode is trivial in a handler.
pub fn is_trivial_opcode(op: u8) -> (res: bool)
    ensures
        res == is_trivial_spec(op),
{
    op == opcodes::NOP || op == opcodes::ASTORE || (opcodes::ASTORE_0 <= op && op <= opcodes::ASTORE_3) || op
        == opcodes::POP || op == opcodes::GOTO || op == opcodes::JSR || (opcodes::IRETURN <= op && op
        <= opcodes::RETURN) || op == opcodes::ATHROW
}

/// Every instruction of the block is trivial.
pub open spec fn empty_block(b: BasicBlock) -> bool {
    forall|i: int| 0 <= i < b.instructions@.len() ==> is_trivial_spec(#[trigger] b.instructions@[i].opcode)
}

/// Whether every instruction is trivial (an empty list is).
pub fn is_empty_handler(instructions: &[Instruction]) -> (res: bool)
    ensures
        res == forall|i: int| 0 <= i < instructions@.len() ==> is_trivial_spec(#[trigger] instructions@[i].opcode),
{
    let mut i: usize = 0;
    while i < instructions.len()
        invariant
            i <= instructions@.len(),
            forall|k: int| 0 <= k < i ==> is_trivial_spec(#[trigger] instructions@[k].opcode),
        decreases instructions.len() - i,
    {
        if !is_trivial_opcode(instructions[i].opcode) {
            return false;
        }
        i = i + 1;
    }
    true
}

/// Block `k` is the first block of the method starting at `pc`.
pub open spec fn first_block_at(m: Method, pc: u32, k: int) -> bool {
    &&& 0 <= k < m.cfg.blocks@.len()
    &&& m.cfg.blocks@[k].start_offset == pc
    &&& forall|j: int| 0 <= j < k ==> (#[trigger] m.cfg.blocks@[j]).start_offset != pc
}

/// The first block of the method starting at `pc`, if any.
pub open spec fn handler_block(m: Method, pc: u32) -> Option<int> {
    if exists|k: int| first_block_at(m, pc, k) {
        Some(choose|k: int| first_block_at(m, pc, k))
    } else {
        None
    }
}

/// The first block of the method starting at `pc`, if any.
pub fn find_block(method: &Method, pc: u32) -> (res: Option<usize>)
    ensures
        match res {
            Some(k) => handler_block(*method, pc) == Some(k as int) && k < method.cfg.blocks@.len(),
            None => handler_block(*method, pc) is None,
        },
{
    let mut k: usize = 0;
    while k < method.cfg.blocks.len()
        invariant
            k <= method.cfg.blocks@.len(),
            forall|j: int| 0 <= j < k ==> (#[trigger] method.cfg.blocks@[j]).start_offset != pc,
        decreases method.cfg.blocks.len() - k,
    {
        if method.cfg.blocks[k].start_offset == pc {
            proof {
                assert(first_block_at(*method, pc, k as int));
                let c = choose|c: int| first_block_at(*method, pc, c);
                if c < k {
                    assert(method.cfg.blocks@[c].start_offset != pc);
                } else if c > k {
                    assert(method.cfg.blocks@[k as int].start_offset != pc);
                }
            }
            return Some(k);
        }
        k = k + 1;
    }
    None
}

/// The message for a method.
pub open spec fn empty_catch_message(c: Class, m: Method) -> Seq<char> {
    "Empty catch block in "@ + c.name@ + "."@ + m.name@ + m.descriptor@
}

/// The finding for a handler whose entry block is empty.
pub open spec fn handler_findings(uri: Option<Seq<char>>, c: Class, m: Method, h: ExceptionHandler) -> Seq<FindingView> {
    match handler_block(m, h.handler_pc) {
        Some(k) => if empty_block(m.cfg.blocks@[k]) {
            seq![finding_spec(
                empty_catch_message(c, m),
                method_location_spec(c.name@, m.name@, m.descriptor@, uri, line_for_offset_spec(m.line_numbers@, h.handler_pc)),
            )]
        } else {
            Seq::empty()
        },
        None => Seq::empty(),
    }
}

/// The findings for a method's handlers, in order.
pub open spec fn method_catch_findings(uri: Option<Seq<char>>, c: Class, m: Method) -> Seq<FindingView> {
    concat_map(m.exception_handlers@, |h: ExceptionHandler| handler_findings(uri, c, m, h))
}

/// The findings for a class's methods, in order.
pub open spec fn class_catch_findings(uri: Option<Seq<char>>, c: Class) -> Seq<FindingView> {
    concat_map(c.methods@, |m: Method| method_catch_findings(uri, c, m))
}

/// The rule's findings over every class of the context, in order.
pub open spec fn empty_catch_findings(ctx: AnalysisContext) -> Seq<FindingView> {
    concat_map(context_classes(ctx), |c: Class| class_catch_findings(ctx.class_uri(c), c))
}

/// Appends the finding for a handler, if its entry block is empty.
pub fn scan_handler(uri: &Option<String>, class: &Class, method: &Method, handler: &ExceptionHandler, results: &mut Vec<Finding>)
    ensures
        finding_views(final(results)@) == finding_views(old(results)@) + handler_findings(
            opt_view(*uri),
            *class,
            *method,
            *handler,
        ),
{
    let ghost start = finding_views(results@);
    match find_block(method, handler.handler_pc) {
        Some(k) => {
            let empty = is_empty_handler(method.cfg.blocks[k].instructions.as_slice());
            assert(handler_block(*method, handler.handler_pc) == Some(k as int));
            assert(empty == empty_block(method.cfg.blocks@[k as int]));
            if empty {
                let mut message = "Empty catch block in ".to_owned();
                message.append(class.name.as_str());
                message.append(".");
                message.append(method.name.as_str());
                message.append(method.descriptor.as_str());
                let line = method.line_for_offset(handler.handler_pc);
                let artifact_uri: Option<&str> = match uri {
                    Some(s) => Some(s.as_str()),
                    None => None,
                };
                let location = method_location_with_line(
                    class.name.as_str(),
                    method.name.as_str(),
                    method.descriptor.as_str(),
                    artifact_uri,
                    line,
                );
                let f = finding(message, location);
                assert(f@ == finding_spec(
                    empty_catch_message(*class, *method),
                    method_location_spec(
                        class.name@,
                        method.name@,
                        method.descriptor@,
                        opt_view(*uri),
                        line_for_offset_spec(method.line_numbers@, handler.handler_pc),
                    ),
                ));
                push_finding(results, f);
                assert(finding_views(results@) =~= start + handler_findings(opt_view(*uri), *class, *method, *handler));
            } else {
                assert(finding_views(results@) =~= start + handler_findings(opt_view(*uri), *class, *method, *handler));
            }
        },
        None => {
            assert(handler_block(*method, handler.handler_pc) is None);
            assert(finding_views(results@) =~= start + handler_findings(opt_view(*uri), *class, *method, *handler));
        },
    }
}

/// Appends the findings for a class's methods.
pub fn scan_class(uri: &Option<String>, class: &Class, results: &mut Vec<Finding>)
    ensures
        finding_views(final(results)@) == finding_views(old(results)@) + class_catch_findings(opt_view(*uri), *class),
{
    let ghost start = finding_views(results@);
    let ghost u = opt_view(*uri);
    let ghost gm = |m: Method| method_catch_findings(u, *class, m);
    proof {
        lemma_concat_map_empty(class.methods@, gm);
        assert(start + concat_map(class.methods@.take(0), gm) =~= start);
    }
    let mut j: usize = 0;
    while j < class.methods.len()
        invariant
            j <= class.methods@.len(),
            u == opt_view(*uri),
            gm == (|m: Method| method_catch_findings(u, *class, m)),
            finding_views(results@) == start + concat_map(class.methods@.take(j as int), gm),
        decreases class.methods.len() - j,
    {
        let method = &class.methods[j];
        let ghost mid = finding_views(results@);
        let ghost gh = |h: ExceptionHandler| handler_findings(u, *class, *method, h);
        proof {
            lemma_concat_map_step(class.methods@, gm, j as int);
            lemma_concat_map_empty(method.exception_handlers@, gh);
            assert(mid + concat_map(method.exception_handlers@.take(0), gh) =~= mid);
        }
        let mut k: usize = 0;
        while k < method.exception_handlers.len()
            invariant
                k <= method.exception_handlers@.len(),
                u == opt_view(*uri),
                gh == (|h: ExceptionHandler| handler_findings(u, *class, *method, h)),
                finding_views(results@) == mid + concat_map(method.exception_handlers@.take(k as int), gh),
            decreases method.exception_handlers.len() - k,
        {
            proof {
                lemma_concat_map_step(method.exception_handlers@, gh, k as int);
            }
            scan_handler(uri, class, method, &method.exception_handlers[k], results);
            proof {
                assert(finding_views(results@) =~= mid + concat_map(method.exception_handlers@.take(k + 1), gh));
            }
            k = k + 1;
        }
        proof {
            lemma_concat_map_full(method.exception_handlers@, gh);
            assert(finding_views(results@) =~= start + concat_map(class.methods@.take(j + 1), gm));
        }
        j = j + 1;
    }
    proof {
        lemma_concat_map_full(class.methods@, gm);
    }
}

/// Reports exception handlers whose entry block does nothing meaningful.
#[derive(Clone, Copy, Debug)]
pub struct EmptyCatchRule;

impl EmptyCatchRule {
    /// The rule's id, name and description.
    pub fn metadata(&self) -> (res: RuleMetadata)
        ensures
            res.id@ == "EMPTY_CATCH"@,
    {
        RuleMetadata {
            id: "EMPTY_CATCH",
            name: "Empty catch block",
            description: "Catch blocks with no meaningful instructions",
        }
    }

    /// For every class of the context (targets, then dependencies), each
    /// method and each handler in order: one finding when the first block
    /// starting at the handler entry holds only trivial instructions.
    pub fn run(&self, context: &AnalysisContext) -> (res: Result<Vec<Finding>, AnalysisError>)
        ensures
            res matches Ok(v) && finding_views(v@) == empty_catch_findings(*context),
    {
        let classes = context.all_classes();
        let ghost cc = context_classes(*context);
        let ghost g = |c: Class| class_catch_findings(context.class_uri(c), c);
        proof {
            assert forall|j: int| 0 <= j < cc.len() implies *classes@[j] == cc[j] by {
                if j >= context.targets().len() {
                    assert(*classes@[context.targets().len() + (j - context.targets().len())]
                        == context.dependencies()[j - context.targets().len()]);
                }
            }
        }
        let mut results: Vec<Finding> = Vec::new();
        proof {
            lemma_concat_map_empty(cc, g);
            assert(finding_views(results@) =~= Seq::<FindingView>::empty());
        }
        let mut i: usize = 0;
        while i < classes.len()
            invariant
                i <= classes@.len(),
                classes@.len() == cc.len(),
                forall|j: int| 0 <= j < cc.len() ==> *classes@[j] == cc[j],
                g == (|c: Class| class_catch_findings(context.class_uri(c), c)),
                finding_views(results@) == concat_map(cc.take(i as int), g),
            decreases classes.len() - i,
        {
            let class: &Class = classes[i];
            let uri = context.class_artifact_uri(class);
            proof {
                lemma_concat_map_step(cc, g, i as int);
            }
            scan_class(&uri, class, &mut results);
            proof {
                assert(finding_views(results@) =~= concat_map(cc.take(i + 1), g));
            }
            i = i + 1;
        }
        proof {
            lemma_concat_map_full(cc, g);
        }
        Ok(results)
    }
}

} // verus!
