//! The interrupt-status rule with its own walk: whole blocks, breadth first
//! from the handler entry, over the method's edges.
use vstd::prelude::*;
use crate::dataflow::worklist::{collect_successors, edge_targets, last_block_with_start, strictly_increasing};
use crate::engine::{AnalysisContext, opt_view};
use crate::error::AnalysisError;
use crate::flatten::contains_u32;
use crate::ir::{Class, FlowEdge, Instruction, Method};
use crate::rules::nullness::{block_for, lemma_last_block_unique, starts_at};
use crate::rules::call_scan::method_message;
use crate::rules::interrupted_exception::{
    handler_finding, handler_restores_interrupt, interrupted_catch_spec, is_interrupted_exception_handler, restores_from,
    reports_interrupted_handler,
};
use crate::rules::location::{Finding, FindingView, RuleMetadata, finding, finding_views, method_location_with_line, push_finding};
use std::collections::{BTreeMap, VecDeque};

verus! {

broadcast use vstd::std_specs::btree::group_btree_axioms;

/// Each block start of the method, mapped to the last block with that start.
pub fn block_map(method: &Method) -> (res: BTreeMap<u32, usize>)
    ensures
        forall|b: u32| #[trigger] res@.contains_key(b) == exists|i: int|
            0 <= i < method.cfg.blocks@.len() && method.cfg.blocks@[i].start_offset == b,
        forall|b: u32| #[trigger] res@.contains_key(b) ==> last_block_with_start(
            method.cfg.blocks@,
            b,
            res@[b] as int,
        ),
{
    let blocks = &method.cfg.blocks;
    let mut map: BTreeMap<u32, usize> = BTreeMap::new();
    let mut i: usize = 0;
    while i < blocks.len()
        invariant
            i <= blocks@.len(),
            blocks@ == method.cfg.blocks@,
            forall|b: u32| #[trigger] map@.contains_key(b) == exists|k: int|
                0 <= k < i && blocks@[k].start_offset == b,
            forall|b: u32| #[trigger] map@.contains_key(b) ==> last_block_with_start(
                blocks@.subrange(0, i as int),
                b,
                map@[b] as int,
            ),
        decreases blocks.len() - i,
    {
        let start = blocks[i].start_offset;
        let ghost prev = map@;
        map.insert(start, i);
        proof {
            let sub = blocks@.subrange(0, i + 1);
            assert forall|b: u32| #[trigger] map@.contains_key(b) implies last_block_with_start(
                sub,
                b,
                map@[b] as int,
            ) by {
                if b != start {
                    assert(last_block_with_start(blocks@.subrange(0, i as int), b, prev[b] as int));
                    assert(sub[prev[b] as int] == blocks@.subrange(0, i as int)[prev[b] as int]);
                }
            }
            assert forall|b: u32| #[trigger] map@.contains_key(b) == exists|k: int|
                0 <= k < i + 1 && blocks@[k].start_offset == b by {
                if b == start {
                    assert(blocks@[i as int].start_offset == b);
                }
            }
        }
        i = i + 1;
    }
    assert(blocks@.subrange(0, blocks@.len() as int) =~= blocks@);
    map
}

/// Each edge source of the method, mapped to its edge targets, ascending and
/// without repeats.
pub fn edge_map(method: &Method) -> (res: BTreeMap<u32, Vec<u32>>)
    ensures
        forall|b: u32| #[trigger] res@.contains_key(b) == exists|i: int|
            0 <= i < method.cfg.edges@.len() && method.cfg.edges@[i].from == b,
        forall|b: u32| #[trigger] res@.contains_key(b) ==> strictly_increasing(res@[b]@)
            && res@[b]@.to_set() == edge_targets(method.cfg.edges@, b),
{
    let edges = &method.cfg.edges;
    let mut map: BTreeMap<u32, Vec<u32>> = BTreeMap::new();
    let mut j: usize = 0;
    while j < edges.len()
        invariant
            j <= edges@.len(),
            edges@ == method.cfg.edges@,
            forall|b: u32| #[trigger] map@.contains_key(b) == exists|k: int|
                0 <= k < j && edges@[k].from == b,
            forall|b: u32| #[trigger] map@.contains_key(b) ==> strictly_increasing(map@[b]@)
                && map@[b]@.to_set() == edge_targets(method.cfg.edges@, b),
        decreases edges.len() - j,
    {
        let from = edges[j].from;
        if !map.contains_key(&from) {
            let targets = collect_successors(edges.as_slice(), from);
            let ghost prev = map@;
            map.insert(from, targets);
            proof {
                assert forall|b: u32| #[trigger] map@.contains_key(b) implies strictly_increasing(map@[b]@)
                    && map@[b]@.to_set() == edge_targets(method.cfg.edges@, b) by {
                    if b != from {
                        assert(prev.contains_key(b));
                    }
                }
            }
        }
        proof {
            assert forall|b: u32| #[trigger] map@.contains_key(b) == exists|k: int|
                0 <= k < j + 1 && edges@[k].from == b by {
                if b == from {
                    assert(edges@[j as int].from == b);
                }
            }
        }
        j = j + 1;
    }
    map
}

/// `ins` is an instruction of one of the method's blocks.
pub open spec fn in_blocks(method: Method, ins: Instruction) -> bool {
    exists|b: int, k: int|
        0 <= b < method.cfg.blocks@.len() && 0 <= k < method.cfg.blocks@[b].instructions@.len() && ins
            == method.cfg.blocks@[b].instructions@[k]
}

/// The targets of the edges out of `b`, ascending and without repeats.
pub open spec fn sorted_targets(edges: Seq<FlowEdge>, b: u32) -> Seq<u32> {
    choose|t: Seq<u32>| strictly_increasing(t) && t.to_set() == edge_targets(edges, b)
}

/// Two ascending sequences without repeats that hold the same values are
/// equal.
pub proof fn lemma_sorted_unique(a: Seq<u32>, b: Seq<u32>)
    requires
        strictly_increasing(a),
        strictly_increasing(b),
        a.to_set() == b.to_set(),
    ensures
        a == b,
    decreases a.len(),
{
    if a.len() == 0 {
        if b.len() > 0 {
            assert(b.to_set().contains(b[0]));
            assert(a.to_set().contains(b[0]));
        }
        assert(a =~= b);
    } else if b.len() == 0 {
        assert(a.to_set().contains(a[0]));
        assert(b.to_set().contains(a[0]));
    } else {
        assert(a.to_set().contains(a[0]));
        assert(b.to_set().contains(a[0]));
        assert(b.to_set().contains(b[0]));
        assert(a.to_set().contains(b[0]));
        let ka = choose|k: int| 0 <= k < b.len() && b[k] == a[0];
        let kb = choose|k: int| 0 <= k < a.len() && a[k] == b[0];
        if ka > 0 {
            assert(b[0] < b[ka]);
        }
        if kb > 0 {
            assert(a[0] < a[kb]);
        }
        assert(a[0] == b[0]);
        let ra = a.drop_first();
        let rb = b.drop_first();
        assert forall|x: u32| ra.to_set().contains(x) implies rb.to_set().contains(x) by {
            let k = choose|k: int| 0 <= k < ra.len() && ra[k] == x;
            assert(a[k + 1] == x);
            assert(a[0] < a[k + 1]);
            assert(a.to_set().contains(x));
            let kk = choose|kk: int| 0 <= kk < b.len() && b[kk] == x;
            assert(kk != 0);
            assert(rb[kk - 1] == x);
        }
        assert forall|x: u32| rb.to_set().contains(x) implies ra.to_set().contains(x) by {
            let k = choose|k: int| 0 <= k < rb.len() && rb[k] == x;
            assert(b[k + 1] == x);
            assert(b[0] < b[k + 1]);
            assert(b.to_set().contains(x));
            let kk = choose|kk: int| 0 <= kk < a.len() && a[kk] == x;
            assert(kk != 0);
            assert(ra[kk - 1] == x);
        }
        assert(ra.to_set() =~= rb.to_set());
        lemma_sorted_unique(ra, rb);
        assert(a =~= seq![a[0]] + ra);
        assert(b =~= seq![b[0]] + rb);
    }
}

/// An ascending sequence without repeats of the targets out of `b` is the
/// one `sorted_targets` names.
pub proof fn lemma_sorted_targets(edges: Seq<FlowEdge>, b: u32, t: Seq<u32>)
    requires
        strictly_increasing(t),
        t.to_set() == edge_targets(edges, b),
    ensures
        sorted_targets(edges, b) == t,
{
    let s = sorted_targets(edges, b);
    assert(strictly_increasing(s) && s.to_set() == edge_targets(edges, b));
    lemma_sorted_unique(s, t);
}

/// Those of `s` that start a block of `m`, in order.
pub open spec fn block_starts_among(m: Method, s: Seq<u32>) -> Seq<u32>
    decreases s.len(),
{
    if s.len() == 0 {
        s
    } else {
        let rest = block_starts_among(m, s.drop_last());
        if starts_at(m.cfg.blocks@, s.last()) {
            rest.push(s.last())
        } else {
            rest
        }
    }
}

/// The breadth-first walk over whole blocks from `queue`, with `fuel` steps
/// left: a start visited before is skipped; otherwise it is marked visited
/// and, when a block starts there, that block's instructions are collected
/// and the successors that start blocks are queued, ascending.
pub open spec fn reach_walk(m: Method, fuel: nat, queue: Seq<u32>, visited: Seq<u32>, out: Seq<Instruction>) -> Seq<Instruction>
    decreases fuel,
{
    if fuel == 0 || queue.len() == 0 {
        out
    } else {
        let o = queue[0];
        let rest = queue.drop_first();
        if visited.contains(o) {
            reach_walk(m, (fuel - 1) as nat, rest, visited, out)
        } else if !starts_at(m.cfg.blocks@, o) {
            reach_walk(m, (fuel - 1) as nat, rest, visited.push(o), out)
        } else {
            reach_walk(
                m,
                (fuel - 1) as nat,
                rest + block_starts_among(m, sorted_targets(m.cfg.edges@, o)),
                visited.push(o),
                out + block_for(m.cfg.blocks@, o).instructions@,
            )
        }
    }
}

/// The instructions reached from handler entry `h`: none when no block
/// starts there; else the walk from it, with `u64::MAX` steps.
pub open spec fn reachable_spec(m: Method, h: u32) -> Seq<Instruction> {
    if !starts_at(m.cfg.blocks@, h) {
        Seq::empty()
    } else {
        reach_walk(m, u64::MAX as nat, seq![h], Seq::empty(), Seq::empty())
    }
}

/// The values of some instruction references.
pub open spec fn derefs(v: Seq<&Instruction>) -> Seq<Instruction> {
    v.map_values(|i: &Instruction| *i)
}

/// The instructions of the blocks reachable from the handler entry, block by
/// block in breadth-first order (successors ascending), each block once.
#[verifier::spinoff_prover]
#[verifier::rlimit(50)]
pub fn collect_reachable_instructions<'a>(method: &'a Method, handler_pc: u32) -> (res: Vec<
    &'a Instruction,
>)
    ensures
        derefs(res@) == reachable_spec(*method, handler_pc),
        forall|i: int|
            0 <= i < res@.len() ==> in_blocks(*method, *#[trigger] res@[i]),
{
    let blocks = block_map(method);
    let mut instructions: Vec<&Instruction> = Vec::new();
    if !blocks.contains_key(&handler_pc) {
        proof {
            assert(!starts_at(method.cfg.blocks@, handler_pc));
            assert(derefs(instructions@) =~= Seq::<Instruction>::empty());
        }
        return instructions;
    }
    let edges = edge_map(method);
    let mut visited: Vec<u32> = Vec::new();
    let mut queue: VecDeque<u32> = VecDeque::new();
    queue.push_back(handler_pc);
    let mut steps: u64 = 0;
    proof {
        assert(starts_at(method.cfg.blocks@, handler_pc));
        assert(derefs(instructions@) =~= Seq::<Instruction>::empty());
        assert(queue@ =~= seq![handler_pc]);
        assert(visited@ =~= Seq::<u32>::empty());
    }
    while steps < u64::MAX
        invariant
            forall|b: u32| #[trigger] blocks@.contains_key(b) == starts_at(method.cfg.blocks@, b),
            forall|b: u32| #[trigger] blocks@.contains_key(b) ==> last_block_with_start(
                method.cfg.blocks@,
                b,
                blocks@[b] as int,
            ),
            forall|b: u32| #[trigger] edges@.contains_key(b) == exists|i: int|
                0 <= i < method.cfg.edges@.len() && method.cfg.edges@[i].from == b,
            forall|b: u32| #[trigger] edges@.contains_key(b) ==> strictly_increasing(edges@[b]@)
                && edges@[b]@.to_set() == edge_targets(method.cfg.edges@, b),
            reach_walk(*method, (u64::MAX - steps) as nat, queue@, visited@, derefs(instructions@))
                == reachable_spec(*method, handler_pc),
            forall|i: int|
                0 <= i < instructions@.len() ==> in_blocks(*method, *#[trigger] instructions@[i]),
        decreases u64::MAX - steps,
    {
        let ghost q = queue@;
        let ghost found0 = derefs(instructions@);
        steps = steps + 1;
        let offset = match queue.pop_front() {
            Some(o) => o,
            None => {
                return instructions;
            },
        };
        proof {
            assert(q[0] == offset && queue@ =~= q.drop_first());
        }
        if contains_u32(&visited, offset) {
            continue;
        }
        visited.push(offset);
        let index = match blocks.get(&offset) {
            Some(i) => *i,
            None => {
                continue;
            },
        };
        assert(last_block_with_start(method.cfg.blocks@, offset, index as int));
        proof {
            lemma_last_block_unique(method.cfg.blocks@, offset, index as int);
        }
        let block = &method.cfg.blocks[index];
        let mut k: usize = 0;
        proof {
            assert(derefs(instructions@) =~= found0 + block.instructions@.subrange(0, 0));
        }
        while k < block.instructions.len()
            invariant
                index < method.cfg.blocks@.len(),
                *block == method.cfg.blocks@[index as int],
                k <= block.instructions@.len(),
                derefs(instructions@) == found0 + block.instructions@.subrange(0, k as int),
                forall|i: int|
                    0 <= i < instructions@.len() ==> in_blocks(*method, *#[trigger] instructions@[i]),
            decreases block.instructions.len() - k,
        {
            let ghost prev = instructions@;
            instructions.push(&block.instructions[k]);
            proof {
                assert forall|i: int| 0 <= i < instructions@.len() implies in_blocks(*method, *#[trigger] instructions@[i]) by {
                    if i < prev.len() {
                        assert(instructions@[i] == prev[i]);
                    } else {
                        assert(*instructions@[i] == method.cfg.blocks@[index as int].instructions@[k as int]);
                    }
                }
                assert(*instructions@[prev.len() as int] == block.instructions@[k as int]);
                assert(derefs(instructions@) =~= derefs(prev).push(block.instructions@[k as int]));
                assert(block.instructions@.subrange(0, k + 1) =~= block.instructions@.subrange(0, k as int).push(block.instructions@[k as int]));
                assert(derefs(instructions@) =~= found0 + block.instructions@.subrange(0, k + 1));
            }
            k = k + 1;
        }
        proof {
            assert(block.instructions@.subrange(0, k as int) =~= block.instructions@);
        }
        let ghost q1 = queue@;
        match edges.get(&offset) {
            Some(next_blocks) => {
                proof {
                    lemma_sorted_targets(method.cfg.edges@, offset, next_blocks@);
                    assert(next_blocks@.subrange(0, 0) =~= Seq::<u32>::empty());
                    assert(q1 + block_starts_among(*method, next_blocks@.subrange(0, 0)) =~= q1);
                }
                let mut n: usize = 0;
                while n < next_blocks.len()
                    invariant
                        n <= next_blocks@.len(),
                        forall|b: u32| #[trigger] blocks@.contains_key(b) == starts_at(method.cfg.blocks@, b),
                        queue@ == q1 + block_starts_among(*method, next_blocks@.subrange(0, n as int)),
                    decreases next_blocks.len() - n,
                {
                    let next = next_blocks[n];
                    proof {
                        assert(next_blocks@.subrange(0, n + 1).drop_last() =~= next_blocks@.subrange(0, n as int));
                    }
                    if blocks.contains_key(&next) {
                        queue.push_back(next);
                    }
                    proof {
                        assert(queue@ =~= q1 + block_starts_among(*method, next_blocks@.subrange(0, n + 1)));
                    }
                    n = n + 1;
                }
                proof {
                    assert(next_blocks@.subrange(0, n as int) =~= next_blocks@);
                }
            },
            None => {
                proof {
                    assert(edge_targets(method.cfg.edges@, offset) =~= Seq::<u32>::empty().to_set());
                    lemma_sorted_targets(method.cfg.edges@, offset, Seq::<u32>::empty());
                    assert(queue@ =~= q1 + block_starts_among(*method, Seq::<u32>::empty()));
                }
            },
        }
    }
    instructions
}

/// The handled entries and the findings of method `m` of `c` over its first
/// `k` handlers: each entry that catches `InterruptedException` is handled
/// once, and reported when the blocks reachable from it do not restore the
/// interrupt status.
pub open spec fn handler_walk(uri: Option<Seq<char>>, c: Class, m: Method, k: int) -> (Seq<u32>, Seq<FindingView>)
    decreases k,
{
    if k <= 0 {
        (Seq::empty(), Seq::empty())
    } else {
        let (handled, found) = handler_walk(uri, c, m, k - 1);
        let h = m.exception_handlers@[k - 1];
        if interrupted_catch_spec(opt_view(h.catch_type)) && !handled.contains(h.handler_pc) {
            (
                handled.push(h.handler_pc),
                if !restores_from(reachable_spec(m, h.handler_pc), false) {
                    found.push(handler_finding(uri, c, m, h.handler_pc))
                } else {
                    found
                },
            )
        } else {
            (handled, found)
        }
    }
}

/// The findings of the first `k` methods of `c` that have bytecode.
pub open spec fn blocks_class_findings(uri: Option<Seq<char>>, c: Class, k: int) -> Seq<FindingView>
    decreases k,
{
    if k <= 0 {
        Seq::empty()
    } else {
        let m = c.methods@[k - 1];
        blocks_class_findings(uri, c, k - 1) + if m.bytecode@.len() > 0 {
            handler_walk(uri, c, m, m.exception_handlers@.len() as int).1
        } else {
            Seq::empty()
        }
    }
}

/// The findings of the first `k` analysis-target classes.
pub open spec fn blocks_targets_findings(ctx: AnalysisContext, k: int) -> Seq<FindingView>
    decreases k,
{
    if k <= 0 {
        Seq::empty()
    } else {
        let c = ctx.targets()[k - 1];
        blocks_targets_findings(ctx, k - 1) + blocks_class_findings(ctx.class_uri(c), c, c.methods@.len() as int)
    }
}

/// The interrupt-status rule, walking whole blocks from each handler entry.
#[derive(Clone, Copy, Debug)]
pub struct InterruptedExceptionBlockRule;

impl InterruptedExceptionBlockRule {
    /// The rule's id, name and description.
    pub fn metadata(&self) -> (res: RuleMetadata)
        ensures
            res.id@ == "INTERRUPTED_EXCEPTION_NOT_RESTORED"@,
    {
        RuleMetadata {
            id: "INTERRUPTED_EXCEPTION_NOT_RESTORED",
            name: "InterruptedException not properly handled",
            description: "Restore interrupt status when catching InterruptedException",
        }
    }

    /// One finding per handler entry (each entry offset once per method) that
    /// catches `InterruptedException` and, on the blocks reachable from it,
    /// neither rethrows nor calls `Thread.currentThread().interrupt()`.
    #[verifier::spinoff_prover]
    #[verifier::rlimit(50)]
    pub fn run(&self, context: &AnalysisContext) -> (res: Result<Vec<Finding>, AnalysisError>)
        ensures
            res matches Ok(v) && finding_views(v@) == blocks_targets_findings(*context, context.targets().len() as int),
            res matches Ok(v) && forall|i: int|
                0 <= i < v@.len() ==> reports_interrupted_handler(*context, #[trigger] finding_views(v@)[i]),
    {
        let classes = context.analysis_target_classes();
        let mut results: Vec<Finding> = Vec::new();
        let mut ci: usize = 0;
        proof {
            assert(finding_views(results@) =~= Seq::<FindingView>::empty());
        }
        while ci < classes.len()
            invariant
                ci <= classes@.len(),
                classes@ == context.targets(),
                finding_views(results@) == blocks_targets_findings(*context, ci as int),
                forall|i: int|
                    0 <= i < results@.len() ==> reports_interrupted_handler(
                        *context,
                        #[trigger] finding_views(results@)[i],
                    ),
            decreases classes.len() - ci,
        {
            let class = &classes[ci];
            let uri = context.class_artifact_uri(class);
            let ghost before_class = finding_views(results@);
            let mut mi: usize = 0;
            proof {
                assert(before_class + blocks_class_findings(opt_view(uri), *class, 0) =~= before_class);
            }
            while mi < class.methods.len()
                invariant
                    ci < classes@.len(),
                    classes@ == context.targets(),
                    *class == classes@[ci as int],
                    opt_view(uri) == context.class_uri(*class),
                    mi <= class.methods@.len(),
                    finding_views(results@) == before_class + blocks_class_findings(opt_view(uri), *class, mi as int),
                    forall|i: int|
                        0 <= i < results@.len() ==> reports_interrupted_handler(
                            *context,
                            #[trigger] finding_views(results@)[i],
                        ),
                decreases class.methods.len() - mi,
            {
                let method = &class.methods[mi];
                let ghost before_method = finding_views(results@);
                if method.bytecode.len() > 0 {
                    let mut handled: Vec<u32> = Vec::new();
                    let mut hi: usize = 0;
                    proof {
                        assert(handled@ =~= handler_walk(opt_view(uri), *class, *method, 0).0);
                        assert(before_method + handler_walk(opt_view(uri), *class, *method, 0).1 =~= before_method);
                    }
                    while hi < method.exception_handlers.len()
                        invariant
                            handled@ == handler_walk(opt_view(uri), *class, *method, hi as int).0,
                            finding_views(results@) == before_method + handler_walk(opt_view(uri), *class, *method, hi as int).1,
                            ci < classes@.len(),
                            classes@ == context.targets(),
                            *class == classes@[ci as int],
                            mi < class.methods@.len(),
                            *method == class.methods@[mi as int],
                            method.bytecode@.len() > 0,
                            opt_view(uri) == context.class_uri(*class),
                            hi <= method.exception_handlers@.len(),
                            forall|i: int|
                                0 <= i < results@.len() ==> reports_interrupted_handler(
                                    *context,
                                    #[trigger] finding_views(results@)[i],
                                ),
                        decreases method.exception_handlers.len() - hi,
                    {
                        let handler = &method.exception_handlers[hi];
                        let ghost walk0 = handler_walk(opt_view(uri), *class, *method, hi as int);
                        let catch_type: Option<&str> = match &handler.catch_type {
                            Some(t) => Some(t.as_str()),
                            None => None,
                        };
                        if is_interrupted_exception_handler(catch_type) && !contains_u32(&handled, handler.handler_pc) {
                            handled.push(handler.handler_pc);
                            let instructions = collect_reachable_instructions(method, handler.handler_pc);
                            proof {
                                assert(instructions@.map_values(|i: &Instruction| *i) == derefs(instructions@));
                            }
                            if !handler_restores_interrupt(instructions.as_slice()) {
                                let message = method_message(
                                    "InterruptedException is caught but interrupt status is not restored in ",
                                    class,
                                    method,
                                    "",
                                );
                                let line = method.line_for_offset(handler.handler_pc);
                                let artifact_uri: Option<&str> = match &uri {
                                    Some(s) => Some(s.as_str()),
                                    None => None,
                                };
                                let location = method_location_with_line(
                                    class.name.as_str(),
                                    method.name.as_str(),
                                    method.descriptor.as_str(),
                                    artifact_uri,
                                    line,
                                );
                                let f = finding(message, location);
                                proof {
                                    reveal_strlit("");
                                    assert(f@ == handler_finding(context.class_uri(*class), *class, *method, handler.handler_pc));
                                    assert(context.targets()[ci as int].methods@[mi as int].exception_handlers@[hi as int]
                                        == *handler);
                                    assert(reports_interrupted_handler(*context, f@));
                                }
                                let ghost prev = finding_views(results@);
                                let ghost fv = f@;
                                push_finding(&mut results, f);
                                proof {
                                    assert(finding_views(results@) == prev.push(fv));
                                    assert(finding_views(results@) =~= before_method + handler_walk(opt_view(uri), *class, *method, hi + 1).1);
                                    assert forall|i: int| 0 <= i < results@.len() implies reports_interrupted_handler(
                                        *context,
                                        #[trigger] finding_views(results@)[i],
                                    ) by {
                                        if i < prev.len() {
                                            assert(finding_views(results@)[i] == prev[i]);
                                        } else {
                                            assert(finding_views(results@)[i] == fv);
                                        }
                                    }
                                }
                            }
                        }
                        proof {
                            assert(handled@ =~= handler_walk(opt_view(uri), *class, *method, hi + 1).0);
                            assert(finding_views(results@) =~= before_method + handler_walk(opt_view(uri), *class, *method, hi + 1).1);
                        }
                        hi = hi + 1;
                    }
                }
                proof {
                    assert(class.methods@[mi as int] == *method);
                    assert(finding_views(results@) =~= before_class + blocks_class_findings(opt_view(uri), *class, mi + 1));
                }
                mi = mi + 1;
            }
            proof {
                assert(context.targets()[ci as int] == *class);
                assert(finding_views(results@) =~= blocks_targets_findings(*context, ci + 1));
            }
            ci = ci + 1;
        }
        Ok(results)
    }
}

} // verus!
