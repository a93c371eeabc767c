//! Deterministic intraprocedural worklist engine for bytecode dataflow analyses.
use vstd::prelude::*;
use crate::error::AnalysisError;
use vstd::pervasive::strictly_cloned;
use crate::ir::{BasicBlock, FlowEdge, Instruction, Method};
use std::collections::{BTreeMap, BTreeSet, VecDeque};

verus! {

broadcast use vstd::std_specs::btree::group_btree_axioms;

/// Program-point state tracked by the worklist engine.
pub trait WorklistState: Sized {
    /// The block start and instruction index the state is at.
    spec fn position(self) -> (u32, usize);

    /// The state moved to an instruction of a block, all else kept.
    spec fn repositioned(self, block_start: u32, instruction_index: usize) -> Self;

    /// Moving a state puts it at the new position and keeps all else: moved
    /// back to where it was, it is the state it was.
    proof fn lemma_repositioned(self, block_start: u32, instruction_index: usize)
        ensures
            self.repositioned(block_start, instruction_index).position() == (block_start, instruction_index),
            self.repositioned(block_start, instruction_index).repositioned(self.position().0, self.position().1) == self,
    ;

    /// Start offset of the block the state is in.
    fn block_start(&self) -> (res: u32)
        ensures
            res == self.position().0,
    ;

    /// Index of the next instruction within the block.
    fn instruction_index(&self) -> (res: usize)
        ensures
            res == self.position().1,
    ;

    /// Moves the state to an instruction of a block.
    fn set_position(&mut self, block_start: u32, instruction_index: usize)
        ensures
            *final(self) == old(self).repositioned(block_start, instruction_index),
            final(self).position() == (block_start, instruction_index),
    ;
}

/// Outcome of executing transfer for one instruction.
pub struct InstructionStep<F> {
    pub findings: Vec<F>,
    pub terminate_path: bool,
}

impl<F> InstructionStep<F> {
    /// Continue along the path, with no finding.
    pub fn continue_path() -> (res: Self)
        ensures
            res.findings@ == Seq::<F>::empty(),
            !res.terminate_path,
    {
        InstructionStep { findings: Vec::new(), terminate_path: false }
    }

    /// Stop exploring this path, with no finding.
    pub fn terminate_path() -> (res: Self)
        ensures
            res.findings@ == Seq::<F>::empty(),
            res.terminate_path,
    {
        InstructionStep { findings: Vec::new(), terminate_path: true }
    }

    /// Adds a finding.
    pub fn with_finding(self, finding: F) -> (res: Self)
        ensures
            res.findings@ == self.findings@.push(finding),
            res.terminate_path == self.terminate_path,
    {
        let mut res = self;
        res.findings.push(finding);
        res
    }
}

/// Outcome when execution reaches the end of a basic block.
pub struct BlockEndStep<S, F> {
    pub findings: Vec<F>,
    pub next_states: Vec<S>,
}

impl<S, F> BlockEndStep<S, F> {
    /// No successor state and no finding.
    pub fn terminal() -> (res: Self)
        ensures
            res.findings@ == Seq::<F>::empty(),
            res.next_states@ == Seq::<S>::empty(),
    {
        BlockEndStep { findings: Vec::new(), next_states: Vec::new() }
    }

    /// Adds a finding.
    pub fn with_finding(self, finding: F) -> (res: Self)
        ensures
            res.findings@ == self.findings@.push(finding),
            res.next_states@ == self.next_states@,
    {
        let mut res = self;
        res.findings.push(finding);
        res
    }
}

/// `next` is a clone of `state` moved to the start of block `to`.
pub open spec fn moved_clone<S: WorklistState + Clone>(state: S, next: S, to: u32) -> bool {
    exists|c: S| strictly_cloned(state, c) && next == #[trigger] c.repositioned(to, 0usize)
}

impl<S: WorklistState + Clone, F> BlockEndStep<S, F> {
    /// One copy of `state` at the start of each successor block, in order:
    /// each next state is a clone of `state` moved to `(successor, 0)`.
    pub fn follow_all_successors(state: &S, successors: &[u32]) -> (res: Self)
        ensures
            res.findings@ == Seq::<F>::empty(),
            res.next_states@.len() == successors@.len(),
            forall|i: int| 0 <= i < successors@.len() ==> (#[trigger] res.next_states@[i]).position() == (successors@[i], 0usize),
            forall|i: int| 0 <= i < successors@.len() ==> moved_clone(*state, #[trigger] res.next_states@[i], successors@[i]),
    {
        let mut next_states: Vec<S> = Vec::new();
        let mut i: usize = 0;
        while i < successors.len()
            invariant
                i <= successors@.len(),
                next_states@.len() == i,
                forall|j: int| 0 <= j < i ==> (#[trigger] next_states@[j]).position() == (successors@[j], 0usize),
                forall|j: int| 0 <= j < i ==> moved_clone(*state, #[trigger] next_states@[j], successors@[j]),
            decreases successors.len() - i,
        {
            let mut next = state.clone();
            let ghost c = next;
            assert(strictly_cloned(*state, c));
            next.set_position(successors[i], 0);
            next_states.push(next);
            assert(moved_clone(*state, next_states@[i as int], successors@[i as int]));
            i = i + 1;
        }
        BlockEndStep { findings: Vec::new(), next_states }
    }
}

/// Domain callbacks of a worklist analysis.
pub trait WorklistSemantics {
    type State: WorklistState + Clone + Ord;

    type Finding;

    fn initial_states(&self, method: &Method) -> Vec<Self::State>;

    fn canonicalize_state(&self, state: &mut Self::State) {
    }

    fn transfer_instruction(
        &self,
        method: &Method,
        instruction: &Instruction,
        state: &mut Self::State,
    ) -> Result<InstructionStep<Self::Finding>, AnalysisError>;

    fn on_block_end(&self, method: &Method, state: &Self::State, successors: &[u32]) -> (res: Result<
        BlockEndStep<Self::State, Self::Finding>,
        AnalysisError,
    >)
        default_ensures
            res matches Ok(step) && step.findings@ == Seq::<Self::Finding>::empty() && step.next_states@.len()
                == successors@.len() && (forall|i: int|
                0 <= i < successors@.len() ==> (#[trigger] step.next_states@[i]).position() == (successors@[i], 0usize))
                && forall|i: int| 0 <= i < successors@.len() ==> moved_clone(*state, #[trigger] step.next_states@[i], successors@[i]),
    {
        Ok(BlockEndStep::follow_all_successors(state, successors))
    }
}

/// Whether `v` is strictly increasing.
pub open spec fn strictly_increasing(v: Seq<u32>) -> bool {
    forall|i: int, j: int| 0 <= i < j < v.len() ==> v[i] < v[j]
}

/// Targets of the edges that leave block `from`.
pub open spec fn edge_targets(edges: Seq<FlowEdge>, from: u32) -> Set<u32> {
    Set::new(|to: u32| exists|i: int| 0 <= i < edges.len() && edges[i].from == from && edges[i].to == to)
}

/// Inserts `x` into a strictly increasing vector, keeping it so.
pub fn insert_sorted_unique(v: &mut Vec<u32>, x: u32)
    requires
        strictly_increasing(old(v)@),
    ensures
        strictly_increasing(final(v)@),
        final(v)@.to_set() == old(v)@.to_set().insert(x),
{
    let mut pos: usize = 0;
    while pos < v.len() && v[pos] < x
        invariant
            pos <= v@.len(),
            forall|j: int| 0 <= j < pos ==> v@[j] < x,
        decreases v.len() - pos,
    {
        pos = pos + 1;
    }
    let ghost before = v@;
    assert forall|j: int| pos <= j < before.len() implies before[j] >= x by {
        if j > pos {
            assert(before[pos as int] < before[j]);
        }
    }
    if pos < v.len() && v[pos] == x {
        assert(before.to_set().insert(x) =~= before.to_set());
        return;
    }
    v.insert(pos, x);
    proof {
        assert(v@ == before.insert(pos as int, x));
        assert forall|a: int, b: int| 0 <= a < b < v@.len() implies v@[a] < v@[b] by {
            if b < pos {
            } else if a < pos && b == pos {
            } else if a < pos && b > pos {
                assert(before[a] < x);
                assert(before[b - 1] >= x);
            } else if a == pos {
                assert(before[b - 1] >= x);
                assert(before[b - 1] != x || b - 1 != pos);
                if b - 1 > pos {
                    assert(before[pos as int] < before[b - 1]);
                }
                assert(before[pos as int] >= x);
            } else {
                assert(before[a - 1] < before[b - 1]);
            }
        }
        assert forall|y: u32| v@.to_set().contains(y) == before.to_set().insert(x).contains(y) by {
            if v@.to_set().contains(y) {
                let k = choose|k: int| 0 <= k < v@.len() && v@[k] == y;
                if k < pos {
                    assert(before[k] == y);
                } else if k > pos {
                    assert(before[k - 1] == y);
                }
            }
            if before.to_set().contains(y) {
                let k = choose|k: int| 0 <= k < before.len() && before[k] == y;
                if k < pos {
                    assert(v@[k] == y);
                } else {
                    assert(v@[k + 1] == y);
                }
            }
            if y == x {
                assert(v@[pos as int] == x);
            }
        }
        assert(v@.to_set() =~= before.to_set().insert(x));
    }
}

/// The successors of block `from`: targets of its outgoing edges, ascending and
/// without repeats.
pub fn collect_successors(edges: &[FlowEdge], from: u32) -> (res: Vec<u32>)
    ensures
        strictly_increasing(res@),
        res@.to_set() == edge_targets(edges@, from),
{
    let mut res: Vec<u32> = Vec::new();
    let mut i: usize = 0;
    while i < edges.len()
        invariant
            i <= edges@.len(),
            strictly_increasing(res@),
            res@.to_set() == edge_targets(edges@.subrange(0, i as int), from),
        decreases edges.len() - i,
    {
        let ghost prev = res@.to_set();
        if edges[i].from == from {
            insert_sorted_unique(&mut res, edges[i].to);
        }
        proof {
            let sub = edges@.subrange(0, i + 1);
            assert forall|to: u32| edge_targets(sub, from).contains(to) == res@.to_set().contains(to) by {
                if edge_targets(sub, from).contains(to) {
                    let k = choose|k: int| 0 <= k < sub.len() && sub[k].from == from && sub[k].to == to;
                    if k < i {
                        assert(edges@.subrange(0, i as int)[k] == sub[k]);
                    }
                }
                if prev.contains(to) {
                    let k = choose|k: int| 0 <= k < i && edges@.subrange(0, i as int)[k].from == from
                        && edges@.subrange(0, i as int)[k].to == to;
                    assert(sub[k] == edges@.subrange(0, i as int)[k]);
                }
                if edges@[i as int].from == from && to == edges@[i as int].to {
                    assert(sub[i as int] == edges@[i as int]);
                }
            }
            assert(edge_targets(sub, from) =~= res@.to_set());
        }
        i = i + 1;
    }
    assert(edges@.subrange(0, edges@.len() as int) =~= edges@);
    res
}

/// Position of the last block of `blocks` that starts at `start`.
pub open spec fn last_block_with_start(blocks: Seq<BasicBlock>, start: u32, i: int) -> bool {
    &&& 0 <= i < blocks.len()
    &&& blocks[i].start_offset == start
    &&& forall|j: int| i < j < blocks.len() ==> blocks[j].start_offset != start
}

/// CFG lookup tables used by the worklist loop.
pub struct MethodGraph {
    pub blocks: BTreeMap<u32, usize>,
    pub successors: BTreeMap<u32, Vec<u32>>,
}

impl MethodGraph {
    /// The graph of `method`: each block start maps to the last block with that
    /// start; each block start and each edge source maps to its successors.
    pub open spec fn describes(&self, method: &Method) -> bool {
        let blocks = method.cfg.blocks@;
        let edges = method.cfg.edges@;
        &&& forall|b: u32| #[trigger] self.blocks@.contains_key(b) == exists|i: int|
            0 <= i < blocks.len() && blocks[i].start_offset == b
        &&& forall|b: u32| #[trigger] self.blocks@.contains_key(b) ==> last_block_with_start(
            blocks,
            b,
            self.blocks@[b] as int,
        )
        &&& forall|b: u32| #[trigger] self.successors@.contains_key(b) ==> strictly_increasing(
            self.successors@[b]@,
        ) && self.successors@[b]@.to_set() == edge_targets(edges, b)
        &&& forall|b: u32| #[trigger] self.blocks@.contains_key(b) ==> self.successors@.contains_key(b)
    }

    /// Builds the lookup tables for a method.
    pub fn new(method: &Method) -> (res: Self)
        ensures
            res.describes(method),
    {
        let blocks_seq = &method.cfg.blocks;
        let mut blocks: BTreeMap<u32, usize> = BTreeMap::new();
        let mut successors: BTreeMap<u32, Vec<u32>> = BTreeMap::new();
        let mut i: usize = 0;
        while i < blocks_seq.len()
            invariant
                i <= blocks_seq@.len(),
                forall|b: u32| #[trigger] blocks@.contains_key(b) == exists|k: int|
                    0 <= k < i && blocks_seq@[k].start_offset == b,
                forall|b: u32| #[trigger] blocks@.contains_key(b) ==> last_block_with_start(
                    blocks_seq@.subrange(0, i as int),
                    b,
                    blocks@[b] as int,
                ),
                forall|b: u32| #[trigger] successors@.contains_key(b) ==> strictly_increasing(
                    successors@[b]@,
                ) && successors@[b]@.to_set() == edge_targets(method.cfg.edges@, b),
                forall|b: u32| #[trigger] blocks@.contains_key(b) ==> successors@.contains_key(b),
            decreases blocks_seq.len() - i,
        {
            let start = blocks_seq[i].start_offset;
            let ghost prev = blocks@;
            blocks.insert(start, i);
            let targets = collect_successors(method.cfg.edges.as_slice(), start);
            let ghost prev_succ = successors@;
            successors.insert(start, targets);
            proof {
                assert forall|b: u32| #[trigger] successors@.contains_key(b) implies strictly_increasing(
                    successors@[b]@,
                ) && successors@[b]@.to_set() == edge_targets(method.cfg.edges@, b) by {
                    if b != start {
                        assert(prev_succ.contains_key(b));
                    }
                }
                let sub = blocks_seq@.subrange(0, i + 1);
                assert forall|b: u32| #[trigger] blocks@.contains_key(b) implies last_block_with_start(
                    sub,
                    b,
                    blocks@[b] as int,
                ) by {
                    if b != start {
                        assert(last_block_with_start(blocks_seq@.subrange(0, i as int), b, prev[b] as int));
                        assert(sub[prev[b] as int] == blocks_seq@.subrange(0, i as int)[prev[b] as int]);
                    }
                }
                assert forall|b: u32| #[trigger] blocks@.contains_key(b) == exists|k: int|
                    0 <= k < i + 1 && blocks_seq@[k].start_offset == b by {
                    if b == start {
                        assert(blocks_seq@[i as int].start_offset == b);
                    }
                }
            }
            i = i + 1;
        }
        assert(blocks_seq@.subrange(0, blocks_seq@.len() as int) =~= blocks_seq@);
        let edges = &method.cfg.edges;
        let mut j: usize = 0;
        while j < edges.len()
            invariant
                edges@ == method.cfg.edges@,
                forall|b: u32| #[trigger] blocks@.contains_key(b) == exists|k: int|
                    0 <= k < blocks_seq@.len() && blocks_seq@[k].start_offset == b,
                forall|b: u32| #[trigger] blocks@.contains_key(b) ==> last_block_with_start(
                    blocks_seq@,
                    b,
                    blocks@[b] as int,
                ),
                forall|b: u32| #[trigger] successors@.contains_key(b) ==> strictly_increasing(
                    successors@[b]@,
                ) && successors@[b]@.to_set() == edge_targets(method.cfg.edges@, b),
                forall|b: u32| #[trigger] blocks@.contains_key(b) ==> successors@.contains_key(b),
            decreases edges.len() - j,
        {
            let from = edges[j].from;
            if !successors.contains_key(&from) {
                let targets = collect_successors(edges.as_slice(), from);
                let ghost prev_succ = successors@;
                successors.insert(from, targets);
                proof {
                    assert forall|b: u32| #[trigger] successors@.contains_key(b) implies strictly_increasing(
                        successors@[b]@,
                    ) && successors@[b]@.to_set() == edge_targets(method.cfg.edges@, b) by {
                        if b != from {
                            assert(prev_succ.contains_key(b));
                        } else {
                            assert(successors@[b] == targets);
                            assert(edges@ == method.cfg.edges@);
                        }
                    }
                    assert forall|b: u32| #[trigger] blocks@.contains_key(b) implies successors@.contains_key(b) by {
                        if b != from {
                            assert(prev_succ.contains_key(b));
                        }
                    }
                }
            }
            j = j + 1;
        }
        MethodGraph { blocks, successors }
    }

    /// Successors of a block, ascending and without repeats; none for an
    /// unknown block.
    pub fn successors_for(&self, block_start: u32) -> (res: &[u32])
        ensures
            self.successors@.contains_key(block_start) ==> res@ == self.successors@[block_start]@,
            !self.successors@.contains_key(block_start) ==> res@ == Seq::<u32>::empty(),
    {
        match self.successors.get(&block_start) {
            Some(targets) => targets.as_slice(),
            None => &[],
        }
    }
}

/// Moves a block-end step's findings and next states into the run.
pub fn enqueue_block_end_step<S: WorklistSemantics>(
    semantics: &S,
    step: BlockEndStep<S::State, S::Finding>,
    queue: &mut VecDeque<S::State>,
    findings: &mut Vec<S::Finding>,
)
    ensures
        final(findings)@ == old(findings)@ + step.findings@,
        final(queue)@.len() == old(queue)@.len() + step.next_states@.len(),
        forall|i: int| 0 <= i < old(queue)@.len() ==> final(queue)@[i] == old(queue)@[i],
{
    let mut step = step;
    findings.append(&mut step.findings);
    let ghost start = queue@;
    let mut states = step.next_states;
    let n = states.len();
    while states.len() > 0
        invariant
            queue@.len() + states@.len() == start.len() + n,
            queue@.len() >= start.len(),
            forall|k: int| 0 <= k < start.len() ==> queue@[k] == start[k],
        decreases states.len(),
    {
        let mut state = states.remove(0);
        semantics.canonicalize_state(&mut state);
        queue.push_back(state);
    }
}

/// Runs a worklist analysis over a method: starting from the initial states,
/// each dequeued state is canonicalized and skipped when it was already seen;
/// otherwise its next instruction is transferred (or its block end handled),
/// and the resulting states are queued in order. Findings are collected in the
/// order the steps produce them. The run stops with the error of the first
/// callback that fails, or after `u64::MAX` dequeues. The states already seen
/// are kept in a `BTreeSet` ordered by the state type's `Ord`.
pub fn analyze_method<S: WorklistSemantics>(method: &Method, semantics: &S) -> (res: Result<
    Vec<S::Finding>,
    AnalysisError,
>) {
    let graph = MethodGraph::new(method);
    let mut queue: VecDeque<S::State> = VecDeque::new();
    let mut visited: BTreeSet<S::State> = BTreeSet::new();
    let mut findings: Vec<S::Finding> = Vec::new();

    let mut initial = semantics.initial_states(method);
    while initial.len() > 0
        decreases initial.len(),
    {
        let mut state = initial.remove(0);
        semantics.canonicalize_state(&mut state);
        queue.push_back(state);
    }

    let mut steps: u64 = 0;
    loop
        invariant
            graph.describes(method),
        decreases u64::MAX - steps,
    {
        if steps == u64::MAX {
            return Err(AnalysisError::StepLimitExceeded);
        }
        steps = steps + 1;
        let mut state = match queue.pop_front() {
            Some(s) => s,
            None => {
                return Ok(findings);
            },
        };
        semantics.canonicalize_state(&mut state);
        if !visited.insert(state.clone()) {
            continue;
        }
        let block_index = match graph.blocks.get(&state.block_start()) {
            Some(index) => *index,
            None => {
                continue;
            },
        };
        let block = &method.cfg.blocks[block_index];
        let position = state.instruction_index();
        if position >= block.instructions.len() {
            let end_step = semantics.on_block_end(
                method,
                &state,
                graph.successors_for(state.block_start()),
            )?;
            enqueue_block_end_step(semantics, end_step, &mut queue, &mut findings);
            continue;
        }
        let instruction = &block.instructions[position];
        let mut next_state = state.clone();
        if position == usize::MAX {
            continue;
        }
        next_state.set_position(state.block_start(), position + 1);
        let mut step = semantics.transfer_instruction(method, instruction, &mut next_state)?;
        findings.append(&mut step.findings);
        if step.terminate_path {
            continue;
        }
        semantics.canonicalize_state(&mut next_state);
        let next_index = match graph.blocks.get(&next_state.block_start()) {
            Some(index) => *index,
            None => {
                continue;
            },
        };
        let next_block = &method.cfg.blocks[next_index];
        if next_state.instruction_index() < next_block.instructions.len() {
            queue.push_back(next_state);
            continue;
        }
        let end_step = semantics.on_block_end(
            method,
            &next_state,
            graph.successors_for(next_state.block_start()),
        )?;
        enqueue_block_end_step(semantics, end_step, &mut queue, &mut findings);
    }
}

} // verus!
