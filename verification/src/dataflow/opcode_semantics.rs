//! Table-driven default stack effects of JVM opcodes, with rule hooks around them.
use vstd::prelude::*;
use crate::dataflow::stack_machine::{StackMachine, pushed, popped, top_or};
use crate::ir::Method;
use crate::opcodes;
use std::collections::BTreeMap;

verus! {

broadcast use vstd::std_specs::btree::group_btree_axioms;

/// Rule-supplied value constructors used by the shared opcode semantics.
pub trait ValueDomain<V> {
    /// The value standing for an unknown reference.
    spec fn unknown_spec(&self) -> V;

    /// The value standing for a scalar.
    spec fn scalar_spec(&self) -> V;

    /// The value standing for an unknown reference.
    fn unknown_value(&self) -> (res: V)
        ensures
            res == self.unknown_spec(),
    ;

    /// The value standing for a scalar.
    fn scalar_value(&self) -> (res: V)
        ensures
            res == self.scalar_spec(),
    ;
}

/// Result of attempting opcode execution.
#[derive(Clone, Copy, Debug, PartialEq, Eq, Structural)]
pub enum ApplyOutcome {
    Applied,
    NotHandled,
}

/// Debug controls for opcode semantics instrumentation.
#[derive(Clone, Copy, Debug)]
pub struct SemanticsDebugConfig {
    pub enabled: bool,
    pub rule_id: &'static str,
}

impl SemanticsDebugConfig {
    /// Instrumentation switched off.
    pub fn disabled() -> (res: Self)
        ensures
            !res.enabled,
            res.rule_id@ == ""@,
    {
        SemanticsDebugConfig { enabled: false, rule_id: "" }
    }
}

/// How often `opcode` was counted in `counts`.
pub open spec fn count_of(counts: Map<u8, usize>, opcode: u8) -> nat {
    if counts.contains_key(opcode) {
        counts[opcode] as nat
    } else {
        0
    }
}

/// Coverage counters for shared opcode semantics execution.
#[derive(Clone, Debug)]
pub struct SemanticsCoverage {
    pub applied_by_hook: usize,
    pub applied_by_default: usize,
    pub fallback_not_handled: usize,
    pub overridden_opcodes: BTreeMap<u8, usize>,
    pub fallback_opcodes: BTreeMap<u8, usize>,
}

impl SemanticsCoverage {
    /// Per-opcode counts of hook overrides.
    pub open spec fn overridden(&self) -> Map<u8, usize> {
        self.overridden_opcodes@
    }

    /// Per-opcode counts of fallbacks.
    pub open spec fn fallbacks(&self) -> Map<u8, usize> {
        self.fallback_opcodes@
    }

    /// Counters all at zero.
    pub fn new() -> (res: Self)
        ensures
            res.applied_by_hook == 0,
            res.applied_by_default == 0,
            res.fallback_not_handled == 0,
            res.overridden() == Map::<u8, usize>::empty(),
            res.fallbacks() == Map::<u8, usize>::empty(),
    {
        SemanticsCoverage {
            applied_by_hook: 0,
            applied_by_default: 0,
            fallback_not_handled: 0,
            overridden_opcodes: BTreeMap::new(),
            fallback_opcodes: BTreeMap::new(),
        }
    }

    fn bump(counts: &mut BTreeMap<u8, usize>, opcode: u8)
        requires
            count_of(old(counts)@, opcode) < usize::MAX,
        ensures
            final(counts)@ == old(counts)@.insert(opcode, (count_of(old(counts)@, opcode) + 1) as usize),
    {
        let current: usize = match counts.get(&opcode) {
            Some(c) => *c,
            None => 0,
        };
        counts.insert(opcode, current + 1);
    }

    /// Counts one hook override of `opcode`.
    pub fn record_hook_override(&mut self, opcode: u8)
        requires
            old(self).applied_by_hook < usize::MAX,
            count_of(old(self).overridden(), opcode) < usize::MAX,
        ensures
            final(self).applied_by_hook == old(self).applied_by_hook + 1,
            final(self).overridden() == old(self).overridden().insert(
                opcode,
                (count_of(old(self).overridden(), opcode) + 1) as usize,
            ),
            final(self).applied_by_default == old(self).applied_by_default,
            final(self).fallback_not_handled == old(self).fallback_not_handled,
            final(self).fallbacks() == old(self).fallbacks(),
    {
        self.applied_by_hook = self.applied_by_hook + 1;
        Self::bump(&mut self.overridden_opcodes, opcode);
    }

    /// Counts one default application.
    pub fn record_default_apply(&mut self)
        requires
            old(self).applied_by_default < usize::MAX,
        ensures
            final(self).applied_by_default == old(self).applied_by_default + 1,
            final(self).applied_by_hook == old(self).applied_by_hook,
            final(self).fallback_not_handled == old(self).fallback_not_handled,
            final(self).overridden() == old(self).overridden(),
            final(self).fallbacks() == old(self).fallbacks(),
    {
        self.applied_by_default = self.applied_by_default + 1;
    }

    /// Counts one fallback of `opcode`.
    pub fn record_fallback(&mut self, opcode: u8)
        requires
            old(self).fallback_not_handled < usize::MAX,
            count_of(old(self).fallbacks(), opcode) < usize::MAX,
        ensures
            final(self).fallback_not_handled == old(self).fallback_not_handled + 1,
            final(self).fallbacks() == old(self).fallbacks().insert(
                opcode,
                (count_of(old(self).fallbacks(), opcode) + 1) as usize,
            ),
            final(self).applied_by_hook == old(self).applied_by_hook,
            final(self).applied_by_default == old(self).applied_by_default,
            final(self).overridden() == old(self).overridden(),
    {
        self.fallback_not_handled = self.fallback_not_handled + 1;
        Self::bump(&mut self.fallback_opcodes, opcode);
    }

    /// How often `opcode` was overridden by a hook.
    pub fn hook_override_count(&self, opcode: u8) -> (res: usize)
        ensures
            res == count_of(self.overridden(), opcode),
    {
        match self.overridden_opcodes.get(&opcode) {
            Some(c) => *c,
            None => 0,
        }
    }

    /// How often `opcode` was left to fallback handling.
    pub fn fallback_count(&self, opcode: u8) -> (res: usize)
        ensures
            res == count_of(self.fallbacks(), opcode),
    {
        match self.fallback_opcodes.get(&opcode) {
            Some(c) => *c,
            None => 0,
        }
    }
}

/// Stack effect of an opcode.
#[derive(Clone, Copy, Debug, PartialEq, Eq, Structural)]
pub enum Effect {
    Noop,
    PushUnknown,
    PushScalar,
    LoadLocal(LocalSlot),
    StoreLocal(LocalSlot),
    Pop(usize),
    Dup,
    Dup2,
    Swap,
    PopAndPush { pop_count: usize, push: PushKind },
    MultiANewArray,
}

/// Kind of value pushed after popping.
#[derive(Clone, Copy, Debug, PartialEq, Eq, Structural)]
pub enum PushKind {
    Unknown,
    Scalar,
}

/// Where a load or store finds its local index.
#[derive(Clone, Copy, Debug, PartialEq, Eq, Structural)]
pub enum LocalSlot {
    OperandU8,
    Fixed(usize),
}

/// The JVM stack effect of each opcode the default semantics covers: constants
/// and primitive loads push scalars, reference loads and stores move values
/// between the stack and locals, primitive stores, branches, switches, monitors
/// and array stores pop their operands, arithmetic, comparisons, conversions,
/// field reads and array loads replace operands by one result, `dup` forms copy,
/// `swap` exchanges. Invocations, returns and the other opcodes are not covered.
pub open spec fn effect_of(opcode: u8) -> Option<Effect> {
    if opcode == 0x00 {
        Some(Effect::Noop)
    } else if opcode == 0x01 {
        Some(Effect::PushUnknown)
    } else if (0x02 <= opcode && opcode <= 0x0f) || opcode == 0x10 || opcode == 0x11 || opcode == 0xbb || opcode == 0x12 || opcode == 0x13 || opcode == 0x14 {
        Some(Effect::PushScalar)
    } else if (0x15 <= opcode && opcode <= 0x18) || (0x1a <= opcode && opcode <= 0x29) {
        Some(Effect::PushScalar)
    } else if opcode == 0x19 {
        Some(Effect::LoadLocal(LocalSlot::OperandU8))
    } else if opcode == 0x2a {
        Some(Effect::LoadLocal(LocalSlot::Fixed(0)))
    } else if opcode == 0x2b {
        Some(Effect::LoadLocal(LocalSlot::Fixed(1)))
    } else if opcode == 0x2c {
        Some(Effect::LoadLocal(LocalSlot::Fixed(2)))
    } else if opcode == 0x2d {
        Some(Effect::LoadLocal(LocalSlot::Fixed(3)))
    } else if opcode == 0x36 || opcode == 0x38 || (0x3b <= opcode && opcode <= 0x3e) || (0x43 <= opcode && opcode <= 0x46) {
        Some(Effect::Pop(1))
    } else if opcode == 0x37 || opcode == 0x39 || (0x3f <= opcode && opcode <= 0x42) || (0x47 <= opcode && opcode <= 0x4a) {
        Some(Effect::Pop(2))
    } else if opcode == 0x3a {
        Some(Effect::StoreLocal(LocalSlot::OperandU8))
    } else if opcode == 0x4b {
        Some(Effect::StoreLocal(LocalSlot::Fixed(0)))
    } else if opcode == 0x4c {
        Some(Effect::StoreLocal(LocalSlot::Fixed(1)))
    } else if opcode == 0x4d {
        Some(Effect::StoreLocal(LocalSlot::Fixed(2)))
    } else if opcode == 0x4e {
        Some(Effect::StoreLocal(LocalSlot::Fixed(3)))
    } else if (0x2e <= opcode && opcode <= 0x31) || (0x33 <= opcode && opcode <= 0x35) {
        Some(Effect::PopAndPush { pop_count: 2, push: PushKind::Scalar })
    } else if opcode == 0x4f || opcode == 0x51 || opcode == 0x52 || (0x54 <= opcode && opcode <= 0x56) {
        Some(Effect::Pop(3))
    } else if opcode == 0x50 {
        Some(Effect::Pop(4))
    } else if opcode == 0x53 {
        Some(Effect::Pop(3))
    } else if opcode == 0x32 {
        Some(Effect::PopAndPush { pop_count: 2, push: PushKind::Unknown })
    } else if opcode == 0x57 {
        Some(Effect::Pop(1))
    } else if opcode == 0x58 {
        Some(Effect::Pop(2))
    } else if (0x59 <= opcode && opcode <= 0x5b) {
        Some(Effect::Dup)
    } else if (0x5c <= opcode && opcode <= 0x5e) {
        Some(Effect::Dup2)
    } else if opcode == 0x5f {
        Some(Effect::Swap)
    } else if (0x60 <= opcode && opcode <= 0x73) || (0x78 <= opcode && opcode <= 0x83) || (0x94 <= opcode && opcode <= 0x98) {
        Some(Effect::PopAndPush { pop_count: 2, push: PushKind::Scalar })
    } else if (0x74 <= opcode && opcode <= 0x77) || (0x85 <= opcode && opcode <= 0x93) {
        Some(Effect::PopAndPush { pop_count: 1, push: PushKind::Scalar })
    } else if opcode == 0x84 {
        Some(Effect::Noop)
    } else if (0x99 <= opcode && opcode <= 0x9e) || opcode == 0xc6 || opcode == 0xc7 || opcode == 0xaa || opcode == 0xab {
        Some(Effect::Pop(1))
    } else if (0x9f <= opcode && opcode <= 0xa6) {
        Some(Effect::Pop(2))
    } else if opcode == 0xa7 || opcode == 0xc8 {
        Some(Effect::Noop)
    } else if opcode == 0xa8 || opcode == 0xc9 {
        Some(Effect::PushScalar)
    } else if opcode == 0xb2 {
        Some(Effect::PushScalar)
    } else if opcode == 0xb3 {
        Some(Effect::Pop(1))
    } else if opcode == 0xb4 {
        Some(Effect::PopAndPush { pop_count: 1, push: PushKind::Scalar })
    } else if opcode == 0xb5 {
        Some(Effect::Pop(2))
    } else if opcode == 0xbc || opcode == 0xbd {
        Some(Effect::PopAndPush { pop_count: 1, push: PushKind::Unknown })
    } else if opcode == 0xbe || opcode == 0xc1 {
        Some(Effect::PopAndPush { pop_count: 1, push: PushKind::Scalar })
    } else if opcode == 0xc0 {
        Some(Effect::PopAndPush { pop_count: 1, push: PushKind::Unknown })
    } else if opcode == 0xc2 || opcode == 0xc3 {
        Some(Effect::Pop(1))
    } else if opcode == 0xc5 {
        Some(Effect::MultiANewArray)
    } else {
        None
    }
}

/// Decodes the default stack effect of an opcode.
pub fn decode(opcode: u8) -> (res: Option<Effect>)
    ensures
        res == effect_of(opcode),
{
    if opcode == 0x00 {
        Some(Effect::Noop)
    } else if opcode == 0x01 {
        Some(Effect::PushUnknown)
    } else if (0x02 <= opcode && opcode <= 0x0f) || opcode == 0x10 || opcode == 0x11 || opcode == 0xbb || opcode == 0x12 || opcode == 0x13 || opcode == 0x14 {
        Some(Effect::PushScalar)
    } else if (0x15 <= opcode && opcode <= 0x18) || (0x1a <= opcode && opcode <= 0x29) {
        Some(Effect::PushScalar)
    } else if opcode == 0x19 {
        Some(Effect::LoadLocal(LocalSlot::OperandU8))
    } else if opcode == 0x2a {
        Some(Effect::LoadLocal(LocalSlot::Fixed(0)))
    } else if opcode == 0x2b {
        Some(Effect::LoadLocal(LocalSlot::Fixed(1)))
    } else if opcode == 0x2c {
        Some(Effect::LoadLocal(LocalSlot::Fixed(2)))
    } else if opcode == 0x2d {
        Some(Effect::LoadLocal(LocalSlot::Fixed(3)))
    } else if opcode == 0x36 || opcode == 0x38 || (0x3b <= opcode && opcode <= 0x3e) || (0x43 <= opcode && opcode <= 0x46) {
        Some(Effect::Pop(1))
    } else if opcode == 0x37 || opcode == 0x39 || (0x3f <= opcode && opcode <= 0x42) || (0x47 <= opcode && opcode <= 0x4a) {
        Some(Effect::Pop(2))
    } else if opcode == 0x3a {
        Some(Effect::StoreLocal(LocalSlot::OperandU8))
    } else if opcode == 0x4b {
        Some(Effect::StoreLocal(LocalSlot::Fixed(0)))
    } else if opcode == 0x4c {
        Some(Effect::StoreLocal(LocalSlot::Fixed(1)))
    } else if opcode == 0x4d {
        Some(Effect::StoreLocal(LocalSlot::Fixed(2)))
    } else if opcode == 0x4e {
        Some(Effect::StoreLocal(LocalSlot::Fixed(3)))
    } else if (0x2e <= opcode && opcode <= 0x31) || (0x33 <= opcode && opcode <= 0x35) {
        Some(Effect::PopAndPush { pop_count: 2, push: PushKind::Scalar })
    } else if opcode == 0x4f || opcode == 0x51 || opcode == 0x52 || (0x54 <= opcode && opcode <= 0x56) {
        Some(Effect::Pop(3))
    } else if opcode == 0x50 {
        Some(Effect::Pop(4))
    } else if opcode == 0x53 {
        Some(Effect::Pop(3))
    } else if opcode == 0x32 {
        Some(Effect::PopAndPush { pop_count: 2, push: PushKind::Unknown })
    } else if opcode == 0x57 {
        Some(Effect::Pop(1))
    } else if opcode == 0x58 {
        Some(Effect::Pop(2))
    } else if (0x59 <= opcode && opcode <= 0x5b) {
        Some(Effect::Dup)
    } else if (0x5c <= opcode && opcode <= 0x5e) {
        Some(Effect::Dup2)
    } else if opcode == 0x5f {
        Some(Effect::Swap)
    } else if (0x60 <= opcode && opcode <= 0x73) || (0x78 <= opcode && opcode <= 0x83) || (0x94 <= opcode && opcode <= 0x98) {
        Some(Effect::PopAndPush { pop_count: 2, push: PushKind::Scalar })
    } else if (0x74 <= opcode && opcode <= 0x77) || (0x85 <= opcode && opcode <= 0x93) {
        Some(Effect::PopAndPush { pop_count: 1, push: PushKind::Scalar })
    } else if opcode == 0x84 {
        Some(Effect::Noop)
    } else if (0x99 <= opcode && opcode <= 0x9e) || opcode == 0xc6 || opcode == 0xc7 || opcode == 0xaa || opcode == 0xab {
        Some(Effect::Pop(1))
    } else if (0x9f <= opcode && opcode <= 0xa6) {
        Some(Effect::Pop(2))
    } else if opcode == 0xa7 || opcode == 0xc8 {
        Some(Effect::Noop)
    } else if opcode == 0xa8 || opcode == 0xc9 {
        Some(Effect::PushScalar)
    } else if opcode == 0xb2 {
        Some(Effect::PushScalar)
    } else if opcode == 0xb3 {
        Some(Effect::Pop(1))
    } else if opcode == 0xb4 {
        Some(Effect::PopAndPush { pop_count: 1, push: PushKind::Scalar })
    } else if opcode == 0xb5 {
        Some(Effect::Pop(2))
    } else if opcode == 0xbc || opcode == 0xbd {
        Some(Effect::PopAndPush { pop_count: 1, push: PushKind::Unknown })
    } else if opcode == 0xbe || opcode == 0xc1 {
        Some(Effect::PopAndPush { pop_count: 1, push: PushKind::Scalar })
    } else if opcode == 0xc0 {
        Some(Effect::PopAndPush { pop_count: 1, push: PushKind::Unknown })
    } else if opcode == 0xc2 || opcode == 0xc3 {
        Some(Effect::Pop(1))
    } else if opcode == 0xc5 {
        Some(Effect::MultiANewArray)
    } else {
        None
    }
}

/// The byte of `bytecode` at `i`, if present.
pub open spec fn byte_at(bytecode: Seq<u8>, i: int) -> Option<u8> {
    if 0 <= i < bytecode.len() {
        Some(bytecode[i])
    } else {
        None
    }
}

/// The local index a slot designates for the instruction at `offset`.
pub open spec fn local_index_spec(bytecode: Seq<u8>, offset: usize, slot: LocalSlot) -> usize {
    match slot {
        LocalSlot::OperandU8 => match byte_at(bytecode, offset + 1) {
            Some(b) => b as usize,
            None => 0,
        },
        LocalSlot::Fixed(index) => index,
    }
}

/// Resolves the local index of a load or store.
pub fn local_index(method: &Method, offset: usize, slot: LocalSlot) -> (res: usize)
    ensures
        res == local_index_spec(method.bytecode@, offset, slot),
{
    match slot {
        LocalSlot::OperandU8 => {
            if method.bytecode.len() > 0 && offset < method.bytecode.len() - 1 {
                method.bytecode[offset + 1] as usize
            } else {
                0
            }
        },
        LocalSlot::Fixed(index) => index,
    }
}

/// The number of dimensions a `multianewarray` at `offset` pops: its third
/// operand byte, or one when the bytecode ends early.
pub open spec fn multianewarray_dims(bytecode: Seq<u8>, offset: usize) -> nat {
    match byte_at(bytecode, offset + 3) {
        Some(b) => b as nat,
        None => 1,
    }
}

/// `new` is `old` after applying `effect` at `offset` of `bytecode`, with
/// `unknown` and `scalar` as the values the domain supplies.
pub open spec fn effect_applied<V: Copy>(
    old: StackMachine<V>,
    new: StackMachine<V>,
    bytecode: Seq<u8>,
    offset: usize,
    unknown: V,
    scalar: V,
    effect: Effect,
) -> bool {
    let st = old.stack();
    let cfg = old.config();
    let dv = old.default_value();
    &&& new.config() == cfg
    &&& new.default_value() == dv
    &&& match effect {
        Effect::StoreLocal(slot) => {
            let idx = local_index_spec(bytecode, offset, slot);
            &&& new.stack() == popped(st, 1)
            &&& new.locals() == (if old.local_out_of_budget(idx) {
                old.locals()
            } else {
                old.locals().insert(idx, top_or(st, dv))
            })
        },
        _ => new.locals() == old.locals(),
    }
    &&& match effect {
        Effect::Noop => new.stack() == st,
        Effect::PushUnknown => new.stack() == pushed(cfg, st, unknown),
        Effect::PushScalar => new.stack() == pushed(cfg, st, scalar),
        Effect::LoadLocal(slot) => new.stack() == pushed(
            cfg,
            st,
            old.local_value(local_index_spec(bytecode, offset, slot)),
        ),
        Effect::StoreLocal(_) => true,
        Effect::Pop(n) => new.stack() == popped(st, n as nat),
        Effect::Dup => new.stack() == (if st.len() > 0 {
            pushed(cfg, st, st.last())
        } else {
            st
        }),
        Effect::Dup2 => new.stack() == (if st.len() >= 2 {
            pushed(cfg, pushed(cfg, st, st[st.len() - 2]), st[st.len() - 1])
        } else if st.len() == 1 {
            pushed(cfg, pushed(cfg, st, st[0]), st[0])
        } else {
            st
        }),
        Effect::Swap => {
            let right = top_or(st, dv);
            let rest = popped(st, 1);
            let left = top_or(rest, dv);
            new.stack() == pushed(cfg, pushed(cfg, popped(rest, 1), right), left)
        },
        Effect::PopAndPush { pop_count, push } => new.stack() == pushed(
            cfg,
            popped(st, pop_count as nat),
            match push {
                PushKind::Unknown => unknown,
                PushKind::Scalar => scalar,
            },
        ),
        Effect::MultiANewArray => new.stack() == pushed(
            cfg,
            popped(st, multianewarray_dims(bytecode, offset)),
            unknown,
        ),
    }
}

/// Applies one stack effect to the machine.
pub fn apply_effect<V: Copy, D: ValueDomain<V>>(
    machine: &mut StackMachine<V>,
    method: &Method,
    offset: usize,
    domain: &D,
    effect: Effect,
)
    ensures
        effect_applied(
            *old(machine),
            *final(machine),
            method.bytecode@,
            offset,
            domain.unknown_spec(),
            domain.scalar_spec(),
            effect,
        ),
{
    let unknown = domain.unknown_value();
    let scalar = domain.scalar_value();
    let ghost start = *machine;
    apply_known_effect(machine, method, offset, unknown, scalar, effect);
    assert(effect_applied(start, *machine, method.bytecode@, offset, unknown, scalar, effect));
}

/// Applies one stack effect, with the given unknown and scalar values.
pub fn apply_known_effect<V: Copy>(
    machine: &mut StackMachine<V>,
    method: &Method,
    offset: usize,
    unknown: V,
    scalar: V,
    effect: Effect,
)
    ensures
        effect_applied(*old(machine), *final(machine), method.bytecode@, offset, unknown, scalar, effect),
{
    match effect {
        Effect::Noop => {},
        Effect::PushUnknown => machine.push(unknown),
        Effect::PushScalar => machine.push(scalar),
        Effect::LoadLocal(slot) => {
            let value = machine.load_local(local_index(method, offset, slot));
            machine.push(value);
        },
        Effect::StoreLocal(slot) => {
            let value = machine.pop();
            machine.store_local(local_index(method, offset, slot), value);
        },
        Effect::Pop(count) => machine.pop_n(count),
        Effect::Dup => {
            if machine.stack_len() > 0 {
                let value = *machine.peek().unwrap();
                machine.push(value);
            }
        },
        Effect::Dup2 => {
            let len = machine.stack_len();
            if len >= 2 {
                let left = machine.stack_values()[len - 2];
                let right = machine.stack_values()[len - 1];
                machine.push(left);
                machine.push(right);
            } else if len == 1 {
                let value = machine.stack_values()[0];
                machine.push(value);
                machine.push(value);
            }
        },
        Effect::Swap => {
            let right = machine.pop();
            let left = machine.pop();
            machine.push(right);
            machine.push(left);
        },
        Effect::PopAndPush { pop_count, push } => {
            machine.pop_n(pop_count);
            match push {
                PushKind::Unknown => machine.push(unknown),
                PushKind::Scalar => machine.push(scalar),
            }
        },
        Effect::MultiANewArray => {
            let dims: usize = if offset < method.bytecode.len() && method.bytecode.len() - offset > 3 {
                method.bytecode[offset + 3] as usize
            } else {
                1
            };
            machine.pop_n(dims);
            machine.push(unknown);
        },
    }
}

/// Rule hook points around the default opcode semantics. Each hook states,
/// through its spec functions, what its two calls return and leave behind.
pub trait SemanticsHooks<V: Copy>: Sized {
    /// What `pre_apply` returns on `machine` at `offset` for `opcode`.
    spec fn pre_outcome(&self, machine: StackMachine<V>, method: Method, offset: usize, opcode: u8) -> ApplyOutcome;

    /// `pre_apply` may leave the hooks `hooks` and the machine `after`.
    spec fn pre_applied(
        &self,
        machine: StackMachine<V>,
        method: Method,
        offset: usize,
        opcode: u8,
        hooks: Self,
        after: StackMachine<V>,
    ) -> bool;

    /// `post_apply` told `outcome` may leave the hooks `hooks` and the
    /// machine `after`.
    spec fn post_applied(
        &self,
        machine: StackMachine<V>,
        method: Method,
        offset: usize,
        opcode: u8,
        outcome: ApplyOutcome,
        hooks: Self,
        after: StackMachine<V>,
    ) -> bool;

    /// Runs before the default semantics; `Applied` replaces them.
    fn pre_apply(
        &mut self,
        machine: &mut StackMachine<V>,
        method: &Method,
        offset: usize,
        opcode: u8,
    ) -> (res: ApplyOutcome)
        ensures
            res == old(self).pre_outcome(*old(machine), *method, offset, opcode),
            old(self).pre_applied(*old(machine), *method, offset, opcode, *final(self), *final(machine)),
    ;

    /// Runs after the opcode was handled (or not).
    fn post_apply(
        &mut self,
        machine: &mut StackMachine<V>,
        method: &Method,
        offset: usize,
        opcode: u8,
        outcome: ApplyOutcome,
    )
        ensures
            old(self).post_applied(*old(machine), *method, offset, opcode, outcome, *final(self), *final(machine)),
    ;
}

/// Hooks that leave every opcode to the default semantics.
#[derive(Clone, Copy, Debug)]
pub struct NoHooks;

impl<V: Copy> SemanticsHooks<V> for NoHooks {
    open spec fn pre_outcome(&self, machine: StackMachine<V>, method: Method, offset: usize, opcode: u8) -> ApplyOutcome {
        ApplyOutcome::NotHandled
    }

    open spec fn pre_applied(
        &self,
        machine: StackMachine<V>,
        method: Method,
        offset: usize,
        opcode: u8,
        hooks: Self,
        after: StackMachine<V>,
    ) -> bool {
        after == machine
    }

    open spec fn post_applied(
        &self,
        machine: StackMachine<V>,
        method: Method,
        offset: usize,
        opcode: u8,
        outcome: ApplyOutcome,
        hooks: Self,
        after: StackMachine<V>,
    ) -> bool {
        after == machine
    }

    fn pre_apply(
        &mut self,
        machine: &mut StackMachine<V>,
        method: &Method,
        offset: usize,
        opcode: u8,
    ) -> (res: ApplyOutcome) {
        ApplyOutcome::NotHandled
    }

    fn post_apply(
        &mut self,
        machine: &mut StackMachine<V>,
        method: &Method,
        offset: usize,
        opcode: u8,
        outcome: ApplyOutcome,
    ) {
    }
}

/// Coverage counters have room for one more event of `opcode`.
pub open spec fn coverage_has_room(coverage: SemanticsCoverage, opcode: u8) -> bool {
    &&& coverage.applied_by_hook < usize::MAX
    &&& coverage.applied_by_default < usize::MAX
    &&& coverage.fallback_not_handled < usize::MAX
    &&& count_of(coverage.overridden(), opcode) < usize::MAX
    &&& count_of(coverage.fallbacks(), opcode) < usize::MAX
}

/// `new` counts one hook override of `opcode` more than `old`.
pub open spec fn counted_hook(old: SemanticsCoverage, new: SemanticsCoverage, opcode: u8) -> bool {
    &&& new.applied_by_hook == old.applied_by_hook + 1
    &&& new.applied_by_default == old.applied_by_default
    &&& new.fallback_not_handled == old.fallback_not_handled
    &&& new.overridden() == old.overridden().insert(opcode, (count_of(old.overridden(), opcode) + 1) as usize)
    &&& new.fallbacks() == old.fallbacks()
}

/// `new` counts one default application more than `old`.
pub open spec fn counted_default(old: SemanticsCoverage, new: SemanticsCoverage) -> bool {
    &&& new.applied_by_hook == old.applied_by_hook
    &&& new.applied_by_default == old.applied_by_default + 1
    &&& new.fallback_not_handled == old.fallback_not_handled
    &&& new.overridden() == old.overridden()
    &&& new.fallbacks() == old.fallbacks()
}

/// `new` counts one fallback of `opcode` more than `old`.
pub open spec fn counted_fallback(old: SemanticsCoverage, new: SemanticsCoverage, opcode: u8) -> bool {
    &&& new.applied_by_hook == old.applied_by_hook
    &&& new.applied_by_default == old.applied_by_default
    &&& new.fallback_not_handled == old.fallback_not_handled + 1
    &&& new.overridden() == old.overridden()
    &&& new.fallbacks() == old.fallbacks().insert(opcode, (count_of(old.fallbacks(), opcode) + 1) as usize)
}

/// `hooks` and `machine` become `hooks_after` and `after` when an opcode is
/// applied with outcome `res`: the pre-apply hook runs first; when it claims
/// the opcode, the post-apply hook runs on what it left, told `Applied`;
/// otherwise the default effect of the opcode (if any) is applied to what the
/// pre-apply hook left, and the post-apply hook runs on the result, told
/// whether the opcode was handled.
pub open spec fn semantics_applied<V: Copy, H: SemanticsHooks<V>>(
    hooks: H,
    machine: StackMachine<V>,
    method: Method,
    offset: usize,
    opcode: u8,
    unknown: V,
    scalar: V,
    res: ApplyOutcome,
    hooks_after: H,
    after: StackMachine<V>,
) -> bool {
    exists|h1: H, m1: StackMachine<V>, m2: StackMachine<V>|
        #![trigger hooks.pre_applied(machine, method, offset, opcode, h1, m1), h1.post_applied(m2, method, offset, opcode, res, hooks_after, after)]
        {
            &&& hooks.pre_applied(machine, method, offset, opcode, h1, m1)
            &&& h1.post_applied(m2, method, offset, opcode, res, hooks_after, after)
            &&& if hooks.pre_outcome(machine, method, offset, opcode) == ApplyOutcome::Applied {
                res == ApplyOutcome::Applied && m2 == m1
            } else {
                match effect_of(opcode) {
                    Some(effect) => res == ApplyOutcome::Applied && effect_applied(
                        m1,
                        m2,
                        method.bytecode@,
                        offset,
                        unknown,
                        scalar,
                        effect,
                    ),
                    None => res == ApplyOutcome::NotHandled && m2 == m1,
                }
            }
        }
}

/// Applies an opcode: a hook that claims it wins; otherwise the default table
/// applies when it covers the opcode, and the opcode is left unhandled when not.
/// Each case is counted in `coverage`.
pub fn apply_semantics<V: Copy, D: ValueDomain<V>, H: SemanticsHooks<V>>(
    machine: &mut StackMachine<V>,
    method: &Method,
    offset: usize,
    opcode: u8,
    domain: &D,
    hooks: &mut H,
    coverage: &mut SemanticsCoverage,
    debug_config: SemanticsDebugConfig,
) -> (res: ApplyOutcome)
    requires
        coverage_has_room(*old(coverage), opcode),
    ensures
        semantics_applied(
            *old(hooks),
            *old(machine),
            *method,
            offset,
            opcode,
            domain.unknown_spec(),
            domain.scalar_spec(),
            res,
            *final(hooks),
            *final(machine),
        ),
        res == ApplyOutcome::Applied && counted_hook(*old(coverage), *final(coverage), opcode)
            <== old(hooks).pre_outcome(*old(machine), *method, offset, opcode) == ApplyOutcome::Applied,
        old(hooks).pre_outcome(*old(machine), *method, offset, opcode) == ApplyOutcome::NotHandled ==> match effect_of(opcode) {
            Some(_) => res == ApplyOutcome::Applied && counted_default(*old(coverage), *final(coverage)),
            None => res == ApplyOutcome::NotHandled && counted_fallback(*old(coverage), *final(coverage), opcode),
        },
{
    let ghost h0 = *hooks;
    let ghost m0 = *machine;
    let pre = hooks.pre_apply(machine, method, offset, opcode);
    let ghost h1 = *hooks;
    let ghost m1 = *machine;
    if pre == ApplyOutcome::Applied {
        coverage.record_hook_override(opcode);
        hooks.post_apply(machine, method, offset, opcode, ApplyOutcome::Applied);
        proof {
            assert(h0.pre_applied(m0, *method, offset, opcode, h1, m1));
            assert(h1.post_applied(m1, *method, offset, opcode, ApplyOutcome::Applied, *hooks, *machine));
        }
        return ApplyOutcome::Applied;
    }
    let outcome = match decode(opcode) {
        Some(effect) => {
            apply_effect(machine, method, offset, domain, effect);
            coverage.record_default_apply();
            ApplyOutcome::Applied
        },
        None => {
            coverage.record_fallback(opcode);
            ApplyOutcome::NotHandled
        },
    };
    let ghost m2 = *machine;
    hooks.post_apply(machine, method, offset, opcode, outcome);
    proof {
        assert(h0.pre_applied(m0, *method, offset, opcode, h1, m1));
        assert(h1.post_applied(m2, *method, offset, opcode, outcome, *hooks, *machine));
    }
    outcome
}

/// Applies the default table alone, without hooks or coverage.
pub fn apply_default_semantics<V: Copy, D: ValueDomain<V>>(
    machine: &mut StackMachine<V>,
    method: &Method,
    offset: usize,
    opcode: u8,
    domain: &D,
) -> (res: ApplyOutcome)
    ensures
        res == (if effect_of(opcode) is Some {
            ApplyOutcome::Applied
        } else {
            ApplyOutcome::NotHandled
        }),
        match effect_of(opcode) {
            Some(effect) => effect_applied(
                *old(machine),
                *final(machine),
                method.bytecode@,
                offset,
                domain.unknown_spec(),
                domain.scalar_spec(),
                effect,
            ),
            None => *final(machine) == *old(machine),
        },
{
    match decode(opcode) {
        Some(effect) => {
            apply_effect(machine, method, offset, domain, effect);
            ApplyOutcome::Applied
        },
        None => ApplyOutcome::NotHandled,
    }
}

/// Adds the per-opcode counts of `other` into `counts`.
fn merge_counts(counts: &mut BTreeMap<u8, usize>, other: &BTreeMap<u8, usize>)
    requires
        forall|op: u8| #[trigger] count_of(old(counts)@, op) + count_of(other@, op) <= usize::MAX,
    ensures
        forall|op: u8| #[trigger] count_of(final(counts)@, op) == count_of(old(counts)@, op) + count_of(other@, op),
        forall|op: u8| #[trigger] final(counts)@.contains_key(op) == (old(counts)@.contains_key(op) || other@.contains_key(op)),
{
    let ghost start = counts@;
    let mut op: u16 = 0;
    while op < 256
        invariant
            op <= 256,
            forall|o: u8| #[trigger] count_of(start, o) + count_of(other@, o) <= usize::MAX,
            forall|o: u8| #[trigger] count_of(counts@, o) == if (o as u16) < op {
                count_of(start, o) + count_of(other@, o)
            } else {
                count_of(start, o)
            },
            forall|o: u8| #[trigger] counts@.contains_key(o) == if (o as u16) < op {
                start.contains_key(o) || other@.contains_key(o)
            } else {
                start.contains_key(o)
            },
        decreases 256 - op,
    {
        let code: u8 = op as u8;
        assert(code as u16 == op);
        assert(count_of(start, code) + count_of(other@, code) <= usize::MAX);
        assert(count_of(counts@, code) == count_of(start, code));
        let ghost before = counts@;
        match other.get(&code) {
            Some(extra) => {
                let current: usize = match counts.get(&code) {
                    Some(c) => *c,
                    None => 0,
                };
                counts.insert(code, current + *extra);
            },
            None => {},
        }
        assert forall|o: u8| o != code implies #[trigger] count_of(counts@, o) == count_of(before, o)
            && counts@.contains_key(o) == before.contains_key(o) by {}
        op = op + 1;
    }
}

impl SemanticsCoverage {
    /// Adds another coverage snapshot into this one.
    pub fn merge_from(&mut self, other: &SemanticsCoverage)
        requires
            old(self).applied_by_hook + other.applied_by_hook <= usize::MAX,
            old(self).applied_by_default + other.applied_by_default <= usize::MAX,
            old(self).fallback_not_handled + other.fallback_not_handled <= usize::MAX,
            forall|op: u8| #[trigger] count_of(old(self).overridden(), op) + count_of(other.overridden(), op) <= usize::MAX,
            forall|op: u8| #[trigger] count_of(old(self).fallbacks(), op) + count_of(other.fallbacks(), op) <= usize::MAX,
        ensures
            final(self).applied_by_hook == old(self).applied_by_hook + other.applied_by_hook,
            final(self).applied_by_default == old(self).applied_by_default + other.applied_by_default,
            final(self).fallback_not_handled == old(self).fallback_not_handled + other.fallback_not_handled,
            forall|op: u8| #[trigger] count_of(final(self).overridden(), op) == count_of(old(self).overridden(), op)
                + count_of(other.overridden(), op),
            forall|op: u8| #[trigger] count_of(final(self).fallbacks(), op) == count_of(old(self).fallbacks(), op)
                + count_of(other.fallbacks(), op),
    {
        self.applied_by_hook = self.applied_by_hook + other.applied_by_hook;
        self.applied_by_default = self.applied_by_default + other.applied_by_default;
        self.fallback_not_handled = self.fallback_not_handled + other.fallback_not_handled;
        assert forall|op: u8| #[trigger] count_of(self.overridden_opcodes@, op) + count_of(
            other.overridden_opcodes@,
            op,
        ) <= usize::MAX by {
            assert(count_of(old(self).overridden(), op) + count_of(other.overridden(), op) <= usize::MAX);
        }
        merge_counts(&mut self.overridden_opcodes, &other.overridden_opcodes);
        assert forall|op: u8| #[trigger] count_of(self.fallback_opcodes@, op) + count_of(
            other.fallback_opcodes@,
            op,
        ) <= usize::MAX by {
            assert(count_of(old(self).fallbacks(), op) + count_of(other.fallbacks(), op) <= usize::MAX);
        }
        merge_counts(&mut self.fallback_opcodes, &other.fallback_opcodes);
    }
}

} // verus!
