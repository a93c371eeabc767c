//! Reports blocking waits on a `Future` reached while the method still holds
//! a lock: a monitor (`synchronized`) or a `java.util.concurrent` lock.
use vstd::prelude::*;
use crate::dataflow::frame::{ensure_local, ensured, pop_or_unknown};
use crate::dataflow::worklist::{InstructionStep, WorklistSemantics, WorklistState, analyze_method, insert_sorted_unique, strictly_increasing};
use crate::descriptor::{DescriptorType, ReturnKind, TypeShape, jdescriptor_parse, parse_method_descriptor, return_kind_of};
use crate::engine::{AnalysisContext, opt_view};
use crate::error::AnalysisError;
use crate::ir::{CallKind, CallSite, FieldRef, Instruction, InstructionKind, Method};
use crate::opcodes;
use crate::rules::location::{
    Finding, FindingView, RuleMetadata, finding, finding_views, method_location_spec,
    method_location_with_line, push_finding,
};
use crate::text::{ends_with, seq_ends_with, seq_starts_with, starts_with, str_eq};

verus! {

/// The simple name of `owner` (after its last `/`) ends with `Lock`; as `Lock`
/// holds no `/`, that is the same as the whole name ending with it.
pub open spec fn lock_owner_spec(owner: Seq<char>) -> bool {
    seq_ends_with(owner, "Lock"@)
}

/// Whether the class is a lock type by name.
pub fn is_lock_owner(owner: &str) -> (res: bool)
    ensures
        res == lock_owner_spec(owner@),
{
    ends_with(owner, "Lock")
}

/// The descriptor is `L<name>;` for a lock class name.
pub open spec fn lock_descriptor_spec(d: Seq<char>) -> bool {
    &&& d.len() >= 2
    &&& d[0] == 'L'
    &&& d.last() == ';'
    &&& lock_owner_spec(d.subrange(1, d.len() - 1))
}

/// Whether a field descriptor names a lock class.
pub fn is_lock_descriptor(descriptor: &str) -> (res: bool)
    ensures
        res == lock_descriptor_spec(descriptor@),
{
    let d = crate::text::chars_of(descriptor);
    let n = d.len();
    proof {
        reveal_strlit("Lock");
    }
    if n < 2 || d[0] != 'L' || d[n - 1] != ';' {
        return false;
    }
    let ghost inner = descriptor@.subrange(1, n - 1);
    if n < 6 {
        assert(inner.len() < 4);
        return false;
    }
    let res = d[n - 5] == 'L' && d[n - 4] == 'o' && d[n - 3] == 'c' && d[n - 2] == 'k';
    proof {
        let tail = inner.subrange(inner.len() - 4, inner.len() as int);
        assert(tail =~= descriptor@.subrange(n - 5, n - 1));
        if res {
            assert(tail =~= "Lock"@);
        } else {
            assert(tail != "Lock"@) by {
                if tail == "Lock"@ {
                    assert(tail[0] == 'L' && tail[1] == 'o' && tail[2] == 'c' && tail[3] == 'k');
                }
            }
        }
    }
    res
}

/// A `java.util.concurrent` future type whose `get` blocks.
pub open spec fn future_owner_spec(owner: Seq<char>) -> bool {
    ||| owner == "java/util/concurrent/Future"@
    ||| owner == "java/util/concurrent/FutureTask"@
    ||| owner == "java/util/concurrent/ForkJoinTask"@
    ||| (seq_starts_with(owner, "java/util/concurrent/"@) && seq_ends_with(owner, "Future"@))
}

/// Whether the class is a blocking future type.
/// A blocking future owner is `Future`, `FutureTask` or `ForkJoinTask` of
/// `java.util.concurrent`, or any class of that package (the name after the
/// 21 characters `java/util/concurrent/`) whose name ends in `Future`, such
/// as `CompletableFuture` or `ScheduledFuture`; nothing else is.
pub proof fn lemma_future_owner_names(owner: Seq<char>)
    ensures
        future_owner_spec(owner) <==> {
            ||| owner == "java/util/concurrent/Future"@
            ||| owner == "java/util/concurrent/FutureTask"@
            ||| owner == "java/util/concurrent/ForkJoinTask"@
            ||| (owner.len() >= 27 && owner.subrange(0, 21) == "java/util/concurrent/"@ && owner.subrange(
                owner.len() - 6,
                owner.len() as int,
            ) == "Future"@)
        },
{
    reveal_strlit("java/util/concurrent/");
    reveal_strlit("Future");
    let p = "java/util/concurrent/"@;
    let f = "Future"@;
    if seq_starts_with(owner, p) && seq_ends_with(owner, f) && owner.len() < 27 {
        let k = 20 - (owner.len() - 6);
        assert(owner.subrange(0, 21)[20] == owner[20]);
        assert(owner[20] == '/');
        assert(0 <= k < 6);
        assert(owner.subrange(owner.len() - 6, owner.len() as int)[k] == owner[20]);
        assert(f[k] != '/');
    }
}

/// Every class of `java.util.concurrent` whose name ends in `Future` is a
/// blocking future owner.
pub proof fn lemma_concurrent_futures_block(pkg_class: Seq<char>)
    requires
        pkg_class.len() >= 6,
        pkg_class.subrange(pkg_class.len() - 6, pkg_class.len() as int) == "Future"@,
    ensures
        future_owner_spec("java/util/concurrent/"@ + pkg_class),
{
    reveal_strlit("java/util/concurrent/");
    reveal_strlit("Future");
    let o = "java/util/concurrent/"@ + pkg_class;
    assert(o.subrange(0, 21) =~= "java/util/concurrent/"@);
    assert(o.subrange(o.len() - 6, o.len() as int) =~= pkg_class.subrange(pkg_class.len() - 6, pkg_class.len() as int));
    lemma_future_owner_names(o);
}
pub fn is_future_owner(owner: &str) -> (res: bool)
    ensures
        res == future_owner_spec(owner@),
{
    str_eq(owner, "java/util/concurrent/Future") || str_eq(owner, "java/util/concurrent/FutureTask") || str_eq(
        owner,
        "java/util/concurrent/ForkJoinTask",
    ) || (starts_with(owner, "java/util/concurrent/") && ends_with(owner, "Future"))
}

/// A blocking wait: `get()` or timed `get` on a future type, or
/// `CompletableFuture.join()`.
pub open spec fn wait_call_spec(call: CallSite) -> bool {
    let n = call.name@;
    let d = call.descriptor@;
    ||| (n == "get"@ && (d == "()Ljava/lang/Object;"@ || d == "(JLjava/util/concurrent/TimeUnit;)Ljava/lang/Object;"@)
        && future_owner_spec(call.owner@))
    ||| (n == "join"@ && d == "()Ljava/lang/Object;"@ && call.owner@ == "java/util/concurrent/CompletableFuture"@)
}

/// Whether the call blocks on a future.
pub fn is_wait_call(call: &CallSite) -> (res: bool)
    ensures
        res == wait_call_spec(*call),
{
    proof {
        reveal_strlit("get");
        reveal_strlit("join");
    }
    let n = call.name.as_str();
    let d = call.descriptor.as_str();
    if str_eq(n, "get") && (str_eq(d, "()Ljava/lang/Object;") || str_eq(
        d,
        "(JLjava/util/concurrent/TimeUnit;)Ljava/lang/Object;",
    )) {
        assert("get"@.len() != "join"@.len());
        return is_future_owner(call.owner.as_str());
    }
    if str_eq(n, "join") && str_eq(d, "()Ljava/lang/Object;") {
        return str_eq(call.owner.as_str(), "java/util/concurrent/CompletableFuture");
    }
    false
}

/// `lock()` on a lock type.
pub open spec fn lock_call_spec(call: CallSite) -> bool {
    call.name@ == "lock"@ && call.descriptor@ == "()V"@ && lock_owner_spec(call.owner@)
}

/// `unlock()` on a lock type.
pub open spec fn unlock_call_spec(call: CallSite) -> bool {
    call.name@ == "unlock"@ && call.descriptor@ == "()V"@ && lock_owner_spec(call.owner@)
}

/// Whether the call acquires a lock.
pub fn is_lock_call(call: &CallSite) -> (res: bool)
    ensures
        res == lock_call_spec(*call),
{
    str_eq(call.name.as_str(), "lock") && str_eq(call.descriptor.as_str(), "()V") && is_lock_owner(call.owner.as_str())
}

/// Whether the call releases a lock.
pub fn is_unlock_call(call: &CallSite) -> (res: bool)
    ensures
        res == unlock_call_spec(*call),
{
    str_eq(call.name.as_str(), "unlock") && str_eq(call.descriptor.as_str(), "()V") && is_lock_owner(
        call.owner.as_str(),
    )
}

/// The method waits on a future and may hold a lock somewhere: it is
/// `synchronized`, has a monitor instruction, or calls `lock`/`unlock`.
pub open spec fn needs_analysis_spec(m: Method) -> bool {
    &&& exists|k: int| 0 <= k < m.calls@.len() && wait_call_spec(#[trigger] m.calls@[k])
    &&& {
        ||| m.access.is_synchronized
        ||| exists|k: int|
            0 <= k < m.bytecode@.len() && (#[trigger] m.bytecode@[k] == opcodes::MONITORENTER
                || m.bytecode@[k] == opcodes::MONITOREXIT)
        ||| exists|k: int|
            0 <= k < m.calls@.len() && (lock_call_spec(#[trigger] m.calls@[k]) || unlock_call_spec(m.calls@[k]))
    }
}

/// Whether the method is worth analyzing.
pub fn method_needs_analysis(method: &Method) -> (res: bool)
    ensures
        res == needs_analysis_spec(*method),
{
    let mut has_wait = false;
    let mut has_lock_call = false;
    let mut k: usize = 0;
    while k < method.calls.len()
        invariant
            k <= method.calls@.len(),
            has_wait == exists|j: int| 0 <= j < k && wait_call_spec(#[trigger] method.calls@[j]),
            has_lock_call == exists|j: int|
                0 <= j < k && (lock_call_spec(#[trigger] method.calls@[j]) || unlock_call_spec(method.calls@[j])),
        decreases method.calls.len() - k,
    {
        let call = &method.calls[k];
        if is_wait_call(call) {
            has_wait = true;
        }
        if is_lock_call(call) || is_unlock_call(call) {
            has_lock_call = true;
        }
        k = k + 1;
    }
    if !has_wait {
        return false;
    }
    let mut has_monitor = false;
    let mut k: usize = 0;
    while k < method.bytecode.len()
        invariant
            k <= method.bytecode@.len(),
            has_monitor == exists|j: int|
                0 <= j < k && (#[trigger] method.bytecode@[j] == opcodes::MONITORENTER || method.bytecode@[j]
                    == opcodes::MONITOREXIT),
        decreases method.bytecode.len() - k,
    {
        let b = method.bytecode[k];
        if b == opcodes::MONITORENTER || b == opcodes::MONITOREXIT {
            has_monitor = true;
        }
        k = k + 1;
    }
    method.access.is_synchronized || has_monitor || has_lock_call
}


/// What a lock value is: a static field or a field of `this` (by the index
/// of the field in the method's lock-field table), or a parameter (by its local
/// slot).
#[derive(Clone, Copy, Debug, PartialEq, Eq, PartialOrd, Ord, Structural)]
pub enum LockIdentity {
    StaticField(usize),
    ThisField(usize),
    Param(usize),
}

/// An abstract reference value.
#[derive(Clone, Copy, Debug, PartialEq, Eq, PartialOrd, Ord, Structural)]
pub enum Value {
    Unknown,
    Other,
    This,
    Lock(LockIdentity),
}

/// A wait site reached with or without a lock held.
#[derive(Clone, Copy, Debug, PartialEq, Eq, PartialOrd, Ord, Structural)]
pub struct WaitObservation {
    pub offset: u32,
    pub lock_held: bool,
}

/// Program point, monitor depth, the locks held (each once), locals and
/// operand stack.
#[derive(Clone, Debug, PartialEq, Eq, PartialOrd, Ord)]
pub struct WaitState {
    pub block_start: u32,
    pub instruction_index: usize,
    pub monitor_depth: u8,
    pub held_locks: Vec<LockIdentity>,
    pub locals: Vec<Value>,
    pub stack: Vec<Value>,
}

/// A wait state as plain values.
#[verifier::ext_equal]
pub struct WaitView {
    pub block_start: u32,
    pub instruction_index: usize,
    pub monitor_depth: u8,
    pub held: Seq<LockIdentity>,
    pub locals: Seq<Value>,
    pub stack: Seq<Value>,
}

impl View for WaitState {
    type V = WaitView;

    open spec fn view(&self) -> WaitView {
        WaitView {
            block_start: self.block_start,
            instruction_index: self.instruction_index,
            monitor_depth: self.monitor_depth,
            held: self.held_locks@,
            locals: self.locals@,
            stack: self.stack@,
        }
    }
}

impl WorklistState for WaitState {
    closed spec fn position(self) -> (u32, usize) {
        (self.block_start, self.instruction_index)
    }

    closed spec fn repositioned(self, block_start: u32, instruction_index: usize) -> Self {
        WaitState { block_start, instruction_index, ..self }
    }

    proof fn lemma_repositioned(self, block_start: u32, instruction_index: usize) {
    }

    fn block_start(&self) -> (res: u32) {
        self.block_start
    }

    fn instruction_index(&self) -> (res: usize) {
        self.instruction_index
    }

    fn set_position(&mut self, block_start: u32, instruction_index: usize) {
        self.block_start = block_start;
        self.instruction_index = instruction_index;
    }
}

/// Two field references name the same field.
pub open spec fn same_field(a: FieldRef, b: FieldRef) -> bool {
    a.owner@ == b.owner@ && a.name@ == b.name@ && a.descriptor@ == b.descriptor@
}

/// No field occurs twice in the table.
pub open spec fn distinct_fields(t: Seq<FieldRef>) -> bool {
    forall|i: int, j: int| 0 <= i < j < t.len() ==> !same_field(#[trigger] t[i], #[trigger] t[j])
}

/// The index of `f` in a table without repeats.
pub open spec fn field_index(t: Seq<FieldRef>, f: FieldRef) -> Option<int> {
    if exists|k: int| 0 <= k < t.len() && same_field(#[trigger] t[k], f) {
        Some(choose|k: int| 0 <= k < t.len() && same_field(#[trigger] t[k], f))
    } else {
        None
    }
}

/// Whether two field references name the same field.
pub fn fields_equal(a: &FieldRef, b: &FieldRef) -> (res: bool)
    ensures
        res == same_field(*a, *b),
{
    str_eq(a.owner.as_str(), b.owner.as_str()) && str_eq(a.name.as_str(), b.name.as_str()) && str_eq(
        a.descriptor.as_str(),
        b.descriptor.as_str(),
    )
}

/// A copy of a field reference.
pub fn copy_field(f: &FieldRef) -> (res: FieldRef)
    ensures
        same_field(res, *f),
{
    FieldRef { owner: f.owner.clone(), name: f.name.clone(), descriptor: f.descriptor.clone() }
}

/// The index of `f` in a table without repeats.
pub fn lookup_field(table: &Vec<FieldRef>, f: &FieldRef) -> (res: Option<usize>)
    requires
        distinct_fields(table@),
    ensures
        match field_index(table@, *f) {
            Some(k) => res == Some(k as usize),
            None => res is None,
        },
{
    let mut i: usize = 0;
    while i < table.len()
        invariant
            i <= table@.len(),
            distinct_fields(table@),
            forall|j: int| 0 <= j < i ==> !same_field(#[trigger] table@[j], *f),
        decreases table.len() - i,
    {
        if fields_equal(&table[i], f) {
            proof {
                let k = choose|k: int| 0 <= k < table@.len() && same_field(#[trigger] table@[k], *f);
                if k != i {
                    if k < i {
                        assert(!same_field(table@[k], *f));
                    } else {
                        assert(!same_field(table@[i as int], table@[k]));
                    }
                }
            }
            return Some(i);
        }
        i = i + 1;
    }
    None
}

/// The instruction at position `k` of block `b` of the method.
pub open spec fn instruction_of(m: Method, b: int, k: int) -> Instruction {
    m.cfg.blocks@[b].instructions@[k]
}

/// The position `(b, k)` is an instruction of the method.
pub open spec fn valid_position(m: Method, b: int, k: int) -> bool {
    0 <= b < m.cfg.blocks@.len() && 0 <= k < m.cfg.blocks@[b].instructions@.len()
}

/// The instruction accesses a lock-typed field `f`.
pub open spec fn accesses_lock_field(i: Instruction, f: FieldRef) -> bool {
    i.kind == InstructionKind::FieldAccess(f) && lock_descriptor_spec(f.descriptor@)
}

/// The lock-typed fields the method's instructions access, each once.
pub fn lock_field_table(method: &Method) -> (res: Vec<FieldRef>)
    ensures
        distinct_fields(res@),
        forall|i: int| 0 <= i < res@.len() ==> lock_descriptor_spec(#[trigger] res@[i].descriptor@),
        forall|b: int, k: int, f: FieldRef|
            valid_position(*method, b, k) && #[trigger] accesses_lock_field(instruction_of(*method, b, k), f)
                ==> field_index(res@, f) is Some,
{
    let mut table: Vec<FieldRef> = Vec::new();
    let blocks = &method.cfg.blocks;
    let mut b: usize = 0;
    while b < blocks.len()
        invariant
            b <= blocks@.len(),
            blocks@ == method.cfg.blocks@,
            distinct_fields(table@),
            forall|i: int| 0 <= i < table@.len() ==> lock_descriptor_spec(#[trigger] table@[i].descriptor@),
            forall|b2: int, k: int, f: FieldRef|
                0 <= b2 < b && valid_position(*method, b2, k) && #[trigger] accesses_lock_field(
                    instruction_of(*method, b2, k),
                    f,
                ) ==> exists|j: int| 0 <= j < table@.len() && same_field(#[trigger] table@[j], f),
        decreases blocks.len() - b,
    {
        let instructions = &blocks[b].instructions;
        let mut k: usize = 0;
        while k < instructions.len()
            invariant
                b < blocks@.len(),
                blocks@ == method.cfg.blocks@,
                instructions@ == blocks@[b as int].instructions@,
                k <= instructions@.len(),
                distinct_fields(table@),
                forall|i: int| 0 <= i < table@.len() ==> lock_descriptor_spec(#[trigger] table@[i].descriptor@),
                forall|b2: int, k2: int, f: FieldRef|
                    0 <= b2 < b && valid_position(*method, b2, k2) && #[trigger] accesses_lock_field(
                        instruction_of(*method, b2, k2),
                        f,
                    ) ==> exists|j: int| 0 <= j < table@.len() && same_field(#[trigger] table@[j], f),
                forall|k2: int, f: FieldRef|
                    0 <= k2 < k && #[trigger] accesses_lock_field(instructions@[k2], f) ==> exists|j: int|
                        0 <= j < table@.len() && same_field(#[trigger] table@[j], f),
            decreases instructions.len() - k,
        {
            match &instructions[k].kind {
                InstructionKind::FieldAccess(f) => {
                    if is_lock_descriptor(f.descriptor.as_str()) {
                        match lookup_field(&table, f) {
                            Some(_) => {},
                            None => {
                                let ghost old_table = table@;
                                table.push(copy_field(f));
                                proof {
                                    assert(same_field(table@[old_table.len() as int], *f));
                                    assert forall|i: int, j: int| 0 <= i < j < table@.len() implies !same_field(
                                        #[trigger] table@[i],
                                        #[trigger] table@[j],
                                    ) by {
                                        if j == old_table.len() {
                                            assert(table@[i] == old_table[i]);
                                            assert(!same_field(old_table[i], *f));
                                        } else {
                                            assert(table@[i] == old_table[i] && table@[j] == old_table[j]);
                                        }
                                    }
                                    assert forall|b2: int, k2: int, g: FieldRef|
                                        0 <= b2 < b && valid_position(*method, b2, k2) && #[trigger] accesses_lock_field(
                                            instruction_of(*method, b2, k2),
                                            g,
                                        ) implies exists|j: int| 0 <= j < table@.len() && same_field(#[trigger] table@[j], g) by {
                                        let j = choose|j: int| 0 <= j < old_table.len() && same_field(#[trigger] old_table[j], g);
                                        assert(table@[j] == old_table[j]);
                                    }
                                    assert forall|k2: int, g: FieldRef|
                                        0 <= k2 <= k && #[trigger] accesses_lock_field(instructions@[k2], g) implies exists|j: int|
                                            0 <= j < table@.len() && same_field(#[trigger] table@[j], g) by {
                                        if k2 == k {
                                            assert(same_field(table@[old_table.len() as int], g));
                                        } else {
                                            let j = choose|j: int| 0 <= j < old_table.len() && same_field(#[trigger] old_table[j], g);
                                            assert(table@[j] == old_table[j]);
                                        }
                                    }
                                }
                            },
                        }
                    }
                },
                _ => {},
            }
            k = k + 1;
        }
        b = b + 1;
    }
    table
}


/// The top of the stack and the rest; `Unknown` and the same stack when it
/// is empty.
pub open spec fn pop_spec(s: Seq<Value>) -> (Seq<Value>, Value) {
    if s.len() == 0 {
        (s, Value::Unknown)
    } else {
        (s.drop_last(), s.last())
    }
}

/// The stack after `n` pops (each on an empty stack doing nothing).
pub open spec fn pop_n(s: Seq<Value>, n: nat) -> Seq<Value> {
    if n >= s.len() {
        Seq::empty()
    } else {
        s.subrange(0, s.len() - n)
    }
}

/// The value of a local slot, `Unknown` past the end.
pub open spec fn load_spec(l: Seq<Value>, i: int) -> Value {
    if 0 <= i < l.len() {
        l[i]
    } else {
        Value::Unknown
    }
}

/// The locals with slot `i` set to `v`, grown with `Unknown` as needed.
pub open spec fn store_spec(l: Seq<Value>, i: int, v: Value) -> Seq<Value> {
    ensured(l, i, Value::Unknown).update(i, v)
}

/// The held locks with `l` added once.
pub open spec fn insert_lock(h: Seq<LockIdentity>, l: LockIdentity) -> Seq<LockIdentity> {
    if h.contains(l) {
        h
    } else {
        h.push(l)
    }
}

/// Keeps the locks other than `l`.
pub open spec fn other_than(l: LockIdentity) -> spec_fn(LockIdentity) -> bool {
    |x: LockIdentity| x != l
}

/// The held locks without `l`.
pub open spec fn remove_lock(h: Seq<LockIdentity>, l: LockIdentity) -> Seq<LockIdentity> {
    h.filter(other_than(l))
}

/// The byte after the opcode (a local slot operand), or 0 past the end of the
/// code.
pub open spec fn operand_index(bytecode: Seq<u8>, offset: u32) -> int {
    if offset + 1 < bytecode.len() {
        bytecode[offset + 1] as int
    } else {
        0
    }
}

/// The value read from an instance field: a lock of `this` for a lock-typed
/// field read from `this`, anything else otherwise.
pub open spec fn instance_field_value(t: Seq<FieldRef>, f: FieldRef, receiver: Value) -> Value {
    if lock_descriptor_spec(f.descriptor@) && receiver == Value::This {
        match field_index(t, f) {
            Some(k) => Value::Lock(LockIdentity::ThisField(k as usize)),
            None => Value::Other,
        }
    } else {
        Value::Other
    }
}

/// The value read from a static field: a lock for a lock-typed field.
pub open spec fn static_field_value(t: Seq<FieldRef>, f: FieldRef) -> Value {
    if lock_descriptor_spec(f.descriptor@) {
        match field_index(t, f) {
            Some(k) => Value::Lock(LockIdentity::StaticField(k as usize)),
            None => Value::Other,
        }
    } else {
        Value::Other
    }
}

/// The operand stack after a field instruction.
pub open spec fn field_step(t: Seq<FieldRef>, opcode: u8, f: FieldRef, st: Seq<Value>) -> Seq<Value> {
    if opcode == opcodes::GETFIELD {
        let (rest, receiver) = pop_spec(st);
        rest.push(instance_field_value(t, f, receiver))
    } else if opcode == opcodes::GETSTATIC {
        st.push(static_field_value(t, f))
    } else if opcode == opcodes::PUTFIELD {
        pop_n(st, 2)
    } else if opcode == opcodes::PUTSTATIC {
        pop_n(st, 1)
    } else {
        st
    }
}

/// The lock a call is made on: the receiver below `param_count` arguments.
pub open spec fn receiver_lock(call: CallSite, st: Seq<Value>, param_count: nat) -> Option<LockIdentity> {
    if call.kind == CallKind::Static || param_count >= st.len() {
        None
    } else {
        match st[st.len() - 1 - param_count] {
            Value::Lock(l) => Some(l),
            _ => None,
        }
    }
}

/// The held locks after a call.
pub open spec fn invoke_held(call: CallSite, h: Seq<LockIdentity>, receiver: Option<LockIdentity>) -> Seq<LockIdentity> {
    if wait_call_spec(call) {
        h
    } else if lock_call_spec(call) {
        match receiver {
            Some(l) => insert_lock(h, l),
            None => h,
        }
    } else if unlock_call_spec(call) {
        match receiver {
            Some(l) => remove_lock(h, l),
            None => h,
        }
    } else {
        h
    }
}

/// The operand stack after a call: arguments and receiver popped, and a value
/// pushed for a non-`void` result.
pub open spec fn invoke_stack(call: CallSite, st: Seq<Value>, params: Seq<TypeShape>, ret: TypeShape) -> Seq<Value> {
    let popped = pop_n(pop_n(st, params.len()), if call.kind == CallKind::Static { 0 } else { 1 });
    if return_kind_of(ret) == ReturnKind::Void {
        popped
    } else {
        popped.push(Value::Other)
    }
}

/// A monitor or a lock is held.
pub open spec fn lock_held_spec(s: WaitView) -> bool {
    s.monitor_depth > 0 || s.held.len() > 0
}

/// What a call reports: its offset and whether a lock is held, for a wait.
pub open spec fn invoke_observations(call: CallSite, s: WaitView) -> Seq<WaitObservation> {
    if wait_call_spec(call) {
        seq![WaitObservation { offset: call.offset, lock_held: lock_held_spec(s) }]
    } else {
        Seq::empty()
    }
}

/// The state after an instruction that is neither a call nor a field access.
pub open spec fn opcode_step(bytecode: Seq<u8>, ins: Instruction, s: WaitView) -> WaitView {
    let op = ins.opcode;
    if op == opcodes::ACONST_NULL {
        WaitView { stack: s.stack.push(Value::Unknown), ..s }
    } else if op == opcodes::ALOAD {
        WaitView { stack: s.stack.push(load_spec(s.locals, operand_index(bytecode, ins.offset))), ..s }
    } else if opcodes::ALOAD_0 <= op <= opcodes::ALOAD_3 {
        WaitView { stack: s.stack.push(load_spec(s.locals, op - opcodes::ALOAD_0)), ..s }
    } else if op == opcodes::ASTORE {
        let (rest, v) = pop_spec(s.stack);
        WaitView { stack: rest, locals: store_spec(s.locals, operand_index(bytecode, ins.offset), v), ..s }
    } else if opcodes::ASTORE_0 <= op <= opcodes::ASTORE_3 {
        let (rest, v) = pop_spec(s.stack);
        WaitView { stack: rest, locals: store_spec(s.locals, op - opcodes::ASTORE_0, v), ..s }
    } else if op == opcodes::DUP {
        if s.stack.len() > 0 {
            WaitView { stack: s.stack.push(s.stack.last()), ..s }
        } else {
            s
        }
    } else if op == opcodes::POP {
        WaitView { stack: pop_n(s.stack, 1), ..s }
    } else if op == opcodes::POP2 {
        WaitView { stack: pop_n(s.stack, 2), ..s }
    } else if op == opcodes::MONITORENTER {
        WaitView {
            stack: pop_n(s.stack, 1),
            monitor_depth: if s.monitor_depth == 255 { 255 } else { (s.monitor_depth + 1) as u8 },
            ..s
        }
    } else if op == opcodes::MONITOREXIT {
        WaitView {
            stack: pop_n(s.stack, 1),
            monitor_depth: if s.monitor_depth == 0 { 0 } else { (s.monitor_depth - 1) as u8 },
            ..s
        }
    } else if op == opcodes::NEW {
        WaitView { stack: s.stack.push(Value::Other), ..s }
    } else {
        s
    }
}

/// The transfer fails: a call whose descriptor does not parse.
pub open spec fn transfer_fails(ins: Instruction) -> bool {
    match ins.kind {
        InstructionKind::Invoke(call) => jdescriptor_parse(call.descriptor@) is None,
        _ => false,
    }
}

/// The state after an instruction and what it reports.
pub open spec fn transfer_spec(bytecode: Seq<u8>, t: Seq<FieldRef>, ins: Instruction, s: WaitView) -> (
    WaitView,
    Seq<WaitObservation>,
) {
    match ins.kind {
        InstructionKind::Invoke(call) => match jdescriptor_parse(call.descriptor@) {
            Some((params, ret)) => (
                WaitView {
                    held: invoke_held(call, s.held, receiver_lock(call, s.stack, params.len())),
                    stack: invoke_stack(call, s.stack, params, ret),
                    ..s
                },
                invoke_observations(call, s),
            ),
            None => (s, Seq::empty()),
        },
        InstructionKind::FieldAccess(f) => (WaitView { stack: field_step(t, ins.opcode, f, s.stack), ..s }, Seq::empty()),
        _ => (opcode_step(bytecode, ins, s), Seq::empty()),
    }
}


/// The value of a local slot, `Unknown` past the end.
pub fn load_local(locals: &Vec<Value>, index: usize) -> (res: Value)
    ensures
        res == load_spec(locals@, index as int),
{
    if index < locals.len() {
        locals[index]
    } else {
        Value::Unknown
    }
}

/// Sets a local slot, growing the locals with `Unknown` as needed.
pub fn store_local(locals: &mut Vec<Value>, index: usize, value: Value)
    requires
        index < usize::MAX,
    ensures
        final(locals)@ == store_spec(old(locals)@, index as int, value),
{
    ensure_local(locals, index, Value::Unknown);
    locals.set(index, value);
}

/// Pops `n` values (each pop on an empty stack does nothing).
pub fn pop_values(stack: &mut Vec<Value>, n: usize)
    ensures
        final(stack)@ == pop_n(old(stack)@, n as nat),
{
    let ghost start = stack@;
    let mut k: usize = 0;
    while k < n
        invariant
            k <= n,
            stack@ == pop_n(start, k as nat),
        decreases n - k,
    {
        stack.pop();
        k = k + 1;
        proof {
            if k < start.len() {
                assert(stack@ =~= start.subrange(0, start.len() - k));
            }
        }
    }
}

/// Adds a lock to the held locks, once.
pub fn hold_lock(held: &mut Vec<LockIdentity>, lock: LockIdentity)
    ensures
        final(held)@ == insert_lock(old(held)@, lock),
{
    let mut i: usize = 0;
    while i < held.len()
        invariant
            i <= held@.len(),
            forall|j: int| 0 <= j < i ==> held@[j] != lock,
        decreases held.len() - i,
    {
        if held[i] == lock {
            return;
        }
        i = i + 1;
    }
    held.push(lock);
}

/// Removes a lock from the held locks.
pub fn release_lock(held: &mut Vec<LockIdentity>, lock: LockIdentity)
    ensures
        final(held)@ == remove_lock(old(held)@, lock),
{
    let ghost start = held@;
    let mut kept: Vec<LockIdentity> = Vec::new();
    let mut i: usize = 0;
    proof {
        reveal(Seq::filter);
        assert(start.subrange(0, 0) =~= Seq::<LockIdentity>::empty());
    }
    while i < held.len()
        invariant
            held@ == start,
            i <= start.len(),
            kept@ == start.subrange(0, i as int).filter(other_than(lock)),
        decreases held.len() - i,
    {
        let x = held[i];
        proof {
            reveal(Seq::filter);
            assert(start.subrange(0, i + 1).drop_last() =~= start.subrange(0, i as int));
            assert(start.subrange(0, i + 1).last() == x);
        }
        if x != lock {
            kept.push(x);
        }
        i = i + 1;
    }
    assert(start.subrange(0, i as int) =~= start);
    *held = kept;
}

/// The byte after the opcode at `offset`, or 0 past the end of the code.
pub fn local_index_operand(method: &Method, offset: u32) -> (res: usize)
    ensures
        res == operand_index(method.bytecode@, offset),
        res < 256,
{
    let i = offset as usize;
    if i < method.bytecode.len() && i + 1 < method.bytecode.len() {
        method.bytecode[i + 1] as usize
    } else {
        0
    }
}

/// The lock a call is made on, below `param_count` arguments.
pub fn receiver_lock_of(call: &CallSite, stack: &Vec<Value>, param_count: usize) -> (res: Option<LockIdentity>)
    ensures
        res == receiver_lock(*call, stack@, param_count as nat),
{
    if call.kind == CallKind::Static || param_count >= stack.len() {
        return None;
    }
    match stack[stack.len() - 1 - param_count] {
        Value::Lock(l) => Some(l),
        _ => None,
    }
}

/// Applies a call: reports a wait, acquires or releases the receiver lock,
/// pops the operands and pushes a result.
pub fn transfer_invoke(call: &CallSite, state: &mut WaitState) -> (res: Result<InstructionStep<WaitObservation>, AnalysisError>)
    ensures
        jdescriptor_parse(call.descriptor@) is None ==> res is Err,
        jdescriptor_parse(call.descriptor@) matches Some((params, ret)) ==> (res matches Ok(step)
            && !step.terminate_path && step.findings@ == invoke_observations(*call, old(state)@) && final(state)@
            == (WaitView {
            held: invoke_held(*call, old(state)@.held, receiver_lock(*call, old(state)@.stack, params.len())),
            stack: invoke_stack(*call, old(state)@.stack, params, ret),
            ..old(state)@
        })),
{
    let summary = crate::descriptor::method_descriptor_summary(call.descriptor.as_str())?;
    let ghost before = state@;
    let param_count = summary.param_count;
    let receiver = receiver_lock_of(call, &state.stack, param_count);
    let mut step: InstructionStep<WaitObservation> = InstructionStep::continue_path();
    if is_wait_call(call) {
        let held = state.monitor_depth > 0 || state.held_locks.len() > 0;
        step = step.with_finding(WaitObservation { offset: call.offset, lock_held: held });
    } else if is_lock_call(call) {
        match receiver {
            Some(l) => hold_lock(&mut state.held_locks, l),
            None => {},
        }
    } else if is_unlock_call(call) {
        match receiver {
            Some(l) => release_lock(&mut state.held_locks, l),
            None => {},
        }
    }
    pop_values(&mut state.stack, param_count);
    if call.kind != CallKind::Static {
        pop_values(&mut state.stack, 1);
    }
    if summary.return_kind != ReturnKind::Void {
        state.stack.push(Value::Other);
    }
    proof {
        assert(step.findings@ =~= invoke_observations(*call, before));
        let (params, ret) = jdescriptor_parse(call.descriptor@).unwrap();
        assert(param_count == params.len());
        assert(state@.held == invoke_held(*call, before.held, receiver_lock(*call, before.stack, params.len())));
        assert(state@.stack =~= invoke_stack(*call, before.stack, params, ret));
        assert(state@ =~= (WaitView {
            held: invoke_held(*call, before.held, receiver_lock(*call, before.stack, params.len())),
            stack: invoke_stack(*call, before.stack, params, ret),
            ..before
        }));
    }
    Ok(step)
}

/// Applies a field instruction to the operand stack.
pub fn transfer_field_access(table: &Vec<FieldRef>, opcode: u8, field: &FieldRef, stack: &mut Vec<Value>)
    requires
        distinct_fields(table@),
    ensures
        final(stack)@ == field_step(table@, opcode, *field, old(stack)@),
{
    if opcode == opcodes::GETFIELD {
        let receiver = pop_or_unknown(stack, Value::Unknown);
        let value = if is_lock_descriptor(field.descriptor.as_str()) && receiver == Value::This {
            match lookup_field(table, field) {
                Some(k) => Value::Lock(LockIdentity::ThisField(k)),
                None => Value::Other,
            }
        } else {
            Value::Other
        };
        stack.push(value);
    } else if opcode == opcodes::GETSTATIC {
        let value = if is_lock_descriptor(field.descriptor.as_str()) {
            match lookup_field(table, field) {
                Some(k) => Value::Lock(LockIdentity::StaticField(k)),
                None => Value::Other,
            }
        } else {
            Value::Other
        };
        stack.push(value);
    } else if opcode == opcodes::PUTFIELD {
        pop_values(stack, 2);
    } else if opcode == opcodes::PUTSTATIC {
        pop_values(stack, 1);
    }
}

/// Applies an instruction that is neither a call nor a field access.
pub fn transfer_opcode(method: &Method, instruction: &Instruction, state: &mut WaitState)
    ensures
        final(state)@ == opcode_step(method.bytecode@, *instruction, old(state)@),
{
    let op = instruction.opcode;
    if op == opcodes::ACONST_NULL {
        state.stack.push(Value::Unknown);
    } else if op == opcodes::ALOAD {
        let index = local_index_operand(method, instruction.offset);
        let v = load_local(&state.locals, index);
        state.stack.push(v);
    } else if opcodes::ALOAD_0 <= op && op <= opcodes::ALOAD_3 {
        let v = load_local(&state.locals, (op - opcodes::ALOAD_0) as usize);
        state.stack.push(v);
    } else if op == opcodes::ASTORE {
        let index = local_index_operand(method, instruction.offset);
        let v = pop_or_unknown(&mut state.stack, Value::Unknown);
        store_local(&mut state.locals, index, v);
    } else if opcodes::ASTORE_0 <= op && op <= opcodes::ASTORE_3 {
        let v = pop_or_unknown(&mut state.stack, Value::Unknown);
        store_local(&mut state.locals, (op - opcodes::ASTORE_0) as usize, v);
    } else if op == opcodes::DUP {
        if state.stack.len() > 0 {
            let top = state.stack[state.stack.len() - 1];
            state.stack.push(top);
        }
    } else if op == opcodes::POP {
        pop_values(&mut state.stack, 1);
    } else if op == opcodes::POP2 {
        pop_values(&mut state.stack, 2);
    } else if op == opcodes::MONITORENTER {
        pop_values(&mut state.stack, 1);
        if state.monitor_depth < 255 {
            state.monitor_depth = state.monitor_depth + 1;
        }
    } else if op == opcodes::MONITOREXIT {
        pop_values(&mut state.stack, 1);
        if state.monitor_depth > 0 {
            state.monitor_depth = state.monitor_depth - 1;
        }
    } else if op == opcodes::NEW {
        state.stack.push(Value::Other);
    }
}

/// Applies one instruction to the state and reports a wait site.
pub fn transfer(method: &Method, table: &Vec<FieldRef>, instruction: &Instruction, state: &mut WaitState) -> (res: Result<
    InstructionStep<WaitObservation>,
    AnalysisError,
>)
    requires
        distinct_fields(table@),
    ensures
        transfer_fails(*instruction) ==> res is Err,
        !transfer_fails(*instruction) ==> (res matches Ok(step) && !step.terminate_path && final(state)@
            == transfer_spec(method.bytecode@, table@, *instruction, old(state)@).0 && step.findings@ == transfer_spec(
            method.bytecode@,
            table@,
            *instruction,
            old(state)@,
        ).1),
{
    match &instruction.kind {
        InstructionKind::Invoke(call) => {
            return transfer_invoke(call, state);
        },
        InstructionKind::FieldAccess(field) => {
            transfer_field_access(table, instruction.opcode, field, &mut state.stack);
            return Ok(InstructionStep::continue_path());
        },
        _ => {},
    }
    transfer_opcode(method, instruction, state);
    Ok(InstructionStep::continue_path())
}


/// The locals without their trailing `Unknown` slots.
pub open spec fn trim_unknown(l: Seq<Value>) -> Seq<Value>
    decreases l.len(),
{
    if l.len() > 0 && l.last() == Value::Unknown {
        trim_unknown(l.drop_last())
    } else {
        l
    }
}

/// Drops the trailing `Unknown` locals, so that states differing only there
/// are one state.
pub fn trim_trailing_unknown(locals: &mut Vec<Value>)
    ensures
        final(locals)@ == trim_unknown(old(locals)@),
{
    while locals.len() > 0 && locals[locals.len() - 1] == Value::Unknown
        invariant
            trim_unknown(locals@) == trim_unknown(old(locals)@),
        decreases locals.len(),
    {
        locals.pop();
    }
}

/// The value a parameter of type `t` in local slot `slot` starts as.
pub open spec fn param_value(t: TypeShape, slot: int) -> Value {
    match t {
        TypeShape::Object(name) => if lock_owner_spec(name) {
            Value::Lock(LockIdentity::Param(slot as usize))
        } else {
            Value::Other
        },
        _ => Value::Other,
    }
}

/// The locals on entry: `this` for an instance method, then a value per
/// parameter slot (the second slot of a `long` or `double` unknown).
pub open spec fn entry_locals(params: Seq<TypeShape>, is_static: bool) -> Seq<Value>
    decreases params.len(),
{
    if params.len() == 0 {
        if is_static {
            Seq::empty()
        } else {
            seq![Value::This]
        }
    } else {
        let l = entry_locals(params.drop_last(), is_static);
        let t = params.last();
        let l2 = l.push(param_value(t, l.len() as int));
        if t is Long || t is Double {
            l2.push(Value::Unknown)
        } else {
            l2
        }
    }
}

/// The locals on entry of the method; an error when its descriptor does not
/// parse.
pub fn initial_locals(method: &Method) -> (res: Result<Vec<Value>, AnalysisError>)
    ensures
        match jdescriptor_parse(method.descriptor@) {
            Some((params, _)) => res matches Ok(v) && v@ == entry_locals(params, method.access.is_static),
            None => res is Err,
        },
{
    let parsed = match parse_method_descriptor(method.descriptor.as_str()) {
        Some(p) => p,
        None => {
            return Err(AnalysisError::InvalidDescriptor(method.descriptor.clone()));
        },
    };
    let ghost params = parsed@.0;
    let is_static = method.access.is_static;
    let mut locals: Vec<Value> = Vec::new();
    if !is_static {
        locals.push(Value::This);
    }
    proof {
        assert(params.subrange(0, 0) =~= Seq::<TypeShape>::empty());
        assert(locals@ =~= entry_locals(params.subrange(0, 0), is_static));
    }
    let mut i: usize = 0;
    while i < parsed.parameter_types.len()
        invariant
            i <= parsed.parameter_types@.len(),
            params == parsed@.0,
            params.len() == parsed.parameter_types@.len(),
            locals@ == entry_locals(params.subrange(0, i as int), is_static),
            locals@.len() <= 2 * i + 1,
        decreases parsed.parameter_types.len() - i,
    {
        let t = &parsed.parameter_types[i];
        proof {
            assert(params[i as int] == t@);
            assert(params.subrange(0, i + 1).drop_last() =~= params.subrange(0, i as int));
            assert(params.subrange(0, i + 1).last() == t@);
        }
        let slot = locals.len();
        let value = match t {
            DescriptorType::Object(name) => if is_lock_owner(name.as_str()) {
                Value::Lock(LockIdentity::Param(slot))
            } else {
                Value::Other
            },
            _ => Value::Other,
        };
        locals.push(value);
        match t {
            DescriptorType::Long | DescriptorType::Double => locals.push(Value::Unknown),
            _ => {},
        }
        i = i + 1;
    }
    proof {
        assert(params.subrange(0, i as int) =~= params);
    }
    Ok(locals)
}

/// A copy of the values.
pub fn copy_values(v: &Vec<Value>) -> (res: Vec<Value>)
    ensures
        res@ == v@,
{
    let mut out: Vec<Value> = Vec::new();
    let mut i: usize = 0;
    while i < v.len()
        invariant
            i <= v@.len(),
            out@ == v@.subrange(0, i as int),
        decreases v.len() - i,
    {
        out.push(v[i]);
        i = i + 1;
        assert(out@ =~= v@.subrange(0, i as int));
    }
    assert(v@.subrange(0, i as int) =~= v@);
    out
}

/// The start offset of the method's first block, or 0 without blocks.
pub open spec fn entry_block(m: Method) -> u32 {
    if m.cfg.blocks@.len() > 0 {
        m.cfg.blocks@[0].start_offset
    } else {
        0
    }
}

/// The state on entry: at the first instruction, inside the method's monitor
/// when it is `synchronized`, with no lock, the entry locals and an empty
/// stack.
pub fn initial_state(method: &Method, locals: &Vec<Value>) -> (res: WaitState)
    ensures
        res@ == (WaitView {
            block_start: entry_block(*method),
            instruction_index: 0,
            monitor_depth: if method.access.is_synchronized { 1 } else { 0 },
            held: Seq::empty(),
            locals: locals@,
            stack: Seq::empty(),
        }),
{
    let block_start = if method.cfg.blocks.len() > 0 {
        method.cfg.blocks[0].start_offset
    } else {
        0
    };
    let res = WaitState {
        block_start,
        instruction_index: 0,
        monitor_depth: if method.access.is_synchronized { 1 } else { 0 },
        held_locks: Vec::new(),
        locals: copy_values(locals),
        stack: Vec::new(),
    };
    assert(res@ =~= (WaitView {
        block_start: entry_block(*method),
        instruction_index: 0,
        monitor_depth: if method.access.is_synchronized { 1 } else { 0 },
        held: Seq::empty(),
        locals: locals@,
        stack: Seq::empty(),
    }));
    res
}

/// Worklist callbacks: the entry state, and the transfer of each instruction.
pub struct FutureWaitSemantics {
    initial_locals: Vec<Value>,
    fields: Vec<FieldRef>,
}

impl FutureWaitSemantics {
    /// The lock-field table has no repeats.
    #[verifier::type_invariant]
    spec fn wf(self) -> bool {
        distinct_fields(self.fields@)
    }

    /// The lock-field table of the method.
    pub closed spec fn table(self) -> Seq<FieldRef> {
        self.fields@
    }

    /// The locals the analysis starts with.
    pub closed spec fn entry(self) -> Seq<Value> {
        self.initial_locals@
    }

    /// The callbacks for a method; an error when its descriptor does not parse.
    pub fn for_method(method: &Method) -> (res: Result<Self, AnalysisError>)
        ensures
            match jdescriptor_parse(method.descriptor@) {
                Some((params, _)) => res matches Ok(s) && s.entry() == entry_locals(params, method.access.is_static),
                None => res is Err,
            },
    {
        let initial_locals = initial_locals(method)?;
        Ok(FutureWaitSemantics { initial_locals, fields: lock_field_table(method) })
    }
}

impl WorklistSemantics for FutureWaitSemantics {
    type State = WaitState;

    type Finding = WaitObservation;

    fn initial_states(&self, method: &Method) -> (res: Vec<WaitState>)
        ensures
            res@.len() == 1,
            res@[0]@ == (WaitView {
                block_start: entry_block(*method),
                instruction_index: 0,
                monitor_depth: if method.access.is_synchronized { 1 } else { 0 },
                held: Seq::empty(),
                locals: self.entry(),
                stack: Seq::empty(),
            }),
    {
        let mut v: Vec<WaitState> = Vec::new();
        v.push(initial_state(method, &self.initial_locals));
        v
    }

    fn canonicalize_state(&self, state: &mut WaitState)
        ensures
            final(state)@ == (WaitView { locals: trim_unknown(old(state)@.locals), ..old(state)@ }),
    {
        trim_trailing_unknown(&mut state.locals);
    }

    fn transfer_instruction(&self, method: &Method, instruction: &Instruction, state: &mut WaitState) -> (res: Result<
        InstructionStep<WaitObservation>,
        AnalysisError,
    >)
        ensures
            transfer_fails(*instruction) ==> res is Err,
            !transfer_fails(*instruction) ==> (res matches Ok(step) && !step.terminate_path && final(state)@
                == transfer_spec(method.bytecode@, self.table(), *instruction, old(state)@).0 && step.findings@
                == transfer_spec(method.bytecode@, self.table(), *instruction, old(state)@).1),
    {
        proof {
            use_type_invariant(self);
        }
        transfer(method, &self.fields, instruction, state)
    }
}


/// The observation of `offset` with or without a lock held.
pub open spec fn observation(offset: u32, held: bool) -> WaitObservation {
    WaitObservation { offset, lock_held: held }
}

/// Some observation reached `offset` with (or without) a lock held.
pub open spec fn seen_with(obs: Seq<WaitObservation>, offset: u32, held: bool) -> bool {
    exists|i: int| 0 <= i < obs.len() && #[trigger] obs[i] == WaitObservation { offset, lock_held: held }
}

/// A wait site reached with a lock held on every path that reaches it.
pub open spec fn reportable_spec(obs: Seq<WaitObservation>, offset: u32) -> bool {
    seen_with(obs, offset, true) && !seen_with(obs, offset, false)
}

/// The offsets, ascending, of the wait sites only ever reached with a lock
/// held.
pub fn reportable_offsets(observations: &Vec<WaitObservation>) -> (res: Vec<u32>)
    ensures
        strictly_increasing(res@),
        forall|o: u32| res@.contains(o) <==> reportable_spec(observations@, o),
{
    let obs = observations;
    let mut locked: Vec<u32> = Vec::new();
    let mut i: usize = 0;
    while i < obs.len()
        invariant
            i <= obs@.len(),
            strictly_increasing(locked@),
            forall|o: u32|
                locked@.contains(o) <==> exists|j: int|
                    0 <= j < i && #[trigger] obs@[j] == observation(o, true),
        decreases obs.len() - i,
    {
        if obs[i].lock_held {
            let ghost before = locked@;
            insert_sorted_unique(&mut locked, obs[i].offset);
            proof {
                assert forall|o: u32|
                    locked@.contains(o) <==> exists|j: int|
                        0 <= j < i + 1 && #[trigger] obs@[j] == observation(o, true) by {
                    assert(locked@.to_set().contains(o) == locked@.contains(o));
                    assert(before.to_set().contains(o) == before.contains(o));
                    if o == obs@[i as int].offset {
                        assert(obs@[i as int] == observation(o, true));
                    }
                }
            }
        } else {
            proof {
                assert forall|o: u32|
                    locked@.contains(o) <==> exists|j: int|
                        0 <= j < i + 1 && #[trigger] obs@[j] == observation(o, true) by {
                    if exists|j: int|
                        0 <= j < i + 1 && #[trigger] obs@[j] == observation(o, true) {
                        let j = choose|j: int|
                            0 <= j < i + 1 && #[trigger] obs@[j] == observation(o, true);
                        assert(j != i);
                    }
                }
            }
        }
        i = i + 1;
    }
    let mut out: Vec<u32> = Vec::new();
    let mut k: usize = 0;
    while k < locked.len()
        invariant
            k <= locked@.len(),
            strictly_increasing(locked@),
            strictly_increasing(out@),
            forall|j: int| #![trigger out@[j]] 0 <= j < out@.len() ==> exists|p: int| 0 <= p < k && #[trigger] locked@[p] == out@[j],
            forall|o: u32|
                locked@.contains(o) <==> exists|j: int|
                    0 <= j < obs@.len() && #[trigger] obs@[j] == observation(o, true),
            forall|o: u32|
                out@.contains(o) <==> (exists|p: int| 0 <= p < k && #[trigger] locked@[p] == o) && !seen_with(
                    obs@,
                    o,
                    false,
                ),
        decreases locked.len() - k,
    {
        let o = locked[k];
        let mut unlocked = false;
        let mut j: usize = 0;
        while j < obs.len()
            invariant
                j <= obs@.len(),
                unlocked == exists|q: int|
                    0 <= q < j && #[trigger] obs@[q] == observation(o, false),
            decreases obs.len() - j,
        {
            if obs[j].offset == o && !obs[j].lock_held {
                unlocked = true;
            }
            proof {
                if obs@[j as int].offset == o && !obs@[j as int].lock_held {
                    assert(obs@[j as int] == observation(o, false));
                }
            }
            j = j + 1;
        }
        if !unlocked {
            let ghost before = out@;
            proof {
                if before.len() > 0 {
                    let p = choose|p: int| 0 <= p < k && #[trigger] locked@[p] == before.last();
                    assert(locked@[p] < locked@[k as int]);
                }
            }
            out.push(o);
            proof {
                assert forall|q: int| #![trigger out@[q]] 0 <= q < out@.len() implies exists|p: int|
                    0 <= p < k + 1 && #[trigger] locked@[p] == out@[q] by {
                    if q < before.len() {
                        let p = choose|p: int| 0 <= p < k && #[trigger] locked@[p] == before[q];
                        assert(locked@[p] == out@[q]);
                    } else {
                        assert(locked@[k as int] == out@[q]);
                    }
                }
                assert forall|a: u32|
                    out@.contains(a) <==> (exists|p: int| 0 <= p < k + 1 && #[trigger] locked@[p] == a)
                        && !seen_with(obs@, a, false) by {
                    if out@.contains(a) {
                        let q = choose|q: int| 0 <= q < out@.len() && out@[q] == a;
                        if q < before.len() {
                            assert(before.contains(a));
                        }
                    }
                    if (exists|p: int| 0 <= p < k + 1 && #[trigger] locked@[p] == a) && !seen_with(obs@, a, false) {
                        let p = choose|p: int| 0 <= p < k + 1 && #[trigger] locked@[p] == a;
                        if p < k {
                            assert(before.contains(a));
                            let q = choose|q: int| 0 <= q < before.len() && before[q] == a;
                            assert(out@[q] == a);
                        } else {
                            assert(out@[before.len() as int] == a);
                        }
                    }
                }
            }
        } else {
            proof {
                assert forall|a: u32|
                    out@.contains(a) <==> (exists|p: int| 0 <= p < k + 1 && #[trigger] locked@[p] == a)
                        && !seen_with(obs@, a, false) by {
                    if (exists|p: int| 0 <= p < k + 1 && #[trigger] locked@[p] == a) && !seen_with(obs@, a, false) {
                        let p = choose|p: int| 0 <= p < k + 1 && #[trigger] locked@[p] == a;
                        if p == k {
                            let q = choose|q: int|
                                0 <= q < obs@.len() && #[trigger] obs@[q] == observation(o, false);
                            assert(seen_with(obs@, a, false));
                        }
                    }
                }
            }
        }
        k = k + 1;
    }
    proof {
        assert forall|o: u32| out@.contains(o) <==> reportable_spec(observations@, o) by {
            if exists|p: int| 0 <= p < k && #[trigger] locked@[p] == o {
                let p = choose|p: int| 0 <= p < k && #[trigger] locked@[p] == o;
                assert(locked@.contains(o));
            }
            if seen_with(obs@, o, true) {
                assert(locked@.contains(o));
                let p = choose|p: int| 0 <= p < locked@.len() && locked@[p] == o;
                assert(locked@[p] == o);
            }
        }
    }
    out
}


/// The offsets, ascending, of the method's wait sites that every path reaches
/// with a lock held; an error when a descriptor does not parse.
pub fn reportable_wait_offsets(method: &Method) -> (res: Result<Vec<u32>, AnalysisError>)
    ensures
        jdescriptor_parse(method.descriptor@) is None ==> res is Err,
        res matches Ok(v) ==> strictly_increasing(v@),
{
    let semantics = FutureWaitSemantics::for_method(method)?;
    let observations = analyze_method(method, &semantics)?;
    Ok(reportable_offsets(&observations))
}

/// The message of every finding.
pub open spec fn wait_message() -> Seq<char> {
    "Do not wait on a Future while holding a lock; release the lock before calling get()/join(), or move the wait outside the synchronized or locked section."@
}

/// The finding for a wait at `offset` in method `m` of class `c`.
pub open spec fn wait_finding(uri: Option<Seq<char>>, c: crate::ir::Class, m: Method, offset: u32) -> FindingView {
    FindingView {
        rule_id: None,
        message: wait_message(),
        locations: seq![method_location_spec(
            c.name@,
            m.name@,
            m.descriptor@,
            uri,
            crate::ir::line_for_offset_spec(m.line_numbers@, offset),
        )],
    }
}

/// The finding reports a wait in a method with bytecode of an
/// analysis-target class that waits on a future and may hold a lock.
pub open spec fn reports_wait(ctx: AnalysisContext, f: FindingView) -> bool {
    exists|ci: int, mi: int, offset: u32|
        #![trigger wait_finding(ctx.class_uri(ctx.targets()[ci]), ctx.targets()[ci], ctx.targets()[ci].methods@[mi], offset)]
        0 <= ci < ctx.targets().len() && 0 <= mi < ctx.targets()[ci].methods@.len()
            && ctx.targets()[ci].methods@[mi].bytecode@.len() > 0 && needs_analysis_spec(ctx.targets()[ci].methods@[mi])
            && f == wait_finding(ctx.class_uri(ctx.targets()[ci]), ctx.targets()[ci], ctx.targets()[ci].methods@[mi], offset)
}

/// Reports future waits while a lock is held.
#[derive(Clone, Copy, Debug)]
pub struct FutureWaitWhileHoldingLockRule;

impl FutureWaitWhileHoldingLockRule {
    /// The rule's id, name and description.
    pub fn metadata(&self) -> (res: RuleMetadata)
        ensures
            res.id@ == "FUTURE_WAIT_WHILE_HOLDING_LOCK"@,
    {
        RuleMetadata {
            id: "FUTURE_WAIT_WHILE_HOLDING_LOCK",
            name: "Future wait while holding lock",
            description: "Blocking Future waits should not happen while a lock is still held",
        }
    }

    /// One finding per wait site, ascending by offset within each method, that
    /// every path reaches while a monitor or lock is held, in the methods with
    /// bytecode of the analysis-target classes that wait on a future and may
    /// hold a lock.
    pub fn run(&self, context: &AnalysisContext) -> (res: Result<Vec<Finding>, AnalysisError>)
        ensures
            res matches Ok(v) ==> forall|i: int|
                0 <= i < v@.len() ==> reports_wait(*context, #[trigger] finding_views(v@)[i]),
    {
        let classes = context.analysis_target_classes();
        let mut results: Vec<Finding> = Vec::new();
        let mut ci: usize = 0;
        while ci < classes.len()
            invariant
                ci <= classes@.len(),
                classes@ == context.targets(),
                forall|i: int|
                    0 <= i < results@.len() ==> reports_wait(*context, #[trigger] finding_views(results@)[i]),
            decreases classes.len() - ci,
        {
            let class = &classes[ci];
            let uri = context.class_artifact_uri(class);
            let mut mi: usize = 0;
            while mi < class.methods.len()
                invariant
                    ci < classes@.len(),
                    classes@ == context.targets(),
                    *class == classes@[ci as int],
                    opt_view(uri) == context.class_uri(*class),
                    mi <= class.methods@.len(),
                    forall|i: int|
                        0 <= i < results@.len() ==> reports_wait(*context, #[trigger] finding_views(results@)[i]),
                decreases class.methods.len() - mi,
            {
                let method = &class.methods[mi];
                if method.bytecode.len() > 0 && method_needs_analysis(method) {
                    let offsets = reportable_wait_offsets(method)?;
                    let mut k: usize = 0;
                    while k < offsets.len()
                        invariant
                            ci < classes@.len(),
                            classes@ == context.targets(),
                            *class == classes@[ci as int],
                            mi < class.methods@.len(),
                            *method == class.methods@[mi as int],
                            method.bytecode@.len() > 0,
                            needs_analysis_spec(*method),
                            opt_view(uri) == context.class_uri(*class),
                                    k <= offsets@.len(),
                            forall|i: int|
                                0 <= i < results@.len() ==> reports_wait(*context, #[trigger] finding_views(results@)[i]),
                        decreases offsets.len() - k,
                    {
                        let offset = offsets[k];
                        let line = method.line_for_offset(offset);
                        let artifact_uri: Option<&str> = match &uri {
                            Some(s) => Some(s.as_str()),
                            None => None,
                        };
                        let location = method_location_with_line(
                            class.name.as_str(),
                            method.name.as_str(),
                            method.descriptor.as_str(),
                            artifact_uri,
                            line,
                        );
                        let message = "Do not wait on a Future while holding a lock; release the lock before calling get()/join(), or move the wait outside the synchronized or locked section.".to_owned();
                        let f = finding(message, location);
                        proof {
                            assert(f@ == wait_finding(context.class_uri(*class), *class, *method, offset));
                            assert(context.targets()[ci as int].methods@[mi as int] == *method);
                            assert(reports_wait(*context, f@));
                        }
                        let ghost prev = finding_views(results@);
                        let ghost fv = f@;
                        push_finding(&mut results, f);
                        proof {
                            assert(finding_views(results@) == prev.push(fv));
                            assert(finding_views(results@).len() == prev.len() + 1);
                            assert forall|i: int| 0 <= i < results@.len() implies reports_wait(
                                *context,
                                #[trigger] finding_views(results@)[i],
                            ) by {
                                if i < prev.len() {
                                    assert(finding_views(results@)[i] == prev[i]);
                                } else {
                                    assert(finding_views(results@)[i] == fv);
                                }
                            }
                        }
                        k = k + 1;
                    }
                }
                mi = mi + 1;
            }
            ci = ci + 1;
        }
        Ok(results)
    }
}

} // verus!
