//! Generic abstract machine for JVM-like operand stack and local variables.
use vstd::prelude::*;
use std::collections::{BTreeMap, BTreeSet};

verus! {

broadcast use vstd::std_specs::btree::group_btree_axioms;

/// Budgets for stack/local simulation.
#[derive(Clone, Copy, Debug, PartialEq, Eq, PartialOrd, Ord)]
pub struct StackMachineConfig {
    /// Maximum tracked operand stack depth.
    pub max_stack_depth: Option<usize>,
    /// Maximum tracked local variable index range.
    pub max_locals: Option<usize>,
    /// Maximum number of distinct symbolic identities kept alive.
    pub max_symbolic_identities: Option<usize>,
}

/// The configuration without any budget.
pub open spec fn unbounded_config() -> StackMachineConfig {
    StackMachineConfig { max_stack_depth: None, max_locals: None, max_symbolic_identities: None }
}

impl StackMachineConfig {
    /// The configuration without any budget.
    pub fn unbounded() -> (res: Self)
        ensures
            res == unbounded_config(),
    {
        StackMachineConfig { max_stack_depth: None, max_locals: None, max_symbolic_identities: None }
    }
}

/// A depth budget of zero would leave no room for any value.
pub open spec fn valid_config(config: StackMachineConfig) -> bool {
    config.max_stack_depth != Some(0usize)
}

/// The stack after pushing `v` under the budgets of `config`: a full stack first
/// loses its bottom entry.
pub open spec fn pushed<V>(config: StackMachineConfig, stack: Seq<V>, v: V) -> Seq<V> {
    (if config.max_stack_depth matches Some(d) && stack.len() >= d {
        stack.drop_first()
    } else {
        stack
    }).push(v)
}

/// The stack after popping `count` values (fewer when the stack is shorter).
pub open spec fn popped<V>(stack: Seq<V>, count: nat) -> Seq<V> {
    stack.subrange(0, if count >= stack.len() { 0 } else { stack.len() - count })
}

/// The value a pop gives: the top value, or the default on an empty stack.
pub open spec fn top_or<V>(stack: Seq<V>, default_value: V) -> V {
    if stack.len() > 0 { stack.last() } else { default_value }
}

/// Local bindings kept as entries with strictly increasing indices.
pub open spec fn entries_sorted<V>(s: Seq<(usize, V)>) -> bool {
    forall|i: int, j: int| 0 <= i < j < s.len() ==> s[i].0 < s[j].0
}

/// Whether some entry binds `k`.
pub open spec fn entries_bind<V>(s: Seq<(usize, V)>, k: usize) -> bool {
    exists|i: int| 0 <= i < s.len() && s[i].0 == k
}

/// The map from local index to value described by a list of entries.
pub open spec fn entries_map<V>(s: Seq<(usize, V)>) -> Map<usize, V> {
    Map::new(
        |k: usize| entries_bind(s, k),
        |k: usize| s[choose|i: int| 0 <= i < s.len() && s[i].0 == k].1,
    )
}

/// In a sorted entry list, the map sends each bound index to its entry's value.
pub proof fn lemma_entries_map_at<V>(s: Seq<(usize, V)>, i: int)
    requires
        entries_sorted(s),
        0 <= i < s.len(),
    ensures
        entries_map(s).dom().contains(s[i].0),
        entries_map(s)[s[i].0] == s[i].1,
{
    let k = s[i].0;
    assert(entries_bind(s, k));
    let j = choose|j: int| 0 <= j < s.len() && s[j].0 == k;
    if j < i {
        assert(s[j].0 < s[i].0);
    } else if j > i {
        assert(s[i].0 < s[j].0);
    }
}

/// Whether the symbolic identity `id` occurs among `values` under `extract`.
pub open spec fn seq_value_ids<V, FE: Fn(V) -> Option<u32>>(values: Seq<V>, extract: FE) -> Set<u32> {
    Set::new(|id: u32| exists|i: int| 0 <= i < values.len() && call_ensures(extract, (values[i],), Some(id)))
}

/// The identity `extract` gives for `v`: meaningful where `extract` gives
/// one result per value.
pub open spec fn extract_spec<V, FE: Fn(V) -> Option<u32>>(extract: FE, v: V) -> Option<u32> {
    choose|r: Option<u32>| call_ensures(extract, (v,), r)
}

/// `extract` can be called on every value and gives one result for each.
pub open spec fn extract_deterministic<V, FE: Fn(V) -> Option<u32>>(extract: FE) -> bool {
    &&& forall|v: V| call_requires(extract, (v,))
    &&& forall|v: V, a: Option<u32>, b: Option<u32>|
        #![trigger call_ensures(extract, (v,), a), call_ensures(extract, (v,), b)]
        call_ensures(extract, (v,), a) && call_ensures(extract, (v,), b) ==> a == b
}

/// A result of a deterministic `extract` is the one `extract_spec` names.
pub proof fn lemma_extract_spec<V, FE: Fn(V) -> Option<u32>>(extract: FE, v: V, r: Option<u32>)
    requires
        extract_deterministic(extract),
        call_ensures(extract, (v,), r),
    ensures
        extract_spec(extract, v) == r,
{
    let s = extract_spec(extract, v);
    assert(call_ensures(extract, (v,), s));
}

/// The identities of `vals` under `extract`, in order, repeats included.
pub open spec fn extracted_ids<V, FE: Fn(V) -> Option<u32>>(extract: FE, vals: Seq<V>) -> Seq<u32>
    decreases vals.len(),
{
    if vals.len() == 0 {
        seq![]
    } else {
        let rest = extracted_ids(extract, vals.drop_last());
        match extract_spec(extract, vals.last()) {
            Some(id) => rest.push(id),
            None => rest,
        }
    }
}

/// The values of `s` in order of first appearance, each once.
pub open spec fn first_appearance(s: Seq<u32>) -> Seq<u32>
    decreases s.len(),
{
    if s.len() == 0 {
        seq![]
    } else {
        let rest = first_appearance(s.drop_last());
        if rest.contains(s.last()) {
            rest
        } else {
            rest.push(s.last())
        }
    }
}

/// First appearances hold each value of the sequence once and nothing else.
pub proof fn lemma_first_appearance(s: Seq<u32>)
    ensures
        first_appearance(s).no_duplicates(),
        forall|x: u32| #[trigger] first_appearance(s).contains(x) == s.contains(x),
        first_appearance(s).len() <= s.len(),
    decreases s.len(),
{
    if s.len() > 0 {
        let rest = s.drop_last();
        lemma_first_appearance(rest);
        assert forall|x: u32| #[trigger] first_appearance(s).contains(x) == s.contains(x) by {
            if s.contains(x) {
                let i = choose|i: int| 0 <= i < s.len() && s[i] == x;
                if i < s.len() - 1 {
                    assert(rest[i] == x);
                    assert(rest.contains(x));
                }
            }
            if rest.contains(x) {
                let i = choose|i: int| 0 <= i < rest.len() && rest[i] == x;
                assert(s[i] == x);
            }
            if first_appearance(rest).contains(x) {
                let i = choose|i: int| 0 <= i < first_appearance(rest).len() && first_appearance(rest)[i] == x;
                if !first_appearance(rest).contains(s.last()) {
                    assert(first_appearance(s)[i] == x);
                }
            }
            if !first_appearance(rest).contains(s.last()) && x == s.last() {
                assert(first_appearance(s)[first_appearance(s).len() - 1] == x);
            }
        }
    }
}

/// The canonical numbering of the identities of `vals` and then `extra`:
/// each identity once, in order of first appearance.
pub open spec fn canonical_order<V, FE: Fn(V) -> Option<u32>>(extract: FE, vals: Seq<V>, extra: Seq<u32>) -> Seq<u32> {
    first_appearance(extracted_ids(extract, vals) + extra)
}

/// `new_v` is `old_v` renumbered under `mapping`: a value whose identity the
/// mapping numbers goes through `assign` with its number; any other stays.
pub open spec fn renumbered<V, FE: Fn(V) -> Option<u32>, FA: Fn(V, u32) -> V>(
    extract: FE,
    assign: FA,
    mapping: Map<u32, u32>,
    old_v: V,
    new_v: V,
) -> bool {
    match extract_spec(extract, old_v) {
        Some(id) => if mapping.contains_key(id) {
            call_ensures(assign, (old_v, mapping[id]), new_v)
        } else {
            new_v == old_v
        },
        None => new_v == old_v,
    }
}

/// `new_v` is `old_v` with identities outside `kept` forgotten through `set_unknown`.
pub open spec fn capped<V, FE: Fn(V) -> Option<u32>, FU: Fn(V) -> V>(
    extract: FE,
    set_unknown: FU,
    kept: Set<u32>,
    old_v: V,
    new_v: V,
) -> bool {
    match extract_spec(extract, old_v) {
        Some(id) => if kept.contains(id) {
            new_v == old_v
        } else {
            call_ensures(set_unknown, (old_v,), new_v)
        },
        None => new_v == old_v,
    }
}

/// The `max` largest identities of `live`, as a set: all of them when
/// there are no more than `max`.
pub open spec fn largest_ids(live: Set<u32>, max: nat, kept: Set<u32>) -> bool {
    &&& kept.subset_of(live)
    &&& kept.finite()
    &&& kept.len() == if live.len() < max { live.len() } else { max }
    &&& forall|a: u32, b: u32| kept.contains(a) && live.contains(b) && !kept.contains(b) ==> b < a
}

/// Generic abstract machine for JVM-like stack and local state.
#[derive(Debug, PartialEq, Eq, PartialOrd, Ord)]
pub struct StackMachine<V> {
    stack: Vec<V>,
    locals: Vec<(usize, V)>,
    default_value: V,
    config: StackMachineConfig,
}

impl<V> StackMachine<V> {
    #[verifier::type_invariant]
    spec fn well_formed(self) -> bool {
        &&& entries_sorted(self.locals@)
        &&& valid_config(self.config)
    }
}

impl<V: Copy> StackMachine<V> {
    /// The operand stack, bottom first.
    pub closed spec fn stack(&self) -> Seq<V> {
        self.stack@
    }

    /// The local variable bindings.
    pub closed spec fn locals(&self) -> Map<usize, V> {
        entries_map(self.locals@)
    }

    /// The value produced for missing stack entries and locals.
    pub closed spec fn default_value(&self) -> V {
        self.default_value
    }

    /// The budgets of this machine.
    pub closed spec fn config(&self) -> StackMachineConfig {
        self.config
    }

    /// Whether a local index lies outside the local budget.
    pub open spec fn local_out_of_budget(&self, index: usize) -> bool {
        match self.config().max_locals {
            Some(max_locals) => index >= max_locals,
            None => false,
        }
    }

    /// The value a load of local `index` gives.
    pub open spec fn local_value(&self, index: usize) -> V {
        if self.local_out_of_budget(index) || !self.locals().dom().contains(index) {
            self.default_value()
        } else {
            self.locals()[index]
        }
    }

    /// Creates a machine without budgets.
    pub fn new(default_value: V) -> (res: Self)
        ensures
            res.stack() == Seq::<V>::empty(),
            res.locals() == Map::<usize, V>::empty(),
            res.default_value() == default_value,
            res.config() == unbounded_config(),
    {
        Self::with_config(default_value, StackMachineConfig::unbounded())
    }

    /// Creates a machine with explicit budgets.
    pub fn with_config(default_value: V, config: StackMachineConfig) -> (res: Self)
        requires
            valid_config(config),
        ensures
            res.stack() == Seq::<V>::empty(),
            res.locals() == Map::<usize, V>::empty(),
            res.default_value() == default_value,
            res.config() == config,
    {
        let res = StackMachine { stack: Vec::new(), locals: Vec::new(), default_value, config };
        assert(res.locals() =~= Map::<usize, V>::empty());
        res
    }

    /// Number of stack entries.
    pub fn stack_len(&self) -> (res: usize)
        ensures
            res == self.stack().len(),
    {
        self.stack.len()
    }

    /// All stack values, bottom first.
    pub fn stack_values(&self) -> (res: &[V])
        ensures
            res@ == self.stack(),
    {
        self.stack.as_slice()
    }

    /// Pushes a value; with a depth budget, the bottom entry is dropped first
    /// when the stack is full.
    pub fn push(&mut self, value: V)
        ensures
            final(self).stack() == pushed(old(self).config(), old(self).stack(), value),
            final(self).locals() == old(self).locals(),
            final(self).default_value() == old(self).default_value(),
            final(self).config() == old(self).config(),
    {
        proof {
            use_type_invariant(&*self);
        }
        let mut stack: Vec<V> = Vec::new();
        std::mem::swap(&mut stack, &mut self.stack);
        assert(self.config.max_stack_depth != Some(0usize));
        if let Some(max_depth) = self.config.max_stack_depth {
            if stack.len() >= max_depth {
                stack.remove(0);
            }
        }
        stack.push(value);
        self.stack = stack;
    }

    /// The top stack value, if any.
    pub fn peek(&self) -> (res: Option<&V>)
        ensures
            res.is_some() == (self.stack().len() > 0),
            res matches Some(v) ==> *v == self.stack().last(),
    {
        if self.stack.len() == 0 {
            None
        } else {
            Some(&self.stack[self.stack.len() - 1])
        }
    }

    /// Pops the top value, or gives the default value on an empty stack.
    pub fn pop(&mut self) -> (res: V)
        ensures
            res == top_or(old(self).stack(), old(self).default_value()),
            final(self).stack() == popped(old(self).stack(), 1),
            final(self).locals() == old(self).locals(),
            final(self).default_value() == old(self).default_value(),
            final(self).config() == old(self).config(),
    {
        proof {
            use_type_invariant(&*self);
        }
        let mut stack: Vec<V> = Vec::new();
        std::mem::swap(&mut stack, &mut self.stack);
        let res = match stack.pop() {
            Some(v) => v,
            None => self.default_value,
        };
        assert(stack@ =~= popped(old(self).stack@, 1));
        self.stack = stack;
        res
    }

    /// Pops `count` values and discards them.
    pub fn pop_n(&mut self, count: usize)
        ensures
            final(self).stack() == popped(old(self).stack(), count as nat),
            final(self).locals() == old(self).locals(),
            final(self).default_value() == old(self).default_value(),
            final(self).config() == old(self).config(),
    {
        proof {
            use_type_invariant(&*self);
        }
        let mut stack: Vec<V> = Vec::new();
        std::mem::swap(&mut stack, &mut self.stack);
        let mut i: usize = 0;
        while i < count
            invariant
                i <= count,
                stack@ == old(self).stack@.subrange(
                    0,
                    if i >= old(self).stack@.len() {
                        0
                    } else {
                        old(self).stack@.len() - i
                    },
                ),
                self.locals@ == old(self).locals@,
                self.default_value == old(self).default_value,
                self.config == old(self).config,
            decreases count - i,
        {
            stack.pop();
            i = i + 1;
        }
        self.stack = stack;
    }

    /// Whether a local index lies outside the local budget.
    pub fn is_local_out_of_budget(&self, index: usize) -> (res: bool)
        ensures
            res == self.local_out_of_budget(index),
    {
        match self.config.max_locals {
            Some(max_locals) => index >= max_locals,
            None => false,
        }
    }

    /// Position of the first entry whose index is at least `index`.
    fn local_position(&self, index: usize) -> (res: usize)
        ensures
            res <= self.locals@.len(),
            forall|i: int| 0 <= i < res ==> self.locals@[i].0 < index,
            res < self.locals@.len() ==> self.locals@[res as int].0 >= index,
    {
        let mut i: usize = 0;
        while i < self.locals.len()
            invariant
                i <= self.locals@.len(),
                forall|j: int| 0 <= j < i ==> self.locals@[j].0 < index,
            decreases self.locals.len() - i,
        {
            if self.locals[i].0 >= index {
                return i;
            }
            i = i + 1;
        }
        i
    }

    /// Loads a local, or gives the default value when it is unbound or out of budget.
    pub fn load_local(&self, index: usize) -> (res: V)
        ensures
            res == self.local_value(index),
    {
        proof {
            use_type_invariant(self);
        }
        if self.is_local_out_of_budget(index) {
            return self.default_value;
        }
        let pos = self.local_position(index);
        if pos < self.locals.len() && self.locals[pos].0 == index {
            proof {
                lemma_entries_map_at(self.locals@, pos as int);
            }
            self.locals[pos].1
        } else {
            proof {
                if entries_bind(self.locals@, index) {
                    let j = choose|j: int| 0 <= j < self.locals@.len() && self.locals@[j].0 == index;
                    if j > pos {
                        assert(self.locals@[pos as int].0 < self.locals@[j].0);
                    }
                }
            }
            self.default_value
        }
    }

    /// Binds a local when it is within budget.
    pub fn store_local(&mut self, index: usize, value: V)
        ensures
            final(self).locals() == (if old(self).local_out_of_budget(index) {
                old(self).locals()
            } else {
                old(self).locals().insert(index, value)
            }),
            final(self).stack() == old(self).stack(),
            final(self).default_value() == old(self).default_value(),
            final(self).config() == old(self).config(),
    {
        proof {
            use_type_invariant(&*self);
        }
        if self.is_local_out_of_budget(index) {
            return;
        }
        let pos = self.local_position(index);
        let ghost old_entries = self.locals@;
        let mut entries = copy_vec(&self.locals);
        assert(entries@ == old_entries);
        let found = pos < entries.len() && entries[pos].0 == index;
        if found {
            entries.set(pos, (index, value));
        } else {
            entries.insert(pos, (index, value));
        }
        let ghost new_entries = entries@;
        proof {
            if found {
                assert(new_entries.len() == old_entries.len());
                assert forall|j: int| 0 <= j < new_entries.len() implies new_entries[j].0
                    == old_entries[j].0 && (j != pos ==> new_entries[j] == old_entries[j]) by {}
            } else {
                assert(new_entries.len() == old_entries.len() + 1);
                assert forall|j: int| 0 <= j < pos implies new_entries[j] == old_entries[j] by {}
                assert forall|j: int| pos < j < new_entries.len() implies new_entries[j]
                    == old_entries[j - 1] by {}
                assert(new_entries[pos as int] == (index, value));
            }
            assert(entries_sorted(new_entries)) by {
                assert forall|a: int, b: int| 0 <= a < b < new_entries.len() implies new_entries[a].0
                    < new_entries[b].0 by {
                    if !found {
                        if a < pos && b > pos {
                            assert(old_entries[a].0 < index);
                        } else if a == pos {
                            assert(old_entries[b - 1].0 >= index);
                            assert(old_entries[b - 1].0 != index || b - 1 != pos);
                            if b - 1 > pos {
                                assert(old_entries[pos as int].0 < old_entries[b - 1].0);
                            }
                        } else if b == pos {
                            assert(old_entries[a].0 < index);
                        } else if a > pos {
                            assert(old_entries[a - 1].0 < old_entries[b - 1].0);
                        }
                    }
                }
            }
            assert forall|k: usize| #[trigger] entries_map(new_entries).dom().contains(k)
                == entries_map(old_entries).insert(index, value).dom().contains(k) by {
                if entries_bind(new_entries, k) && k != index {
                    let j = choose|j: int| 0 <= j < new_entries.len() && new_entries[j].0 == k;
                    if found || j < pos {
                        assert(old_entries[j].0 == k);
                    } else {
                        assert(old_entries[j - 1].0 == k);
                    }
                }
                if entries_bind(old_entries, k) {
                    let j = choose|j: int| 0 <= j < old_entries.len() && old_entries[j].0 == k;
                    if found || j < pos {
                        assert(new_entries[j].0 == k);
                    } else {
                        assert(new_entries[j + 1].0 == k);
                    }
                }
                if k == index {
                    assert(new_entries[pos as int].0 == index);
                }
            }
            assert forall|k: usize| #[trigger] entries_map(new_entries).dom().contains(k) implies entries_map(
                new_entries,
            )[k] == entries_map(old_entries).insert(index, value)[k] by {
                let j = choose|j: int| 0 <= j < new_entries.len() && new_entries[j].0 == k;
                lemma_entries_map_at(new_entries, j);
                if k != index {
                    if found || j < pos {
                        lemma_entries_map_at(old_entries, j);
                    } else {
                        lemma_entries_map_at(old_entries, j - 1);
                    }
                }
            }
            assert(entries_map(new_entries) =~= entries_map(old_entries).insert(index, value));
        }
        self.locals = entries;
    }
}

impl<V: Copy> StackMachine<V> {
    /// Keeps the local bindings that satisfy `predicate`.
    pub fn retain_locals<F: Fn(usize, V) -> bool>(&mut self, predicate: F)
        requires
            forall|k: usize, v: V| call_requires(predicate, (k, v)),
        ensures
            forall|k: usize| #[trigger] final(self).locals().dom().contains(k) ==> old(self).locals().dom().contains(k)
                && final(self).locals()[k] == old(self).locals()[k] && call_ensures(
                predicate,
                (k, old(self).locals()[k]),
                true,
            ),
            forall|k: usize| #[trigger] old(self).locals().dom().contains(k) && !final(self).locals().dom().contains(k)
                ==> call_ensures(predicate, (k, old(self).locals()[k]), false),
            final(self).stack() == old(self).stack(),
            final(self).default_value() == old(self).default_value(),
            final(self).config() == old(self).config(),
    {
        proof {
            use_type_invariant(&*self);
        }
        let ghost old_entries = self.locals@;
        let mut kept: Vec<(usize, V)> = Vec::new();
        let ghost mut taken: Seq<int> = Seq::empty();
        let mut i: usize = 0;
        while i < self.locals.len()
            invariant
                self.locals@ == old_entries,
                entries_sorted(old_entries),
                i <= old_entries.len(),
                kept@.len() == taken.len(),
                forall|a: int| 0 <= a < taken.len() ==> 0 <= #[trigger] taken[a] < i && kept@[a]
                    == old_entries[taken[a]] && call_ensures(
                    predicate,
                    (old_entries[taken[a]].0, old_entries[taken[a]].1),
                    true,
                ),
                forall|a: int, b: int| 0 <= a < b < taken.len() ==> taken[a] < taken[b],
                forall|j: int|
                    0 <= j < i ==> (exists|a: int| 0 <= a < taken.len() && taken[a] == j)
                        || call_ensures(predicate, (old_entries[j].0, old_entries[j].1), false),
                forall|k: usize, v: V| call_requires(predicate, (k, v)),
            decreases self.locals.len() - i,
        {
            let entry = self.locals[i];
            let keep = predicate(entry.0, entry.1);
            let ghost prev_taken = taken;
            if keep {
                kept.push(entry);
                proof {
                    taken = taken.push(i as int);
                }
            }
            proof {
                assert forall|j: int| 0 <= j < i + 1 implies (exists|a: int|
                    0 <= a < taken.len() && taken[a] == j) || call_ensures(
                    predicate,
                    (old_entries[j].0, old_entries[j].1),
                    false,
                ) by {
                    if j < i {
                        if exists|a: int| 0 <= a < prev_taken.len() && prev_taken[a] == j {
                            let a = choose|a: int| 0 <= a < prev_taken.len() && prev_taken[a] == j;
                            assert(taken[a] == j);
                        }
                    } else if keep {
                        assert(taken[taken.len() - 1] == j);
                    }
                }
            }
            i = i + 1;
        }
        let ghost new_entries = kept@;
        proof {
            assert(entries_sorted(new_entries)) by {
                assert forall|a: int, b: int| 0 <= a < b < new_entries.len() implies new_entries[a].0
                    < new_entries[b].0 by {
                    assert(taken[a] < taken[b]);
                }
            }
            assert forall|k: usize| #[trigger] entries_map(new_entries).dom().contains(k) implies
                entries_map(old_entries).dom().contains(k) && entries_map(new_entries)[k]
                == entries_map(old_entries)[k] && call_ensures(
                predicate,
                (k, entries_map(old_entries)[k]),
                true,
            ) by {
                let a = choose|a: int| 0 <= a < new_entries.len() && new_entries[a].0 == k;
                lemma_entries_map_at(new_entries, a);
                lemma_entries_map_at(old_entries, taken[a]);
            }
            assert forall|k: usize| #[trigger] entries_map(old_entries).dom().contains(k)
                && !entries_map(new_entries).dom().contains(k) implies call_ensures(
                predicate,
                (k, entries_map(old_entries)[k]),
                false,
            ) by {
                let j = choose|j: int| 0 <= j < old_entries.len() && old_entries[j].0 == k;
                lemma_entries_map_at(old_entries, j);
                if exists|a: int| 0 <= a < taken.len() && taken[a] == j {
                    let a = choose|a: int| 0 <= a < taken.len() && taken[a] == j;
                    assert(new_entries[a].0 == k);
                }
            }
        }
        self.locals = kept;
    }

    /// Rewrites every stack and local value with `rewrite`.
    pub fn rewrite_values<F: Fn(V) -> V>(&mut self, rewrite: F)
        requires
            forall|v: V| call_requires(rewrite, (v,)),
        ensures
            final(self).stack().len() == old(self).stack().len(),
            forall|i: int|
                0 <= i < old(self).stack().len() ==> call_ensures(
                    rewrite,
                    (old(self).stack()[i],),
                    #[trigger] final(self).stack()[i],
                ),
            final(self).locals().dom() == old(self).locals().dom(),
            forall|k: usize|
                #[trigger] old(self).locals().dom().contains(k) ==> call_ensures(
                    rewrite,
                    (old(self).locals()[k],),
                    final(self).locals()[k],
                ),
            final(self).default_value() == old(self).default_value(),
            final(self).config() == old(self).config(),
    {
        proof {
            use_type_invariant(&*self);
        }
        let mut stack: Vec<V> = Vec::new();
        let mut i: usize = 0;
        while i < self.stack.len()
            invariant
                i <= self.stack@.len(),
                stack@.len() == i,
                forall|j: int| 0 <= j < i ==> call_ensures(rewrite, (self.stack@[j],), #[trigger] stack@[j]),
                forall|v: V| call_requires(rewrite, (v,)),
            decreases self.stack.len() - i,
        {
            let v = rewrite(self.stack[i]);
            stack.push(v);
            i = i + 1;
        }
        let ghost old_entries = self.locals@;
        let mut locals: Vec<(usize, V)> = Vec::new();
        let mut j: usize = 0;
        while j < self.locals.len()
            invariant
                self.locals@ == old_entries,
                j <= old_entries.len(),
                locals@.len() == j,
                forall|a: int| 0 <= a < j ==> (#[trigger] locals@[a]).0 == old_entries[a].0 && call_ensures(
                    rewrite,
                    (old_entries[a].1,),
                    locals@[a].1,
                ),
                forall|v: V| call_requires(rewrite, (v,)),
            decreases self.locals.len() - j,
        {
            let entry = self.locals[j];
            let v = rewrite(entry.1);
            locals.push((entry.0, v));
            j = j + 1;
        }
        let ghost new_entries = locals@;
        proof {
            assert(entries_sorted(new_entries)) by {
                assert forall|a: int, b: int| 0 <= a < b < new_entries.len() implies new_entries[a].0
                    < new_entries[b].0 by {
                    assert(new_entries[a].0 == old_entries[a].0);
                    assert(new_entries[b].0 == old_entries[b].0);
                }
            }
            assert forall|k: usize| entries_bind(new_entries, k) == entries_bind(old_entries, k) by {
                if entries_bind(new_entries, k) {
                    let a = choose|a: int| 0 <= a < new_entries.len() && new_entries[a].0 == k;
                    assert(old_entries[a].0 == k);
                }
                if entries_bind(old_entries, k) {
                    let a = choose|a: int| 0 <= a < old_entries.len() && old_entries[a].0 == k;
                    assert(new_entries[a].0 == k);
                }
            }
            assert(entries_map(new_entries).dom() =~= entries_map(old_entries).dom());
            assert forall|k: usize| #[trigger] entries_map(old_entries).dom().contains(k) implies call_ensures(
                rewrite,
                (entries_map(old_entries)[k],),
                entries_map(new_entries)[k],
            ) by {
                let a = choose|a: int| 0 <= a < old_entries.len() && old_entries[a].0 == k;
                lemma_entries_map_at(old_entries, a);
                assert(new_entries[a].0 == k);
                lemma_entries_map_at(new_entries, a);
            }
        }
        self.stack = stack;
        self.locals = locals;
    }
}

/// `mapping` numbers the first appearances of `seen` from zero, and
/// `next` is the next free number.
pub open spec fn numbering(mapping: Map<u32, u32>, next: u32, seen: Seq<u32>) -> bool {
    &&& mapping.dom() == first_appearance(seen).to_set()
    &&& forall|n: int| 0 <= n < first_appearance(seen).len() ==> mapping[#[trigger] first_appearance(seen)[n]] == n
    &&& next == first_appearance(seen).len()
}

/// Numbers `id` unless it already has a number.
fn number_id(mapping: &mut BTreeMap<u32, u32>, next_id: &mut u32, id: u32, Ghost(seen): Ghost<Seq<u32>>)
    requires
        numbering(old(mapping)@, *old(next_id), seen),
        seen.len() < u32::MAX,
    ensures
        numbering(final(mapping)@, *final(next_id), seen.push(id)),
{
    proof {
        lemma_first_appearance(seen);
        assert(seen.push(id).drop_last() =~= seen);
    }
    let ghost fa = first_appearance(seen);
    if !mapping.contains_key(&id) {
        proof {
            assert(!fa.to_set().contains(id));
            assert(!fa.contains(id));
        }
        mapping.insert(id, *next_id);
        *next_id = *next_id + 1;
        proof {
            let nf = first_appearance(seen.push(id));
            assert(nf == fa.push(id));
            assert(mapping@.dom() =~= nf.to_set()) by {
                assert forall|x: u32| mapping@.dom().contains(x) == nf.to_set().contains(x) by {
                    if x != id {
                        if fa.contains(x) {
                            let i = choose|i: int| 0 <= i < fa.len() && fa[i] == x;
                            assert(nf[i] == x);
                        }
                        if nf.contains(x) {
                            let i = choose|i: int| 0 <= i < nf.len() && nf[i] == x;
                            assert(fa[i] == x);
                        }
                    } else {
                        assert(nf[fa.len() as int] == id);
                    }
                }
            }
            assert forall|n: int| 0 <= n < nf.len() implies mapping@[#[trigger] nf[n]] == n by {
                if n < fa.len() {
                    assert(nf[n] == fa[n]);
                    assert(fa[n] != id);
                }
            }
        }
    } else {
        proof {
            assert(fa.to_set().contains(id));
            assert(fa.contains(id));
            assert(first_appearance(seen.push(id)) == fa);
        }
    }
}

impl<V: Copy> StackMachine<V> {
    /// The local bindings, by ascending index.
    pub closed spec fn local_entries(&self) -> Seq<(usize, V)> {
        self.locals@
    }

    /// The values the machine tracks: the stack from the bottom, then the
    /// locals by ascending index.
    pub open spec fn tracked_values(&self) -> Seq<V> {
        self.stack() + self.local_entries().map_values(|e: (usize, V)| e.1)
    }

    /// Renumbers the symbolic identities compactly: the identities of the
    /// tracked values, then `extra_ids`, are numbered from zero in order of
    /// first appearance; each tracked value whose identity is numbered is
    /// rewritten by `assign` with its number. Returns the numbering.
    pub fn canonicalize_symbolic_ids_u32<FE: Fn(V) -> Option<u32>, FA: Fn(V, u32) -> V>(
        &mut self,
        extract: FE,
        assign: FA,
        extra_ids: &[u32],
    ) -> (mapping: BTreeMap<u32, u32>)
        requires
            extract_deterministic(extract),
            forall|v: V, n: u32| call_requires(assign, (v, n)),
            old(self).tracked_values().len() + extra_ids@.len() <= u32::MAX,
        ensures
            mapping@.dom() == canonical_order(extract, old(self).tracked_values(), extra_ids@).to_set(),
            forall|n: int|
                0 <= n < canonical_order(extract, old(self).tracked_values(), extra_ids@).len() ==> mapping@[
                    #[trigger] canonical_order(extract, old(self).tracked_values(), extra_ids@)[n]] == n,
            final(self).stack().len() == old(self).stack().len(),
            forall|i: int|
                0 <= i < old(self).stack().len() ==> renumbered(
                    extract,
                    assign,
                    mapping@,
                    old(self).stack()[i],
                    #[trigger] final(self).stack()[i],
                ),
            final(self).locals().dom() == old(self).locals().dom(),
            forall|k: usize|
                #[trigger] old(self).locals().dom().contains(k) ==> renumbered(
                    extract,
                    assign,
                    mapping@,
                    old(self).locals()[k],
                    final(self).locals()[k],
                ),
            final(self).default_value() == old(self).default_value(),
            final(self).config() == old(self).config(),
    {
        proof {
            use_type_invariant(&*self);
        }
        let ghost lvals = self.locals@.map_values(|e: (usize, V)| e.1);
        let ghost vals = self.stack@ + lvals;
        let ghost total = vals.len() + extra_ids@.len();
        let mut mapping: BTreeMap<u32, u32> = BTreeMap::new();
        let mut next_id: u32 = 0;
        let ghost mut seen: Seq<u32> = Seq::empty();
        proof {
            assert(vals.subrange(0, 0) =~= Seq::<V>::empty());
            assert(mapping@.dom() =~= first_appearance(seen).to_set());
        }
        let mut i: usize = 0;
        while i < self.stack.len()
            invariant
                i <= self.stack@.len(),
                vals == self.stack@ + lvals,
                lvals == self.locals@.map_values(|e: (usize, V)| e.1),
                total == vals.len() + extra_ids@.len(),
                total <= u32::MAX,
                extract_deterministic(extract),
                seen == extracted_ids(extract, vals.subrange(0, i as int)),
                seen.len() <= i,
                numbering(mapping@, next_id, seen),
            decreases self.stack.len() - i,
        {
            let v = self.stack[i];
            let r = extract(v);
            proof {
                lemma_extract_spec(extract, v, r);
                assert(vals[i as int] == v);
                assert(vals.subrange(0, i + 1).drop_last() =~= vals.subrange(0, i as int));
            }
            match r {
                Some(id) => {
                    number_id(&mut mapping, &mut next_id, id, Ghost(seen));
                    proof {
                        seen = seen.push(id);
                    }
                },
                None => {},
            }
            i = i + 1;
        }
        let mut j: usize = 0;
        while j < self.locals.len()
            invariant
                j <= self.locals@.len(),
                i == self.stack@.len(),
                vals == self.stack@ + lvals,
                lvals == self.locals@.map_values(|e: (usize, V)| e.1),
                total == vals.len() + extra_ids@.len(),
                total <= u32::MAX,
                extract_deterministic(extract),
                seen == extracted_ids(extract, vals.subrange(0, i + j)),
                seen.len() <= i + j,
                numbering(mapping@, next_id, seen),
            decreases self.locals.len() - j,
        {
            let v = self.locals[j].1;
            let r = extract(v);
            proof {
                lemma_extract_spec(extract, v, r);
                assert(vals[i + j] == v);
                assert(vals.subrange(0, i + j + 1).drop_last() =~= vals.subrange(0, i + j));
            }
            match r {
                Some(id) => {
                    number_id(&mut mapping, &mut next_id, id, Ghost(seen));
                    proof {
                        seen = seen.push(id);
                    }
                },
                None => {},
            }
            j = j + 1;
        }
        proof {
            assert(vals.subrange(0, i + j) =~= vals);
        }
        let ghost base = seen;
        let mut k: usize = 0;
        while k < extra_ids.len()
            invariant
                k <= extra_ids@.len(),
                base == extracted_ids(extract, vals),
                base.len() <= vals.len(),
                total == vals.len() + extra_ids@.len(),
                total <= u32::MAX,
                seen == base + extra_ids@.subrange(0, k as int),
                numbering(mapping@, next_id, seen),
            decreases extra_ids.len() - k,
        {
            let id = extra_ids[k];
            number_id(&mut mapping, &mut next_id, id, Ghost(seen));
            proof {
                seen = seen.push(id);
                assert(seen =~= base + extra_ids@.subrange(0, k + 1));
            }
            k = k + 1;
        }
        proof {
            assert(seen =~= extracted_ids(extract, vals) + extra_ids@);
            assert(vals == self.tracked_values());
        }
        if mapping.is_empty() {
            return mapping;
        }
        let mut stack: Vec<V> = Vec::new();
        let mut a: usize = 0;
        while a < self.stack.len()
            invariant
                a <= self.stack@.len(),
                stack@.len() == a,
                extract_deterministic(extract),
                forall|v: V, n: u32| call_requires(assign, (v, n)),
                forall|b: int| 0 <= b < a ==> renumbered(extract, assign, mapping@, self.stack@[b], #[trigger] stack@[b]),
            decreases self.stack.len() - a,
        {
            let v = self.stack[a];
            let nv = match extract(v) {
                Some(id) => match mapping.get(&id) {
                    Some(m) => assign(v, *m),
                    None => v,
                },
                None => v,
            };
            stack.push(nv);
            a = a + 1;
        }
        let ghost old_entries = self.locals@;
        let mut locals: Vec<(usize, V)> = Vec::new();
        let mut b: usize = 0;
        while b < self.locals.len()
            invariant
                self.locals@ == old_entries,
                b <= old_entries.len(),
                locals@.len() == b,
                extract_deterministic(extract),
                forall|v: V, n: u32| call_requires(assign, (v, n)),
                forall|c: int|
                    0 <= c < b ==> (#[trigger] locals@[c]).0 == old_entries[c].0 && renumbered(
                        extract,
                        assign,
                        mapping@,
                        old_entries[c].1,
                        locals@[c].1,
                    ),
            decreases self.locals.len() - b,
        {
            let entry = self.locals[b];
            let v = entry.1;
            let nv = match extract(v) {
                Some(id) => match mapping.get(&id) {
                    Some(m) => assign(v, *m),
                    None => v,
                },
                None => v,
            };
            locals.push((entry.0, nv));
            b = b + 1;
        }
        let ghost new_entries = locals@;
        proof {
            assert(entries_sorted(new_entries)) by {
                assert forall|x: int, y: int| 0 <= x < y < new_entries.len() implies new_entries[x].0
                    < new_entries[y].0 by {
                    assert(new_entries[x].0 == old_entries[x].0);
                    assert(new_entries[y].0 == old_entries[y].0);
                }
            }
            assert forall|kk: usize| entries_bind(new_entries, kk) == entries_bind(old_entries, kk) by {
                if entries_bind(new_entries, kk) {
                    let x = choose|x: int| 0 <= x < new_entries.len() && new_entries[x].0 == kk;
                    assert(old_entries[x].0 == kk);
                }
                if entries_bind(old_entries, kk) {
                    let x = choose|x: int| 0 <= x < old_entries.len() && old_entries[x].0 == kk;
                    assert(new_entries[x].0 == kk);
                }
            }
            assert(entries_map(new_entries).dom() =~= entries_map(old_entries).dom());
            assert forall|kk: usize| #[trigger] entries_map(old_entries).dom().contains(kk) implies renumbered(
                extract,
                assign,
                mapping@,
                entries_map(old_entries)[kk],
                entries_map(new_entries)[kk],
            ) by {
                let x = choose|x: int| 0 <= x < old_entries.len() && old_entries[x].0 == kk;
                lemma_entries_map_at(old_entries, x);
                assert(new_entries[x].0 == kk);
                lemma_entries_map_at(new_entries, x);
            }
        }
        self.stack = stack;
        self.locals = locals;
        mapping
    }
}

/// A sequence with one more value holds that value besides its own.
pub proof fn lemma_push_contains(s: Seq<u32>, x: u32, y: u32)
    ensures
        s.push(x).contains(y) == (s.contains(y) || y == x),
{
    if s.push(x).contains(y) {
        let i = choose|i: int| 0 <= i < s.push(x).len() && s.push(x)[i] == y;
        if i < s.len() {
            assert(s[i] == y);
        }
    }
    if s.contains(y) {
        let i = choose|i: int| 0 <= i < s.len() && s[i] == y;
        assert(s.push(x)[i] == y);
    }
    if y == x {
        assert(s.push(x)[s.len() as int] == y);
    }
}

/// Strictly ascending numbers.
pub open spec fn u32_ascending(s: Seq<u32>) -> bool {
    forall|i: int, j: int| 0 <= i < j < s.len() ==> s[i] < s[j]
}

/// Adds `x` to a strictly ascending list unless it is there.
pub fn insert_ascending(v: &mut Vec<u32>, x: u32)
    requires
        u32_ascending(old(v)@),
    ensures
        u32_ascending(final(v)@),
        forall|y: u32| #[trigger] final(v)@.contains(y) == (old(v)@.contains(y) || y == x),
{
    let mut pos: usize = 0;
    while pos < v.len() && v[pos] < x
        invariant
            pos <= v@.len(),
            forall|j: int| 0 <= j < pos ==> v@[j] < x,
        decreases v.len() - pos,
    {
        pos = pos + 1;
    }
    if pos < v.len() && v[pos] == x {
        return;
    }
    let ghost before = v@;
    v.insert(pos, x);
    proof {
        assert forall|y: u32| #[trigger] v@.contains(y) == (before.contains(y) || y == x) by {
            if v@.contains(y) {
                let i = choose|i: int| 0 <= i < v@.len() && v@[i] == y;
                if i < pos {
                    assert(before[i] == y);
                } else if i > pos {
                    assert(before[i - 1] == y);
                }
            }
            if before.contains(y) {
                let i = choose|i: int| 0 <= i < before.len() && before[i] == y;
                if i < pos {
                    assert(v@[i] == y);
                } else {
                    assert(v@[i + 1] == y);
                }
            }
            if y == x {
                assert(v@[pos as int] == x);
            }
        }
    }
}

impl<V: Copy> StackMachine<V> {
    /// Applies the cap on symbolic identities. Without a cap, nothing changes
    /// and nothing is returned. With a cap, the largest identities of the
    /// tracked values are kept, as many as the cap allows; each tracked value
    /// with another identity is rewritten by `set_unknown`. Returns the kept
    /// identities.
    pub fn enforce_symbolic_identity_cap_u32<FE: Fn(V) -> Option<u32>, FU: Fn(V) -> V>(
        &mut self,
        extract: FE,
        set_unknown: FU,
    ) -> (res: Option<BTreeSet<u32>>)
        requires
            extract_deterministic(extract),
            forall|v: V| call_requires(set_unknown, (v,)),
        ensures
            match old(self).config().max_symbolic_identities {
                None => res is None && final(self).stack() == old(self).stack() && final(self).locals()
                    == old(self).locals(),
                Some(max) => res matches Some(kept) && largest_ids(
                    extracted_ids(extract, old(self).tracked_values()).to_set(),
                    max as nat,
                    kept@,
                ) && final(self).stack().len() == old(self).stack().len() && (forall|i: int|
                    0 <= i < old(self).stack().len() ==> capped(
                        extract,
                        set_unknown,
                        kept@,
                        old(self).stack()[i],
                        #[trigger] final(self).stack()[i],
                    )) && final(self).locals().dom() == old(self).locals().dom() && (forall|k: usize|
                    #[trigger] old(self).locals().dom().contains(k) ==> capped(
                        extract,
                        set_unknown,
                        kept@,
                        old(self).locals()[k],
                        final(self).locals()[k],
                    )),
            },
            final(self).default_value() == old(self).default_value(),
            final(self).config() == old(self).config(),
    {
        proof {
            use_type_invariant(&*self);
        }
        let max = match self.config.max_symbolic_identities {
            Some(m) => m,
            None => {
                return None;
            },
        };
        let ghost lvals = self.locals@.map_values(|e: (usize, V)| e.1);
        let ghost vals = self.stack@ + lvals;
        let mut live: Vec<u32> = Vec::new();
        let ghost mut seen: Seq<u32> = Seq::empty();
        proof {
            assert(vals.subrange(0, 0) =~= Seq::<V>::empty());
        }
        let mut i: usize = 0;
        while i < self.stack.len()
            invariant
                i <= self.stack@.len(),
                vals == self.stack@ + lvals,
                extract_deterministic(extract),
                seen == extracted_ids(extract, vals.subrange(0, i as int)),
                u32_ascending(live@),
                forall|y: u32| #[trigger] live@.contains(y) == seen.contains(y),
            decreases self.stack.len() - i,
        {
            let v = self.stack[i];
            let r = extract(v);
            proof {
                lemma_extract_spec(extract, v, r);
                assert(vals[i as int] == v);
                assert(vals.subrange(0, i + 1).drop_last() =~= vals.subrange(0, i as int));
            }
            match r {
                Some(id) => {
                    insert_ascending(&mut live, id);
                    proof {
                        let prev = seen;
                        seen = seen.push(id);
                        assert forall|y: u32| #[trigger] live@.contains(y) == seen.contains(y) by {
                            lemma_push_contains(prev, id, y);
                        }
                    }
                },
                None => {},
            }
            i = i + 1;
        }
        let mut j: usize = 0;
        while j < self.locals.len()
            invariant
                j <= self.locals@.len(),
                i == self.stack@.len(),
                vals == self.stack@ + lvals,
                lvals == self.locals@.map_values(|e: (usize, V)| e.1),
                extract_deterministic(extract),
                seen == extracted_ids(extract, vals.subrange(0, i + j)),
                u32_ascending(live@),
                forall|y: u32| #[trigger] live@.contains(y) == seen.contains(y),
            decreases self.locals.len() - j,
        {
            let v = self.locals[j].1;
            let r = extract(v);
            proof {
                lemma_extract_spec(extract, v, r);
                assert(vals[i + j] == v);
                assert(vals.subrange(0, i + j + 1).drop_last() =~= vals.subrange(0, i + j));
            }
            match r {
                Some(id) => {
                    insert_ascending(&mut live, id);
                    proof {
                        let prev = seen;
                        seen = seen.push(id);
                        assert forall|y: u32| #[trigger] live@.contains(y) == seen.contains(y) by {
                            lemma_push_contains(prev, id, y);
                        }
                    }
                },
                None => {},
            }
            j = j + 1;
        }
        proof {
            assert(vals.subrange(0, i + j) =~= vals);
            assert(vals == self.tracked_values());
        }
        let count = if live.len() < max {
            live.len()
        } else {
            max
        };
        let start = live.len() - count;
        let mut kept: BTreeSet<u32> = BTreeSet::new();
        let mut t: usize = start;
        while t < live.len()
            invariant
                start <= t <= live@.len(),
                kept@ == live@.subrange(start as int, t as int).to_set(),
            decreases live.len() - t,
        {
            let ghost before = kept@;
            kept.insert(live[t]);
            proof {
                let prev = live@.subrange(start as int, t as int);
                let next = live@.subrange(start as int, t + 1);
                assert(next =~= prev.push(live@[t as int]));
                assert forall|y: u32| kept@.contains(y) == next.to_set().contains(y) by {
                    lemma_push_contains(prev, live@[t as int], y);
                }
                assert(kept@ =~= next.to_set());
            }
            t = t + 1;
        }
        proof {
            let l = seen.to_set();
            let tail = live@.subrange(start as int, live@.len() as int);
            assert(live@.to_set() =~= l);
            assert forall|a: int, b: int| 0 <= a < b < live@.len() implies live@[a] != live@[b] by {}
            assert(live@.no_duplicates());
            live@.unique_seq_to_set();
            assert(tail.no_duplicates());
            tail.unique_seq_to_set();
            assert forall|a: u32, b: u32| kept@.contains(a) && l.contains(b) && !kept@.contains(b) implies b < a by {
                let x = choose|x: int| 0 <= x < tail.len() && tail[x] == a;
                assert(live@.contains(b));
                let y = choose|y: int| 0 <= y < live@.len() && live@[y] == b;
                if y >= start {
                    assert(tail[y - start] == b);
                }
                assert(live@[start + x] == a);
            }
            assert(kept@.subset_of(l)) by {
                assert forall|a: u32| kept@.contains(a) implies l.contains(a) by {
                    let x = choose|x: int| 0 <= x < tail.len() && tail[x] == a;
                    assert(live@[start + x] == a);
                    assert(live@.contains(a));
                }
            }
        }
        let mut stack: Vec<V> = Vec::new();
        let mut a: usize = 0;
        while a < self.stack.len()
            invariant
                a <= self.stack@.len(),
                stack@.len() == a,
                extract_deterministic(extract),
                forall|v: V| call_requires(set_unknown, (v,)),
                forall|b: int| 0 <= b < a ==> capped(extract, set_unknown, kept@, self.stack@[b], #[trigger] stack@[b]),
            decreases self.stack.len() - a,
        {
            let v = self.stack[a];
            let nv = match extract(v) {
                Some(id) => if kept.contains(&id) {
                    v
                } else {
                    set_unknown(v)
                },
                None => v,
            };
            stack.push(nv);
            a = a + 1;
        }
        let ghost old_entries = self.locals@;
        let mut locals: Vec<(usize, V)> = Vec::new();
        let mut b: usize = 0;
        while b < self.locals.len()
            invariant
                self.locals@ == old_entries,
                b <= old_entries.len(),
                locals@.len() == b,
                extract_deterministic(extract),
                forall|v: V| call_requires(set_unknown, (v,)),
                forall|c: int|
                    0 <= c < b ==> (#[trigger] locals@[c]).0 == old_entries[c].0 && capped(
                        extract,
                        set_unknown,
                        kept@,
                        old_entries[c].1,
                        locals@[c].1,
                    ),
            decreases self.locals.len() - b,
        {
            let entry = self.locals[b];
            let v = entry.1;
            let nv = match extract(v) {
                Some(id) => if kept.contains(&id) {
                    v
                } else {
                    set_unknown(v)
                },
                None => v,
            };
            locals.push((entry.0, nv));
            b = b + 1;
        }
        let ghost new_entries = locals@;
        proof {
            assert(entries_sorted(new_entries)) by {
                assert forall|x: int, y: int| 0 <= x < y < new_entries.len() implies new_entries[x].0
                    < new_entries[y].0 by {
                    assert(new_entries[x].0 == old_entries[x].0);
                    assert(new_entries[y].0 == old_entries[y].0);
                }
            }
            assert forall|kk: usize| entries_bind(new_entries, kk) == entries_bind(old_entries, kk) by {
                if entries_bind(new_entries, kk) {
                    let x = choose|x: int| 0 <= x < new_entries.len() && new_entries[x].0 == kk;
                    assert(old_entries[x].0 == kk);
                }
                if entries_bind(old_entries, kk) {
                    let x = choose|x: int| 0 <= x < old_entries.len() && old_entries[x].0 == kk;
                    assert(new_entries[x].0 == kk);
                }
            }
            assert(entries_map(new_entries).dom() =~= entries_map(old_entries).dom());
            assert forall|kk: usize| #[trigger] entries_map(old_entries).dom().contains(kk) implies capped(
                extract,
                set_unknown,
                kept@,
                entries_map(old_entries)[kk],
                entries_map(new_entries)[kk],
            ) by {
                let x = choose|x: int| 0 <= x < old_entries.len() && old_entries[x].0 == kk;
                lemma_entries_map_at(old_entries, x);
                assert(new_entries[x].0 == kk);
                lemma_entries_map_at(new_entries, x);
            }
        }
        self.stack = stack;
        self.locals = locals;
        Some(kept)
    }
}

impl<V: Copy> Clone for StackMachine<V> {
    fn clone(&self) -> (res: Self)
        ensures
            res.stack() == self.stack(),
            res.locals() == self.locals(),
            res.default_value() == self.default_value(),
            res.config() == self.config(),
    {
        proof {
            use_type_invariant(self);
        }
        StackMachine {
            stack: copy_vec(&self.stack),
            locals: copy_vec(&self.locals),
            default_value: self.default_value,
            config: self.config,
        }
    }
}

/// Copies a vector of plain values.
pub fn copy_vec<T: Copy>(v: &Vec<T>) -> (res: Vec<T>)
    ensures
        res@ == v@,
{
    let mut res: Vec<T> = Vec::new();
    let mut i: usize = 0;
    while i < v.len()
        invariant
            i <= v@.len(),
            res@ == v@.subrange(0, i as int),
        decreases v.len() - i,
    {
        res.push(v[i]);
        i = i + 1;
        assert(res@ =~= v@.subrange(0, i as int));
    }
    assert(res@ =~= v@);
    res
}

} // verus!
