//! Reports methods of the analysis targets that no public method reaches
//! through the call graph.
use vstd::prelude::*;
use crate::callgraph::{
    CallEdge, EdgeKey, MethodId, MethodKey, build_call_graph_for, call_edge, copy_method_id, edge_lt, edges_sorted,
    has_edge, indexed, key_at, key_lt, lemma_key_lt, method_id_eq, method_id_lt,
};
use crate::engine::{AnalysisContext, opt_view};
use crate::error::AnalysisError;
use crate::ir::{CallKind, Class, Method, class_seq, line_for_offset_spec};
use crate::rules::location::{
    Finding, FindingView, RuleMetadata, finding, finding_spec, finding_views, method_location_spec,
    method_location_with_line, push_finding,
};
use crate::rules::prefer_enumset::context_classes;

verus! {

/// Strictly ascending method identities (hence each key once).
pub open spec fn ids_sorted(v: Seq<MethodId>) -> bool {
    forall|i: int, j: int| 0 <= i < j < v.len() ==> key_lt(v[i]@, v[j]@)
}

/// Where `x` belongs in a strictly ascending list of identities: everything
/// before is smaller, nothing from there on is; and whether it is there.
pub fn id_position(v: &Vec<MethodId>, x: &MethodId) -> (res: (usize, bool))
    requires
        ids_sorted(v@),
    ensures
        res.0 <= v@.len(),
        forall|j: int| 0 <= j < res.0 ==> key_lt(v@[j]@, x@),
        forall|j: int| res.0 <= j < v@.len() ==> !key_lt(v@[j]@, x@),
        res.1 == indexed(v@, x@),
        res.1 ==> v@[res.0 as int]@ == x@,
{
    let mut lo: usize = 0;
    let mut hi: usize = v.len();
    while lo < hi
        invariant
            lo <= hi <= v@.len(),
            ids_sorted(v@),
            forall|j: int| 0 <= j < lo ==> key_lt(v@[j]@, x@),
            forall|j: int| hi <= j < v@.len() ==> !key_lt(v@[j]@, x@),
        decreases hi - lo,
    {
        let mid = lo + (hi - lo) / 2;
        if method_id_lt(&v[mid], x) {
            proof {
                assert forall|j: int| 0 <= j < mid + 1 implies key_lt(v@[j]@, x@) by {
                    if j < mid {
                        lemma_key_lt(v@[j]@, v@[mid as int]@, x@);
                    }
                }
            }
            lo = mid + 1;
        } else {
            proof {
                assert forall|j: int| mid <= j < v@.len() implies !key_lt(v@[j]@, x@) by {
                    if j > mid {
                        lemma_key_lt(v@[mid as int]@, v@[j]@, x@);
                    }
                }
            }
            hi = mid;
        }
    }
    let found = lo < v.len() && method_id_eq(&v[lo], x);
    proof {
        if indexed(v@, x@) {
            let j = choose|j: int| 0 <= j < v@.len() && (#[trigger] v@[j])@ == x@;
            lemma_key_lt(x@, x@, x@);
            if j > lo {
                lemma_key_lt(v@[lo as int]@, x@, x@);
                lemma_key_lt(x@, v@[lo as int]@, x@);
            }
        }
    }
    (lo, found)
}

/// Adds `x` to a strictly ascending list unless its key is there; whether it
/// was added.
pub fn add_id(v: &mut Vec<MethodId>, x: &MethodId) -> (added: bool)
    requires
        ids_sorted(old(v)@),
    ensures
        ids_sorted(final(v)@),
        added == !indexed(old(v)@, x@),
        final(v)@.len() == old(v)@.len() + (if added { 1int } else { 0int }),
        forall|k: MethodKey| #[trigger] indexed(final(v)@, k) == (indexed(old(v)@, k) || k == x@),
{
    let (pos, found) = id_position(v, x);
    if found {
        return false;
    }
    let ghost before = v@;
    v.insert(pos, copy_method_id(x));
    proof {
        assert forall|a: int, b: int| 0 <= a < b < v@.len() implies key_lt(v@[a]@, v@[b]@) by {
            if a < pos && b < pos {
                assert(v@[a] == before[a] && v@[b] == before[b]);
            } else if a < pos && b == pos {
                assert(v@[a] == before[a]);
            } else if a < pos && b > pos {
                assert(v@[a] == before[a] && v@[b] == before[b - 1]);
            } else if a == pos {
                assert(v@[b] == before[b - 1]);
                lemma_key_lt(before[b - 1]@, x@, x@);
            } else {
                assert(v@[a] == before[a - 1] && v@[b] == before[b - 1]);
            }
        }
        assert forall|k: MethodKey| #[trigger] indexed(v@, k) == (indexed(before, k) || k == x@) by {
            if indexed(v@, k) {
                let i = choose|i: int| 0 <= i < v@.len() && (#[trigger] v@[i])@ == k;
                if i < pos {
                    assert(before[i] == v@[i]);
                } else if i > pos {
                    assert(before[i - 1] == v@[i]);
                }
            }
            if indexed(before, k) {
                let i = choose|i: int| 0 <= i < before.len() && (#[trigger] before[i])@ == k;
                if i < pos {
                    assert(v@[i] == before[i]);
                } else {
                    assert(v@[i + 1] == before[i]);
                }
            }
            if k == x@ {
                assert(v@[pos as int]@ == x@);
            }
        }
    }
    true
}

/// Some edge of the list goes from `a` to `b`.
pub open spec fn linked_by(edges: Seq<CallEdge>, a: MethodKey, b: MethodKey) -> bool {
    exists|i: int| 0 <= i < edges.len() && (#[trigger] edges[i]).caller@ == a && edges[i].callee@ == b
}

/// `p` is a walk that starts in `starts` and takes `step` from each method
/// to the next.
pub open spec fn is_walk(step: spec_fn(MethodKey, MethodKey) -> bool, starts: Set<MethodKey>, p: Seq<MethodKey>) -> bool {
    &&& p.len() > 0
    &&& starts.contains(p[0])
    &&& forall|i: int| 0 <= i < p.len() - 1 ==> step(#[trigger] p[i], p[i + 1])
}

/// Some walk from `starts` along `step` ends at `k`.
pub open spec fn reaches(step: spec_fn(MethodKey, MethodKey) -> bool, starts: Set<MethodKey>, k: MethodKey) -> bool {
    exists|p: Seq<MethodKey>| #[trigger] is_walk(step, starts, p) && p.last() == k
}

/// The keys of a list of identities.
pub open spec fn key_set(v: Seq<MethodId>) -> Set<MethodKey> {
    Set::new(|k: MethodKey| indexed(v, k))
}

/// A walk that ends in `a` goes on to `b` when `step(a, b)`.
pub proof fn lemma_walk_extend(
    step: spec_fn(MethodKey, MethodKey) -> bool,
    starts: Set<MethodKey>,
    p: Seq<MethodKey>,
    b: MethodKey,
)
    requires
        is_walk(step, starts, p),
        step(p.last(), b),
    ensures
        is_walk(step, starts, p.push(b)),
        p.push(b).last() == b,
{
    let q = p.push(b);
    assert forall|i: int| 0 <= i < q.len() - 1 implies step(#[trigger] q[i], q[i + 1]) by {
        if i < p.len() - 1 {
            assert(q[i] == p[i] && q[i + 1] == p[i + 1]);
        } else {
            assert(q[i] == p.last());
        }
    }
}

/// A set that holds the starts and is closed under `step` holds every method
/// that a walk reaches.
pub proof fn lemma_walk_closed(
    step: spec_fn(MethodKey, MethodKey) -> bool,
    starts: Set<MethodKey>,
    inside: Set<MethodKey>,
    p: Seq<MethodKey>,
)
    requires
        starts.subset_of(inside),
        forall|a: MethodKey, b: MethodKey| inside.contains(a) && #[trigger] step(a, b) ==> inside.contains(b),
        is_walk(step, starts, p),
    ensures
        inside.contains(p.last()),
    decreases p.len(),
{
    if p.len() > 1 {
        let q = p.drop_last();
        assert forall|i: int| 0 <= i < q.len() - 1 implies step(#[trigger] q[i], q[i + 1]) by {
            assert(q[i] == p[i] && q[i + 1] == p[i + 1]);
            assert(step(p[i], p[i + 1]));
        }
        lemma_walk_closed(step, starts, inside, q);
        assert(step(p[p.len() - 2], p[p.len() - 1]));
    }
}

/// Edges sorted by `edge_lt` have non-decreasing callers.
pub proof fn lemma_callers_monotone(edges: Seq<CallEdge>, i: int, j: int)
    requires
        edges_sorted(edges),
        0 <= i < j < edges.len(),
    ensures
        !key_lt(edges[j].caller@, edges[i].caller@),
{
    assert(edge_lt(edges[i]@, edges[j]@));
    lemma_key_lt(edges[i].caller@, edges[j].caller@, edges[i].caller@);
}

/// The first edge whose caller is not before `node`.
pub fn first_edge_from(edges: &Vec<CallEdge>, node: &MethodId) -> (res: usize)
    requires
        edges_sorted(edges@),
    ensures
        res <= edges@.len(),
        forall|i: int| 0 <= i < res ==> key_lt(#[trigger] edges@[i].caller@, node@),
        forall|i: int| res <= i < edges@.len() ==> !key_lt(#[trigger] edges@[i].caller@, node@),
{
    let mut lo: usize = 0;
    let mut hi: usize = edges.len();
    while lo < hi
        invariant
            lo <= hi <= edges@.len(),
            edges_sorted(edges@),
            forall|i: int| 0 <= i < lo ==> key_lt(#[trigger] edges@[i].caller@, node@),
            forall|i: int| hi <= i < edges@.len() ==> !key_lt(#[trigger] edges@[i].caller@, node@),
        decreases hi - lo,
    {
        let mid = lo + (hi - lo) / 2;
        if method_id_lt(&edges[mid].caller, node) {
            proof {
                assert forall|i: int| 0 <= i < mid + 1 implies key_lt(#[trigger] edges@[i].caller@, node@) by {
                    if i < mid {
                        lemma_callers_monotone(edges@, i, mid as int);
                        lemma_key_lt(edges@[i].caller@, edges@[mid as int].caller@, node@);
                    }
                }
            }
            lo = mid + 1;
        } else {
            proof {
                assert forall|i: int| mid <= i < edges@.len() implies !key_lt(#[trigger] edges@[i].caller@, node@) by {
                    if i > mid {
                        lemma_callers_monotone(edges@, mid as int, i);
                        lemma_key_lt(edges@[mid as int].caller@, edges@[i].caller@, node@);
                        lemma_key_lt(edges@[i].caller@, edges@[mid as int].caller@, node@);
                    }
                }
            }
            hi = mid;
        }
    }
    lo
}

/// Some entry or some edge's callee has the key.
pub open spec fn in_universe(entries: Seq<MethodId>, edges: Seq<CallEdge>, k: MethodKey) -> bool {
    indexed(entries, k) || exists|i: int| 0 <= i < edges.len() && (#[trigger] edges[i]).callee@ == k
}

/// A strictly ascending list drawn from the entries and the callees is no
/// longer than both together.
pub proof fn lemma_visited_bound(v: Seq<MethodId>, entries: Seq<MethodId>, edges: Seq<CallEdge>)
    requires
        ids_sorted(v),
        forall|i: int| 0 <= i < v.len() ==> in_universe(entries, edges, #[trigger] v[i]@),
    ensures
        v.len() <= entries.len() + edges.len(),
{
    let vk = v.map_values(|m: MethodId| m@);
    let uk = entries.map_values(|m: MethodId| m@) + edges.map_values(|e: CallEdge| e.callee@);
    assert forall|a: int, b: int| 0 <= a < b < vk.len() implies vk[a] != vk[b] by {
        lemma_key_lt(v[a]@, v[b]@, v[a]@);
    }
    assert(vk.no_duplicates());
    vk.unique_seq_to_set();
    assert forall|k: MethodKey| vk.to_set().contains(k) implies uk.to_set().contains(k) by {
        let a = choose|a: int| 0 <= a < vk.len() && vk[a] == k;
        assert(in_universe(entries, edges, v[a]@));
        if indexed(entries, k) {
            let i = choose|i: int| 0 <= i < entries.len() && (#[trigger] entries[i])@ == k;
            assert(uk[i] == k);
        } else {
            let i = choose|i: int| 0 <= i < edges.len() && (#[trigger] edges[i]).callee@ == k;
            assert(uk[entries.len() + i] == k);
        }
    }
    uk.lemma_cardinality_of_set();
    vstd::seq_lib::seq_to_set_is_finite(uk);
    vstd::set_lib::lemma_len_subset(vk.to_set(), uk.to_set());
}


/// The step of a walk along an edge list.
pub open spec fn edge_step(edges: Seq<CallEdge>) -> spec_fn(MethodKey, MethodKey) -> bool {
    |a: MethodKey, b: MethodKey| linked_by(edges, a, b)
}

/// Breadth-first walk of the call graph from `entries`: the methods reached,
/// ascending, each once. Exactly the keys that some walk from an entry along
/// the edges ends at.
pub fn walk_graph(entries: &Vec<MethodId>, edges: &Vec<CallEdge>) -> (res: Vec<MethodId>)
    requires
        edges_sorted(edges@),
    ensures
        ids_sorted(res@),
        forall|k: MethodKey| #[trigger] indexed(res@, k) == reaches(edge_step(edges@), key_set(entries@), k),
{
    let ghost step = edge_step(edges@);
    let ghost starts = key_set(entries@);
    let ghost bound = entries@.len() + edges@.len();
    let mut visited: Vec<MethodId> = Vec::new();
    let mut queue: Vec<MethodId> = Vec::new();
    let mut e: usize = 0;
    while e < entries.len()
        invariant
            e <= entries@.len(),
            step == edge_step(edges@),
            starts == key_set(entries@),
            ids_sorted(visited@),
            queue@.len() == visited@.len(),
            forall|k: MethodKey| #[trigger] indexed(queue@, k) == indexed(visited@, k),
            forall|i: int| 0 <= i < visited@.len() ==> in_universe(entries@, edges@, #[trigger] visited@[i]@),
            forall|i: int| 0 <= i < queue@.len() ==> reaches(step, starts, #[trigger] queue@[i]@),
            forall|i: int| 0 <= i < e ==> indexed(visited@, #[trigger] entries@[i]@),
        decreases entries.len() - e,
    {
        let ghost old_visited = visited@;
        let ghost old_queue = queue@;
        let added = add_id(&mut visited, &entries[e]);
        if added {
            queue.push(copy_method_id(&entries[e]));
        }
        proof {
            let x = entries@[e as int]@;
            assert(indexed(entries@, x));
            assert(starts.contains(x));
            assert(is_walk(step, starts, seq![x]));
            assert(reaches(step, starts, x));
            assert forall|k: MethodKey| #[trigger] indexed(queue@, k) == indexed(visited@, k) by {
                if added {
                    assert(queue@ == old_queue.push(queue@.last()));
                    if indexed(queue@, k) {
                        let i = choose|i: int| 0 <= i < queue@.len() && (#[trigger] queue@[i])@ == k;
                        if i < old_queue.len() {
                            assert(old_queue[i] == queue@[i]);
                        }
                    }
                    if indexed(old_queue, k) {
                        let i = choose|i: int| 0 <= i < old_queue.len() && (#[trigger] old_queue[i])@ == k;
                        assert(queue@[i] == old_queue[i]);
                    }
                    if k == x {
                        assert(queue@[old_queue.len() as int]@ == x);
                    }
                }
            }
            assert forall|i: int| 0 <= i < visited@.len() implies in_universe(entries@, edges@, #[trigger] visited@[i]@) by {
                assert(indexed(visited@, visited@[i]@));
                if indexed(old_visited, visited@[i]@) {
                    let j = choose|j: int| 0 <= j < old_visited.len() && (#[trigger] old_visited[j])@ == visited@[i]@;
                    assert(in_universe(entries@, edges@, old_visited[j]@));
                }
            }
            assert forall|i: int| 0 <= i < queue@.len() implies reaches(step, starts, #[trigger] queue@[i]@) by {
                if i < old_queue.len() {
                    assert(queue@[i] == old_queue[i]);
                }
            }
        }
        e = e + 1;
    }
    let mut head: usize = 0;
    proof {
        lemma_visited_bound(visited@, entries@, edges@);
    }
    while head < queue.len()
        invariant
            step == edge_step(edges@),
            starts == key_set(entries@),
            bound == entries@.len() + edges@.len(),
            edges_sorted(edges@),
            ids_sorted(visited@),
            queue@.len() == visited@.len(),
            visited@.len() <= bound,
            head <= queue@.len(),
            forall|k: MethodKey| #[trigger] indexed(queue@, k) == indexed(visited@, k),
            forall|i: int| 0 <= i < visited@.len() ==> in_universe(entries@, edges@, #[trigger] visited@[i]@),
            forall|i: int| 0 <= i < queue@.len() ==> reaches(step, starts, #[trigger] queue@[i]@),
            forall|i: int| 0 <= i < entries@.len() ==> indexed(visited@, #[trigger] entries@[i]@),
            forall|i: int, b: MethodKey|
                0 <= i < head && #[trigger] linked_by(edges@, queue@[i]@, b) ==> indexed(visited@, b),
        decreases bound - head,
    {
        let node = copy_method_id(&queue[head]);
        let ghost h = head;
        head = head + 1;
        let t0 = first_edge_from(edges, &node);
        let mut t: usize = t0;
        while t < edges.len() && method_id_eq(&edges[t].caller, &node)
            invariant
                step == edge_step(edges@),
                starts == key_set(entries@),
                bound == entries@.len() + edges@.len(),
                edges_sorted(edges@),
                ids_sorted(visited@),
                queue@.len() == visited@.len(),
                visited@.len() <= bound,
                head <= queue@.len(),
                h + 1 == head,
                queue@[h as int]@ == node@,
                t0 <= t <= edges@.len(),
                forall|i: int| 0 <= i < t0 ==> key_lt(#[trigger] edges@[i].caller@, node@),
                forall|i: int| t0 <= i < edges@.len() ==> !key_lt(#[trigger] edges@[i].caller@, node@),
                forall|i: int| t0 <= i < t ==> (#[trigger] edges@[i]).caller@ == node@ && indexed(visited@, edges@[i].callee@),
                forall|k: MethodKey| #[trigger] indexed(queue@, k) == indexed(visited@, k),
                forall|i: int| 0 <= i < visited@.len() ==> in_universe(entries@, edges@, #[trigger] visited@[i]@),
                forall|i: int| 0 <= i < queue@.len() ==> reaches(step, starts, #[trigger] queue@[i]@),
                forall|i: int| 0 <= i < entries@.len() ==> indexed(visited@, #[trigger] entries@[i]@),
                forall|i: int, b: MethodKey|
                    0 <= i < h && #[trigger] linked_by(edges@, queue@[i]@, b) ==> indexed(visited@, b),
            decreases edges.len() - t,
        {
            let callee = &edges[t].callee;
            let ghost old_visited = visited@;
            let ghost old_queue = queue@;
            let added = add_id(&mut visited, callee);
            if added {
                queue.push(copy_method_id(callee));
            }
            proof {
                let x = callee@;
                assert(linked_by(edges@, node@, x)) by {
                    assert(edges@[t as int].caller@ == node@);
                }
                assert(reaches(step, starts, node@)) by {
                    assert(reaches(step, starts, queue@[h as int]@));
                }
                let p = choose|p: Seq<MethodKey>| #[trigger] is_walk(step, starts, p) && p.last() == node@;
                lemma_walk_extend(step, starts, p, x);
                assert(reaches(step, starts, x));
                assert forall|k: MethodKey| #[trigger] indexed(queue@, k) == indexed(visited@, k) by {
                    if added {
                        assert(queue@ == old_queue.push(queue@.last()));
                        if indexed(queue@, k) {
                            let i = choose|i: int| 0 <= i < queue@.len() && (#[trigger] queue@[i])@ == k;
                            if i < old_queue.len() {
                                assert(old_queue[i] == queue@[i]);
                            }
                        }
                        if indexed(old_queue, k) {
                            let i = choose|i: int| 0 <= i < old_queue.len() && (#[trigger] old_queue[i])@ == k;
                            assert(queue@[i] == old_queue[i]);
                        }
                        if k == x {
                            assert(queue@[old_queue.len() as int]@ == x);
                        }
                    }
                }
                assert forall|i: int| 0 <= i < visited@.len() implies in_universe(entries@, edges@, #[trigger] visited@[i]@) by {
                    assert(indexed(visited@, visited@[i]@));
                    if indexed(old_visited, visited@[i]@) {
                        let j = choose|j: int| 0 <= j < old_visited.len() && (#[trigger] old_visited[j])@ == visited@[i]@;
                        assert(in_universe(entries@, edges@, old_visited[j]@));
                    } else {
                        assert(edges@[t as int].callee@ == visited@[i]@);
                    }
                }
                lemma_visited_bound(visited@, entries@, edges@);
                assert forall|i: int| 0 <= i < queue@.len() implies reaches(step, starts, #[trigger] queue@[i]@) by {
                    if i < old_queue.len() {
                        assert(queue@[i] == old_queue[i]);
                    } else {
                        assert(queue@[i]@ == x);
                    }
                }
                assert(queue@[h as int] == old_queue[h as int]);
                assert forall|i: int, b: MethodKey|
                    0 <= i < h && #[trigger] linked_by(edges@, queue@[i]@, b) implies indexed(visited@, b) by {
                    assert(queue@[i] == old_queue[i]);
                }
            }
            t = t + 1;
        }
        proof {
            assert forall|b: MethodKey| linked_by(edges@, node@, b) implies indexed(visited@, b) by {
                let i = choose|i: int| 0 <= i < edges@.len() && (#[trigger] edges@[i]).caller@ == node@ && edges@[i].callee@ == b;
                if i < t0 {
                    lemma_key_lt(node@, node@, node@);
                } else if i >= t {
                    assert(t < edges@.len());
                    assert(edges@[t as int].caller@ != node@);
                    lemma_key_lt(edges@[t as int].caller@, node@, node@);
                    if i > t {
                        lemma_callers_monotone(edges@, t as int, i);
                        lemma_key_lt(node@, edges@[t as int].caller@, edges@[i].caller@);
                        lemma_key_lt(edges@[i].caller@, node@, node@);
                    }
                }
            }
            assert forall|i: int, b: MethodKey|
                0 <= i < head && #[trigger] linked_by(edges@, queue@[i]@, b) implies indexed(visited@, b) by {
                if i == h {
                    assert(queue@[i]@ == node@);
                }
            }
        }
    }
    proof {
        let inside = key_set(visited@);
        assert forall|k: MethodKey| starts.contains(k) implies inside.contains(k) by {
            let i = choose|i: int| 0 <= i < entries@.len() && (#[trigger] entries@[i])@ == k;
            assert(indexed(visited@, entries@[i]@));
        }
        assert forall|a: MethodKey, b: MethodKey| inside.contains(a) && #[trigger] step(a, b) implies inside.contains(b) by {
            assert(indexed(queue@, a));
            let i = choose|i: int| 0 <= i < queue@.len() && (#[trigger] queue@[i])@ == a;
            assert(linked_by(edges@, queue@[i]@, b));
        }
        assert forall|k: MethodKey| #[trigger] indexed(visited@, k) == reaches(step, starts, k) by {
            if reaches(step, starts, k) {
                let p = choose|p: Seq<MethodKey>| #[trigger] is_walk(step, starts, p) && p.last() == k;
                lemma_walk_closed(step, starts, inside, p);
            }
            if indexed(visited@, k) {
                assert(indexed(queue@, k));
                let i = choose|i: int| 0 <= i < queue@.len() && (#[trigger] queue@[i])@ == k;
                assert(reaches(step, starts, queue@[i]@));
            }
        }
    }
    visited
}


/// Method `j` of class `i` exists.
pub open spec fn valid_pos(ts: Seq<Class>, i: int, j: int) -> bool {
    0 <= i < ts.len() && 0 <= j < ts[i].methods@.len()
}

/// Position `(i, j)` comes no later than `(i2, j2)` in class, then method order.
pub open spec fn pos_le(i: int, j: int, i2: int, j2: int) -> bool {
    i < i2 || (i == i2 && j <= j2)
}

/// Position `(i, j)` is at or after `(ci, mi)`.
pub open spec fn at_or_after(i: int, j: int, ci: int, mi: int) -> bool {
    i > ci || (i == ci && j >= mi)
}

/// `(i, j)` is the last method of the classes with key `k`.
pub open spec fn is_last_pos(ts: Seq<Class>, k: MethodKey, i: int, j: int) -> bool {
    &&& valid_pos(ts, i, j)
    &&& key_at(ts, i, j) == k
    &&& forall|i2: int, j2: int| valid_pos(ts, i2, j2) && #[trigger] key_at(ts, i2, j2) == k ==> pos_le(i2, j2, i, j)
}

/// The last method of the classes with key `k`.
pub open spec fn last_pos(ts: Seq<Class>, k: MethodKey) -> (int, int) {
    choose|p: (int, int)| is_last_pos(ts, k, p.0, p.1)
}

/// Some method of the classes has key `k`.
pub open spec fn target_key(ts: Seq<Class>, k: MethodKey) -> bool {
    exists|i: int, j: int| valid_pos(ts, i, j) && #[trigger] key_at(ts, i, j) == k
}

/// The keys of the public methods of the classes: the entry points.
pub open spec fn entry_keys(ts: Seq<Class>) -> Set<MethodKey> {
    Set::new(
        |k: MethodKey|
            exists|i: int, j: int|
                valid_pos(ts, i, j) && ts[i].methods@[j].access.is_public && #[trigger] key_at(ts, i, j) == k,
    )
}

/// `a` calls `b` in the call graph of `cc`.
pub open spec fn calls(cc: Seq<Class>) -> spec_fn(MethodKey, MethodKey) -> bool {
    |a: MethodKey, b: MethodKey| exists|kind: CallKind, offset: u32| #[trigger] call_edge(cc, (a, b, kind, offset))
}

/// A method has code: it is not abstract and its bytecode is not empty.
pub open spec fn has_body_spec(m: Method) -> bool {
    !m.access.is_abstract && m.bytecode@.len() > 0
}

/// The method of the targets reported under key `k`: the last one with it.
pub open spec fn method_for(ts: Seq<Class>, k: MethodKey) -> Method {
    ts[last_pos(ts, k).0].methods@[last_pos(ts, k).1]
}

/// Key `k` is reported: a target method that no entry point reaches through
/// the call graph of all classes, whose last declaration has code.
pub open spec fn dead_key(ctx: AnalysisContext, k: MethodKey) -> bool {
    &&& target_key(ctx.targets(), k)
    &&& !reaches(calls(context_classes(ctx)), entry_keys(ctx.targets()), k)
    &&& has_body_spec(method_for(ctx.targets(), k))
}

/// The message for an unreachable method.
pub open spec fn dead_message(c: Class, m: Method) -> Seq<char> {
    "Unreachable method: "@ + c.name@ + "."@ + m.name@ + m.descriptor@
}

/// The finding for key `k`, at the last target method with it, line of offset 0.
pub open spec fn dead_finding(ctx: AnalysisContext, k: MethodKey) -> FindingView {
    let c = ctx.targets()[last_pos(ctx.targets(), k).0];
    let m = method_for(ctx.targets(), k);
    finding_spec(
        dead_message(c, m),
        method_location_spec(c.name@, m.name@, m.descriptor@, ctx.class_uri(c), line_for_offset_spec(m.line_numbers@, 0)),
    )
}

/// Strictly ascending keys.
pub open spec fn keys_ascending(ks: Seq<MethodKey>) -> bool {
    forall|a: int, b: int| 0 <= a < b < ks.len() ==> key_lt(ks[a], ks[b])
}

/// The findings of the rule: none when the targets have no public method;
/// otherwise one per reported key, by ascending key.
pub open spec fn dead_code_result(ctx: AnalysisContext, f: Seq<FindingView>) -> bool {
    if entry_keys(ctx.targets()).is_empty() {
        f.len() == 0
    } else {
        exists|ks: Seq<MethodKey>|
            #![trigger keys_ascending(ks)]
            keys_ascending(ks) && ks.len() == f.len() && (forall|x: int| 0 <= x < ks.len() ==> f[x] == dead_finding(
                ctx,
                #[trigger] ks[x],
            )) && (forall|k: MethodKey| #[trigger] ks.contains(k) == dead_key(ctx, k))
    }
}

/// Whether a method is an entry point: it is public.
pub fn is_entry_method(method: &Method) -> (res: bool)
    ensures
        res == method.access.is_public,
{
    method.access.is_public
}

/// Whether a method has code: not abstract, with bytecode.
pub fn method_has_body(method: &Method) -> (res: bool)
    ensures
        res == has_body_spec(*method),
{
    !method.access.is_abstract && method.bytecode.len() > 0
}

/// The target methods by key: ascending keys, each with the position of the
/// last method that has it, and the keys of the public methods.
pub struct TargetTable {
    pub ids: Vec<MethodId>,
    pub positions: Vec<(usize, usize)>,
    pub entries: Vec<MethodId>,
}

impl TargetTable {
    /// The table describes the methods of `ts` at or after `(ci, mi)`.
    pub open spec fn covers(&self, ts: Seq<Class>, ci: int, mi: int) -> bool {
        &&& ids_sorted(self.ids@)
        &&& self.ids@.len() == self.positions@.len()
        &&& forall|a: int|
            #![trigger self.positions@[a]]
            0 <= a < self.ids@.len() ==> {
                let p = self.positions@[a];
                &&& valid_pos(ts, p.0 as int, p.1 as int)
                &&& at_or_after(p.0 as int, p.1 as int, ci, mi)
                &&& key_at(ts, p.0 as int, p.1 as int) == self.ids@[a]@
                &&& forall|i: int, j: int|
                    valid_pos(ts, i, j) && at_or_after(i, j, ci, mi) && #[trigger] key_at(ts, i, j) == self.ids@[a]@
                        ==> pos_le(i, j, p.0 as int, p.1 as int)
            }
        &&& forall|k: MethodKey| #[trigger]
            indexed(self.ids@, k) == exists|i: int, j: int|
                valid_pos(ts, i, j) && at_or_after(i, j, ci, mi) && #[trigger] key_at(ts, i, j) == k
        &&& forall|k: MethodKey| #[trigger]
            indexed(self.entries@, k) == exists|i: int, j: int|
                valid_pos(ts, i, j) && at_or_after(i, j, ci, mi) && ts[i].methods@[j].access.is_public
                    && #[trigger] key_at(ts, i, j) == k
    }
}

/// The table covers the same methods from two cursors that agree on them.
pub proof fn lemma_covers_moved(t: TargetTable, ts: Seq<Class>, c1: int, m1: int, c2: int, m2: int)
    requires
        t.covers(ts, c1, m1),
        forall|i: int, j: int| #[trigger] valid_pos(ts, i, j) ==> at_or_after(i, j, c1, m1) == at_or_after(i, j, c2, m2),
    ensures
        t.covers(ts, c2, m2),
{
    assert forall|k: MethodKey| #[trigger]
        indexed(t.ids@, k) == exists|i: int, j: int|
            valid_pos(ts, i, j) && at_or_after(i, j, c2, m2) && #[trigger] key_at(ts, i, j) == k by {
        if exists|i: int, j: int| valid_pos(ts, i, j) && at_or_after(i, j, c2, m2) && #[trigger] key_at(ts, i, j) == k {
            let (i, j) = choose|i: int, j: int|
                valid_pos(ts, i, j) && at_or_after(i, j, c2, m2) && #[trigger] key_at(ts, i, j) == k;
            assert(at_or_after(i, j, c1, m1));
        }
        if exists|i: int, j: int| valid_pos(ts, i, j) && at_or_after(i, j, c1, m1) && #[trigger] key_at(ts, i, j) == k {
            let (i, j) = choose|i: int, j: int|
                valid_pos(ts, i, j) && at_or_after(i, j, c1, m1) && #[trigger] key_at(ts, i, j) == k;
            assert(at_or_after(i, j, c2, m2));
        }
    }
    assert forall|k: MethodKey| #[trigger]
        indexed(t.entries@, k) == exists|i: int, j: int|
            valid_pos(ts, i, j) && at_or_after(i, j, c2, m2) && ts[i].methods@[j].access.is_public
                && #[trigger] key_at(ts, i, j) == k by {
        if exists|i: int, j: int|
            valid_pos(ts, i, j) && at_or_after(i, j, c2, m2) && ts[i].methods@[j].access.is_public
                && #[trigger] key_at(ts, i, j) == k {
            let (i, j) = choose|i: int, j: int|
                valid_pos(ts, i, j) && at_or_after(i, j, c2, m2) && ts[i].methods@[j].access.is_public
                    && #[trigger] key_at(ts, i, j) == k;
            assert(at_or_after(i, j, c1, m1));
        }
        if exists|i: int, j: int|
            valid_pos(ts, i, j) && at_or_after(i, j, c1, m1) && ts[i].methods@[j].access.is_public
                && #[trigger] key_at(ts, i, j) == k {
            let (i, j) = choose|i: int, j: int|
                valid_pos(ts, i, j) && at_or_after(i, j, c1, m1) && ts[i].methods@[j].access.is_public
                    && #[trigger] key_at(ts, i, j) == k;
            assert(at_or_after(i, j, c2, m2));
        }
    }
}

/// Files the method at `(ci, mi)`: a key not filed yet takes this position; a
/// key already filed keeps its later one. A public method's key joins the
/// entries.
pub fn file_method(table: &mut TargetTable, ts: &[Class], ci: usize, mi: usize)
    requires
        valid_pos(ts@, ci as int, mi as int),
        old(table).covers(ts@, ci as int, mi + 1),
    ensures
        final(table).covers(ts@, ci as int, mi as int),
{
    let class = &ts[ci];
    let method = &class.methods[mi];
    let id = MethodId { class_name: class.name.clone(), name: method.name.clone(), descriptor: method.descriptor.clone() };
    let ghost k = id@;
    let ghost old_table = *table;
    assert(k == key_at(ts@, ci as int, mi as int));
    if is_entry_method(method) {
        table.entries.push(copy_method_id(&id));
    }
    let (pos, found) = id_position(&table.ids, &id);
    if !found {
        table.ids.insert(pos, copy_method_id(&id));
        table.positions.insert(pos, (ci, mi));
    }
    proof {
        let ts = ts@;
        let ov = old_table.ids@;
        let op = old_table.positions@;
        let nv = table.ids@;
        let np = table.positions@;
        // The methods covered now are those covered before and this one.
        assert forall|i: int, j: int| valid_pos(ts, i, j) implies at_or_after(i, j, ci as int, mi as int) == (at_or_after(
            i,
            j,
            ci as int,
            mi + 1,
        ) || (i == ci && j == mi)) by {}
        // Which old slot each new slot is.
        assert forall|a: int| 0 <= a < nv.len() implies (if !found && a == pos {
            nv[a]@ == k && np[a] == (ci, mi)
        } else {
            let b = if !found && a > pos { a - 1 } else { a };
            0 <= b < ov.len() && nv[a] == ov[b] && np[a] == op[b]
        }) by {}
        assert(ids_sorted(nv)) by {
            if !found {
                assert forall|a: int, b: int| 0 <= a < b < nv.len() implies key_lt(nv[a]@, nv[b]@) by {
                    if a < pos && b < pos {
                        assert(nv[a] == ov[a] && nv[b] == ov[b]);
                    } else if a < pos && b == pos {
                        assert(nv[a] == ov[a]);
                    } else if a < pos && b > pos {
                        assert(nv[a] == ov[a] && nv[b] == ov[b - 1]);
                    } else if a == pos {
                        assert(nv[b] == ov[b - 1]);
                        lemma_key_lt(ov[b - 1]@, k, k);
                    } else {
                        assert(nv[a] == ov[a - 1] && nv[b] == ov[b - 1]);
                    }
                }
            }
        }
        assert forall|kk: MethodKey| #[trigger] indexed(nv, kk) == (indexed(ov, kk) || kk == k) by {
            if indexed(nv, kk) {
                let a = choose|a: int| 0 <= a < nv.len() && (#[trigger] nv[a])@ == kk;
                if !(!found && a == pos) {
                    let b = if !found && a > pos { a - 1 } else { a };
                    assert(ov[b]@ == kk);
                }
            }
            if indexed(ov, kk) {
                let b = choose|b: int| 0 <= b < ov.len() && (#[trigger] ov[b])@ == kk;
                if !found && b >= pos {
                    assert(nv[b + 1] == ov[b]);
                } else {
                    assert(nv[b] == ov[b]);
                }
            }
            if kk == k {
                if found {
                    assert(ov[pos as int]@ == k);
                } else {
                    assert(nv[pos as int]@ == k);
                }
            }
        }
        assert forall|kk: MethodKey| #[trigger]
            indexed(nv, kk) == exists|i: int, j: int|
                valid_pos(ts, i, j) && at_or_after(i, j, ci as int, mi as int) && #[trigger] key_at(ts, i, j) == kk by {
            if exists|i: int, j: int|
                valid_pos(ts, i, j) && at_or_after(i, j, ci as int, mi as int) && #[trigger] key_at(ts, i, j) == kk {
                let (i, j) = choose|i: int, j: int|
                    valid_pos(ts, i, j) && at_or_after(i, j, ci as int, mi as int) && #[trigger] key_at(ts, i, j) == kk;
                if !(i == ci && j == mi) {
                    assert(indexed(ov, kk));
                }
            }
            if indexed(ov, kk) {
                let (i, j) = choose|i: int, j: int|
                    valid_pos(ts, i, j) && at_or_after(i, j, ci as int, mi + 1) && #[trigger] key_at(ts, i, j) == kk;
                assert(at_or_after(i, j, ci as int, mi as int));
            }
        }
        assert forall|kk: MethodKey| #[trigger]
            indexed(table.entries@, kk) == exists|i: int, j: int|
                valid_pos(ts, i, j) && at_or_after(i, j, ci as int, mi as int) && ts[i].methods@[j].access.is_public
                    && #[trigger] key_at(ts, i, j) == kk by {
            let oe = old_table.entries@;
            let ne = table.entries@;
            if method.access.is_public {
                assert(ne == oe.push(ne.last()));
            } else {
                assert(ne == oe);
            }
            if indexed(ne, kk) {
                let a = choose|a: int| 0 <= a < ne.len() && (#[trigger] ne[a])@ == kk;
                if a < oe.len() {
                    assert(ne[a] == oe[a]);
                    assert(indexed(oe, kk));
                    let (i, j) = choose|i: int, j: int|
                        valid_pos(ts, i, j) && at_or_after(i, j, ci as int, mi + 1) && ts[i].methods@[j].access.is_public
                            && #[trigger] key_at(ts, i, j) == kk;
                    assert(at_or_after(i, j, ci as int, mi as int));
                } else {
                    assert(key_at(ts, ci as int, mi as int) == kk);
                }
            }
            if exists|i: int, j: int|
                valid_pos(ts, i, j) && at_or_after(i, j, ci as int, mi as int) && ts[i].methods@[j].access.is_public
                    && #[trigger] key_at(ts, i, j) == kk {
                let (i, j) = choose|i: int, j: int|
                    valid_pos(ts, i, j) && at_or_after(i, j, ci as int, mi as int) && ts[i].methods@[j].access.is_public
                        && #[trigger] key_at(ts, i, j) == kk;
                if i == ci && j == mi {
                    assert(ne[oe.len() as int]@ == kk);
                } else {
                    assert(indexed(oe, kk));
                    let a = choose|a: int| 0 <= a < oe.len() && (#[trigger] oe[a])@ == kk;
                    assert(ne[a] == oe[a]);
                }
            }
        }
        assert forall|a: int| #![trigger np[a]] 0 <= a < nv.len() implies {
            let p = np[a];
            &&& valid_pos(ts, p.0 as int, p.1 as int)
            &&& at_or_after(p.0 as int, p.1 as int, ci as int, mi as int)
            &&& key_at(ts, p.0 as int, p.1 as int) == nv[a]@
            &&& forall|i: int, j: int|
                valid_pos(ts, i, j) && at_or_after(i, j, ci as int, mi as int) && #[trigger] key_at(ts, i, j) == nv[a]@
                    ==> pos_le(i, j, p.0 as int, p.1 as int)
        } by {
            if !found && a == pos {
                assert forall|i: int, j: int|
                    valid_pos(ts, i, j) && at_or_after(i, j, ci as int, mi as int) && #[trigger] key_at(ts, i, j) == nv[a]@
                        implies pos_le(i, j, ci as int, mi as int) by {
                    if !(i == ci && j == mi) {
                        assert(indexed(ov, k));
                    }
                }
            } else {
                let b = if !found && a > pos { a - 1 } else { a };
                let p = op[b];
                assert(np[a] == p);
                assert(valid_pos(ts, p.0 as int, p.1 as int));
                assert(at_or_after(p.0 as int, p.1 as int, ci as int, mi + 1));
                assert forall|i: int, j: int|
                    valid_pos(ts, i, j) && at_or_after(i, j, ci as int, mi as int) && #[trigger] key_at(ts, i, j) == nv[a]@
                        implies pos_le(i, j, p.0 as int, p.1 as int) by {
                    if !(i == ci && j == mi) {
                        assert(at_or_after(i, j, ci as int, mi + 1));
                    }
                }
            }
        }
    }
}

/// Files every method of the targets, from the last back to the first.
pub fn build_target_table(ts: &[Class]) -> (res: TargetTable)
    ensures
        res.covers(ts@, 0, 0),
{
    let mut table = TargetTable { ids: Vec::new(), positions: Vec::new(), entries: Vec::new() };
    let mut ci: usize = ts.len();
    while ci > 0
        invariant
            ci <= ts@.len(),
            table.covers(ts@, ci as int, 0),
        decreases ci,
    {
        ci = ci - 1;
        let mut mi: usize = ts[ci].methods.len();
        proof {
            lemma_covers_moved(table, ts@, ci + 1, 0, ci as int, mi as int);
        }
        while mi > 0
            invariant
                ci < ts@.len(),
                mi <= ts@[ci as int].methods@.len(),
                table.covers(ts@, ci as int, mi as int),
            decreases mi,
        {
            mi = mi - 1;
            file_method(&mut table, ts, ci, mi);
        }
    }
    table
}

/// The position that `is_last_pos` holds for is the chosen last position.
pub proof fn lemma_last_pos(ts: Seq<Class>, k: MethodKey, i: int, j: int)
    requires
        is_last_pos(ts, k, i, j),
    ensures
        last_pos(ts, k) == (i, j),
{
    assert(is_last_pos(ts, k, (i, j).0, (i, j).1));
    let p = last_pos(ts, k);
    assert(is_last_pos(ts, k, p.0, p.1));
    assert(pos_le(p.0, p.1, i, j));
    assert(pos_le(i, j, p.0, p.1));
}


/// Rule that reports methods no entry point reaches.
pub struct DeadCodeRule;

impl DeadCodeRule {
    /// The rule's id, name and description.
    pub fn metadata(&self) -> (res: RuleMetadata)
        ensures
            res.id@ == "DEAD_CODE"@,
    {
        RuleMetadata { id: "DEAD_CODE", name: "Dead code", description: "Unreachable methods detected by call graph" }
    }

    /// With no public method among the targets, nothing. Otherwise the call
    /// graph of all classes is walked from the public target methods, and each
    /// target method key (ascending) that the walk misses is reported at the
    /// last method with that key, when that method has code.
    #[verifier::spinoff_prover]
    pub fn run(&self, context: &AnalysisContext) -> (res: Result<Vec<Finding>, AnalysisError>)
        ensures
            res matches Ok(v) && dead_code_result(*context, finding_views(v@)),
    {
        let ts = context.analysis_target_classes();
        let table = build_target_table(ts);
        let ghost tsv = context.targets();
        let ghost starts = entry_keys(tsv);
        proof {
            assert(starts =~= key_set(table.entries@));
        }
        if table.entries.len() == 0 {
            proof {
                assert forall|k: MethodKey| !starts.contains(k) by {
                    assert(!indexed(table.entries@, k));
                }
                assert(starts =~= Set::<MethodKey>::empty());
            }
            return Ok(Vec::new());
        }
        proof {
            assert(indexed(table.entries@, table.entries@[0]@));
            assert(starts.contains(table.entries@[0]@));
        }
        let all = context.all_classes();
        let ghost cc = context_classes(*context);
        proof {
            assert forall|j: int| 0 <= j < cc.len() implies *all@[j] == cc[j] by {
                if j >= context.targets().len() {
                    assert(*all@[context.targets().len() + (j - context.targets().len())]
                        == context.dependencies()[j - context.targets().len()]);
                }
            }
            assert(class_seq(all@) =~= cc);
        }
        let (graph, _) = build_call_graph_for(&all);
        let reached = walk_graph(&table.entries, &graph.edges);
        proof {
            assert forall|a: MethodKey, b: MethodKey| #[trigger] edge_step(graph.edges@)(a, b) == calls(cc)(a, b) by {
                if linked_by(graph.edges@, a, b) {
                    let i = choose|i: int|
                        0 <= i < graph.edges@.len() && (#[trigger] graph.edges@[i]).caller@ == a && graph.edges@[i].callee@ == b;
                    assert(has_edge(graph.edges@, graph.edges@[i]@));
                    assert(call_edge(cc, (a, b, graph.edges@[i].kind, graph.edges@[i].offset)));
                }
                if calls(cc)(a, b) {
                    let (kind, offset) = choose|kind: CallKind, offset: u32| #[trigger] call_edge(cc, (a, b, kind, offset));
                    assert(has_edge(graph.edges@, (a, b, kind, offset)));
                    let i = choose|i: int| 0 <= i < graph.edges@.len() && (#[trigger] graph.edges@[i])@ == (a, b, kind, offset);
                    assert(graph.edges@[i].caller@ == a && graph.edges@[i].callee@ == b);
                }
            }
            assert(edge_step(graph.edges@) =~= calls(cc));
        }
        let mut results: Vec<Finding> = Vec::new();
        let ghost mut ks: Seq<MethodKey> = Seq::empty();
        let mut a: usize = 0;
        while a < table.ids.len()
            invariant
                a <= table.ids@.len(),
                table.covers(tsv, 0, 0),
                tsv == context.targets(),
                ts@ == tsv,
                cc == context_classes(*context),
                starts == entry_keys(tsv),
                starts == key_set(table.entries@),
                edge_step(graph.edges@) == calls(cc),
                ids_sorted(reached@),
                forall|k: MethodKey| #[trigger] indexed(reached@, k) == reaches(
                    edge_step(graph.edges@),
                    key_set(table.entries@),
                    k,
                ),
                ks.len() == finding_views(results@).len(),
                keys_ascending(ks),
                forall|x: int| 0 <= x < ks.len() ==> finding_views(results@)[x] == dead_finding(*context, #[trigger] ks[x]),
                forall|x: int| 0 <= x < ks.len() ==> exists|b: int| 0 <= b < a && (#[trigger] ks[x]) == table.ids@[b]@,
                forall|k: MethodKey| #[trigger]
                    ks.contains(k) == exists|b: int| 0 <= b < a && table.ids@[b]@ == k && dead_key(*context, k),
            decreases table.ids.len() - a,
        {
            let (ci, mi) = table.positions[a];
            let class = &ts[ci];
            let method = &class.methods[mi];
            let ghost k = table.ids@[a as int]@;
            proof {
                let p = table.positions@[a as int];
                assert(is_last_pos(tsv, k, p.0 as int, p.1 as int));
                lemma_last_pos(tsv, k, p.0 as int, p.1 as int);
                assert(target_key(tsv, k));
            }
            let (_, seen) = id_position(&reached, &table.ids[a]);
            let ghost before = finding_views(results@);
            let ghost old_ks = ks;
            if !seen && method_has_body(method) {
                let mut message = "Unreachable method: ".to_owned();
                message.append(class.name.as_str());
                message.append(".");
                message.append(method.name.as_str());
                message.append(method.descriptor.as_str());
                let line = method.line_for_offset(0);
                let uri = context.class_artifact_uri(class);
                let artifact_uri: Option<&str> = match &uri {
                    Some(s) => Some(s.as_str()),
                    None => None,
                };
                let location = method_location_with_line(
                    class.name.as_str(),
                    method.name.as_str(),
                    method.descriptor.as_str(),
                    artifact_uri,
                    line,
                );
                let f = finding(message, location);
                assert(f@ == dead_finding(*context, k));
                push_finding(&mut results, f);
                proof {
                    ks = ks.push(k);
                    assert(dead_key(*context, k));
                    assert forall|x: int, y: int| 0 <= x < y < ks.len() implies key_lt(ks[x], ks[y]) by {
                        if y == ks.len() - 1 {
                            assert(ks[x] == old_ks[x]);
                            let b = choose|b: int| 0 <= b < a && (#[trigger] old_ks[x]) == table.ids@[b]@;
                        }
                    }
                }
            } else {
                proof {
                    assert(!dead_key(*context, k));
                }
            }
            proof {
                assert forall|x: int| 0 <= x < ks.len() implies finding_views(results@)[x] == dead_finding(
                    *context,
                    #[trigger] ks[x],
                ) by {
                    if x < old_ks.len() {
                        assert(finding_views(results@)[x] == before[x]);
                        assert(ks[x] == old_ks[x]);
                    }
                }
                assert forall|x: int| 0 <= x < ks.len() implies exists|b: int| 0 <= b < a + 1 && (#[trigger] ks[x])
                    == table.ids@[b]@ by {
                    if x < old_ks.len() {
                        assert(ks[x] == old_ks[x]);
                        let b = choose|b: int| 0 <= b < a && (#[trigger] old_ks[x]) == table.ids@[b]@;
                        assert(ks[x] == table.ids@[b]@);
                    } else {
                        assert(ks[x] == table.ids@[a as int]@);
                    }
                }
                assert forall|kk: MethodKey| #[trigger]
                    ks.contains(kk) == exists|b: int| 0 <= b < a + 1 && table.ids@[b]@ == kk && dead_key(*context, kk) by {
                    if ks.contains(kk) {
                        let x = choose|x: int| 0 <= x < ks.len() && ks[x] == kk;
                        if x < old_ks.len() {
                            assert(old_ks[x] == kk);
                            assert(old_ks.contains(kk));
                        }
                    }
                    if exists|b: int| 0 <= b < a + 1 && table.ids@[b]@ == kk && dead_key(*context, kk) {
                        let b = choose|b: int| 0 <= b < a + 1 && table.ids@[b]@ == kk && dead_key(*context, kk);
                        if b < a {
                            assert(old_ks.contains(kk));
                            let x = choose|x: int| 0 <= x < old_ks.len() && old_ks[x] == kk;
                            assert(ks[x] == kk);
                        } else {
                            assert(ks[ks.len() - 1] == kk);
                        }
                    }
                }
            }
            a = a + 1;
        }
        proof {
            assert forall|k: MethodKey| #[trigger] ks.contains(k) == dead_key(*context, k) by {
                if dead_key(*context, k) {
                    assert(target_key(tsv, k));
                    let (i, j) = choose|i: int, j: int| valid_pos(tsv, i, j) && #[trigger] key_at(tsv, i, j) == k;
                    assert(at_or_after(i, j, 0, 0));
                    assert(indexed(table.ids@, k));
                    let b = choose|b: int| 0 <= b < table.ids@.len() && (#[trigger] table.ids@[b])@ == k;
                }
            }
            assert(!starts.is_empty());
        }
        Ok(results)
    }
}

} // verus!
