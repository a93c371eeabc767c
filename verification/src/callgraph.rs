//! Call graph built by class hierarchy analysis over parsed classes.
use vstd::prelude::*;
use crate::ir::{CallKind, CallSite, Class, class_seq};
use crate::text::{has_name, lex_lt, lex_sorted, sorted_position, str_eq, str_lt, views, lemma_lex_lt_total, lemma_lex_lt_irreflexive, lemma_lex_lt_transitive};

verus! {

/// A method identified by class, name and descriptor.
#[derive(Clone, Debug)]
pub struct MethodId {
    pub class_name: String,
    pub name: String,
    pub descriptor: String,
}

/// Plain view of a method identity.
pub type MethodKey = (Seq<char>, Seq<char>, Seq<char>);

impl View for MethodId {
    type V = MethodKey;

    open spec fn view(&self) -> MethodKey {
        (self.class_name@, self.name@, self.descriptor@)
    }
}

/// Directed call edge.
#[derive(Clone, Debug)]
pub struct CallEdge {
    pub caller: MethodId,
    pub callee: MethodId,
    pub kind: CallKind,
    pub offset: u32,
}

/// Plain view of a call edge.
pub type EdgeKey = (MethodKey, MethodKey, CallKind, u32);

impl View for CallEdge {
    type V = EdgeKey;

    open spec fn view(&self) -> EdgeKey {
        (self.caller@, self.callee@, self.kind, self.offset)
    }
}

/// Call graph edges, without repeats.
#[derive(Clone, Debug)]
pub struct CallGraph {
    pub edges: Vec<CallEdge>,
}

/// Some class named `c` declares a method `n` with descriptor `d`.
pub open spec fn declares_method(classes: Seq<Class>, key: MethodKey) -> bool {
    exists|i: int, j: int|
        0 <= i < classes.len() && 0 <= j < classes[i].methods@.len() && classes[i].name@ == key.0
            && classes[i].methods@[j].name@ == key.1 && classes[i].methods@[j].descriptor@ == key.2
}

/// The class named `sub` directly extends `sup`.
pub open spec fn direct_subclass(classes: Seq<Class>, sup: Seq<char>, sub: Seq<char>) -> bool {
    exists|i: int|
        0 <= i < classes.len() && classes[i].name@ == sub && classes[i].super_name is Some
            && classes[i].super_name->0@ == sup
}

/// Direct-subclass table: each superclass name with its subclasses, both ascending.
#[derive(Clone, Debug)]
pub struct Hierarchy {
    pub supers: Vec<String>,
    pub descendants: Vec<Vec<String>>,
}

impl Hierarchy {
    /// The table lists, for every superclass named in `classes`, exactly its
    /// direct subclasses.
    pub open spec fn describes(&self, classes: Seq<Class>) -> bool {
        &&& self.supers@.len() == self.descendants@.len()
        &&& lex_sorted(views(self.supers@))
        &&& forall|s: Seq<char>| #[trigger] has_name(self.supers@, s)
            == (exists|c: Seq<char>| #[trigger] direct_subclass(classes, s, c))
        &&& forall|i: int| #![trigger self.descendants@[i]] 0 <= i < self.supers@.len() ==> lex_sorted(
            views(self.descendants@[i]@),
        ) && forall|c: Seq<char>| #[trigger] direct_subclass(classes, self.supers@[i]@, c) == exists|k: int|
            0 <= k < self.descendants@[i]@.len() && self.descendants@[i]@[k]@ == c
    }
}

/// Inserts a name into a strictly ascending list unless present.
pub fn insert_name(v: &mut Vec<String>, x: &String)
    requires
        lex_sorted(views(old(v)@)),
    ensures
        lex_sorted(views(final(v)@)),
        forall|y: Seq<char>| #[trigger] has_name(final(v)@, y) == (has_name(old(v)@, y) || y == x@),
        final(v)@.len() == if has_name(old(v)@, x@) { old(v)@.len() } else { old(v)@.len() + 1 },
{
    let (pos, found) = sorted_position(v, x.as_str());
    if found {
        return;
    }
    let ghost before = v@;
    v.insert(pos, x.clone());
    proof {
        assert(views(v@) =~= views(before).insert(pos as int, x@));
        assert forall|a: int, b: int| 0 <= a < b < v@.len() implies lex_lt(views(v@)[a], views(v@)[b]) by {
            let nv = views(v@);
            let ov = views(before);
            if a < pos && b < pos {
                assert(nv[a] == ov[a] && nv[b] == ov[b]);
            } else if a < pos && b == pos {
                assert(nv[a] == before[a]@);
            } else if a < pos && b > pos {
                assert(nv[a] == ov[a] && nv[b] == ov[b - 1]);
            } else if a == pos {
                assert(nv[b] == before[b - 1]@);
                lemma_lex_lt_total(before[b - 1]@, x@);
            } else {
                assert(nv[a] == ov[a - 1] && nv[b] == ov[b - 1]);
            }
        }
        assert forall|y: Seq<char>| #[trigger] has_name(v@, y) == (has_name(before, y) || y == x@) by {
            if exists|k: int| 0 <= k < v@.len() && v@[k]@ == y {
                let k = choose|k: int| 0 <= k < v@.len() && v@[k]@ == y;
                if k < pos {
                    assert(before[k] == v@[k]);
                } else if k > pos {
                    assert(before[k - 1] == v@[k]);
                }
            }
            if exists|k: int| 0 <= k < before.len() && before[k]@ == y {
                let k = choose|k: int| 0 <= k < before.len() && before[k]@ == y;
                if k < pos {
                    assert(v@[k] == before[k]);
                } else {
                    assert(v@[k + 1] == before[k]);
                }
            }
            if y == x@ {
                assert(v@[pos as int]@ == x@);
            }
        }
    }
}

/// Builds the direct-subclass table of `classes`.
#[verifier::spinoff_prover]
pub fn build_hierarchy(classes: &Vec<&Class>) -> (res: Hierarchy)
    ensures
        res.describes(class_seq(classes@)),
{
    let ghost cs = class_seq(classes@);
    let mut supers: Vec<String> = Vec::new();
    let mut descendants: Vec<Vec<String>> = Vec::new();
    let mut k: usize = 0;
    while k < classes.len()
        invariant
            k <= classes@.len(),
            cs == class_seq(classes@),
            cs.len() == classes@.len(),
            (Hierarchy { supers, descendants }).describes(cs.subrange(0, k as int)),
        decreases classes.len() - k,
    {
        let ghost prefix = cs.subrange(0, k as int);
        let ghost next = cs.subrange(0, k + 1);
        let class: &Class = classes[k];
        assert(cs[k as int] == *class);
        proof {
            assert forall|s: Seq<char>, c: Seq<char>| #[trigger] direct_subclass(next, s, c) == (direct_subclass(
                prefix,
                s,
                c,
            ) || (class.name@ == c && class.super_name is Some && class.super_name->0@ == s)) by {
                if direct_subclass(next, s, c) {
                    let i = choose|i: int| 0 <= i < next.len() && next[i].name@ == c && next[i].super_name is Some
                        && next[i].super_name->0@ == s;
                    if i < k {
                        assert(prefix[i] == next[i]);
                    }
                }
                if direct_subclass(prefix, s, c) {
                    let i = choose|i: int| 0 <= i < prefix.len() && prefix[i].name@ == c && prefix[i].super_name is Some
                        && prefix[i].super_name->0@ == s;
                    assert(next[i] == prefix[i]);
                }
                if class.name@ == c && class.super_name is Some && class.super_name->0@ == s {
                    assert(next[k as int] == *class);
                }
            }
        }
        match &class.super_name {
            None => {
                proof {
                    assert forall|s: Seq<char>| #[trigger] has_name(supers@, s) == (exists|c: Seq<char>|
                        #[trigger] direct_subclass(next, s, c)) by {
                        if has_name(supers@, s) {
                            let c = choose|c: Seq<char>| #[trigger] direct_subclass(prefix, s, c);
                            assert(direct_subclass(next, s, c));
                        }
                        if exists|c: Seq<char>| #[trigger] direct_subclass(next, s, c) {
                            let c = choose|c: Seq<char>| #[trigger] direct_subclass(next, s, c);
                            assert(direct_subclass(prefix, s, c));
                        }
                    }
                    assert forall|i: int| #![trigger descendants@[i]] 0 <= i < supers@.len() implies lex_sorted(
                        views(descendants@[i]@),
                    ) && forall|c: Seq<char>| #[trigger] direct_subclass(next, supers@[i]@, c) == has_name(
                        descendants@[i]@,
                        c,
                    ) by {
                        assert forall|c: Seq<char>| #[trigger] direct_subclass(next, supers@[i]@, c) == has_name(
                            descendants@[i]@,
                            c,
                        ) by {
                            assert(direct_subclass(next, supers@[i]@, c) == direct_subclass(prefix, supers@[i]@, c));
                        }
                    }
                }
            },
            Some(super_name) => {
                let (pos, found) = sorted_position(&supers, super_name.as_str());
                let ghost old_supers = supers@;
                let ghost old_desc = descendants@;
                if found {
                    let mut group = descendants.remove(pos);
                    insert_name(&mut group, &class.name);
                    descendants.insert(pos, group);
                    proof {
                        assert forall|i: int| #![trigger descendants@[i]] 0 <= i < supers@.len() implies lex_sorted(
                            views(descendants@[i]@),
                        ) && forall|c: Seq<char>| #[trigger] direct_subclass(next, supers@[i]@, c) == has_name(
                            descendants@[i]@,
                            c,
                        ) by {
                            if i != pos {
                                assert(descendants@[i] == old_desc[i]);
                                assert(views(supers@)[i] == supers@[i]@);
                                assert(views(supers@)[pos as int] == supers@[pos as int]@);
                                lemma_lex_lt_irreflexive(supers@[i]@);
                                assert(supers@[i]@ != super_name@);
                            }
                        }
                        assert forall|s: Seq<char>| #[trigger] has_name(supers@, s)
                            == (exists|c: Seq<char>| #[trigger] direct_subclass(next, s, c)) by {
                            if exists|c: Seq<char>| #[trigger] direct_subclass(next, s, c) {
                                let c = choose|c: Seq<char>| #[trigger] direct_subclass(next, s, c);
                                if !direct_subclass(prefix, s, c) {
                                    assert(supers@[pos as int]@ == s);
                                }
                            }
                            if has_name(supers@, s) {
                                let c = choose|c: Seq<char>| #[trigger] direct_subclass(prefix, s, c);
                                assert(direct_subclass(next, s, c));
                            }
                        }
                    }
                } else {
                    let mut group: Vec<String> = Vec::new();
                    group.push(class.name.clone());
                    supers.insert(pos, super_name.clone());
                    descendants.insert(pos, group);
                    proof {
                        assert(views(supers@) =~= views(old_supers).insert(pos as int, super_name@));
                        assert(lex_sorted(views(supers@))) by {
                            assert forall|a: int, b: int| 0 <= a < b < supers@.len() implies lex_lt(
                                views(supers@)[a],
                                views(supers@)[b],
                            ) by {
                                let nv = views(supers@);
                                let ov = views(old_supers);
                                if a < pos && b < pos {
                                    assert(nv[a] == ov[a] && nv[b] == ov[b]);
                                } else if a < pos && b == pos {
                                    assert(nv[a] == old_supers[a]@);
                                } else if a < pos && b > pos {
                                    assert(nv[a] == ov[a] && nv[b] == ov[b - 1]);
                                } else if a == pos {
                                    assert(nv[b] == old_supers[b - 1]@);
                                    lemma_lex_lt_total(old_supers[b - 1]@, super_name@);
                                } else {
                                    assert(nv[a] == ov[a - 1] && nv[b] == ov[b - 1]);
                                }
                            }
                        }
                        assert(views(group@) =~= seq![class.name@]);
                        assert forall|s: Seq<char>| !has_name(old_supers, s)
                            ==> forall|c: Seq<char>| !#[trigger] direct_subclass(prefix, s, c) by {}
                        assert forall|i: int| #![trigger descendants@[i]] 0 <= i < supers@.len() implies lex_sorted(
                            views(descendants@[i]@),
                        ) && forall|c: Seq<char>| #[trigger] direct_subclass(next, supers@[i]@, c) == has_name(
                            descendants@[i]@,
                            c,
                        ) by {
                            if i < pos {
                                assert(descendants@[i] == old_desc[i]);
                                assert(supers@[i] == old_supers[i]);
                                assert(lex_lt(old_supers[i]@, super_name@));
                                lemma_lex_lt_irreflexive(super_name@);
                            } else if i > pos {
                                assert(descendants@[i] == old_desc[i - 1]);
                                assert(supers@[i] == old_supers[i - 1]);
                                assert(old_supers[i - 1]@ != super_name@);
                            } else {
                                assert forall|c: Seq<char>| #[trigger] direct_subclass(next, supers@[i]@, c) == has_name(
                                    descendants@[i]@,
                                    c,
                                ) by {
                                    if direct_subclass(prefix, super_name@, c) {
                                        assert(has_name(old_supers, super_name@));
                                    }
                                    if c == class.name@ {
                                        assert(descendants@[i]@[0]@ == c);
                                    }
                                }
                            }
                        }
                        assert forall|s: Seq<char>| #[trigger] has_name(supers@, s)
                            == (exists|c: Seq<char>| #[trigger] direct_subclass(next, s, c)) by {
                            if exists|i: int| 0 <= i < supers@.len() && supers@[i]@ == s {
                                let i = choose|i: int| 0 <= i < supers@.len() && supers@[i]@ == s;
                                if i == pos {
                                    assert(direct_subclass(next, s, class.name@));
                                } else if i < pos {
                                    assert(supers@[i] == old_supers[i]);
                                    assert(has_name(old_supers, s));
                                    let c = choose|c: Seq<char>| #[trigger] direct_subclass(prefix, s, c);
                                    assert(direct_subclass(next, s, c));
                                } else {
                                    assert(supers@[i] == old_supers[i - 1]);
                                    assert(has_name(old_supers, s));
                                    let c = choose|c: Seq<char>| #[trigger] direct_subclass(prefix, s, c);
                                    assert(direct_subclass(next, s, c));
                                }
                            }
                            if exists|c: Seq<char>| #[trigger] direct_subclass(next, s, c) {
                                let c = choose|c: Seq<char>| #[trigger] direct_subclass(next, s, c);
                                if direct_subclass(prefix, s, c) {
                                    assert(has_name(old_supers, s));
                                    let j = choose|j: int| 0 <= j < old_supers.len() && old_supers[j]@ == s;
                                    if j < pos {
                                        assert(supers@[j] == old_supers[j]);
                                    } else {
                                        assert(supers@[j + 1] == old_supers[j]);
                                    }
                                } else {
                                    assert(supers@[pos as int]@ == s);
                                }
                            }
                        }
                    }
                }
            },
        }
        k = k + 1;
    }
    assert(cs.subrange(0, k as int) =~= cs);
    Hierarchy { supers, descendants }
}


/// A copy of a method identity.
pub fn copy_method_id(id: &MethodId) -> (res: MethodId)
    ensures
        res@ == id@,
{
    MethodId { class_name: id.class_name.clone(), name: id.name.clone(), descriptor: id.descriptor.clone() }
}

/// Every declared method, in class and method order.
pub struct MethodIndex {
    pub methods: Vec<MethodId>,
}

/// Some entry of the index has the key.
pub open spec fn indexed(ix: Seq<MethodId>, key: MethodKey) -> bool {
    exists|i: int| 0 <= i < ix.len() && (#[trigger] ix[i])@ == key
}

/// The key of method `j` of class `i`.
pub open spec fn key_at(classes: Seq<Class>, i: int, j: int) -> MethodKey {
    (classes[i].name@, classes[i].methods@[j].name@, classes[i].methods@[j].descriptor@)
}

/// An index stays an index of its keys after a push.
pub proof fn lemma_indexed_push(ix: Seq<MethodId>, x: MethodId, key: MethodKey)
    requires
        indexed(ix, key),
    ensures
        indexed(ix.push(x), key),
{
    let i = choose|i: int| 0 <= i < ix.len() && (#[trigger] ix[i])@ == key;
    assert(ix.push(x)[i] == ix[i]);
}

/// Indexes the methods of `classes`.
pub fn index_methods(classes: &Vec<&Class>) -> (res: MethodIndex)
    ensures
        forall|key: MethodKey| #[trigger] indexed(res.methods@, key) == declares_method(class_seq(classes@), key),
{
    let ghost cs = class_seq(classes@);
    let mut methods: Vec<MethodId> = Vec::new();
    let mut ci: usize = 0;
    while ci < classes.len()
        invariant
            ci <= classes@.len(),
            cs == class_seq(classes@),
            forall|k: int| 0 <= k < methods@.len() ==> declares_method(cs, (#[trigger] methods@[k])@),
            forall|i: int, j: int|
                0 <= i < ci && 0 <= j < cs[i].methods@.len() ==> indexed(methods@, #[trigger] key_at(cs, i, j)),
        decreases classes.len() - ci,
    {
        let class: &Class = classes[ci];
        assert(cs[ci as int] == *class);
        let mut mi: usize = 0;
        while mi < class.methods.len()
            invariant
                ci < classes@.len(),
                cs == class_seq(classes@),
                *class == cs[ci as int],
                mi <= class.methods@.len(),
                forall|k: int| 0 <= k < methods@.len() ==> declares_method(cs, (#[trigger] methods@[k])@),
                forall|i: int, j: int|
                    0 <= i < ci && 0 <= j < cs[i].methods@.len() ==> indexed(methods@, #[trigger] key_at(cs, i, j)),
                forall|j: int| 0 <= j < mi ==> indexed(methods@, #[trigger] key_at(cs, ci as int, j)),
            decreases class.methods.len() - mi,
        {
            let method = &class.methods[mi];
            let id = MethodId {
                class_name: class.name.clone(),
                name: method.name.clone(),
                descriptor: method.descriptor.clone(),
            };
            let ghost before = methods@;
            let ghost idv = id;
            methods.push(id);
            proof {
                assert(methods@ == before.push(idv));
                assert(idv@ == key_at(cs, ci as int, mi as int));
                assert(declares_method(cs, idv@));
                assert forall|k: int| 0 <= k < methods@.len() implies declares_method(cs, (#[trigger] methods@[k])@) by {
                    if k < before.len() {
                        assert(methods@[k] == before[k]);
                    }
                }
                assert forall|i: int, j: int|
                    0 <= i < ci && 0 <= j < cs[i].methods@.len() implies indexed(methods@, #[trigger] key_at(cs, i, j)) by {
                    lemma_indexed_push(before, idv, key_at(cs, i, j));
                }
                assert forall|j: int| 0 <= j < mi + 1 implies indexed(methods@, #[trigger] key_at(cs, ci as int, j)) by {
                    if j < mi {
                        lemma_indexed_push(before, idv, key_at(cs, ci as int, j));
                    } else {
                        assert(methods@[before.len() as int]@ == key_at(cs, ci as int, j));
                    }
                }
            }
            mi = mi + 1;
        }
        ci = ci + 1;
    }
    proof {
        assert forall|key: MethodKey| #[trigger] indexed(methods@, key) == declares_method(cs, key) by {
            if indexed(methods@, key) {
                let k = choose|k: int| 0 <= k < methods@.len() && (#[trigger] methods@[k])@ == key;
                assert(declares_method(cs, methods@[k]@));
            }
            if declares_method(cs, key) {
                let (i, j) = choose|i: int, j: int|
                    0 <= i < cs.len() && 0 <= j < cs[i].methods@.len() && cs[i].name@ == key.0
                        && cs[i].methods@[j].name@ == key.1 && cs[i].methods@[j].descriptor@ == key.2;
                assert(key_at(cs, i, j) == key);
            }
        }
    }
    MethodIndex { methods }
}

/// The method `class_name.method_name descriptor`, when the index has it.
pub fn lookup_method(index: &MethodIndex, class_name: &str, method_name: &str, descriptor: &str) -> (res: Option<MethodId>)
    ensures
        match res {
            Some(id) => id@ == (class_name@, method_name@, descriptor@) && indexed(
                index.methods@,
                (class_name@, method_name@, descriptor@),
            ),
            None => !indexed(index.methods@, (class_name@, method_name@, descriptor@)),
        },
{
    let mut i: usize = 0;
    while i < index.methods.len()
        invariant
            i <= index.methods@.len(),
            forall|k: int| 0 <= k < i ==> (#[trigger] index.methods@[k])@ != (class_name@, method_name@, descriptor@),
        decreases index.methods.len() - i,
    {
        let id = &index.methods[i];
        if str_eq(id.class_name.as_str(), class_name) && str_eq(id.name.as_str(), method_name) && str_eq(
            id.descriptor.as_str(),
            descriptor,
        ) {
            return Some(copy_method_id(id));
        }
        i = i + 1;
    }
    None
}


/// Strict order of method keys: by class, then name, then descriptor.
pub open spec fn key_lt(a: MethodKey, b: MethodKey) -> bool {
    lex_lt(a.0, b.0) || (a.0 == b.0 && (lex_lt(a.1, b.1) || (a.1 == b.1 && lex_lt(a.2, b.2))))
}

/// The position of a call kind in declaration order.
pub open spec fn kind_rank(k: CallKind) -> int {
    match k {
        CallKind::Virtual => 0,
        CallKind::Interface => 1,
        CallKind::Special => 2,
        CallKind::Static => 3,
    }
}

/// Strict order of edges: by caller, callee, kind, then offset.
pub open spec fn edge_lt(a: EdgeKey, b: EdgeKey) -> bool {
    key_lt(a.0, b.0) || (a.0 == b.0 && (key_lt(a.1, b.1) || (a.1 == b.1 && (kind_rank(a.2) < kind_rank(b.2) || (a.2
        == b.2 && a.3 < b.3)))))
}

/// `key_lt` is a strict total order.
pub proof fn lemma_key_lt(a: MethodKey, b: MethodKey, c: MethodKey)
    ensures
        !key_lt(a, a),
        a != b ==> key_lt(a, b) || key_lt(b, a),
        !(key_lt(a, b) && key_lt(b, a)),
        key_lt(a, b) && key_lt(b, c) ==> key_lt(a, c),
{
    lemma_lex_lt_irreflexive(a.0);
    lemma_lex_lt_irreflexive(a.1);
    lemma_lex_lt_irreflexive(a.2);
    lemma_lex_lt_total(a.0, b.0);
    lemma_lex_lt_total(a.1, b.1);
    lemma_lex_lt_total(a.2, b.2);
    if key_lt(a, b) && key_lt(b, c) {
        if lex_lt(a.0, b.0) && lex_lt(b.0, c.0) {
            lemma_lex_lt_transitive(a.0, b.0, c.0);
        }
        if a.0 == b.0 && b.0 == c.0 {
            if lex_lt(a.1, b.1) && lex_lt(b.1, c.1) {
                lemma_lex_lt_transitive(a.1, b.1, c.1);
            }
            if a.1 == b.1 && b.1 == c.1 && lex_lt(a.2, b.2) && lex_lt(b.2, c.2) {
                lemma_lex_lt_transitive(a.2, b.2, c.2);
            }
        }
    }
}

/// `edge_lt` is a strict total order.
pub proof fn lemma_edge_lt(a: EdgeKey, b: EdgeKey, c: EdgeKey)
    ensures
        !edge_lt(a, a),
        a != b ==> edge_lt(a, b) || edge_lt(b, a),
        !(edge_lt(a, b) && edge_lt(b, a)),
        edge_lt(a, b) && edge_lt(b, c) ==> edge_lt(a, c),
{
    lemma_key_lt(a.0, b.0, c.0);
    lemma_key_lt(a.1, b.1, c.1);
    lemma_key_lt(b.0, a.0, c.0);
    lemma_key_lt(b.1, a.1, c.1);
    lemma_key_lt(a.0, c.0, b.0);
    lemma_key_lt(a.1, c.1, b.1);
    if a != b && a.0 == b.0 && a.1 == b.1 && a.2 == b.2 {
        assert(a.3 != b.3);
    }
}

/// Strictly ascending edges (hence without repeats).
pub open spec fn edges_sorted(s: Seq<CallEdge>) -> bool {
    forall|i: int, j: int| 0 <= i < j < s.len() ==> edge_lt(s[i]@, s[j]@)
}

/// Some edge of the list has the key.
pub open spec fn has_edge(s: Seq<CallEdge>, e: EdgeKey) -> bool {
    exists|i: int| 0 <= i < s.len() && (#[trigger] s[i])@ == e
}

/// Whether `a` comes strictly before `b`.
pub fn method_id_lt(a: &MethodId, b: &MethodId) -> (res: bool)
    ensures
        res == key_lt(a@, b@),
{
    if str_lt(a.class_name.as_str(), b.class_name.as_str()) {
        return true;
    }
    if !str_eq(a.class_name.as_str(), b.class_name.as_str()) {
        return false;
    }
    if str_lt(a.name.as_str(), b.name.as_str()) {
        return true;
    }
    if !str_eq(a.name.as_str(), b.name.as_str()) {
        return false;
    }
    str_lt(a.descriptor.as_str(), b.descriptor.as_str())
}

/// Whether two method identities are the same.
pub fn method_id_eq(a: &MethodId, b: &MethodId) -> (res: bool)
    ensures
        res == (a@ == b@),
{
    str_eq(a.class_name.as_str(), b.class_name.as_str()) && str_eq(a.name.as_str(), b.name.as_str()) && str_eq(
        a.descriptor.as_str(),
        b.descriptor.as_str(),
    )
}

/// The rank of a call kind.
pub fn kind_index(k: CallKind) -> (res: u8)
    ensures
        res as int == kind_rank(k),
{
    match k {
        CallKind::Virtual => 0,
        CallKind::Interface => 1,
        CallKind::Special => 2,
        CallKind::Static => 3,
    }
}

/// Whether edge `a` comes strictly before edge `b`.
pub fn edge_less(a: &CallEdge, b: &CallEdge) -> (res: bool)
    ensures
        res == edge_lt(a@, b@),
{
    if method_id_lt(&a.caller, &b.caller) {
        return true;
    }
    if !method_id_eq(&a.caller, &b.caller) {
        return false;
    }
    if method_id_lt(&a.callee, &b.callee) {
        return true;
    }
    if !method_id_eq(&a.callee, &b.callee) {
        return false;
    }
    let ka = kind_index(a.kind);
    let kb = kind_index(b.kind);
    if ka < kb {
        return true;
    }
    if ka != kb {
        return false;
    }
    a.offset < b.offset
}

/// `p` is a chain of class names that starts at `owner`, each name a direct
/// subclass of the one before.
pub open spec fn is_subclass_chain(classes: Seq<Class>, owner: Seq<char>, p: Seq<Seq<char>>) -> bool {
    &&& p.len() > 0
    &&& p[0] == owner
    &&& forall|i: int| 0 <= i < p.len() - 1 ==> direct_subclass(classes, #[trigger] p[i], p[i + 1])
}

/// The class named `c` is `owner` itself or a subclass of it at any depth.
pub open spec fn extends_or_is(classes: Seq<Class>, owner: Seq<char>, c: Seq<char>) -> bool {
    exists|p: Seq<Seq<char>>| #[trigger] is_subclass_chain(classes, owner, p) && p.last() == c
}

/// `c` is `owner` or the name of one of the classes.
pub open spec fn owner_or_class_name(classes: Seq<Class>, owner: Seq<char>, c: Seq<char>) -> bool {
    c == owner || exists|i: int| 0 <= i < classes.len() && classes[i].name@ == c
}

/// A chain that ends in `a` goes on to a direct subclass `b` of `a`.
pub proof fn lemma_chain_extend(classes: Seq<Class>, owner: Seq<char>, p: Seq<Seq<char>>, b: Seq<char>)
    requires
        is_subclass_chain(classes, owner, p),
        direct_subclass(classes, p.last(), b),
    ensures
        is_subclass_chain(classes, owner, p.push(b)),
        p.push(b).last() == b,
{
    let q = p.push(b);
    assert forall|i: int| 0 <= i < q.len() - 1 implies direct_subclass(classes, #[trigger] q[i], q[i + 1]) by {
        if i < p.len() - 1 {
            assert(q[i] == p[i] && q[i + 1] == p[i + 1]);
        } else {
            assert(q[i] == p.last());
        }
    }
}

/// A set of names that holds `owner` and every direct subclass of its
/// members holds the end of every chain from `owner`.
pub proof fn lemma_chain_closed(classes: Seq<Class>, owner: Seq<char>, inside: Set<Seq<char>>, p: Seq<Seq<char>>)
    requires
        inside.contains(owner),
        forall|a: Seq<char>, b: Seq<char>| inside.contains(a) && #[trigger] direct_subclass(classes, a, b) ==> inside.contains(b),
        is_subclass_chain(classes, owner, p),
    ensures
        inside.contains(p.last()),
    decreases p.len(),
{
    if p.len() > 1 {
        let q = p.drop_last();
        assert forall|i: int| 0 <= i < q.len() - 1 implies direct_subclass(classes, #[trigger] q[i], q[i + 1]) by {
            assert(q[i] == p[i] && q[i + 1] == p[i + 1]);
            assert(direct_subclass(classes, p[i], p[i + 1]));
        }
        lemma_chain_closed(classes, owner, inside, q);
        assert(direct_subclass(classes, p[p.len() - 2], p[p.len() - 1]));
    }
}

/// A strictly ascending list of names, each `owner` or a class name, is no
/// longer than the classes and the owner together.
pub proof fn lemma_names_bound(v: Seq<String>, classes: Seq<Class>, owner: Seq<char>)
    requires
        lex_sorted(views(v)),
        forall|i: int| 0 <= i < v.len() ==> owner_or_class_name(classes, owner, #[trigger] v[i]@),
    ensures
        v.len() <= classes.len() + 1,
{
    let vk = views(v);
    let uk = seq![owner] + classes.map_values(|c: Class| c.name@);
    assert forall|a: int, b: int| 0 <= a < b < vk.len() implies vk[a] != vk[b] by {
        lemma_lex_lt_irreflexive(vk[a]);
    }
    assert(vk.no_duplicates());
    vk.unique_seq_to_set();
    assert forall|k: Seq<char>| vk.to_set().contains(k) implies uk.to_set().contains(k) by {
        let a = choose|a: int| 0 <= a < vk.len() && vk[a] == k;
        assert(owner_or_class_name(classes, owner, v[a]@));
        if k == owner {
            assert(uk[0] == k);
        } else {
            let i = choose|i: int| 0 <= i < classes.len() && classes[i].name@ == k;
            assert(uk[1 + i] == k);
        }
    }
    uk.lemma_cardinality_of_set();
    vstd::seq_lib::seq_to_set_is_finite(uk);
    vstd::set_lib::lemma_len_subset(vk.to_set(), uk.to_set());
}

/// Breadth-first walk down the subclass table from `owner`: the names of
/// `owner` and of all its subclasses at any depth, ascending, each once.
#[verifier::spinoff_prover]
pub fn subclass_closure(hierarchy: &Hierarchy, owner: &String, classes: &Vec<&Class>) -> (res: Vec<String>)
    requires
        hierarchy.describes(class_seq(classes@)),
    ensures
        lex_sorted(views(res@)),
        forall|c: Seq<char>| #[trigger] has_name(res@, c) == extends_or_is(class_seq(classes@), owner@, c),
{
    let ghost cs = class_seq(classes@);
    let ghost bound = cs.len() + 1;
    let mut visited: Vec<String> = Vec::new();
    insert_name(&mut visited, owner);
    let mut queue: Vec<String> = Vec::new();
    queue.push(owner.clone());
    proof {
        assert(has_name(visited@, owner@));
        assert(visited@.len() == 1);
        assert(is_subclass_chain(cs, owner@, seq![owner@]));
        assert(extends_or_is(cs, owner@, queue@[0]@));
        assert forall|c: Seq<char>| #[trigger] has_name(queue@, c) == has_name(visited@, c) by {
            if has_name(visited@, c) {
                let k = choose|k: int| 0 <= k < visited@.len() && visited@[k]@ == c;
                assert(queue@[0]@ == c);
            }
        }
        assert(owner_or_class_name(cs, owner@, visited@[0]@));
    }
    let mut head: usize = 0;
    while head < queue.len()
        invariant
            cs == class_seq(classes@),
            bound == cs.len() + 1,
            hierarchy.describes(cs),
            lex_sorted(views(visited@)),
            queue@.len() == visited@.len(),
            visited@.len() <= bound,
            head <= queue@.len(),
            has_name(visited@, owner@),
            forall|c: Seq<char>| #[trigger] has_name(queue@, c) == has_name(visited@, c),
            forall|i: int| 0 <= i < visited@.len() ==> owner_or_class_name(cs, owner@, #[trigger] visited@[i]@),
            forall|i: int| 0 <= i < queue@.len() ==> extends_or_is(cs, owner@, #[trigger] queue@[i]@),
            forall|i: int, b: Seq<char>|
                0 <= i < head && #[trigger] direct_subclass(cs, queue@[i]@, b) ==> has_name(visited@, b),
        decreases bound - head,
    {
        let node = queue[head].clone();
        let ghost h = head;
        head = head + 1;
        let (pos, found) = sorted_position(&hierarchy.supers, node.as_str());
        if found {
            let subs = &hierarchy.descendants[pos];
            proof {
                assert(hierarchy.supers@[pos as int]@ == node@);
            }
            let mut j: usize = 0;
            while j < subs.len()
                invariant
                    cs == class_seq(classes@),
                    bound == cs.len() + 1,
                    hierarchy.describes(cs),
                    pos < hierarchy.supers@.len(),
                    hierarchy.supers@[pos as int]@ == node@,
                    subs@ == hierarchy.descendants@[pos as int]@,
                    j <= subs@.len(),
                    lex_sorted(views(visited@)),
                    queue@.len() == visited@.len(),
                    visited@.len() <= bound,
                    h + 1 == head,
                    head <= queue@.len(),
                    queue@[h as int]@ == node@,
                    has_name(visited@, owner@),
                    forall|t: int| 0 <= t < j ==> has_name(visited@, #[trigger] subs@[t]@),
                    forall|c: Seq<char>| #[trigger] has_name(queue@, c) == has_name(visited@, c),
                    forall|i: int| 0 <= i < visited@.len() ==> owner_or_class_name(cs, owner@, #[trigger] visited@[i]@),
                    forall|i: int| 0 <= i < queue@.len() ==> extends_or_is(cs, owner@, #[trigger] queue@[i]@),
                    forall|i: int, b: Seq<char>|
                        0 <= i < h && #[trigger] direct_subclass(cs, queue@[i]@, b) ==> has_name(visited@, b),
                decreases subs.len() - j,
            {
                let sub = &subs[j];
                let ghost old_visited = visited@;
                let ghost old_queue = queue@;
                let before = visited.len();
                insert_name(&mut visited, sub);
                if visited.len() > before {
                    queue.push(sub.clone());
                }
                proof {
                    let x = sub@;
                    assert(direct_subclass(cs, node@, x)) by {
                        assert(subs@[j as int]@ == x);
                    }
                    assert(extends_or_is(cs, owner@, node@)) by {
                        assert(extends_or_is(cs, owner@, queue@[h as int]@));
                    }
                    let p = choose|p: Seq<Seq<char>>| #[trigger] is_subclass_chain(cs, owner@, p) && p.last() == node@;
                    lemma_chain_extend(cs, owner@, p, x);
                    assert(extends_or_is(cs, owner@, x));
                    assert(owner_or_class_name(cs, owner@, x)) by {
                        let i = choose|i: int|
                            0 <= i < cs.len() && cs[i].name@ == x && cs[i].super_name is Some && cs[i].super_name->0@ == node@;
                    }
                    assert forall|c: Seq<char>| #[trigger] has_name(queue@, c) == has_name(visited@, c) by {
                        if visited@.len() > old_visited.len() {
                            if has_name(queue@, c) {
                                let i = choose|i: int| 0 <= i < queue@.len() && queue@[i]@ == c;
                                if i < old_queue.len() {
                                    assert(old_queue[i] == queue@[i]);
                                    assert(has_name(old_queue, c));
                                }
                            }
                            if has_name(old_queue, c) {
                                let i = choose|i: int| 0 <= i < old_queue.len() && old_queue[i]@ == c;
                                assert(queue@[i] == old_queue[i]);
                            }
                            if c == x {
                                assert(queue@[old_queue.len() as int]@ == x);
                            }
                        }
                    }
                    assert forall|i: int| 0 <= i < visited@.len() implies owner_or_class_name(cs, owner@, #[trigger] visited@[i]@) by {
                        assert(has_name(visited@, visited@[i]@));
                        if has_name(old_visited, visited@[i]@) {
                            let k = choose|k: int| 0 <= k < old_visited.len() && old_visited[k]@ == visited@[i]@;
                            assert(owner_or_class_name(cs, owner@, old_visited[k]@));
                        }
                    }
                    lemma_names_bound(visited@, cs, owner@);
                    assert forall|i: int| 0 <= i < queue@.len() implies extends_or_is(cs, owner@, #[trigger] queue@[i]@) by {
                        if i < old_queue.len() {
                            assert(queue@[i] == old_queue[i]);
                        } else {
                            assert(queue@[i]@ == x);
                        }
                    }
                    assert(queue@[h as int] == old_queue[h as int]);
                    assert forall|i: int, b: Seq<char>|
                        0 <= i < h && #[trigger] direct_subclass(cs, queue@[i]@, b) implies has_name(visited@, b) by {
                        assert(queue@[i] == old_queue[i]);
                        assert(has_name(old_visited, b));
                        let k = choose|k: int| 0 <= k < old_visited.len() && old_visited[k]@ == b;
                    }
                    assert forall|t: int| 0 <= t < j + 1 implies has_name(visited@, #[trigger] subs@[t]@) by {
                        if t < j {
                            assert(has_name(old_visited, subs@[t]@));
                            let k = choose|k: int| 0 <= k < old_visited.len() && old_visited[k]@ == subs@[t]@;
                        }
                    }
                    let k = choose|k: int| 0 <= k < old_visited.len() && old_visited[k]@ == owner@;
                }
                j = j + 1;
            }
            proof {
                assert forall|b: Seq<char>| direct_subclass(cs, node@, b) implies has_name(visited@, b) by {
                    let k = choose|k: int| 0 <= k < subs@.len() && subs@[k]@ == b;
                    assert(has_name(visited@, subs@[k]@));
                }
            }
        } else {
            proof {
                assert forall|b: Seq<char>| !direct_subclass(cs, node@, b) by {
                    if direct_subclass(cs, node@, b) {
                        assert(has_name(hierarchy.supers@, node@));
                    }
                }
            }
        }
        proof {
            assert forall|i: int, b: Seq<char>|
                0 <= i < head && #[trigger] direct_subclass(cs, queue@[i]@, b) implies has_name(visited@, b) by {
                if i == h {
                    assert(queue@[i]@ == node@);
                }
            }
        }
    }
    proof {
        let inside = Set::new(|c: Seq<char>| has_name(visited@, c));
        assert forall|a: Seq<char>, b: Seq<char>| inside.contains(a) && #[trigger] direct_subclass(cs, a, b) implies inside.contains(b) by {
            assert(has_name(queue@, a));
            let i = choose|i: int| 0 <= i < queue@.len() && queue@[i]@ == a;
            assert(direct_subclass(cs, queue@[i]@, b));
        }
        assert forall|c: Seq<char>| #[trigger] has_name(visited@, c) == extends_or_is(cs, owner@, c) by {
            if extends_or_is(cs, owner@, c) {
                let p = choose|p: Seq<Seq<char>>| #[trigger] is_subclass_chain(cs, owner@, p) && p.last() == c;
                lemma_chain_closed(cs, owner@, inside, p);
            }
            if has_name(visited@, c) {
                assert(has_name(queue@, c));
                let i = choose|i: int| 0 <= i < queue@.len() && queue@[i]@ == c;
                assert(extends_or_is(cs, owner@, queue@[i]@));
            }
        }
    }
    visited
}

/// `key` is a method the call may reach: the named method itself, or for a
/// virtual or interface call the same method declared by the owner or by
/// any of its subclasses, at any depth (class hierarchy analysis).
pub open spec fn callee_candidate(classes: Seq<Class>, call: CallSite, key: MethodKey) -> bool {
    &&& declares_method(classes, key)
    &&& key.1 == call.name@
    &&& key.2 == call.descriptor@
    &&& if call.kind == CallKind::Virtual || call.kind == CallKind::Interface {
        extends_or_is(classes, call.owner@, key.0)
    } else {
        key.0 == call.owner@
    }
}

/// The methods a call may reach, by class hierarchy analysis.
pub fn resolve_call(hierarchy: &Hierarchy, index: &MethodIndex, call: &CallSite, classes: &Vec<&Class>) -> (res: Vec<MethodId>)
    requires
        hierarchy.describes(class_seq(classes@)),
        forall|key: MethodKey| #[trigger] indexed(index.methods@, key) == declares_method(class_seq(classes@), key),
    ensures
        forall|key: MethodKey| #[trigger] indexed(res@, key) == callee_candidate(class_seq(classes@), *call, key),
{
    let ghost cs = class_seq(classes@);
    let mut out: Vec<MethodId> = Vec::new();
    if call.kind == CallKind::Virtual || call.kind == CallKind::Interface {
        let names = subclass_closure(hierarchy, &call.owner, classes);
        let mut j: usize = 0;
        while j < names.len()
            invariant
                j <= names@.len(),
                cs == class_seq(classes@),
                forall|key: MethodKey| #[trigger] indexed(out@, key) == exists|t: int|
                    0 <= t < j && key == (names@[t]@, call.name@, call.descriptor@) && declares_method(cs, key),
                forall|key: MethodKey| #[trigger] indexed(index.methods@, key) == declares_method(cs, key),
            decreases names.len() - j,
        {
            let ghost before = out@;
            match lookup_method(index, names[j].as_str(), call.name.as_str(), call.descriptor.as_str()) {
                Some(id) => out.push(id),
                None => {},
            }
            proof {
                assert forall|key: MethodKey| #[trigger] indexed(out@, key) == exists|t: int|
                    0 <= t < j + 1 && key == (names@[t]@, call.name@, call.descriptor@) && declares_method(cs, key) by {
                    if indexed(out@, key) {
                        let i = choose|i: int| 0 <= i < out@.len() && (#[trigger] out@[i])@ == key;
                        if i < before.len() {
                            assert(before[i] == out@[i]);
                            assert(indexed(before, key));
                        }
                    }
                    if exists|t: int| 0 <= t < j + 1 && key == (names@[t]@, call.name@, call.descriptor@) && declares_method(cs, key) {
                        let t = choose|t: int|
                            0 <= t < j + 1 && key == (names@[t]@, call.name@, call.descriptor@) && declares_method(cs, key);
                        if t == j {
                            assert(out@[before.len() as int]@ == key);
                        } else {
                            assert(indexed(before, key));
                            let i = choose|i: int| 0 <= i < before.len() && (#[trigger] before[i])@ == key;
                            assert(out@[i] == before[i]);
                        }
                    }
                }
            }
            j = j + 1;
        }
        proof {
            assert forall|key: MethodKey| #[trigger] indexed(out@, key) == callee_candidate(cs, *call, key) by {
                if callee_candidate(cs, *call, key) {
                    assert(has_name(names@, key.0));
                    let t = choose|t: int| 0 <= t < names@.len() && names@[t]@ == key.0;
                    assert(key == (names@[t]@, call.name@, call.descriptor@));
                }
                if indexed(out@, key) {
                    let t = choose|t: int|
                        0 <= t < names@.len() && key == (names@[t]@, call.name@, call.descriptor@) && declares_method(cs, key);
                    assert(has_name(names@, names@[t]@));
                }
            }
        }
    } else {
        match lookup_method(index, call.owner.as_str(), call.name.as_str(), call.descriptor.as_str()) {
            Some(id) => out.push(id),
            None => {},
        }
        proof {
            assert forall|key: MethodKey| #[trigger] indexed(out@, key) == callee_candidate(cs, *call, key) by {
                if indexed(out@, key) {
                    let i = choose|i: int| 0 <= i < out@.len() && (#[trigger] out@[i])@ == key;
                }
                if callee_candidate(cs, *call, key) {
                    assert(out@[0]@ == key);
                }
            }
        }
    }
    out
}


/// A copy of a call edge.
pub fn copy_edge(e: &CallEdge) -> (res: CallEdge)
    ensures
        res@ == e@,
{
    CallEdge { caller: copy_method_id(&e.caller), callee: copy_method_id(&e.callee), kind: e.kind, offset: e.offset }
}

/// An edge list with one more edge has that edge besides its own.
pub proof fn lemma_has_edge_push(s: Seq<CallEdge>, x: CallEdge, k: EdgeKey)
    ensures
        has_edge(s.push(x), k) == (has_edge(s, k) || k == x@),
{
    if has_edge(s.push(x), k) {
        let i = choose|i: int| 0 <= i < s.push(x).len() && (#[trigger] s.push(x)[i])@ == k;
        if i < s.len() {
            assert(s[i] == s.push(x)[i]);
        }
    }
    if has_edge(s, k) {
        let i = choose|i: int| 0 <= i < s.len() && (#[trigger] s[i])@ == k;
        assert(s.push(x)[i] == s[i]);
    }
    if k == x@ {
        assert(s.push(x)[s.len() as int] == x);
    }
}

/// The edges of a range are those of its two halves.
pub proof fn lemma_has_edge_split(s: Seq<CallEdge>, lo: int, mid: int, hi: int, k: EdgeKey)
    requires
        0 <= lo <= mid <= hi <= s.len(),
    ensures
        has_edge(s.subrange(lo, hi), k) == (has_edge(s.subrange(lo, mid), k) || has_edge(s.subrange(mid, hi), k)),
{
    let whole = s.subrange(lo, hi);
    let left = s.subrange(lo, mid);
    let right = s.subrange(mid, hi);
    if has_edge(whole, k) {
        let i = choose|i: int| 0 <= i < whole.len() && (#[trigger] whole[i])@ == k;
        if i < mid - lo {
            assert(left[i] == whole[i]);
        } else {
            assert(right[i - (mid - lo)] == whole[i]);
        }
    }
    if has_edge(left, k) {
        let i = choose|i: int| 0 <= i < left.len() && (#[trigger] left[i])@ == k;
        assert(whole[i] == left[i]);
    }
    if has_edge(right, k) {
        let i = choose|i: int| 0 <= i < right.len() && (#[trigger] right[i])@ == k;
        assert(whole[i + (mid - lo)] == right[i]);
    }
}

/// Merges two strictly ascending edge lists into one, each edge once.
pub fn merge_edges(a: &Vec<CallEdge>, b: &Vec<CallEdge>) -> (res: Vec<CallEdge>)
    requires
        edges_sorted(a@),
        edges_sorted(b@),
    ensures
        edges_sorted(res@),
        forall|k: EdgeKey| #[trigger] has_edge(res@, k) == (has_edge(a@, k) || has_edge(b@, k)),
{
    let mut out: Vec<CallEdge> = Vec::new();
    let mut i: usize = 0;
    let mut j: usize = 0;
    while i < a.len() || j < b.len()
        invariant
            i <= a@.len(),
            j <= b@.len(),
            edges_sorted(a@),
            edges_sorted(b@),
            edges_sorted(out@),
            out@.len() > 0 && i < a@.len() ==> edge_lt(out@.last()@, a@[i as int]@),
            out@.len() > 0 && j < b@.len() ==> edge_lt(out@.last()@, b@[j as int]@),
            forall|k: EdgeKey| #[trigger]
                has_edge(out@, k) == (has_edge(a@.subrange(0, i as int), k) || has_edge(b@.subrange(0, j as int), k)),
        decreases a.len() + b.len() - i - j,
    {
        let ghost before = out@;
        let ghost oi = i;
        let ghost oj = j;
        let take_a: bool;
        let take_b: bool;
        if i < a.len() && j < b.len() {
            if edge_less(&a[i], &b[j]) {
                take_a = true;
                take_b = false;
            } else if edge_less(&b[j], &a[i]) {
                take_a = false;
                take_b = true;
            } else {
                proof {
                    lemma_edge_lt(a@[i as int]@, b@[j as int]@, a@[i as int]@);
                }
                take_a = true;
                take_b = true;
            }
        } else if i < a.len() {
            take_a = true;
            take_b = false;
        } else {
            take_a = false;
            take_b = true;
        }
        let e = if take_a {
            copy_edge(&a[i])
        } else {
            copy_edge(&b[j])
        };
        out.push(e);
        if take_a {
            i = i + 1;
        }
        if take_b {
            j = j + 1;
        }
        proof {
            let ev = out@.last()@;
            assert(out@ == before.push(out@.last()));
            assert forall|x: int, y: int| 0 <= x < y < out@.len() implies edge_lt(out@[x]@, out@[y]@) by {
                if y < before.len() {
                    assert(out@[x] == before[x] && out@[y] == before[y]);
                } else if x < before.len() - 1 {
                    lemma_edge_lt(before[x]@, before.last()@, ev);
                }
            }
            if i < a@.len() {
                if take_a {
                    assert(edge_lt(a@[oi as int]@, a@[i as int]@));
                } else {
                    lemma_edge_lt(b@[oj as int]@, a@[i as int]@, a@[i as int]@);
                }
            }
            if j < b@.len() {
                if take_b {
                    assert(edge_lt(b@[oj as int]@, b@[j as int]@));
                } else {
                    lemma_edge_lt(a@[oi as int]@, b@[j as int]@, b@[j as int]@);
                }
            }
            assert forall|k: EdgeKey| #[trigger]
                has_edge(out@, k) == (has_edge(a@.subrange(0, i as int), k) || has_edge(b@.subrange(0, j as int), k)) by {
                lemma_has_edge_push(before, out@.last(), k);
                if take_a {
                    assert(a@.subrange(0, i as int) == a@.subrange(0, oi as int).push(a@[oi as int]));
                    lemma_has_edge_push(a@.subrange(0, oi as int), a@[oi as int], k);
                }
                if take_b {
                    assert(b@.subrange(0, j as int) == b@.subrange(0, oj as int).push(b@[oj as int]));
                    lemma_has_edge_push(b@.subrange(0, oj as int), b@[oj as int], k);
                }
            }
        }
    }
    proof {
        assert(a@.subrange(0, i as int) == a@);
        assert(b@.subrange(0, j as int) == b@);
    }
    out
}

/// The edges of `v[lo..hi]`, ascending, each once.
pub fn sort_edges(v: &Vec<CallEdge>, lo: usize, hi: usize) -> (res: Vec<CallEdge>)
    requires
        lo <= hi <= v@.len(),
    ensures
        edges_sorted(res@),
        forall|k: EdgeKey| #[trigger] has_edge(res@, k) == has_edge(v@.subrange(lo as int, hi as int), k),
    decreases hi - lo,
{
    if hi - lo == 0 {
        let out: Vec<CallEdge> = Vec::new();
        proof {
            assert forall|k: EdgeKey| #[trigger] has_edge(out@, k) == has_edge(v@.subrange(lo as int, hi as int), k) by {}
        }
        return out;
    }
    if hi - lo == 1 {
        let mut out: Vec<CallEdge> = Vec::new();
        out.push(copy_edge(&v[lo]));
        proof {
            assert forall|k: EdgeKey| #[trigger] has_edge(out@, k) == has_edge(v@.subrange(lo as int, hi as int), k) by {
                let r = v@.subrange(lo as int, hi as int);
                assert(r[0] == v@[lo as int]);
                assert(out@[0]@ == v@[lo as int]@);
                if has_edge(out@, k) {
                    let i = choose|i: int| 0 <= i < out@.len() && (#[trigger] out@[i])@ == k;
                    assert(i == 0);
                    assert(r[0]@ == k);
                }
                if has_edge(r, k) {
                    let i = choose|i: int| 0 <= i < r.len() && (#[trigger] r[i])@ == k;
                    assert(i == 0);
                    assert(out@[0]@ == k);
                }
            }
        }
        return out;
    }
    let mid = lo + (hi - lo) / 2;
    let left = sort_edges(v, lo, mid);
    let right = sort_edges(v, mid, hi);
    let out = merge_edges(&left, &right);
    proof {
        assert forall|k: EdgeKey| #[trigger] has_edge(out@, k) == has_edge(v@.subrange(lo as int, hi as int), k) by {
            lemma_has_edge_split(v@, lo as int, mid as int, hi as int, k);
        }
    }
    out
}

/// `e` is an edge of call `call` made by the method `caller`.
pub open spec fn edge_of_call(classes: Seq<Class>, caller: MethodKey, call: CallSite, e: EdgeKey) -> bool {
    &&& e.0 == caller
    &&& callee_candidate(classes, call, e.1)
    &&& e.2 == call.kind
    &&& e.3 == call.offset
}

/// `e` is an edge of some call made by method `j` of class `i`.
pub open spec fn method_edge(classes: Seq<Class>, i: int, j: int, e: EdgeKey) -> bool {
    exists|k: int|
        0 <= k < classes[i].methods@[j].calls@.len() && edge_of_call(
            classes,
            key_at(classes, i, j),
            #[trigger] classes[i].methods@[j].calls@[k],
            e,
        )
}

/// `e` is an edge of the call graph of `classes`: some call made by some
/// method may reach the callee, by class hierarchy analysis.
pub open spec fn call_edge(classes: Seq<Class>, e: EdgeKey) -> bool {
    exists|i: int, j: int|
        0 <= i < classes.len() && 0 <= j < classes[i].methods@.len() && #[trigger] method_edge(classes, i, j, e)
}

/// `e` is an edge of a method that comes before method `mj` of class `ci`.
pub open spec fn edge_before(classes: Seq<Class>, ci: int, mj: int, e: EdgeKey) -> bool {
    exists|i: int, j: int|
        0 <= i < classes.len() && 0 <= j < classes[i].methods@.len() && (i < ci || (i == ci && j < mj))
            && #[trigger] method_edge(classes, i, j, e)
}

/// Appends the edges of one call made by `caller`.
pub fn edges_of_call(
    caller: &MethodId,
    call: &CallSite,
    hierarchy: &Hierarchy,
    index: &MethodIndex,
    classes: &Vec<&Class>,
    out: &mut Vec<CallEdge>,
)
    requires
        hierarchy.describes(class_seq(classes@)),
        forall|key: MethodKey| #[trigger] indexed(index.methods@, key) == declares_method(class_seq(classes@), key),
    ensures
        forall|e: EdgeKey| #[trigger]
            has_edge(final(out)@, e) == (has_edge(old(out)@, e) || edge_of_call(class_seq(classes@), caller@, *call, e)),
{
    let candidates = resolve_call(hierarchy, index, call, classes);
    let ghost start = out@;
    let mut t: usize = 0;
    while t < candidates.len()
        invariant
            t <= candidates@.len(),
            forall|e: EdgeKey| #[trigger]
                has_edge(out@, e) == (has_edge(start, e) || (e.0 == caller@ && e.2 == call.kind && e.3 == call.offset
                    && exists|u: int| 0 <= u < t && (#[trigger] candidates@[u])@ == e.1)),
        decreases candidates.len() - t,
    {
        let ghost before = out@;
        let edge = CallEdge {
            caller: copy_method_id(caller),
            callee: copy_method_id(&candidates[t]),
            kind: call.kind,
            offset: call.offset,
        };
        out.push(edge);
        proof {
            assert forall|e: EdgeKey| #[trigger]
                has_edge(out@, e) == (has_edge(start, e) || (e.0 == caller@ && e.2 == call.kind && e.3 == call.offset
                    && exists|u: int| 0 <= u < t + 1 && (#[trigger] candidates@[u])@ == e.1)) by {
                lemma_has_edge_push(before, out@.last(), e);
                if e.0 == caller@ && e.2 == call.kind && e.3 == call.offset && candidates@[t as int]@ == e.1 {
                    assert(out@.last()@ == e);
                }
            }
        }
        t = t + 1;
    }
    proof {
        assert forall|e: EdgeKey| #[trigger]
            has_edge(out@, e) == (has_edge(start, e) || edge_of_call(class_seq(classes@), caller@, *call, e)) by {
            if exists|u: int| 0 <= u < candidates@.len() && (#[trigger] candidates@[u])@ == e.1 {
                assert(indexed(candidates@, e.1));
            }
            if indexed(candidates@, e.1) {
                let u = choose|u: int| 0 <= u < candidates@.len() && (#[trigger] candidates@[u])@ == e.1;
            }
        }
    }
}

/// Appends the edges of every call made by method `mi` of class `ci`.
pub fn edges_of_method(
    classes: &Vec<&Class>,
    ci: usize,
    mi: usize,
    caller: &MethodId,
    hierarchy: &Hierarchy,
    index: &MethodIndex,
    out: &mut Vec<CallEdge>,
)
    requires
        ci < classes@.len(),
        mi < classes@[ci as int].methods@.len(),
        caller@ == key_at(class_seq(classes@), ci as int, mi as int),
        hierarchy.describes(class_seq(classes@)),
        forall|key: MethodKey| #[trigger] indexed(index.methods@, key) == declares_method(class_seq(classes@), key),
    ensures
        forall|e: EdgeKey| #[trigger]
            has_edge(final(out)@, e) == (has_edge(old(out)@, e) || method_edge(class_seq(classes@), ci as int, mi as int, e)),
{
    let ghost cs = class_seq(classes@);
    let method = &classes[ci].methods[mi];
    assert(cs[ci as int].methods@[mi as int] == *method);
    let ghost start = out@;
    let mut k: usize = 0;
    while k < method.calls.len()
        invariant
            k <= method.calls@.len(),
            cs == class_seq(classes@),
            ci < cs.len(),
            mi < cs[ci as int].methods@.len(),
            cs[ci as int].methods@[mi as int] == *method,
            caller@ == key_at(cs, ci as int, mi as int),
            hierarchy.describes(cs),
            forall|key: MethodKey| #[trigger] indexed(index.methods@, key) == declares_method(cs, key),
            forall|e: EdgeKey| #[trigger]
                has_edge(out@, e) == (has_edge(start, e) || exists|u: int|
                    0 <= u < k && edge_of_call(cs, caller@, #[trigger] method.calls@[u], e)),
        decreases method.calls.len() - k,
    {
        let ghost before = out@;
        edges_of_call(caller, &method.calls[k], hierarchy, index, classes, out);
        proof {
            assert forall|e: EdgeKey| #[trigger]
                has_edge(out@, e) == (has_edge(start, e) || exists|u: int|
                    0 <= u < k + 1 && edge_of_call(cs, caller@, #[trigger] method.calls@[u], e)) by {
                if edge_of_call(cs, caller@, method.calls@[k as int], e) {
                    assert(has_edge(out@, e));
                }
            }
        }
        k = k + 1;
    }
    proof {
        assert forall|e: EdgeKey| #[trigger]
            has_edge(out@, e) == (has_edge(start, e) || method_edge(cs, ci as int, mi as int, e)) by {
            if method_edge(cs, ci as int, mi as int, e) {
                let u = choose|u: int|
                    0 <= u < cs[ci as int].methods@[mi as int].calls@.len() && edge_of_call(
                        cs,
                        key_at(cs, ci as int, mi as int),
                        #[trigger] cs[ci as int].methods@[mi as int].calls@[u],
                        e,
                    );
                assert(edge_of_call(cs, caller@, method.calls@[u], e));
            }
        }
    }
}

/// The call graph's edges over `classes`, ascending, each once: for every
/// method of every class and every call it makes, one edge to each method
/// the call may reach.
pub fn build_edges(classes: &Vec<&Class>, hierarchy: &Hierarchy, methods: &MethodIndex) -> (res: Vec<CallEdge>)
    requires
        hierarchy.describes(class_seq(classes@)),
        forall|key: MethodKey| #[trigger] indexed(methods.methods@, key) == declares_method(class_seq(classes@), key),
    ensures
        edges_sorted(res@),
        forall|e: EdgeKey| #[trigger] has_edge(res@, e) == call_edge(class_seq(classes@), e),
{
    let ghost cs = class_seq(classes@);
    let mut raw: Vec<CallEdge> = Vec::new();
    let mut ci: usize = 0;
    while ci < classes.len()
        invariant
            ci <= classes@.len(),
            cs == class_seq(classes@),
            cs.len() == classes@.len(),
            hierarchy.describes(cs),
            forall|key: MethodKey| #[trigger] indexed(methods.methods@, key) == declares_method(cs, key),
            forall|e: EdgeKey| #[trigger] has_edge(raw@, e) == edge_before(cs, ci as int, 0, e),
        decreases classes.len() - ci,
    {
        let class: &Class = classes[ci];
        assert(cs[ci as int] == *class);
        let mut mi: usize = 0;
        while mi < class.methods.len()
            invariant
                ci < classes@.len(),
                mi <= class.methods@.len(),
                cs == class_seq(classes@),
                cs.len() == classes@.len(),
                cs[ci as int] == *class,
                hierarchy.describes(cs),
                forall|key: MethodKey| #[trigger] indexed(methods.methods@, key) == declares_method(cs, key),
                forall|e: EdgeKey| #[trigger] has_edge(raw@, e) == edge_before(cs, ci as int, mi as int, e),
            decreases class.methods.len() - mi,
        {
            let method = &class.methods[mi];
            proof {
                assert(declares_method(cs, key_at(cs, ci as int, mi as int)));
            }
            let ghost before = raw@;
            match lookup_method(methods, class.name.as_str(), method.name.as_str(), method.descriptor.as_str()) {
                Some(caller) => {
                    edges_of_method(classes, ci, mi, &caller, hierarchy, methods, &mut raw);
                },
                None => {},
            }
            proof {
                assert forall|e: EdgeKey| #[trigger] has_edge(raw@, e) == edge_before(cs, ci as int, mi + 1, e) by {
                    if edge_before(cs, ci as int, mi + 1, e) {
                        let (i, j) = choose|i: int, j: int|
                            0 <= i < cs.len() && 0 <= j < cs[i].methods@.len() && (i < ci || (i == ci && j < mi + 1))
                                && #[trigger] method_edge(cs, i, j, e);
                        if !(i == ci && j == mi) {
                            assert(edge_before(cs, ci as int, mi as int, e));
                        }
                    }
                    if edge_before(cs, ci as int, mi as int, e) {
                        let (i, j) = choose|i: int, j: int|
                            0 <= i < cs.len() && 0 <= j < cs[i].methods@.len() && (i < ci || (i == ci && j < mi))
                                && #[trigger] method_edge(cs, i, j, e);
                        assert(edge_before(cs, ci as int, mi + 1, e));
                    }
                    if method_edge(cs, ci as int, mi as int, e) {
                        assert(edge_before(cs, ci as int, mi + 1, e));
                    }
                }
            }
            mi = mi + 1;
        }
        proof {
            assert forall|e: EdgeKey| #[trigger] has_edge(raw@, e) == edge_before(cs, ci + 1, 0, e) by {
                if edge_before(cs, ci + 1, 0, e) {
                    let (i, j) = choose|i: int, j: int|
                        0 <= i < cs.len() && 0 <= j < cs[i].methods@.len() && (i < ci + 1 || (i == ci + 1 && j < 0))
                            && #[trigger] method_edge(cs, i, j, e);
                    assert(edge_before(cs, ci as int, mi as int, e));
                }
                if edge_before(cs, ci as int, mi as int, e) {
                    let (i, j) = choose|i: int, j: int|
                        0 <= i < cs.len() && 0 <= j < cs[i].methods@.len() && (i < ci || (i == ci && j < mi))
                            && #[trigger] method_edge(cs, i, j, e);
                    assert(edge_before(cs, ci + 1, 0, e));
                }
            }
        }
        ci = ci + 1;
    }
    let edges = sort_edges(&raw, 0, raw.len());
    proof {
        assert(raw@.subrange(0, raw@.len() as int) == raw@);
        assert forall|e: EdgeKey| #[trigger] has_edge(edges@, e) == call_edge(cs, e) by {
            if call_edge(cs, e) {
                let (i, j) = choose|i: int, j: int|
                    0 <= i < cs.len() && 0 <= j < cs[i].methods@.len() && #[trigger] method_edge(cs, i, j, e);
                assert(edge_before(cs, ci as int, 0, e));
            }
        }
    }
    edges
}


/// The monotonic clock's instants, as an outside type.
#[verifier::external_type_specification]
#[verifier::external_body]
pub struct ExInstant(std::time::Instant);

/// Reads the monotonic clock with `std::time::Instant::now`; nothing is
/// claimed of the reading.
#[verifier::external_body]
fn clock_now() -> (res: std::time::Instant) {
    std::time::Instant::now()
}

/// The time since `start`, with `std::time::Instant::elapsed`; nothing is
/// claimed of it.
#[verifier::external_body]
fn elapsed_since(start: &std::time::Instant) -> (res: std::time::Duration) {
    start.elapsed()
}

/// The whole milliseconds of `d`, with `std::time::Duration::as_millis`; the
/// count is not stated.
#[verifier::external_body]
fn whole_millis(d: &std::time::Duration) -> (res: u128) {
    d.as_millis()
}

/// Time spent on each phase of building a call graph, in milliseconds.
#[derive(Clone, Copy, Debug)]
pub struct CallGraphTimings {
    pub hierarchy_duration_ms: u128,
    pub index_duration_ms: u128,
    pub edges_duration_ms: u128,
}

/// The call graph of the classes behind `classes`, by class hierarchy
/// analysis, with the time each phase took: the edges are ascending, each
/// once, and are exactly the call edges of the classes.
pub fn build_call_graph_for(classes: &Vec<&Class>) -> (res: (CallGraph, CallGraphTimings))
    ensures
        edges_sorted(res.0.edges@),
        forall|e: EdgeKey| #[trigger] has_edge(res.0.edges@, e) == call_edge(class_seq(classes@), e),
{
    let hierarchy_started_at = clock_now();
    let hierarchy = build_hierarchy(classes);
    let hierarchy_duration_ms = whole_millis(&elapsed_since(&hierarchy_started_at));
    let index_started_at = clock_now();
    let methods = index_methods(classes);
    let index_duration_ms = whole_millis(&elapsed_since(&index_started_at));
    let edges_started_at = clock_now();
    let edges = build_edges(classes, &hierarchy, &methods);
    let edges_duration_ms = whole_millis(&elapsed_since(&edges_started_at));
    let timings = CallGraphTimings { hierarchy_duration_ms, index_duration_ms, edges_duration_ms };
    (CallGraph { edges }, timings)
}

/// The call graph of `classes`, by class hierarchy analysis, with the time
/// each phase took: the edges are ascending, each once, and are exactly the
/// call edges of the classes.
pub fn build_call_graph_with_timings(classes: &[Class]) -> (res: (CallGraph, CallGraphTimings))
    ensures
        edges_sorted(res.0.edges@),
        forall|e: EdgeKey| #[trigger] has_edge(res.0.edges@, e) == call_edge(classes@, e),
{
    let mut refs: Vec<&Class> = Vec::new();
    let mut i: usize = 0;
    while i < classes.len()
        invariant
            i <= classes@.len(),
            refs@.len() == i,
            forall|j: int| 0 <= j < i ==> *refs@[j] == classes@[j],
        decreases classes.len() - i,
    {
        refs.push(&classes[i]);
        i = i + 1;
    }
    proof {
        assert(class_seq(refs@) =~= classes@);
    }
    build_call_graph_for(&refs)
}

} // verus!
