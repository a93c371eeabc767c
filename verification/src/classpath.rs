//! Classpath resolution: one entry per class name, duplicates rejected.
use vstd::prelude::*;
use crate::ir::Class;
use crate::text::{
    lex_lt, lex_sorted, push_signed_decimal, signed_decimal, sorted_position, starts_with, views,
    seq_starts_with, lemma_lex_lt_irreflexive,
};

verus! {

/// Artifact indices of the classes named `name`, in order.
pub open spec fn indices_for(classes: Seq<Class>, name: Seq<char>) -> Seq<i64>
    decreases classes.len(),
{
    if classes.len() == 0 {
        Seq::empty()
    } else {
        let rest = indices_for(classes.drop_last(), name);
        if classes.last().name@ == name {
            rest.push(classes.last().artifact_index)
        } else {
            rest
        }
    }
}

/// Some class is named `name`.
pub open spec fn has_class_named(classes: Seq<Class>, name: Seq<char>) -> bool {
    exists|i: int| 0 <= i < classes.len() && classes[i].name@ == name
}

proof fn lemma_indices_nonempty(classes: Seq<Class>, name: Seq<char>)
    ensures
        indices_for(classes, name).len() > 0 <==> has_class_named(classes, name),
    decreases classes.len(),
{
    if classes.len() > 0 {
        lemma_indices_nonempty(classes.drop_last(), name);
        if has_class_named(classes, name) && classes.last().name@ != name {
            let i = choose|i: int| 0 <= i < classes.len() && classes[i].name@ == name;
            assert(classes.drop_last()[i] == classes[i]);
        }
        if has_class_named(classes.drop_last(), name) {
            let i = choose|i: int| 0 <= i < classes.len() - 1 && classes.drop_last()[i].name@ == name;
            assert(classes[i] == classes.drop_last()[i]);
        }
    }
}

/// Resolved classpath: each class name with the artifact it comes from, in
/// ascending name order.
#[derive(Clone, Debug)]
pub struct ClasspathIndex {
    pub classes: Vec<(String, i64)>,
}

/// A class name defined by more than one class, with the artifacts defining it.
#[derive(Clone, Debug)]
pub struct DuplicateClass {
    pub name: String,
    pub artifact_indices: Vec<i64>,
}

/// Why a classpath does not resolve.
#[derive(Clone, Debug)]
pub enum ClasspathError {
    /// Class names that occur more than once, in ascending name order.
    DuplicateClasses(Vec<DuplicateClass>),
}

/// Whether a class belongs to the Java platform.
pub open spec fn is_platform_class_spec(name: Seq<char>) -> bool {
    seq_starts_with(name, "java/"@) || seq_starts_with(name, "javax/"@) || seq_starts_with(name, "jdk/"@)
        || seq_starts_with(name, "sun/"@) || seq_starts_with(name, "com/sun/"@)
}

/// Whether a class name lies in a platform package (`java/`, `javax/`, `jdk/`,
/// `sun/`, `com/sun/`).
pub fn is_platform_class(name: &str) -> (res: bool)
    ensures
        res == is_platform_class_spec(name@),
{
    starts_with(name, "java/") || starts_with(name, "javax/") || starts_with(name, "jdk/")
        || starts_with(name, "sun/") || starts_with(name, "com/sun/")
}

/// Names and artifact-index groups built so far are consistent with `classes`.
pub open spec fn groups_describe(
    names: Seq<String>,
    groups: Seq<Vec<i64>>,
    classes: Seq<Class>,
) -> bool {
    &&& names.len() == groups.len()
    &&& lex_sorted(views(names))
    &&& forall|i: int| 0 <= i < names.len() ==> (#[trigger] groups[i])@ == indices_for(classes, names[i]@)
    &&& forall|n: Seq<char>| #[trigger] has_class_named(classes, n) == exists|i: int|
        0 <= i < names.len() && names[i]@ == n
}

fn group_classes(classes: &[Class]) -> (res: (Vec<String>, Vec<Vec<i64>>))
    ensures
        groups_describe(res.0@, res.1@, classes@),
{
    let mut names: Vec<String> = Vec::new();
    let mut groups: Vec<Vec<i64>> = Vec::new();
    let mut k: usize = 0;
    while k < classes.len()
        invariant
            k <= classes@.len(),
            groups_describe(names@, groups@, classes@.subrange(0, k as int)),
        decreases classes.len() - k,
    {
        let class = &classes[k];
        let ghost prefix = classes@.subrange(0, k as int);
        let ghost next = classes@.subrange(0, k + 1);
        proof {
            assert(next.drop_last() =~= prefix);
            assert(next.last() == *class);
        }
        let (pos, found) = sorted_position(&names, class.name.as_str());
        let ghost old_names = names@;
        let ghost old_groups = groups@;
        if found {
            let mut group = groups.remove(pos);
            group.push(class.artifact_index);
            groups.insert(pos, group);
            proof {
                assert(names@ == old_names);
                assert forall|i: int| 0 <= i < names@.len() implies (#[trigger] groups@[i])@ == indices_for(
                    next,
                    names@[i]@,
                ) by {
                    if i != pos {
                        assert(groups@[i] == old_groups[i]);
                        assert(views(names@)[i] == names@[i]@);
                        assert(views(names@)[pos as int] == names@[pos as int]@);
                        if i < pos {
                            assert(lex_lt(names@[i]@, names@[pos as int]@));
                        } else {
                            assert(lex_lt(names@[pos as int]@, names@[i]@));
                        }
                        lemma_lex_lt_irreflexive(names@[i]@);
                    }
                }
                assert forall|n: Seq<char>| #[trigger] has_class_named(next, n) == exists|i: int|
                    0 <= i < names@.len() && names@[i]@ == n by {
                    if has_class_named(next, n) && n != class.name@ {
                        let i = choose|i: int| 0 <= i < next.len() && next[i].name@ == n;
                        assert(prefix[i] == next[i]);
                        assert(has_class_named(prefix, n));
                    }
                    if has_class_named(prefix, n) {
                        let i = choose|i: int| 0 <= i < prefix.len() && prefix[i].name@ == n;
                        assert(next[i] == prefix[i]);
                    }
                    if n == class.name@ {
                        assert(next[k as int].name@ == n);
                    }
                }
            }
        } else {
            let mut group: Vec<i64> = Vec::new();
            group.push(class.artifact_index);
            names.insert(pos, class.name.clone());
            groups.insert(pos, group);
            proof {
                lemma_indices_nonempty(prefix, class.name@);
                assert(!has_class_named(prefix, class.name@));
                assert(indices_for(prefix, class.name@) =~= Seq::<i64>::empty());
                assert(views(names@) =~= views(old_names).insert(pos as int, class.name@));
                assert(lex_sorted(views(names@))) by {
                    assert forall|a: int, b: int| 0 <= a < b < names@.len() implies lex_lt(
                        views(names@)[a],
                        views(names@)[b],
                    ) by {
                        let v = views(names@);
                        let ov = views(old_names);
                        if a < pos && b < pos {
                            assert(v[a] == ov[a] && v[b] == ov[b]);
                        } else if a < pos && b == pos {
                            assert(v[a] == old_names[a]@);
                        } else if a < pos && b > pos {
                            assert(v[a] == ov[a] && v[b] == ov[b - 1]);
                        } else if a == pos {
                            assert(v[b] == old_names[b - 1]@);
                            assert(!lex_lt(old_names[b - 1]@, class.name@));
                            assert(old_names[b - 1]@ != class.name@);
                            crate::text::lemma_lex_lt_total(old_names[b - 1]@, class.name@);
                        } else {
                            assert(v[a] == ov[a - 1] && v[b] == ov[b - 1]);
                        }
                    }
                }
                assert forall|i: int| 0 <= i < names@.len() implies (#[trigger] groups@[i])@ == indices_for(
                    next,
                    names@[i]@,
                ) by {
                    if i < pos {
                        assert(names@[i] == old_names[i]);
                        assert(groups@[i] == old_groups[i]);
                        assert(lex_lt(old_names[i]@, class.name@));
                        lemma_lex_lt_irreflexive(class.name@);
                    } else if i > pos {
                        assert(names@[i] == old_names[i - 1]);
                        assert(groups@[i] == old_groups[i - 1]);
                        assert(old_names[i - 1]@ != class.name@);
                    }
                }
                assert forall|n: Seq<char>| #[trigger] has_class_named(next, n) == exists|i: int|
                    0 <= i < names@.len() && names@[i]@ == n by {
                    if has_class_named(next, n) && n != class.name@ {
                        let i = choose|i: int| 0 <= i < next.len() && next[i].name@ == n;
                        assert(prefix[i] == next[i]);
                        assert(has_class_named(prefix, n));
                        let j = choose|j: int| 0 <= j < old_names.len() && old_names[j]@ == n;
                        if j < pos {
                            assert(names@[j] == old_names[j]);
                        } else {
                            assert(names@[j + 1] == old_names[j]);
                        }
                    }
                    if exists|i: int| 0 <= i < names@.len() && names@[i]@ == n {
                        let i = choose|i: int| 0 <= i < names@.len() && names@[i]@ == n;
                        if i < pos {
                            assert(names@[i] == old_names[i]);
                        } else if i > pos {
                            assert(names@[i] == old_names[i - 1]);
                        }
                        if n != class.name@ {
                            assert(has_class_named(prefix, n));
                            let j = choose|j: int| 0 <= j < prefix.len() && prefix[j].name@ == n;
                            assert(next[j] == prefix[j]);
                        } else {
                            assert(next[k as int].name@ == n);
                        }
                    }
                    if n == class.name@ {
                        assert(next[k as int].name@ == n);
                        assert(names@[pos as int]@ == n);
                    }
                }
            }
        }
        k = k + 1;
    }
    assert(classes@.subrange(0, k as int) =~= classes@);
    (names, groups)
}

/// Resolves the classpath: `Ok` with one entry per class name (the artifact of
/// its class, names ascending) when no name occurs twice; otherwise every name
/// that occurs more than once, ascending, with all its artifact indices in
/// order.
pub fn resolve_classpath(classes: &[Class]) -> (res: Result<ClasspathIndex, ClasspathError>)
    ensures
        res is Ok <==> forall|n: Seq<char>| #[trigger] indices_for(classes@, n).len() <= 1,
        res matches Ok(index) ==> {
            &&& lex_sorted(index.classes@.map_values(|e: (String, i64)| e.0@))
            &&& forall|n: Seq<char>| #[trigger] has_class_named(classes@, n) == exists|i: int|
                0 <= i < index.classes@.len() && index.classes@[i].0@ == n
            &&& forall|i: int| 0 <= i < index.classes@.len() ==> indices_for(classes@, (#[trigger] index.classes@[i]).0@)
                == seq![index.classes@[i].1]
        },
        res matches Err(ClasspathError::DuplicateClasses(dups)) ==> {
            &&& lex_sorted(dups@.map_values(|d: DuplicateClass| d.name@))
            &&& forall|i: int| 0 <= i < dups@.len() ==> (#[trigger] dups@[i]).artifact_indices@ == indices_for(
                classes@,
                dups@[i].name@,
            )
            &&& forall|n: Seq<char>| #[trigger] indices_for(classes@, n).len() > 1 <==> exists|i: int|
                0 <= i < dups@.len() && dups@[i].name@ == n
        },
{
    let (names, groups) = group_classes(classes);
    let mut dups: Vec<DuplicateClass> = Vec::new();
    let mut entries: Vec<(String, i64)> = Vec::new();
    let ghost mut dup_from: Seq<int> = Seq::empty();
    let mut i: usize = 0;
    while i < names.len()
        invariant
            groups_describe(names@, groups@, classes@),
            i <= names@.len(),
            entries@.len() == i,
            forall|j: int| 0 <= j < i ==> (#[trigger] entries@[j]).0 == names@[j] && groups@[j]@.len() > 0
                && entries@[j].1 == groups@[j]@[0],
            dups@.len() == dup_from.len(),
            forall|a: int| 0 <= a < dup_from.len() ==> 0 <= #[trigger] dup_from[a] < i
                && dups@[a].name == names@[dup_from[a]] && dups@[a].artifact_indices@ == groups@[dup_from[a]]@,
            forall|a: int, b: int| 0 <= a < b < dup_from.len() ==> dup_from[a] < dup_from[b],
            forall|j: int| 0 <= j < i ==> (groups@[j]@.len() > 1 <==> exists|a: int|
                0 <= a < dup_from.len() && dup_from[a] == j),
        decreases names.len() - i,
    {
        let group = &groups[i];
        proof {
            assert(views(names@)[i as int] == names@[i as int]@);
            assert(has_class_named(classes@, names@[i as int]@));
            lemma_indices_nonempty(classes@, names@[i as int]@);
        }
        entries.push((names[i].clone(), group[0]));
        let ghost prev_from = dup_from;
        if group.len() > 1 {
            let copy = crate::dataflow::stack_machine::copy_vec(group);
            dups.push(DuplicateClass { name: names[i].clone(), artifact_indices: copy });
            proof {
                dup_from = dup_from.push(i as int);
            }
        }
        proof {
            assert forall|j: int| 0 <= j < i + 1 implies (groups@[j]@.len() > 1 <==> exists|a: int|
                0 <= a < dup_from.len() && dup_from[a] == j) by {
                if j < i {
                    if exists|a: int| 0 <= a < prev_from.len() && prev_from[a] == j {
                        let a = choose|a: int| 0 <= a < prev_from.len() && prev_from[a] == j;
                        assert(dup_from[a] == j);
                    }
                    if exists|a: int| 0 <= a < dup_from.len() && dup_from[a] == j {
                        let a = choose|a: int| 0 <= a < dup_from.len() && dup_from[a] == j;
                        if a < prev_from.len() {
                            assert(prev_from[a] == j);
                        }
                    }
                } else {
                    if groups@[j]@.len() > 1 {
                        assert(dup_from[dup_from.len() - 1] == j);
                    }
                }
            }
        }
        i = i + 1;
    }
    proof {
        assert forall|n: Seq<char>| #[trigger] indices_for(classes@, n).len() > 1 <==> exists|a: int|
            0 <= a < dups@.len() && dups@[a].name@ == n by {
            lemma_indices_nonempty(classes@, n);
            if indices_for(classes@, n).len() > 1 {
                assert(has_class_named(classes@, n));
                let j = choose|j: int| 0 <= j < names@.len() && names@[j]@ == n;
                assert(groups@[j]@ == indices_for(classes@, names@[j]@));
                assert(groups@[j]@.len() > 1);
                assert(j < i);
                let a = choose|a: int| 0 <= a < dup_from.len() && dup_from[a] == j;
                assert(dups@[a].name@ == n);
            }
            if exists|a: int| 0 <= a < dups@.len() && dups@[a].name@ == n {
                let a = choose|a: int| 0 <= a < dups@.len() && dups@[a].name@ == n;
                assert(groups@[dup_from[a]]@.len() > 1);
            }
        }
        let dn = dups@.map_values(|d: DuplicateClass| d.name@);
        assert(lex_sorted(dn)) by {
            assert forall|a: int, b: int| #![trigger dn[a], dn[b]] 0 <= a < b < dups@.len() implies lex_lt(
                dn[a],
                dn[b],
            ) by {
                assert(dup_from[a] < dup_from[b]);
                assert(views(names@)[dup_from[a]] == names@[dup_from[a]]@);
                assert(views(names@)[dup_from[b]] == names@[dup_from[b]]@);
            }
        }
        let en = entries@.map_values(|e: (String, i64)| e.0@);
        assert(lex_sorted(en)) by {
            assert forall|a: int, b: int| #![trigger en[a], en[b]] 0 <= a < b < entries@.len() implies lex_lt(
                en[a],
                en[b],
            ) by {
                assert(views(names@)[a] == names@[a]@);
                assert(views(names@)[b] == names@[b]@);
            }
        }
    }
    proof {
        assert forall|a: int| 0 <= a < dups@.len() implies (#[trigger] dups@[a]).artifact_indices@ == indices_for(
            classes@,
            dups@[a].name@,
        ) by {
            let j = dup_from[a];
            assert(groups@[j]@ == indices_for(classes@, names@[j]@));
        }
        assert forall|n: Seq<char>| #[trigger] has_class_named(classes@, n) == exists|j: int|
            0 <= j < entries@.len() && entries@[j].0@ == n by {
            if has_class_named(classes@, n) {
                let j = choose|j: int| 0 <= j < names@.len() && names@[j]@ == n;
                assert(entries@[j].0@ == n);
            }
            if exists|j: int| 0 <= j < entries@.len() && entries@[j].0@ == n {
                let j = choose|j: int| 0 <= j < entries@.len() && entries@[j].0@ == n;
                assert(names@[j]@ == n);
            }
        }
    }
    if dups.len() > 0 {
        proof {
            let n = dups@[0].name@;
            assert(indices_for(classes@, n).len() > 1);
        }
        return Err(ClasspathError::DuplicateClasses(dups));
    }
    proof {
        assert forall|n: Seq<char>| #[trigger] indices_for(classes@, n).len() <= 1 by {
            if indices_for(classes@, n).len() > 1 {
                let a = choose|a: int| 0 <= a < dups@.len() && dups@[a].name@ == n;
            }
        }
        assert forall|j: int| 0 <= j < entries@.len() implies indices_for(classes@, (#[trigger] entries@[j]).0@)
            == seq![entries@[j].1] by {
            assert(indices_for(classes@, names@[j]@).len() <= 1);
            assert(groups@[j]@ =~= seq![entries@[j].1]);
        }
    }
    Ok(ClasspathIndex { classes: entries })
}

impl ClasspathError {
    /// Human-readable description, as `duplicate classes found: NAME: [I, J], ...`.
    pub fn message(&self) -> (res: String)
        ensures
            res@.len() >= 24,
    {
        proof {
            reveal_strlit("duplicate classes found: ");
            reveal_strlit(", ");
            reveal_strlit(": [");
            reveal_strlit("]");
        }
        let mut out = String::from_str("duplicate classes found: ");
        match self {
            ClasspathError::DuplicateClasses(dups) => {
                let mut i: usize = 0;
                while i < dups.len()
                    invariant
                        out@.len() >= 24,
                    decreases dups.len() - i,
                {
                    if i > 0 {
                        out.append(", ");
                    }
                    out.append(dups[i].name.as_str());
                    out.append(": [");
                    let indices = &dups[i].artifact_indices;
                    let mut j: usize = 0;
                    while j < indices.len()
                        invariant
                            out@.len() >= 24,
                        decreases indices.len() - j,
                    {
                        if j > 0 {
                            out.append(", ");
                        }
                        push_signed_decimal(&mut out, indices[j]);
                        j = j + 1;
                    }
                    out.append("]");
                    i = i + 1;
                }
            },
        }
        out
    }
}

} // verus!
