//! The analysis context shared by the rules: which classes are analysis
//! targets, where each class came from, and which logging frameworks are on the
//! classpath.
use vstd::prelude::*;
use crate::bytecode::method_decodes;
use crate::ir::{Class, Field, Method};
use crate::error::AnalysisError;
use crate::report::{sort_findings, stable_sort};
use crate::rules::location::{Finding, FindingView, RuleMetadata, finding_views};
use crate::rules::registry::{RuleKind, all_rules, all_rules_spec, rule_fails_on, rule_id_of, rule_may_fail, rule_run_ok};
use crate::text::{contains, ends_with, find_last_char, seq_contains, seq_ends_with, seq_starts_with, starts_with, str_eq, substring};

verus! {

/// What the context needs of an input artifact.
#[derive(Clone, Debug)]
pub struct ArtifactInfo {
    pub uri: Option<String>,
    pub parent_index: Option<i64>,
    pub is_analysis_target: bool,
}

/// The artifacts by index: their URIs, parents and analysis-target roles.
#[derive(Clone, Debug)]
pub struct ArtifactIndex {
    pub uris: Vec<Option<String>>,
    pub parents: Vec<Option<i64>>,
    pub targets: Vec<bool>,
}

/// The view of an optional string.
pub open spec fn opt_view(s: Option<String>) -> Option<Seq<char>> {
    match s {
        Some(v) => Some(v@),
        None => None,
    }
}

/// Tabulates the artifacts by index.
pub fn analyze_artifacts(artifacts: &[ArtifactInfo]) -> (res: ArtifactIndex)
    ensures
        res.uris@.len() == artifacts@.len(),
        res.parents@.len() == artifacts@.len(),
        res.targets@.len() == artifacts@.len(),
        forall|i: int|
            0 <= i < artifacts@.len() ==> {
                &&& opt_view(#[trigger] res.uris@[i]) == opt_view(artifacts@[i].uri)
                &&& res.parents@[i] == artifacts@[i].parent_index
                &&& res.targets@[i] == artifacts@[i].is_analysis_target
            },
{
    let mut uris: Vec<Option<String>> = Vec::new();
    let mut parents: Vec<Option<i64>> = Vec::new();
    let mut targets: Vec<bool> = Vec::new();
    let mut i: usize = 0;
    while i < artifacts.len()
        invariant
            i <= artifacts@.len(),
            uris@.len() == i,
            parents@.len() == i,
            targets@.len() == i,
            forall|j: int|
                0 <= j < i ==> {
                    &&& opt_view(#[trigger] uris@[j]) == opt_view(artifacts@[j].uri)
                    &&& parents@[j] == artifacts@[j].parent_index
                    &&& targets@[j] == artifacts@[j].is_analysis_target
                },
        decreases artifacts.len() - i,
    {
        let artifact = &artifacts[i];
        let uri = match &artifact.uri {
            Some(u) => Some(u.clone()),
            None => None,
        };
        uris.push(uri);
        parents.push(artifact.parent_index);
        targets.push(artifact.is_analysis_target);
        i = i + 1;
    }
    ArtifactIndex { uris, parents, targets }
}

/// Following parent links from `index` for at most `fuel` steps reaches an
/// analysis-target artifact.
pub open spec fn reaches_target(targets: Seq<bool>, parents: Seq<Option<i64>>, index: i64, fuel: nat) -> bool
    decreases fuel,
{
    if !(0 <= index < targets.len() && index < parents.len()) {
        false
    } else if targets[index as int] {
        true
    } else if fuel == 0 {
        false
    } else {
        match parents[index as int] {
            Some(p) => reaches_target(targets, parents, p, (fuel - 1) as nat),
            None => false,
        }
    }
}

/// Whether the artifact, or one of its ancestors, is an analysis target. A
/// chain longer than the number of artifacts repeats an artifact and is not
/// followed further.
pub fn is_analysis_target_artifact(artifact_index: i64, index: &ArtifactIndex) -> (res: bool)
    requires
        index.targets@.len() == index.parents@.len(),
    ensures
        res == reaches_target(index.targets@, index.parents@, artifact_index, index.targets@.len()),
{
    let n = index.targets.len();
    let mut current = artifact_index;
    let mut fuel: usize = n;
    loop
        invariant
            n == index.targets@.len(),
            index.targets@.len() == index.parents@.len(),
            fuel <= n,
            reaches_target(index.targets@, index.parents@, artifact_index, n as nat)
                == reaches_target(index.targets@, index.parents@, current, fuel as nat),
        decreases fuel,
    {
        if current < 0 || current as u64 >= n as u64 {
            return false;
        }
        let at = current as usize;
        if index.targets[at] {
            return true;
        }
        if fuel == 0 {
            return false;
        }
        match index.parents[at] {
            Some(p) => {
                current = p;
                fuel = fuel - 1;
            },
            None => {
                return false;
            },
        }
    }
}

/// Some artifact is an analysis target.
pub open spec fn any_target(targets: Seq<bool>) -> bool {
    exists|i: int| 0 <= i < targets.len() && targets[i]
}

fn has_any_target(targets: &Vec<bool>) -> (res: bool)
    ensures
        res == any_target(targets@),
{
    let mut i: usize = 0;
    while i < targets.len()
        invariant
            i <= targets@.len(),
            forall|j: int| 0 <= j < i ==> !targets@[j],
        decreases targets.len() - i,
    {
        if targets[i] {
            return true;
        }
        i = i + 1;
    }
    false
}

/// The class comes from an analysis-target artifact.
pub open spec fn is_target_class(index_targets: Seq<bool>, index_parents: Seq<Option<i64>>, c: Class) -> bool {
    reaches_target(index_targets, index_parents, c.artifact_index, index_targets.len())
}

/// Splits classes into analysis targets and dependencies, keeping their order.
/// Without any analysis-target artifact, every class is a target.
pub fn partition_classes(classes: Vec<Class>, index: &ArtifactIndex) -> (res: (Vec<Class>, Vec<Class>))
    requires
        index.targets@.len() == index.parents@.len(),
    ensures
        !any_target(index.targets@) ==> res.0@ == classes@ && res.1@.len() == 0,
        any_target(index.targets@) ==> {
            &&& res.0@ == classes@.filter(|c: Class| is_target_class(index.targets@, index.parents@, c))
            &&& res.1@ == classes@.filter(|c: Class| !is_target_class(index.targets@, index.parents@, c))
        },
{
    if !has_any_target(&index.targets) {
        return (classes, Vec::new());
    }
    let ghost all = classes@;
    let ghost p = |c: Class| is_target_class(index.targets@, index.parents@, c);
    let ghost q = |c: Class| !is_target_class(index.targets@, index.parents@, c);
    let mut targets: Vec<Class> = Vec::new();
    let mut deps: Vec<Class> = Vec::new();
    proof {
        reveal(Seq::filter);
        assert(all.take(0).filter(p) =~= Seq::<Class>::empty());
        assert(all.take(0).filter(q) =~= Seq::<Class>::empty());
    }
    for class in it: classes.into_iter()
        invariant
            it.seq() == all,
            index.targets@.len() == index.parents@.len(),
            p == (|c: Class| is_target_class(index.targets@, index.parents@, c)),
            q == (|c: Class| !is_target_class(index.targets@, index.parents@, c)),
            targets@ == all.take(it.index() as int).filter(p),
            deps@ == all.take(it.index() as int).filter(q),
    {
        let ghost k = it.index() as int;
        proof {
            reveal(Seq::filter);
            assert(all.take(k + 1).drop_last() =~= all.take(k));
            assert(all.take(k + 1).last() == class);
        }
        if is_analysis_target_artifact(class.artifact_index, index) {
            targets.push(class);
        } else {
            deps.push(class);
        }
    }
    proof {
        assert(all.take(all.len() as int) =~= all);
    }
    (targets, deps)
}

/// The descriptor mentions an SLF4J type.
pub open spec fn slf4j_descriptor(d: Seq<char>) -> bool {
    seq_contains(d, "Lorg/slf4j/Logger;"@) || seq_contains(d, "Lorg/slf4j/Marker;"@) || seq_contains(
        d,
        "Lorg/slf4j/LoggerFactory;"@,
    )
}

/// The descriptor mentions a Log4j 2 type.
pub open spec fn log4j2_descriptor(d: Seq<char>) -> bool {
    seq_contains(d, "Lorg/apache/logging/log4j/Logger;"@) || seq_contains(
        d,
        "Lorg/apache/logging/log4j/Marker;"@,
    ) || seq_contains(d, "Lorg/apache/logging/log4j/LogManager;"@) || seq_contains(
        d,
        "Lorg/apache/logging/log4j/message/Message;"@,
    )
}

/// The class name is an SLF4J type.
pub open spec fn slf4j_reference(r: Seq<char>) -> bool {
    r == "org/slf4j/Logger"@ || r == "org/slf4j/Marker"@ || r == "org/slf4j/LoggerFactory"@
}

/// The class name is a Log4j 2 type.
pub open spec fn log4j2_reference(r: Seq<char>) -> bool {
    r == "org/apache/logging/log4j/Logger"@ || r == "org/apache/logging/log4j/LogManager"@ || r
        == "org/apache/logging/log4j/Marker"@ || r == "org/apache/logging/log4j/message/Message"@
}

/// Whether a descriptor mentions an SLF4J type.
pub fn contains_slf4j_type(descriptor: &str) -> (res: bool)
    ensures
        res == slf4j_descriptor(descriptor@),
{
    contains(descriptor, "Lorg/slf4j/Logger;") || contains(descriptor, "Lorg/slf4j/Marker;")
        || contains(descriptor, "Lorg/slf4j/LoggerFactory;")
}

/// Whether a descriptor mentions a Log4j 2 type.
pub fn contains_log4j2_type(descriptor: &str) -> (res: bool)
    ensures
        res == log4j2_descriptor(descriptor@),
{
    contains(descriptor, "Lorg/apache/logging/log4j/Logger;") || contains(
        descriptor,
        "Lorg/apache/logging/log4j/Marker;",
    ) || contains(descriptor, "Lorg/apache/logging/log4j/LogManager;") || contains(
        descriptor,
        "Lorg/apache/logging/log4j/message/Message;",
    )
}

fn is_slf4j_reference(r: &str) -> (res: bool)
    ensures
        res == slf4j_reference(r@),
{
    str_eq(r, "org/slf4j/Logger") || str_eq(r, "org/slf4j/Marker") || str_eq(r, "org/slf4j/LoggerFactory")
}

fn is_log4j2_reference(r: &str) -> (res: bool)
    ensures
        res == log4j2_reference(r@),
{
    str_eq(r, "org/apache/logging/log4j/Logger") || str_eq(r, "org/apache/logging/log4j/LogManager")
        || str_eq(r, "org/apache/logging/log4j/Marker") || str_eq(
        r,
        "org/apache/logging/log4j/message/Message",
    )
}

/// The class names a class refers to: its referenced classes, its superclass
/// and its interfaces.
pub open spec fn class_references(c: Class) -> Seq<Seq<char>> {
    let refs = c.referenced_classes@.map_values(|s: String| s@);
    let with_super = match c.super_name {
        Some(s) => refs.push(s@),
        None => refs,
    };
    with_super + c.interfaces@.map_values(|s: String| s@)
}

/// The class shows that SLF4J is in use: a field or method descriptor or a
/// referenced class names one of its types.
pub open spec fn class_uses_slf4j(c: Class) -> bool {
    ||| exists|i: int| 0 <= i < c.fields@.len() && slf4j_descriptor(#[trigger] c.fields@[i].descriptor@)
    ||| exists|i: int| 0 <= i < c.methods@.len() && slf4j_descriptor(#[trigger] c.methods@[i].descriptor@)
    ||| exists|i: int| 0 <= i < class_references(c).len() && slf4j_reference(#[trigger] class_references(c)[i])
}

/// The class shows that Log4j 2 is in use.
pub open spec fn class_uses_log4j2(c: Class) -> bool {
    ||| exists|i: int| 0 <= i < c.fields@.len() && log4j2_descriptor(#[trigger] c.fields@[i].descriptor@)
    ||| exists|i: int| 0 <= i < c.methods@.len() && log4j2_descriptor(#[trigger] c.methods@[i].descriptor@)
    ||| exists|i: int| 0 <= i < class_references(c).len() && log4j2_reference(#[trigger] class_references(c)[i])
}

fn references_of(class: &Class) -> (res: Vec<&str>)
    ensures
        res@.map_values(|s: &str| s@) == class_references(*class),
{
    let mut out: Vec<&str> = Vec::new();
    let mut i: usize = 0;
    while i < class.referenced_classes.len()
        invariant
            i <= class.referenced_classes@.len(),
            out@.map_values(|s: &str| s@) == class.referenced_classes@.take(i as int).map_values(|s: String| s@),
        decreases class.referenced_classes.len() - i,
    {
        out.push(class.referenced_classes[i].as_str());
        proof {
            assert(class.referenced_classes@.take(i + 1).map_values(|s: String| s@)
                =~= class.referenced_classes@.take(i as int).map_values(|s: String| s@).push(class.referenced_classes@[i as int]@));
            assert(out@.map_values(|s: &str| s@) =~= class.referenced_classes@.take(i + 1).map_values(|s: String| s@));
        }
        i = i + 1;
    }
    proof {
        assert(class.referenced_classes@.take(i as int) =~= class.referenced_classes@);
    }
    let ghost refs = class.referenced_classes@.map_values(|s: String| s@);
    let ghost with_super = if class.super_name is Some {
        refs.push(class.super_name->0@)
    } else {
        refs
    };
    match &class.super_name {
        Some(s) => {
            out.push(s.as_str());
            assert(out@.map_values(|s: &str| s@) =~= with_super);
        },
        None => {},
    }
    let ghost base = out@.map_values(|s: &str| s@);
    assert(base == with_super);
    let mut j: usize = 0;
    while j < class.interfaces.len()
        invariant
            j <= class.interfaces@.len(),
            base == with_super,
            out@.map_values(|s: &str| s@) == base + class.interfaces@.take(j as int).map_values(|s: String| s@),
        decreases class.interfaces.len() - j,
    {
        let ghost prev = out@;
        out.push(class.interfaces[j].as_str());
        proof {
            assert(out@.map_values(|s: &str| s@) =~= prev.map_values(|s: &str| s@).push(class.interfaces@[j as int]@));
            assert(class.interfaces@.take(j + 1).map_values(|s: String| s@)
                =~= class.interfaces@.take(j as int).map_values(|s: String| s@).push(class.interfaces@[j as int]@));
            assert(out@.map_values(|s: &str| s@) =~= base + class.interfaces@.take(j + 1).map_values(|s: String| s@));
        }
        j = j + 1;
    }
    proof {
        assert(class.interfaces@.take(j as int) =~= class.interfaces@);
    }
    out
}

fn class_logging_usage(class: &Class) -> (res: (bool, bool))
    ensures
        res.0 == class_uses_slf4j(*class),
        res.1 == class_uses_log4j2(*class),
{
    let mut slf4j = false;
    let mut log4j2 = false;
    let mut i: usize = 0;
    while i < class.fields.len()
        invariant
            i <= class.fields@.len(),
            slf4j == exists|k: int| 0 <= k < i && slf4j_descriptor(#[trigger] class.fields@[k].descriptor@),
            log4j2 == exists|k: int| 0 <= k < i && log4j2_descriptor(#[trigger] class.fields@[k].descriptor@),
        decreases class.fields.len() - i,
    {
        let field: &Field = &class.fields[i];
        if contains_slf4j_type(&field.descriptor) {
            slf4j = true;
        }
        if contains_log4j2_type(&field.descriptor) {
            log4j2 = true;
        }
        i = i + 1;
    }
    let ghost f_slf4j = slf4j;
    let ghost f_log4j2 = log4j2;
    let mut i: usize = 0;
    while i < class.methods.len()
        invariant
            i <= class.methods@.len(),
            slf4j == (f_slf4j || exists|k: int| 0 <= k < i && slf4j_descriptor(#[trigger] class.methods@[k].descriptor@)),
            log4j2 == (f_log4j2 || exists|k: int| 0 <= k < i && log4j2_descriptor(#[trigger] class.methods@[k].descriptor@)),
        decreases class.methods.len() - i,
    {
        let method: &Method = &class.methods[i];
        if contains_slf4j_type(&method.descriptor) {
            slf4j = true;
        }
        if contains_log4j2_type(&method.descriptor) {
            log4j2 = true;
        }
        i = i + 1;
    }
    let ghost m_slf4j = slf4j;
    let ghost m_log4j2 = log4j2;
    let refs = references_of(class);
    let ghost rv = class_references(*class);
    let mut i: usize = 0;
    while i < refs.len()
        invariant
            i <= refs@.len(),
            refs@.map_values(|s: &str| s@) == rv,
            slf4j == (m_slf4j || exists|k: int| 0 <= k < i && slf4j_reference(#[trigger] rv[k])),
            log4j2 == (m_log4j2 || exists|k: int| 0 <= k < i && log4j2_reference(#[trigger] rv[k])),
        decreases refs.len() - i,
    {
        let r: &str = refs[i];
        assert(rv[i as int] == r@);
        if is_slf4j_reference(r) {
            slf4j = true;
        }
        if is_log4j2_reference(r) {
            log4j2 = true;
        }
        i = i + 1;
    }
    (slf4j, log4j2)
}

/// Whether any class shows SLF4J, and whether any shows Log4j 2, in use.
pub fn detect_logging_frameworks(classes: &[Class]) -> (res: (bool, bool))
    ensures
        res.0 == exists|i: int| 0 <= i < classes@.len() && class_uses_slf4j(#[trigger] classes@[i]),
        res.1 == exists|i: int| 0 <= i < classes@.len() && class_uses_log4j2(#[trigger] classes@[i]),
{
    let mut has_slf4j = false;
    let mut has_log4j2 = false;
    let mut i: usize = 0;
    while i < classes.len()
        invariant
            i <= classes@.len(),
            has_slf4j == exists|k: int| 0 <= k < i && class_uses_slf4j(#[trigger] classes@[k]),
            has_log4j2 == exists|k: int| 0 <= k < i && class_uses_log4j2(#[trigger] classes@[k]),
        decreases classes.len() - i,
    {
        let (s, l) = class_logging_usage(&classes[i]);
        if s {
            has_slf4j = true;
        }
        if l {
            has_log4j2 = true;
        }
        i = i + 1;
    }
    (has_slf4j, has_log4j2)
}

/// The class file URI of a class from an artifact at `uri`: the URI itself for
/// a class file; for a jar, the `jar:` URI of the class entry inside it.
pub open spec fn class_uri_spec(uri: Seq<char>, class_name: Seq<char>) -> Option<Seq<char>> {
    if seq_ends_with(uri, ".class"@) {
        Some(uri)
    } else if seq_ends_with(uri, ".jar"@) {
        if seq_starts_with(uri, "jar:"@) {
            Some(uri + "!/"@ + class_name + ".class"@)
        } else {
            Some("jar:"@ + uri + "!/"@ + class_name + ".class"@)
        }
    } else {
        None
    }
}

/// `k` is the position of the last `/` in `s`.
pub open spec fn is_last_slash(s: Seq<char>, k: int) -> bool {
    0 <= k < s.len() && s[k] == '/' && forall|j: int| k < j < s.len() ==> s[j] != '/'
}

/// The URI of the source file next to a class file: the class file's
/// directory joined with the source file name.
pub open spec fn source_uri_spec(class_uri: Seq<char>, source_file: Option<Seq<char>>) -> Option<Seq<char>> {
    if !seq_ends_with(class_uri, ".class"@) {
        None
    } else {
        match source_file {
            None => None,
            Some(src) => if exists|k: int| is_last_slash(class_uri, k) {
                let k = choose|k: int| is_last_slash(class_uri, k);
                Some(class_uri.subrange(0, k) + "/"@ + src)
            } else {
                None
            },
        }
    }
}

/// The URI reported for a class from an artifact at `artifact_uri`: its source
/// file where that is known, otherwise its class file.
pub open spec fn class_artifact_uri_spec(artifact_uri: Option<Seq<char>>, c: Class) -> Option<Seq<char>> {
    match artifact_uri {
        None => None,
        Some(u) => match class_uri_spec(u, c.name@) {
            None => None,
            Some(cu) => match source_uri_spec(cu, opt_view(c.source_file)) {
                Some(src) => Some(src),
                None => Some(cu),
            },
        },
    }
}

/// The source file URI next to a class file URI, if the class names its
/// source file.
pub fn class_source_uri(class_uri: &str, class: &Class) -> (res: Option<String>)
    ensures
        opt_view(res) == source_uri_spec(class_uri@, opt_view(class.source_file)),
{
    proof {
        reveal_strlit(".class");
        reveal_strlit("/");
    }
    if !ends_with(class_uri, ".class") {
        return None;
    }
    let source_name = match &class.source_file {
        Some(s) => s,
        None => {
            return None;
        },
    };
    match find_last_char(class_uri, '/') {
        Some(k) => {
            proof {
                assert(is_last_slash(class_uri@, k as int));
                let c = choose|c: int| is_last_slash(class_uri@, c);
                if c < k {
                    assert(class_uri@[k as int] != '/');
                }
                if c > k {
                    assert(class_uri@[c] != '/');
                }
            }
            let mut out = substring(class_uri, 0, k);
            out.append("/");
            out.append(source_name.as_str());
            Some(out)
        },
        None => {
            proof {
                assert forall|c: int| !is_last_slash(class_uri@, c) by {
                    if 0 <= c < class_uri@.len() {
                        assert(class_uri@[c] != '/');
                    }
                }
            }
            None
        },
    }
}

fn class_file_uri(uri: &str, class_name: &str) -> (res: Option<String>)
    ensures
        opt_view(res) == class_uri_spec(uri@, class_name@),
{
    proof {
        reveal_strlit(".class");
        reveal_strlit(".jar");
        reveal_strlit("jar:");
    }
    if ends_with(uri, ".class") {
        Some(uri.to_owned())
    } else if ends_with(uri, ".jar") {
        let mut out = if starts_with(uri, "jar:") {
            uri.to_owned()
        } else {
            let mut o = "jar:".to_owned();
            o.append(uri);
            o
        };
        out.append("!/");
        out.append(class_name);
        out.append(".class");
        Some(out)
    } else {
        None
    }
}

/// Every method of every analysis-target class decodes: its descriptor and
/// its calls' descriptors parse and its code walks to the end.
pub open spec fn targets_decode(ctx: AnalysisContext) -> bool {
    forall|ci: int, mi: int|
        0 <= ci < ctx.targets().len() && 0 <= mi < ctx.targets()[ci].methods@.len() ==> method_decodes(
            #[trigger] ctx.targets()[ci].methods@[mi],
        )
}

/// Inputs shared by the rules.
pub struct AnalysisContext {
    analysis_target_classes: Vec<Class>,
    dependency_classes: Vec<Class>,
    artifact_uris: Vec<Option<String>>,
    has_slf4j: bool,
    has_log4j2: bool,
}

impl AnalysisContext {
    /// The classes to analyze.
    pub closed spec fn targets(&self) -> Seq<Class> {
        self.analysis_target_classes@
    }

    /// The classes that are only on the classpath.
    pub closed spec fn dependencies(&self) -> Seq<Class> {
        self.dependency_classes@
    }

    /// The URI of the artifact at `index`, if it has one.
    pub closed spec fn uri_at(&self, index: i64) -> Option<Seq<char>> {
        if 0 <= index < self.artifact_uris@.len() {
            opt_view(self.artifact_uris@[index as int])
        } else {
            None
        }
    }

    /// Whether SLF4J is in use on the classpath.
    pub closed spec fn slf4j_present(&self) -> bool {
        self.has_slf4j
    }

    /// Whether Log4j 2 is in use on the classpath.
    pub closed spec fn log4j2_present(&self) -> bool {
        self.has_log4j2
    }

    /// The URI reported for a class of this context.
    pub open spec fn class_uri(&self, c: Class) -> Option<Seq<char>> {
        class_artifact_uri_spec(self.uri_at(c.artifact_index), c)
    }

    /// The classes to analyze.
    pub fn analysis_target_classes(&self) -> (res: &[Class])
        ensures
            res@ == self.targets(),
    {
        self.analysis_target_classes.as_slice()
    }

    /// The classes that are only on the classpath.
    pub fn dependency_classes(&self) -> (res: &[Class])
        ensures
            res@ == self.dependencies(),
    {
        self.dependency_classes.as_slice()
    }

    /// Every class: the analysis targets, then the dependencies.
    pub fn all_classes(&self) -> (res: Vec<&Class>)
        ensures
            res@.len() == self.targets().len() + self.dependencies().len(),
            forall|i: int| 0 <= i < self.targets().len() ==> *res@[i] == self.targets()[i],
            forall|i: int|
                0 <= i < self.dependencies().len() ==> *res@[self.targets().len() + i]
                    == self.dependencies()[i],
    {
        let mut out: Vec<&Class> = Vec::new();
        let mut i: usize = 0;
        while i < self.analysis_target_classes.len()
            invariant
                i <= self.analysis_target_classes@.len(),
                out@.len() == i,
                forall|j: int| 0 <= j < i ==> *out@[j] == self.analysis_target_classes@[j],
            decreases self.analysis_target_classes.len() - i,
        {
            out.push(&self.analysis_target_classes[i]);
            i = i + 1;
        }
        let n = i;
        let mut k: usize = 0;
        while k < self.dependency_classes.len()
            invariant
                n == self.analysis_target_classes@.len(),
                k <= self.dependency_classes@.len(),
                out@.len() == n + k,
                forall|j: int| 0 <= j < n ==> *out@[j] == self.analysis_target_classes@[j],
                forall|j: int| 0 <= j < k ==> *out@[n + j] == self.dependency_classes@[j],
            decreases self.dependency_classes.len() - k,
        {
            out.push(&self.dependency_classes[k]);
            k = k + 1;
        }
        out
    }

    /// The URI of the artifact at `index`, if it has one.
    pub fn artifact_uri(&self, index: i64) -> (res: Option<&str>)
        ensures
            match res {
                Some(s) => self.uri_at(index) == Some(s@),
                None => self.uri_at(index) is None,
            },
    {
        if index < 0 || index as u64 >= self.artifact_uris.len() as u64 {
            return None;
        }
        match &self.artifact_uris[index as usize] {
            Some(s) => Some(s.as_str()),
            None => None,
        }
    }

    /// The URI reported for a class: the source file next to its class file
    /// where the class names it, otherwise the class file (inside its jar for a
    /// jar artifact); none for other artifacts.
    pub fn class_artifact_uri(&self, class: &Class) -> (res: Option<String>)
        ensures
            opt_view(res) == self.class_uri(*class),
    {
        let uri = match self.artifact_uri(class.artifact_index) {
            Some(u) => u,
            None => {
                return None;
            },
        };
        let class_uri = match class_file_uri(uri, class.name.as_str()) {
            Some(c) => c,
            None => {
                return None;
            },
        };
        match class_source_uri(class_uri.as_str(), class) {
            Some(s) => Some(s),
            None => Some(class_uri),
        }
    }

    /// Whether SLF4J is in use on the classpath.
    pub fn has_slf4j(&self) -> (res: bool)
        ensures
            res == self.slf4j_present(),
    {
        self.has_slf4j
    }

    /// Whether Log4j 2 is in use on the classpath.
    pub fn has_log4j2(&self) -> (res: bool)
        ensures
            res == self.log4j2_present(),
    {
        self.has_log4j2
    }
}

/// Builds the context: artifacts are tabulated, the classes are split into
/// analysis targets and dependencies, and logging frameworks are detected over
/// all classes.
pub fn build_context(classes: Vec<Class>, artifacts: &[ArtifactInfo]) -> (res: AnalysisContext)
    ensures
        !any_target(artifacts@.map_values(|a: ArtifactInfo| a.is_analysis_target)) ==> res.targets()
            == classes@ && res.dependencies().len() == 0,
        any_target(artifacts@.map_values(|a: ArtifactInfo| a.is_analysis_target)) ==> {
            let t = artifacts@.map_values(|a: ArtifactInfo| a.is_analysis_target);
            let p = artifacts@.map_values(|a: ArtifactInfo| a.parent_index);
            &&& res.targets() == classes@.filter(|c: Class| is_target_class(t, p, c))
            &&& res.dependencies() == classes@.filter(|c: Class| !is_target_class(t, p, c))
        },
        forall|i: i64|
            #![trigger res.uri_at(i)]
            0 <= i < artifacts@.len() ==> res.uri_at(i) == opt_view(artifacts@[i as int].uri),
        forall|i: i64| !(0 <= i < artifacts@.len()) ==> #[trigger] res.uri_at(i) is None,
        res.slf4j_present() == exists|i: int| 0 <= i < classes@.len() && class_uses_slf4j(#[trigger] classes@[i]),
        res.log4j2_present() == exists|i: int| 0 <= i < classes@.len() && class_uses_log4j2(#[trigger] classes@[i]),
{
    let index = analyze_artifacts(artifacts);
    proof {
        assert forall|i: int| 0 <= i < artifacts@.len() implies index.targets@[i]
            == artifacts@[i].is_analysis_target && index.parents@[i] == artifacts@[i].parent_index by {
            assert(opt_view(index.uris@[i]) == opt_view(artifacts@[i].uri));
        }
        assert(index.targets@ =~= artifacts@.map_values(|a: ArtifactInfo| a.is_analysis_target));
        assert(index.parents@ =~= artifacts@.map_values(|a: ArtifactInfo| a.parent_index));
    }
    let (has_slf4j, has_log4j2) = detect_logging_frameworks(classes.as_slice());
    let (targets, deps) = partition_classes(classes, &index);
    AnalysisContext {
        analysis_target_classes: targets,
        dependency_classes: deps,
        artifact_uris: index.uris,
        has_slf4j,
        has_log4j2,
    }
}

/// Findings with the rule id filled in where they have none.
pub open spec fn with_rule_id(s: Seq<FindingView>, id: Seq<char>) -> Seq<FindingView> {
    s.map_values(
        |f: FindingView|
            if f.rule_id is None {
                FindingView { rule_id: Some(id), message: f.message, locations: f.locations }
            } else {
                f
            },
    )
}

/// The findings of the rules in rule order, each tagged with its rule's id.
pub open spec fn concat_tagged(kinds: Seq<RuleKind>, outs: Seq<Seq<FindingView>>) -> Seq<FindingView>
    decreases kinds.len(),
{
    if kinds.len() == 0 || outs.len() == 0 {
        Seq::empty()
    } else {
        concat_tagged(kinds.drop_last(), outs.drop_last()) + with_rule_id(outs.last(), rule_id_of(kinds.last()))
    }
}

/// Fills in the rule id of the findings that have none.
pub fn tag_findings(findings: Vec<Finding>, id: &str) -> (res: Vec<Finding>)
    ensures
        finding_views(res@) == with_rule_id(finding_views(findings@), id@),
{
    let ghost all = finding_views(findings@);
    let ghost g = |f: FindingView|
        if f.rule_id is None {
            FindingView { rule_id: Some(id@), message: f.message, locations: f.locations }
        } else {
            f
        };
    let mut out: Vec<Finding> = Vec::new();
    for f in it: findings.into_iter()
        invariant
            all == finding_views(it.seq()),
            g == (|f: FindingView|
                if f.rule_id is None {
                    FindingView { rule_id: Some(id@), message: f.message, locations: f.locations }
                } else {
                    f
                }),
            finding_views(out@) == all.take(it.index() as int).map_values(g),
    {
        let ghost k = it.index() as int;
        let mut f = f;
        if f.rule_id.is_none() {
            f.rule_id = Some(id.to_owned());
        }
        let ghost prev = out@;
        out.push(f);
        proof {
            assert(finding_views(out@) =~= finding_views(prev).push(f@));
            assert(all.take(k + 1).map_values(g) =~= all.take(k).map_values(g).push(g(all[k])));
        }
    }
    proof {
        assert(all.take(all.len() as int) =~= all);
    }
    out
}

/// The rules run and the findings they reported.
pub struct EngineOutput {
    pub rules: Vec<RuleMetadata>,
    pub results: Vec<Finding>,
}

/// Runs the rules over a context.
pub struct Engine {
    rules: Vec<RuleKind>,
}

/// Every engine output for the rules `kinds` on `ctx`: each rule's findings
/// are what it reports, tagged with its id, and all of them are sorted by rule
/// id and message.
pub open spec fn analysis_result(kinds: Seq<RuleKind>, ctx: AnalysisContext, out: EngineOutput) -> bool {
    &&& out.rules@.len() == kinds.len()
    &&& forall|k: int| 0 <= k < kinds.len() ==> (#[trigger] out.rules@[k]).id@ == rule_id_of(kinds[k])
    &&& exists|outs: Seq<Seq<FindingView>>|
        {
            &&& outs.len() == kinds.len()
            &&& forall|k: int| 0 <= k < kinds.len() ==> rule_run_ok(kinds[k], ctx, #[trigger] outs[k])
            &&& finding_views(out.results@) == stable_sort(concat_tagged(kinds, outs))
        }
}

impl Engine {
    /// The rules the engine runs, in order.
    pub closed spec fn rule_list(&self) -> Seq<RuleKind> {
        self.rules@
    }

    /// An engine with every rule, in ascending id order.
    pub fn new() -> (res: Self)
        ensures
            res.rule_list() == all_rules_spec(),
    {
        Engine { rules: all_rules() }
    }

    /// Runs every rule on the context; a rule's error stops the analysis.
    pub fn analyze(&self, context: AnalysisContext) -> (res: Result<EngineOutput, AnalysisError>)
        ensures
            res matches Ok(out) ==> analysis_result(self.rule_list(), context, out),
            res is Err ==> exists|k: int| 0 <= k < self.rule_list().len() && rule_may_fail(#[trigger] self.rule_list()[k]),
            res is Err ==> exists|k: int| 0 <= k < self.rule_list().len() && rule_fails_on(#[trigger] self.rule_list()[k], context),
    {
        let mut metas: Vec<RuleMetadata> = Vec::new();
        let mut all: Vec<Finding> = Vec::new();
        let ghost mut outs: Seq<Seq<FindingView>> = Seq::empty();
        let mut i: usize = 0;
        while i < self.rules.len()
            invariant
                i <= self.rules@.len(),
                metas@.len() == i,
                outs.len() == i,
                forall|k: int| 0 <= k < i ==> (#[trigger] metas@[k]).id@ == rule_id_of(self.rules@[k]),
                forall|k: int| 0 <= k < i ==> rule_run_ok(self.rules@[k], context, #[trigger] outs[k]),
                finding_views(all@) == concat_tagged(self.rules@.take(i as int), outs),
            decreases self.rules.len() - i,
        {
            let kind = self.rules[i];
            let meta = kind.metadata();
            let found = match kind.run(&context) {
                Ok(v) => v,
                Err(e) => {
                    proof {
                        assert(rule_may_fail(self.rules@[i as int]));
                        assert(self.rule_list()[i as int] == self.rules@[i as int]);
                        assert(rule_may_fail(self.rule_list()[i as int]));
                        assert(rule_fails_on(self.rule_list()[i as int], context));
                    }
                    return Err(e);
                },
            };
            let ghost found_view = finding_views(found@);
            let mut tagged = tag_findings(found, meta.id);
            let ghost prev = all@;
            all.append(&mut tagged);
            metas.push(meta);
            proof {
                assert(finding_views(all@) =~= finding_views(prev) + with_rule_id(found_view, rule_id_of(kind)));
                assert(self.rules@.take(i + 1).drop_last() =~= self.rules@.take(i as int));
                assert(outs.push(found_view).drop_last() =~= outs);
                outs = outs.push(found_view);
            }
            i = i + 1;
        }
        proof {
            assert(self.rules@.take(i as int) =~= self.rules@);
        }
        let results = sort_findings(all);
        let out = EngineOutput { rules: metas, results };
        assert(analysis_result(self.rules@, context, out));
        Ok(out)
    }
}

} // verus!
