//! Findings and their locations.
use vstd::prelude::*;
use crate::text::{ends_with, find_first, first_occurrence, seq_contains, seq_ends_with, seq_starts_with, starts_with, str_eq, substring};

verus! {

/// Metadata describing an analysis rule.
#[derive(Clone, Copy, Debug)]
pub struct RuleMetadata {
    pub id: &'static str,
    pub name: &'static str,
    pub description: &'static str,
}

/// A logical location: a qualified name and its kind.
#[derive(Clone, Debug)]
pub struct LogicalLocation {
    pub name: String,
    pub kind: String,
}

/// A physical location: an artifact and optionally a line in it.
#[derive(Clone, Debug)]
pub struct PhysicalLocation {
    pub uri: String,
    pub start_line: Option<u32>,
}

/// Where a finding is.
#[derive(Clone, Debug)]
pub struct Location {
    pub logical: LogicalLocation,
    pub physical: Option<PhysicalLocation>,
}

/// A rule finding: the rule, a message, and where.
#[derive(Clone, Debug)]
pub struct Finding {
    pub rule_id: Option<String>,
    pub message: String,
    pub locations: Vec<Location>,
}

/// The mathematical content of a location.
pub struct LocationView {
    pub name: Seq<char>,
    pub kind: Seq<char>,
    pub physical: Option<(Seq<char>, Option<u32>)>,
}

impl View for Location {
    type V = LocationView;

    open spec fn view(&self) -> LocationView {
        LocationView {
            name: self.logical.name@,
            kind: self.logical.kind@,
            physical: match self.physical {
                Some(p) => Some((p.uri@, p.start_line)),
                None => None,
            },
        }
    }
}

/// The mathematical content of a finding.
pub struct FindingView {
    pub rule_id: Option<Seq<char>>,
    pub message: Seq<char>,
    pub locations: Seq<LocationView>,
}

impl View for Finding {
    type V = FindingView;

    open spec fn view(&self) -> FindingView {
        FindingView {
            rule_id: match self.rule_id {
                Some(r) => Some(r@),
                None => None,
            },
            message: self.message@,
            locations: self.locations@.map_values(|l: Location| l@),
        }
    }
}

/// The views of a sequence of findings.
pub open spec fn finding_views(s: Seq<Finding>) -> Seq<FindingView> {
    s.map_values(|f: Finding| f@)
}

/// A finding with one location and no rule id yet.
pub open spec fn finding_spec(message: Seq<char>, location: LocationView) -> FindingView {
    FindingView { rule_id: None, message, locations: seq![location] }
}

/// Appends a finding.
pub fn push_finding(out: &mut Vec<Finding>, f: Finding)
    ensures
        finding_views(final(out)@) == finding_views(old(out)@).push(f@),
{
    out.push(f);
    assert(finding_views(out@) =~= finding_views(old(out)@).push(f@));
}

/// The key by which a finding repeats an earlier one: its message and, of its
/// first location, the artifact (empty when none), the line (0 when none) and
/// the name; empty parts when it has no location.
pub open spec fn dedup_key(f: FindingView) -> (Seq<char>, Seq<char>, int, Seq<char>) {
    if f.locations.len() == 0 {
        (f.message, Seq::empty(), 0, Seq::empty())
    } else {
        let l = f.locations[0];
        match l.physical {
            Some((u, line)) => (f.message, u, match line {
                Some(n) => n as int,
                None => 0,
            }, l.name),
            None => (f.message, Seq::empty(), 0, l.name),
        }
    }
}

/// Some finding before position `i` of `s` has the key of the one at `i`.
pub open spec fn repeats_earlier(s: Seq<FindingView>, i: int) -> bool {
    exists|j: int| 0 <= j < i && dedup_key(#[trigger] s[j]) == dedup_key(s[i])
}

/// `s` without each finding whose key an earlier finding has, in order.
pub open spec fn dedup_findings(s: Seq<FindingView>) -> Seq<FindingView>
    decreases s.len(),
{
    if s.len() == 0 {
        s
    } else {
        let prev = dedup_findings(s.drop_last());
        if repeats_earlier(s, s.len() - 1) {
            prev
        } else {
            prev.push(s.last())
        }
    }
}

/// No two findings of `s` have the same key.
pub open spec fn keys_distinct(s: Seq<FindingView>) -> bool {
    forall|i: int, j: int| 0 <= i < j < s.len() ==> dedup_key(#[trigger] s[i]) != dedup_key(#[trigger] s[j])
}

/// What deduplication keeps: findings of `s`, no two with the same key.
pub proof fn lemma_dedup_findings(s: Seq<FindingView>)
    ensures
        keys_distinct(dedup_findings(s)),
        forall|i: int| 0 <= i < dedup_findings(s).len() ==> s.contains(#[trigger] dedup_findings(s)[i]),
    decreases s.len(),
{
    if s.len() > 0 {
        let t = s.drop_last();
        lemma_dedup_findings(t);
        let prev = dedup_findings(t);
        assert forall|i: int| 0 <= i < prev.len() implies s.contains(#[trigger] prev[i]) by {
            let j = choose|j: int| 0 <= j < t.len() && t[j] == prev[i];
            assert(s[j] == t[j]);
        }
        if !repeats_earlier(s, s.len() - 1) {
            let d = prev.push(s.last());
            assert forall|i: int| 0 <= i < d.len() implies s.contains(#[trigger] d[i]) by {
                if i == prev.len() {
                    assert(s[s.len() - 1] == d[i]);
                } else {
                    assert(d[i] == prev[i]);
                }
            }
            assert forall|i: int, j: int| 0 <= i < j < d.len() implies dedup_key(#[trigger] d[i]) != dedup_key(#[trigger] d[j]) by {
                if j == prev.len() {
                    assert(d[i] == prev[i]);
                    let k = choose|k: int| 0 <= k < t.len() && t[k] == prev[i];
                    assert(s[k] == t[k]);
                    assert(!(dedup_key(s[k]) == dedup_key(s[s.len() - 1])));
                } else {
                    assert(d[i] == prev[i] && d[j] == prev[j]);
                }
            }
        }
    }
}

/// The artifact, line and name parts of a finding's key.
fn key_parts(f: &Finding) -> (res: (&str, u32, &str))
    ensures
        (f@.message, res.0@, res.1 as int, res.2@) == dedup_key(f@),
{
    proof {
        reveal_strlit("");
    }
    if f.locations.len() == 0 {
        ("", 0, "")
    } else {
        let l = &f.locations[0];
        assert(f@.locations[0] == l@);
        let name = l.logical.name.as_str();
        match &l.physical {
            Some(p) => {
                let line = match p.start_line {
                    Some(n) => n,
                    None => 0,
                };
                (p.uri.as_str(), line, name)
            },
            None => ("", 0, name),
        }
    }
}

/// Whether two findings have the same key.
pub fn same_dedup_key(a: &Finding, b: &Finding) -> (res: bool)
    ensures
        res == (dedup_key(a@) == dedup_key(b@)),
{
    let (au, al, an) = key_parts(a);
    let (bu, bl, bn) = key_parts(b);
    str_eq(a.message.as_str(), b.message.as_str()) && str_eq(au, bu) && al == bl && str_eq(an, bn)
}

/// One more finding of `s` kept or dropped.
pub proof fn lemma_dedup_step(s: Seq<FindingView>, i: int)
    requires
        0 <= i < s.len(),
    ensures
        dedup_findings(s.take(i + 1)) == if repeats_earlier(s, i) {
            dedup_findings(s.take(i))
        } else {
            dedup_findings(s.take(i)).push(s[i])
        },
{
    let t = s.take(i + 1);
    assert(t.drop_last() =~= s.take(i));
    assert(repeats_earlier(t, i) == repeats_earlier(s, i)) by {
        if repeats_earlier(t, i) {
            let j = choose|j: int| 0 <= j < i && dedup_key(#[trigger] t[j]) == dedup_key(t[i]);
            assert(t[j] == s[j]);
        }
        if repeats_earlier(s, i) {
            let j = choose|j: int| 0 <= j < i && dedup_key(#[trigger] s[j]) == dedup_key(s[i]);
            assert(t[j] == s[j]);
        }
    }
}

/// Drops each finding whose key an earlier finding has, keeping the order.
pub fn deduplicate_findings(v: Vec<Finding>) -> (res: Vec<Finding>)
    ensures
        finding_views(res@) == dedup_findings(finding_views(v@)),
{
    let ghost all = finding_views(v@);
    let n = v.len();
    let mut keep: Vec<bool> = Vec::new();
    let mut i: usize = 0;
    while i < n
        invariant
            n == v@.len(),
            all == finding_views(v@),
            i <= n,
            keep@.len() == i,
            forall|k: int| 0 <= k < i ==> keep@[k] == !repeats_earlier(all, k),
        decreases n - i,
    {
        let mut dup = false;
        let mut j: usize = 0;
        while j < i
            invariant
                i < n,
                n == v@.len(),
                all == finding_views(v@),
                j <= i,
                dup == exists|k: int| 0 <= k < j && dedup_key(#[trigger] all[k]) == dedup_key(all[i as int]),
            decreases i - j,
        {
            proof {
                assert(all[j as int] == v@[j as int]@);
                assert(all[i as int] == v@[i as int]@);
            }
            if same_dedup_key(&v[j], &v[i]) {
                dup = true;
            }
            j = j + 1;
        }
        keep.push(!dup);
        i = i + 1;
    }
    let mut rest = v;
    let mut out: Vec<Finding> = Vec::new();
    let mut i: usize = 0;
    proof {
        assert(rest@ =~= v@.subrange(0, n as int));
        assert(all.take(0) =~= Seq::<FindingView>::empty());
        assert(finding_views(out@) =~= Seq::<FindingView>::empty());
    }
    while i < n
        invariant
            n == v@.len(),
            all == finding_views(v@),
            i <= n,
            keep@.len() == n,
            forall|k: int| 0 <= k < n ==> keep@[k] == !repeats_earlier(all, k),
            rest@ == v@.subrange(i as int, n as int),
            finding_views(out@) == dedup_findings(all.take(i as int)),
        decreases n - i,
    {
        let f = rest.remove(0);
        proof {
            assert(f == v@[i as int]);
            assert(rest@ =~= v@.subrange(i + 1, n as int));
            lemma_dedup_step(all, i as int);
        }
        if keep[i] {
            let ghost prev = finding_views(out@);
            out.push(f);
            assert(finding_views(out@) =~= prev.push(f@));
        }
        i = i + 1;
    }
    assert(all.take(n as int) =~= all);
    out
}

/// The container part of a `jar:` URI: the text after `jar:` up to the first `!/`.
pub open spec fn jar_container_spec(uri: Seq<char>) -> Option<Seq<char>> {
    if seq_starts_with(uri, "jar:"@) {
        let rest = uri.subrange(4, uri.len() as int);
        if seq_contains(rest, "!/"@) {
            let i = choose|i: int| first_occurrence(rest, "!/"@, i);
            Some(rest.subrange(0, i))
        } else {
            Some(rest)
        }
    } else {
        None
    }
}

/// Extracts the archive URI from a `jar:<archive>!/<entry>` URI.
pub fn jar_container_uri(uri: &str) -> (res: Option<String>)
    ensures
        match jar_container_spec(uri@) {
            Some(c) => res is Some && res->0@ == c,
            None => res is None,
        },
{
    proof {
        reveal_strlit("jar:");
    }
    if !starts_with(uri, "jar:") {
        return None;
    }
    let n = uri.unicode_len();
    let rest = substring(uri, 4, n);
    match find_first(rest.as_str(), "!/") {
        Some(i) => {
            proof {
                let r = uri@.subrange(4, uri@.len() as int);
                assert(rest@ == r);
                let j = choose|j: int| first_occurrence(r, "!/"@, j);
                if j < i {
                    assert(!crate::text::occurs_at(r, "!/"@, j));
                } else if j > i {
                    assert(!crate::text::occurs_at(r, "!/"@, i as int));
                }
            }
            Some(substring(rest.as_str(), 0, i))
        },
        None => Some(rest),
    }
}

/// Logical name of a method: `Class.methodDescriptor`.
pub open spec fn method_logical_name(class_name: Seq<char>, method_name: Seq<char>, descriptor: Seq<char>) -> Seq<char> {
    class_name + "."@ + method_name + descriptor
}

/// The logical location of a method.
pub fn method_logical_location(class_name: &str, method_name: &str, descriptor: &str) -> (res: LogicalLocation)
    ensures
        res.name@ == method_logical_name(class_name@, method_name@, descriptor@),
        res.kind@ == "function"@,
{
    let mut name = class_name.to_owned();
    name.append(".");
    name.append(method_name);
    name.append(descriptor);
    LogicalLocation { name, kind: "function".to_owned() }
}

/// The physical part of a location for an artifact URI: classes in an archive
/// point at the archive (without line); other artifacts carry the line.
pub open spec fn physical_spec(uri: Seq<char>, line: Option<u32>) -> (Seq<char>, Option<u32>) {
    if seq_ends_with(uri, ".class"@) {
        match jar_container_spec(uri) {
            Some(container) => (container, None),
            None => (uri, line),
        }
    } else {
        (uri, line)
    }
}

/// The location of a method, given the artifact URI of its class and a line.
pub open spec fn method_location_spec(
    class_name: Seq<char>,
    method_name: Seq<char>,
    descriptor: Seq<char>,
    artifact_uri: Option<Seq<char>>,
    line: Option<u32>,
) -> LocationView {
    LocationView {
        name: method_logical_name(class_name, method_name, descriptor),
        kind: "function"@,
        physical: match artifact_uri {
            Some(uri) => Some(physical_spec(uri, line)),
            None => None,
        },
    }
}

/// The location of a class, given its artifact URI.
pub open spec fn class_location_spec(class_name: Seq<char>, artifact_uri: Option<Seq<char>>) -> LocationView {
    LocationView {
        name: class_name,
        kind: "type"@,
        physical: match artifact_uri {
            Some(uri) => Some(physical_spec(uri, None)),
            None => None,
        },
    }
}

fn physical_location(uri: &str, line: Option<u32>) -> (res: PhysicalLocation)
    ensures
        (res.uri@, res.start_line) == physical_spec(uri@, line),
{
    proof {
        reveal_strlit(".class");
    }
    if ends_with(uri, ".class") {
        match jar_container_uri(uri) {
            Some(container) => PhysicalLocation { uri: container, start_line: None },
            None => PhysicalLocation { uri: uri.to_owned(), start_line: line },
        }
    } else {
        PhysicalLocation { uri: uri.to_owned(), start_line: line }
    }
}

/// Location of a method, with its artifact and line when known.
pub fn method_location_with_line(
    class_name: &str,
    method_name: &str,
    descriptor: &str,
    artifact_uri: Option<&str>,
    line: Option<u32>,
) -> (res: Location)
    ensures
        res@ == method_location_spec(
            class_name@,
            method_name@,
            descriptor@,
            match artifact_uri {
                Some(u) => Some(u@),
                None => None,
            },
            line,
        ),
        res.logical.name@ == method_logical_name(class_name@, method_name@, descriptor@),
        res.logical.kind@ == "function"@,
        match artifact_uri {
            Some(uri) => res.physical is Some && (res.physical->0.uri@, res.physical->0.start_line)
                == physical_spec(uri@, line),
            None => res.physical is None,
        },
{
    let logical = method_logical_location(class_name, method_name, descriptor);
    match artifact_uri {
        Some(uri) => Location { logical, physical: Some(physical_location(uri, line)) },
        None => Location { logical, physical: None },
    }
}

/// Location of a class, with its artifact when known (never a line).
pub fn class_location(class_name: &str, artifact_uri: Option<&str>) -> (res: Location)
    ensures
        res@ == class_location_spec(
            class_name@,
            match artifact_uri {
                Some(u) => Some(u@),
                None => None,
            },
        ),
        res.logical.name@ == class_name@,
        res.logical.kind@ == "type"@,
        match artifact_uri {
            Some(uri) => res.physical is Some && (res.physical->0.uri@, res.physical->0.start_line)
                == physical_spec(uri@, None),
            None => res.physical is None,
        },
{
    let logical = LogicalLocation { name: class_name.to_owned(), kind: "type".to_owned() };
    match artifact_uri {
        Some(uri) => Location { logical, physical: Some(physical_location(uri, None)) },
        None => Location { logical, physical: None },
    }
}

/// A finding with one location, before its rule id is filled in.
pub fn finding(message: String, location: Location) -> (res: Finding)
    ensures
        res.rule_id is None,
        res.message == message,
        res.locations@ == seq![location],
        res@ == finding_spec(message@, location@),
{
    let mut locations: Vec<Location> = Vec::new();
    locations.push(location);
    let res = Finding { rule_id: None, message, locations };
    assert(res.locations@.map_values(|l: Location| l@) =~= seq![location@]);
    res
}

} // verus!
