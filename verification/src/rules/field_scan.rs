//! Rules that report fields, once per matching field, at their class.
use vstd::prelude::*;
use crate::engine::{AnalysisContext, opt_view};
use crate::flatten::{concat_map, lemma_concat_map_empty, lemma_concat_map_full, lemma_concat_map_step};
use crate::ir::{Class, Field};
use crate::rules::location::{
    Finding, FindingView, class_location, class_location_spec, finding, finding_spec, finding_views,
    push_finding,
};
use crate::text::{seq_starts_with, starts_with, str_eq};

verus! {

/// The field patterns reported one finding per matching field.
#[derive(Clone, Copy, Debug, PartialEq, Eq, Structural)]
pub enum FieldPattern {
    /// Instance fields of records whose type is an array.
    RecordArrayComponent,
    /// SLF4J `Logger` fields that are not final.
    MutableSlf4jLogger,
}

/// Whether a field of class `c` matches the pattern.
pub open spec fn field_matches(p: FieldPattern, c: Class, f: Field) -> bool {
    match p {
        FieldPattern::RecordArrayComponent => c.is_record && !f.access.is_static && seq_starts_with(
            f.descriptor@,
            "["@,
        ),
        FieldPattern::MutableSlf4jLogger => f.descriptor@ == "Lorg/slf4j/Logger;"@ && !f.access.is_final,
    }
}

/// The message reported for a matching field.
pub open spec fn field_message(p: FieldPattern, c: Class, f: Field) -> Seq<char> {
    match p {
        FieldPattern::RecordArrayComponent => "Record component uses array type: "@ + c.name@ + "."@
            + f.name@ + " ("@ + f.descriptor@ + ")"@,
        FieldPattern::MutableSlf4jLogger => "Logger field should be final: "@ + c.name@ + "."@ + f.name@,
    }
}

/// The artifact URI reported with the class location: record components are
/// reported at the bare class.
pub open spec fn field_uri(p: FieldPattern, uri: Option<Seq<char>>) -> Option<Seq<char>> {
    match p {
        FieldPattern::RecordArrayComponent => None,
        FieldPattern::MutableSlf4jLogger => uri,
    }
}

/// The findings for one field.
pub open spec fn one_field_findings(p: FieldPattern, uri: Option<Seq<char>>, c: Class, f: Field) -> Seq<FindingView> {
    if field_matches(p, c, f) {
        seq![finding_spec(field_message(p, c, f), class_location_spec(c.name@, field_uri(p, uri)))]
    } else {
        seq![]
    }
}

/// The findings for the fields of a class, in field order.
pub open spec fn class_field_findings(p: FieldPattern, uri: Option<Seq<char>>, c: Class) -> Seq<FindingView> {
    concat_map(c.fields@, |f: Field| one_field_findings(p, uri, c, f))
}

/// The findings of a field rule over the analysis-target classes, in order.
pub open spec fn field_findings(p: FieldPattern, ctx: AnalysisContext) -> Seq<FindingView> {
    concat_map(ctx.targets(), |c: Class| class_field_findings(p, ctx.class_uri(c), c))
}

fn matches_field(p: FieldPattern, class: &Class, field: &Field) -> (res: bool)
    ensures
        res == field_matches(p, *class, *field),
{
    match p {
        FieldPattern::RecordArrayComponent => class.is_record && !field.access.is_static && starts_with(
            field.descriptor.as_str(),
            "[",
        ),
        FieldPattern::MutableSlf4jLogger => str_eq(field.descriptor.as_str(), "Lorg/slf4j/Logger;")
            && !field.access.is_final,
    }
}

fn message_for(p: FieldPattern, class: &Class, field: &Field) -> (res: String)
    ensures
        res@ == field_message(p, *class, *field),
{
    proof {
        reveal_strlit(".");
        reveal_strlit(" (");
        reveal_strlit(")");
    }
    match p {
        FieldPattern::RecordArrayComponent => {
            let mut out = "Record component uses array type: ".to_owned();
            out.append(class.name.as_str());
            out.append(".");
            out.append(field.name.as_str());
            out.append(" (");
            out.append(field.descriptor.as_str());
            out.append(")");
            out
        },
        FieldPattern::MutableSlf4jLogger => {
            let mut out = "Logger field should be final: ".to_owned();
            out.append(class.name.as_str());
            out.append(".");
            out.append(field.name.as_str());
            out
        },
    }
}

/// Runs a field rule over the analysis-target classes.
pub fn run_field_pattern(p: FieldPattern, context: &AnalysisContext) -> (res: Vec<Finding>)
    ensures
        finding_views(res@) == field_findings(p, *context),
{
    let classes = context.analysis_target_classes();
    let ghost g = |c: Class| class_field_findings(p, context.class_uri(c), c);
    let mut results: Vec<Finding> = Vec::new();
    proof {
        lemma_concat_map_empty(classes@, g);
        assert(finding_views(results@) =~= Seq::<FindingView>::empty());
    }
    let mut i: usize = 0;
    while i < classes.len()
        invariant
            i <= classes@.len(),
            classes@ == context.targets(),
            g == (|c: Class| class_field_findings(p, context.class_uri(c), c)),
            finding_views(results@) == concat_map(classes@.take(i as int), g),
        decreases classes.len() - i,
    {
        let class = &classes[i];
        let uri = context.class_artifact_uri(class);
        let ghost u = opt_view(uri);
        let ghost h = |f: Field| one_field_findings(p, u, *class, f);
        let ghost start = finding_views(results@);
        proof {
            lemma_concat_map_step(classes@, g, i as int);
            lemma_concat_map_empty(class.fields@, h);
            assert(start + concat_map(class.fields@.take(0), h) =~= start);
        }
        let mut j: usize = 0;
        while j < class.fields.len()
            invariant
                j <= class.fields@.len(),
                u == opt_view(uri),
                h == (|f: Field| one_field_findings(p, u, *class, f)),
                finding_views(results@) == start + concat_map(class.fields@.take(j as int), h),
            decreases class.fields.len() - j,
        {
            let field = &class.fields[j];
            proof {
                lemma_concat_map_step(class.fields@, h, j as int);
            }
            if matches_field(p, class, field) {
                let message = message_for(p, class, field);
                let artifact_uri: Option<&str> = match p {
                    FieldPattern::RecordArrayComponent => None,
                    FieldPattern::MutableSlf4jLogger => match &uri {
                        Some(s) => Some(s.as_str()),
                        None => None,
                    },
                };
                let location = class_location(class.name.as_str(), artifact_uri);
                push_finding(&mut results, finding(message, location));
            }
            proof {
                assert(finding_views(results@) =~= start + concat_map(class.fields@.take(j + 1), h));
            }
            j = j + 1;
        }
        proof {
            lemma_concat_map_full(class.fields@, h);
            assert(finding_views(results@) =~= concat_map(classes@.take(i + 1), g));
        }
        i = i + 1;
    }
    proof {
        lemma_concat_map_full(classes@, g);
    }
    results
}

} // verus!
