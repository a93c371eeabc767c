//! Reports classes that override exactly one of `equals` and `hashCode`.
use vstd::prelude::*;
use crate::engine::{AnalysisContext, opt_view};
use crate::error::AnalysisError;
use crate::flatten::{concat_map, lemma_concat_map_empty, lemma_concat_map_full, lemma_concat_map_step};
use crate::ir::{Class, Method};
use crate::rules::location::{
    Finding, FindingView, RuleMetadata, class_location, class_location_spec, finding, finding_spec,
    finding_views, push_finding,
};
use crate::text::str_eq;

verus! {

/// The class declares `equals(Object)`.
pub open spec fn declares_equals(c: Class) -> bool {
    exists|i: int|
        0 <= i < c.methods@.len() && (#[trigger] c.methods@[i]).name@ == "equals"@
            && c.methods@[i].descriptor@ == "(Ljava/lang/Object;)Z"@
}

/// The class declares `hashCode()`.
pub open spec fn declares_hash_code(c: Class) -> bool {
    exists|i: int|
        0 <= i < c.methods@.len() && (#[trigger] c.methods@[i]).name@ == "hashCode"@
            && c.methods@[i].descriptor@ == "()I"@
}

/// The finding for a class that overrides only one of the pair.
pub open spec fn equals_hash_code_findings(uri: Option<Seq<char>>, c: Class) -> Seq<FindingView> {
    if declares_equals(c) && !declares_hash_code(c) {
        seq![finding_spec(
            "Class "@ + c.name@ + " overrides equals without hashCode"@,
            class_location_spec(c.name@, uri),
        )]
    } else if !declares_equals(c) && declares_hash_code(c) {
        seq![finding_spec(
            "Class "@ + c.name@ + " overrides hashCode without equals"@,
            class_location_spec(c.name@, uri),
        )]
    } else {
        seq![]
    }
}

/// The rule's findings over the analysis-target classes, in order.
pub open spec fn ineffective_equals_findings(ctx: AnalysisContext) -> Seq<FindingView> {
    concat_map(ctx.targets(), |c: Class| equals_hash_code_findings(ctx.class_uri(c), c))
}

fn equals_and_hash_code(class: &Class) -> (res: (bool, bool))
    ensures
        res.0 == declares_equals(*class),
        res.1 == declares_hash_code(*class),
{
    let mut has_equals = false;
    let mut has_hashcode = false;
    let mut i: usize = 0;
    while i < class.methods.len()
        invariant
            i <= class.methods@.len(),
            has_equals == exists|k: int|
                0 <= k < i && (#[trigger] class.methods@[k]).name@ == "equals"@
                    && class.methods@[k].descriptor@ == "(Ljava/lang/Object;)Z"@,
            has_hashcode == exists|k: int|
                0 <= k < i && (#[trigger] class.methods@[k]).name@ == "hashCode"@
                    && class.methods@[k].descriptor@ == "()I"@,
        decreases class.methods.len() - i,
    {
        let method: &Method = &class.methods[i];
        if str_eq(method.name.as_str(), "equals") && str_eq(method.descriptor.as_str(), "(Ljava/lang/Object;)Z") {
            has_equals = true;
        }
        if str_eq(method.name.as_str(), "hashCode") && str_eq(method.descriptor.as_str(), "()I") {
            has_hashcode = true;
        }
        i = i + 1;
    }
    (has_equals, has_hashcode)
}

/// Reports classes that override exactly one of `equals` and `hashCode`.
#[derive(Clone, Copy, Debug)]
pub struct IneffectiveEqualsRule;

impl IneffectiveEqualsRule {
    /// The rule's id, name and description.
    pub fn metadata(&self) -> (res: RuleMetadata)
        ensures
            res.id@ == "INEFFECTIVE_EQUALS_HASHCODE"@,
    {
        RuleMetadata {
            id: "INEFFECTIVE_EQUALS_HASHCODE",
            name: "Ineffective equals/hashCode",
            description: "Classes with equals without hashCode or vice versa",
        }
    }

    /// One finding per analysis-target class that declares `equals(Object)`
    /// without `hashCode()` or the reverse.
    pub fn run(&self, context: &AnalysisContext) -> (res: Result<Vec<Finding>, AnalysisError>)
        ensures
            res matches Ok(v) && finding_views(v@) == ineffective_equals_findings(*context),
    {
        let classes = context.analysis_target_classes();
        let ghost g = |c: Class| equals_hash_code_findings(context.class_uri(c), c);
        let mut results: Vec<Finding> = Vec::new();
        proof {
            lemma_concat_map_empty(classes@, g);
            assert(finding_views(results@) =~= Seq::<FindingView>::empty());
        }
        let mut i: usize = 0;
        while i < classes.len()
            invariant
                i <= classes@.len(),
                classes@ == context.targets(),
                g == (|c: Class| equals_hash_code_findings(context.class_uri(c), c)),
                finding_views(results@) == concat_map(classes@.take(i as int), g),
            decreases classes.len() - i,
        {
            let class = &classes[i];
            proof {
                lemma_concat_map_step(classes@, g, i as int);
            }
            let (has_equals, has_hashcode) = equals_and_hash_code(class);
            if has_equals != has_hashcode {
                let mut message = "Class ".to_owned();
                message.append(class.name.as_str());
                if has_equals {
                    message.append(" overrides equals without hashCode");
                } else {
                    message.append(" overrides hashCode without equals");
                }
                let uri = context.class_artifact_uri(class);
                let artifact_uri: Option<&str> = match &uri {
                    Some(s) => Some(s.as_str()),
                    None => None,
                };
                let location = class_location(class.name.as_str(), artifact_uri);
                push_finding(&mut results, finding(message, location));
            }
            proof {
                assert(finding_views(results@) =~= concat_map(classes@.take(i + 1), g));
            }
            i = i + 1;
        }
        proof {
            lemma_concat_map_full(classes@, g);
        }
        Ok(results)
    }
}

} // verus!
