//! Reports `Long.getLong(...)` calls.
use vstd::prelude::*;
use crate::engine::AnalysisContext;
use crate::error::AnalysisError;
use crate::rules::call_scan::{CallPattern, pattern_findings, run_pattern};
use crate::rules::location::{Finding, RuleMetadata, finding_views};
use crate::text::str_eq;

verus! {

/// The call is one of the three `Long.getLong` overloads.
pub open spec fn long_getlong_spec(owner: Seq<char>, name: Seq<char>, descriptor: Seq<char>) -> bool {
    owner == "java/lang/Long"@ && name == "getLong"@ && (descriptor == "(Ljava/lang/String;)Ljava/lang/Long;"@ || descriptor == "(Ljava/lang/String;J)Ljava/lang/Long;"@ || descriptor == "(Ljava/lang/String;Ljava/lang/Long;)Ljava/lang/Long;"@)
}

/// The call is one of the three `Long.getLong` overloads.
pub fn is_long_getlong_call(owner: &str, name: &str, descriptor: &str) -> (res: bool)
    ensures
        res == long_getlong_spec(owner@, name@, descriptor@),
{
    str_eq(owner, "java/lang/Long") && str_eq(name, "getLong") && (str_eq(descriptor, "(Ljava/lang/String;)Ljava/lang/Long;") || str_eq(descriptor, "(Ljava/lang/String;J)Ljava/lang/Long;") || str_eq(descriptor, "(Ljava/lang/String;Ljava/lang/Long;)Ljava/lang/Long;"))
}

/// Reports `Long.getLong(...)` calls.
#[derive(Clone, Copy, Debug)]
pub struct LongGetLongCallRule;

impl LongGetLongCallRule {
    /// The rule's id, name and description.
    pub fn metadata(&self) -> (res: RuleMetadata)
        ensures
            res.id@ == "LONG_GETLONG_CALL"@,
    {
        RuleMetadata {
            id: "LONG_GETLONG_CALL",
            name: "Long.getLong call",
            description: "Long.getLong reads system properties, not numeric input strings",
        }
    }

    /// One finding per matching call in the analysis-target classes.
    pub fn run(&self, context: &AnalysisContext) -> (res: Result<Vec<Finding>, AnalysisError>)
        ensures
            res matches Ok(v) && finding_views(v@) == pattern_findings(CallPattern::LongGetLong, *context),
    {
        Ok(run_pattern(CallPattern::LongGetLong, context))
    }
}

} // verus!
