//! Reports direct `BigDecimal.equals(Object)` calls.
use vstd::prelude::*;
use crate::engine::AnalysisContext;
use crate::error::AnalysisError;
use crate::rules::call_scan::{CallPattern, pattern_findings, run_pattern};
use crate::rules::location::{Finding, RuleMetadata, finding_views};
use crate::text::str_eq;

verus! {

/// The call is `BigDecimal.equals(Object)`.
pub open spec fn bigdecimal_equals_spec(owner: Seq<char>, name: Seq<char>, descriptor: Seq<char>) -> bool {
    owner == "java/math/BigDecimal"@ && name == "equals"@ && descriptor == "(Ljava/lang/Object;)Z"@
}

/// The call is `BigDecimal.equals(Object)`.
pub fn is_bigdecimal_equals_call(owner: &str, name: &str, descriptor: &str) -> (res: bool)
    ensures
        res == bigdecimal_equals_spec(owner@, name@, descriptor@),
{
    str_eq(owner, "java/math/BigDecimal") && str_eq(name, "equals") && str_eq(descriptor, "(Ljava/lang/Object;)Z")
}

/// Reports direct `BigDecimal.equals(Object)` calls.
#[derive(Clone, Copy, Debug)]
pub struct BigDecimalEqualsCallRule;

impl BigDecimalEqualsCallRule {
    /// The rule's id, name and description.
    pub fn metadata(&self) -> (res: RuleMetadata)
        ensures
            res.id@ == "BIGDECIMAL_EQUALS_CALL"@,
    {
        RuleMetadata {
            id: "BIGDECIMAL_EQUALS_CALL",
            name: "BigDecimal equals call",
            description: "BigDecimal.equals compares value and scale instead of numeric equality",
        }
    }

    /// One finding per matching call in the analysis-target classes.
    pub fn run(&self, context: &AnalysisContext) -> (res: Result<Vec<Finding>, AnalysisError>)
        ensures
            res matches Ok(v) && finding_views(v@) == pattern_findings(CallPattern::BigDecimalEquals, *context),
    {
        Ok(run_pattern(CallPattern::BigDecimalEquals, context))
    }
}

} // verus!
