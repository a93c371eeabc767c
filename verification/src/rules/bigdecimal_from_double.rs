//! Reports `BigDecimal` constructors that take a `double`.
use vstd::prelude::*;
use crate::engine::AnalysisContext;
use crate::error::AnalysisError;
use crate::rules::call_scan::{CallPattern, pattern_findings, run_pattern};
use crate::rules::location::{Finding, RuleMetadata, finding_views};
use crate::text::str_eq;

verus! {

/// The call is a `BigDecimal` constructor taking a `double` (optionally with a `MathContext`).
pub open spec fn bigdecimal_double_constructor_spec(owner: Seq<char>, name: Seq<char>, descriptor: Seq<char>) -> bool {
    owner == "java/math/BigDecimal"@ && name == "<init>"@ && (descriptor == "(D)V"@ || descriptor == "(DLjava/math/MathContext;)V"@)
}

/// The call is a `BigDecimal` constructor taking a `double` (optionally with a `MathContext`).
pub fn is_bigdecimal_double_constructor(owner: &str, name: &str, descriptor: &str) -> (res: bool)
    ensures
        res == bigdecimal_double_constructor_spec(owner@, name@, descriptor@),
{
    str_eq(owner, "java/math/BigDecimal") && str_eq(name, "<init>") && (str_eq(descriptor, "(D)V") || str_eq(descriptor, "(DLjava/math/MathContext;)V"))
}

/// Reports `BigDecimal` constructors that take a `double`.
#[derive(Clone, Copy, Debug)]
pub struct BigDecimalFromDoubleRule;

impl BigDecimalFromDoubleRule {
    /// The rule's id, name and description.
    pub fn metadata(&self) -> (res: RuleMetadata)
        ensures
            res.id@ == "BIGDECIMAL_FROM_DOUBLE"@,
    {
        RuleMetadata {
            id: "BIGDECIMAL_FROM_DOUBLE",
            name: "BigDecimal from double",
            description: "BigDecimal constructors with double can introduce precision surprises",
        }
    }

    /// One finding per matching call in the analysis-target classes.
    pub fn run(&self, context: &AnalysisContext) -> (res: Result<Vec<Finding>, AnalysisError>)
        ensures
            res matches Ok(v) && finding_views(v@) == pattern_findings(CallPattern::BigDecimalFromDouble, *context),
    {
        Ok(run_pattern(CallPattern::BigDecimalFromDouble, context))
    }
}

} // verus!
