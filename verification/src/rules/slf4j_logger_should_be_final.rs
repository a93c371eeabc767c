//! Reports SLF4J `Logger` fields that are not final.
use vstd::prelude::*;
use crate::engine::AnalysisContext;
use crate::error::AnalysisError;
use crate::rules::field_scan::{FieldPattern, field_findings, run_field_pattern};
use crate::rules::location::{Finding, RuleMetadata, finding_views};

verus! {

/// Reports SLF4J `Logger` fields that are not final.
#[derive(Clone, Copy, Debug)]
pub struct Slf4jLoggerShouldBeFinalRule;

impl Slf4jLoggerShouldBeFinalRule {
    /// The rule's id, name and description.
    pub fn metadata(&self) -> (res: RuleMetadata)
        ensures
            res.id@ == "SLF4J_LOGGER_SHOULD_BE_FINAL"@,
    {
        RuleMetadata {
            id: "SLF4J_LOGGER_SHOULD_BE_FINAL",
            name: "SLF4J logger should be final",
            description: "SLF4J Logger fields should be final",
        }
    }

    /// Nothing when SLF4J is not in use; otherwise one finding per non-final
    /// `Logger` field of each analysis-target class.
    pub fn run(&self, context: &AnalysisContext) -> (res: Result<Vec<Finding>, AnalysisError>)
        ensures
            res matches Ok(v) && finding_views(v@) == if context.slf4j_present() {
                field_findings(FieldPattern::MutableSlf4jLogger, *context)
            } else {
                Seq::empty()
            },
    {
        if !context.has_slf4j() {
            let empty: Vec<Finding> = Vec::new();
            assert(finding_views(empty@) =~= Seq::empty());
            return Ok(empty);
        }
        Ok(run_field_pattern(FieldPattern::MutableSlf4jLogger, context))
    }
}

} // verus!
