//! Reports record components whose type is an array.
use vstd::prelude::*;
use crate::engine::AnalysisContext;
use crate::error::AnalysisError;
use crate::rules::field_scan::{FieldPattern, field_findings, run_field_pattern};
use crate::rules::location::{Finding, RuleMetadata, finding_views};

verus! {

/// Reports record components whose type is an array.
#[derive(Clone, Copy, Debug)]
pub struct RecordArrayFieldRule;

impl RecordArrayFieldRule {
    /// The rule's id, name and description.
    pub fn metadata(&self) -> (res: RuleMetadata)
        ensures
            res.id@ == "RECORD_ARRAY_FIELD"@,
    {
        RuleMetadata {
            id: "RECORD_ARRAY_FIELD",
            name: "Record array field",
            description: "Records should not use array-typed components",
        }
    }

    /// One finding per array-typed instance field of each analysis-target record.
    pub fn run(&self, context: &AnalysisContext) -> (res: Result<Vec<Finding>, AnalysisError>)
        ensures
            res matches Ok(v) && finding_views(v@) == field_findings(FieldPattern::RecordArrayComponent, *context),
    {
        Ok(run_field_pattern(FieldPattern::RecordArrayComponent, context))
    }
}

} // verus!
