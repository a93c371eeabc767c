//! Reports `File.deleteOnExit()` calls.
use vstd::prelude::*;
use crate::engine::AnalysisContext;
use crate::error::AnalysisError;
use crate::rules::call_scan::{CallPattern, pattern_findings, run_pattern};
use crate::rules::location::{Finding, RuleMetadata, finding_views};
use crate::text::str_eq;

verus! {

/// The call is `File.deleteOnExit()`.
pub open spec fn delete_on_exit_spec(owner: Seq<char>, name: Seq<char>, descriptor: Seq<char>) -> bool {
    owner == "java/io/File"@ && name == "deleteOnExit"@ && descriptor == "()V"@
}

/// The call is `File.deleteOnExit()`.
pub fn is_delete_on_exit_call(owner: &str, name: &str, descriptor: &str) -> (res: bool)
    ensures
        res == delete_on_exit_spec(owner@, name@, descriptor@),
{
    str_eq(owner, "java/io/File") && str_eq(name, "deleteOnExit") && str_eq(descriptor, "()V")
}

/// Reports `File.deleteOnExit()` calls.
#[derive(Clone, Copy, Debug)]
pub struct DeleteOnExitCallRule;

impl DeleteOnExitCallRule {
    /// The rule's id, name and description.
    pub fn metadata(&self) -> (res: RuleMetadata)
        ensures
            res.id@ == "DELETE_ON_EXIT_CALL"@,
    {
        RuleMetadata {
            id: "DELETE_ON_EXIT_CALL",
            name: "File.deleteOnExit call",
            description: "File.deleteOnExit can accumulate pending deletions in long-lived processes",
        }
    }

    /// One finding per matching call in the analysis-target classes.
    pub fn run(&self, context: &AnalysisContext) -> (res: Result<Vec<Finding>, AnalysisError>)
        ensures
            res matches Ok(v) && finding_views(v@) == pattern_findings(CallPattern::DeleteOnExit, *context),
    {
        Ok(run_pattern(CallPattern::DeleteOnExit, context))
    }
}

} // verus!
