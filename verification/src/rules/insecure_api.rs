//! Reports calls to process-spawning and reflection APIs.
use vstd::prelude::*;
use crate::engine::AnalysisContext;
use crate::error::AnalysisError;
use crate::rules::call_scan::{CallPattern, pattern_findings, run_pattern};
use crate::rules::location::{Finding, RuleMetadata, finding_views};
use crate::text::str_eq;

verus! {

/// The call is one of `Runtime.exec`, `new ProcessBuilder`, `ProcessBuilder.start`, `Method.invoke`, `Constructor.newInstance`, `Class.forName`.
pub open spec fn insecure_call_spec(owner: Seq<char>, name: Seq<char>) -> bool {
    (owner == "java/lang/Runtime"@ && name == "exec"@) || (owner == "java/lang/ProcessBuilder"@ && name == "<init>"@) || (owner == "java/lang/ProcessBuilder"@ && name == "start"@) || (owner == "java/lang/reflect/Method"@ && name == "invoke"@) || (owner == "java/lang/reflect/Constructor"@ && name == "newInstance"@) || (owner == "java/lang/Class"@ && name == "forName"@)
}

/// The call is one of `Runtime.exec`, `new ProcessBuilder`, `ProcessBuilder.start`, `Method.invoke`, `Constructor.newInstance`, `Class.forName`.
pub fn is_insecure_call(owner: &str, name: &str) -> (res: bool)
    ensures
        res == insecure_call_spec(owner@, name@),
{
    (str_eq(owner, "java/lang/Runtime") && str_eq(name, "exec")) || (str_eq(owner, "java/lang/ProcessBuilder") && str_eq(name, "<init>")) || (str_eq(owner, "java/lang/ProcessBuilder") && str_eq(name, "start")) || (str_eq(owner, "java/lang/reflect/Method") && str_eq(name, "invoke")) || (str_eq(owner, "java/lang/reflect/Constructor") && str_eq(name, "newInstance")) || (str_eq(owner, "java/lang/Class") && str_eq(name, "forName"))
}

/// Reports calls to process-spawning and reflection APIs.
#[derive(Clone, Copy, Debug)]
pub struct InsecureApiRule;

impl InsecureApiRule {
    /// The rule's id, name and description.
    pub fn metadata(&self) -> (res: RuleMetadata)
        ensures
            res.id@ == "INSECURE_API"@,
    {
        RuleMetadata {
            id: "INSECURE_API",
            name: "Insecure API usage",
            description: "Calls to insecure process or reflection APIs",
        }
    }

    /// One finding per matching call in the analysis-target classes.
    pub fn run(&self, context: &AnalysisContext) -> (res: Result<Vec<Finding>, AnalysisError>)
        ensures
            res matches Ok(v) && finding_views(v@) == pattern_findings(CallPattern::InsecureApi, *context),
    {
        Ok(run_pattern(CallPattern::InsecureApi, context))
    }
}

} // verus!
