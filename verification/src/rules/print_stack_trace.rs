//! Reports `printStackTrace()` calls on throwables.
use vstd::prelude::*;
use crate::engine::AnalysisContext;
use crate::error::AnalysisError;
use crate::rules::call_scan::{CallPattern, pattern_findings, run_pattern};
use crate::rules::location::{Finding, RuleMetadata, finding_views};
use crate::text::{ends_with, seq_ends_with, str_eq};

verus! {

/// The call is `printStackTrace` with no argument or a print stream or writer, on `Throwable` or a class whose name ends in `/Throwable`, `Exception` or `Error`.
pub open spec fn print_stack_trace_spec(owner: Seq<char>, name: Seq<char>, descriptor: Seq<char>) -> bool {
    name == "printStackTrace"@ && (descriptor == "()V"@ || descriptor == "(Ljava/io/PrintStream;)V"@ || descriptor == "(Ljava/io/PrintWriter;)V"@) && (owner == "java/lang/Throwable"@ || seq_ends_with(owner, "/Throwable"@) || seq_ends_with(owner, "Exception"@) || seq_ends_with(owner, "Error"@))
}

/// The call is `printStackTrace` with no argument or a print stream or writer, on `Throwable` or a class whose name ends in `/Throwable`, `Exception` or `Error`.
pub fn is_print_stack_trace_call(owner: &str, name: &str, descriptor: &str) -> (res: bool)
    ensures
        res == print_stack_trace_spec(owner@, name@, descriptor@),
{
    str_eq(name, "printStackTrace") && (str_eq(descriptor, "()V") || str_eq(descriptor, "(Ljava/io/PrintStream;)V") || str_eq(descriptor, "(Ljava/io/PrintWriter;)V")) && (str_eq(owner, "java/lang/Throwable") || ends_with(owner, "/Throwable") || ends_with(owner, "Exception") || ends_with(owner, "Error"))
}

/// Reports `printStackTrace()` calls on throwables.
#[derive(Clone, Copy, Debug)]
pub struct PrintStackTraceRule;

impl PrintStackTraceRule {
    /// The rule's id, name and description.
    pub fn metadata(&self) -> (res: RuleMetadata)
        ensures
            res.id@ == "PRINT_STACK_TRACE"@,
    {
        RuleMetadata {
            id: "PRINT_STACK_TRACE",
            name: "Direct printStackTrace call",
            description: "Throwable.printStackTrace should be replaced with structured logging",
        }
    }

    /// One finding per matching call in the analysis-target classes.
    pub fn run(&self, context: &AnalysisContext) -> (res: Result<Vec<Finding>, AnalysisError>)
        ensures
            res matches Ok(v) && finding_views(v@) == pattern_findings(CallPattern::PrintStackTrace, *context),
    {
        Ok(run_pattern(CallPattern::PrintStackTrace, context))
    }
}

} // verus!
