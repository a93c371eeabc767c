//! Reports `ObjectInputStream.readObject()` and `readUnshared()` calls.
use vstd::prelude::*;
use crate::engine::AnalysisContext;
use crate::error::AnalysisError;
use crate::rules::call_scan::{CallPattern, pattern_findings, run_pattern};
use crate::rules::location::{Finding, RuleMetadata, finding_views};
use crate::text::str_eq;

verus! {

/// The call is `ObjectInputStream.readObject()` or `readUnshared()`.
pub open spec fn deserialization_entry_spec(owner: Seq<char>, name: Seq<char>, descriptor: Seq<char>) -> bool {
    owner == "java/io/ObjectInputStream"@ && (name == "readObject"@ || name == "readUnshared"@) && descriptor == "()Ljava/lang/Object;"@
}

/// The call is `ObjectInputStream.readObject()` or `readUnshared()`.
pub fn is_deserialization_entry(owner: &str, name: &str, descriptor: &str) -> (res: bool)
    ensures
        res == deserialization_entry_spec(owner@, name@, descriptor@),
{
    str_eq(owner, "java/io/ObjectInputStream") && (str_eq(name, "readObject") || str_eq(name, "readUnshared")) && str_eq(descriptor, "()Ljava/lang/Object;")
}

/// Reports `ObjectInputStream.readObject()` and `readUnshared()` calls.
#[derive(Clone, Copy, Debug)]
pub struct DeserializationReadObjectCallRule;

impl DeserializationReadObjectCallRule {
    /// The rule's id, name and description.
    pub fn metadata(&self) -> (res: RuleMetadata)
        ensures
            res.id@ == "DESERIALIZATION_READ_OBJECT_CALL"@,
    {
        RuleMetadata {
            id: "DESERIALIZATION_READ_OBJECT_CALL",
            name: "ObjectInputStream deserialization call",
            description: "readObject/readUnshared are high-risk Java deserialization entry points",
        }
    }

    /// One finding per matching call in the analysis-target classes.
    pub fn run(&self, context: &AnalysisContext) -> (res: Result<Vec<Finding>, AnalysisError>)
        ensures
            res matches Ok(v) && finding_views(v@) == pattern_findings(CallPattern::DeserializationReadObject, *context),
    {
        Ok(run_pattern(CallPattern::DeserializationReadObject, context))
    }
}

} // verus!
