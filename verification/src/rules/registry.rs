//! The rules the engine runs, and what each of them reports.
use vstd::prelude::*;
use crate::engine::AnalysisContext;
use crate::error::AnalysisError;
use crate::rules::call_scan::{CallPattern, pattern_findings};
use crate::rules::field_scan::{FieldPattern, field_findings};
use crate::rules::location::{Finding, FindingView, RuleMetadata, finding_views};
use crate::rules::array_equals::{ArrayEqualsRule, reports_array_comparison};
use crate::rules::autocloseable_not_closed::{UnmanagedAutocloseableRule, reports_unclosed};
use crate::rules::bigdecimal_equals_call::{BigDecimalEqualsCallRule};
use crate::rules::bigdecimal_from_double::{BigDecimalFromDoubleRule};
use crate::rules::delete_on_exit_call::{DeleteOnExitCallRule};
use crate::rules::deserialization_read_object_call::{DeserializationReadObjectCallRule};
use crate::rules::exception_cause_not_preserved::{ExceptionCauseNotPreservedRule, reports_lost_cause};
use crate::rules::executor_service_not_shutdown::{ExecutorServiceNotShutdownRule, reports_unstopped};
use crate::rules::future_wait_while_holding_lock::{FutureWaitWhileHoldingLockRule, reports_wait};
use crate::rules::ineffective_equals::{IneffectiveEqualsRule, ineffective_equals_findings};
use crate::rules::interrupted_exception::{InterruptedExceptionRule, reports_interrupted_handler};
use crate::rules::log4j2_unknown_array::{Log4j2UnknownArrayRule, log4j_targets_findings, reports_unknown_array};
use crate::rules::long_getlong_call::{LongGetLongCallRule};
use crate::rules::mutate_unmodifiable_collection::{MutateUnmodifiableCollectionRule, mutation_targets_findings, reports_mutation};
use crate::rules::nullness::{NullnessRule, nullness_findings, reports_nullness};
use crate::rules::prefer_enumset::{PreferEnumSetRule, prefer_enumset_findings};
use crate::rules::print_stack_trace::{PrintStackTraceRule};
use crate::rules::return_in_finally::{ReturnInFinallyRule, reports_return_in_finally};
use crate::rules::slf4j_logger_should_be_final::{Slf4jLoggerShouldBeFinalRule};

verus! {

/// A rule the engine runs.
#[derive(Clone, Copy, Debug, PartialEq, Eq, Structural)]
pub enum RuleKind {
    ArrayEquals,
    UnmanagedAutocloseable,
    BigDecimalEqualsCall,
    BigDecimalFromDouble,
    DeleteOnExitCall,
    DeserializationReadObjectCall,
    ExceptionCauseNotPreserved,
    ExecutorServiceNotShutdown,
    FutureWaitWhileHoldingLock,
    IneffectiveEquals,
    InterruptedException,
    Log4j2UnknownArray,
    LongGetLongCall,
    MutateUnmodifiableCollection,
    Nullness,
    PreferEnumSet,
    PrintStackTrace,
    ReturnInFinally,
    Slf4jLoggerShouldBeFinal,
}

/// The id of a rule.
pub open spec fn rule_id_of(kind: RuleKind) -> Seq<char> {
    match kind {
        RuleKind::ArrayEquals => "ARRAY_EQUALS"@,
        RuleKind::UnmanagedAutocloseable => "AUTOCLOSEABLE_NOT_CLOSED"@,
        RuleKind::BigDecimalEqualsCall => "BIGDECIMAL_EQUALS_CALL"@,
        RuleKind::BigDecimalFromDouble => "BIGDECIMAL_FROM_DOUBLE"@,
        RuleKind::DeleteOnExitCall => "DELETE_ON_EXIT_CALL"@,
        RuleKind::DeserializationReadObjectCall => "DESERIALIZATION_READ_OBJECT_CALL"@,
        RuleKind::ExceptionCauseNotPreserved => "EXCEPTION_CAUSE_NOT_PRESERVED"@,
        RuleKind::ExecutorServiceNotShutdown => "EXECUTOR_SERVICE_NOT_SHUTDOWN"@,
        RuleKind::FutureWaitWhileHoldingLock => "FUTURE_WAIT_WHILE_HOLDING_LOCK"@,
        RuleKind::IneffectiveEquals => "INEFFECTIVE_EQUALS_HASHCODE"@,
        RuleKind::InterruptedException => "INTERRUPTED_EXCEPTION_NOT_RESTORED"@,
        RuleKind::Log4j2UnknownArray => "LOG4J2_UNKNOWN_ARRAY"@,
        RuleKind::LongGetLongCall => "LONG_GETLONG_CALL"@,
        RuleKind::MutateUnmodifiableCollection => "MUTATE_UNMODIFIABLE_COLLECTION"@,
        RuleKind::Nullness => "NULLNESS"@,
        RuleKind::PreferEnumSet => "PREFER_ENUMSET"@,
        RuleKind::PrintStackTrace => "PRINT_STACK_TRACE"@,
        RuleKind::ReturnInFinally => "RETURN_IN_FINALLY"@,
        RuleKind::Slf4jLoggerShouldBeFinal => "SLF4J_LOGGER_SHOULD_BE_FINAL"@,
    }
}

/// `out` is what the rule reports on the context.
pub open spec fn rule_run_ok(kind: RuleKind, ctx: AnalysisContext, out: Seq<FindingView>) -> bool {
    match kind {
        RuleKind::ArrayEquals => forall|i: int| 0 <= i < out.len() ==> reports_array_comparison(ctx, #[trigger] out[i]),
        RuleKind::UnmanagedAutocloseable => forall|i: int| 0 <= i < out.len() ==> reports_unclosed(ctx, #[trigger] out[i]),
        RuleKind::BigDecimalEqualsCall => out == pattern_findings(CallPattern::BigDecimalEquals, ctx),
        RuleKind::BigDecimalFromDouble => out == pattern_findings(CallPattern::BigDecimalFromDouble, ctx),
        RuleKind::DeleteOnExitCall => out == pattern_findings(CallPattern::DeleteOnExit, ctx),
        RuleKind::DeserializationReadObjectCall => out == pattern_findings(CallPattern::DeserializationReadObject, ctx),
        RuleKind::ExceptionCauseNotPreserved => forall|i: int| 0 <= i < out.len() ==> reports_lost_cause(ctx, #[trigger] out[i]),
        RuleKind::ExecutorServiceNotShutdown => forall|i: int| 0 <= i < out.len() ==> reports_unstopped(ctx, #[trigger] out[i]),
        RuleKind::FutureWaitWhileHoldingLock => forall|i: int| 0 <= i < out.len() ==> reports_wait(ctx, #[trigger] out[i]),
        RuleKind::IneffectiveEquals => out == ineffective_equals_findings(ctx),
        RuleKind::InterruptedException => forall|i: int| 0 <= i < out.len() ==> reports_interrupted_handler(ctx, #[trigger] out[i]),
        RuleKind::Log4j2UnknownArray => (!ctx.log4j2_present() ==> out.len() == 0) && (ctx.log4j2_present()
            ==> log4j_targets_findings(ctx, ctx.targets().len() as int) == Some(out)) && forall|i: int|
            0 <= i < out.len() ==> reports_unknown_array(ctx, #[trigger] out[i]),
        RuleKind::LongGetLongCall => out == pattern_findings(CallPattern::LongGetLong, ctx),
        RuleKind::MutateUnmodifiableCollection => mutation_targets_findings(ctx, ctx.targets().len() as int) == Some(out)
            && forall|i: int| 0 <= i < out.len() ==> reports_mutation(ctx, #[trigger] out[i]),
        RuleKind::Nullness => nullness_findings(ctx) == Some(out) && forall|i: int|
            0 <= i < out.len() ==> reports_nullness(ctx, #[trigger] out[i]),
        RuleKind::PreferEnumSet => out == prefer_enumset_findings(ctx),
        RuleKind::PrintStackTrace => out == pattern_findings(CallPattern::PrintStackTrace, ctx),
        RuleKind::ReturnInFinally => forall|i: int| 0 <= i < out.len() ==> reports_return_in_finally(ctx, #[trigger] out[i]),
        RuleKind::Slf4jLoggerShouldBeFinal => out == if ctx.slf4j_present() { field_findings(FieldPattern::MutableSlf4jLogger, ctx) } else { Seq::empty() },
    }
}

/// The rule may fail on a context (with an analysis error).
pub open spec fn rule_may_fail(kind: RuleKind) -> bool {
    kind == RuleKind::ArrayEquals || kind == RuleKind::UnmanagedAutocloseable || kind == RuleKind::ExceptionCauseNotPreserved || kind == RuleKind::ExecutorServiceNotShutdown || kind == RuleKind::FutureWaitWhileHoldingLock || kind == RuleKind::InterruptedException || kind == RuleKind::Log4j2UnknownArray || kind == RuleKind::MutateUnmodifiableCollection || kind == RuleKind::Nullness || kind == RuleKind::ReturnInFinally
}

/// The rule fails on the context: for a rule whose result is stated
/// exactly, when its analysis stops with an error there; for the others,
/// whenever it may fail at all.
pub open spec fn rule_fails_on(kind: RuleKind, ctx: AnalysisContext) -> bool {
    match kind {
        RuleKind::Log4j2UnknownArray => ctx.log4j2_present() && log4j_targets_findings(ctx, ctx.targets().len() as int) is None,
        RuleKind::MutateUnmodifiableCollection => mutation_targets_findings(ctx, ctx.targets().len() as int) is None,
        RuleKind::Nullness => nullness_findings(ctx) is None,
        _ => rule_may_fail(kind),
    }
}

impl RuleKind {
    /// The rule's id, name and description.
    pub fn metadata(&self) -> (res: RuleMetadata)
        ensures
            res.id@ == rule_id_of(*self),
    {
        match self {
            RuleKind::ArrayEquals => ArrayEqualsRule.metadata(),
            RuleKind::UnmanagedAutocloseable => UnmanagedAutocloseableRule.metadata(),
            RuleKind::BigDecimalEqualsCall => BigDecimalEqualsCallRule.metadata(),
            RuleKind::BigDecimalFromDouble => BigDecimalFromDoubleRule.metadata(),
            RuleKind::DeleteOnExitCall => DeleteOnExitCallRule.metadata(),
            RuleKind::DeserializationReadObjectCall => DeserializationReadObjectCallRule.metadata(),
            RuleKind::ExceptionCauseNotPreserved => ExceptionCauseNotPreservedRule.metadata(),
            RuleKind::ExecutorServiceNotShutdown => ExecutorServiceNotShutdownRule.metadata(),
            RuleKind::FutureWaitWhileHoldingLock => FutureWaitWhileHoldingLockRule.metadata(),
            RuleKind::IneffectiveEquals => IneffectiveEqualsRule.metadata(),
            RuleKind::InterruptedException => InterruptedExceptionRule.metadata(),
            RuleKind::Log4j2UnknownArray => Log4j2UnknownArrayRule.metadata(),
            RuleKind::LongGetLongCall => LongGetLongCallRule.metadata(),
            RuleKind::MutateUnmodifiableCollection => MutateUnmodifiableCollectionRule.metadata(),
            RuleKind::Nullness => NullnessRule.metadata(),
            RuleKind::PreferEnumSet => PreferEnumSetRule.metadata(),
            RuleKind::PrintStackTrace => PrintStackTraceRule.metadata(),
            RuleKind::ReturnInFinally => ReturnInFinallyRule.metadata(),
            RuleKind::Slf4jLoggerShouldBeFinal => Slf4jLoggerShouldBeFinalRule.metadata(),
        }
    }

    /// Runs the rule on the context.
    pub fn run(&self, context: &AnalysisContext) -> (res: Result<Vec<Finding>, AnalysisError>)
        ensures
            res matches Ok(v) ==> rule_run_ok(*self, *context, finding_views(v@)),
            res is Err ==> rule_fails_on(*self, *context),
            res is Err ==> rule_may_fail(*self),
    {
        match self {
            RuleKind::ArrayEquals => ArrayEqualsRule.run(context),
            RuleKind::UnmanagedAutocloseable => UnmanagedAutocloseableRule.run(context),
            RuleKind::BigDecimalEqualsCall => BigDecimalEqualsCallRule.run(context),
            RuleKind::BigDecimalFromDouble => BigDecimalFromDoubleRule.run(context),
            RuleKind::DeleteOnExitCall => DeleteOnExitCallRule.run(context),
            RuleKind::DeserializationReadObjectCall => DeserializationReadObjectCallRule.run(context),
            RuleKind::ExceptionCauseNotPreserved => ExceptionCauseNotPreservedRule.run(context),
            RuleKind::ExecutorServiceNotShutdown => ExecutorServiceNotShutdownRule.run(context),
            RuleKind::FutureWaitWhileHoldingLock => FutureWaitWhileHoldingLockRule.run(context),
            RuleKind::IneffectiveEquals => IneffectiveEqualsRule.run(context),
            RuleKind::InterruptedException => InterruptedExceptionRule.run(context),
            RuleKind::Log4j2UnknownArray => Log4j2UnknownArrayRule.run(context),
            RuleKind::LongGetLongCall => LongGetLongCallRule.run(context),
            RuleKind::MutateUnmodifiableCollection => MutateUnmodifiableCollectionRule.run(context),
            RuleKind::Nullness => NullnessRule.run(context),
            RuleKind::PreferEnumSet => PreferEnumSetRule.run(context),
            RuleKind::PrintStackTrace => PrintStackTraceRule.run(context),
            RuleKind::ReturnInFinally => ReturnInFinallyRule.run(context),
            RuleKind::Slf4jLoggerShouldBeFinal => Slf4jLoggerShouldBeFinalRule.run(context),
        }
    }
}

/// Every rule the engine runs, in ascending id order.
pub open spec fn all_rules_spec() -> Seq<RuleKind> {
    seq![
        RuleKind::ArrayEquals,
        RuleKind::UnmanagedAutocloseable,
        RuleKind::BigDecimalEqualsCall,
        RuleKind::BigDecimalFromDouble,
        RuleKind::DeleteOnExitCall,
        RuleKind::DeserializationReadObjectCall,
        RuleKind::ExceptionCauseNotPreserved,
        RuleKind::ExecutorServiceNotShutdown,
        RuleKind::FutureWaitWhileHoldingLock,
        RuleKind::IneffectiveEquals,
        RuleKind::InterruptedException,
        RuleKind::Log4j2UnknownArray,
        RuleKind::LongGetLongCall,
        RuleKind::MutateUnmodifiableCollection,
        RuleKind::Nullness,
        RuleKind::PreferEnumSet,
        RuleKind::PrintStackTrace,
        RuleKind::ReturnInFinally,
        RuleKind::Slf4jLoggerShouldBeFinal,
    ]
}

/// Every rule the engine runs, in ascending id order.
pub fn all_rules() -> (res: Vec<RuleKind>)
    ensures
        res@ == all_rules_spec(),
{
    let mut v: Vec<RuleKind> = Vec::new();
    v.push(RuleKind::ArrayEquals);
    v.push(RuleKind::UnmanagedAutocloseable);
    v.push(RuleKind::BigDecimalEqualsCall);
    v.push(RuleKind::BigDecimalFromDouble);
    v.push(RuleKind::DeleteOnExitCall);
    v.push(RuleKind::DeserializationReadObjectCall);
    v.push(RuleKind::ExceptionCauseNotPreserved);
    v.push(RuleKind::ExecutorServiceNotShutdown);
    v.push(RuleKind::FutureWaitWhileHoldingLock);
    v.push(RuleKind::IneffectiveEquals);
    v.push(RuleKind::InterruptedException);
    v.push(RuleKind::Log4j2UnknownArray);
    v.push(RuleKind::LongGetLongCall);
    v.push(RuleKind::MutateUnmodifiableCollection);
    v.push(RuleKind::Nullness);
    v.push(RuleKind::PreferEnumSet);
    v.push(RuleKind::PrintStackTrace);
    v.push(RuleKind::ReturnInFinally);
    v.push(RuleKind::Slf4jLoggerShouldBeFinal);
    assert(v@ =~= all_rules_spec());
    v
}

/// Distinct rules have distinct ids.
pub proof fn lemma_rule_ids_distinct(a: RuleKind, b: RuleKind)
    requires
        a != b,
    ensures
        rule_id_of(a) != rule_id_of(b),
{
    reveal_strlit("ARRAY_EQUALS");
    assert("ARRAY_EQUALS"@.len() == 12);
    reveal_strlit("AUTOCLOSEABLE_NOT_CLOSED");
    assert("AUTOCLOSEABLE_NOT_CLOSED"@.len() == 24);
    reveal_strlit("BIGDECIMAL_EQUALS_CALL");
    assert("BIGDECIMAL_EQUALS_CALL"@.len() == 22);
    reveal_strlit("BIGDECIMAL_FROM_DOUBLE");
    assert("BIGDECIMAL_FROM_DOUBLE"@.len() == 22);
    reveal_strlit("DELETE_ON_EXIT_CALL");
    assert("DELETE_ON_EXIT_CALL"@.len() == 19);
    reveal_strlit("DESERIALIZATION_READ_OBJECT_CALL");
    assert("DESERIALIZATION_READ_OBJECT_CALL"@.len() == 32);
    reveal_strlit("EXCEPTION_CAUSE_NOT_PRESERVED");
    assert("EXCEPTION_CAUSE_NOT_PRESERVED"@.len() == 29);
    reveal_strlit("EXECUTOR_SERVICE_NOT_SHUTDOWN");
    assert("EXECUTOR_SERVICE_NOT_SHUTDOWN"@.len() == 29);
    reveal_strlit("FUTURE_WAIT_WHILE_HOLDING_LOCK");
    assert("FUTURE_WAIT_WHILE_HOLDING_LOCK"@.len() == 30);
    reveal_strlit("INEFFECTIVE_EQUALS_HASHCODE");
    assert("INEFFECTIVE_EQUALS_HASHCODE"@.len() == 27);
    reveal_strlit("INTERRUPTED_EXCEPTION_NOT_RESTORED");
    assert("INTERRUPTED_EXCEPTION_NOT_RESTORED"@.len() == 34);
    reveal_strlit("LOG4J2_UNKNOWN_ARRAY");
    assert("LOG4J2_UNKNOWN_ARRAY"@.len() == 20);
    reveal_strlit("LONG_GETLONG_CALL");
    assert("LONG_GETLONG_CALL"@.len() == 17);
    reveal_strlit("MUTATE_UNMODIFIABLE_COLLECTION");
    assert("MUTATE_UNMODIFIABLE_COLLECTION"@.len() == 30);
    reveal_strlit("NULLNESS");
    assert("NULLNESS"@.len() == 8);
    reveal_strlit("PREFER_ENUMSET");
    assert("PREFER_ENUMSET"@.len() == 14);
    reveal_strlit("PRINT_STACK_TRACE");
    assert("PRINT_STACK_TRACE"@.len() == 17);
    reveal_strlit("RETURN_IN_FINALLY");
    assert("RETURN_IN_FINALLY"@.len() == 17);
    reveal_strlit("SLF4J_LOGGER_SHOULD_BE_FINAL");
    assert("SLF4J_LOGGER_SHOULD_BE_FINAL"@.len() == 28);
    assert("BIGDECIMAL_EQUALS_CALL"@[11] != "BIGDECIMAL_FROM_DOUBLE"@[11]);
    assert("EXCEPTION_CAUSE_NOT_PRESERVED"@[2] != "EXECUTOR_SERVICE_NOT_SHUTDOWN"@[2]);
    assert("FUTURE_WAIT_WHILE_HOLDING_LOCK"@[0] != "MUTATE_UNMODIFIABLE_COLLECTION"@[0]);
    assert("LONG_GETLONG_CALL"@[0] != "PRINT_STACK_TRACE"@[0]);
    assert("LONG_GETLONG_CALL"@[0] != "RETURN_IN_FINALLY"@[0]);
    assert("PRINT_STACK_TRACE"@[0] != "RETURN_IN_FINALLY"@[0]);
}

/// No two rules the engine runs share an id.
pub proof fn lemma_all_rule_ids_unique()
    ensures
        forall|i: int, j: int|
            0 <= i < j < all_rules_spec().len() ==> rule_id_of(#[trigger] all_rules_spec()[i]) != rule_id_of(
                #[trigger] all_rules_spec()[j],
            ),
{
    assert forall|i: int, j: int| 0 <= i < j < all_rules_spec().len() implies rule_id_of(
        #[trigger] all_rules_spec()[i],
    ) != rule_id_of(#[trigger] all_rules_spec()[j]) by {
        lemma_rule_ids_distinct(all_rules_spec()[i], all_rules_spec()[j]);
    }
}

} // verus!
