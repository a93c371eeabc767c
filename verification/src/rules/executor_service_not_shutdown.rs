//! Reports locally created executor services that some path leaves without
//! shutting down.
use vstd::prelude::*;
use crate::engine::{AnalysisContext, opt_view};
use crate::error::AnalysisError;
use crate::ir::{CallKind, CallSite, Class, Method, class_seq};
use crate::rules::autocloseable_not_closed::{supertype_closure, supertype_reaches};
use crate::rules::call_scan::about_method;
use crate::rules::location::{Finding, FindingView, RuleMetadata, finding, finding_views, method_location_spec, method_location_with_line, push_finding};
use crate::rules::resource_lifecycle::{ResourceKind, analyze_lifecycle};
use crate::text::{has_name, str_eq};

verus! {

/// The JDK executor service types.
pub open spec fn known_executor_service_spec(n: Seq<char>) -> bool {
    ||| n == "java/util/concurrent/ExecutorService"@
    ||| n == "java/util/concurrent/ScheduledExecutorService"@
    ||| n == "java/util/concurrent/AbstractExecutorService"@
    ||| n == "java/util/concurrent/ThreadPoolExecutor"@
    ||| n == "java/util/concurrent/ScheduledThreadPoolExecutor"@
    ||| n == "java/util/concurrent/ForkJoinPool"@
}

/// Whether the class is a JDK executor service type.
pub fn is_known_executor_service_name(name: &str) -> (res: bool)
    ensures
        res == known_executor_service_spec(name@),
{
    str_eq(name, "java/util/concurrent/ExecutorService") ||
        str_eq(name, "java/util/concurrent/ScheduledExecutorService") ||
        str_eq(name, "java/util/concurrent/AbstractExecutorService") ||
        str_eq(name, "java/util/concurrent/ThreadPoolExecutor") ||
        str_eq(name, "java/util/concurrent/ScheduledThreadPoolExecutor") ||
        str_eq(name, "java/util/concurrent/ForkJoinPool")
}

/// The class is an executor service: a known JDK type is among the names its
/// superclasses and interfaces lead to (itself included).
pub open spec fn executor_service_type_spec(classes: Seq<Class>, name: Seq<char>) -> bool {
    exists|t: Seq<char>| known_executor_service_spec(t) && supertype_reaches(classes, name, t)
}

/// Whether the class is an executor service: a JDK one, or one whose superclasses and interfaces among `classes` lead to one.
pub fn is_executor_service_type(name: &str, classes: &Vec<&Class>) -> (res: bool)
    ensures
        res == executor_service_type_spec(class_seq(classes@), name@),
{
    let names = supertype_closure(name, classes);
    let mut i: usize = 0;
    while i < names.len()
        invariant
            i <= names@.len(),
            forall|j: int| 0 <= j < i ==> !known_executor_service_spec(#[trigger] names@[j]@),
            forall|c: Seq<char>| #[trigger] has_name(names@, c) == supertype_reaches(class_seq(classes@), name@, c),
        decreases names.len() - i,
    {
        if is_known_executor_service_name(names[i].as_str()) {
            proof {
                assert(has_name(names@, names@[i as int]@));
                assert(supertype_reaches(class_seq(classes@), name@, names@[i as int]@));
                assert(known_executor_service_spec(names@[i as int]@));
            }
            return true;
        }
        i = i + 1;
    }
    proof {
        assert forall|t: Seq<char>| known_executor_service_spec(t) implies !supertype_reaches(class_seq(classes@), name@, t) by {
            if supertype_reaches(class_seq(classes@), name@, t) {
                assert(has_name(names@, t));
                let j = choose|j: int| 0 <= j < names@.len() && names@[j]@ == t;
            }
        }
    }
    false
}

/// The call releases an executor: `shutdown()`, `shutdownNow()` or `close()`.
pub open spec fn shutdown_call_spec(call: CallSite) -> bool {
    let (n, d) = (call.name@, call.descriptor@);
    (n == "shutdown"@ && d == "()V"@) || (n == "shutdownNow"@ && d == "()Ljava/util/List;"@) || (n == "close"@ && d == "()V"@)
}

/// Whether the call releases an executor.
pub fn is_shutdown_call(call: &CallSite) -> (res: bool)
    ensures
        res == shutdown_call_spec(*call),
{
    let n = call.name.as_str();
    let d = call.descriptor.as_str();
    (str_eq(n, "shutdown") && str_eq(d, "()V")) || (str_eq(n, "shutdownNow") && str_eq(d, "()Ljava/util/List;"))
        || (str_eq(n, "close") && str_eq(d, "()V"))
}

/// The call is one of the `Executors` factory methods.
pub open spec fn executor_factory_spec(call: CallSite) -> bool {
    call.kind == CallKind::Static && call.owner@ == "java/util/concurrent/Executors"@ && {
        let (n, d) = (call.name@, call.descriptor@);
        ||| (n == "newCachedThreadPool"@ && d == "()Ljava/util/concurrent/ExecutorService;"@)
        ||| (n == "newCachedThreadPool"@ && d == "(Ljava/util/concurrent/ThreadFactory;)Ljava/util/concurrent/ExecutorService;"@)
        ||| (n == "newFixedThreadPool"@ && d == "(I)Ljava/util/concurrent/ExecutorService;"@)
        ||| (n == "newFixedThreadPool"@ && d == "(ILjava/util/concurrent/ThreadFactory;)Ljava/util/concurrent/ExecutorService;"@)
        ||| (n == "newSingleThreadExecutor"@ && d == "()Ljava/util/concurrent/ExecutorService;"@)
        ||| (n == "newSingleThreadExecutor"@ && d == "(Ljava/util/concurrent/ThreadFactory;)Ljava/util/concurrent/ExecutorService;"@)
        ||| (n == "newSingleThreadScheduledExecutor"@ && d == "()Ljava/util/concurrent/ScheduledExecutorService;"@)
        ||| (n == "newSingleThreadScheduledExecutor"@ && d == "(Ljava/util/concurrent/ThreadFactory;)Ljava/util/concurrent/ScheduledExecutorService;"@)
        ||| (n == "newScheduledThreadPool"@ && d == "(I)Ljava/util/concurrent/ScheduledExecutorService;"@)
        ||| (n == "newScheduledThreadPool"@ && d == "(ILjava/util/concurrent/ThreadFactory;)Ljava/util/concurrent/ScheduledExecutorService;"@)
        ||| (n == "newWorkStealingPool"@ && d == "()Ljava/util/concurrent/ExecutorService;"@)
        ||| (n == "newWorkStealingPool"@ && d == "(I)Ljava/util/concurrent/ExecutorService;"@)
        ||| (n == "newThreadPerTaskExecutor"@ && d == "(Ljava/util/concurrent/ThreadFactory;)Ljava/util/concurrent/ExecutorService;"@)
        ||| (n == "newVirtualThreadPerTaskExecutor"@ && d == "()Ljava/util/concurrent/ExecutorService;"@)
    }
}

/// Whether the call is one of the `Executors` factory methods.
/// The factory methods of `java.util.concurrent.Executors` that create an
/// executor service, by name and descriptor: every overload of
/// `newCachedThreadPool`, `newFixedThreadPool`, `newSingleThreadExecutor`,
/// `newSingleThreadScheduledExecutor`, `newScheduledThreadPool`,
/// `newWorkStealingPool`, `newThreadPerTaskExecutor` and
/// `newVirtualThreadPerTaskExecutor`.
pub open spec fn executors_factories() -> Set<(Seq<char>, Seq<char>)> {
    set![
        ("newCachedThreadPool"@, "()Ljava/util/concurrent/ExecutorService;"@),
        ("newCachedThreadPool"@, "(Ljava/util/concurrent/ThreadFactory;)Ljava/util/concurrent/ExecutorService;"@),
        ("newFixedThreadPool"@, "(I)Ljava/util/concurrent/ExecutorService;"@),
        ("newFixedThreadPool"@, "(ILjava/util/concurrent/ThreadFactory;)Ljava/util/concurrent/ExecutorService;"@),
        ("newSingleThreadExecutor"@, "()Ljava/util/concurrent/ExecutorService;"@),
        ("newSingleThreadExecutor"@, "(Ljava/util/concurrent/ThreadFactory;)Ljava/util/concurrent/ExecutorService;"@),
        ("newSingleThreadScheduledExecutor"@, "()Ljava/util/concurrent/ScheduledExecutorService;"@),
        ("newSingleThreadScheduledExecutor"@, "(Ljava/util/concurrent/ThreadFactory;)Ljava/util/concurrent/ScheduledExecutorService;"@),
        ("newScheduledThreadPool"@, "(I)Ljava/util/concurrent/ScheduledExecutorService;"@),
        ("newScheduledThreadPool"@, "(ILjava/util/concurrent/ThreadFactory;)Ljava/util/concurrent/ScheduledExecutorService;"@),
        ("newWorkStealingPool"@, "()Ljava/util/concurrent/ExecutorService;"@),
        ("newWorkStealingPool"@, "(I)Ljava/util/concurrent/ExecutorService;"@),
        ("newThreadPerTaskExecutor"@, "(Ljava/util/concurrent/ThreadFactory;)Ljava/util/concurrent/ExecutorService;"@),
        ("newVirtualThreadPerTaskExecutor"@, "()Ljava/util/concurrent/ExecutorService;"@)
    ]
}

/// A call creates an executor exactly when it is a static call of
/// `Executors` with the name and descriptor of one of its factory
/// overloads.
pub proof fn lemma_executor_factories(call: CallSite)
    ensures
        executor_factory_spec(call) <==> (call.kind == CallKind::Static && call.owner@ == "java/util/concurrent/Executors"@
            && executors_factories().contains((call.name@, call.descriptor@))),
{
}

/// Whatever a recognised factory call is, it returns an executor service:
/// its descriptor ends with `)Ljava/util/concurrent/ExecutorService;` or
/// `)Ljava/util/concurrent/ScheduledExecutorService;`, and its name starts
/// with `new`.
pub proof fn lemma_executor_factories_return_executors(call: CallSite)
    requires
        executor_factory_spec(call),
    ensures
        call.name@.len() >= 3 && call.name@.subrange(0, 3) == "new"@,
        ({
            let d = call.descriptor@;
            ||| (d.len() >= 39 && d.subrange(d.len() - 39, d.len() as int) == ")Ljava/util/concurrent/ExecutorService;"@)
            ||| (d.len() >= 48 && d.subrange(d.len() - 48, d.len() as int) == ")Ljava/util/concurrent/ScheduledExecutorService;"@)
        }),
{
    reveal_strlit("new");
    reveal_strlit(")Ljava/util/concurrent/ExecutorService;");
    reveal_strlit(")Ljava/util/concurrent/ScheduledExecutorService;");
    reveal_strlit("newCachedThreadPool");
    reveal_strlit("newFixedThreadPool");
    reveal_strlit("newSingleThreadExecutor");
    reveal_strlit("newSingleThreadScheduledExecutor");
    reveal_strlit("newScheduledThreadPool");
    reveal_strlit("newWorkStealingPool");
    reveal_strlit("newThreadPerTaskExecutor");
    reveal_strlit("newVirtualThreadPerTaskExecutor");
    reveal_strlit("()Ljava/util/concurrent/ExecutorService;");
    reveal_strlit("(Ljava/util/concurrent/ThreadFactory;)Ljava/util/concurrent/ExecutorService;");
    reveal_strlit("(I)Ljava/util/concurrent/ExecutorService;");
    reveal_strlit("(ILjava/util/concurrent/ThreadFactory;)Ljava/util/concurrent/ExecutorService;");
    reveal_strlit("()Ljava/util/concurrent/ScheduledExecutorService;");
    reveal_strlit("(Ljava/util/concurrent/ThreadFactory;)Ljava/util/concurrent/ScheduledExecutorService;");
    reveal_strlit("(I)Ljava/util/concurrent/ScheduledExecutorService;");
    reveal_strlit("(ILjava/util/concurrent/ThreadFactory;)Ljava/util/concurrent/ScheduledExecutorService;");
    let d = call.descriptor@;
    if d.len() >= 48 && d.subrange(d.len() - 48, d.len() as int) =~= ")Ljava/util/concurrent/ScheduledExecutorService;"@ {
    } else {
        assert(d.subrange(d.len() - 39, d.len() as int) =~= ")Ljava/util/concurrent/ExecutorService;"@);
    }
    assert(call.name@.subrange(0, 3) =~= "new"@);
}
pub fn is_executor_factory_call(call: &CallSite) -> (res: bool)
    ensures
        res == executor_factory_spec(*call),
{
    if call.kind != CallKind::Static || !str_eq(call.owner.as_str(), "java/util/concurrent/Executors") {
        return false;
    }
    let n = call.name.as_str();
    let d = call.descriptor.as_str();
    (str_eq(n, "newCachedThreadPool") && str_eq(d, "()Ljava/util/concurrent/ExecutorService;")) ||
        (str_eq(n, "newCachedThreadPool") && str_eq(d, "(Ljava/util/concurrent/ThreadFactory;)Ljava/util/concurrent/ExecutorService;")) ||
        (str_eq(n, "newFixedThreadPool") && str_eq(d, "(I)Ljava/util/concurrent/ExecutorService;")) ||
        (str_eq(n, "newFixedThreadPool") && str_eq(d, "(ILjava/util/concurrent/ThreadFactory;)Ljava/util/concurrent/ExecutorService;")) ||
        (str_eq(n, "newSingleThreadExecutor") && str_eq(d, "()Ljava/util/concurrent/ExecutorService;")) ||
        (str_eq(n, "newSingleThreadExecutor") && str_eq(d, "(Ljava/util/concurrent/ThreadFactory;)Ljava/util/concurrent/ExecutorService;")) ||
        (str_eq(n, "newSingleThreadScheduledExecutor") && str_eq(d, "()Ljava/util/concurrent/ScheduledExecutorService;")) ||
        (str_eq(n, "newSingleThreadScheduledExecutor") && str_eq(d, "(Ljava/util/concurrent/ThreadFactory;)Ljava/util/concurrent/ScheduledExecutorService;")) ||
        (str_eq(n, "newScheduledThreadPool") && str_eq(d, "(I)Ljava/util/concurrent/ScheduledExecutorService;")) ||
        (str_eq(n, "newScheduledThreadPool") && str_eq(d, "(ILjava/util/concurrent/ThreadFactory;)Ljava/util/concurrent/ScheduledExecutorService;")) ||
        (str_eq(n, "newWorkStealingPool") && str_eq(d, "()Ljava/util/concurrent/ExecutorService;")) ||
        (str_eq(n, "newWorkStealingPool") && str_eq(d, "(I)Ljava/util/concurrent/ExecutorService;")) ||
        (str_eq(n, "newThreadPerTaskExecutor") && str_eq(d, "(Ljava/util/concurrent/ThreadFactory;)Ljava/util/concurrent/ExecutorService;")) ||
        (str_eq(n, "newVirtualThreadPerTaskExecutor") && str_eq(d, "()Ljava/util/concurrent/ExecutorService;"))
}

/// Whether the call constructs an executor service type.
pub fn is_executor_constructor(call: &CallSite, classes: &Vec<&Class>) -> (res: bool)
    ensures
        res == (call.name@ == "<init>"@ && executor_service_type_spec(class_seq(classes@), call.owner@)),
{
    str_eq(call.name.as_str(), "<init>") && is_executor_service_type(call.owner.as_str(), classes)
}

/// The message for an executor created in method `m` of `c`.
pub open spec fn executor_message(c: Class, m: Method) -> Seq<char> {
    about_method("ExecutorService created in "@, c, m, " may exit without shutdown(); call shutdown(), shutdownNow(), or close() before the method returns."@)
}

/// The finding reports an executor of method `m` of `c`, at the line of some
/// offset.
pub open spec fn executor_finding(uri: Option<Seq<char>>, c: Class, m: Method, f: FindingView) -> bool {
    exists|o: u32|
        #![trigger crate::ir::line_for_offset_spec(m.line_numbers@, o)]
        f == FindingView {
            rule_id: None,
            message: executor_message(c, m),
            locations: seq![method_location_spec(c.name@, m.name@, m.descriptor@, uri, crate::ir::line_for_offset_spec(m.line_numbers@, o))],
        }
}

/// The creation offsets of the executors of the method that some path leaves
/// running, ascending.
pub fn analyze_executor_lifecycle(method: &Method, classes: &Vec<&Class>) -> (res: Result<Vec<u32>, AnalysisError>)
    ensures
        res matches Ok(v) ==> crate::dataflow::worklist::strictly_increasing(v@),
{
    analyze_lifecycle(ResourceKind::ExecutorService, method, classes)
}

/// The finding is about a method with bytecode of an analysis-target class.
pub open spec fn reports_unstopped(ctx: AnalysisContext, f: FindingView) -> bool {
    exists|ci: int, mi: int|
        #![trigger ctx.targets()[ci].methods@[mi]]
        0 <= ci < ctx.targets().len() && 0 <= mi < ctx.targets()[ci].methods@.len() && executor_finding(
            ctx.class_uri(ctx.targets()[ci]),
            ctx.targets()[ci],
            ctx.targets()[ci].methods@[mi],
            f,
        )
}

/// Reports locally created executor services not shut down on every path.
#[derive(Clone, Copy, Debug)]
pub struct ExecutorServiceNotShutdownRule;

impl ExecutorServiceNotShutdownRule {
    /// The rule's id, name and description.
    pub fn metadata(&self) -> (res: RuleMetadata)
        ensures
            res.id@ == "EXECUTOR_SERVICE_NOT_SHUTDOWN"@,
    {
        RuleMetadata {
            id: "EXECUTOR_SERVICE_NOT_SHUTDOWN",
            name: "ExecutorService not shut down",
            description: "Locally created executor services should be shut down on every exit path",
        }
    }

    /// One finding per executor creation site left running, for every method
    /// with bytecode and blocks of the analysis-target classes.
    pub fn run(&self, context: &AnalysisContext) -> (res: Result<Vec<Finding>, AnalysisError>)
        ensures
            res matches Ok(v) ==> forall|i: int|
                0 <= i < v@.len() ==> reports_unstopped(*context, #[trigger] finding_views(v@)[i]),
    {
        let all = context.all_classes();
        let classes = context.analysis_target_classes();
        let mut results: Vec<Finding> = Vec::new();
        let mut ci: usize = 0;
        while ci < classes.len()
            invariant
                ci <= classes@.len(),
                classes@ == context.targets(),
                forall|i: int|
                    0 <= i < results@.len() ==> reports_unstopped(*context, #[trigger] finding_views(results@)[i]),
            decreases classes.len() - ci,
        {
            let class = &classes[ci];
            let uri = context.class_artifact_uri(class);
            let mut mi: usize = 0;
            while mi < class.methods.len()
                invariant
                    ci < classes@.len(),
                    classes@ == context.targets(),
                    *class == classes@[ci as int],
                    opt_view(uri) == context.class_uri(*class),
                    mi <= class.methods@.len(),
                    forall|i: int|
                        0 <= i < results@.len() ==> reports_unstopped(*context, #[trigger] finding_views(results@)[i]),
                decreases class.methods.len() - mi,
            {
                let method = &class.methods[mi];
                if method.bytecode.len() > 0 && method.cfg.blocks.len() > 0 {
                    let offsets = analyze_executor_lifecycle(method, &all)?;
                    let mut k: usize = 0;
                    while k < offsets.len()
                        invariant
                            ci < classes@.len(),
                            classes@ == context.targets(),
                            *class == classes@[ci as int],
                            mi < class.methods@.len(),
                            *method == class.methods@[mi as int],
                            opt_view(uri) == context.class_uri(*class),
                            forall|i: int|
                                0 <= i < results@.len() ==> reports_unstopped(*context, #[trigger] finding_views(results@)[i]),
                        decreases offsets.len() - k,
                    {
                        let message = crate::rules::call_scan::method_message("ExecutorService created in ", class, method, " may exit without shutdown(); call shutdown(), shutdownNow(), or close() before the method returns.");
                        let line = method.line_for_offset(offsets[k]);
                        let artifact_uri: Option<&str> = match &uri {
                            Some(s) => Some(s.as_str()),
                            None => None,
                        };
                        let location = method_location_with_line(class.name.as_str(), method.name.as_str(), method.descriptor.as_str(), artifact_uri, line);
                        let f = finding(message, location);
                        let ghost fv = f@;
                        let ghost prev = finding_views(results@);
                        proof {
                            assert(executor_finding(opt_view(uri), *class, *method, fv)) by {
                                let _ = crate::ir::line_for_offset_spec(method.line_numbers@, offsets@[k as int]);
                            }
                            assert(context.targets()[ci as int].methods@[mi as int] == *method);
                            assert(reports_unstopped(*context, fv));
                        }
                        push_finding(&mut results, f);
                        proof {
                            assert(finding_views(results@) == prev.push(fv));
                            assert forall|i: int| 0 <= i < results@.len() implies reports_unstopped(*context, #[trigger] finding_views(results@)[i]) by {
                                if i < prev.len() {
                                    assert(finding_views(results@)[i] == prev[i]);
                                } else {
                                    assert(finding_views(results@)[i] == fv);
                                }
                            }
                        }
                        k = k + 1;
                    }
                }
                mi = mi + 1;
            }
            ci = ci + 1;
        }
        Ok(results)
    }
}

} // verus!
