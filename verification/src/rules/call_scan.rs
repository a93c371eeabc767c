//! Rules that report each call site matching a pattern, once per call, at the
//! calling method with the call's source line.
use vstd::prelude::*;
use crate::engine::AnalysisContext;
use crate::flatten::{concat_map, lemma_concat_map_empty, lemma_concat_map_full, lemma_concat_map_step};
use crate::ir::{CallSite, Class, Method, line_for_offset_spec};
use crate::rules::location::{
    Finding, FindingView, finding, finding_spec, finding_views, method_location_spec,
    method_location_with_line, method_logical_name, push_finding,
};
use crate::rules::bigdecimal_equals_call::{is_bigdecimal_equals_call, bigdecimal_equals_spec};
use crate::rules::bigdecimal_from_double::{is_bigdecimal_double_constructor, bigdecimal_double_constructor_spec};
use crate::rules::delete_on_exit_call::{is_delete_on_exit_call, delete_on_exit_spec};
use crate::rules::deserialization_read_object_call::{is_deserialization_entry, deserialization_entry_spec};
use crate::rules::insecure_api::{is_insecure_call, insecure_call_spec};
use crate::rules::long_getlong_call::{is_long_getlong_call, long_getlong_spec};
use crate::rules::print_stack_trace::{is_print_stack_trace_call, print_stack_trace_spec};

verus! {

/// The call patterns reported one finding per matching call.
#[derive(Clone, Copy, Debug, PartialEq, Eq, Structural)]
pub enum CallPattern {
    BigDecimalFromDouble,
    BigDecimalEquals,
    DeleteOnExit,
    DeserializationReadObject,
    InsecureApi,
    LongGetLong,
    PrintStackTrace,
}

/// Whether a call matches the pattern.
pub open spec fn pattern_matches(p: CallPattern, call: CallSite) -> bool {
    match p {
        CallPattern::BigDecimalFromDouble => bigdecimal_double_constructor_spec(call.owner@, call.name@, call.descriptor@),
        CallPattern::BigDecimalEquals => bigdecimal_equals_spec(call.owner@, call.name@, call.descriptor@),
        CallPattern::DeleteOnExit => delete_on_exit_spec(call.owner@, call.name@, call.descriptor@),
        CallPattern::DeserializationReadObject => deserialization_entry_spec(call.owner@, call.name@, call.descriptor@),
        CallPattern::InsecureApi => insecure_call_spec(call.owner@, call.name@),
        CallPattern::LongGetLong => long_getlong_spec(call.owner@, call.name@, call.descriptor@),
        CallPattern::PrintStackTrace => print_stack_trace_spec(call.owner@, call.name@, call.descriptor@),
    }
}

/// `prefix` + `Class.methodDescriptor` + `suffix`.
pub open spec fn about_method(prefix: Seq<char>, c: Class, m: Method, suffix: Seq<char>) -> Seq<char> {
    prefix + method_logical_name(c.name@, m.name@, m.descriptor@) + suffix
}

/// The message reported for a matching call.
pub open spec fn pattern_message(p: CallPattern, c: Class, m: Method, call: CallSite) -> Seq<char> {
    match p {
        CallPattern::BigDecimalFromDouble => "BigDecimal constructed from double can lose precision. Use BigDecimal.valueOf(double) or a decimal string constructor."@,
        CallPattern::BigDecimalEquals => about_method("Avoid BigDecimal.equals() in "@, c, m, "; use compareTo(...) == 0 for numeric equality."@),
        CallPattern::DeleteOnExit => about_method("Avoid File.deleteOnExit() in "@, c, m, "; prefer explicit deletion with error handling."@),
        CallPattern::DeserializationReadObject => about_method("Avoid ObjectInputStream deserialization call in "@, c, m, "; use safer formats or strict deserialization controls."@),
        CallPattern::InsecureApi => "Insecure API usage: "@ + call.owner@ + "."@ + call.name@,
        CallPattern::LongGetLong => about_method("Avoid Long.getLong() in "@, c, m, "; use Long.parseLong()/valueOf() for numeric parsing or keep it only for system property reads."@),
        CallPattern::PrintStackTrace => about_method("Avoid printStackTrace() in "@, c, m, "; log exceptions with context instead."@),
    }
}

/// The findings for one call.
pub open spec fn call_findings(p: CallPattern, uri: Option<Seq<char>>, c: Class, m: Method, call: CallSite) -> Seq<FindingView> {
    if pattern_matches(p, call) {
        seq![finding_spec(
            pattern_message(p, c, m, call),
            method_location_spec(c.name@, m.name@, m.descriptor@, uri, line_for_offset_spec(m.line_numbers@, call.offset)),
        )]
    } else {
        seq![]
    }
}

/// The findings for one method, in call order.
pub open spec fn method_findings(p: CallPattern, uri: Option<Seq<char>>, c: Class, m: Method) -> Seq<FindingView> {
    concat_map(m.calls@, |call: CallSite| call_findings(p, uri, c, m, call))
}

/// The findings for one class, in method order.
pub open spec fn class_findings(p: CallPattern, uri: Option<Seq<char>>, c: Class) -> Seq<FindingView> {
    concat_map(c.methods@, |m: Method| method_findings(p, uri, c, m))
}

/// The findings of a call-pattern rule: over the analysis-target classes in
/// order, their methods in order and their calls in order.
pub open spec fn pattern_findings(p: CallPattern, ctx: AnalysisContext) -> Seq<FindingView> {
    concat_map(ctx.targets(), |c: Class| class_findings(p, ctx.class_uri(c), c))
}

fn matches_call(p: CallPattern, call: &CallSite) -> (res: bool)
    ensures
        res == pattern_matches(p, *call),
{
    match p {
        CallPattern::BigDecimalFromDouble => is_bigdecimal_double_constructor(&call.owner, &call.name, &call.descriptor),
        CallPattern::BigDecimalEquals => is_bigdecimal_equals_call(&call.owner, &call.name, &call.descriptor),
        CallPattern::DeleteOnExit => is_delete_on_exit_call(&call.owner, &call.name, &call.descriptor),
        CallPattern::DeserializationReadObject => is_deserialization_entry(&call.owner, &call.name, &call.descriptor),
        CallPattern::InsecureApi => is_insecure_call(&call.owner, &call.name),
        CallPattern::LongGetLong => is_long_getlong_call(&call.owner, &call.name, &call.descriptor),
        CallPattern::PrintStackTrace => is_print_stack_trace_call(&call.owner, &call.name, &call.descriptor),
    }
}

/// `prefix` + `Class.methodDescriptor` + `suffix` as a string.
pub fn method_message(prefix: &str, class: &Class, method: &Method, suffix: &str) -> (res: String)
    ensures
        res@ == about_method(prefix@, *class, *method, suffix@),
{
    let mut out = prefix.to_owned();
    out.append(class.name.as_str());
    out.append(".");
    out.append(method.name.as_str());
    out.append(method.descriptor.as_str());
    out.append(suffix);
    proof {
        reveal_strlit(".");
        assert(out@ =~= about_method(prefix@, *class, *method, suffix@));
    }
    out
}

fn message_for(p: CallPattern, class: &Class, method: &Method, call: &CallSite) -> (res: String)
    ensures
        res@ == pattern_message(p, *class, *method, *call),
{
    match p {
        CallPattern::BigDecimalFromDouble => "BigDecimal constructed from double can lose precision. Use BigDecimal.valueOf(double) or a decimal string constructor.".to_owned(),
        CallPattern::BigDecimalEquals => method_message("Avoid BigDecimal.equals() in ", class, method, "; use compareTo(...) == 0 for numeric equality."),
        CallPattern::DeleteOnExit => method_message("Avoid File.deleteOnExit() in ", class, method, "; prefer explicit deletion with error handling."),
        CallPattern::DeserializationReadObject => method_message("Avoid ObjectInputStream deserialization call in ", class, method, "; use safer formats or strict deserialization controls."),
        CallPattern::InsecureApi => {
            let mut out = "Insecure API usage: ".to_owned();
            out.append(call.owner.as_str());
            out.append(".");
            out.append(call.name.as_str());
            proof {
                reveal_strlit(".");
            }
            out
        },
        CallPattern::LongGetLong => method_message("Avoid Long.getLong() in ", class, method, "; use Long.parseLong()/valueOf() for numeric parsing or keep it only for system property reads."),
        CallPattern::PrintStackTrace => method_message("Avoid printStackTrace() in ", class, method, "; log exceptions with context instead."),
    }
}

fn scan_method(p: CallPattern, uri: &Option<String>, class: &Class, method: &Method, out: &mut Vec<Finding>)
    ensures
        finding_views(final(out)@) == finding_views(old(out)@) + method_findings(
            p,
            crate::engine::opt_view(*uri),
            *class,
            *method,
        ),
{
    let ghost u = crate::engine::opt_view(*uri);
    let ghost f = |call: CallSite| call_findings(p, u, *class, *method, call);
    let ghost start = finding_views(out@);
    proof {
        lemma_concat_map_empty(method.calls@, f);
    }
    let mut k: usize = 0;
    while k < method.calls.len()
        invariant
            k <= method.calls@.len(),
            u == crate::engine::opt_view(*uri),
            f == (|call: CallSite| call_findings(p, u, *class, *method, call)),
            finding_views(out@) == start + concat_map(method.calls@.take(k as int), f),
        decreases method.calls.len() - k,
    {
        let call = &method.calls[k];
        proof {
            lemma_concat_map_step(method.calls@, f, k as int);
        }
        if matches_call(p, call) {
            let message = message_for(p, class, method, call);
            let line = method.line_for_offset(call.offset);
            let artifact_uri: Option<&str> = match uri {
                Some(s) => Some(s.as_str()),
                None => None,
            };
            let location = method_location_with_line(
                class.name.as_str(),
                method.name.as_str(),
                method.descriptor.as_str(),
                artifact_uri,
                line,
            );
            let fnd = finding(message, location);
            push_finding(out, fnd);
            proof {
                assert(finding_views(out@) =~= start + concat_map(method.calls@.take(k + 1), f));
            }
        } else {
            proof {
                assert(finding_views(out@) =~= start + concat_map(method.calls@.take(k + 1), f));
            }
        }
        k = k + 1;
    }
    proof {
        lemma_concat_map_full(method.calls@, f);
    }
}

/// Runs a call-pattern rule over the analysis-target classes.
pub fn run_pattern(p: CallPattern, context: &AnalysisContext) -> (res: Vec<Finding>)
    ensures
        finding_views(res@) == pattern_findings(p, *context),
{
    let classes = context.analysis_target_classes();
    let ghost g = |c: Class| class_findings(p, context.class_uri(c), c);
    let mut results: Vec<Finding> = Vec::new();
    proof {
        lemma_concat_map_empty(classes@, g);
        assert(finding_views(results@) =~= Seq::<FindingView>::empty());
    }
    let mut i: usize = 0;
    while i < classes.len()
        invariant
            i <= classes@.len(),
            classes@ == context.targets(),
            g == (|c: Class| class_findings(p, context.class_uri(c), c)),
            finding_views(results@) == concat_map(classes@.take(i as int), g),
        decreases classes.len() - i,
    {
        let class = &classes[i];
        let uri = context.class_artifact_uri(class);
        let ghost u = crate::engine::opt_view(uri);
        let ghost h = |m: Method| method_findings(p, u, *class, m);
        let ghost start = finding_views(results@);
        proof {
            lemma_concat_map_step(classes@, g, i as int);
            lemma_concat_map_empty(class.methods@, h);
            assert(start + concat_map(class.methods@.take(0), h) =~= start);
        }
        let mut j: usize = 0;
        while j < class.methods.len()
            invariant
                j <= class.methods@.len(),
                u == crate::engine::opt_view(uri),
                h == (|m: Method| method_findings(p, u, *class, m)),
                finding_views(results@) == start + concat_map(class.methods@.take(j as int), h),
            decreases class.methods.len() - j,
        {
            proof {
                lemma_concat_map_step(class.methods@, h, j as int);
            }
            scan_method(p, &uri, class, &class.methods[j], &mut results);
            proof {
                assert(finding_views(results@) =~= start + concat_map(class.methods@.take(j + 1), h));
            }
            j = j + 1;
        }
        proof {
            lemma_concat_map_full(class.methods@, h);
            assert(finding_views(results@) =~= concat_map(classes@.take(i + 1), g));
        }
        i = i + 1;
    }
    proof {
        lemma_concat_map_full(classes@, g);
    }
    results
}

} // verus!
