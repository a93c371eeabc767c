//! Ordering of findings: by rule id, then by message, ties keeping the order
//! in which the rules produced them.
use vstd::prelude::*;
use crate::rules::location::{Finding, FindingView, finding_views};
use crate::text::{lemma_lex_lt_irreflexive, lemma_lex_lt_total, lemma_lex_lt_transitive, lex_lt, str_eq, str_lt};

verus! {

/// The rule id a finding is ordered by: empty when it has none.
pub open spec fn rule_id_key(f: FindingView) -> Seq<char> {
    match f.rule_id {
        Some(r) => r,
        None => Seq::empty(),
    }
}

/// `a` is ordered strictly before `b`: a smaller rule id, or the same rule id
/// and a smaller message.
pub open spec fn finding_lt(a: FindingView, b: FindingView) -> bool {
    lex_lt(rule_id_key(a), rule_id_key(b)) || (rule_id_key(a) == rule_id_key(b) && lex_lt(
        a.message,
        b.message,
    ))
}

/// The first position of `s` whose finding is ordered strictly after `x`
/// (the length of `s` if there is none).
pub open spec fn first_after(s: Seq<FindingView>, x: FindingView) -> int
    decreases s.len(),
{
    if s.len() == 0 {
        0
    } else if finding_lt(x, s[0]) {
        0
    } else {
        1 + first_after(s.drop_first(), x)
    }
}

/// `x` inserted into `s` after every finding not ordered after it.
pub open spec fn insert_in_order(s: Seq<FindingView>, x: FindingView) -> Seq<FindingView> {
    let i = first_after(s, x);
    s.take(i).push(x) + s.skip(i)
}

/// The stable sort of `s` by rule id, then message.
pub open spec fn stable_sort(s: Seq<FindingView>) -> Seq<FindingView>
    decreases s.len(),
{
    if s.len() == 0 {
        s
    } else {
        insert_in_order(stable_sort(s.drop_last()), s.last())
    }
}

/// No finding of `s` is ordered strictly before one that precedes it.
pub open spec fn in_order(s: Seq<FindingView>) -> bool {
    forall|i: int, j: int| 0 <= i < j < s.len() ==> !finding_lt(#[trigger] s[j], #[trigger] s[i])
}

proof fn lemma_first_after_bounds(s: Seq<FindingView>, x: FindingView)
    ensures
        0 <= first_after(s, x) <= s.len(),
        forall|j: int| 0 <= j < first_after(s, x) ==> !finding_lt(x, #[trigger] s[j]),
        first_after(s, x) < s.len() ==> finding_lt(x, s[first_after(s, x)]),
    decreases s.len(),
{
    if s.len() > 0 && !finding_lt(x, s[0]) {
        lemma_first_after_bounds(s.drop_first(), x);
        assert forall|j: int| 0 <= j < first_after(s, x) implies !finding_lt(x, #[trigger] s[j]) by {
            if j > 0 {
                assert(s[j] == s.drop_first()[j - 1]);
            }
        }
    }
}

proof fn lemma_first_after_is(s: Seq<FindingView>, x: FindingView, i: int)
    requires
        0 <= i <= s.len(),
        forall|j: int| 0 <= j < i ==> !finding_lt(x, #[trigger] s[j]),
        i < s.len() ==> finding_lt(x, s[i]),
    ensures
        first_after(s, x) == i,
    decreases i,
{
    if i > 0 {
        assert(!finding_lt(x, s[0]));
        assert forall|j: int| 0 <= j < i - 1 implies !finding_lt(x, #[trigger] s.drop_first()[j]) by {
            assert(s.drop_first()[j] == s[j + 1]);
        }
        lemma_first_after_is(s.drop_first(), x, i - 1);
    }
}

proof fn lemma_lt_irreflexive(a: FindingView)
    ensures
        !finding_lt(a, a),
{
    lemma_lex_lt_irreflexive(rule_id_key(a));
    lemma_lex_lt_irreflexive(a.message);
}

proof fn lemma_lt_asymmetric(a: FindingView, b: FindingView)
    ensures
        !(finding_lt(a, b) && finding_lt(b, a)),
{
    lemma_lex_lt_total(rule_id_key(a), rule_id_key(b));
    lemma_lex_lt_total(a.message, b.message);
    lemma_lex_lt_irreflexive(rule_id_key(a));
}

/// `a < b` and `b <= c` give `a < c`.
proof fn lemma_lt_le(a: FindingView, b: FindingView, c: FindingView)
    requires
        finding_lt(a, b),
        !finding_lt(c, b),
    ensures
        finding_lt(a, c),
{
    let (ka, kb, kc) = (rule_id_key(a), rule_id_key(b), rule_id_key(c));
    lemma_lex_lt_total(kb, kc);
    lemma_lex_lt_total(b.message, c.message);
    lemma_lex_lt_irreflexive(kb);
    if lex_lt(ka, kb) {
        if lex_lt(kb, kc) {
            lemma_lex_lt_transitive(ka, kb, kc);
        }
    } else {
        if lex_lt(kb, kc) {
        } else {
            assert(kb == kc);
            if lex_lt(b.message, c.message) {
                lemma_lex_lt_transitive(a.message, b.message, c.message);
            } else {
                assert(b.message == c.message);
            }
        }
    }
}

/// `a <= b` and `b <= c` give `a <= c`.
proof fn lemma_le_le(a: FindingView, b: FindingView, c: FindingView)
    requires
        !finding_lt(b, a),
        !finding_lt(c, b),
    ensures
        !finding_lt(c, a),
{
    if finding_lt(c, a) {
        lemma_lt_le(c, a, b);
        lemma_lt_asymmetric(c, b);
        lemma_lex_lt_total(rule_id_key(c), rule_id_key(b));
        lemma_lex_lt_total(c.message, b.message);
    }
}

proof fn lemma_insert_in_order_sorted(s: Seq<FindingView>, x: FindingView)
    requires
        in_order(s),
    ensures
        in_order(insert_in_order(s, x)),
        insert_in_order(s, x).len() == s.len() + 1,
{
    lemma_first_after_bounds(s, x);
    let p = first_after(s, x);
    let r = insert_in_order(s, x);
    assert(r.len() == s.len() + 1);
    assert forall|j: int| 0 <= j < r.len() implies #[trigger] r[j] == (if j < p {
        s[j]
    } else if j == p {
        x
    } else {
        s[j - 1]
    }) by {}
    assert forall|i: int, j: int| 0 <= i < j < r.len() implies !finding_lt(#[trigger] r[j], #[trigger] r[i]) by {
        if j < p {
        } else if j == p {
            assert(!finding_lt(x, s[i]));
        } else if i < p {
            assert(!finding_lt(x, s[i]));
            // s[i] <= x < s[p] <= s[j - 1]
            if j - 1 > p {
                lemma_lt_le(x, s[p], s[j - 1]);
            }
            if finding_lt(s[j - 1], s[i]) {
                lemma_lt_le(s[j - 1], s[i], x);
                lemma_lt_asymmetric(x, s[j - 1]);
            }
        } else if i == p {
            if j - 1 == p {
                lemma_lt_asymmetric(x, s[p]);
            } else {
                lemma_lt_le(x, s[p], s[j - 1]);
                lemma_lt_asymmetric(x, s[j - 1]);
            }
        } else {
        }
    }
}

/// The stable sort leaves every finding ordered.
pub proof fn lemma_stable_sort_in_order(s: Seq<FindingView>)
    ensures
        in_order(stable_sort(s)),
        stable_sort(s).len() == s.len(),
    decreases s.len(),
{
    if s.len() > 0 {
        lemma_stable_sort_in_order(s.drop_last());
        lemma_insert_in_order_sorted(stable_sort(s.drop_last()), s.last());
    }
}

/// The stable sort keeps exactly the findings it was given.
pub proof fn lemma_stable_sort_permutes(s: Seq<FindingView>)
    ensures
        stable_sort(s).to_multiset() == s.to_multiset(),
    decreases s.len(),
{
    broadcast use vstd::seq_lib::group_to_multiset_ensures;
    if s.len() > 0 {
        lemma_stable_sort_permutes(s.drop_last());
        let t = stable_sort(s.drop_last());
        lemma_first_after_bounds(t, s.last());
        let p = first_after(t, s.last());
        assert(t =~= t.take(p) + t.skip(p));
        vstd::seq_lib::lemma_multiset_commutative(t.take(p), t.skip(p));
        vstd::seq_lib::lemma_multiset_commutative(t.take(p).push(s.last()), t.skip(p));
        assert(s =~= s.drop_last().push(s.last()));
    }
}

/// Whether finding `a` is ordered strictly before finding `b`.
pub fn finding_less(a: &Finding, b: &Finding) -> (res: bool)
    ensures
        res == finding_lt(a@, b@),
{
    let ka: &str = match &a.rule_id {
        Some(r) => r.as_str(),
        None => "",
    };
    let kb: &str = match &b.rule_id {
        Some(r) => r.as_str(),
        None => "",
    };
    proof {
        reveal_strlit("");
        assert(ka@ == rule_id_key(a@));
        assert(kb@ == rule_id_key(b@));
    }
    if str_lt(ka, kb) {
        true
    } else if str_eq(ka, kb) {
        str_lt(a.message.as_str(), b.message.as_str())
    } else {
        false
    }
}

/// Sorts findings by rule id, then message; findings that compare equal keep
/// their order.
pub fn sort_findings(findings: Vec<Finding>) -> (res: Vec<Finding>)
    ensures
        finding_views(res@) == stable_sort(finding_views(findings@)),
{
    let ghost all = finding_views(findings@);
    let mut out: Vec<Finding> = Vec::new();
    proof {
        assert(all.take(0) =~= Seq::<FindingView>::empty());
        assert(finding_views(out@) =~= Seq::<FindingView>::empty());
    }
    for f in it: findings.into_iter()
        invariant
            all == finding_views(it.seq()),
            finding_views(out@) == stable_sort(all.take(it.index() as int)),
    {
        let ghost k = it.index() as int;
        let ghost sorted = finding_views(out@);
        let mut i: usize = 0;
        while i < out.len() && !finding_less(&f, &out[i])
            invariant
                i <= out@.len(),
                sorted == finding_views(out@),
                forall|j: int| 0 <= j < i ==> !finding_lt(f@, #[trigger] sorted[j]),
            decreases out.len() - i,
        {
            i = i + 1;
        }
        proof {
            lemma_first_after_is(sorted, f@, i as int);
            assert(all.take(k + 1).drop_last() =~= all.take(k));
            assert(all.take(k + 1).last() == f@);
        }
        out.insert(i, f);
        proof {
            assert(finding_views(out@) =~= insert_in_order(sorted, all.take(k + 1).last()));
        }
    }
    proof {
        assert(all.take(all.len() as int) =~= all);
    }
    out
}

} // verus!
