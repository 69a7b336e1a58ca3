//! One analysis run: both rules over the same token stream, their
//! diagnostics merged and stable-sorted by line (ties keep rule and
//! encounter order), ready for the reporter.

use vstd::prelude::*;

use crate::rules::alias::{check, spec_check_alias};
use crate::rules::compiled::{section_definition, spec_section_definition};
use crate::thinbasic_script::{issues_view, Code, Issue};
use crate::thinbasic_script::IssueSummary;
use crate::tokenizer::model::spec_tokenize;

verus! {

/// First index at or after `k` whose diagnostic sits on a line strictly
/// after `line`.
pub open spec fn first_gt_from(r: Seq<Issue>, line: nat, k: int) -> int
    decreases r.len() - k
        when 0 <= k <= r.len()
{
    if k >= r.len() {
        k
    } else if r[k].line > line {
        k
    } else {
        first_gt_from(r, line, k + 1)
    }
}

pub proof fn lemma_first_gt_from(r: Seq<Issue>, line: nat, k: int)
    requires
        0 <= k <= r.len(),
    ensures
        k <= first_gt_from(r, line, k) <= r.len(),
        forall|u: int| k <= u < first_gt_from(r, line, k) ==> #[trigger] r[u].line <= line,
        first_gt_from(r, line, k) < r.len() ==> r[first_gt_from(r, line, k)].line > line,
    decreases r.len() - k,
{
    if k < r.len() && !(r[k].line > line) {
        lemma_first_gt_from(r, line, k + 1);
    }
}

/// The index where a scan stopped is where `first_gt_from` points.
proof fn lemma_first_gt_from_at(r: Seq<Issue>, line: nat, k: int, p: int)
    requires
        0 <= k <= p <= r.len(),
        forall|u: int| k <= u < p ==> #[trigger] r[u].line <= line,
        p < r.len() ==> r[p].line > line,
    ensures
        first_gt_from(r, line, k) == p,
    decreases p - k,
{
    if k < p {
        lemma_first_gt_from_at(r, line, k + 1, p);
    }
}

/// Stable insertion of `x`: after every diagnostic whose line is less
/// than or equal to its own, before the first strictly greater.
pub open spec fn insert_by_line(r: Seq<Issue>, x: Issue) -> Seq<Issue> {
    let p = first_gt_from(r, x.line, 0);
    r.take(p) + seq![x] + r.skip(p)
}

/// Stable sort by line: diagnostics are ordered by non-decreasing line,
/// and those on equal lines keep their original order.
pub open spec fn sort_by_line(s: Seq<Issue>) -> Seq<Issue>
    decreases s.len(),
{
    if s.len() == 0 {
        s
    } else {
        insert_by_line(sort_by_line(s.drop_last()), s.last())
    }
}

/// Diagnostics in non-decreasing line order.
pub open spec fn sorted_by_line(r: Seq<Issue>) -> bool {
    forall|i: int, j: int| 0 <= i <= j < r.len() ==> #[trigger] r[i].line <= #[trigger] r[j].line
}

proof fn lemma_insert_by_line_sorted(r: Seq<Issue>, x: Issue)
    requires
        sorted_by_line(r),
    ensures
        sorted_by_line(insert_by_line(r, x)),
{
    let p = first_gt_from(r, x.line, 0);
    lemma_first_gt_from(r, x.line, 0);
    let out = insert_by_line(r, x);
    assert forall|i: int, j: int| 0 <= i <= j < out.len() implies #[trigger] out[i].line
        <= #[trigger] out[j].line by {
        if i < p {
            assert(out[i] == r[i]);
        } else if i == p {
            assert(out[i] == x);
        } else {
            assert(out[i] == r[i - 1]);
        }
        if j < p {
            assert(out[j] == r[j]);
        } else if j == p {
            assert(out[j] == x);
        } else {
            assert(out[j] == r[j - 1]);
        }
        if i < p && p <= j && j > p {
            assert(r[i].line <= x.line);
            assert(p <= j - 1 < r.len());
            if p < r.len() {
                assert(r[p].line > x.line);
            }
        }
    }
}

/// The result of the stable sort is sorted by line.
pub proof fn lemma_sort_by_line_sorted(s: Seq<Issue>)
    ensures
        sorted_by_line(sort_by_line(s)),
    decreases s.len(),
{
    if s.len() > 0 {
        lemma_sort_by_line_sorted(s.drop_last());
        lemma_insert_by_line_sorted(sort_by_line(s.drop_last()), s.last());
    }
}

/// The diagnostics that sit on line `ln`.
pub open spec fn on_line(ln: nat) -> spec_fn(Issue) -> bool {
    |x: Issue| x.line == ln
}

proof fn lemma_filter_none(s: Seq<Issue>, pred: spec_fn(Issue) -> bool)
    requires
        forall|i: int| 0 <= i < s.len() ==> !pred(#[trigger] s[i]),
    ensures
        s.filter(pred) == Seq::<Issue>::empty(),
    decreases s.len(),
{
    reveal(Seq::filter);
    if s.len() > 0 {
        assert(!pred(s.last()));
        assert(forall|i: int| 0 <= i < s.drop_last().len() ==> !pred(
            #[trigger] s.drop_last()[i],
        ));
        lemma_filter_none(s.drop_last(), pred);
    }
}

proof fn lemma_filter_singleton(x: Issue, pred: spec_fn(Issue) -> bool)
    ensures
        pred(x) ==> seq![x].filter(pred) == seq![x],
        !pred(x) ==> seq![x].filter(pred) == Seq::<Issue>::empty(),
{
    reveal(Seq::filter);
    assert(seq![x].drop_last() =~= Seq::<Issue>::empty());
    assert(seq![x].last() == x);
    if pred(x) {
        assert(seq![x].filter(pred) =~= seq![x]);
    } else {
        assert(Seq::<Issue>::empty().filter(pred) == Seq::<Issue>::empty());
        assert(seq![x].filter(pred) == seq![x].drop_last().filter(pred));
    }
}

proof fn lemma_insert_by_line_stable(r: Seq<Issue>, x: Issue, ln: nat)
    requires
        sorted_by_line(r),
    ensures
        x.line == ln ==> insert_by_line(r, x).filter(on_line(ln)) == r.filter(on_line(ln)).push(
            x,
        ),
        x.line != ln ==> insert_by_line(r, x).filter(on_line(ln)) == r.filter(on_line(ln)),
{
    let pred = on_line(ln);
    let p = first_gt_from(r, x.line, 0);
    lemma_first_gt_from(r, x.line, 0);
    let a = r.take(p);
    let b = r.skip(p);
    assert(r =~= a + b);
    Seq::filter_distributes_over_add(a, b, pred);
    let ins = insert_by_line(r, x);
    assert(ins == a + seq![x] + b);
    Seq::filter_distributes_over_add(a + seq![x], b, pred);
    Seq::filter_distributes_over_add(a, seq![x], pred);
    lemma_filter_singleton(x, pred);
    if x.line == ln {
        assert forall|i: int| 0 <= i < b.len() implies !pred(#[trigger] b[i]) by {
            assert(b[i] == r[p + i]);
            assert(r[p].line <= r[p + i].line);
            assert(r[p].line > x.line);
        }
        lemma_filter_none(b, pred);
        assert(ins.filter(pred) =~= r.filter(pred).push(x));
    } else {
        assert(ins.filter(pred) =~= r.filter(pred));
    }
}

/// The sort is stable: for each line, the diagnostics on that line come
/// out in exactly the order they went in.
pub proof fn lemma_sort_by_line_stable(s: Seq<Issue>, ln: nat)
    ensures
        sort_by_line(s).filter(on_line(ln)) == s.filter(on_line(ln)),
    decreases s.len(),
{
    reveal(Seq::filter);
    if s.len() > 0 {
        let t = s.drop_last();
        let x = s.last();
        lemma_sort_by_line_stable(t, ln);
        lemma_sort_by_line_sorted(t);
        lemma_insert_by_line_stable(sort_by_line(t), x, ln);
    }
}

/// All diagnostics of one run over a script: the directive-pairing rule's,
/// then the alias rule's, stable-sorted by line.
pub open spec fn spec_get_issues(content: Seq<char>, name: Seq<char>) -> Seq<Issue> {
    sort_by_line(
        spec_section_definition(spec_tokenize(content), name) + spec_check_alias(
            spec_tokenize(content),
            false,
            name,
        ),
    )
}

/// An analysis run is a function of the script text alone: two runs over
/// an unmodified script produce identical diagnostic lists.
pub proof fn lemma_analysis_idempotent(
    first: Seq<Issue>,
    second: Seq<Issue>,
    content: Seq<char>,
    name: Seq<char>,
)
    requires
        first == spec_get_issues(content, name),
        second == spec_get_issues(content, name),
    ensures
        first == second,
{
}

/// Runs both rules over the script and merges their diagnostics, stable-
/// sorted by line.
pub fn get_issues(code: &Code) -> (issues: Vec<IssueSummary>)
    requires
        code.wf(),
    ensures
        issues_view(issues@) == spec_get_issues(code@.content, code@.name),
{
    let mut all = section_definition(code);
    let mut alias_issues = check(code);
    let ghost part1 = issues_view(all@);
    let ghost part2 = issues_view(alias_issues@);
    all.append(&mut alias_issues);
    proof {
        assert(issues_view(all@) =~= part1 + part2);
    }
    let ghost merged = issues_view(all@);
    let mut issues: Vec<IssueSummary> = Vec::new();
    let mut k: usize = 0;
    proof {
        assert(merged.take(0) =~= Seq::<Issue>::empty());
    }
    while k < all.len()
        invariant
            merged == issues_view(all@),
            k <= all@.len(),
            issues_view(issues@) == sort_by_line(merged.take(k as int)),
        decreases all@.len() - k,
    {
        let x = all[k].clone();
        proof {
            assert(x@ == merged[k as int]);
        }
        let mut p: usize = 0;
        while p < issues.len() && issues[p].line <= x.line
            invariant
                p <= issues@.len(),
                forall|u: int|
                    0 <= u < p ==> #[trigger] issues_view(issues@)[u].line <= x@.line,
            decreases issues@.len() - p,
        {
            proof {
                assert(issues_view(issues@)[p as int].line == issues@[p as int]@.line);
            }
            p += 1;
        }
        let ghost before = issues_view(issues@);
        proof {
            if p < issues@.len() {
                assert(issues_view(issues@)[p as int].line == issues@[p as int]@.line);
            }
            lemma_first_gt_from_at(before, x@.line, 0, p as int);
        }
        issues.insert(p, x);
        proof {
            assert(issues_view(issues@) =~= insert_by_line(before, x@));
            assert(merged.take(k as int + 1).drop_last() =~= merged.take(k as int));
            assert(merged.take(k as int + 1).last() == merged[k as int]);
            assert(sort_by_line(merged.take(k as int + 1)) == insert_by_line(
                sort_by_line(merged.take(k as int)),
                merged[k as int],
            ));
        }
        k += 1;
    }
    proof {
        assert(merged.take(all@.len() as int) =~= merged);
    }
    issues
}

} // verus!
