//! The aggregator: it drops repeated findings, orders the rest and gives the
//! verdict.
use vstd::prelude::*;
use crate::rules::{Finding, FindingModel, models};

verus! {

/// The outcome of the analysis of one function.
#[derive(Debug, PartialEq, Eq)]
pub enum Verdict {
    /// Nothing was found.
    Clean,
    /// The findings, the most severe first.
    Buggy(Vec<Finding>),
}

/// The mathematical value of a verdict.
pub enum VerdictModel {
    Clean,
    Buggy(Seq<FindingModel>),
}

impl View for Verdict {
    type V = VerdictModel;

    open spec fn view(&self) -> VerdictModel {
        match self {
            Verdict::Clean => VerdictModel::Clean,
            Verdict::Buggy(findings) => VerdictModel::Buggy(models(findings@)),
        }
    }
}

/// Whether two findings report the same rule at the same place.
pub open spec fn spec_same_site(a: FindingModel, b: FindingModel) -> bool {
    a.rule == b.rule && a.location == b.location
}

/// Whether `a` comes before `b` when findings are ordered: the more severe first, and
/// among equals the one that points at the earlier place.
pub open spec fn spec_ranks_before(a: FindingModel, b: FindingModel) -> bool {
    a.severity.rank() > b.severity.rank() || (a.severity.rank() == b.severity.rank()
        && a.location.before(b.location))
}

/// Whether one of `findings` reports the same rule at the same place as `f`.
pub open spec fn seen(findings: Seq<FindingModel>, f: FindingModel) -> bool {
    exists|i: int| 0 <= i < findings.len() && spec_same_site(#[trigger] findings[i], f)
}

/// `findings` without those that repeat the rule and the place of an earlier
/// one.
pub open spec fn dedup(findings: Seq<FindingModel>) -> Seq<FindingModel>
    decreases findings.len(),
{
    if findings.len() == 0 {
        Seq::empty()
    } else {
        let before = dedup(findings.drop_last());
        if seen(before, findings.last()) {
            before
        } else {
            before.push(findings.last())
        }
    }
}

/// The ordered list `sorted` with `f` put in: behind every finding that does
/// not come after it.
pub open spec fn insert_sorted(sorted: Seq<FindingModel>, f: FindingModel) -> Seq<FindingModel>
    decreases sorted.len(),
{
    if sorted.len() > 0 && spec_ranks_before(f, sorted.last()) {
        insert_sorted(sorted.drop_last(), f).push(sorted.last())
    } else {
        sorted.push(f)
    }
}

/// `findings` in the order of a verdict. Findings that weigh the same and
/// point at the same place keep their order.
pub open spec fn sort(findings: Seq<FindingModel>) -> Seq<FindingModel>
    decreases findings.len(),
{
    if findings.len() == 0 {
        Seq::empty()
    } else {
        insert_sorted(sort(findings.drop_last()), findings.last())
    }
}

/// The verdict on a list of findings.
pub open spec fn spec_aggregate(findings: Seq<FindingModel>) -> VerdictModel {
    let kept = sort(dedup(findings));
    if kept.len() == 0 {
        VerdictModel::Clean
    } else {
        VerdictModel::Buggy(kept)
    }
}

/// Executable form of [`spec_same_site`].
pub fn same_site(a: &Finding, b: &Finding) -> (r: bool)
    ensures
        r == spec_same_site(a@, b@),
{
    a.rule == b.rule && a.location == b.location
}

/// Executable form of [`spec_ranks_before`].
pub fn ranks_before(a: &Finding, b: &Finding) -> (r: bool)
    ensures
        r == spec_ranks_before(a@, b@),
{
    let ra = a.severity.rank();
    let rb = b.severity.rank();
    ra > rb || (ra == rb && a.location.before(b.location))
}

/// The findings in the opposite order.
fn reversed(findings: Vec<Finding>) -> (r: Vec<Finding>)
    ensures
        r@ == findings@.reverse(),
{
    let ghost all = findings@;
    let mut rest = findings;
    let mut r: Vec<Finding> = Vec::new();
    while rest.len() > 0
        invariant
            rest.len() <= all.len(),
            rest@ == all.take(rest.len() as int),
            r@ == all.skip(rest.len() as int).reverse(),
        decreases rest.len(),
    {
        let ghost n = rest.len() as int;
        match rest.pop() {
            Some(f) => {
                r.push(f);
                proof {
                    assert(rest@ =~= all.take(n - 1));
                    assert(all.skip(n - 1).reverse() =~= all.skip(n).reverse().push(all[n - 1]));
                }
            },
            None => {},
        }
    }
    proof {
        assert(all.skip(0) =~= all);
    }
    r
}

/// Whether one of `kept` reports the same rule at the same place as `f`.
fn is_seen(kept: &Vec<Finding>, f: &Finding) -> (r: bool)
    ensures
        r == seen(models(kept@), f@),
{
    let mut i: usize = 0;
    while i < kept.len()
        invariant
            i <= kept.len(),
            forall|j: int| 0 <= j < i ==> !spec_same_site(#[trigger] models(kept@)[j], f@),
        decreases kept.len() - i,
    {
        if same_site(&kept[i], f) {
            assert(spec_same_site(models(kept@)[i as int], f@));
            return true;
        }
        i = i + 1;
    }
    false
}

/// Puts `f` into the ordered list `sorted`.
fn insert(sorted: &mut Vec<Finding>, f: Finding)
    ensures
        models(final(sorted)@) == insert_sorted(models(old(sorted)@), f@),
{
    let ghost start = models(sorted@);
    let mut at: usize = sorted.len();
    proof {
        assert(start.take(at as int) =~= start);
        assert(insert_sorted(start, f@) + start.skip(at as int) =~= insert_sorted(start, f@));
    }
    while at > 0 && ranks_before(&f, &sorted[at - 1])
        invariant
            at <= sorted.len(),
            sorted@ == old(sorted)@,
            start == models(sorted@),
            insert_sorted(start, f@) == insert_sorted(start.take(at as int), f@) + start.skip(
                at as int,
            ),
        decreases at,
    {
        proof {
            let head = start.take(at as int);
            assert(head.drop_last() =~= start.take(at - 1));
            assert(insert_sorted(head.drop_last(), f@).push(head.last()) + start.skip(at as int)
                =~= insert_sorted(head.drop_last(), f@) + start.skip(at - 1));
        }
        at = at - 1;
    }
    proof {
        let head = start.take(at as int);
        assert(insert_sorted(head, f@) == head.push(f@));
        assert(head.push(f@) + start.skip(at as int) =~= start.insert(at as int, f@));
        assert(start.take(start.len() as int) =~= start);
    }
    sorted.insert(at, f);
    assert(models(sorted@) =~= start.insert(at as int, f@));
}

/// Merges the findings of all rules for one function into one outcome:
/// a finding that repeats the rule and the place of an earlier one is
/// dropped, the rest are ordered by severity, the most severe first, and then
/// by place. Without findings the verdict is `Clean`.
pub fn aggregate(findings: Vec<Finding>) -> (verdict: Verdict)
    ensures
        verdict@ == spec_aggregate(models(findings@)),
{
    let ghost all = models(findings@);
    let ghost total = findings.len() as int;
    let mut rest = reversed(findings);
    let mut kept: Vec<Finding> = Vec::new();
    assert(models(kept@) =~= dedup(all.take(0)));
    while rest.len() > 0
        invariant
            rest.len() <= total,
            total == all.len(),
            models(rest@) =~= all.skip(total - rest.len()).reverse(),
            models(kept@) == dedup(all.take(total - rest.len())),
        decreases rest.len(),
    {
        let ghost done = total - rest.len();
        let ghost old_rest = rest@;
        let ghost old_kept = kept@;
        match rest.pop() {
            Some(f) => {
                proof {
                    assert(models(old_rest).last() == f@);
                    assert(f@ == all[done]);
                    assert(all.take(done + 1).drop_last() =~= all.take(done));
                    assert(models(rest@) =~= models(old_rest).drop_last());
                    assert(models(old_rest).drop_last() =~= all.skip(done + 1).reverse());
                }
                if !is_seen(&kept, &f) {
                    kept.push(f);
                    assert(models(kept@) =~= models(old_kept).push(f@));
                }
            },
            None => {},
        }
    }
    proof {
        assert(all.take(total) =~= all);
    }
    let ghost unique = models(kept@);
    let ghost count = kept.len() as int;
    let mut rest = reversed(kept);
    let mut sorted: Vec<Finding> = Vec::new();
    assert(models(sorted@) =~= sort(unique.take(0)));
    while rest.len() > 0
        invariant
            rest.len() <= count,
            count == unique.len(),
            models(rest@) =~= unique.skip(count - rest.len()).reverse(),
            models(sorted@) == sort(unique.take(count - rest.len())),
        decreases rest.len(),
    {
        let ghost done = count - rest.len();
        let ghost old_rest = rest@;
        match rest.pop() {
            Some(f) => {
                proof {
                    assert(models(old_rest).last() == f@);
                    assert(f@ == unique[done]);
                    assert(unique.take(done + 1).drop_last() =~= unique.take(done));
                    assert(models(rest@) =~= models(old_rest).drop_last());
                    assert(models(old_rest).drop_last() =~= unique.skip(done + 1).reverse());
                }
                insert(&mut sorted, f);
            },
            None => {},
        }
    }
    proof {
        assert(unique.take(count) =~= unique);
    }
    if sorted.len() == 0 {
        Verdict::Clean
    } else {
        Verdict::Buggy(sorted)
    }
}

/// Whether no finding of the list comes before an earlier one.
pub open spec fn ordered(findings: Seq<FindingModel>) -> bool {
    forall|i: int, j: int|
        0 <= i < j < findings.len() ==> !spec_ranks_before(
            #[trigger] findings[j],
            #[trigger] findings[i],
        )
}

/// Whether no two findings of the list report the same rule at the same
/// place.
pub open spec fn distinct(findings: Seq<FindingModel>) -> bool {
    forall|i: int, j: int|
        0 <= i < j < findings.len() ==> !spec_same_site(
            #[trigger] findings[i],
            #[trigger] findings[j],
        )
}

/// The place at which `f` is put into the ordered list `sorted`.
pub open spec fn insert_at(sorted: Seq<FindingModel>, f: FindingModel) -> int
    decreases sorted.len(),
{
    if sorted.len() > 0 && spec_ranks_before(f, sorted.last()) {
        insert_at(sorted.drop_last(), f)
    } else {
        sorted.len() as int
    }
}

/// Putting a finding into an ordered list inserts it at one place: behind
/// everything that it does not come before, and before the rest.
pub proof fn lemma_insert_sorted_is_insert(sorted: Seq<FindingModel>, f: FindingModel)
    ensures
        0 <= insert_at(sorted, f) <= sorted.len(),
        insert_sorted(sorted, f) == sorted.insert(insert_at(sorted, f), f),
        forall|i: int|
            insert_at(sorted, f) <= i < sorted.len() ==> spec_ranks_before(f, #[trigger] sorted[i]),
        insert_at(sorted, f) > 0 ==> !spec_ranks_before(f, sorted[insert_at(sorted, f) - 1]),
    decreases sorted.len(),
{
    if sorted.len() > 0 && spec_ranks_before(f, sorted.last()) {
        let rest = sorted.drop_last();
        lemma_insert_sorted_is_insert(rest, f);
        let at = insert_at(rest, f);
        assert(rest.insert(at, f).push(sorted.last()) =~= sorted.insert(at, f));
        assert forall|i: int| at <= i < sorted.len() implies spec_ranks_before(
            f,
            #[trigger] sorted[i],
        ) by {
            if i < rest.len() {
                assert(spec_ranks_before(f, rest[i]));
            }
        }
    } else {
        assert(sorted.push(f) =~= sorted.insert(sorted.len() as int, f));
    }
}

/// Putting a finding into an ordered list leaves it ordered.
pub proof fn lemma_insert_sorted_ordered(sorted: Seq<FindingModel>, f: FindingModel)
    requires
        ordered(sorted),
    ensures
        ordered(insert_sorted(sorted, f)),
{
    lemma_insert_sorted_is_insert(sorted, f);
    let at = insert_at(sorted, f);
    let r = sorted.insert(at, f);
    assert forall|i: int, j: int| 0 <= i < j < r.len() implies !spec_ranks_before(
        #[trigger] r[j],
        #[trigger] r[i],
    ) by {
        if j == at {
            // `f` does not come before its neighbour, which comes before
            // nothing that stands earlier.
            assert(!spec_ranks_before(f, sorted[at - 1]));
            if i < at - 1 {
                assert(!spec_ranks_before(sorted[at - 1], sorted[i]));
            }
        } else if i == at {
            assert(spec_ranks_before(f, sorted[j - 1]));
        } else if i < at && j > at {
            assert(!spec_ranks_before(sorted[j - 1], sorted[i]));
        } else if j < at {
            assert(!spec_ranks_before(sorted[j], sorted[i]));
        } else {
            assert(!spec_ranks_before(sorted[j - 1], sorted[i - 1]));
        }
    }
}

/// Ordering puts the findings in order.
pub proof fn lemma_sort_ordered(findings: Seq<FindingModel>)
    ensures
        ordered(sort(findings)),
    decreases findings.len(),
{
    if findings.len() > 0 {
        lemma_sort_ordered(findings.drop_last());
        lemma_insert_sorted_ordered(sort(findings.drop_last()), findings.last());
    }
}

/// Of each rule and place among `findings`, one finding is kept, and what is
/// kept is among `findings`.
pub proof fn lemma_dedup_distinct(findings: Seq<FindingModel>)
    ensures
        distinct(dedup(findings)),
        forall|i: int| 0 <= i < findings.len() ==> seen(dedup(findings), #[trigger] findings[i]),
        forall|k: int|
            0 <= k < dedup(findings).len() ==> findings.contains(#[trigger] dedup(findings)[k]),
    decreases findings.len(),
{
    if findings.len() > 0 {
        let rest = findings.drop_last();
        let last = findings.last();
        lemma_dedup_distinct(rest);
        let before = dedup(rest);
        let kept = dedup(findings);
        assert forall|i: int| 0 <= i < findings.len() implies seen(
            kept,
            #[trigger] findings[i],
        ) by {
            if i < rest.len() {
                assert(seen(before, rest[i]));
                let w = choose|w: int| 0 <= w < before.len() && spec_same_site(before[w], rest[i]);
                assert(spec_same_site(kept[w], findings[i]));
            } else if seen(before, last) {
                let w = choose|w: int| 0 <= w < before.len() && spec_same_site(before[w], last);
                assert(spec_same_site(kept[w], findings[i]));
            } else {
                assert(spec_same_site(kept[kept.len() - 1], findings[i]));
            }
        }
        assert forall|k: int| 0 <= k < kept.len() implies findings.contains(#[trigger] kept[k]) by {
            if k < before.len() {
                assert(rest.contains(before[k]));
                let w = choose|w: int| 0 <= w < rest.len() && rest[w] == before[k];
                assert(findings[w] == kept[k]);
            } else {
                assert(findings[findings.len() - 1] == kept[k]);
            }
        }
        if !seen(before, last) {
            assert forall|i: int, j: int| 0 <= i < j < kept.len() implies !spec_same_site(
                #[trigger] kept[i],
                #[trigger] kept[j],
            ) by {
                if j < before.len() {
                    assert(!spec_same_site(before[i], before[j]));
                } else {
                    assert(!spec_same_site(before[i], last));
                }
            }
        }
    }
}

/// Putting a finding into a list keeps what was there and adds the finding.
pub proof fn lemma_insert_keeps(sorted: Seq<FindingModel>, f: FindingModel)
    requires
        distinct(sorted),
        !seen(sorted, f),
    ensures
        distinct(insert_sorted(sorted, f)),
        forall|x: FindingModel|
            seen(insert_sorted(sorted, f), x) <==> seen(sorted, x) || spec_same_site(f, x),
        forall|x: FindingModel|
            insert_sorted(sorted, f).contains(x) <==> sorted.contains(x) || x == f,
{
    lemma_insert_sorted_is_insert(sorted, f);
    let at = insert_at(sorted, f);
    let r = sorted.insert(at, f);
    assert forall|i: int, j: int| 0 <= i < j < r.len() implies !spec_same_site(
        #[trigger] r[i],
        #[trigger] r[j],
    ) by {
        if i == at {
            assert(!spec_same_site(sorted[j - 1], f));
        } else if j == at {
            assert(!spec_same_site(sorted[i], f));
        } else if i < at && j > at {
            assert(!spec_same_site(sorted[i], sorted[j - 1]));
        } else if j < at {
            assert(!spec_same_site(sorted[i], sorted[j]));
        } else {
            assert(!spec_same_site(sorted[i - 1], sorted[j - 1]));
        }
    }
    assert forall|x: FindingModel| seen(r, x) <==> seen(sorted, x) || spec_same_site(f, x) by {
        if seen(sorted, x) {
            let w = choose|w: int| 0 <= w < sorted.len() && spec_same_site(sorted[w], x);
            if w < at {
                assert(spec_same_site(r[w], x));
            } else {
                assert(spec_same_site(r[w + 1], x));
            }
        }
        if spec_same_site(f, x) {
            assert(spec_same_site(r[at], x));
        }
        if seen(r, x) {
            let w = choose|w: int| 0 <= w < r.len() && spec_same_site(r[w], x);
            if w < at {
                assert(spec_same_site(sorted[w], x));
            } else if w > at {
                assert(spec_same_site(sorted[w - 1], x));
            }
        }
    }
    assert forall|x: FindingModel| r.contains(x) <==> sorted.contains(x) || x == f by {
        if sorted.contains(x) {
            let w = choose|w: int| 0 <= w < sorted.len() && sorted[w] == x;
            if w < at {
                assert(r[w] == x);
            } else {
                assert(r[w + 1] == x);
            }
        }
        if x == f {
            assert(r[at] == x);
        }
        if r.contains(x) {
            let w = choose|w: int| 0 <= w < r.len() && r[w] == x;
            if w < at {
                assert(sorted[w] == x);
            } else if w > at {
                assert(sorted[w - 1] == x);
            }
        }
    }
}

/// Ordering findings of which no two report the same rule at the same place
/// keeps them all, and adds none.
pub proof fn lemma_sort_keeps(findings: Seq<FindingModel>)
    requires
        distinct(findings),
    ensures
        distinct(sort(findings)),
        forall|x: FindingModel| seen(sort(findings), x) <==> seen(findings, x),
        forall|x: FindingModel| sort(findings).contains(x) <==> findings.contains(x),
    decreases findings.len(),
{
    if findings.len() > 0 {
        let rest = findings.drop_last();
        let last = findings.last();
        assert forall|i: int, j: int| 0 <= i < j < rest.len() implies !spec_same_site(
            #[trigger] rest[i],
            #[trigger] rest[j],
        ) by {
            assert(!spec_same_site(findings[i], findings[j]));
        }
        lemma_sort_keeps(rest);
        if seen(rest, last) {
            let w = choose|w: int| 0 <= w < rest.len() && spec_same_site(rest[w], last);
            assert(!spec_same_site(findings[w], findings[findings.len() - 1]));
        }
        lemma_insert_keeps(sort(rest), last);
        assert forall|x: FindingModel| seen(sort(findings), x) <==> seen(findings, x) by {
            if seen(rest, x) {
                let w = choose|w: int| 0 <= w < rest.len() && spec_same_site(rest[w], x);
                assert(spec_same_site(findings[w], x));
            }
            if spec_same_site(last, x) {
                assert(spec_same_site(findings[findings.len() - 1], x));
            }
            if seen(findings, x) {
                let w = choose|w: int| 0 <= w < findings.len() && spec_same_site(findings[w], x);
                if w < rest.len() {
                    assert(spec_same_site(rest[w], x));
                }
            }
        }
        assert forall|x: FindingModel| sort(findings).contains(x) <==> findings.contains(x) by {
            if rest.contains(x) {
                let w = choose|w: int| 0 <= w < rest.len() && rest[w] == x;
                assert(findings[w] == x);
            }
            if x == last {
                assert(findings[findings.len() - 1] == x);
            }
            if findings.contains(x) {
                let w = choose|w: int| 0 <= w < findings.len() && findings[w] == x;
                if w < rest.len() {
                    assert(rest[w] == x);
                }
            }
        }
    } else {
        assert forall|x: FindingModel| !seen(findings, x) by {}
        assert forall|x: FindingModel| !#[trigger] findings.contains(x) by {}
        assert(sort(findings) =~= Seq::empty());
    }
}

/// What a verdict holds. The findings of a verdict are in order, the more
/// severe first and then by place; no two of them report the same rule at
/// the same place; each of them is one of the findings that were merged; and
/// of each rule and place among those, the verdict holds a finding.
pub proof fn law_verdict_is_ordered_and_unique(findings: Seq<FindingModel>)
    ensures
        ordered(sort(dedup(findings))),
        distinct(sort(dedup(findings))),
        forall|k: int|
            0 <= k < sort(dedup(findings)).len() ==> findings.contains(
                #[trigger] sort(dedup(findings))[k],
            ),
        forall|i: int|
            0 <= i < findings.len() ==> seen(sort(dedup(findings)), #[trigger] findings[i]),
        spec_aggregate(findings) == VerdictModel::Clean <==> findings.len() == 0,
{
    let unique = dedup(findings);
    let kept = sort(unique);
    lemma_sort_ordered(unique);
    lemma_dedup_distinct(findings);
    lemma_sort_keeps(unique);
    assert forall|k: int| 0 <= k < kept.len() implies findings.contains(#[trigger] kept[k]) by {
        assert(kept.contains(kept[k]));
        assert(unique.contains(kept[k]));
        let w = choose|w: int| 0 <= w < unique.len() && unique[w] == kept[k];
        assert(findings.contains(unique[w]));
    }
    assert forall|i: int| 0 <= i < findings.len() implies seen(kept, #[trigger] findings[i]) by {
        assert(seen(unique, findings[i]));
    }
    if findings.len() > 0 {
        assert(seen(kept, findings[0]));
    } else {
        assert(unique =~= Seq::empty());
        assert(kept =~= Seq::empty());
    }
}

} // verus!
