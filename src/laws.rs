//! Properties of the rule as a whole, proved over its model.

use vstd::prelude::*;

use crate::config::{doc_tier, in_flow, is_choice, lemma_choices_of, tier_of, tier_upto, RequiresStatus};
use crate::diagnostic::DiagnosticModel;
use crate::document::{field_named, Context, Field};
use crate::lint::{failure_model, item_fetch, item_id, item_range, requires_items};
use crate::order::strictly_sorted;
use crate::text::{item_offset, lemma_item_within};

verus! {

proof fn lemma_tier_upto_last(flow: Seq<Seq<Seq<char>>>, n: int, i: int, label: Seq<char>)
    requires
        0 <= i < n <= flow.len(),
        flow[i].contains(label),
        forall|k: int| i < k < flow.len() ==> !(#[trigger] flow[k]).contains(label),
    ensures
        tier_upto(flow, n, label) == i + 1,
    decreases n,
{
    if n - 1 > i {
        lemma_tier_upto_last(flow, n - 1, i, label);
    }
}

/// A label's tier is one more than the index of the last set of `flow`
/// that holds it.
pub proof fn tier_is_index_plus_one(flow: Seq<Seq<Seq<char>>>, i: int, label: Seq<char>)
    requires
        0 <= i < flow.len(),
        flow[i].contains(label),
        forall|k: int| i < k < flow.len() ==> !(#[trigger] flow[k]).contains(label),
    ensures
        tier_of(flow, label) == i + 1,
{
    lemma_tier_upto_last(flow, flow.len() as int, i, label);
}

/// Tiers grow strictly with the index in `flow`: a label whose last set
/// comes before another label's last set has the lower tier, and both are
/// above 0.
pub proof fn tier_increases_with_index(
    flow: Seq<Seq<Seq<char>>>,
    i: int,
    j: int,
    a: Seq<char>,
    b: Seq<char>,
)
    requires
        0 <= i < j < flow.len(),
        flow[i].contains(a),
        flow[j].contains(b),
        forall|k: int| i < k < flow.len() ==> !(#[trigger] flow[k]).contains(a),
        forall|k: int| j < k < flow.len() ==> !(#[trigger] flow[k]).contains(b),
    ensures
        0 < tier_of(flow, a) < tier_of(flow, b),
{
    tier_is_index_plus_one(flow, i, a);
    tier_is_index_plus_one(flow, j, b);
}

proof fn lemma_tier_upto_absent(flow: Seq<Seq<Seq<char>>>, n: int, label: Seq<char>)
    requires
        0 <= n <= flow.len(),
        !in_flow(flow, label),
    ensures
        tier_upto(flow, n, label) == 0,
    decreases n,
{
    if n > 0 {
        assert(!flow[n - 1].contains(label));
        lemma_tier_upto_absent(flow, n - 1, label);
    }
}

/// A label that no set of `flow` holds has tier 0.
pub proof fn tier_of_unknown_label(flow: Seq<Seq<Seq<char>>>, label: Seq<char>)
    requires
        !in_flow(flow, label),
    ensures
        tier_of(flow, label) == 0,
{
    lemma_tier_upto_absent(flow, flow.len() as int, label);
}

/// A document without a `requires` header gets no finding, whatever its
/// status and the tiers.
pub proof fn no_requires_no_findings(rule: RequiresStatus, slug: Seq<char>, ctx: Context)
    requires
        field_named(ctx.preamble@, rule.requires@) is None,
    ensures
        rule.findings(slug, ctx) == Seq::<DiagnosticModel>::empty(),
{
}

proof fn lemma_no_offenders(rule: RequiresStatus, ctx: Context, f: Field, k: int)
    requires
        forall|j: int| 0 <= j < k ==> !#[trigger] rule.too_unstable(ctx, f, j),
    ensures
        rule.offenders(ctx, f, k).len() == 0,
    decreases k,
{
    if k > 0 {
        lemma_no_offenders(rule, ctx, f, k - 1);
    }
}

proof fn lemma_no_failures(rule: RequiresStatus, slug: Seq<char>, ctx: Context, f: Field, k: int)
    requires
        forall|j: int| 0 <= j < k ==> !(#[trigger] item_fetch(ctx, f, j) matches Some((_, Err(_)))),
    ensures
        rule.failures(slug, ctx, f, k).len() == 0,
    decreases k,
{
    if k > 0 {
        lemma_no_failures(rule, slug, ctx, f, k - 1);
    }
}

/// Where every document that was read has a tier at least that of the
/// document under check, there is no summary: the only findings are those
/// for documents that could not be read, and with none of those, there are
/// no findings at all.
pub proof fn stable_dependencies_no_summary(rule: RequiresStatus, slug: Seq<char>, ctx: Context, f: Field)
    requires
        field_named(ctx.preamble@, rule.requires@) == Some(f),
        forall|j: int|
            0 <= j < requires_items(f).len() ==> (#[trigger] item_fetch(ctx, f, j) matches Some(
                (_, Ok(doc)),
            ) ==> doc_tier(rule.flow_view(), doc@, rule.status@) >= doc_tier(
                rule.flow_view(),
                ctx.preamble@,
                rule.status@,
            )),
    ensures
        rule.findings(slug, ctx) == rule.failures(slug, ctx, f, requires_items(f).len() as int),
        (forall|j: int|
            0 <= j < requires_items(f).len() ==> !(#[trigger] item_fetch(ctx, f, j) matches Some(
                (_, Err(_)),
            ))) ==> rule.findings(slug, ctx).len() == 0,
{
    let n = requires_items(f).len() as int;
    assert forall|j: int| 0 <= j < n implies !#[trigger] rule.too_unstable(ctx, f, j) by {
        assert(item_fetch(ctx, f, j) matches Some((_, Ok(doc))) ==> doc_tier(
            rule.flow_view(),
            doc@,
            rule.status@,
        ) >= doc_tier(rule.flow_view(), ctx.preamble@, rule.status@));
    }
    lemma_no_offenders(rule, ctx, f, n);
    assert(rule.findings(slug, ctx) =~= rule.failures(slug, ctx, f, n));
    if forall|j: int| 0 <= j < n ==> !(#[trigger] item_fetch(ctx, f, j) matches Some((_, Err(_)))) {
        lemma_no_failures(rule, slug, ctx, f, n);
    }
}

/// The lowest tier among the documents read for the first `k` items is
/// one of their tiers and at most each of them; it exists as soon as one of
/// them was read.
pub proof fn lemma_min_tier(rule: RequiresStatus, ctx: Context, f: Field, k: int)
    requires
        0 <= k,
    ensures
        (exists|j: int| 0 <= j < k && #[trigger] item_fetch(ctx, f, j) matches Some((_, Ok(_))))
            ==> rule.min_tier(ctx, f, k) is Some,
        rule.min_tier(ctx, f, k) matches Some(m) ==> (forall|j: int|
            0 <= j < k ==> (#[trigger] item_fetch(ctx, f, j) matches Some((_, Ok(doc))) ==> m
                <= doc_tier(rule.flow_view(), doc@, rule.status@))),
        rule.min_tier(ctx, f, k) matches Some(m) ==> (exists|j: int|
            0 <= j < k && (#[trigger] item_fetch(ctx, f, j) matches Some((_, Ok(doc))) && m
                == doc_tier(rule.flow_view(), doc@, rule.status@))),
    decreases k,
{
    if k > 0 {
        lemma_min_tier(rule, ctx, f, k - 1);
        let j = k - 1;
        if let Some((_, Ok(doc))) = item_fetch(ctx, f, j) {
            let t = doc_tier(rule.flow_view(), doc@, rule.status@);
            match rule.min_tier(ctx, f, j) {
                Some(x) => {
                    if t < x {
                        assert(item_fetch(ctx, f, j) matches Some((_, Ok(d))) && t == doc_tier(
                            rule.flow_view(),
                            d@,
                            rule.status@,
                        ));
                    }
                },
                None => {
                    assert(item_fetch(ctx, f, j) matches Some((_, Ok(d))) && t == doc_tier(
                        rule.flow_view(),
                        d@,
                        rule.status@,
                    ));
                },
            }
        }
    }
}

proof fn lemma_offenders_nonempty(rule: RequiresStatus, ctx: Context, f: Field, k: int, j: int)
    requires
        0 <= j < k,
        rule.too_unstable(ctx, f, j),
    ensures
        rule.offenders(ctx, f, k).len() > 0,
    decreases k,
{
    if j < k - 1 {
        lemma_offenders_nonempty(rule, ctx, f, k - 1, j);
    }
}

/// Where some document that was read has a lower tier than the document
/// under check, the findings end with exactly one summary. It marks the
/// offending items in order, and suggests, sorted and each once, exactly the
/// labels whose tier is at most the lowest tier among the documents read.
pub proof fn unstable_dependency_one_summary(rule: RequiresStatus, slug: Seq<char>, ctx: Context, f: Field, i: int)
    requires
        field_named(ctx.preamble@, rule.requires@) == Some(f),
        0 <= i < requires_items(f).len(),
        item_fetch(ctx, f, i) matches Some((_, Ok(doc))) && doc_tier(rule.flow_view(), doc@, rule.status@)
            < doc_tier(rule.flow_view(), ctx.preamble@, rule.status@),
    ensures
        ({
            let n = requires_items(f).len() as int;
            let s = rule.summary_model(slug, ctx, f);
            &&& rule.findings(slug, ctx) == rule.failures(slug, ctx, f, n).push(s)
            &&& s.marks == rule.offenders(ctx, f, n)
            &&& s.marks.len() > 0
            &&& rule.min_tier(ctx, f, n) matches Some(m) && {
                let cs = rule.choice_list(Some(m));
                &&& strictly_sorted(cs)
                &&& forall|l: Seq<char>| #[trigger] cs.contains(l) <==> is_choice(rule.flow_view(), m, l)
                &&& s.footer == rule.footer_model(cs)
            }
        }),
{
    let n = requires_items(f).len() as int;
    assert(rule.too_unstable(ctx, f, i));
    lemma_offenders_nonempty(rule, ctx, f, n, i);
    lemma_min_tier(rule, ctx, f, n);
    assert(item_fetch(ctx, f, i) matches Some((_, Ok(_))));
    let m = rule.min_tier(ctx, f, n)->Some_0;
    lemma_choices_of(rule.flow_view(), m);
    assert(rule.findings(slug, ctx) =~= rule.failures(slug, ctx, f, n).push(
        rule.summary_model(slug, ctx, f),
    ));
}

/// An item that names no number adds no finding, no mark and no tier.
pub proof fn malformed_item_ignored(rule: RequiresStatus, slug: Seq<char>, ctx: Context, f: Field, k: int)
    requires
        0 <= k < requires_items(f).len(),
        item_id(requires_items(f)[k]) is None,
    ensures
        rule.failures(slug, ctx, f, k + 1) == rule.failures(slug, ctx, f, k),
        rule.offenders(ctx, f, k + 1) == rule.offenders(ctx, f, k),
        rule.min_tier(ctx, f, k + 1) == rule.min_tier(ctx, f, k),
{
    assert(rule.failures(slug, ctx, f, k + 1) =~= rule.failures(slug, ctx, f, k));
    assert(rule.offenders(ctx, f, k + 1) =~= rule.offenders(ctx, f, k));
}

/// A document that could not be read gets its own finding, marked at its
/// item, and adds no mark to the summary and no tier.
pub proof fn unreadable_dependency_reported(
    rule: RequiresStatus,
    slug: Seq<char>,
    ctx: Context,
    f: Field,
    k: int,
    id: u64,
    err: String,
)
    requires
        0 <= k < requires_items(f).len(),
        item_fetch(ctx, f, k) == Some((id, Err::<Vec<Field>, String>(err))),
    ensures
        rule.failures(slug, ctx, f, k + 1) == rule.failures(slug, ctx, f, k).push(
            failure_model(slug, ctx, f, k, id, err@),
        ),
        rule.offenders(ctx, f, k + 1) == rule.offenders(ctx, f, k),
        rule.min_tier(ctx, f, k + 1) == rule.min_tier(ctx, f, k),
{
    assert(rule.failures(slug, ctx, f, k + 1) =~= rule.failures(slug, ctx, f, k).push(
        failure_model(slug, ctx, f, k, id, err@),
    ));
    assert(rule.offenders(ctx, f, k + 1) =~= rule.offenders(ctx, f, k));
}

/// The range that marks an item covers exactly that item, untrimmed, in the
/// header's text `name:value`.
pub proof fn item_range_matches_item(f: Field, k: int)
    requires
        0 <= k < requires_items(f).len(),
        f.name@.len() + f.value@.len() + 1 <= usize::MAX,
    ensures
        (f.name@ + seq![':'] + f.value@).subrange(
            item_range(f, k).0 as int,
            item_range(f, k).1 as int,
        ) == requires_items(f)[k],
{
    lemma_item_within(f.value@, k);
    let h = f.name@ + seq![':'] + f.value@;
    let p: int = f.name@.len() + 1int;
    let items = requires_items(f);
    let o: int = item_offset(items, k) as int;
    let e: int = o + items[k].len() as int;
    assert(h.subrange(p + o, p + e) =~= f.value@.subrange(o, e));
}

/// Item `j` is a number whose mark stands at `range`.
pub open spec fn marks_item(f: Field, j: int, range: (usize, usize)) -> bool {
    &&& 0 <= j < requires_items(f).len()
    &&& item_id(requires_items(f)[j]) is Some
    &&& range == item_range(f, j)
}

proof fn lemma_offender_ranges(rule: RequiresStatus, ctx: Context, f: Field, k: int)
    requires
        k <= requires_items(f).len(),
    ensures
        forall|i: int|
            0 <= i < rule.offenders(ctx, f, k).len() ==> exists|j: int|
                0 <= j < k && marks_item(f, j, (#[trigger] rule.offenders(ctx, f, k)[i]).range),
    decreases k,
{
    if k > 0 {
        lemma_offender_ranges(rule, ctx, f, k - 1);
        let o = rule.offenders(ctx, f, k - 1);
        let o2 = rule.offenders(ctx, f, k);
        assert forall|i: int| 0 <= i < o2.len() implies exists|j: int|
            0 <= j < k && marks_item(f, j, (#[trigger] o2[i]).range) by {
            if i < o.len() {
                assert(o2[i] == o[i]);
                let j = choose|j: int| 0 <= j < k - 1 && marks_item(f, j, o[i].range);
                assert(0 <= j < k && marks_item(f, j, o2[i].range));
            } else {
                assert(rule.too_unstable(ctx, f, k - 1));
                assert(marks_item(f, k - 1, o2[i].range));
            }
        }
    }
}

proof fn lemma_failure_ranges(rule: RequiresStatus, slug: Seq<char>, ctx: Context, f: Field, k: int)
    requires
        k <= requires_items(f).len(),
    ensures
        forall|i: int|
            0 <= i < rule.failures(slug, ctx, f, k).len() ==> (#[trigger] rule.failures(slug, ctx, f, k)[i]).marks.len()
                == 1 && exists|j: int|
                0 <= j < k && marks_item(f, j, rule.failures(slug, ctx, f, k)[i].marks[0].range),
    decreases k,
{
    if k > 0 {
        lemma_failure_ranges(rule, slug, ctx, f, k - 1);
        let o = rule.failures(slug, ctx, f, k - 1);
        let o2 = rule.failures(slug, ctx, f, k);
        assert forall|i: int| 0 <= i < o2.len() implies (#[trigger] o2[i]).marks.len() == 1 && exists|j: int|
            0 <= j < k && marks_item(f, j, o2[i].marks[0].range) by {
            if i < o.len() {
                assert(o2[i] == o[i]);
                let j = choose|j: int| 0 <= j < k - 1 && marks_item(f, j, o[i].marks[0].range);
                assert(0 <= j < k && marks_item(f, j, o2[i].marks[0].range));
            } else {
                assert(marks_item(f, k - 1, o2[i].marks[0].range));
            }
        }
    }
}

/// Every mark of every finding covers exactly one item of the `requires`
/// header, untrimmed, in the header's text `name:value`, and that item
/// names a number: items that name none are never marked.
pub proof fn every_mark_covers_its_item(rule: RequiresStatus, slug: Seq<char>, ctx: Context, f: Field)
    requires
        field_named(ctx.preamble@, rule.requires@) == Some(f),
        f.name@.len() + f.value@.len() + 1 <= usize::MAX,
    ensures
        forall|i: int, m: int|
            #![trigger rule.findings(slug, ctx)[i].marks[m]]
            0 <= i < rule.findings(slug, ctx).len() && 0 <= m < rule.findings(slug, ctx)[i].marks.len()
                ==> exists|j: int|
                #![trigger requires_items(f)[j]]
                marks_item(f, j, rule.findings(slug, ctx)[i].marks[m].range) && (f.name@ + seq![':']
                    + f.value@).subrange(
                    rule.findings(slug, ctx)[i].marks[m].range.0 as int,
                    rule.findings(slug, ctx)[i].marks[m].range.1 as int,
                ) == requires_items(f)[j],
{
    let n = requires_items(f).len() as int;
    let all = rule.findings(slug, ctx);
    let fl = rule.failures(slug, ctx, f, n);
    lemma_failure_ranges(rule, slug, ctx, f, n);
    lemma_offender_ranges(rule, ctx, f, n);
    assert forall|i: int, m: int|
        #![trigger all[i].marks[m]]
        0 <= i < all.len() && 0 <= m < all[i].marks.len() implies exists|j: int|
        #![trigger requires_items(f)[j]]
        marks_item(f, j, all[i].marks[m].range) && (f.name@ + seq![':'] + f.value@).subrange(
            all[i].marks[m].range.0 as int,
            all[i].marks[m].range.1 as int,
        ) == requires_items(f)[j] by {
        if i < fl.len() {
            assert(all[i] == fl[i]);
            let j = choose|j: int| 0 <= j < n && marks_item(f, j, fl[i].marks[0].range);
            item_range_matches_item(f, j);
            assert(m == 0);
            assert(requires_items(f)[j] == requires_items(f)[j]);
        } else {
            assert(rule.offenders(ctx, f, n).len() > 0);
            assert(all[i] == rule.summary_model(slug, ctx, f));
            let o = rule.offenders(ctx, f, n);
            assert(all[i].marks[m] == o[m]);
            let j = choose|j: int| 0 <= j < n && marks_item(f, j, o[m].range);
            item_range_matches_item(f, j);
            assert(requires_items(f)[j] == requires_items(f)[j]);
        }
    }
}

} // verus!
