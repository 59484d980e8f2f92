//! The rule's configuration and the tiers of maturity it defines.

use vstd::prelude::*;

use crate::document::{field_named, find_field, Field};
use crate::order::{insert_sorted, lemma_sorted_of, sorted_of, strictly_sorted, views};
use crate::text::{trim, trimmed};

verus! {

/// The rule: a document's `requires` header may only name documents whose
/// `status` is in a tier of `flow` at least as advanced as its own.
pub struct RequiresStatus {
    /// The name of the header that lists dependencies.
    pub requires: String,
    /// The name of the header that holds a document's status.
    pub status: String,
    /// The tiers of status labels, least advanced first.
    pub flow: Vec<Vec<String>>,
}

/// The tier that the first `n` sets of `flow` give `label`: one more than
/// the index of the last of them that holds it, or 0.
pub open spec fn tier_upto(flow: Seq<Seq<Seq<char>>>, n: int, label: Seq<char>) -> nat
    decreases n,
{
    if n <= 0 {
        0
    } else if flow[n - 1].contains(label) {
        n as nat
    } else {
        tier_upto(flow, n - 1, label)
    }
}

/// The tier of a status label: 0 where no set of `flow` holds it.
pub open spec fn tier_of(flow: Seq<Seq<Seq<char>>>, label: Seq<char>) -> nat {
    tier_upto(flow, flow.len() as int, label)
}

/// The trimmed status of a document, if it has a status header.
pub open spec fn status_value(fields: Seq<Field>, status: Seq<char>) -> Option<Seq<char>> {
    match field_named(fields, status) {
        Some(f) => Some(trimmed(f.value@)),
        None => None,
    }
}

/// The tier of a document: that of its status, or 0 without one.
pub open spec fn doc_tier(flow: Seq<Seq<Seq<char>>>, fields: Seq<Field>, status: Seq<char>) -> nat {
    match status_value(fields, status) {
        Some(v) => tier_of(flow, v),
        None => 0,
    }
}

/// Some set among the first `n` of `flow` holds `label`.
pub open spec fn in_first(flow: Seq<Seq<Seq<char>>>, n: int, label: Seq<char>) -> bool {
    exists|k: int| 0 <= k < n && #[trigger] flow[k].contains(label)
}

/// Some set of `flow` holds `label`.
pub open spec fn in_flow(flow: Seq<Seq<Seq<char>>>, label: Seq<char>) -> bool {
    in_first(flow, flow.len() as int, label)
}

/// A label of `flow` whose tier is at most `min`.
pub open spec fn is_choice(flow: Seq<Seq<Seq<char>>>, min: nat, label: Seq<char>) -> bool {
    in_flow(flow, label) && tier_of(flow, label) <= min
}

/// The labels of `flow`, set after set.
pub open spec fn all_labels(flow: Seq<Seq<Seq<char>>>) -> Seq<Seq<char>>
    decreases flow.len(),
{
    if flow.len() == 0 {
        Seq::empty()
    } else {
        all_labels(flow.drop_last()) + flow.last()
    }
}

/// The labels to suggest below tier `min`: those of `flow` with a tier of at
/// most `min`, each once, sorted.
pub open spec fn choices_of(flow: Seq<Seq<Seq<char>>>, min: nat) -> Seq<Seq<char>> {
    sorted_of(all_labels(flow), |l: Seq<char>| tier_of(flow, l) <= min)
}

pub proof fn lemma_all_labels(flow: Seq<Seq<Seq<char>>>, l: Seq<char>)
    ensures
        all_labels(flow).contains(l) <==> in_flow(flow, l),
    decreases flow.len(),
{
    if flow.len() > 0 {
        let p = flow.drop_last();
        let a = all_labels(p);
        let b = flow.last();
        lemma_all_labels(p, l);
        let c = all_labels(flow);
        assert(c == a + b);
        if c.contains(l) {
            let k = choose|k: int| 0 <= k < c.len() && c[k] == l;
            if k < a.len() {
                assert(a[k] == l);
                let i = choose|i: int| 0 <= i < p.len() && #[trigger] p[i].contains(l);
                assert(flow[i] == p[i]);
            } else {
                assert(b[k - a.len()] == l);
                assert(flow[flow.len() - 1].contains(l));
            }
        }
        if in_flow(flow, l) {
            let i = choose|i: int| 0 <= i < flow.len() && #[trigger] flow[i].contains(l);
            if i < p.len() {
                assert(p[i] == flow[i]);
                assert(in_flow(p, l));
                let k = choose|k: int| 0 <= k < a.len() && a[k] == l;
                assert(c[k] == l);
            } else {
                let k = choose|k: int| 0 <= k < b.len() && b[k] == l;
                assert(c[a.len() + k] == l);
            }
        }
    }
}

/// What `choices_of` gives: strictly sorted, and exactly the labels of
/// `flow` with a tier of at most `min`.
pub proof fn lemma_choices_of(flow: Seq<Seq<Seq<char>>>, min: nat)
    ensures
        strictly_sorted(choices_of(flow, min)),
        forall|l: Seq<char>| #[trigger] choices_of(flow, min).contains(l) <==> is_choice(flow, min, l),
{
    let keep = |l: Seq<char>| tier_of(flow, l) <= min;
    lemma_sorted_of(all_labels(flow), keep);
    assert forall|l: Seq<char>| #[trigger] choices_of(flow, min).contains(l) <==> is_choice(flow, min, l) by {
        lemma_all_labels(flow, l);
    }
}

impl RequiresStatus {
    /// The tiers as sets of labels.
    pub open spec fn flow_view(&self) -> Seq<Seq<Seq<char>>> {
        self.flow@.map_values(|t: Vec<String>| t@.map_values(|l: String| l@))
    }

    /// The tier of `label`.
    pub fn label_tier(&self, label: &String) -> (r: usize)
        ensures
            r == tier_of(self.flow_view(), label@),
    {
        let ghost flow = self.flow_view();
        let n = self.flow.len();
        let mut t: usize = 0;
        let mut i: usize = 0;
        while i < n
            invariant
                n == flow.len(),
                flow == self.flow_view(),
                i <= n,
                t == tier_upto(flow, i as int, label@),
            decreases n - i,
        {
            let set = &self.flow[i];
            let m = set.len();
            let mut found = false;
            let mut j: usize = 0;
            while j < m
                invariant
                    flow == self.flow_view(),
                    i < n == flow.len(),
                    set == self.flow@[i as int],
                    m == set@.len(),
                    j <= m,
                    found <==> exists|k: int| 0 <= k < j && (#[trigger] set@[k])@ == label@,
                decreases m - j,
            {
                if set[j] == *label {
                    found = true;
                }
                j = j + 1;
            }
            assert(flow[i as int] == set@.map_values(|l: String| l@));
            if found {
                assert(flow[i as int].contains(label@)) by {
                    let k = choose|k: int| 0 <= k < m && (#[trigger] set@[k])@ == label@;
                    assert(flow[i as int][k] == label@);
                }
                t = i + 1;
            } else {
                assert(!flow[i as int].contains(label@)) by {
                    if flow[i as int].contains(label@) {
                        let k = choose|k: int| 0 <= k < flow[i as int].len() && flow[i as int][k] == label@;
                        assert(set@[k]@ == label@);
                    }
                }
            }
            i = i + 1;
        }
        t
    }

    /// The tier of the document with these preamble fields.
    pub fn tier(&self, preamble: &Vec<Field>) -> (r: usize)
        ensures
            r == doc_tier(self.flow_view(), preamble@, self.status@),
    {
        match find_field(preamble, &self.status) {
            None => 0,
            Some(f) => {
                let v = String::from_str(trim(f.value.as_str()));
                self.label_tier(&v)
            },
        }
    }

    /// The labels of `flow` whose tier is at most `min`, each once, sorted.
    pub fn choices(&self, min: usize) -> (r: Vec<String>)
        ensures
            strictly_sorted(views(r@)),
            forall|l: Seq<char>| views(r@).contains(l) <==> is_choice(self.flow_view(), min as nat, l),
    {
        let ghost flow = self.flow_view();
        let mut r: Vec<String> = Vec::new();
        let n = self.flow.len();
        let mut i: usize = 0;
        assert(views(r@) =~= Seq::empty());
        while i < n
            invariant
                n == flow.len(),
                flow == self.flow_view(),
                i <= n,
                strictly_sorted(views(r@)),
                forall|l: Seq<char>|
                    views(r@).contains(l) <==> (in_first(flow, i as int, l) && tier_of(flow, l)
                        <= min),
            decreases n - i,
        {
            let set = &self.flow[i];
            let m = set.len();
            let mut j: usize = 0;
            assert(flow[i as int] == set@.map_values(|l: String| l@));
            assert(flow[i as int].take(0) =~= Seq::empty());
            assert forall|l: Seq<char>| !flow[i as int].take(0).contains(l) by {}
            while j < m
                invariant
                    n == flow.len(),
                    flow == self.flow_view(),
                    i < n,
                    set == self.flow@[i as int],
                    flow[i as int] == set@.map_values(|l: String| l@),
                    m == set@.len(),
                    j <= m,
                    strictly_sorted(views(r@)),
                    forall|l: Seq<char>|
                        views(r@).contains(l) <==> ((in_first(flow, i as int, l) || flow[i as int].take(
                            j as int,
                        ).contains(l)) && tier_of(flow, l) <= min),
                decreases m - j,
            {
                let label = &set[j];
                assert(flow[i as int][j as int] == label@);
                let t = self.label_tier(label);
                let ghost before = views(r@);
                assert forall|l: Seq<char>| before.contains(l) <==> ((in_first(flow, i as int, l)
                    || flow[i as int].take(j as int).contains(l)) && tier_of(flow, l) <= min) by {
                    assert(views(r@).contains(l) == before.contains(l));
                }
                if t <= min {
                    insert_sorted(&mut r, label.clone());
                }
                assert forall|l: Seq<char>| flow[i as int].take(j + 1).contains(l) <==> (flow[i as int].take(
                    j as int,
                ).contains(l) || l == label@) by {
                    let a = flow[i as int].take(j as int);
                    let b = flow[i as int].take(j + 1);
                    assert(b =~= a.push(label@));
                    if b.contains(l) {
                        let k = choose|k: int| 0 <= k < b.len() && b[k] == l;
                        if k < j {
                            assert(a[k] == l);
                        }
                    }
                    if a.contains(l) {
                        let k = choose|k: int| 0 <= k < a.len() && a[k] == l;
                        assert(b[k] == l);
                    }
                    if l == label@ {
                        assert(b[j as int] == l);
                    }
                }
                assert forall|l: Seq<char>| views(r@).contains(l) <==> ((in_first(flow, i as int, l)
                    || flow[i as int].take(j + 1).contains(l)) && tier_of(flow, l) <= min) by {
                    if t <= min {
                        assert(views(r@).contains(l) <==> (before.contains(l) || l == label@));
                    } else {
                        assert(views(r@) == before);
                    }
                }
                j = j + 1;
            }
            assert(flow[i as int].take(m as int) =~= flow[i as int]);
            assert forall|l: Seq<char>| in_first(flow, i + 1, l) <==> (in_first(flow, i as int, l)
                || flow[i as int].contains(l)) by {
                if in_first(flow, i + 1, l) {
                    let k = choose|k: int| 0 <= k < i + 1 && #[trigger] flow[k].contains(l);
                    if k < i {
                        assert(in_first(flow, i as int, l));
                    }
                }
                if in_first(flow, i as int, l) {
                    let k = choose|k: int| 0 <= k < i && #[trigger] flow[k].contains(l);
                    assert(in_first(flow, i + 1, l));
                }
                if flow[i as int].contains(l) {
                    assert(in_first(flow, i + 1, l));
                }
            }
            assert forall|l: Seq<char>| views(r@).contains(l) <==> (in_first(flow, i + 1, l)
                && tier_of(flow, l) <= min) by {
                assert(j == m);
                assert(views(r@).contains(l) <==> ((in_first(flow, i as int, l) || flow[i as int].take(
                    j as int,
                ).contains(l)) && tier_of(flow, l) <= min));
                assert(flow[i as int].take(m as int).contains(l) == flow[i as int].contains(l));
                assert(in_first(flow, i + 1, l) <==> (in_first(flow, i as int, l)
                    || flow[i as int].contains(l)));
            }
            i = i + 1;
        }
        r
    }
}

} // verus!
