//! The two passes of the rule: naming the documents it needs, then checking
//! the document against them.

use vstd::prelude::*;

use crate::config::{choices_of, doc_tier, lemma_choices_of, status_value, RequiresStatus};
use crate::diagnostic::{opt_view, Diagnostic, DiagnosticModel, Mark, MarkModel};
use crate::document::{fetched_at, field_named, find_field, Context, Field};
use crate::order::{join, join_of, lemma_sorted_unique, views};
use crate::text::{
    decimal, decimal_of, item_bounds, item_offset, lemma_item_within, parse_u64, parsed_u64, split_commas, trim,
    trimmed,
};

verus! {

/// The locator of the document with identifier `n`: `eip-<n>.md`.
pub open spec fn locator_of(n: u64) -> Seq<char> {
    seq!['e', 'i', 'p', '-'] + decimal_of(n as nat) + seq!['.', 'm', 'd']
}

/// Builds the locator of the document with identifier `n`.
pub fn locator(n: u64) -> (r: String)
    ensures
        r@ == locator_of(n),
{
    let mut r = String::from_str("eip-");
    let d = decimal(n);
    r.append(d.as_str());
    r.append(".md");
    proof {
        reveal_strlit("eip-");
        reveal_strlit(".md");
    }
    assert(r@ =~= locator_of(n));
    r
}

/// The identifier an item of the `requires` header names, if it is a number.
pub open spec fn item_id(item: Seq<char>) -> Option<u64> {
    parsed_u64(trimmed(item))
}

/// The locators of the documents that `items` name, in order.
pub open spec fn declared(items: Seq<Seq<char>>) -> Seq<Seq<char>>
    decreases items.len(),
{
    if items.len() == 0 {
        Seq::empty()
    } else {
        declared(items.drop_last()) + match item_id(items.last()) {
            Some(n) => seq![locator_of(n)],
            None => Seq::empty(),
        }
    }
}

/// The items of the `requires` header of a document.
pub open spec fn requires_items(f: Field) -> Seq<Seq<char>> {
    split_commas(f.value@)
}

/// The character range that marks item `k` of header `f`: its place in the
/// header's source text, after the name and the colon.
pub open spec fn item_range(f: Field, k: int) -> (usize, usize) {
    let start = f.name@.len() + 1 + item_offset(requires_items(f), k);
    (start as usize, (start + requires_items(f)[k].len()) as usize)
}

/// What was fetched for item `k` of header `f`, with its identifier; `None`
/// where the item names no number.
pub open spec fn item_fetch(ctx: Context, f: Field, k: int) -> Option<
    (u64, Result<Vec<Field>, String>),
> {
    match item_id(requires_items(f)[k]) {
        Some(n) => match fetched_at(ctx.eips@, locator_of(n)) {
            Some(res) => Some((n, res)),
            None => None,
        },
        None => None,
    }
}

/// The finding for item `k`, whose document `eip-<n>.md` could not be read.
pub open spec fn failure_model(slug: Seq<char>, ctx: Context, f: Field, k: int, n: u64, err: Seq<char>) -> DiagnosticModel {
    DiagnosticModel {
        id: slug,
        level: ctx.annotation_type,
        title: "unable to read file `"@ + locator_of(n) + "`: "@ + err,
        line_start: f.line_start,
        origin: opt_view(ctx.origin),
        source: f.source@,
        marks: seq![
            MarkModel {
                level: ctx.annotation_type,
                label: "required from here"@,
                range: item_range(f, k),
            },
        ],
        footer: None,
    }
}

impl RequiresStatus {
    /// The findings for documents that could not be read, among the first
    /// `k` items.
    pub open spec fn failures(&self, slug: Seq<char>, ctx: Context, f: Field, k: int) -> Seq<DiagnosticModel>
        decreases k,
    {
        if k <= 0 {
            Seq::empty()
        } else {
            self.failures(slug, ctx, f, k - 1) + match item_fetch(ctx, f, k - 1) {
                Some((n, Err(e))) => seq![failure_model(slug, ctx, f, k - 1, n, e@)],
                _ => Seq::empty(),
            }
        }
    }

    /// Whether the document fetched for item `k` has a lower tier than the
    /// document under check.
    pub open spec fn too_unstable(&self, ctx: Context, f: Field, k: int) -> bool {
        match item_fetch(ctx, f, k) {
            Some((_, Ok(doc))) => doc_tier(self.flow_view(), doc@, self.status@) < doc_tier(
                self.flow_view(),
                ctx.preamble@,
                self.status@,
            ),
            _ => false,
        }
    }

    /// The marks on the items, among the first `k`, whose documents have a
    /// lower tier than the document under check.
    pub open spec fn offenders(&self, ctx: Context, f: Field, k: int) -> Seq<MarkModel>
        decreases k,
    {
        if k <= 0 {
            Seq::empty()
        } else {
            self.offenders(ctx, f, k - 1) + if self.too_unstable(ctx, f, k - 1) {
                seq![
                    MarkModel {
                        level: ctx.annotation_type,
                        label: "has a less advanced status"@,
                        range: item_range(f, k - 1),
                    },
                ]
            } else {
                Seq::empty()
            }
        }
    }

    /// The lowest tier among the documents fetched for the first `k` items;
    /// `None` where none of them was read.
    pub open spec fn min_tier(&self, ctx: Context, f: Field, k: int) -> Option<nat>
        decreases k,
    {
        if k <= 0 {
            None
        } else {
            let m = self.min_tier(ctx, f, k - 1);
            match item_fetch(ctx, f, k - 1) {
                Some((_, Ok(doc))) => {
                    let t = doc_tier(self.flow_view(), doc@, self.status@);
                    match m {
                        Some(x) => Some(if t < x { t } else { x }),
                        None => Some(t),
                    }
                },
                _ => m,
            }
        }
    }

    /// The labels to suggest: those with a tier of at most `min`, sorted,
    /// each once; none where no tier was observed.
    pub open spec fn choice_list(&self, min: Option<nat>) -> Seq<Seq<char>> {
        match min {
            Some(m) => choices_of(self.flow_view(), m),
            None => Seq::empty(),
        }
    }

    /// The help note listing the suggested labels; none where there are none.
    pub open spec fn footer_model(&self, choices: Seq<Seq<char>>) -> Option<Seq<char>> {
        if choices.len() > 0 {
            Some(
                "valid `"@ + self.status@ + "` values for this proposal are: `"@ + join_of(
                    choices,
                    "`, `"@,
                ) + "`"@,
            )
        } else {
            None
        }
    }

    /// The title of the summary finding.
    pub open spec fn summary_title(&self, ctx: Context) -> Seq<char> {
        let value = match status_value(ctx.preamble@, self.status@) {
            Some(v) => v,
            None => trimmed("<missing>"@),
        };
        "preamble header `"@ + self.requires@ + "` contains items not stable enough for a `"@
            + self.status@ + "` of `"@ + value + "`"@
    }

    /// The summary finding over the header `f`, with all its marks.
    pub open spec fn summary_model(&self, slug: Seq<char>, ctx: Context, f: Field) -> DiagnosticModel {
        let k = requires_items(f).len() as int;
        DiagnosticModel {
            id: slug,
            level: ctx.annotation_type,
            title: self.summary_title(ctx),
            line_start: f.line_start,
            origin: opt_view(ctx.origin),
            source: f.source@,
            marks: self.offenders(ctx, f, k),
            footer: self.footer_model(self.choice_list(self.min_tier(ctx, f, k))),
        }
    }

    /// Everything the rule reports on the document of `ctx`, in order.
    pub open spec fn findings(&self, slug: Seq<char>, ctx: Context) -> Seq<DiagnosticModel> {
        match field_named(ctx.preamble@, self.requires@) {
            None => Seq::empty(),
            Some(f) => {
                let k = requires_items(f).len() as int;
                self.failures(slug, ctx, f, k) + if self.offenders(ctx, f, k).len() > 0 {
                    seq![self.summary_model(slug, ctx, f)]
                } else {
                    Seq::empty()
                }
            },
        }
    }

    /// What checking needs of `ctx`: every numbered item of the `requires`
    /// header was fetched, and the header's ranges fit in a `usize`.
    pub open spec fn ready(&self, ctx: Context) -> bool {
        match field_named(ctx.preamble@, self.requires@) {
            None => true,
            Some(f) => {
                &&& f.name@.len() + f.value@.len() + 1 <= usize::MAX
                &&& forall|k: int|
                    0 <= k < requires_items(f).len() ==> (#[trigger] item_id(requires_items(f)[k])
                        matches Some(n) ==> fetched_at(ctx.eips@, locator_of(n)) is Some)
            },
        }
    }

    /// The locators of the documents that the `requires` header names, in
    /// the order of its items; none without such a header.
    pub fn find_resources(&self, preamble: &Vec<Field>) -> (r: Vec<String>)
        ensures
            views(r@) == match field_named(preamble@, self.requires@) {
                Some(f) => declared(requires_items(f)),
                None => Seq::empty(),
            },
    {
        let mut r: Vec<String> = Vec::new();
        let f = match find_field(preamble, &self.requires) {
            None => {
                assert(views(r@) =~= Seq::empty());
                return r;
            },
            Some(f) => f,
        };
        let value = f.value.as_str();
        let ghost items = requires_items(*f);
        let bounds = item_bounds(value);
        let n = bounds.len();
        let mut k: usize = 0;
        assert(items.take(0) =~= Seq::empty());
        assert(views(r@) =~= Seq::empty());
        while k < n
            invariant
                items == split_commas(value@),
                value@ == f.value@,
                n == bounds@.len() == items.len(),
                forall|j: int|
                    0 <= j < n ==> (#[trigger] bounds@[j]).0 == item_offset(items, j) && bounds@[j].1
                        == bounds@[j].0 + items[j].len(),
                k <= n,
                views(r@) == declared(items.take(k as int)),
            decreases n - k,
        {
            proof {
                lemma_item_within(value@, k as int);
            }
            let (st, en) = bounds[k];
            let item = value.substring_char(st, en);
            assert(item@ == items[k as int]);
            let ghost before = views(r@);
            match parse_u64(trim(item)) {
                Some(id) => {
                    r.push(locator(id));
                },
                None => {},
            }
            assert(items.take(k + 1).drop_last() =~= items.take(k as int));
            assert(views(r@) =~= declared(items.take(k + 1)));
            k = k + 1;
        }
        assert(items.take(n as int) =~= items);
        r
    }

    /// Checks the document of `ctx` against the documents its `requires`
    /// header names, and returns the findings in the order they are made: one
    /// for each document that could not be read, then at most one summary of
    /// the items whose documents are less advanced.
    pub fn lint(&self, slug: &str, ctx: &Context) -> (r: Vec<Diagnostic>)
        requires
            self.ready(*ctx),
        ensures
            r@.map_values(|d: Diagnostic| d@) == self.findings(slug@, *ctx),
    {
        let mut diags: Vec<Diagnostic> = Vec::new();
        let f = match find_field(&ctx.preamble, &self.requires) {
            None => {
                assert(diags@.map_values(|d: Diagnostic| d@) =~= Seq::empty());
                return diags;
            },
            Some(f) => f,
        };
        let my_tier = self.tier(&ctx.preamble);
        let value = f.value.as_str();
        let ghost items = requires_items(*f);
        let name_count = f.name.as_str().unicode_len();
        let bounds = item_bounds(value);
        let n = bounds.len();
        let mut marks: Vec<Mark> = Vec::new();
        let mut min: Option<usize> = None;
        let mut k: usize = 0;
        assert(diags@.map_values(|d: Diagnostic| d@) =~= Seq::empty());
        assert(marks@.map_values(|m: Mark| m@) =~= Seq::empty());
        while k < n
            invariant
                self.ready(*ctx),
                field_named(ctx.preamble@, self.requires@) == Some(*f),
                my_tier == doc_tier(self.flow_view(), ctx.preamble@, self.status@),
                items == split_commas(value@),
                items == requires_items(*f),
                value@ == f.value@,
                name_count == f.name@.len(),
                n == bounds@.len() == items.len(),
                forall|j: int|
                    0 <= j < n ==> (#[trigger] bounds@[j]).0 == item_offset(items, j) && bounds@[j].1
                        == bounds@[j].0 + items[j].len(),
                k <= n,
                diags@.map_values(|d: Diagnostic| d@) == self.failures(slug@, *ctx, *f, k as int),
                marks@.map_values(|m: Mark| m@) == self.offenders(*ctx, *f, k as int),
                match min {
                    Some(x) => self.min_tier(*ctx, *f, k as int) == Some(x as nat),
                    None => self.min_tier(*ctx, *f, k as int) is None,
                },
            decreases n - k,
        {
            proof {
                lemma_item_within(value@, k as int);
            }
            let (st, en) = bounds[k];
            let item = value.substring_char(st, en);
            assert(item@ == items[k as int]);
            let start = name_count + 1 + st;
            let end = name_count + 1 + en;
            assert((start, end) == item_range(*f, k as int));
            let ghost old_diags = diags@.map_values(|d: Diagnostic| d@);
            let ghost old_marks = marks@.map_values(|m: Mark| m@);
            match parse_u64(trim(item)) {
                None => {},
                Some(id) => {
                    let path = locator(id);
                    match ctx.eip(&path) {
                        None => {},
                        Some(Err(e)) => {
                            let mut title = String::from_str("unable to read file `");
                            title.append(path.as_str());
                            title.append("`: ");
                            title.append(e.as_str());
                            let mark = Mark {
                                level: ctx.annotation_type,
                                label: String::from_str("required from here"),
                                range: (start, end),
                            };
                            let d = Diagnostic {
                                id: String::from_str(slug),
                                level: ctx.annotation_type,
                                title,
                                line_start: f.line_start,
                                origin: match &ctx.origin {
                                    Some(o) => Some(o.clone()),
                                    None => None,
                                },
                                source: f.source.clone(),
                                marks: vec![mark],
                                footer: None,
                            };
                            assert(d@.marks =~= seq![mark@]);
                            assert(d@ == failure_model(slug@, *ctx, *f, k as int, id, e@));
                            diags.push(d);
                        },
                        Some(Ok(doc)) => {
                            let t = self.tier(doc);
                            match min {
                                Some(x) => {
                                    if t < x {
                                        min = Some(t);
                                    }
                                },
                                None => {
                                    min = Some(t);
                                },
                            }
                            if t < my_tier {
                                marks.push(
                                    Mark {
                                        level: ctx.annotation_type,
                                        label: String::from_str("has a less advanced status"),
                                        range: (start, end),
                                    },
                                );
                            }
                        },
                    }
                },
            }
            assert(diags@.map_values(|d: Diagnostic| d@) =~= self.failures(
                slug@,
                *ctx,
                *f,
                k + 1,
            ));
            assert(marks@.map_values(|m: Mark| m@) =~= self.offenders(*ctx, *f, k + 1));
            k = k + 1;
        }
        if marks.len() == 0 {
            assert(self.offenders(*ctx, *f, n as int).len() == 0);
            return diags;
        }
        let status_text = match find_field(&ctx.preamble, &self.status) {
            Some(s) => trim(s.value.as_str()),
            None => trim("<missing>"),
        };
        let mut title = String::from_str("preamble header `");
        title.append(self.requires.as_str());
        title.append("` contains items not stable enough for a `");
        title.append(self.status.as_str());
        title.append("` of `");
        title.append(status_text);
        title.append("`");
        assert(title@ == self.summary_title(*ctx));
        let choices = match min {
            Some(m) => self.choices(m),
            None => Vec::new(),
        };
        proof {
            let cs = self.choice_list(self.min_tier(*ctx, *f, n as int));
            if let Some(m) = min {
                lemma_choices_of(self.flow_view(), m as nat);
                lemma_sorted_unique(views(choices@), cs);
            } else {
                assert(views(choices@) =~= cs);
            }
            assert(views(choices@) == cs);
        }
        let footer = if choices.len() > 0 {
            let mut note = String::from_str("valid `");
            note.append(self.status.as_str());
            note.append("` values for this proposal are: `");
            let list = join(&choices, "`, `");
            note.append(list.as_str());
            note.append("`");
            Some(note)
        } else {
            None
        };
        let ghost mark_views = marks@.map_values(|m: Mark| m@);
        let summary = Diagnostic {
            id: String::from_str(slug),
            level: ctx.annotation_type,
            title,
            line_start: f.line_start,
            origin: match &ctx.origin {
                Some(o) => Some(o.clone()),
                None => None,
            },
            source: f.source.clone(),
            marks,
            footer,
        };
        assert(summary@ == self.summary_model(slug@, *ctx, *f));
        let ghost before = diags@.map_values(|d: Diagnostic| d@);
        diags.push(summary);
        assert(diags@.map_values(|d: Diagnostic| d@) =~= before.push(summary@));
        diags
    }
}

} // verus!
