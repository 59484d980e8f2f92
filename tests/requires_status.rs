use requires_status::{parse_u64, trim, Context, Diagnostic, Fetched, Field, Level, RequiresStatus};

fn field(name: &str, value: &str) -> Field {
    Field {
        name: name.to_string(),
        value: value.to_string(),
        line_start: 3,
        source: format!("{}:{}", name, value),
    }
}

fn rule() -> RequiresStatus {
    RequiresStatus {
        requires: "requires".to_string(),
        status: "status".to_string(),
        flow: vec![
            vec!["Draft".to_string()],
            vec!["Review".to_string()],
            vec!["Last Call".to_string()],
            vec!["Final".to_string()],
        ],
    }
}

fn doc(status: Option<&str>) -> Vec<Field> {
    match status {
        Some(s) => vec![field("title", " A title"), field("status", &format!(" {}", s))],
        None => vec![field("title", " A title")],
    }
}

fn ok(path: &str, status: Option<&str>) -> Fetched {
    Fetched { path: path.to_string(), result: Ok(doc(status)) }
}

fn missing(path: &str) -> Fetched {
    Fetched { path: path.to_string(), result: Err("not found".to_string()) }
}

fn context(preamble: Vec<Field>, eips: Vec<Fetched>) -> Context {
    Context {
        preamble,
        origin: Some("eip-100.md".to_string()),
        annotation_type: Level::Error,
        eips,
    }
}

fn current(status: &str, requires: Option<&str>) -> Vec<Field> {
    let mut p = vec![field("status", &format!(" {}", status))];
    if let Some(r) = requires {
        p.push(field("requires", r));
    }
    p
}

fn source_text(d: &Diagnostic, range: (usize, usize)) -> String {
    d.source.chars().skip(range.0).take(range.1 - range.0).collect()
}

#[test]
fn final_requires_final_and_draft() {
    let ctx = context(
        current("Final", Some(" 1, 2")),
        vec![ok("eip-1.md", Some("Final")), ok("eip-2.md", Some("Draft"))],
    );
    let r = rule().lint("preamble-requires-status", &ctx);
    assert_eq!(r.len(), 1);
    let d = &r[0];
    assert_eq!(d.id, "preamble-requires-status");
    assert_eq!(d.level, Level::Error);
    assert_eq!(
        d.title,
        "preamble header `requires` contains items not stable enough for a `status` of `Final`"
    );
    assert_eq!(d.line_start, 3);
    assert_eq!(d.origin.as_deref(), Some("eip-100.md"));
    assert_eq!(d.source, "requires: 1, 2");
    assert_eq!(d.marks.len(), 1);
    assert_eq!(d.marks[0].label, "has a less advanced status");
    assert_eq!(d.marks[0].range, (12, 14));
    assert_eq!(source_text(d, d.marks[0].range), " 2");
    assert_eq!(
        d.footer.as_deref(),
        Some("valid `status` values for this proposal are: `Draft`")
    );
}

#[test]
fn final_requires_review() {
    let ctx = context(current("Final", Some(" 1")), vec![ok("eip-1.md", Some("Review"))]);
    let r = rule().lint("preamble-requires-status", &ctx);
    assert_eq!(r.len(), 1);
    assert_eq!(r[0].marks.len(), 1);
    assert_eq!(source_text(&r[0], r[0].marks[0].range), " 1");
    assert_eq!(
        r[0].footer.as_deref(),
        Some("valid `status` values for this proposal are: `Draft`, `Review`")
    );
}

#[test]
fn malformed_item_and_unreadable_dependency() {
    let ctx = context(current("Final", Some(" abc, 7")), vec![missing("eip-7.md")]);
    let r = rule().lint("preamble-requires-status", &ctx);
    assert_eq!(r.len(), 1);
    let d = &r[0];
    assert_eq!(d.title, "unable to read file `eip-7.md`: not found");
    assert_eq!(d.marks.len(), 1);
    assert_eq!(d.marks[0].label, "required from here");
    assert_eq!(d.marks[0].range, (14, 16));
    assert_eq!(source_text(d, d.marks[0].range), " 7");
    assert_eq!(d.footer, None);
}

#[test]
fn no_requires_header() {
    let ctx = context(current("Final", None), vec![]);
    assert!(rule().lint("preamble-requires-status", &ctx).is_empty());
    assert!(rule().find_resources(&ctx.preamble).is_empty());
}

#[test]
fn dependency_without_status() {
    let ctx = context(current("Final", Some(" 3")), vec![ok("eip-3.md", None)]);
    let r = rule().lint("preamble-requires-status", &ctx);
    assert_eq!(r.len(), 1);
    assert_eq!(r[0].marks.len(), 1);
    assert_eq!(r[0].marks[0].range, (9, 11));
    assert_eq!(r[0].footer, None);
}

#[test]
fn equal_tier_is_accepted() {
    let ctx = context(
        current("Review", Some(" 1, 2")),
        vec![ok("eip-1.md", Some("Review")), ok("eip-2.md", Some("Final"))],
    );
    assert!(rule().lint("preamble-requires-status", &ctx).is_empty());
}

#[test]
fn failures_come_before_summary_and_marks_keep_order() {
    let ctx = context(
        current("Last Call", Some(" 4, 1, x, 2, 3")),
        vec![
            ok("eip-1.md", Some("Draft")),
            missing("eip-2.md"),
            ok("eip-3.md", Some("Review")),
            ok("eip-4.md", Some("Final")),
        ],
    );
    let r = rule().lint("rule", &ctx);
    assert_eq!(r.len(), 2);
    assert_eq!(r[0].title, "unable to read file `eip-2.md`: not found");
    assert_eq!(source_text(&r[0], r[0].marks[0].range), " 2");
    let s = &r[1];
    assert_eq!(
        s.title,
        "preamble header `requires` contains items not stable enough for a `status` of `Last Call`"
    );
    let texts: Vec<String> = s.marks.iter().map(|m| source_text(s, m.range)).collect();
    assert_eq!(texts, vec![" 1".to_string(), " 3".to_string()]);
    assert_eq!(
        s.footer.as_deref(),
        Some("valid `status` values for this proposal are: `Draft`")
    );
}

#[test]
fn missing_status_of_current_document() {
    let ctx = context(vec![field("requires", " 1")], vec![ok("eip-1.md", Some("Final"))]);
    assert!(rule().lint("rule", &ctx).is_empty());
    let cfg = RequiresStatus {
        requires: "requires".to_string(),
        status: "status".to_string(),
        flow: vec![vec!["Final".to_string()]],
    };
    assert_eq!(cfg.tier(&ctx.preamble), 0);
}

#[test]
fn summary_title_trims_status() {
    let ctx = context(
        vec![field("status", "  Final \t"), field("requires", " 1")],
        vec![ok("eip-1.md", Some("Draft"))],
    );
    let r = rule().lint("rule", &ctx);
    assert_eq!(r.len(), 1);
    assert!(r[0].title.ends_with("for a `status` of `Final`"));
}

#[test]
fn ranges_count_characters() {
    let ctx = context(
        current("Final", Some("\u{a0}é, 1")),
        vec![ok("eip-1.md", Some("Draft"))],
    );
    let r = rule().lint("rule", &ctx);
    assert_eq!(r.len(), 1);
    assert_eq!(r[0].marks[0].range, (12, 14));
    assert_eq!(source_text(&r[0], r[0].marks[0].range), " 1");
}

#[test]
fn tiers_follow_flow() {
    let r = rule();
    assert_eq!(r.tier(&doc(Some("Draft"))), 1);
    assert_eq!(r.tier(&doc(Some("Review"))), 2);
    assert_eq!(r.tier(&doc(Some("Last Call"))), 3);
    assert_eq!(r.tier(&doc(Some("Final"))), 4);
    assert_eq!(r.tier(&doc(Some("Stagnant"))), 0);
    assert_eq!(r.tier(&doc(None)), 0);
    assert_eq!(r.label_tier(&"Final".to_string()), 4);
    assert_eq!(r.label_tier(&"final".to_string()), 0);
}

#[test]
fn repeated_label_takes_last_tier() {
    let cfg = RequiresStatus {
        requires: "requires".to_string(),
        status: "status".to_string(),
        flow: vec![
            vec!["Draft".to_string(), "Idea".to_string()],
            vec!["Review".to_string()],
            vec!["Idea".to_string(), "Final".to_string()],
        ],
    };
    assert_eq!(cfg.label_tier(&"Idea".to_string()), 3);
    assert_eq!(cfg.label_tier(&"Draft".to_string()), 1);
}

#[test]
fn choices_are_sorted_and_distinct() {
    let cfg = RequiresStatus {
        requires: "requires".to_string(),
        status: "status".to_string(),
        flow: vec![
            vec!["b".to_string(), "a".to_string(), "B".to_string(), "b".to_string()],
            vec!["ab".to_string(), "A".to_string()],
            vec!["Z".to_string()],
        ],
    };
    assert_eq!(cfg.choices(0), Vec::<String>::new());
    assert_eq!(cfg.choices(1), vec!["B", "a", "b"]);
    assert_eq!(cfg.choices(2), vec!["A", "B", "a", "ab", "b"]);
    assert_eq!(cfg.choices(9), vec!["A", "B", "Z", "a", "ab", "b"]);
}

#[test]
fn find_resources_lists_numbered_items() {
    let p = vec![field("requires", " 1, x, 2,, +3 , 02, -4, 18446744073709551616")];
    assert_eq!(
        rule().find_resources(&p),
        vec!["eip-1.md", "eip-2.md", "eip-3.md", "eip-2.md"]
    );
}

#[test]
fn trim_removes_unicode_whitespace() {
    assert_eq!(trim("  a b \t\n"), "a b");
    assert_eq!(trim("\u{3000}\u{a0}x\u{2009}"), "x");
    assert_eq!(trim("   "), "");
    assert_eq!(trim(""), "");
}

#[test]
fn parse_u64_matches_std() {
    for s in [
        "0", "7", "+7", "007", "", "+", "-1", " 1", "1 ", "1a", "18446744073709551615",
        "18446744073709551616", "99999999999999999999", "٣",
    ] {
        assert_eq!(parse_u64(s), s.parse::<u64>().ok(), "{:?}", s);
    }
}
