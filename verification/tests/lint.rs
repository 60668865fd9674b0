//! A whole run over a small corpus held in memory. Every note in it is wrong
//! in exactly one way, or right, and each test names the note it is about: a
//! test asserting "there are seven errors" passes for the wrong reasons the
//! moment a rule is added, and stops saying which rule caught what.

use lab::date::CivilDate;
use lab::lint::{check, staleness, Diagnostic, Report, SourceFile};
use lab::schema::{Check, Field, Fix, Kind, Meta, Rule, Schema, Severity};

const GOOD_NOTE: &str = "---
description: A well-formed note, so a test can tell a real finding from noise.
type: lesson
scope: global
confidence: high
asserted: 2026-08-30
source:
  - conversation 2026-08-30
triggers:
  - \"check the linter finds nothing wrong\"
---

The fact.

**Why:** a corpus of only broken notes cannot show that the linter is quiet when
it should be. See [[linked-note]].

**How to apply:** keep one note here that must always pass. This note also links
to every other fixture \u{2014} [[bad-enum]], [[bad-scope]], [[stores-derivable]],
[[missing-field]], [[stale]], [[broken-link]] \u{2014} so that each of them carries
exactly one defect. Without that, every fixture is also an orphan, and a test
about one rule fails because of another. `[[orphan]]` is deliberately absent, and
`[[colon-in-scalar]]` cannot be linked because it does not parse \u{2014} and writing
both in code spans is itself the masking rule at work.
";

const ENTRY_POINT: &str = "---
description: A guide, which is exempt from the inbound-link rule as an entry point.
type: guide
scope: global
confidence: high
asserted: 2026-08-30
source:
  - conversation 2026-08-30
triggers:
  - \"prove the guide exemption works\"
---

Guides are reached by trigger, not by link, so nothing pointing here is fine.

Bash's `[[ -f foo ]]` and a fenced block:

```sh
if [[ -n \"$x\" ]]; then echo \"[[not-a-link]]\"; fi
```

Neither of those is a link, and a linter that thinks otherwise is unusable in a
repo that documents shell.
";

/// A lesson with every field, with `replace` swapped in for the line that
/// starts the same way (or added, when nothing does), and `body` after it.
fn lesson(replace: &[&str], drop: &[&str], body: &str) -> String {
    let lines = [
        "description: A fixture.",
        "type: lesson",
        "scope: global",
        "confidence: high",
        "asserted: 2026-08-30",
        "source:\n  - conversation 2026-08-30",
        "triggers:\n  - \"a trigger\"",
    ];
    let mut out = String::from("---\n");
    for line in lines {
        let key = line.split(':').next().unwrap();
        if drop.contains(&key) {
            continue;
        }
        match replace.iter().find(|r| r.split(':').next().unwrap() == key) {
            Some(r) => out.push_str(r),
            None => out.push_str(line),
        }
        out.push('\n');
    }
    for r in replace {
        let key = r.split(':').next().unwrap();
        if !lines.iter().any(|l| l.split(':').next().unwrap() == key) {
            out.push_str(r);
            out.push('\n');
        }
    }
    out.push_str("---\n\n");
    out.push_str(body);
    out
}

fn text_field(name: &str, kind: Kind) -> Field {
    Field {
        name: name.to_string(),
        required: true,
        kind,
        doc: String::new(),
        values: Vec::new(),
        pattern: None,
        min: None,
        of: None,
    }
}

fn rule(id: &str, severity: Severity, check: Check) -> Rule {
    Rule {
        id: id.to_string(),
        section: "rules".to_string(),
        severity,
        check,
        fix: Fix::Report,
        title: String::new(),
        doc: String::new(),
        applies_to: Vec::new(),
        max_age_days: None,
    }
}

fn note_schema() -> Schema {
    let mut kind = text_field("type", Kind::Enum);
    kind.values = vec!["lesson".to_string(), "guide".to_string()];
    let mut scope = text_field("scope", Kind::Pattern);
    scope.pattern = Some("global | project:NAME".to_string());
    let mut confidence = text_field("confidence", Kind::Enum);
    confidence.values = vec!["high".to_string(), "medium".to_string(), "low".to_string()];
    let mut source = text_field("source", Kind::List);
    source.min = Some(1);
    let mut triggers = text_field("triggers", Kind::List);
    triggers.min = Some(1);
    let mut stale = rule("asserted-staleness", Severity::Warn, Check::AssertedAge);
    stale.max_age_days = Some(180);
    let mut inbound = rule("lesson-inbound-link", Severity::Warn, Check::InboundLink);
    inbound.applies_to = vec!["lesson".to_string()];
    Schema {
        schema: Meta {
            name: "note".to_string(),
            title: "Notes".to_string(),
            version: 1,
            preamble: String::new(),
        },
        field: vec![
            text_field("description", Kind::Text),
            kind,
            scope,
            confidence,
            text_field("asserted", Kind::Date),
            source,
            triggers,
        ],
        rule: vec![
            rule("one-concept", Severity::Warn, Check::Undetectable),
            rule("plain-scalar-colon", Severity::Error, Check::YamlParses),
            rule("nothing-derivable", Severity::Error, Check::NoDerivableFields),
            stale,
            inbound,
            rule("local-link-resolves", Severity::Error, Check::LinkResolvesLocal),
            rule("cross-source-link", Severity::Warn, Check::LinkResolvesCross),
            rule("public-links-public", Severity::Error, Check::PublicationDirection),
            rule("lazy-move-rewrite", Severity::Warn, Check::PendingMoves),
        ],
        section: Vec::new(),
    }
}

fn file(path: &str, text: String) -> SourceFile {
    SourceFile {
        path: format!("corpus/{path}"),
        contents: Ok(text),
    }
}

fn corpus() -> Vec<SourceFile> {
    vec![
        file("lessons/good-note.md", GOOD_NOTE.to_string()),
        file("guides/an-entry-point.md", ENTRY_POINT.to_string()),
        file("lessons/bad-enum.md", lesson(&["type: parable"], &[], "Body.\n")),
        file("lessons/bad-scope.md", lesson(&["scope: whatever"], &[], "Body.\n")),
        file(
            "lessons/linked-note.md",
            lesson(&["scope: project:lab"], &[], "Back to [[good-note]].\n"),
        ),
        file(
            "lessons/stores-derivable.md",
            lesson(&["name: stores-derivable"], &[], "Body.\n"),
        ),
        file("lessons/missing-field.md", lesson(&[], &["triggers"], "Body.\n")),
        file("lessons/stale.md", lesson(&["asserted: 2025-01-01"], &[], "Body.\n")),
        file(
            "lessons/broken-link.md",
            lesson(&[], &[], "See [[no-such-note]] and [[otherrepo:thing]].\n"),
        ),
        file(
            "lessons/colon-in-scalar.md",
            lesson(&["description: Coding principles: gates, brevity"], &[], "Body.\n"),
        ),
        file("lessons/orphan.md", lesson(&[], &[], "Nobody links here.\n")),
    ]
}

fn today() -> CivilDate {
    CivilDate::new(2026, 8, 30).unwrap()
}

fn report() -> Report {
    check(&note_schema(), &corpus(), today())
}

fn about<'a>(report: &'a Report, note: &str) -> Vec<&'a Diagnostic> {
    report
        .diagnostics
        .iter()
        .filter(|d| d.path.ends_with(note))
        .collect()
}

fn rules_for(report: &Report, note: &str) -> Vec<String> {
    about(report, note).iter().map(|d| d.rule.clone()).collect()
}

fn messages(report: &Report, note: &str) -> Vec<String> {
    about(report, note).iter().map(|d| d.message.clone()).collect()
}

#[test]
fn a_well_formed_note_produces_nothing() {
    let report = report();
    assert!(about(&report, "good-note.md").is_empty(), "{:?}", messages(&report, "good-note.md"));
}

#[test]
fn a_value_outside_the_enum_is_reported() {
    let report = report();
    let found = messages(&report, "bad-enum.md");
    assert!(found.iter().any(|m| m.contains("`parable`")), "{found:?}");
    assert_eq!(found, ["`type` is `parable`, which is not one of lesson, guide"]);
}

#[test]
fn a_scope_outside_the_pattern_is_reported() {
    let report = report();
    let found = messages(&report, "bad-scope.md");
    assert!(found.iter().any(|m| m.contains("does not match")), "{found:?}");
}

#[test]
fn a_prefixed_scope_is_accepted() {
    let report = report();
    assert!(about(&report, "linked-note.md").is_empty());
}

#[test]
fn a_stored_derivable_field_is_reported() {
    let report = report();
    let found = about(&report, "stores-derivable.md");
    assert_eq!(found.len(), 1, "{found:?}");
    assert_eq!(found[0].rule, "nothing-derivable");
    assert_eq!(
        found[0].message,
        "`name` is derived and must not be stored \u{2014} remove it"
    );
    assert_eq!(found[0].line, None);
}

#[test]
fn a_missing_required_field_is_reported() {
    let report = report();
    let found = messages(&report, "missing-field.md");
    assert!(found.iter().any(|m| m.contains("`triggers` is required")), "{found:?}");
}

#[test]
fn a_stale_assertion_warns_rather_than_fails() {
    let report = report();
    let stale = about(&report, "stale.md");
    assert_eq!(stale.len(), 1, "{stale:?}");
    assert_eq!(stale[0].rule, "asserted-staleness");
    assert_eq!(stale[0].severity, Severity::Warn);
    assert_eq!(
        stale[0].message,
        "asserted 606 days ago; recheck it and update `asserted`"
    );
}

#[test]
fn a_dangling_local_link_is_an_error_with_a_line_number() {
    let report = report();
    let broken: Vec<_> = about(&report, "broken-link.md")
        .into_iter()
        .filter(|d| d.rule == "local-link-resolves")
        .collect();
    assert_eq!(broken.len(), 1, "{broken:?}");
    assert_eq!(broken[0].line, Some(13));
    assert_eq!(broken[0].message, "[[no-such-note]] does not resolve in this source");
    assert_eq!(broken[0].severity, Severity::Error);
}

#[test]
fn a_cross_source_link_is_not_treated_as_local() {
    let report = report();
    let found = messages(&report, "broken-link.md");
    assert!(!found.iter().any(|m| m.contains("otherrepo")), "{found:?}");
}

#[test]
fn an_unquoted_colon_is_caught_at_its_file_line() {
    let report = report();
    let bad = about(&report, "colon-in-scalar.md");
    assert_eq!(bad.len(), 1, "{bad:?}");
    assert_eq!(bad[0].rule, "plain-scalar-colon");
    assert_eq!(bad[0].line, Some(2));
    assert!(!bad[0].message.contains("at line"), "{}", bad[0].message);
}

#[test]
fn an_orphaned_lesson_is_reported() {
    let report = report();
    assert!(
        rules_for(&report, "orphan.md").contains(&"lesson-inbound-link".to_string()),
        "{:?}",
        rules_for(&report, "orphan.md")
    );
    assert_eq!(
        messages(&report, "orphan.md"),
        ["nothing links to this note; it will not be found by a reader following related notes"]
    );
}

/// The discriminating case for the inbound-link rule: a guide is also
/// unlinked, and must not be reported.
#[test]
fn an_unlinked_guide_is_exempt() {
    let report = report();
    assert!(
        !rules_for(&report, "an-entry-point.md").contains(&"lesson-inbound-link".to_string()),
        "{:?}",
        rules_for(&report, "an-entry-point.md")
    );
}

/// The guide is the shell note: double brackets in code must produce no
/// link diagnostics at all.
#[test]
fn double_brackets_in_code_produce_no_diagnostics() {
    let report = report();
    assert!(
        about(&report, "an-entry-point.md").is_empty(),
        "{:?}",
        messages(&report, "an-entry-point.md")
    );
}

#[test]
fn an_unparseable_note_is_not_counted_as_checked() {
    let report = report();
    assert_eq!(report.notes_checked, corpus().len() - 1);
}

#[test]
fn rules_needing_the_index_are_declared_not_run() {
    let report = report();
    for rule in ["cross-source-link", "public-links-public", "lazy-move-rewrite"] {
        assert!(report.not_run.contains(&rule.to_string()), "{:?}", report.not_run);
    }
    assert_eq!(report.not_run.len(), 3);
}

#[test]
fn a_report_is_sorted_by_path_then_line() {
    let report = report();
    let paths: Vec<&str> = report.diagnostics.iter().map(|d| d.path.as_str()).collect();
    let mut sorted = paths.clone();
    sorted.sort();
    assert_eq!(paths, sorted);
    assert_eq!(report.errors() + report.warnings(), report.diagnostics.len());
    assert_eq!(report.warnings(), 2);
}

#[test]
fn without_a_parse_rule_unreadable_notes_fall_under_unreadable() {
    let mut schema = note_schema();
    schema.rule.retain(|r| r.check != Check::YamlParses);
    let files = vec![file("x.md", "no frontmatter\n".to_string())];
    let report = check(&schema, &files, today());
    assert_eq!(report.notes_checked, 0);
    assert_eq!(report.diagnostics.len(), 1);
    assert_eq!(report.diagnostics[0].rule, "unreadable");
    assert_eq!(report.diagnostics[0].line, Some(1));
    assert_eq!(
        report.diagnostics[0].message,
        "no frontmatter: the file must open with `---`"
    );
    let unread = vec![SourceFile {
        path: "y.md".to_string(),
        contents: Err("permission denied".to_string()),
    }];
    let report = check(&schema, &unread, today());
    assert_eq!(report.diagnostics[0].line, None);
    assert_eq!(report.diagnostics[0].message, "permission denied");
}

#[test]
fn the_same_path_sorts_by_line_with_no_line_first() {
    let files = vec![file(
        "a.md",
        lesson(&["name: a"], &[], "[[nowhere]]\n[[elsewhere]]\n"),
    )];
    let report = check(&note_schema(), &files, today());
    let got: Vec<(Option<usize>, &str)> = report
        .diagnostics
        .iter()
        .map(|d| (d.line, d.rule.as_str()))
        .collect();
    assert_eq!(
        got,
        [
            (None, "nothing-derivable"),
            (None, "lesson-inbound-link"),
            (Some(14), "local-link-resolves"),
            (Some(15), "local-link-resolves")
        ]
    );
}

#[test]
fn a_rule_for_other_types_is_not_applied() {
    let files = vec![file(
        "g.md",
        lesson(&["type: guide"], &[], "Nothing links here.\n"),
    )];
    let report = check(&note_schema(), &files, today());
    assert!(report.diagnostics.is_empty(), "{:?}", report.diagnostics);
    assert_eq!(report.notes_checked, 1);
}

fn diagnostic(path: &str, line: Option<usize>, severity: Severity) -> Diagnostic {
    Diagnostic {
        path: path.to_string(),
        line,
        rule: "local-link-resolves".to_string(),
        severity,
        message: "[[x]] does not resolve in this source".to_string(),
    }
}

#[test]
fn render_shows_the_path_under_the_root() {
    let d = diagnostic("/kb/lessons/a.md", Some(3), Severity::Error);
    assert_eq!(
        d.render("/kb"),
        "lessons/a.md:3: error: [[x]] does not resolve in this source [local-link-resolves]"
    );
    let d = diagnostic("/kb/lessons/a.md", None, Severity::Warn);
    assert_eq!(
        d.render("/kb/"),
        "lessons/a.md: warn: [[x]] does not resolve in this source [local-link-resolves]"
    );
}

#[test]
fn render_keeps_a_path_outside_the_root_whole() {
    let d = diagnostic("/other/a.md", Some(12), Severity::Warn);
    assert_eq!(
        d.render("/kb"),
        "/other/a.md:12: warn: [[x]] does not resolve in this source [local-link-resolves]"
    );
    assert_eq!(
        d.render_as("a.md"),
        "a.md:12: warn: [[x]] does not resolve in this source [local-link-resolves]"
    );
}

#[test]
fn errors_and_warnings_are_counted_apart() {
    let report = Report {
        diagnostics: vec![
            diagnostic("a.md", None, Severity::Error),
            diagnostic("b.md", Some(1), Severity::Warn),
            diagnostic("c.md", Some(2), Severity::Error),
        ],
        notes_checked: 3,
        not_run: Vec::new(),
    };
    assert_eq!(report.errors(), 2);
    assert_eq!(report.warnings(), 1);
}

#[test]
fn rule_ids_are_found_by_check() {
    let schema = note_schema();
    assert_eq!(
        lab::lint::rule_id_for(&schema, Check::InboundLink),
        Some("lesson-inbound-link")
    );
    assert_eq!(lab::lint::rule_id_for(&schema, Check::StripCodeSpans), None);
    assert!(lab::lint::needs_index(Check::PendingMoves));
    assert!(!lab::lint::needs_index(Check::AssertedAge));
}

#[test]
fn staleness_counts_days_and_compares_strictly() {
    let today = today();
    let then = CivilDate::new(2025, 1, 1).unwrap();
    assert_eq!(
        staleness(today, then, 180).as_deref(),
        Some("asserted 606 days ago; recheck it and update `asserted`")
    );
    assert_eq!(staleness(today, then, 606), None);
    assert!(staleness(today, then, 605).is_some());
    // A date in the future is never stale.
    let later = CivilDate::new(2027, 1, 1).unwrap();
    assert_eq!(staleness(today, later, 0), None);
    // The limit is read as a 32-bit signed number: a limit past its range wraps.
    assert_eq!(
        staleness(today, today, u32::MAX).as_deref(),
        Some("asserted 0 days ago; recheck it and update `asserted`")
    );
}
