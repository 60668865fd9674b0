use lab::lint::Diagnostic;
use lab::note::Note;
use lab::schema::{Field, Kind, Meta, Schema};

fn field(name: &str, required: bool, kind: Kind) -> Field {
    Field {
        name: name.to_string(),
        required,
        kind,
        doc: String::new(),
        values: Vec::new(),
        pattern: None,
        min: None,
        of: None,
    }
}

fn meta() -> Meta {
    Meta {
        name: "t".to_string(),
        title: "T".to_string(),
        version: 1,
        preamble: String::new(),
    }
}

/// A schema with a list of enums, the case a hardcoded list-of-text check
/// gets wrong: `labels`, a required list of at least one of `bug` and
/// `chore`, and `seen`, an optional list of dates.
fn schema() -> Schema {
    let mut labels = field("labels", true, Kind::List);
    labels.of = Some(Kind::Enum);
    labels.min = Some(1);
    labels.values = vec!["bug".to_string(), "chore".to_string()];
    let mut seen = field("seen", false, Kind::List);
    seen.of = Some(Kind::Date);
    Schema {
        schema: meta(),
        field: vec![labels, seen],
        rule: Vec::new(),
        section: Vec::new(),
    }
}

fn diagnose_with(schema: &Schema, front: &str) -> Vec<String> {
    let text = format!("---\n{front}---\n\nBody.\n");
    let note = Note::parse("x/a.md", &text).ok().expect("parses");
    let mut out: Vec<Diagnostic> = Vec::new();
    lab::fields::check(schema, &note, &mut out);
    for d in &out {
        assert_eq!(d.rule, "field");
        assert_eq!(d.path, "x/a.md");
        assert_eq!(d.line, None);
    }
    out.into_iter().map(|d| d.message).collect()
}

fn diagnose(front: &str) -> Vec<String> {
    diagnose_with(&schema(), front)
}

#[test]
fn a_list_of_valid_enums_passes() {
    assert!(diagnose("labels:\n  - bug\n  - chore\n").is_empty());
}

/// The discriminating case: a list of text and a list of enums are
/// indistinguishable until an entry is outside the enum.
#[test]
fn an_entry_outside_the_enum_is_reported() {
    let found = diagnose("labels:\n  - bug\n  - nonsense\n");
    assert!(found.iter().any(|m| m.contains("`nonsense`")), "{found:?}");
}

#[test]
fn an_entry_of_the_wrong_element_type_is_reported() {
    let found = diagnose("labels:\n  - bug\nseen:\n  - not-a-date\n");
    assert!(
        found.iter().any(|m| m.contains("not an ISO date")),
        "{found:?}"
    );
}

#[test]
fn a_list_shorter_than_min_is_reported() {
    let found = diagnose("labels: []\n");
    assert!(found.iter().any(|m| m.contains("at least 1")), "{found:?}");
}

#[test]
fn a_scalar_where_a_list_belongs_is_reported() {
    let found = diagnose("labels: bug\n");
    assert!(
        found.iter().any(|m| m.contains("must be a list")),
        "{found:?}"
    );
}

#[test]
fn a_field_not_in_the_schema_is_reported() {
    let found = diagnose("labels:\n  - bug\nmystery: yes\n");
    assert!(found.iter().any(|m| m.contains("`mystery`")), "{found:?}");
}

#[test]
fn field_messages_are_worded_exactly() {
    assert_eq!(
        diagnose("labels:\n  - bug\n  - nonsense\n"),
        ["`labels` is `nonsense`, which is not one of bug, chore"]
    );
    assert_eq!(
        diagnose("labels: []\n"),
        ["`labels` has 0 entries; the schema asks for at least 1"]
    );
    assert_eq!(diagnose("labels: bug\n"), ["`labels` must be a list, but is a string"]);
    assert_eq!(
        diagnose("labels:\n  - bug\nseen:\n  - 2026-02-30\n  - 2026-02-28\n"),
        ["`seen` is `2026-02-30`, which is not an ISO date"]
    );
    assert_eq!(
        diagnose("labels:\n  - bug\nmystery: yes\n"),
        ["`mystery` is not in the schema; add it there or remove it"]
    );
}

#[test]
fn a_required_field_that_is_absent_or_empty_is_reported_once() {
    assert_eq!(diagnose("seen: []\n"), ["`labels` is required"]);
    assert_eq!(diagnose("labels:\n"), ["`labels` is required"]);
}

#[test]
fn derived_fields_are_left_to_their_own_rule() {
    assert!(diagnose("labels:\n  - bug\nname: a\nvisibility: public\n").is_empty());
}

#[test]
fn non_string_keys_and_values_are_reported_by_shape() {
    let mut s = schema();
    s.field.push(field("title", false, Kind::Text));
    let found = diagnose_with(&s, "labels:\n  - bug\ntitle: 12\n1: x\n");
    assert_eq!(
        found,
        [
            "`title` must be text, but is a number",
            "a frontmatter key is not a string"
        ]
    );
}

#[test]
fn a_pattern_accepts_its_alternatives_and_prefixed_names() {
    let mut scope = field("scope", true, Kind::Pattern);
    scope.pattern = Some("global | project:NAME".to_string());
    assert!(lab::fields::matches_pattern(&scope, "global"));
    assert!(lab::fields::matches_pattern(&scope, "project:lab"));
    assert!(!lab::fields::matches_pattern(&scope, "project:"));
    assert!(!lab::fields::matches_pattern(&scope, "whatever"));
    let s = Schema {
        schema: meta(),
        field: vec![scope],
        rule: Vec::new(),
        section: Vec::new(),
    };
    assert_eq!(
        diagnose_with(&s, "scope: whatever\n"),
        ["`scope` is `whatever`, which does not match `global | project:NAME`"]
    );
    assert!(diagnose_with(&s, "scope: project:lab\n").is_empty());
}

#[test]
fn enum_membership_is_exact() {
    let values = vec!["bug".to_string(), "chore".to_string()];
    assert!(lab::fields::contains_value(&values, "chore"));
    assert!(!lab::fields::contains_value(&values, "Chore"));
    assert!(lab::fields::derivable_exec("visibility"));
    assert!(!lab::fields::derivable_exec("type"));
}
