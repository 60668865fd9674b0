use lab::schema::{generated_section, Check, Field, Fix, Kind, Meta, Rule, Schema, Section, SchemaError, Severity};

fn meta() -> Meta {
    Meta {
        name: "t".to_string(),
        title: "T".to_string(),
        version: 1,
        preamble: String::new(),
    }
}

fn rule(id: &str, section: &str, check: Check, fix: Fix) -> Rule {
    Rule {
        id: id.to_string(),
        section: section.to_string(),
        severity: Severity::Warn,
        check,
        fix,
        title: String::new(),
        doc: String::new(),
        applies_to: Vec::new(),
        max_age_days: None,
    }
}

fn section(id: &str, after: &str) -> Section {
    Section {
        id: id.to_string(),
        title: String::new(),
        after: after.to_string(),
        doc: String::new(),
    }
}

fn schema(field: Vec<Field>, rule: Vec<Rule>, section: Vec<Section>) -> Schema {
    Schema {
        schema: meta(),
        field,
        rule,
        section,
    }
}

fn enum_field(name: &str, values: &[&str]) -> Field {
    Field {
        name: name.to_string(),
        required: true,
        kind: Kind::Enum,
        doc: String::new(),
        values: values.iter().map(|v| v.to_string()).collect(),
        pattern: None,
        min: None,
        of: None,
    }
}

#[test]
fn enum_without_values_is_rejected() {
    let err = schema(vec![enum_field("type", &[])], vec![], vec![])
        .validate()
        .unwrap_err();
    assert!(err.message().contains("enum with no values"), "{}", err.message());
}

#[test]
fn a_rule_cannot_claim_a_fix_it_cannot_detect() {
    let err = schema(
        vec![],
        vec![rule("wishful", "rules", Check::Undetectable, Fix::Fix)],
        vec![],
    )
    .validate()
    .unwrap_err();
    assert!(err.message().contains("no check to detect it"), "{}", err.message());
}

#[test]
fn a_rule_in_an_unknown_section_is_rejected() {
    let err = schema(
        vec![],
        vec![rule("lost", "appendix", Check::Undetectable, Fix::Report)],
        vec![],
    )
    .validate()
    .unwrap_err();
    assert!(err.message().contains("not one of"), "{}", err.message());
}

#[test]
fn schema_errors_are_worded_exactly() {
    let mut pattern = enum_field("scope", &[]);
    pattern.kind = Kind::Pattern;
    let err = schema(vec![pattern], vec![], vec![]).validate().unwrap_err();
    assert_eq!(err.message(), "field `scope` is a pattern with no shape");
    let err = schema(
        vec![],
        vec![rule("lost", "appendix", Check::Undetectable, Fix::Report)],
        vec![],
    )
    .validate()
    .unwrap_err();
    assert_eq!(
        err.message(),
        "rule `lost` is in section `appendix`, which is not one of [\"frontmatter\", \"rules\", \"links\"]"
    );
    let err = schema(vec![], vec![], vec![section("why", "preface")])
        .validate()
        .unwrap_err();
    assert!(matches!(err, SchemaError::SectionAfterUnknown { .. }));
    assert_eq!(
        err.message(),
        "section `why` follows `preface`, which is not one of [\"frontmatter\", \"rules\", \"links\"]"
    );
    let err = schema(
        vec![],
        vec![rule("wishful", "rules", Check::Undetectable, Fix::Fix)],
        vec![],
    )
    .validate()
    .unwrap_err();
    assert_eq!(
        err.message(),
        "rule `wishful` claims to be autofixable but has no check to detect it"
    );
}

#[test]
fn a_well_formed_schema_validates() {
    let s = schema(
        vec![enum_field("type", &["lesson", "guide"])],
        vec![
            rule("one-concept", "rules", Check::Undetectable, Fix::Report),
            rule("nothing-derivable", "frontmatter", Check::NoDerivableFields, Fix::Fix),
        ],
        vec![section("why", "links")],
    );
    assert!(s.validate().is_ok());
}

#[test]
fn the_first_problem_is_the_one_reported() {
    let s = schema(
        vec![enum_field("a", &[]), enum_field("b", &[])],
        vec![rule("lost", "appendix", Check::Undetectable, Fix::Report)],
        vec![],
    );
    let err = s.validate().unwrap_err();
    assert_eq!(err.message(), "field `a` is an enum with no values");
}

#[test]
fn rules_and_sections_are_listed_by_section_in_order() {
    let s = schema(
        vec![],
        vec![
            rule("a", "rules", Check::Undetectable, Fix::Report),
            rule("b", "links", Check::LinkResolvesLocal, Fix::Report),
            rule("c", "rules", Check::InboundLink, Fix::Report),
        ],
        vec![section("x", "links"), section("y", "rules"), section("z", "links")],
    );
    let ids: Vec<&str> = s.rules_in("rules").iter().map(|r| r.id.as_str()).collect();
    assert_eq!(ids, ["a", "c"]);
    assert!(s.rules_in("frontmatter").is_empty());
    let ids: Vec<&str> = s.sections_after("links").iter().map(|x| x.id.as_str()).collect();
    assert_eq!(ids, ["x", "z"]);
}

#[test]
fn only_the_three_generated_sections_exist() {
    assert!(generated_section("frontmatter"));
    assert!(generated_section("rules"));
    assert!(generated_section("links"));
    assert!(!generated_section("appendix"));
}

#[test]
fn a_list_without_an_element_kind_holds_text() {
    let mut f = enum_field("tags", &[]);
    f.kind = Kind::List;
    assert_eq!(f.element_kind(), Kind::Text);
    f.of = Some(Kind::Date);
    assert_eq!(f.element_kind(), Kind::Date);
}
