use lab::note::{choose_step, split, walk_step, Note, WalkStep};
use lab::order::stable_order;
use lab::yaml::{YamlError, YamlValue};

const SAMPLE: &str = "---\ndescription: A thing.\ntype: lesson\n---\n\nBody here.\n";

#[test]
fn splits_frontmatter_from_body() {
    let note = Note::parse("x/monitors-self-match.md", SAMPLE).ok().unwrap();
    assert_eq!(note.name, "monitors-self-match");
    assert_eq!(note.str_field("type"), Some("lesson"));
    assert_eq!(note.body.trim(), "Body here.");
}

#[test]
fn body_line_numbers_are_file_line_numbers() {
    let note = Note::parse("x/a.md", SAMPLE).ok().unwrap();
    // `---`, two fields, `---` -> the body starts on line 5.
    assert_eq!(note.body_start_line, 5);
}

/// The failure this whole path exists to catch: a plain scalar containing
/// `: ` is not a string, and the note silently fails to load.
#[test]
fn a_colon_in_a_plain_scalar_is_reported_with_its_line() {
    let text = "---\ndescription: Coding principles: gates, brevity\ntype: lesson\n---\n\nBody.\n";
    let err = Note::parse("x/a.md", text).err().unwrap();
    assert_eq!(err.line, Some(2), "{}", err.problem);
}

#[test]
fn a_file_without_frontmatter_is_unreadable_not_empty() {
    let err = Note::parse("x/a.md", "Just prose.\n").err().unwrap();
    assert!(err.problem.contains("must open with"), "{}", err.problem);
}

#[test]
fn unclosed_frontmatter_is_reported_as_such() {
    let err = Note::parse("x/a.md", "---\ntype: lesson\n").err().unwrap();
    assert!(err.problem.contains("never closed"), "{}", err.problem);
}

#[test]
fn a_colon_error_names_its_line_only_once() {
    let text = "---\ndescription: Coding principles: gates, brevity\ntype: lesson\n---\n\nBody.\n";
    let err = Note::parse("x/a.md", text).err().unwrap();
    assert!(!err.problem.contains(" at line "), "{}", err.problem);
    assert_eq!(err.path, "x/a.md");
}

#[test]
fn frontmatter_that_is_not_a_mapping_is_unreadable() {
    let err = Note::parse("x/a.md", "---\n- one\n- two\n---\nBody\n").err().unwrap();
    assert_eq!(err.line, Some(2));
    assert_eq!(err.problem, "frontmatter is not a mapping");
}

#[test]
fn a_byte_order_mark_is_ignored() {
    let text = "\u{feff}---\ntype: lesson\n---\nBody.\n";
    let note = Note::parse("notes/b.md", text).ok().unwrap();
    assert_eq!(note.str_field("type"), Some("lesson"));
    assert_eq!(note.body_start_line, 4);
}

#[test]
fn split_gives_the_frontmatter_the_body_and_its_first_line() {
    let (front, body, line) = split("---\na: 1\nb: 2\n---\nrest\nmore").unwrap();
    assert_eq!(front, "a: 1\nb: 2");
    assert_eq!(body, "rest\nmore");
    assert_eq!(line, 5);
}

#[test]
fn links_in_the_body_carry_file_line_numbers() {
    let text = "---\ntype: lesson\n---\n\nSee [[other]].\n";
    let note = Note::parse("x/a.md", text).ok().unwrap();
    assert_eq!(note.links.len(), 1);
    assert_eq!(note.links[0].name, "other");
    assert_eq!(note.links[0].line, 5);
}

#[test]
fn get_and_str_field_tell_text_from_other_values() {
    let text = "---\ntitle: words\ncount: 3\n---\n";
    let note = Note::parse("x/a.md", text).ok().unwrap();
    assert!(note.get("count").is_some());
    assert_eq!(note.str_field("count"), None);
    assert_eq!(note.str_field("title"), Some("words"));
    assert!(note.get("missing").is_none());
}

#[test]
fn a_file_that_could_not_be_read_is_unreadable_without_a_line() {
    let read: Result<String, String> = Err("permission denied".to_string());
    let err = Note::load("x/a.md", &read).err().unwrap();
    assert_eq!(err.line, None);
    assert_eq!(err.problem, "permission denied");
    let read: Result<String, String> = Ok(SAMPLE.to_string());
    assert_eq!(Note::load("x/a.md", &read).ok().unwrap().name, "a");
}

#[test]
fn the_name_is_the_file_stem() {
    let note = Note::parse("deep/dir/some.note.md", SAMPLE).ok().unwrap();
    assert_eq!(note.name, "some.note");
}

#[test]
fn a_walk_skips_hidden_entries_descends_directories_and_collects_markdown() {
    assert!(matches!(walk_step(".git", true), WalkStep::Skip));
    assert!(matches!(walk_step(".hidden.md", false), WalkStep::Skip));
    assert!(matches!(walk_step("lessons", true), WalkStep::Descend));
    assert!(matches!(walk_step("a.md", false), WalkStep::Collect));
    assert!(matches!(walk_step("notes.txt", false), WalkStep::Skip));
    // The repo's own documents are uppercase and are not notes.
    assert!(matches!(walk_step("README.md", false), WalkStep::Skip));
    assert!(matches!(walk_step("\u{c9}tude.md", false), WalkStep::Skip));
    assert!(matches!(walk_step("\u{e9}tude.md", false), WalkStep::Collect));
}

#[test]
fn paths_sort_by_component() {
    let paths = ["a-b/x.md", "a/b.md", "a/a.md", "B.md", "a/b.md"];
    let keys: Vec<(Vec<char>, Option<usize>)> =
        paths.iter().map(|p| (p.chars().collect(), None)).collect();
    let order = stable_order(&keys);
    assert_eq!(order, [3, 2, 1, 4, 0]);
}

#[test]
fn a_parser_error_is_hoisted_to_its_file_line() {
    let err = Note::from_frontmatter(
        "x/a.md",
        Err(YamlError {
            line: Some(1),
            message: "mapping values are not allowed in this context at line 1 column 25"
                .to_string(),
        }),
        Some("a".to_string()),
        String::new(),
        4,
    )
    .err()
    .unwrap();
    assert_eq!(err.line, Some(2));
    assert_eq!(err.problem, "mapping values are not allowed in this context");
    let err = Note::from_frontmatter(
        "x/a.md",
        Err(YamlError {
            line: None,
            message: "something at line 3 column 1".to_string(),
        }),
        Some("a".to_string()),
        String::new(),
        4,
    )
    .err()
    .unwrap();
    assert_eq!(err.line, None);
    assert_eq!(err.problem, "something at line 3 column 1");
}

#[test]
fn a_note_is_assembled_from_its_parts() {
    let err = Note::from_frontmatter("x/a.md", Ok(YamlValue::Null), Some("a".to_string()), String::new(), 4)
        .err()
        .unwrap();
    assert_eq!((err.line, err.problem.as_str()), (Some(2), "frontmatter is not a mapping"));
    let err = Note::from_frontmatter("x/a.md", Ok(YamlValue::Mapping(Vec::new())), None, String::new(), 4)
        .err()
        .unwrap();
    assert_eq!((err.line, err.problem.as_str()), (None, "filename is not valid UTF-8"));
    let note = Note::from_frontmatter(
        "x/a.md",
        Ok(YamlValue::Mapping(vec![(
            YamlValue::Str("type".to_string()),
            YamlValue::Str("lesson".to_string()),
        )])),
        Some("a".to_string()),
        "\n[[b]]\n".to_string(),
        4,
    )
    .ok()
    .unwrap();
    assert_eq!(note.name, "a");
    assert_eq!(note.str_field("type"), Some("lesson"));
    assert_eq!(note.links.len(), 1);
    assert_eq!((note.links[0].name.as_str(), note.links[0].line), ("b", 5));
}

#[test]
fn an_uppercase_first_letter_marks_a_document() {
    assert!(matches!(choose_step("README.md", false, true), WalkStep::Skip));
    assert!(matches!(choose_step("readme.md", false, false), WalkStep::Collect));
    assert!(matches!(choose_step("Docs", true, true), WalkStep::Descend));
    assert!(matches!(choose_step(".Docs", true, true), WalkStep::Skip));
}

#[test]
fn the_body_line_counts_blank_frontmatter_lines() {
    let (front, body, line) = split("---\na: 1\n\n---\nB").unwrap();
    assert_eq!((front.as_str(), body.as_str(), line), ("a: 1\n", "B", 5));
    let (front, body, line) = split("---\n\n---\nB").unwrap();
    assert_eq!((front.as_str(), body.as_str(), line), ("", "B", 4));
}
