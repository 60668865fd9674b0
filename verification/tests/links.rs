use lab::links::{extract_links, mask_code};

fn names(body: &str) -> Vec<String> {
    extract_links(body, 1)
        .into_iter()
        .map(|l| l.as_written())
        .collect()
}

#[test]
fn finds_a_plain_link() {
    assert_eq!(
        names("See [[monitors-self-match]] for why."),
        ["[[monitors-self-match]]"]
    );
}

#[test]
fn finds_a_cross_source_link_and_splits_it() {
    let links = extract_links("See [[kb:monitors-self-match]].", 1);
    assert_eq!(links[0].source.as_deref(), Some("kb"));
    assert_eq!(links[0].name, "monitors-self-match");
}

/// The discriminating case. A linter that only strips fenced blocks passes
/// every test written from a note about Rust and fails on the one note in
/// the corpus that is about shell.
#[test]
fn double_brackets_in_an_inline_code_span_are_not_links() {
    assert!(names("Bash's `[[ -f foo ]]` test.").is_empty());
}

#[test]
fn double_brackets_in_a_fenced_block_are_not_links() {
    let body =
        "Before.\n\n```sh\nif [[ -f foo ]]; then echo hi; fi\n```\n\nAfter [[real-link]].";
    assert_eq!(names(body), ["[[real-link]]"]);
}

#[test]
fn line_numbers_survive_masking() {
    let body = "```sh\n[[ -f x ]]\n```\n\nSee [[a-note]].";
    let links = extract_links(body, 10);
    assert_eq!(
        links[0].line, 14,
        "body starts at 10, link is on the fifth line"
    );
}

#[test]
fn a_longer_fence_may_contain_a_shorter_one() {
    let body = "````md\n```\n[[not-a-link]]\n```\n````\n\n[[a-link]]";
    assert_eq!(names(body), ["[[a-link]]"]);
}

/// A stray backtick in prose must not swallow the rest of the note.
#[test]
fn an_unterminated_backtick_does_not_hide_later_links() {
    assert_eq!(names("A stray ` tick, then [[a-link]]."), ["[[a-link]]"]);
}

#[test]
fn a_double_tick_span_closes_on_a_double_tick() {
    assert!(names("Literal ``[[x]]`` span.").is_empty());
}

#[test]
fn masking_keeps_length_and_newlines() {
    let body = "a `b` c\n```\nx\n```\nd";
    let masked = mask_code(body);
    assert_eq!(masked.chars().count(), body.chars().count());
    assert_eq!(masked, "a     c\n   \n \n   \nd");
}

#[test]
fn a_link_name_is_trimmed_and_its_source_split_off() {
    let links = extract_links("x [[ other : a-note ]] y", 3);
    assert_eq!(links.len(), 1);
    assert_eq!(links[0].source.as_deref(), Some("other"));
    assert_eq!(links[0].name, "a-note");
    assert_eq!(links[0].line, 3);
    assert_eq!(links[0].as_written(), "[[other:a-note]]");
}

#[test]
fn several_links_come_out_in_order_with_their_lines() {
    let links = extract_links("[[one]]\n\n[[two]] and [[three]]", 7);
    let got: Vec<(String, usize)> = links.iter().map(|l| (l.name.clone(), l.line)).collect();
    assert_eq!(
        got,
        vec![
            ("one".to_string(), 7),
            ("two".to_string(), 9),
            ("three".to_string(), 9)
        ]
    );
}

#[test]
fn non_ascii_text_before_a_link_keeps_its_line() {
    let links = extract_links("caf\u{e9} \u{2014} \u{1F600}\n[[after]]", 1);
    assert_eq!(links.len(), 1);
    assert_eq!(links[0].name, "after");
    assert_eq!(links[0].line, 2);
}

#[test]
fn captures_become_links_on_the_line_of_their_start() {
    let masked = "ab\n[[ kb : x ]] [[y]]";
    let caps = vec![
        (3usize, Some(" kb : x ".to_string())),
        (0usize, None),
        (16usize, Some("y".to_string())),
    ];
    let links = lab::links::links_from_captures(masked, &caps, 5);
    assert_eq!(links.len(), 2);
    assert_eq!(links[0].source.as_deref(), Some("kb"));
    assert_eq!((links[0].name.as_str(), links[0].line), ("x", 6));
    assert_eq!((links[1].source.clone(), links[1].name.as_str(), links[1].line), (None, "y", 6));
}

#[test]
fn masking_keeps_byte_offsets() {
    let body = "`\u{e9}` and [[a]]";
    let masked = mask_code(body);
    assert_eq!(masked.len(), body.len());
    assert_eq!(masked, "     and [[a]]");
    assert_eq!(masked.find("[[a]]"), body.find("[[a]]"));
}

#[test]
fn an_unterminated_run_is_kept_whole() {
    assert_eq!(mask_code("x```a``"), "x```a``");
    assert_eq!(mask_code("a ``` b `c` d"), "a ``` b     d");
}

#[test]
fn a_later_start_moves_every_link_by_as_much() {
    let body = "[[one]]\n`[[no]]`\n[[two]]";
    let at_one: Vec<usize> = extract_links(body, 1).iter().map(|l| l.line).collect();
    let at_ten: Vec<usize> = extract_links(body, 10).iter().map(|l| l.line).collect();
    assert_eq!(at_one, [1, 3]);
    assert_eq!(at_ten, [10, 12]);
}

#[test]
fn a_clean_link_is_written_back_as_it_was() {
    for body in ["[[a-note]]", "[[kb:a-note]]", "[[caf\u{e9}]]"] {
        let links = extract_links(body, 1);
        assert_eq!(links.len(), 1);
        assert_eq!(links[0].as_written(), body);
    }
}
