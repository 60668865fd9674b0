//! Reading a note: its frontmatter, its body, and the links out of it.
//!
//! Frontmatter is kept as an untyped mapping rather than a struct. The schema
//! is data, so the set of fields is not known here, and a struct would quietly
//! become a second definition of the schema that drifts from the first.

use vstd::prelude::*;

use crate::links::{extract_links, link_views, links_in, LinkView, Link};
use crate::text::{
    chars_of, count_char, find, find_chars, find_from, has_prefix, has_suffix, lemma_count_char_concat,
    lemma_count_char_le_len, lemma_find_from, occurs_at, push_str, slice_chars, starts_with_chars,
    ends_with_chars, string_of, owned,
};
use crate::links::opt_view;
use crate::yaml::{lookup, mapping_get, parse_yaml, yaml_document, YamlError, YamlValue};

verus! {

/// One note.
pub struct Note {
    pub path: String,
    /// The filename without its extension. Derived, never stored in the file
    /// — a name in the frontmatter would be a second copy to keep in sync.
    pub name: String,
    /// The frontmatter mapping's entries, in file order.
    pub fields: Vec<(YamlValue, YamlValue)>,
    pub body: String,
    /// Line number of the first body line, so diagnostics point at the file
    /// rather than at an offset into the body.
    pub body_start_line: usize,
    pub links: Vec<Link>,
}

/// A note that could not be read far enough to check anything else about it.
pub struct Unreadable {
    pub path: String,
    pub line: Option<usize>,
    pub problem: String,
}

pub struct NoteView {
    pub path: Seq<char>,
    pub name: Seq<char>,
    pub fields: Seq<(YamlValue, YamlValue)>,
    pub body: Seq<char>,
    pub body_start_line: int,
    pub links: Seq<LinkView>,
}

pub struct UnreadableView {
    pub path: Seq<char>,
    pub line: Option<usize>,
    pub problem: Seq<char>,
}

impl View for Note {
    type V = NoteView;

    open spec fn view(&self) -> NoteView {
        NoteView {
            path: self.path@,
            name: self.name@,
            fields: self.fields@,
            body: self.body@,
            body_start_line: self.body_start_line as int,
            links: link_views(self.links@),
        }
    }
}

impl View for Unreadable {
    type V = UnreadableView;

    open spec fn view(&self) -> UnreadableView {
        UnreadableView { path: self.path@, line: self.line, problem: self.problem@ }
    }
}

/// The text without a leading byte order mark.
pub open spec fn without_bom(t: Seq<char>) -> Seq<char> {
    if t.len() > 0 && t[0] == '\u{feff}' {
        t.drop_first()
    } else {
        t
    }
}

pub open spec fn opening() -> Seq<char> {
    "---\n"@
}

pub open spec fn closing() -> Seq<char> {
    "\n---\n"@
}

/// Frontmatter, body, and the line the body starts on; or why there is no
/// frontmatter. The body starts on the line after the last newline before
/// it: the opening `---`'s, the frontmatter's, and the two of the closing
/// `---`.
pub open spec fn split_text(text: Seq<char>) -> Result<(Seq<char>, Seq<char>, int), Seq<char>> {
    let t = without_bom(text);
    if !has_prefix(t, opening()) {
        Err("no frontmatter: the file must open with `---`"@)
    } else {
        let rest = t.skip(4);
        match find(rest, closing()) {
            None => Err("frontmatter is never closed with `---`"@),
            Some(end) => Ok(
                (rest.take(end), rest.skip(end + 5), (count_char(rest.take(end), '\n') + 4) as int),
            ),
        }
    }
}

/// Splitting loses nothing: the text is the opening `---`, the frontmatter,
/// the closing `---`, and the body; the frontmatter is the shortest that
/// makes it so; and the body's line is one more than the number of newlines
/// before it.
pub proof fn law_split_reassembles(text: Seq<char>)
    ensures
        split_text(text) matches Ok((front, body, line)) ==> {
            &&& without_bom(text) == opening() + front + closing() + body
            &&& find(front + closing(), closing()) == Some(front.len() as int)
            &&& line == 1 + count_char(opening() + front + closing(), '\n')
        },
{
    reveal_strlit("---\n");
    reveal_strlit("\n---\n");
    let t = without_bom(text);
    if has_prefix(t, opening()) {
        let rest = t.skip(4);
        lemma_find_from(rest, closing(), 0);
        if let Some(end) = find(rest, closing()) {
            assert(t =~= opening() + rest);
            assert(rest =~= rest.take(end) + closing() + rest.skip(end + 5)) by {
                assert(rest.subrange(end, end + 5) == closing());
            }
            lemma_first_occurrence_prefix(rest, closing(), end);
            let front = rest.take(end);
            lemma_count_char_concat(opening(), front, '\n');
            lemma_count_char_concat(opening() + front, closing(), '\n');
            reveal_with_fuel(count_char, 6);
            assert(opening().drop_last() =~= seq!['-', '-', '-']);
            assert(closing().drop_last() =~= seq!['\n', '-', '-', '-']);
            assert(count_char(opening(), '\n') == 1);
            assert(count_char(closing(), '\n') == 2);
        }
    }
}

/// The first occurrence of `n` in `h` is also the first in any text that
/// starts with `h`'s prefix up to and including it.
proof fn lemma_first_occurrence_prefix(h: Seq<char>, n: Seq<char>, end: int)
    requires
        find(h, n) == Some(end),
        0 <= end,
        end + n.len() <= h.len(),
    ensures
        find(h.take(end) + n, n) == Some(end),
{
    let p = h.take(end) + n;
    assert(p =~= h.take(end + n.len())) by {
        lemma_find_from(h, n, 0);
        assert(occurs_at(h, n, end));
        assert(h.subrange(end, end + n.len()) == n);
    }
    lemma_find_same_prefix(h, p, n, 0, end);
}

proof fn lemma_find_same_prefix(h: Seq<char>, p: Seq<char>, n: Seq<char>, i: int, end: int)
    requires
        0 <= i <= end,
        end + n.len() <= h.len(),
        p == h.take(end + n.len()),
        find_from(h, n, i) == Some(end),
    ensures
        find_from(p, n, i) == Some(end),
    decreases end - i,
{
    if i < end {
        assert(!occurs_at(h, n, i)) by {
            if occurs_at(h, n, i) {
                assert(find_from(h, n, i) == Some(i));
            }
        }
        assert(occurs_at(p, n, i) == occurs_at(h, n, i)) by {
            if i + n.len() <= p.len() {
                assert(p.subrange(i, i + n.len()) =~= h.subrange(i, i + n.len()));
            }
        }
        lemma_find_same_prefix(h, p, n, i + 1, end);
    } else {
        lemma_find_from(h, n, i);
        assert(p.subrange(i, i + n.len()) =~= h.subrange(i, i + n.len()));
    }
}

fn newlines_in(cs: &Vec<char>) -> (r: usize)
    ensures
        r == count_char(cs@, '\n'),
{
    proof {
        lemma_count_char_le_len(cs@, '\n');
    }
    let mut i: usize = 0;
    let mut n: usize = 0;
    while i < cs.len()
        invariant
            i <= cs.len(),
            n == count_char(cs@.take(i as int), '\n'),
            n <= i,
        decreases cs.len() - i,
    {
        assert(cs@.take(i + 1).drop_last() =~= cs@.take(i as int));
        if cs[i] == '\n' {
            n += 1;
        }
        i += 1;
    }
    assert(cs@.take(cs.len() as int) =~= cs@);
    n
}

/// Splits `---`-delimited frontmatter from the body.
///
/// Returns the frontmatter, the body, and the line the body starts on.
pub fn split(text: &str) -> (r: Result<(String, String, usize), String>)
    requires
        text@.len() + 3 <= usize::MAX,
    ensures
        match r {
            Ok((front, body, line)) => split_text(text@) == Ok::<_, Seq<char>>(
                (front@, body@, line as int),
            ),
            Err(problem) => split_text(text@) == Err::<(Seq<char>, Seq<char>, int), _>(problem@),
        },
{
    let all = chars_of(text);
    let cs = if all.len() > 0 && all[0] == '\u{feff}' {
        slice_chars(&all, 1, all.len())
    } else {
        all
    };
    assert(cs@ =~= without_bom(text@));
    proof {
        reveal_strlit("---\n");
        reveal_strlit("\n---\n");
    }
    let open = chars_of("---\n");
    if !starts_with_chars(&cs, &open) {
        return Err(owned("no frontmatter: the file must open with `---`"));
    }
    let rest = slice_chars(&cs, 4, cs.len());
    assert(rest@ =~= cs@.skip(4));
    let close = chars_of("\n---\n");
    match find_chars(&rest, &close) {
        None => Err(owned("frontmatter is never closed with `---`")),
        Some(end) => {
            proof {
                lemma_find_from(rest@, close@, 0);
            }
            let front = slice_chars(&rest, 0, end);
            let body = slice_chars(&rest, end + 5, rest.len());
            assert(front@ =~= rest@.take(end as int));
            assert(body@ =~= rest@.skip(end + 5));
            let newlines = newlines_in(&front);
            proof {
                lemma_count_char_le_len(front@, '\n');
            }
            Ok((string_of(&front), string_of(&body), newlines + 4))
        },
    }
}

/// The file name of a path without its extension, as `Path::file_stem` gives
/// it.
pub uninterp spec fn path_file_stem(path: Seq<char>) -> Option<Seq<char>>;

/// `std::path::Path::file_stem` of the path, read back with `OsStr::to_str`.
/// Claimed: the result is `path_file_stem` of the path; which part of the
/// path that is, is not stated.
#[verifier::external_body]
fn file_stem(path: &str) -> (r: Option<String>)
    ensures
        opt_view(r) == path_file_stem(path@),
{
    match std::path::Path::new(path).file_stem() {
        Some(stem) => stem.to_str().map(|t| t.to_string()),
        None => None,
    }
}

/// The file line of a parser error: the parser counts frontmatter lines from
/// 1, and the frontmatter starts on the file's second line.
pub open spec fn error_line(line: Option<usize>) -> Option<usize> {
    match line {
        Some(n) => if n < usize::MAX {
            Some((n + 1) as usize)
        } else {
            None
        },
        None => None,
    }
}

/// The parser's message, without its own trailing position once the line has
/// been hoisted into the diagnostic: a second, disagreeing number in the same
/// message would mislead.
pub open spec fn error_problem(line: Option<usize>, message: Seq<char>) -> Seq<char> {
    match find(message, " at line "@) {
        Some(at) => if line is Some {
            message.take(at)
        } else {
            message
        },
        None => message,
    }
}

/// What a note is from the parts reading it gives: its frontmatter as the
/// YAML parser read it, its file's stem, its body and the line the body
/// starts on. A parser error keeps its message, less the parser's own
/// position once that is hoisted into the diagnostic's line.
pub open spec fn assembled(
    path: Seq<char>,
    front: Result<YamlValue, YamlError>,
    stem: Option<Seq<char>>,
    body: Seq<char>,
    start: int,
) -> Result<NoteView, UnreadableView> {
    match front {
        Err(e) => {
            let line = error_line(e.line);
            Err(UnreadableView { path, line, problem: error_problem(line, e.message@) })
        },
        Ok(YamlValue::Mapping(fields)) => match stem {
            None => Err(
                UnreadableView { path, line: None, problem: "filename is not valid UTF-8"@ },
            ),
            Some(name) => Ok(
                NoteView {
                    path,
                    name,
                    fields: fields@,
                    body,
                    body_start_line: start,
                    links: links_in(body, start),
                },
            ),
        },
        Ok(_) => Err(
            UnreadableView { path, line: Some(2), problem: "frontmatter is not a mapping"@ },
        ),
    }
}

/// What reading a note from `path` with contents `text` gives.
pub open spec fn parse_view(path: Seq<char>, text: Seq<char>) -> Result<NoteView, UnreadableView> {
    match split_text(text) {
        Err(problem) => Err(UnreadableView { path, line: Some(1), problem }),
        Ok((front, body, start)) => assembled(
            path,
            yaml_document(front),
            path_file_stem(path),
            body,
            start,
        ),
    }
}

fn copy(s: &String) -> (r: String)
    ensures
        r@ == s@,
{
    s.clone()
}

fn hoist(e: YamlError) -> (r: (Option<usize>, String))
    ensures
        r.0 == error_line(e.line),
        r.1@ == error_problem(r.0, e.message@),
{
    let line = match e.line {
        Some(n) => n.checked_add(1),
        None => None,
    };
    let message = chars_of(e.message.as_str());
    let at = chars_of(" at line ");
    match find_chars(&message, &at) {
        Some(k) => {
            if line.is_some() {
                proof {
                    lemma_find_from(message@, at@, 0);
                }
                let head = slice_chars(&message, 0, k);
                (line, string_of(&head))
            } else {
                (line, e.message)
            }
        },
        None => (line, e.message),
    }
}

impl Note {
    pub fn parse(path: &str, text: &str) -> (r: Result<Note, Unreadable>)
        requires
            text@.len() + 3 <= usize::MAX,
        ensures
            match r {
                Ok(note) => parse_view(path@, text@) == Ok::<_, UnreadableView>(note@),
                Err(bad) => parse_view(path@, text@) == Err::<NoteView, _>(bad@),
            },
    {
        let (front, body, body_start_line) = match split(text) {
            Ok(parts) => parts,
            Err(problem) => {
                return Err(Unreadable { path: owned(path), line: Some(1), problem });
            },
        };
        // The whole point of surfacing the parse error verbatim: the `: ` in a
        // plain scalar is the failure this catches, and the parser's message
        // names the line it happened on.
        let parsed = parse_yaml(front.as_str());
        let stem = file_stem(path);
        proof {
            law_split_reassembles(text@);
            lemma_count_char_le_len(front@, '\n');
            lemma_count_char_le_len(body@, '\n');
            assert(without_bom(text@).len() <= text@.len());
        }
        Note::from_frontmatter(path, parsed, stem, body, body_start_line)
    }

    /// The note at `path` from its parsed frontmatter, its file's stem, its
    /// body, and the line the body starts on.
    pub fn from_frontmatter(
        path: &str,
        front: Result<YamlValue, YamlError>,
        stem: Option<String>,
        body: String,
        body_start_line: usize,
    ) -> (r: Result<Note, Unreadable>)
        requires
            body_start_line + count_char(body@, '\n') <= usize::MAX,
        ensures
            match r {
                Ok(note) => assembled(path@, front, opt_view(stem), body@, body_start_line as int)
                    == Ok::<_, UnreadableView>(note@),
                Err(bad) => assembled(path@, front, opt_view(stem), body@, body_start_line as int)
                    == Err::<NoteView, _>(bad@),
            },
    {
        let value = match front {
            Ok(value) => value,
            Err(e) => {
                let (line, problem) = hoist(e);
                return Err(Unreadable { path: owned(path), line, problem });
            },
        };
        let fields = match value {
            YamlValue::Mapping(fields) => fields,
            _ => {
                return Err(
                    Unreadable {
                        path: owned(path),
                        line: Some(2),
                        problem: owned("frontmatter is not a mapping"),
                    },
                );
            },
        };
        let name = match stem {
            Some(name) => name,
            None => {
                return Err(
                    Unreadable {
                        path: owned(path),
                        line: None,
                        problem: owned("filename is not valid UTF-8"),
                    },
                );
            },
        };
        let links = extract_links(body.as_str(), body_start_line);
        Ok(Note { path: owned(path), name, fields, body, body_start_line, links })
    }

    /// Reads the note at `path` from what reading its file gave: the text, or
    /// the reason it could not be read.
    pub fn load(path: &str, read: &Result<String, String>) -> (r: Result<Note, Unreadable>)
        requires
            read matches Ok(text) ==> text@.len() + 3 <= usize::MAX,
        ensures
            match r {
                Ok(note) => load_view(path@, read_view(*read)) == Ok::<_, UnreadableView>(note@),
                Err(bad) => load_view(path@, read_view(*read)) == Err::<NoteView, _>(bad@),
            },
    {
        match read {
            Ok(text) => Note::parse(path, text.as_str()),
            Err(problem) => Err(Unreadable { path: owned(path), line: None, problem: copy(problem) }),
        }
    }

    /// The value stored under `field`.
    pub fn get(&self, field: &str) -> (r: Option<&YamlValue>)
        ensures
            match r {
                Some(v) => lookup(self.fields@, field@) == Some(*v),
                None => lookup(self.fields@, field@) is None,
            },
    {
        mapping_get(&self.fields, field)
    }

    /// The text stored under `field`, if it is a string.
    pub fn str_field(&self, field: &str) -> (r: Option<&str>)
        ensures
            match r {
                Some(s) => field_text(self.fields@, field@) == Some(s@),
                None => field_text(self.fields@, field@) is None,
            },
    {
        match self.get(field) {
            Some(v) => match v.as_str() {
                Some(s) => Some(s.as_str()),
                None => None,
            },
            None => None,
        }
    }
}

/// What reading a file gave, as text.
pub open spec fn read_view(read: Result<String, String>) -> Result<Seq<char>, Seq<char>> {
    match read {
        Ok(text) => Ok(text@),
        Err(problem) => Err(problem@),
    }
}

/// What loading the note at `path` gives, from what reading its file gave.
pub open spec fn load_view(path: Seq<char>, read: Result<Seq<char>, Seq<char>>) -> Result<
    NoteView,
    UnreadableView,
> {
    match read {
        Ok(text) => parse_view(path, text),
        Err(problem) => Err(UnreadableView { path, line: None, problem }),
    }
}

/// The text stored under `key`, if there is a string there.
pub open spec fn field_text(fields: Seq<(YamlValue, YamlValue)>, key: Seq<char>) -> Option<Seq<char>> {
    match lookup(fields, key) {
        Some(v) => v.text(),
        None => None,
    }
}

/// What a walk does with a directory entry.
#[derive(Debug, Clone, Copy, PartialEq, Eq, Structural)]
pub enum WalkStep {
    /// Leave it out: a dotted entry, a file that is not a note, or one of the
    /// repo's own documents.
    Skip,
    /// Walk into it.
    Descend,
    /// It is a note.
    Collect,
}

/// Whether a character has the Unicode `Uppercase` property, as
/// `char::is_uppercase` reports it.
pub uninterp spec fn is_uppercase(c: char) -> bool;

/// `char::is_uppercase`. Claimed: the result is `is_uppercase` of the
/// character; which characters those are is not stated.
#[verifier::external_body]
fn uppercase(c: char) -> (r: bool)
    ensures
        r == is_uppercase(c),
{
    c.is_uppercase()
}

/// The walk's decision for an entry named `name`, given whether its first
/// character is uppercase: dotted entries are skipped, directories are walked
/// into, and a `.md` file is a note unless its name starts with an uppercase
/// letter; those are the repo's own documents, README, SCHEMA, INDEX.
pub open spec fn walk_choice(name: Seq<char>, is_dir: bool, first_is_uppercase: bool) -> WalkStep {
    if name.len() > 0 && name[0] == '.' {
        WalkStep::Skip
    } else if is_dir {
        WalkStep::Descend
    } else if has_suffix(name, ".md"@) && !first_is_uppercase {
        WalkStep::Collect
    } else {
        WalkStep::Skip
    }
}

/// The walk's decision for an entry named `name`.
pub open spec fn walk_decision(name: Seq<char>, is_dir: bool) -> WalkStep {
    walk_choice(name, is_dir, name.len() > 0 && is_uppercase(name[0]))
}

/// A walk skips dotted entries, walks into every other directory, and
/// collects a file exactly when its name ends in `.md` and does not start
/// with an uppercase letter; any other first character, a digit or a
/// lowercase letter, leaves it a note.
pub proof fn law_walk_collects_notes(name: Seq<char>, is_dir: bool)
    ensures
        name.len() > 0 && name[0] == '.' ==> walk_decision(name, is_dir) == WalkStep::Skip,
        !(name.len() > 0 && name[0] == '.') && is_dir ==> walk_decision(name, is_dir)
            == WalkStep::Descend,
        !(name.len() > 0 && name[0] == '.') && !is_dir ==> (walk_decision(name, is_dir)
            == WalkStep::Collect <==> name.len() >= 3 && name.subrange(
            name.len() - 3,
            name.len() as int,
        ) == ".md"@ && !(name.len() > 0 && is_uppercase(name[0]))),
        walk_decision(name, is_dir) != WalkStep::Collect ==> walk_decision(name, is_dir)
            == WalkStep::Skip || walk_decision(name, is_dir) == WalkStep::Descend,
{
    reveal_strlit(".md");
}

/// What to do with a directory entry named `name`, given whether its first
/// character is uppercase.
pub fn choose_step(name: &str, is_dir: bool, first_is_uppercase: bool) -> (r: WalkStep)
    ensures
        r == walk_choice(name@, is_dir, first_is_uppercase),
{
    let cs = chars_of(name);
    if cs.len() > 0 && cs[0] == '.' {
        return WalkStep::Skip;
    }
    if is_dir {
        return WalkStep::Descend;
    }
    let ext = chars_of(".md");
    if ends_with_chars(&cs, &ext) && !first_is_uppercase {
        WalkStep::Collect
    } else {
        WalkStep::Skip
    }
}

/// What to do with a directory entry named `name` while walking a source
/// for notes.
pub fn walk_step(name: &str, is_dir: bool) -> (r: WalkStep)
    ensures
        r == walk_decision(name@, is_dir),
{
    let cs = chars_of(name);
    let upper = cs.len() > 0 && uppercase(cs[0]);
    choose_step(name, is_dir, upper)
}

} // verus!
