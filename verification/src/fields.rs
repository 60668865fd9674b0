//! Checking a note's frontmatter against the schema's field descriptions.
//!
//! Nothing here knows the name of a single field. That is the property worth
//! protecting: renaming a field should be a data edit and a migration, and a
//! `match` on field names in here would silently make it a code change too.

use vstd::prelude::*;

use crate::date::{iso_date, parse_date};
use crate::lint::{diagnostic_views, Diagnostic, DiagnosticView};
use crate::note::Note;
use crate::schema::{Field, Kind, Schema, Severity};
use crate::text::{
    chars_of, decimal, decimal_string, find, find_chars, has_prefix, index_of, join, joined,
    lemma_find_from, lemma_index_of_from, push_str, slice_chars, str_eq, trim, trim_chars, views,
    find_char, starts_with_chars,
};
use crate::yaml::{lookup, mapping_get, YamlValue};

verus! {

/// Rule id for a field-level violation. These are not rows in the schema's
/// rule table — they come from the field descriptions themselves — but a
/// diagnostic without an id cannot be explained or suppressed.
pub open spec fn field_rule() -> Seq<char> {
    "field"@
}

/// A field-level diagnostic for the note at `path`.
pub open spec fn field_diagnostic(path: Seq<char>, message: Seq<char>) -> DiagnosticView {
    DiagnosticView { path, line: None, rule: field_rule(), severity: Severity::Error, message }
}

pub open spec fn field_diagnostics(path: Seq<char>, messages: Seq<Seq<char>>) -> Seq<DiagnosticView> {
    messages.map_values(|m: Seq<char>| field_diagnostic(path, m))
}

pub open spec fn quoted(name: Seq<char>) -> Seq<char> {
    "`"@ + name + "`"@
}

pub open spec fn required_message(name: Seq<char>) -> Seq<char> {
    quoted(name) + " is required"@
}

pub open spec fn not_text_message(name: Seq<char>, v: YamlValue) -> Seq<char> {
    quoted(name) + " must be text, but is "@ + v.shape()
}

pub open spec fn not_in_enum_message(name: Seq<char>, actual: Seq<char>, values: Seq<Seq<char>>) -> Seq<
    char,
> {
    quoted(name) + " is "@ + quoted(actual) + ", which is not one of "@ + joined(values, ", "@)
}

pub open spec fn no_match_message(name: Seq<char>, actual: Seq<char>, pattern: Seq<char>) -> Seq<
    char,
> {
    quoted(name) + " is "@ + quoted(actual) + ", which does not match "@ + quoted(pattern)
}

pub open spec fn not_date_message(name: Seq<char>, actual: Seq<char>) -> Seq<char> {
    quoted(name) + " is "@ + quoted(actual) + ", which is not an ISO date"@
}

pub open spec fn not_date_shape_message(name: Seq<char>, v: YamlValue) -> Seq<char> {
    quoted(name) + " must be an ISO date, but is "@ + v.shape()
}

pub open spec fn too_short_message(name: Seq<char>, n: nat, min: nat) -> Seq<char> {
    quoted(name) + " has "@ + decimal(n) + " entries; the schema asks for at least "@ + decimal(min)
}

pub open spec fn not_list_message(name: Seq<char>, v: YamlValue) -> Seq<char> {
    quoted(name) + " must be a list, but is "@ + v.shape()
}

pub open spec fn key_not_string_message() -> Seq<char> {
    "a frontmatter key is not a string"@
}

pub open spec fn unknown_key_message(name: Seq<char>) -> Seq<char> {
    quoted(name) + " is not in the schema; add it there or remove it"@
}

/// Whether one alternative of a pattern accepts `actual`: `PREFIX:NAME`
/// accepts the prefix, a colon and a non-empty name; anything else accepts
/// exactly itself.
pub open spec fn alternative_accepts(alt: Seq<char>, actual: Seq<char>) -> bool {
    let a = trim(alt);
    match find(a, ":NAME"@) {
        Some(k) => if k + 5 == a.len() {
            let prefix = a.take(k);
            has_prefix(actual, prefix + ":"@) && actual.len() > prefix.len() + 1
        } else {
            a == actual
        },
        None => a == actual,
    }
}

/// Whether some `|`-separated alternative of `pattern` accepts `actual`.
pub open spec fn pattern_accepts(pattern: Seq<char>, actual: Seq<char>) -> bool
    decreases pattern.len(),
{
    match index_of(pattern, '|') {
        Some(k) => {
            proof {
                lemma_index_of_from(pattern, '|', 0);
            }
            alternative_accepts(pattern.take(k), actual) || pattern_accepts(pattern.skip(k + 1), actual)
        },
        None => alternative_accepts(pattern, actual),
    }
}

/// Joining one more alternative in front: `a | rest`.
proof fn lemma_joined_front(parts: Seq<Seq<char>>, sep: Seq<char>)
    requires
        parts.len() >= 2,
    ensures
        joined(parts, sep) == parts[0] + sep + joined(parts.drop_first(), sep),
    decreases parts.len(),
{
    if parts.len() == 2 {
        assert(parts.drop_first().len() == 1);
        assert(parts.drop_last().len() == 1);
        assert(joined(parts.drop_first(), sep) == parts[1]);
        assert(joined(parts.drop_last(), sep) == parts[0]);
    } else {
        lemma_joined_front(parts.drop_last(), sep);
        assert(parts.drop_last().drop_first() =~= parts.drop_first().drop_last());
        assert(parts.drop_first().last() == parts.last());
        assert(parts.drop_last()[0] == parts[0]);
        assert(joined(parts.drop_first(), sep) == joined(parts.drop_first().drop_last(), sep) + sep
            + parts.drop_first().last());
    }
}

/// A pattern written as alternatives separated by `|` accepts a value
/// exactly when one of its alternatives does, whichever it is and however
/// many there are.
pub proof fn law_pattern_accepts_any_alternative(alts: Seq<Seq<char>>, actual: Seq<char>)
    requires
        alts.len() >= 1,
        forall|i: int| 0 <= i < alts.len() ==> !(#[trigger] alts[i]).contains('|'),
    ensures
        pattern_accepts(joined(alts, "|"@), actual) <==> exists|i: int|
            0 <= i < alts.len() && alternative_accepts(#[trigger] alts[i], actual),
    decreases alts.len(),
{
    reveal_strlit("|");
    let p = joined(alts, "|"@);
    if alts.len() == 1 {
        lemma_index_of_from(alts[0], '|', 0);
        assert(!alts[0].contains('|'));
        if index_of(alts[0], '|') is Some {
            let k = index_of(alts[0], '|')->0;
            assert(alts[0][k] == '|');
        }
        if alternative_accepts(alts[0], actual) {
            assert(alternative_accepts(alts[0], actual));
        }
    } else {
        let a = alts[0];
        let rest = alts.drop_first();
        lemma_joined_front(alts, "|"@);
        assert forall|i: int| 0 <= i < rest.len() implies !(#[trigger] rest[i]).contains('|') by {
            assert(rest[i] == alts[i + 1]);
        }
        law_pattern_accepts_any_alternative(rest, actual);
        let tail = joined(rest, "|"@);
        assert(p == a + "|"@ + tail);
        lemma_index_of_from(p, '|', 0);
        assert(p[a.len() as int] == '|');
        assert forall|j: int| 0 <= j < a.len() implies p[j] != '|' by {
            assert(p[j] == a[j]);
            if a[j] == '|' {
                assert(a.contains('|'));
            }
        }
        assert(index_of(p, '|') == Some(a.len() as int)) by {
            if index_of(p, '|') is None {
            } else {
                let k = index_of(p, '|')->0;
                if k < a.len() {
                    assert(p[k] != '|');
                }
            }
        }
        assert(p.take(a.len() as int) =~= a);
        assert(p.skip(a.len() as int + 1) =~= tail);
        if exists|i: int| 0 <= i < alts.len() && alternative_accepts(#[trigger] alts[i], actual) {
            let i = choose|i: int| 0 <= i < alts.len() && alternative_accepts(#[trigger] alts[i], actual);
            if i > 0 {
                assert(rest[i - 1] == alts[i]);
            }
        }
        if exists|i: int| 0 <= i < rest.len() && alternative_accepts(#[trigger] rest[i], actual) {
            let i = choose|i: int| 0 <= i < rest.len() && alternative_accepts(#[trigger] rest[i], actual);
            assert(alts[i + 1] == rest[i]);
        }
        if alternative_accepts(a, actual) {
            assert(alternative_accepts(alts[0], actual));
        }
    }
}

/// Whether `actual` has the field's shape; a field without a pattern accepts
/// anything.
pub open spec fn field_accepts(f: Field, actual: Seq<char>) -> bool {
    match f.pattern {
        Some(p) => pattern_accepts(p@, actual),
        None => true,
    }
}

pub open spec fn pattern_text(f: Field) -> Seq<char> {
    match f.pattern {
        Some(p) => p@,
        None => Seq::empty(),
    }
}

pub open spec fn min_entries(f: Field) -> nat {
    match f.min {
        Some(m) => m as nat,
        None => 0,
    }
}

pub proof fn lemma_items_smaller(v: YamlValue)
    ensures
        v.items() matches Some(s) ==> decreases_to!(v => s),
    decreases v,
{
    match v {
        YamlValue::Tagged(inner) => {
            lemma_items_smaller(*inner);
            assert(decreases_to!(v => *inner));
        },
        YamlValue::Sequence(items) => {
            assert(decreases_to!(v => items));
            assert(decreases_to!(items => items@));
        },
        _ => {},
    }
}

/// The messages for a value checked as `kind`: the field's own kind for the
/// value, its entry kind for each entry of a list.
pub open spec fn value_messages(f: Field, kind: Kind, v: YamlValue) -> Seq<Seq<char>>
    decreases v,
{
    let name = f.name@;
    match kind {
        Kind::Text => if v.text() is None {
            seq![not_text_message(name, v)]
        } else {
            Seq::empty()
        },
        Kind::Enum => match v.text() {
            Some(actual) => if views(f.values@).contains(actual) {
                Seq::empty()
            } else {
                seq![not_in_enum_message(name, actual, views(f.values@))]
            },
            None => seq![not_text_message(name, v)],
        },
        Kind::Pattern => match v.text() {
            Some(actual) => if field_accepts(f, actual) {
                Seq::empty()
            } else {
                seq![no_match_message(name, actual, pattern_text(f))]
            },
            None => seq![not_text_message(name, v)],
        },
        Kind::Date => match v.text() {
            Some(actual) => if iso_date(actual) is Some {
                Seq::empty()
            } else {
                seq![not_date_message(name, actual)]
            },
            None => seq![not_date_shape_message(name, v)],
        },
        Kind::List => match v.items() {
            Some(items) => {
                proof {
                    lemma_items_smaller(v);
                }
                (if items.len() < min_entries(f) {
                    seq![too_short_message(name, items.len(), min_entries(f))]
                } else {
                    Seq::empty()
                }) + entries_messages(f, items)
            },
            None => seq![not_list_message(name, v)],
        },
    }
}

/// The messages for the entries of a list, each checked as the entry kind.
pub open spec fn entries_messages(f: Field, items: Seq<YamlValue>) -> Seq<Seq<char>>
    decreases items,
{
    if items.len() == 0 {
        Seq::empty()
    } else {
        proof {
            assert(decreases_to!(items => items[items.len() - 1]));
        }
        entries_messages(f, items.drop_last()) + value_messages(f, f.entry_kind(), items.last())
    }
}

/// The messages for one schema field: required and absent, or its value.
pub open spec fn field_messages(f: Field, fields: Seq<(YamlValue, YamlValue)>) -> Seq<Seq<char>> {
    match lookup(fields, f.name@) {
        None => if f.required {
            seq![required_message(f.name@)]
        } else {
            Seq::empty()
        },
        Some(YamlValue::Null) => if f.required {
            seq![required_message(f.name@)]
        } else {
            Seq::empty()
        },
        Some(v) => value_messages(f, f.kind, v),
    }
}

pub open spec fn all_field_messages(fs: Seq<Field>, fields: Seq<(YamlValue, YamlValue)>) -> Seq<
    Seq<char>,
>
    decreases fs.len(),
{
    if fs.len() == 0 {
        Seq::empty()
    } else {
        all_field_messages(fs.drop_last(), fields) + field_messages(fs.last(), fields)
    }
}

/// An absent or empty field gives one message if the schema requires it,
/// that it is required, and none at all if it does not: an optional field may
/// be left out or left empty whatever its kind.
pub proof fn law_absent_or_empty_fields(f: Field, fields: Seq<(YamlValue, YamlValue)>)
    requires
        lookup(fields, f.name@) is None || lookup(fields, f.name@) == Some(YamlValue::Null),
    ensures
        !f.required ==> field_messages(f, fields).len() == 0,
        f.required ==> field_messages(f, fields) == seq!["`"@ + f.name@ + "` is required"@],
{
    reveal_strlit("`");
    reveal_strlit(" is required");
    reveal_strlit("` is required");
    assert(required_message(f.name@) =~= "`"@ + f.name@ + "` is required"@);
}

/// Fields the tool derives and therefore refuses to see stored.
pub open spec fn is_derivable(name: Seq<char>) -> bool {
    name == "name"@ || name == "visibility"@
}

pub open spec fn in_schema(schema: Schema, name: Seq<char>) -> bool {
    exists|i: int| 0 <= i < schema.field@.len() && #[trigger] schema.field@[i].name@ == name
}

/// The message for a frontmatter key: not a string, or not in the schema.
/// `name` and `visibility` get a rule of their own, with an explanation.
pub open spec fn key_messages(schema: Schema, k: YamlValue) -> Seq<Seq<char>> {
    match k.text() {
        None => seq![key_not_string_message()],
        Some(name) => if in_schema(schema, name) || is_derivable(name) {
            Seq::empty()
        } else {
            seq![unknown_key_message(name)]
        },
    }
}

pub open spec fn all_key_messages(schema: Schema, entries: Seq<(YamlValue, YamlValue)>) -> Seq<
    Seq<char>,
>
    decreases entries.len(),
{
    if entries.len() == 0 {
        Seq::empty()
    } else {
        all_key_messages(schema, entries.drop_last()) + key_messages(schema, entries.last().0)
    }
}

/// Every field-level message for a note's frontmatter: the schema's fields in
/// order, then the note's keys in order.
pub open spec fn frontmatter_messages(schema: Schema, fields: Seq<(YamlValue, YamlValue)>) -> Seq<
    Seq<char>,
> {
    all_field_messages(schema.field@, fields) + all_key_messages(schema, fields)
}

proof fn lemma_field_diagnostics_concat(path: Seq<char>, a: Seq<Seq<char>>, b: Seq<Seq<char>>)
    ensures
        field_diagnostics(path, a + b) == field_diagnostics(path, a) + field_diagnostics(path, b),
{
    assert(field_diagnostics(path, a + b) =~= field_diagnostics(path, a) + field_diagnostics(
        path,
        b,
    ));
}

fn report(out: &mut Vec<Diagnostic>, path: &String, message: String)
    ensures
        diagnostic_views(final(out)@) == diagnostic_views(old(out)@) + field_diagnostics(
            path@,
            seq![message@],
        ),
{
    let ghost before = out@;
    out.push(
        Diagnostic {
            path: path.clone(),
            line: None,
            rule: crate::text::owned("field"),
            severity: Severity::Error,
            message,
        },
    );
    assert(diagnostic_views(out@) =~= diagnostic_views(before) + field_diagnostics(
        path@,
        seq![message@],
    ));
}

fn quote_into(s: &mut String, name: &str)
    ensures
        final(s)@ == old(s)@ + quoted(name@),
{
    push_str(s, "`");
    push_str(s, name);
    push_str(s, "`");
}

fn not_text(name: &String, v: &YamlValue) -> (r: String)
    ensures
        r@ == not_text_message(name@, *v),
{
    let mut s = String::new();
    quote_into(&mut s, name.as_str());
    push_str(&mut s, " must be text, but is ");
    push_str(&mut s, v.describe());
    s
}

pub fn contains_value(values: &Vec<String>, actual: &str) -> (r: bool)
    ensures
        r == views(values@).contains(actual@),
{
    let mut i: usize = 0;
    while i < values.len()
        invariant
            i <= values.len(),
            forall|j: int| 0 <= j < i ==> values@[j]@ != actual@,
        decreases values.len() - i,
    {
        if str_eq(values[i].as_str(), actual) {
            assert(views(values@)[i as int] == actual@);
            return true;
        }
        i += 1;
    }
    assert(!views(values@).contains(actual@)) by {
        if views(values@).contains(actual@) {
            let j = choose|j: int| 0 <= j < views(values@).len() && views(values@)[j] == actual@;
            assert(values@[j]@ == actual@);
        }
    }
    false
}

/// Whether one alternative accepts `actual`.
fn alternative_matches(alt: &Vec<char>, actual: &Vec<char>) -> (r: bool)
    ensures
        r == alternative_accepts(alt@, actual@),
{
    let a = trim_chars(alt);
    let marker = chars_of(":NAME");
    proof {
        reveal_strlit(":NAME");
        reveal_strlit(":");
    }
    match find_chars(&a, &marker) {
        Some(k) => {
            proof {
                lemma_find_from(a@, marker@, 0);
            }
            if a.len() >= 5 && k == a.len() - 5 {
                let mut prefix = slice_chars(&a, 0, k);
                assert(prefix@ =~= a@.take(k as int));
                let ghost bare = prefix@;
                prefix.push(':');
                assert(prefix@ =~= bare + ":"@);
                starts_with_chars(actual, &prefix) && actual.len() > k + 1
            } else {
                crate::text::chars_eq(&a, actual)
            }
        },
        None => crate::text::chars_eq(&a, actual),
    }
}

/// Whether the pattern's alternatives from `pattern` accept `actual`.
fn pattern_matches(pattern: &Vec<char>, actual: &Vec<char>) -> (r: bool)
    ensures
        r == pattern_accepts(pattern@, actual@),
    decreases pattern.len(),
{
    match find_char(pattern, '|') {
        Some(k) => {
            proof {
                lemma_index_of_from(pattern@, '|', 0);
            }
            let head = slice_chars(pattern, 0, k);
            let tail = slice_chars(pattern, k + 1, pattern.len());
            assert(head@ =~= pattern@.take(k as int));
            assert(tail@ =~= pattern@.skip(k + 1));
            alternative_matches(&head, actual) || pattern_matches(&tail, actual)
        },
        None => alternative_matches(pattern, actual),
    }
}

/// Whether `actual` has the field's shape.
pub fn matches_pattern(field: &Field, actual: &str) -> (r: bool)
    ensures
        r == field_accepts(*field, actual@),
{
    match &field.pattern {
        None => true,
        Some(pattern) => {
            let p = chars_of(pattern.as_str());
            let a = chars_of(actual);
            pattern_matches(&p, &a)
        },
    }
}

/// Checks `value` against `kind`, which is the field's own kind for a scalar
/// and its entry kind for each entry of a list. Splitting these apart is what
/// lets the schema describe a list of enums without a second copy of the enum
/// check.
fn check_as(field: &Field, kind: Kind, value: &YamlValue, path: &String, out: &mut Vec<Diagnostic>)
    ensures
        diagnostic_views(final(out)@) == diagnostic_views(old(out)@) + field_diagnostics(
            path@,
            value_messages(*field, kind, *value),
        ),
    decreases value,
{
    let ghost before = out@;
    match kind {
        Kind::Text => {
            if value.as_str().is_none() {
                report(out, path, not_text(&field.name, value));
            } else {
                assert(diagnostic_views(out@) =~= diagnostic_views(before) + field_diagnostics(
                    path@,
                    Seq::empty(),
                ));
            }
        },
        Kind::Enum => match value.as_str() {
            Some(actual) => {
                if contains_value(&field.values, actual.as_str()) {
                    assert(diagnostic_views(out@) =~= diagnostic_views(before) + field_diagnostics(
                        path@,
                        Seq::empty(),
                    ));
                } else {
                    let mut s = String::new();
                    quote_into(&mut s, field.name.as_str());
                    push_str(&mut s, " is ");
                    quote_into(&mut s, actual.as_str());
                    push_str(&mut s, ", which is not one of ");
                    let listed = join(&field.values, ", ");
                    push_str(&mut s, listed.as_str());
                    report(out, path, s);
                }
            },
            None => report(out, path, not_text(&field.name, value)),
        },
        Kind::Pattern => match value.as_str() {
            Some(actual) => {
                if matches_pattern(field, actual.as_str()) {
                    assert(diagnostic_views(out@) =~= diagnostic_views(before) + field_diagnostics(
                        path@,
                        Seq::empty(),
                    ));
                } else {
                    let mut s = String::new();
                    quote_into(&mut s, field.name.as_str());
                    push_str(&mut s, " is ");
                    quote_into(&mut s, actual.as_str());
                    push_str(&mut s, ", which does not match ");
                    match &field.pattern {
                        Some(p) => quote_into(&mut s, p.as_str()),
                        None => quote_into(&mut s, ""),
                    }
                    report(out, path, s);
                }
            },
            None => report(out, path, not_text(&field.name, value)),
        },
        Kind::Date => match value.as_str() {
            // YAML may read an unquoted ISO date as a string; both spellings are
            // fine, a number is not.
            Some(actual) => {
                if parse_date(actual.as_str()).is_some() {
                    assert(diagnostic_views(out@) =~= diagnostic_views(before) + field_diagnostics(
                        path@,
                        Seq::empty(),
                    ));
                } else {
                    let mut s = String::new();
                    quote_into(&mut s, field.name.as_str());
                    push_str(&mut s, " is ");
                    quote_into(&mut s, actual.as_str());
                    push_str(&mut s, ", which is not an ISO date");
                    report(out, path, s);
                }
            },
            None => {
                let mut s = String::new();
                quote_into(&mut s, field.name.as_str());
                push_str(&mut s, " must be an ISO date, but is ");
                push_str(&mut s, value.describe());
                report(out, path, s);
            },
        },
        Kind::List => match value.as_sequence() {
            Some(items) => {
                proof {
                    lemma_items_smaller(*value);
                }
                let min = match field.min {
                    Some(m) => m,
                    None => 0,
                };
                let ghost head: Seq<Seq<char>> = if items@.len() < min_entries(*field) {
                    seq![too_short_message(field.name@, items@.len(), min_entries(*field))]
                } else {
                    Seq::empty()
                };
                if items.len() < min {
                    let mut s = String::new();
                    quote_into(&mut s, field.name.as_str());
                    push_str(&mut s, " has ");
                    let n = decimal_string(items.len() as u64);
                    push_str(&mut s, n.as_str());
                    push_str(&mut s, " entries; the schema asks for at least ");
                    let m = decimal_string(min as u64);
                    push_str(&mut s, m.as_str());
                    report(out, path, s);
                } else {
                    assert(diagnostic_views(out@) =~= diagnostic_views(before) + field_diagnostics(
                        path@,
                        head,
                    ));
                }
                let ghost mid = out@;
                let elem = field.element_kind();
                let mut i: usize = 0;
                while i < items.len()
                    invariant
                        i <= items.len(),
                        elem == field.entry_kind(),
                        decreases_to!(*value => items@),
                        diagnostic_views(out@) == diagnostic_views(mid) + field_diagnostics(
                            path@,
                            entries_messages(*field, items@.take(i as int)),
                        ),
                    decreases items.len() - i,
                {
                    assert(decreases_to!(items@ => items@[i as int]));
                    let ghost at = out@;
                    check_as(field, elem, &items[i], path, out);
                    assert(items@.take(i + 1).drop_last() =~= items@.take(i as int));
                    assert(items@.take(i + 1).last() == items@[i as int]);
                    proof {
                        lemma_field_diagnostics_concat(
                            path@,
                            entries_messages(*field, items@.take(i as int)),
                            value_messages(*field, elem, items@[i as int]),
                        );
                    }
                    i += 1;
                }
                assert(items@.take(items.len() as int) =~= items@);
                proof {
                    lemma_field_diagnostics_concat(path@, head, entries_messages(*field, items@));
                }
            },
            None => {
                let mut s = String::new();
                quote_into(&mut s, field.name.as_str());
                push_str(&mut s, " must be a list, but is ");
                push_str(&mut s, value.describe());
                report(out, path, s);
            },
        },
    }
}

/// Checks a note's frontmatter: every schema field in order — a required
/// field that is absent or empty, or a value of the wrong shape — then every
/// key the schema does not know.
pub fn check(schema: &Schema, note: &Note, out: &mut Vec<Diagnostic>)
    ensures
        diagnostic_views(final(out)@) == diagnostic_views(old(out)@) + field_diagnostics(
            note.path@,
            frontmatter_messages(*schema, note.fields@),
        ),
{
    let ghost start = out@;
    let mut i: usize = 0;
    while i < schema.field.len()
        invariant
            i <= schema.field.len(),
            diagnostic_views(out@) == diagnostic_views(start) + field_diagnostics(
                note.path@,
                all_field_messages(schema.field@.take(i as int), note.fields@),
            ),
        decreases schema.field.len() - i,
    {
        let field = &schema.field[i];
        let ghost at = out@;
        assert(schema.field@.take(i + 1).drop_last() =~= schema.field@.take(i as int));
        assert(schema.field@.take(i + 1).last() == *field);
        proof {
            lemma_field_diagnostics_concat(
                note.path@,
                all_field_messages(schema.field@.take(i as int), note.fields@),
                field_messages(*field, note.fields@),
            );
        }
        match note.get(field.name.as_str()) {
            Some(value) => {
                match value {
                    YamlValue::Null => {
                        if field.required {
                            let mut s = String::new();
                            quote_into(&mut s, field.name.as_str());
                            push_str(&mut s, " is required");
                            report(out, &note.path, s);
                        } else {
                            assert(diagnostic_views(out@) =~= diagnostic_views(at)
                                + field_diagnostics(note.path@, Seq::empty()));
                        }
                    },
                    _ => check_as(field, field.kind, value, &note.path, out),
                }
            },
            None => {
                if field.required {
                    let mut s = String::new();
                    quote_into(&mut s, field.name.as_str());
                    push_str(&mut s, " is required");
                    report(out, &note.path, s);
                } else {
                    assert(diagnostic_views(out@) =~= diagnostic_views(at) + field_diagnostics(
                        note.path@,
                        Seq::empty(),
                    ));
                }
            },
        }
        i += 1;
    }
    assert(schema.field@.take(schema.field.len() as int) =~= schema.field@);
    let ghost mid = out@;
    let mut j: usize = 0;
    while j < note.fields.len()
        invariant
            j <= note.fields.len(),
            diagnostic_views(out@) == diagnostic_views(mid) + field_diagnostics(
                note.path@,
                all_key_messages(*schema, note.fields@.take(j as int)),
            ),
        decreases note.fields.len() - j,
    {
        let ghost at = out@;
        let key = &note.fields[j].0;
        assert(note.fields@.take(j + 1).drop_last() =~= note.fields@.take(j as int));
        assert(note.fields@.take(j + 1).last().0 == *key);
        proof {
            lemma_field_diagnostics_concat(
                note.path@,
                all_key_messages(*schema, note.fields@.take(j as int)),
                key_messages(*schema, *key),
            );
        }
        match key.as_str() {
            None => report(out, &note.path, crate::text::owned("a frontmatter key is not a string")),
            Some(name) => {
                let known = in_schema_exec(schema, name.as_str());
                if !known && !derivable_exec(name.as_str()) {
                    let mut s = String::new();
                    quote_into(&mut s, name.as_str());
                    push_str(&mut s, " is not in the schema; add it there or remove it");
                    report(out, &note.path, s);
                } else {
                    assert(diagnostic_views(out@) =~= diagnostic_views(at) + field_diagnostics(
                        note.path@,
                        Seq::empty(),
                    ));
                }
            },
        }
        j += 1;
    }
    assert(note.fields@.take(note.fields.len() as int) =~= note.fields@);
    proof {
        lemma_field_diagnostics_concat(
            note.path@,
            all_field_messages(schema.field@, note.fields@),
            all_key_messages(*schema, note.fields@),
        );
    }
}

fn in_schema_exec(schema: &Schema, name: &str) -> (r: bool)
    ensures
        r == in_schema(*schema, name@),
{
    let mut i: usize = 0;
    while i < schema.field.len()
        invariant
            i <= schema.field.len(),
            forall|j: int| 0 <= j < i ==> schema.field@[j].name@ != name@,
        decreases schema.field.len() - i,
    {
        if str_eq(schema.field[i].name.as_str(), name) {
            return true;
        }
        i += 1;
    }
    false
}

pub fn derivable_exec(name: &str) -> (r: bool)
    ensures
        r == is_derivable(name@),
{
    str_eq(name, "name") || str_eq(name, "visibility")
}

} // verus!
