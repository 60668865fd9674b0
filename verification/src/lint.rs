//! Checking a corpus of notes against a schema.
//!
//! Every check here is driven by the schema data rather than hardcoded, so
//! adding a field or a rule is a data edit. The set of predicates is closed
//! and lives in [`Check`].

use vstd::prelude::*;

use crate::date::{day_number, days_since, iso_date, is_valid_date, parse_date, CivilDate};
use crate::fields::{contains_value, field_diagnostics, frontmatter_messages};
use crate::links::{opt_view, LinkView};
use crate::order::{is_stable_order, key_views, stable_order};
use crate::note::{field_text, load_view, read_view, Note, NoteView, UnreadableView};
use crate::schema::{Check, Rule, Schema, Severity};
use crate::text::{chars_of, decimal, push_str, signed_decimal, signed_decimal_string, views};
use crate::yaml::lookup;

verus! {

/// One thing wrong with one note.
#[derive(Debug, Clone)]
pub struct Diagnostic {
    pub path: String,
    pub line: Option<usize>,
    /// The rule that produced this, so `--explain` has something to look up.
    pub rule: String,
    pub severity: Severity,
    pub message: String,
}

pub struct DiagnosticView {
    pub path: Seq<char>,
    pub line: Option<usize>,
    pub rule: Seq<char>,
    pub severity: Severity,
    pub message: Seq<char>,
}

impl View for Diagnostic {
    type V = DiagnosticView;

    open spec fn view(&self) -> DiagnosticView {
        DiagnosticView {
            path: self.path@,
            line: self.line,
            rule: self.rule@,
            severity: self.severity,
            message: self.message@,
        }
    }
}

pub open spec fn diagnostic_views(ds: Seq<Diagnostic>) -> Seq<DiagnosticView> {
    ds.map_values(|d: Diagnostic| d@)
}

/// How a severity is written in a rendered diagnostic.
pub open spec fn level(s: Severity) -> Seq<char> {
    match s {
        Severity::Error => "error"@,
        Severity::Warn => "warn"@,
    }
}

/// A diagnostic on one line, its path written as `shown`:
/// `path:line: level: message [rule]`, or without the line when it has none.
pub open spec fn rendered(d: DiagnosticView, shown: Seq<char>) -> Seq<char> {
    match d.line {
        Some(line) => shown + ":"@ + decimal(line as nat) + ": "@ + level(d.severity) + ": "@
            + d.message + " ["@ + d.rule + "]"@,
        None => shown + ": "@ + level(d.severity) + ": "@ + d.message + " ["@ + d.rule + "]"@,
    }
}

/// What `std::path::Path::strip_prefix` gives for `path` under `base`, shown
/// as text.
pub uninterp spec fn path_strip_prefix(path: Seq<char>, base: Seq<char>) -> Option<Seq<char>>;

/// `Path::new(path).strip_prefix(base)`, shown with `display`. Claimed: the
/// result is `path_strip_prefix` of the two texts. When `base` is a prefix of
/// `path` and which text remains is not stated: `Path` decides that by
/// components.
#[verifier::external_body]
fn strip_prefix(path: &str, base: &str) -> (r: Option<String>)
    ensures
        match r {
            Some(s) => path_strip_prefix(path@, base@) == Some(s@),
            None => path_strip_prefix(path@, base@) is None,
        },
{
    match std::path::Path::new(path).strip_prefix(base) {
        Ok(rest) => Some(rest.display().to_string()),
        Err(_) => None,
    }
}

fn level_text(s: Severity) -> (r: &'static str)
    ensures
        r@ == level(s),
{
    match s {
        Severity::Error => "error",
        Severity::Warn => "warn",
    }
}

impl Diagnostic {
    /// The diagnostic on one line, its path shown as `shown`.
    pub fn render_as(&self, shown: &str) -> (r: String)
        ensures
            r@ == rendered(self@, shown@),
    {
        let mut s = String::new();
        push_str(&mut s, shown);
        match self.line {
            Some(line) => {
                push_str(&mut s, ":");
                let n = crate::text::decimal_string(line as u64);
                push_str(&mut s, n.as_str());
            },
            None => {},
        }
        push_str(&mut s, ": ");
        push_str(&mut s, level_text(self.severity));
        push_str(&mut s, ": ");
        push_str(&mut s, self.message.as_str());
        push_str(&mut s, " [");
        push_str(&mut s, self.rule.as_str());
        push_str(&mut s, "]");
        proof {
            match self.line {
                Some(line) => {
                    assert(s@ =~= rendered(self@, shown@));
                },
                None => {
                    assert(s@ =~= rendered(self@, shown@));
                },
            }
        }
        s
    }

    /// The diagnostic on one line, its path shown relative to `root` where it
    /// lies under it.
    pub fn render(&self, root: &str) -> (r: String)
        ensures
            r@ == rendered(
                self@,
                match path_strip_prefix(self.path@, root@) {
                    Some(rel) => rel,
                    None => self.path@,
                },
            ),
    {
        match strip_prefix(self.path.as_str(), root) {
            Some(rel) => self.render_as(rel.as_str()),
            None => self.render_as(self.path.as_str()),
        }
    }
}

/// How many of `ds` have severity `s`.
pub open spec fn count_severity(ds: Seq<DiagnosticView>, s: Severity) -> nat
    decreases ds.len(),
{
    if ds.len() == 0 {
        0
    } else {
        count_severity(ds.drop_last(), s) + if ds.last().severity == s {
            1nat
        } else {
            0nat
        }
    }
}

/// Every diagnostic is either an error or a warning: the two counts add up to
/// the number of diagnostics.
pub proof fn law_errors_and_warnings_partition(ds: Seq<DiagnosticView>)
    ensures
        count_severity(ds, Severity::Error) + count_severity(ds, Severity::Warn) == ds.len(),
    decreases ds.len(),
{
    if ds.len() > 0 {
        law_errors_and_warnings_partition(ds.drop_last());
    }
}

/// The outcome of a lint run.
pub struct Report {
    pub diagnostics: Vec<Diagnostic>,
    pub notes_checked: usize,
    /// Rules in the schema that nothing ran, because they need something this
    /// invocation did not have: the link index, chiefly.
    pub not_run: Vec<String>,
}

impl Report {
    /// How many diagnostics are errors.
    pub fn errors(&self) -> (r: usize)
        ensures
            r == count_severity(diagnostic_views(self.diagnostics@), Severity::Error),
    {
        let ghost ds = diagnostic_views(self.diagnostics@);
        let mut n: usize = 0;
        let mut i: usize = 0;
        while i < self.diagnostics.len()
            invariant
                i <= self.diagnostics.len(),
                ds == diagnostic_views(self.diagnostics@),
                n == count_severity(ds.take(i as int), Severity::Error),
                n <= i,
            decreases self.diagnostics.len() - i,
        {
            assert(ds.take(i + 1).drop_last() =~= ds.take(i as int));
            if self.diagnostics[i].severity == Severity::Error {
                n += 1;
            }
            i += 1;
        }
        assert(ds.take(i as int) =~= ds);
        n
    }

    /// How many diagnostics are warnings.
    pub fn warnings(&self) -> (r: usize)
        ensures
            r == count_severity(diagnostic_views(self.diagnostics@), Severity::Warn),
    {
        let e = self.errors();
        proof {
            law_errors_and_warnings_partition(diagnostic_views(self.diagnostics@));
        }
        self.diagnostics.len() - e
    }
}

/// A file the walk found: its path, and what reading it gave (its text, or
/// why it could not be read).
pub struct SourceFile {
    pub path: String,
    pub contents: Result<String, String>,
}

/// Whether a file's text is short enough to index by `usize` with room for
/// the frontmatter fences.
pub open spec fn fits_in_memory(f: SourceFile) -> bool {
    match f.contents {
        Ok(text) => text@.len() + 3 <= usize::MAX,
        Err(_) => true,
    }
}

/// What loading a file gives.
pub open spec fn outcome(f: SourceFile) -> Result<NoteView, UnreadableView> {
    load_view(f.path@, read_view(f.contents))
}

pub open spec fn outcomes(files: Seq<SourceFile>) -> Seq<Result<NoteView, UnreadableView>> {
    files.map_values(|f: SourceFile| outcome(f))
}

/// The notes that loaded, in order.
pub open spec fn loaded(outs: Seq<Result<NoteView, UnreadableView>>) -> Seq<NoteView>
    decreases outs.len(),
{
    if outs.len() == 0 {
        Seq::empty()
    } else {
        loaded(outs.drop_last()) + match outs.last() {
            Ok(note) => seq![note],
            Err(_) => Seq::empty(),
        }
    }
}

/// One error for each file that did not load, in order, under `rule`.
pub open spec fn unreadable_diagnostics(rule: Seq<char>, outs: Seq<Result<NoteView, UnreadableView>>) -> Seq<
    DiagnosticView,
>
    decreases outs.len(),
{
    if outs.len() == 0 {
        Seq::empty()
    } else {
        unreadable_diagnostics(rule, outs.drop_last()) + match outs.last() {
            Ok(_) => Seq::empty(),
            Err(bad) => seq![
                DiagnosticView {
                    path: bad.path,
                    line: bad.line,
                    rule,
                    severity: Severity::Error,
                    message: bad.problem,
                },
            ],
        }
    }
}

/// The id of the first rule of `rules` that runs `check`.
pub open spec fn first_rule_with(rules: Seq<Rule>, check: Check) -> Option<Seq<char>>
    decreases rules.len(),
{
    if rules.len() == 0 {
        None
    } else if rules[0].check == check {
        Some(rules[0].id@)
    } else {
        first_rule_with(rules.drop_first(), check)
    }
}

/// The id unreadable files are reported under: the first rule that checks
/// that frontmatter parses, or `unreadable` when the schema has none.
pub open spec fn unreadable_rule(rules: Seq<Rule>) -> Seq<char> {
    match first_rule_with(rules, Check::YamlParses) {
        Some(id) => id,
        None => "unreadable"@,
    }
}

/// Whether `rule` applies to `note`: it names no types, or the note's `type`
/// is one of them.
pub open spec fn applies(rule: Rule, note: NoteView) -> bool {
    rule.applies_to@.len() == 0 || match field_text(note.fields, "type"@) {
        Some(t) => views(rule.applies_to@).contains(t),
        None => false,
    }
}

/// A diagnostic of `rule` about `note`.
pub open spec fn rule_diagnostic(rule: Rule, note: NoteView, line: Option<usize>, message: Seq<char>) -> DiagnosticView {
    DiagnosticView { path: note.path, line, rule: rule.id@, severity: rule.severity, message }
}

pub open spec fn derived_message(field: Seq<char>) -> Seq<char> {
    "`"@ + field + "` is derived and must not be stored \u{2014} remove it"@
}

/// A diagnostic for `field` if the note stores it.
pub open spec fn derived_field_diagnostics(rule: Rule, note: NoteView, field: Seq<char>) -> Seq<DiagnosticView> {
    if lookup(note.fields, field) is Some {
        seq![rule_diagnostic(rule, note, None, derived_message(field))]
    } else {
        Seq::empty()
    }
}

/// The fields the tool derives, `name` and `visibility`, stored anyway.
pub open spec fn derivable_diagnostics(rule: Rule, note: NoteView) -> Seq<DiagnosticView> {
    derived_field_diagnostics(rule, note, "name"@) + derived_field_diagnostics(rule, note, "visibility"@)
}

pub open spec fn age_message(age: int) -> Seq<char> {
    "asserted "@ + signed_decimal(age) + " days ago; recheck it and update `asserted`"@
}

/// The warning for a claim asserted on `then`, seen on `today`, when that is
/// more than `max_age_days` days ago.
pub open spec fn stale_message(today: CivilDate, then: CivilDate, max_age_days: u32) -> Option<Seq<char>> {
    let age = (day_number(today) - day_number(then)) as i32;
    if age > max_age_days as i32 {
        Some(age_message(age as int))
    } else {
        None
    }
}

/// A claim asserted longer ago than the rule allows. A missing or malformed
/// date is the field check's business, not this rule's.
pub open spec fn age_diagnostics(rule: Rule, note: NoteView, today: CivilDate) -> Seq<DiagnosticView> {
    match rule.max_age_days {
        None => Seq::empty(),
        Some(max) => match field_text(note.fields, "asserted"@) {
            None => Seq::empty(),
            Some(text) => match iso_date(text) {
                None => Seq::empty(),
                Some(then) => match stale_message(today, then, max) {
                    Some(message) => seq![rule_diagnostic(rule, note, None, message)],
                    None => Seq::empty(),
                },
            },
        },
    }
}

/// Whether some note is called `name`.
pub open spec fn has_name(notes: Seq<NoteView>, name: Seq<char>) -> bool {
    exists|i: int| 0 <= i < notes.len() && #[trigger] notes[i].name == name
}

pub open spec fn dangling_message(link: LinkView) -> Seq<char> {
    link.written() + " does not resolve in this source"@
}

/// The local links among `links` that name no note.
pub open spec fn dangling_links(rule: Rule, note: NoteView, notes: Seq<NoteView>, links: Seq<LinkView>) -> Seq<
    DiagnosticView,
>
    decreases links.len(),
{
    if links.len() == 0 {
        Seq::empty()
    } else {
        let link = links.last();
        dangling_links(rule, note, notes, links.drop_last()) + if link.source is None && !has_name(
            notes,
            link.name,
        ) {
            seq![rule_diagnostic(rule, note, Some(link.line as usize), dangling_message(link))]
        } else {
            Seq::empty()
        }
    }
}

/// What `rule` reports about `note` on its own. Cross-source links are a
/// different rule; the inbound-link rule looks at all notes at once.
pub open spec fn rule_diagnostics(rule: Rule, note: NoteView, notes: Seq<NoteView>, today: CivilDate) -> Seq<
    DiagnosticView,
> {
    if !applies(rule, note) {
        Seq::empty()
    } else {
        match rule.check {
            Check::NoDerivableFields => derivable_diagnostics(rule, note),
            Check::AssertedAge => age_diagnostics(rule, note, today),
            Check::LinkResolvesLocal => dangling_links(rule, note, notes, note.links),
            _ => Seq::empty(),
        }
    }
}

pub open spec fn all_rule_diagnostics(rules: Seq<Rule>, note: NoteView, notes: Seq<NoteView>, today: CivilDate) -> Seq<
    DiagnosticView,
>
    decreases rules.len(),
{
    if rules.len() == 0 {
        Seq::empty()
    } else {
        all_rule_diagnostics(rules.drop_last(), note, notes, today) + rule_diagnostics(
            rules.last(),
            note,
            notes,
            today,
        )
    }
}

/// Everything reported about one note on its own: its fields, then each rule
/// in schema order.
pub open spec fn note_diagnostics(schema: Schema, note: NoteView, notes: Seq<NoteView>, today: CivilDate) -> Seq<
    DiagnosticView,
> {
    field_diagnostics(note.path, frontmatter_messages(schema, note.fields)) + all_rule_diagnostics(
        schema.rule@,
        note,
        notes,
        today,
    )
}

pub open spec fn notes_diagnostics(schema: Schema, ns: Seq<NoteView>, notes: Seq<NoteView>, today: CivilDate) -> Seq<
    DiagnosticView,
>
    decreases ns.len(),
{
    if ns.len() == 0 {
        Seq::empty()
    } else {
        notes_diagnostics(schema, ns.drop_last(), notes, today) + note_diagnostics(
            schema,
            ns.last(),
            notes,
            today,
        )
    }
}

/// Whether a local link in some note names `name`.
pub open spec fn is_linked(notes: Seq<NoteView>, name: Seq<char>) -> bool {
    exists|i: int, j: int|
        #![trigger notes[i].links[j]]
        0 <= i < notes.len() && 0 <= j < notes[i].links.len() && notes[i].links[j].source is None
            && notes[i].links[j].name == name
}

pub open spec fn orphan_message() -> Seq<char> {
    "nothing links to this note; it will not be found by a reader following related notes"@
}

/// The notes among `ns` that `rule` applies to and no note links to.
pub open spec fn orphans(rule: Rule, ns: Seq<NoteView>, notes: Seq<NoteView>) -> Seq<DiagnosticView>
    decreases ns.len(),
{
    if ns.len() == 0 {
        Seq::empty()
    } else {
        let note = ns.last();
        orphans(rule, ns.drop_last(), notes) + if applies(rule, note) && !is_linked(notes, note.name) {
            seq![rule_diagnostic(rule, note, None, orphan_message())]
        } else {
            Seq::empty()
        }
    }
}

/// The inbound-link rules' reports, rule by rule.
pub open spec fn inbound_diagnostics(rules: Seq<Rule>, notes: Seq<NoteView>) -> Seq<DiagnosticView>
    decreases rules.len(),
{
    if rules.len() == 0 {
        Seq::empty()
    } else {
        inbound_diagnostics(rules.drop_last(), notes) + if rules.last().check == Check::InboundLink {
            orphans(rules.last(), notes, notes)
        } else {
            Seq::empty()
        }
    }
}

/// Every diagnostic of a run, before sorting: unreadable files, then each
/// note's own, then the inbound-link rules'.
pub open spec fn raw_diagnostics(schema: Schema, files: Seq<SourceFile>, today: CivilDate) -> Seq<
    DiagnosticView,
> {
    let outs = outcomes(files);
    let notes = loaded(outs);
    unreadable_diagnostics(unreadable_rule(schema.rule@), outs) + notes_diagnostics(
        schema,
        notes,
        notes,
        today,
    ) + inbound_diagnostics(schema.rule@, notes)
}

/// Rules that need the link index or the registry, neither of which this
/// library reads.
pub open spec fn needs_link_index(check: Check) -> bool {
    check == Check::LinkResolvesCross || check == Check::PublicationDirection || check
        == Check::PendingMoves
}

/// The ids of the rules nothing here runs, in schema order.
pub open spec fn unrun_rules(rules: Seq<Rule>) -> Seq<Seq<char>>
    decreases rules.len(),
{
    if rules.len() == 0 {
        Seq::empty()
    } else {
        unrun_rules(rules.drop_last()) + if needs_link_index(rules.last().check) {
            seq![rules.last().id@]
        } else {
            Seq::empty()
        }
    }
}

pub open spec fn note_views(notes: Seq<Note>) -> Seq<NoteView> {
    notes.map_values(|n: Note| n@)
}

/// Adds a diagnostic of `rule` about `note`.
fn report(out: &mut Vec<Diagnostic>, rule: &Rule, note: &Note, line: Option<usize>, message: String)
    ensures
        diagnostic_views(final(out)@) == diagnostic_views(old(out)@).push(
            rule_diagnostic(*rule, note@, line, message@),
        ),
{
    let ghost before = out@;
    out.push(
        Diagnostic {
            path: note.path.clone(),
            line,
            rule: rule.id.clone(),
            severity: rule.severity,
            message,
        },
    );
    assert(diagnostic_views(out@) =~= diagnostic_views(before).push(
        rule_diagnostic(*rule, note@, line, message@),
    ));
}

/// Whether `rule` applies to `note`.
fn applies_to(rule: &Rule, note: &Note) -> (r: bool)
    ensures
        r == applies(*rule, note@),
{
    if rule.applies_to.len() == 0 {
        return true;
    }
    match note.str_field("type") {
        Some(t) => contains_value(&rule.applies_to, t),
        None => false,
    }
}

fn derived_field(rule: &Rule, note: &Note, field: &str, out: &mut Vec<Diagnostic>)
    ensures
        diagnostic_views(final(out)@) == diagnostic_views(old(out)@) + derived_field_diagnostics(
            *rule,
            note@,
            field@,
        ),
{
    if note.get(field).is_some() {
        let mut message = String::new();
        push_str(&mut message, "`");
        push_str(&mut message, field);
        push_str(&mut message, "` is derived and must not be stored \u{2014} remove it");
        report(out, rule, note, None, message);
    } else {
        assert(diagnostic_views(out@) =~= diagnostic_views(out@) + Seq::<DiagnosticView>::empty());
    }
}

/// Reports `name` and `visibility` stored in a note: the tool derives them.
fn derivable(rule: &Rule, note: &Note, out: &mut Vec<Diagnostic>)
    ensures
        diagnostic_views(final(out)@) == diagnostic_views(old(out)@) + derivable_diagnostics(
            *rule,
            note@,
        ),
{
    derived_field(rule, note, "name", out);
    derived_field(rule, note, "visibility", out);
}

/// The warning for a claim asserted on `then`, seen on `today`, if it is
/// more than `max_age_days` days old.
pub fn staleness(today: CivilDate, then: CivilDate, max_age_days: u32) -> (r: Option<String>)
    requires
        is_valid_date(today),
        is_valid_date(then),
    ensures
        opt_view(r) == stale_message(today, then, max_age_days),
{
    let age: i32 = match days_since(today, then) {
        Some(days) => days,
        None => 0,
    };
    let limit: i32 = max_age_days as i32;
    if age > limit {
        let mut message = String::new();
        push_str(&mut message, "asserted ");
        let n = signed_decimal_string(age);
        push_str(&mut message, n.as_str());
        push_str(&mut message, " days ago; recheck it and update `asserted`");
        Some(message)
    } else {
        None
    }
}

/// Reports a claim asserted longer ago than the rule allows.
fn asserted_age(rule: &Rule, note: &Note, today: CivilDate, out: &mut Vec<Diagnostic>)
    requires
        is_valid_date(today),
    ensures
        diagnostic_views(final(out)@) == diagnostic_views(old(out)@) + age_diagnostics(
            *rule,
            note@,
            today,
        ),
{
    let ghost before = out@;
    proof {
        assert(diagnostic_views(before) =~= diagnostic_views(before) + Seq::<DiagnosticView>::empty());
    }
    let max_age = match rule.max_age_days {
        Some(max_age) => max_age,
        None => return ,
    };
    let text = match note.str_field("asserted") {
        Some(text) => text,
        None => return ,
    };
    let then = match parse_date(text) {
        Some(then) => then,
        None => return ,
    };
    match staleness(today, then, max_age) {
        Some(message) => report(out, rule, note, None, message),
        None => {},
    }
}

/// Whether some note in `notes` is called `name`.
fn has_note_named(notes: &Vec<Note>, name: &str) -> (r: bool)
    ensures
        r == has_name(note_views(notes@), name@),
{
    let ghost nv = note_views(notes@);
    let mut i: usize = 0;
    while i < notes.len()
        invariant
            i <= notes.len(),
            nv == note_views(notes@),
            forall|j: int| 0 <= j < i ==> nv[j].name != name@,
        decreases notes.len() - i,
    {
        if crate::text::str_eq(notes[i].name.as_str(), name) {
            assert(nv[i as int].name == name@);
            return true;
        }
        i += 1;
    }
    false
}

/// Reports each local link of `note` that names no note in `notes`.
fn local_links(rule: &Rule, note: &Note, notes: &Vec<Note>, out: &mut Vec<Diagnostic>)
    ensures
        diagnostic_views(final(out)@) == diagnostic_views(old(out)@) + dangling_links(
            *rule,
            note@,
            note_views(notes@),
            note@.links,
        ),
{
    let ghost start = diagnostic_views(out@);
    let ghost nv = note_views(notes@);
    let ghost lv = note@.links;
    let mut i: usize = 0;
    while i < note.links.len()
        invariant
            i <= note.links.len(),
            nv == note_views(notes@),
            lv == note@.links,
            lv.len() == note.links.len(),
            diagnostic_views(out@) == start + dangling_links(*rule, note@, nv, lv.take(i as int)),
        decreases note.links.len() - i,
    {
        let link = &note.links[i];
        assert(lv.take(i + 1).drop_last() =~= lv.take(i as int));
        assert(lv.take(i + 1).last() == link@);
        let ghost at = diagnostic_views(out@);
        if link.source.is_none() && !has_note_named(notes, link.name.as_str()) {
            let mut message = link.as_written();
            push_str(&mut message, " does not resolve in this source");
            report(out, rule, note, Some(link.line), message);
            assert(diagnostic_views(out@) =~= start + dangling_links(
                *rule,
                note@,
                nv,
                lv.take(i + 1),
            ));
        } else {
            assert(diagnostic_views(out@) =~= start + dangling_links(
                *rule,
                note@,
                nv,
                lv.take(i + 1),
            ));
        }
        i += 1;
    }
    assert(lv.take(i as int) =~= lv);
}

/// Whether a local link in some note of `notes` names `name`.
fn linked(notes: &Vec<Note>, name: &str) -> (r: bool)
    ensures
        r == is_linked(note_views(notes@), name@),
{
    let ghost nv = note_views(notes@);
    let mut i: usize = 0;
    while i < notes.len()
        invariant
            i <= notes.len(),
            nv == note_views(notes@),
            forall|a: int, b: int|
                0 <= a < i && 0 <= b < nv[a].links.len() ==> !(#[trigger] nv[a].links[b].source is None
                    && nv[a].links[b].name == name@),
        decreases notes.len() - i,
    {
        let links = &notes[i].links;
        let ghost lv = nv[i as int].links;
        assert(lv == crate::links::link_views(links@));
        let mut j: usize = 0;
        while j < links.len()
            invariant
                j <= links.len(),
                i < notes.len(),
                nv == note_views(notes@),
                links == &notes@[i as int].links,
                lv == nv[i as int].links,
                lv == crate::links::link_views(links@),
                forall|a: int, b: int|
                    0 <= a < i && 0 <= b < nv[a].links.len() ==> !(
                    #[trigger] nv[a].links[b].source is None && nv[a].links[b].name == name@),
                forall|b: int|
                    0 <= b < j ==> !(#[trigger] lv[b].source is None && lv[b].name == name@),
            decreases links.len() - j,
        {
            if links[j].source.is_none() && crate::text::str_eq(links[j].name.as_str(), name) {
                assert(nv[i as int].links[j as int].source is None && nv[i as int].links[j
                    as int].name == name@);
                return true;
            }
            j += 1;
        }
        i += 1;
    }
    false
}

/// Reports each note of `notes` that `rule` applies to and nothing links to.
fn inbound_links(rule: &Rule, notes: &Vec<Note>, out: &mut Vec<Diagnostic>)
    ensures
        diagnostic_views(final(out)@) == diagnostic_views(old(out)@) + orphans(
            *rule,
            note_views(notes@),
            note_views(notes@),
        ),
{
    let ghost start = diagnostic_views(out@);
    let ghost nv = note_views(notes@);
    let mut i: usize = 0;
    while i < notes.len()
        invariant
            i <= notes.len(),
            nv == note_views(notes@),
            diagnostic_views(out@) == start + orphans(*rule, nv.take(i as int), nv),
        decreases notes.len() - i,
    {
        let note = &notes[i];
        assert(nv.take(i + 1).drop_last() =~= nv.take(i as int));
        assert(nv.take(i + 1).last() == note@);
        if applies_to(rule, note) && !linked(notes, note.name.as_str()) {
            report(
                out,
                rule,
                note,
                None,
                crate::text::owned(
                    "nothing links to this note; it will not be found by a reader following related notes",
                ),
            );
            assert(diagnostic_views(out@) =~= start + orphans(*rule, nv.take(i + 1), nv));
        } else {
            assert(diagnostic_views(out@) =~= start + orphans(*rule, nv.take(i + 1), nv));
        }
        i += 1;
    }
    assert(nv.take(i as int) =~= nv);
}

/// Rules that need the link index or the registry, neither of which this
/// library reads. Reported rather than skipped silently: a check that never
/// runs looks exactly like a check that always passes.
pub fn needs_index(check: Check) -> (r: bool)
    ensures
        r == needs_link_index(check),
{
    match check {
        Check::LinkResolvesCross | Check::PublicationDirection | Check::PendingMoves => true,
        _ => false,
    }
}

/// The sort key of each diagnostic: its path, then its line.
pub open spec fn sort_keys(ds: Seq<DiagnosticView>) -> Seq<(Seq<char>, Option<usize>)> {
    ds.map_values(|d: DiagnosticView| (d.path, d.line))
}

/// The id of the first rule in the schema that runs `check`.
pub fn rule_id_for(schema: &Schema, check: Check) -> (r: Option<&str>)
    ensures
        match r {
            Some(id) => first_rule_with(schema.rule@, check) == Some(id@),
            None => first_rule_with(schema.rule@, check) is None,
        },
{
    let ghost rules = schema.rule@;
    assert(rules.skip(0) =~= rules);
    let mut i: usize = 0;
    while i < schema.rule.len()
        invariant
            i <= schema.rule.len(),
            rules == schema.rule@,
            first_rule_with(rules, check) == first_rule_with(rules.skip(i as int), check),
        decreases schema.rule.len() - i,
    {
        assert(rules.skip(i as int)[0] == rules[i as int]);
        assert(rules.skip(i as int).drop_first() =~= rules.skip(i + 1));
        if schema.rule[i].check == check {
            return Some(schema.rule[i].id.as_str());
        }
        i += 1;
    }
    assert(rules.skip(i as int).len() == 0);
    None
}

fn copy_diagnostic(d: &Diagnostic) -> (r: Diagnostic)
    ensures
        r@ == d@,
{
    Diagnostic {
        path: d.path.clone(),
        line: d.line,
        rule: d.rule.clone(),
        severity: d.severity,
        message: d.message.clone(),
    }
}

/// Loads every file; returns the notes that loaded, and an error for each
/// file that did not.
fn load_all(files: &Vec<SourceFile>, rule: &String) -> (r: (Vec<Note>, Vec<Diagnostic>))
    requires
        forall|i: int|
            0 <= i < files.len() ==> fits_in_memory(#[trigger] files@[i]),
    ensures
        note_views(r.0@) == loaded(outcomes(files@)),
        diagnostic_views(r.1@) == unreadable_diagnostics(rule@, outcomes(files@)),
{
    let ghost outs = outcomes(files@);
    let mut notes: Vec<Note> = Vec::new();
    let mut diagnostics: Vec<Diagnostic> = Vec::new();
    let mut i: usize = 0;
    while i < files.len()
        invariant
            i <= files.len(),
            outs == outcomes(files@),
            outs.len() == files.len(),
            note_views(notes@) == loaded(outs.take(i as int)),
            diagnostic_views(diagnostics@) == unreadable_diagnostics(rule@, outs.take(i as int)),
            forall|i: int|
                0 <= i < files.len() ==> fits_in_memory(#[trigger] files@[i]),
        decreases files.len() - i,
    {
        let file = &files[i];
        assert(outs.take(i + 1).drop_last() =~= outs.take(i as int));
        assert(outs.take(i + 1).last() == outcome(files@[i as int]));
        let ghost ns = notes@;
        let ghost ds = diagnostics@;
        match Note::load(file.path.as_str(), &file.contents) {
            Ok(note) => {
                notes.push(note);
                assert(note_views(notes@) =~= note_views(ns).push(note@));
                assert(diagnostic_views(diagnostics@) =~= unreadable_diagnostics(
                    rule@,
                    outs.take(i as int),
                ) + Seq::<DiagnosticView>::empty());
            },
            Err(bad) => {
                let ghost bv = bad@;
                diagnostics.push(
                    Diagnostic {
                        path: bad.path,
                        line: bad.line,
                        rule: rule.clone(),
                        severity: Severity::Error,
                        message: bad.problem,
                    },
                );
                assert(diagnostic_views(diagnostics@) =~= diagnostic_views(ds).push(
                    DiagnosticView {
                        path: bv.path,
                        line: bv.line,
                        rule: rule@,
                        severity: Severity::Error,
                        message: bv.problem,
                    },
                ));
                assert(note_views(notes@) =~= loaded(outs.take(i as int)) + Seq::<
                    NoteView,
                >::empty());
            },
        }
        i += 1;
    }
    assert(outs.take(i as int) =~= outs);
    (notes, diagnostics)
}

/// Runs every rule that looks at one note at a time, note by note.
fn check_notes(schema: &Schema, notes: &Vec<Note>, today: CivilDate, out: &mut Vec<Diagnostic>)
    requires
        is_valid_date(today),
    ensures
        diagnostic_views(final(out)@) == diagnostic_views(old(out)@) + notes_diagnostics(
            *schema,
            note_views(notes@),
            note_views(notes@),
            today,
        ),
{
    let ghost start = diagnostic_views(out@);
    let ghost nv = note_views(notes@);
    let mut k: usize = 0;
    while k < notes.len()
        invariant
            k <= notes.len(),
            is_valid_date(today),
            nv == note_views(notes@),
            diagnostic_views(out@) == start + notes_diagnostics(*schema, nv.take(k as int), nv, today),
        decreases notes.len() - k,
    {
        let note = &notes[k];
        assert(nv.take(k + 1).drop_last() =~= nv.take(k as int));
        assert(nv.take(k + 1).last() == note@);
        let ghost at = diagnostic_views(out@);
        crate::fields::check(schema, note, out);
        let ghost fd = field_diagnostics(note@.path, frontmatter_messages(*schema, note@.fields));
        let mut j: usize = 0;
        while j < schema.rule.len()
            invariant
                j <= schema.rule.len(),
                k < notes.len(),
                note == &notes@[k as int],
                is_valid_date(today),
                nv == note_views(notes@),
                diagnostic_views(out@) == at + fd + all_rule_diagnostics(
                    schema.rule@.take(j as int),
                    note@,
                    nv,
                    today,
                ),
            decreases schema.rule.len() - j,
        {
            let rule = &schema.rule[j];
            assert(schema.rule@.take(j + 1).drop_last() =~= schema.rule@.take(j as int));
            assert(schema.rule@.take(j + 1).last() == *rule);
            let ghost before = diagnostic_views(out@);
            if applies_to(rule, note) {
                match rule.check {
                    Check::NoDerivableFields => derivable(rule, note, out),
                    Check::AssertedAge => asserted_age(rule, note, today, out),
                    Check::LinkResolvesLocal => local_links(rule, note, notes, out),
                    _ => {
                        assert(before =~= before + Seq::<DiagnosticView>::empty());
                    },
                }
            } else {
                assert(before =~= before + Seq::<DiagnosticView>::empty());
            }
            assert(diagnostic_views(out@) =~= at + fd + all_rule_diagnostics(
                schema.rule@.take(j + 1),
                note@,
                nv,
                today,
            ));
            j += 1;
        }
        assert(schema.rule@.take(j as int) =~= schema.rule@);
        assert(diagnostic_views(out@) =~= start + notes_diagnostics(
            *schema,
            nv.take(k + 1),
            nv,
            today,
        ));
        k += 1;
    }
    assert(nv.take(k as int) =~= nv);
}

/// Runs the inbound-link rules, which look at all notes at once.
fn check_inbound(schema: &Schema, notes: &Vec<Note>, out: &mut Vec<Diagnostic>)
    ensures
        diagnostic_views(final(out)@) == diagnostic_views(old(out)@) + inbound_diagnostics(
            schema.rule@,
            note_views(notes@),
        ),
{
    let ghost start = diagnostic_views(out@);
    let ghost nv = note_views(notes@);
    let mut j: usize = 0;
    while j < schema.rule.len()
        invariant
            j <= schema.rule.len(),
            nv == note_views(notes@),
            diagnostic_views(out@) == start + inbound_diagnostics(schema.rule@.take(j as int), nv),
        decreases schema.rule.len() - j,
    {
        let rule = &schema.rule[j];
        assert(schema.rule@.take(j + 1).drop_last() =~= schema.rule@.take(j as int));
        assert(schema.rule@.take(j + 1).last() == *rule);
        let ghost before = diagnostic_views(out@);
        if rule.check == Check::InboundLink {
            inbound_links(rule, notes, out);
        } else {
            assert(before =~= before + Seq::<DiagnosticView>::empty());
        }
        assert(diagnostic_views(out@) =~= start + inbound_diagnostics(
            schema.rule@.take(j + 1),
            nv,
        ));
        j += 1;
    }
    assert(schema.rule@.take(j as int) =~= schema.rule@);
}

/// The diagnostics by path, then line; a stable sort, so diagnostics with
/// the same key keep the order they were found in.
fn sorted(ds: &Vec<Diagnostic>) -> (r: Vec<Diagnostic>)
    ensures
        ({
            let raw = diagnostic_views(ds@);
            exists|p: Seq<int>|
                #[trigger] is_stable_order(sort_keys(raw), p) && diagnostic_views(r@)
                    == p.map_values(|i: int| raw[i])
        }),
{
    let ghost raw = diagnostic_views(ds@);
    let mut keys: Vec<(Vec<char>, Option<usize>)> = Vec::new();
    let mut m: usize = 0;
    while m < ds.len()
        invariant
            m <= ds.len(),
            raw == diagnostic_views(ds@),
            keys.len() == m,
            forall|j: int| 0 <= j < m ==> #[trigger] key_views(keys@)[j] == sort_keys(raw)[j],
        decreases ds.len() - m,
    {
        let ghost before = keys@;
        keys.push((chars_of(ds[m].path.as_str()), ds[m].line));
        assert forall|j: int| 0 <= j < m + 1 implies #[trigger] key_views(keys@)[j] == sort_keys(
            raw,
        )[j] by {
            if j < m {
                assert(keys@[j] == before[j]);
                assert(key_views(before)[j] == sort_keys(raw)[j]);
            }
        }
        m += 1;
    }
    assert(key_views(keys@) =~= sort_keys(raw));
    let p = stable_order(&keys);
    let ghost pv = p@.map_values(|i: usize| i as int);
    let mut r: Vec<Diagnostic> = Vec::new();
    let mut k: usize = 0;
    while k < p.len()
        invariant
            k <= p.len(),
            p.len() == ds.len(),
            raw == diagnostic_views(ds@),
            is_stable_order(sort_keys(raw), pv),
            pv == p@.map_values(|i: usize| i as int),
            r.len() == k,
            forall|j: int| 0 <= j < k ==> #[trigger] r@[j]@ == raw[pv[j]],
        decreases p.len() - k,
    {
        assert(pv[k as int] == p@[k as int] as int);
        r.push(copy_diagnostic(&ds[p[k]]));
        k += 1;
    }
    assert(diagnostic_views(r@) =~= pv.map_values(|i: int| raw[i]));
    r
}

/// The ids of the rules nothing here runs.
fn not_run(schema: &Schema) -> (r: Vec<String>)
    ensures
        views(r@) == unrun_rules(schema.rule@),
{
    let mut r: Vec<String> = Vec::new();
    let mut j: usize = 0;
    while j < schema.rule.len()
        invariant
            j <= schema.rule.len(),
            views(r@) == unrun_rules(schema.rule@.take(j as int)),
        decreases schema.rule.len() - j,
    {
        let rule = &schema.rule[j];
        assert(schema.rule@.take(j + 1).drop_last() =~= schema.rule@.take(j as int));
        assert(schema.rule@.take(j + 1).last() == *rule);
        let ghost before = r@;
        if needs_index(rule.check) {
            r.push(rule.id.clone());
            assert(views(r@) =~= views(before).push(rule.id@));
        } else {
            assert(views(r@) =~= views(before) + Seq::<Seq<char>>::empty());
        }
        j += 1;
    }
    assert(schema.rule@.take(j as int) =~= schema.rule@);
    r
}

/// What a run on `files` reports: how many notes loaded, the rules nothing
/// ran, and every diagnostic sorted stably by path, then line.
pub open spec fn is_report_of(r: Report, schema: Schema, files: Seq<SourceFile>, today: CivilDate) -> bool {
    let raw = raw_diagnostics(schema, files, today);
    &&& r.notes_checked == loaded(outcomes(files)).len()
    &&& views(r.not_run@) == unrun_rules(schema.rule@)
    &&& exists|p: Seq<int>|
        #[trigger] is_stable_order(sort_keys(raw), p) && diagnostic_views(r.diagnostics@)
            == p.map_values(|i: int| raw[i])
}

/// Checks every file the walk found: each note against the schema's fields
/// and rules, sorted by path and line.
///
/// `today` is passed rather than read so that a staleness check is testable
/// and a run is reproducible; see the `asserted-staleness` rule.
pub fn check(schema: &Schema, files: &Vec<SourceFile>, today: CivilDate) -> (r: Report)
    requires
        is_valid_date(today),
        forall|i: int|
            0 <= i < files.len() ==> fits_in_memory(#[trigger] files@[i]),
    ensures
        is_report_of(r, *schema, files@, today),
{
    let rule = match rule_id_for(schema, Check::YamlParses) {
        Some(id) => crate::text::owned(id),
        None => crate::text::owned("unreadable"),
    };
    let (notes, mut diagnostics) = load_all(files, &rule);
    check_notes(schema, &notes, today, &mut diagnostics);
    check_inbound(schema, &notes, &mut diagnostics);
    assert(diagnostic_views(diagnostics@) =~= raw_diagnostics(*schema, files@, today));
    let notes_checked = notes.len();
    Report { diagnostics: sorted(&diagnostics), notes_checked, not_run: not_run(schema) }
}

/// Every file is accounted for: it is checked as a note, or reported once as
/// unreadable.
pub proof fn law_every_file_checked_or_reported(rule: Seq<char>, files: Seq<SourceFile>)
    ensures
        loaded(outcomes(files)).len() + unreadable_diagnostics(rule, outcomes(files)).len()
            == files.len(),
    decreases files.len(),
{
    if files.len() > 0 {
        law_every_file_checked_or_reported(rule, files.drop_last());
        assert(outcomes(files).drop_last() =~= outcomes(files.drop_last()));
    }
}

/// A dangling-link report is only ever about a local link that names no
/// note, at that link's line: cross-source links are never reported here.
pub proof fn law_only_unresolved_local_links_reported(
    rule: Rule,
    note: NoteView,
    notes: Seq<NoteView>,
    links: Seq<LinkView>,
    k: int,
)
    requires
        0 <= k < dangling_links(rule, note, notes, links).len(),
        forall|j: int| 0 <= j < links.len() ==> 0 <= #[trigger] links[j].line <= usize::MAX,
    ensures
        exists|j: int|
            0 <= j < links.len() && (#[trigger] links[j]).source is None && !has_name(
                notes,
                links[j].name,
            ) && dangling_links(rule, note, notes, links)[k] == rule_diagnostic(
                rule,
                note,
                Some(links[j].line as usize),
                dangling_message(links[j]),
            ),
    decreases links.len(),
{
    let head = dangling_links(rule, note, notes, links.drop_last());
    if k < head.len() {
        law_only_unresolved_local_links_reported(rule, note, notes, links.drop_last(), k);
        let j = choose|j: int|
            0 <= j < links.drop_last().len() && (#[trigger] links.drop_last()[j]).source is None
                && !has_name(notes, links.drop_last()[j].name) && head[k] == rule_diagnostic(
                rule,
                note,
                Some(links.drop_last()[j].line as usize),
                dangling_message(links.drop_last()[j]),
            );
        assert(links[j] == links.drop_last()[j]);
    } else {
        assert(links[links.len() - 1] == links.last());
    }
}

/// A note that some local link names is never reported as having nothing
/// linking to it; every such report is about a note the rule applies to.
pub proof fn law_linked_notes_are_not_orphans(
    rule: Rule,
    ns: Seq<NoteView>,
    notes: Seq<NoteView>,
    k: int,
)
    requires
        0 <= k < orphans(rule, ns, notes).len(),
    ensures
        exists|i: int|
            0 <= i < ns.len() && applies(rule, #[trigger] ns[i]) && !is_linked(notes, ns[i].name)
                && orphans(rule, ns, notes)[k] == rule_diagnostic(rule, ns[i], None, orphan_message()),
    decreases ns.len(),
{
    let head = orphans(rule, ns.drop_last(), notes);
    if k < head.len() {
        law_linked_notes_are_not_orphans(rule, ns.drop_last(), notes, k);
        let i = choose|i: int|
            0 <= i < ns.drop_last().len() && applies(rule, #[trigger] ns.drop_last()[i])
                && !is_linked(notes, ns.drop_last()[i].name) && head[k] == rule_diagnostic(
                rule,
                ns.drop_last()[i],
                None,
                orphan_message(),
            );
        assert(ns[i] == ns.drop_last()[i]);
    } else {
        assert(ns[ns.len() - 1] == ns.last());
    }
}

/// A report lists its diagnostics by path, then line: no diagnostic comes
/// after one whose key is greater.
pub proof fn law_report_is_sorted(raw: Seq<DiagnosticView>, p: Seq<int>, a: int, b: int)
    requires
        is_stable_order(sort_keys(raw), p),
        0 <= a < b < p.len(),
    ensures
        !crate::order::key_before(
            sort_keys(p.map_values(|i: int| raw[i]))[b],
            sort_keys(p.map_values(|i: int| raw[i]))[a],
        ),
{
    let keys = sort_keys(raw);
    let (x, y) = (keys[p[a]], keys[p[b]]);
    assert(crate::order::placed_before(keys, p[a], p[b]));
    assert(sort_keys(p.map_values(|i: int| raw[i]))[a] == x);
    assert(sort_keys(p.map_values(|i: int| raw[i]))[b] == y);
    if crate::order::path_before(y.0, x.0) {
        if crate::order::path_before(x.0, y.0) {
            crate::order::lemma_path_before_transitive(x.0, y.0, x.0);
            crate::order::lemma_path_before_irreflexive(x.0);
        } else {
            crate::order::lemma_path_before_irreflexive(x.0);
        }
    }
}

/// A run is reproducible: the schema, the files and the date decide the
/// report, so two runs on the same inputs report the same things in the same
/// order.
pub proof fn law_runs_are_reproducible(
    schema: Schema,
    files: Seq<SourceFile>,
    today: CivilDate,
    r1: Report,
    r2: Report,
)
    requires
        is_report_of(r1, schema, files, today),
        is_report_of(r2, schema, files, today),
    ensures
        diagnostic_views(r1.diagnostics@) == diagnostic_views(r2.diagnostics@),
        r1.notes_checked == r2.notes_checked,
        views(r1.not_run@) == views(r2.not_run@),
{
    let raw = raw_diagnostics(schema, files, today);
    let p1 = choose|p: Seq<int>|
        #[trigger] is_stable_order(sort_keys(raw), p) && diagnostic_views(r1.diagnostics@)
            == p.map_values(|i: int| raw[i]);
    let p2 = choose|p: Seq<int>|
        #[trigger] is_stable_order(sort_keys(raw), p) && diagnostic_views(r2.diagnostics@)
            == p.map_values(|i: int| raw[i]);
    crate::order::law_stable_order_is_unique(sort_keys(raw), p1, p2);
}

/// A file that does not load is reported as an error, never passed over: a
/// note that could not be checked must not look like one that passed.
pub proof fn law_unreadable_files_are_errors(
    rule: Seq<char>,
    outs: Seq<Result<NoteView, UnreadableView>>,
    k: int,
)
    requires
        0 <= k < unreadable_diagnostics(rule, outs).len(),
    ensures
        unreadable_diagnostics(rule, outs)[k].severity == Severity::Error,
        unreadable_diagnostics(rule, outs)[k].rule == rule,
    decreases outs.len(),
{
    if k < unreadable_diagnostics(rule, outs.drop_last()).len() {
        law_unreadable_files_are_errors(rule, outs.drop_last(), k);
    }
}

/// A rule reports nothing about a note whose type it does not apply to.
pub proof fn law_rules_skip_other_types(
    rule: Rule,
    note: NoteView,
    notes: Seq<NoteView>,
    today: CivilDate,
)
    requires
        !applies(rule, note),
    ensures
        rule_diagnostics(rule, note, notes, today).len() == 0,
        orphans(rule, seq![note], notes).len() == 0,
{
    assert(seq![note].drop_last() =~= Seq::<NoteView>::empty());
    assert(seq![note].last() == note);
    assert(orphans(rule, Seq::<NoteView>::empty(), notes).len() == 0);
}

/// Whether `f` is one of the two derived fields, `name` and `visibility`,
/// and the note stores it.
pub open spec fn stores_derived(note: NoteView, f: Seq<char>) -> bool {
    (f == "name"@ || f == "visibility"@) && lookup(note.fields, f) is Some
}

/// The report that `note` stores the derived field `f`, under `rule`.
pub open spec fn derived_report(rule: Rule, note: NoteView, f: Seq<char>) -> DiagnosticView {
    DiagnosticView {
        path: note.path,
        line: None,
        rule: rule.id@,
        severity: rule.severity,
        message: "`"@ + f + "` is derived and must not be stored \u{2014} remove it"@,
    }
}

/// A rule against derived fields reports each of the two derived fields,
/// `name` and `visibility`, that a note it applies to stores, in its own
/// words and under its own id and severity; and it reports nothing else.
pub proof fn law_stored_derived_fields_are_reported(
    rule: Rule,
    note: NoteView,
    notes: Seq<NoteView>,
    today: CivilDate,
)
    requires
        rule.check == Check::NoDerivableFields,
        applies(rule, note),
    ensures
        forall|f: Seq<char>|
            #[trigger] stores_derived(note, f) ==> rule_diagnostics(rule, note, notes, today).contains(
                derived_report(rule, note, f),
            ),
        forall|k: int|
            #![trigger rule_diagnostics(rule, note, notes, today)[k]]
            0 <= k < rule_diagnostics(rule, note, notes, today).len() ==> exists|f: Seq<char>|
                #[trigger] stores_derived(note, f) && rule_diagnostics(rule, note, notes, today)[k]
                    == derived_report(rule, note, f),
{
    let a = derived_field_diagnostics(rule, note, "name"@);
    let b = derived_field_diagnostics(rule, note, "visibility"@);
    let ds = rule_diagnostics(rule, note, notes, today);
    assert(ds == a + b);
    assert forall|f: Seq<char>| #[trigger] stores_derived(note, f) implies ds.contains(
        derived_report(rule, note, f),
    ) by {
        if f == "name"@ {
            assert(ds[0] == derived_report(rule, note, f));
        } else {
            assert(ds[a.len() as int] == derived_report(rule, note, f));
        }
    }
    assert forall|k: int| #![trigger ds[k]] 0 <= k < ds.len() implies exists|f: Seq<char>|
        #[trigger] stores_derived(note, f) && ds[k] == derived_report(rule, note, f) by {
        if k < a.len() {
            assert(stores_derived(note, "name"@));
            assert(ds[k] == derived_report(rule, note, "name"@));
        } else {
            assert(stores_derived(note, "visibility"@));
            assert(ds[k] == derived_report(rule, note, "visibility"@));
        }
    }
}

} // verus!
