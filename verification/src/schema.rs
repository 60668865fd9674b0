//! The note and ticket schema: a described set of fields and rules.
//!
//! The schema is data rather than code so that a change to it is a data edit
//! and a migration, not a recompile. Everything that consumes a schema reads the
//! same description, so a field added to the data file is a field every
//! consumer understands.

use vstd::prelude::*;

use crate::text::{push_str, str_eq};

verus! {

/// A whole schema: the fields a record carries and the rules it must satisfy.
#[derive(Debug)]
pub struct Schema {
    pub schema: Meta,
    pub field: Vec<Field>,
    pub rule: Vec<Rule>,
    pub section: Vec<Section>,
}

#[derive(Debug)]
pub struct Meta {
    pub name: String,
    pub title: String,
    pub version: u32,
    pub preamble: String,
}

/// One frontmatter field.
#[derive(Debug)]
pub struct Field {
    pub name: String,
    pub required: bool,
    pub kind: Kind,
    pub doc: String,
    /// Permitted values, for `Kind::Enum`.
    pub values: Vec<String>,
    /// Human-readable shape, for `Kind::Pattern`.
    pub pattern: Option<String>,
    /// Minimum length, for `Kind::List`.
    pub min: Option<usize>,
    /// The kind of each entry, for `Kind::List`.
    pub of: Option<Kind>,
}

#[derive(Debug, Clone, Copy, PartialEq, Eq, Structural)]
pub enum Kind {
    Text,
    Enum,
    Pattern,
    Date,
    List,
}

/// One rule a record must satisfy.
///
/// `check` names a built-in predicate. The set is closed. A rule whose
/// violation cannot be mechanically detected is still worth stating, and says
/// so with [`Check::Undetectable`] rather than by being left out.
#[derive(Debug)]
pub struct Rule {
    pub id: String,
    pub section: String,
    pub severity: Severity,
    pub check: Check,
    pub fix: Fix,
    pub title: String,
    pub doc: String,
    /// Note types this applies to. Empty means every type.
    pub applies_to: Vec<String>,
    pub max_age_days: Option<u32>,
}

#[derive(Debug, Clone, Copy, PartialEq, Eq, Structural)]
pub enum Severity {
    /// Lint exits non-zero.
    Error,
    /// Lint reports and exits zero.
    Warn,
}

/// The closed set of built-in predicates.
#[derive(Debug, Clone, Copy, PartialEq, Eq, Structural)]
pub enum Check {
    /// Stated for the writer, not detectable by the tool.
    Undetectable,
    YamlParses,
    NoDerivableFields,
    InboundLink,
    AssertedAge,
    StripCodeSpans,
    LinkResolvesLocal,
    LinkResolvesCross,
    PublicationDirection,
    PendingMoves,
}

/// Whether `lint --fix` can repair a violation or only report it.
#[derive(Debug, Clone, Copy, PartialEq, Eq, Structural)]
pub enum Fix {
    Fix,
    Report,
}

/// Prose that argues for the schema rather than describing it.
#[derive(Debug)]
pub struct Section {
    pub id: String,
    pub title: String,
    /// The generated section this follows.
    pub after: String,
    pub doc: String,
}

/// A schema that does not hold together, and where.
#[derive(Debug)]
pub enum SchemaError {
    /// A field of kind enum lists no values.
    EnumWithoutValues { field: String },
    /// A field of kind pattern has no pattern.
    PatternWithoutShape { field: String },
    /// A rule sits in a section that is not generated.
    RuleInUnknownSection { rule: String, section: String },
    /// A rule claims a fix but has no check to find what to fix.
    UndetectableFix { rule: String },
    /// A prose section follows a section that is not generated.
    SectionAfterUnknown { section: String, after: String },
}

/// The generated sections, in render order: `frontmatter`, `rules`, `links`.
pub open spec fn is_generated_section(name: Seq<char>) -> bool {
    name == "frontmatter"@ || name == "rules"@ || name == "links"@
}

pub fn generated_section(name: &str) -> (r: bool)
    ensures
        r == is_generated_section(name@),
{
    str_eq(name, "frontmatter") || str_eq(name, "rules") || str_eq(name, "links")
}

/// The generated sections as a list in messages: each quoted, in brackets.
pub open spec fn sections_listed() -> Seq<char> {
    "[\"frontmatter\", \"rules\", \"links\"]"@
}

/// Whether a rule sits in section `name`.
pub open spec fn in_section(name: Seq<char>) -> spec_fn(Rule) -> bool {
    |r: Rule| r.section@ == name
}

/// Whether a prose section follows section `name`.
pub open spec fn follows(name: Seq<char>) -> spec_fn(Section) -> bool {
    |x: Section| x.after@ == name
}

impl Field {
    /// The kind of each entry of a list; text unless the schema says `of`.
    pub open spec fn entry_kind(self) -> Kind {
        match self.of {
            Some(k) => k,
            None => Kind::Text,
        }
    }

    pub fn element_kind(&self) -> (r: Kind)
        ensures
            r == self.entry_kind(),
    {
        match self.of {
            Some(k) => k,
            None => Kind::Text,
        }
    }

    /// An enum needs values to choose from; a pattern needs a shape.
    pub open spec fn is_well_formed(self) -> bool {
        &&& !(self.kind == Kind::Enum && self.values@.len() == 0)
        &&& !(self.kind == Kind::Pattern && self.pattern is None)
    }
}

impl Rule {
    /// A rule lives in a generated section, and claims a fix only if it can
    /// detect what to fix.
    pub open spec fn is_well_formed(self) -> bool {
        &&& is_generated_section(self.section@)
        &&& !(self.check == Check::Undetectable && self.fix == Fix::Fix)
    }
}

impl Section {
    pub open spec fn is_well_formed(self) -> bool {
        is_generated_section(self.after@)
    }
}

/// The first index at or after `i` whose element fails `ok`.
pub open spec fn first_failing<A>(s: Seq<A>, ok: spec_fn(A) -> bool, i: int) -> Option<int>
    decreases s.len() - i,
{
    if i < 0 || i >= s.len() {
        None
    } else if !ok(s[i]) {
        Some(i)
    } else {
        first_failing(s, ok, i + 1)
    }
}

pub proof fn lemma_first_failing<A>(s: Seq<A>, ok: spec_fn(A) -> bool, i: int)
    requires
        0 <= i,
    ensures
        first_failing(s, ok, i) matches Some(k) ==> i <= k < s.len() && !ok(s[k]) && forall|
            j: int,
        |
            i <= j < k ==> ok(s[j]),
        first_failing(s, ok, i) is None ==> forall|j: int| i <= j < s.len() ==> ok(s[j]),
    decreases s.len() - i,
{
    if i < s.len() && ok(s[i]) {
        lemma_first_failing(s, ok, i + 1);
    }
}

impl SchemaError {
    /// Whether this is the error for field `f`.
    pub open spec fn is_for_field(self, f: Field) -> bool {
        if f.kind == Kind::Enum && f.values@.len() == 0 {
            self matches SchemaError::EnumWithoutValues { field } && field@ == f.name@
        } else {
            self matches SchemaError::PatternWithoutShape { field } && field@ == f.name@
        }
    }

    /// Whether this is the error for rule `r`.
    pub open spec fn is_for_rule(self, r: Rule) -> bool {
        if !is_generated_section(r.section@) {
            self matches SchemaError::RuleInUnknownSection { rule, section } && rule@ == r.id@
                && section@ == r.section@
        } else {
            self matches SchemaError::UndetectableFix { rule } && rule@ == r.id@
        }
    }

    /// Whether this is the error for section `s`.
    pub open spec fn is_for_section(self, s: Section) -> bool {
        self matches SchemaError::SectionAfterUnknown { section, after } && section@ == s.id@
            && after@ == s.after@
    }

    /// Whether this is the error `validate` reports for `s`: the first bad
    /// field, else the first bad rule, else the first bad section.
    pub open spec fn reports(self, s: Schema) -> bool {
        match first_failing(s.field@, |f: Field| f.is_well_formed(), 0) {
            Some(i) => self.is_for_field(s.field@[i]),
            None => match first_failing(s.rule@, |r: Rule| r.is_well_formed(), 0) {
                Some(i) => self.is_for_rule(s.rule@[i]),
                None => match first_failing(s.section@, |x: Section| x.is_well_formed(), 0) {
                    Some(i) => self.is_for_section(s.section@[i]),
                    None => false,
                },
            },
        }
    }

    /// The message, as the schema loader words it.
    pub open spec fn text(self) -> Seq<char> {
        match self {
            SchemaError::EnumWithoutValues { field } => "field `"@ + field@
                + "` is an enum with no values"@,
            SchemaError::PatternWithoutShape { field } => "field `"@ + field@
                + "` is a pattern with no shape"@,
            SchemaError::RuleInUnknownSection { rule, section } => "rule `"@ + rule@
                + "` is in section `"@ + section@ + "`, which is not one of "@
                + sections_listed(),
            SchemaError::UndetectableFix { rule } => "rule `"@ + rule@
                + "` claims to be autofixable but has no check to detect it"@,
            SchemaError::SectionAfterUnknown { section, after } => "section `"@ + section@
                + "` follows `"@ + after@ + "`, which is not one of "@ + sections_listed(),
        }
    }

    pub fn message(&self) -> (r: String)
        ensures
            r@ == self.text(),
    {
        let mut s = String::new();
        match self {
            SchemaError::EnumWithoutValues { field } => {
                push_str(&mut s, "field `");
                push_str(&mut s, field.as_str());
                push_str(&mut s, "` is an enum with no values");
            },
            SchemaError::PatternWithoutShape { field } => {
                push_str(&mut s, "field `");
                push_str(&mut s, field.as_str());
                push_str(&mut s, "` is a pattern with no shape");
            },
            SchemaError::RuleInUnknownSection { rule, section } => {
                push_str(&mut s, "rule `");
                push_str(&mut s, rule.as_str());
                push_str(&mut s, "` is in section `");
                push_str(&mut s, section.as_str());
                push_str(&mut s, "`, which is not one of ");
                push_str(&mut s, "[\"frontmatter\", \"rules\", \"links\"]");
            },
            SchemaError::UndetectableFix { rule } => {
                push_str(&mut s, "rule `");
                push_str(&mut s, rule.as_str());
                push_str(&mut s, "` claims to be autofixable but has no check to detect it");
            },
            SchemaError::SectionAfterUnknown { section, after } => {
                push_str(&mut s, "section `");
                push_str(&mut s, section.as_str());
                push_str(&mut s, "` follows `");
                push_str(&mut s, after.as_str());
                push_str(&mut s, "`, which is not one of ");
                push_str(&mut s, "[\"frontmatter\", \"rules\", \"links\"]");
            },
        }
        s
    }
}

fn copy_string(s: &String) -> (r: String)
    ensures
        r@ == s@,
{
    s.clone()
}

impl Schema {
    /// Every field, rule and section is well formed.
    pub open spec fn is_well_formed(self) -> bool {
        &&& forall|i: int| 0 <= i < self.field@.len() ==> (#[trigger] self.field@[i]).is_well_formed()
        &&& forall|i: int| 0 <= i < self.rule@.len() ==> (#[trigger] self.rule@[i]).is_well_formed()
        &&& forall|i: int|
            0 <= i < self.section@.len() ==> (#[trigger] self.section@[i]).is_well_formed()
    }

    /// A schema that describes rules nothing can run, or names a section that
    /// does not exist, is a schema whose renderer silently drops content.
    /// Catch it at load rather than at read.
    pub fn validate(&self) -> (r: Result<(), SchemaError>)
        ensures
            r is Ok <==> self.is_well_formed(),
            r matches Err(e) ==> e.reports(*self),
    {
        let ghost fok = |f: Field| f.is_well_formed();
        let ghost rok = |x: Rule| x.is_well_formed();
        let ghost sok = |x: Section| x.is_well_formed();
        proof {
            lemma_first_failing(self.field@, fok, 0);
            lemma_first_failing(self.rule@, rok, 0);
            lemma_first_failing(self.section@, sok, 0);
        }
        let mut i: usize = 0;
        while i < self.field.len()
            invariant
                i <= self.field.len(),
                fok == |f: Field| f.is_well_formed(),
                first_failing(self.field@, fok, i as int) == first_failing(self.field@, fok, 0),
            decreases self.field.len() - i,
        {
            let field = &self.field[i];
            if field.kind == Kind::Enum && field.values.len() == 0 {
                return Err(SchemaError::EnumWithoutValues { field: copy_string(&field.name) });
            }
            if field.kind == Kind::Pattern && field.pattern.is_none() {
                return Err(SchemaError::PatternWithoutShape { field: copy_string(&field.name) });
            }
            i += 1;
        }
        let mut i: usize = 0;
        while i < self.rule.len()
            invariant
                i <= self.rule.len(),
                fok == |f: Field| f.is_well_formed(),
                rok == |x: Rule| x.is_well_formed(),
                first_failing(self.field@, fok, 0) is None,
                first_failing(self.rule@, rok, i as int) == first_failing(self.rule@, rok, 0),
            decreases self.rule.len() - i,
        {
            let rule = &self.rule[i];
            if !generated_section(rule.section.as_str()) {
                return Err(
                    SchemaError::RuleInUnknownSection {
                        rule: copy_string(&rule.id),
                        section: copy_string(&rule.section),
                    },
                );
            }
            if rule.check == Check::Undetectable && rule.fix == Fix::Fix {
                return Err(SchemaError::UndetectableFix { rule: copy_string(&rule.id) });
            }
            i += 1;
        }
        let mut i: usize = 0;
        while i < self.section.len()
            invariant
                i <= self.section.len(),
                fok == |f: Field| f.is_well_formed(),
                rok == |x: Rule| x.is_well_formed(),
                sok == |x: Section| x.is_well_formed(),
                forall|j: int| 0 <= j < self.field@.len() ==> (#[trigger] self.field@[j]).is_well_formed(),
                forall|j: int| 0 <= j < self.rule@.len() ==> (#[trigger] self.rule@[j]).is_well_formed(),
                first_failing(self.field@, fok, 0) is None,
                first_failing(self.rule@, rok, 0) is None,
                first_failing(self.section@, sok, i as int) == first_failing(self.section@, sok, 0),
            decreases self.section.len() - i,
        {
            let section = &self.section[i];
            if !generated_section(section.after.as_str()) {
                return Err(
                    SchemaError::SectionAfterUnknown {
                        section: copy_string(&section.id),
                        after: copy_string(&section.after),
                    },
                );
            }
            i += 1;
        }
        Ok(())
    }

    /// The rules in `section`, in schema order.
    pub fn rules_in(&self, section: &str) -> (r: Vec<&Rule>)
        ensures
            r@.map_values(|x: &Rule| *x) == self.rule@.filter(in_section(section@)),
    {
        let ghost p = in_section(section@);
        let mut r: Vec<&Rule> = Vec::new();
        let mut i: usize = 0;
        while i < self.rule.len()
            invariant
                i <= self.rule.len(),
                p == in_section(section@),
                r@.map_values(|x: &Rule| *x) == self.rule@.take(i as int).filter(p),
            decreases self.rule.len() - i,
        {
            proof {
                reveal_with_fuel(Seq::<_>::filter, 1);
                assert(self.rule@.take(i + 1).drop_last() =~= self.rule@.take(i as int));
            }
            if str_eq(self.rule[i].section.as_str(), section) {
                r.push(&self.rule[i]);
            }
            i += 1;
        }
        assert(self.rule@.take(self.rule.len() as int) =~= self.rule@);
        r
    }

    /// The prose sections that follow `section`, in schema order.
    pub fn sections_after(&self, section: &str) -> (r: Vec<&Section>)
        ensures
            r@.map_values(|x: &Section| *x) == self.section@.filter(follows(section@)),
    {
        let ghost p = follows(section@);
        let mut r: Vec<&Section> = Vec::new();
        let mut i: usize = 0;
        while i < self.section.len()
            invariant
                i <= self.section.len(),
                p == follows(section@),
                r@.map_values(|x: &Section| *x) == self.section@.take(i as int).filter(p),
            decreases self.section.len() - i,
        {
            proof {
                reveal_with_fuel(Seq::<_>::filter, 1);
                assert(self.section@.take(i + 1).drop_last() =~= self.section@.take(i as int));
            }
            if str_eq(self.section[i].after.as_str(), section) {
                r.push(&self.section[i]);
            }
            i += 1;
        }
        assert(self.section@.take(self.section.len() as int) =~= self.section@);
        r
    }
}

/// A rule that claims a fix for something no check can detect makes the whole
/// schema ill formed, so `validate` never accepts it.
pub proof fn law_undetectable_fix_is_never_accepted(s: Schema, i: int)
    requires
        0 <= i < s.rule@.len(),
        s.rule@[i].check == Check::Undetectable,
        s.rule@[i].fix == Fix::Fix,
    ensures
        !s.is_well_formed(),
{
    assert(!s.rule@[i].is_well_formed());
}

proof fn lemma_three_sections(rs: Seq<Rule>)
    requires
        forall|i: int| 0 <= i < rs.len() ==> is_generated_section(#[trigger] rs[i].section@),
    ensures
        rs.filter(in_section("frontmatter"@)).len() + rs.filter(in_section("rules"@)).len()
            + rs.filter(in_section("links"@)).len() == rs.len(),
    decreases rs.len(),
{
    reveal_with_fuel(Seq::<_>::filter, 1);
    if rs.len() > 0 {
        reveal_strlit("frontmatter");
        reveal_strlit("rules");
        reveal_strlit("links");
        let last = rs.last();
        assert(is_generated_section(rs[rs.len() - 1].section@));
        assert("frontmatter"@ != "rules"@ && "rules"@ != "links"@ && "frontmatter"@ != "links"@) by {
            assert("frontmatter"@.len() != "rules"@.len());
            assert("rules"@[0] != "links"@[0]);
            assert("frontmatter"@.len() != "links"@.len());
        }
        assert(in_section("frontmatter"@)(last) == (last.section@ == "frontmatter"@));
        assert(in_section("rules"@)(last) == (last.section@ == "rules"@));
        assert(in_section("links"@)(last) == (last.section@ == "links"@));
        lemma_three_sections(rs.drop_last());
    }
}

/// In a well-formed schema every rule sits in exactly one of the generated
/// sections, so the lists `rules_in` gives for the three of them partition
/// the rules.
pub proof fn law_sections_partition_rules(s: Schema)
    requires
        s.is_well_formed(),
    ensures
        forall|i: int|
            0 <= i < s.rule@.len() ==> is_generated_section(#[trigger] s.rule@[i].section@),
        s.rule@.filter(in_section("frontmatter"@)).len() + s.rule@.filter(in_section("rules"@)).len()
            + s.rule@.filter(in_section("links"@)).len() == s.rule@.len(),
{
    assert forall|i: int| 0 <= i < s.rule@.len() implies is_generated_section(
        #[trigger] s.rule@[i].section@,
    ) by {
        assert(s.rule@[i].is_well_formed());
    }
    lemma_three_sections(s.rule@);
}

proof fn lemma_none_follow(xs: Seq<Section>, name: Seq<char>)
    requires
        forall|i: int| 0 <= i < xs.len() ==> (#[trigger] xs[i]).after@ != name,
    ensures
        xs.filter(follows(name)).len() == 0,
    decreases xs.len(),
{
    reveal_with_fuel(Seq::<_>::filter, 1);
    if xs.len() > 0 {
        assert(xs[xs.len() - 1].after@ != name);
        lemma_none_follow(xs.drop_last(), name);
    }
}

/// In a well-formed schema no prose section follows anything but a generated
/// section: `sections_after` lists nothing for any other name.
pub proof fn law_no_sections_after_unknown(s: Schema, name: Seq<char>)
    requires
        s.is_well_formed(),
        !is_generated_section(name),
    ensures
        s.section@.filter(follows(name)).len() == 0,
{
    assert forall|i: int| 0 <= i < s.section@.len() implies (#[trigger] s.section@[i]).after@
        != name by {
        assert(s.section@[i].is_well_formed());
    }
    lemma_none_follow(s.section@, name);
}

} // verus!
