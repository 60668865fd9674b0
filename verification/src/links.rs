//! Finding `[[wiki-links]]` in a body.
//!
//! The delicate part is not the pattern but what it must ignore. `[[ … ]]` is
//! also bash's test syntax, so a note about shell scripting contains double
//! brackets that are code, not links — and reporting those as broken links
//! trains the reader to ignore the linter.

use vstd::prelude::*;

use crate::text::{
    chars_of, count_char, find_char, index_of, lemma_count_char_concat, lemma_index_of_from,
    push_str, slice_chars, string_of, trim, trim_chars,
};

verus! {

/// One `[[…]]` occurrence.
#[derive(Debug, Clone, PartialEq, Eq)]
pub struct Link {
    /// The source prefix of a `[[source:name]]` link, if it has one.
    pub source: Option<String>,
    pub name: String,
    pub line: usize,
}

/// A link as the contracts see it.
pub struct LinkView {
    pub source: Option<Seq<char>>,
    pub name: Seq<char>,
    pub line: int,
}

pub open spec fn opt_view(s: Option<String>) -> Option<Seq<char>> {
    match s {
        Some(s) => Some(s@),
        None => None,
    }
}

impl View for Link {
    type V = LinkView;

    open spec fn view(&self) -> LinkView {
        LinkView { source: opt_view(self.source), name: self.name@, line: self.line as int }
    }
}

pub open spec fn link_views(links: Seq<Link>) -> Seq<LinkView> {
    links.map_values(|l: Link| l@)
}

impl LinkView {
    /// How a link is written: `[[name]]`, or `[[source:name]]`.
    pub open spec fn written(self) -> Seq<char> {
        match self.source {
            Some(source) => "[["@ + source + ":"@ + self.name + "]]"@,
            None => "[["@ + self.name + "]]"@,
        }
    }
}

impl Link {
    /// How it was written, for messages and for rewriting.
    pub fn as_written(&self) -> (r: String)
        ensures
            r@ == self@.written(),
    {
        let mut s = String::new();
        push_str(&mut s, "[[");
        match &self.source {
            Some(source) => {
                push_str(&mut s, source.as_str());
                push_str(&mut s, ":");
            },
            None => {},
        }
        push_str(&mut s, self.name.as_str());
        push_str(&mut s, "]]");
        s
    }
}

/// The length of the run of backticks that starts at `i`.
pub open spec fn run_length(t: Seq<char>, i: int) -> nat
    decreases t.len() - i,
{
    if 0 <= i < t.len() && t[i] == '`' {
        1 + run_length(t, i + 1)
    } else {
        0
    }
}

pub proof fn lemma_run_length(t: Seq<char>, i: int)
    requires
        0 <= i <= t.len(),
    ensures
        i + run_length(t, i) <= t.len(),
        forall|j: int| i <= j < i + run_length(t, i) ==> t[j] == '`',
        i + run_length(t, i) < t.len() ==> t[i + run_length(t, i)] != '`',
    decreases t.len() - i,
{
    if i < t.len() && t[i] == '`' {
        lemma_run_length(t, i + 1);
    }
}

/// Where a run of exactly `k` backticks starts, scanning from `j` and stepping
/// over whole runs of any other length.
pub open spec fn close_from(t: Seq<char>, j: int, k: nat) -> Option<int>
    decreases t.len() - j,
{
    if j < 0 || j >= t.len() {
        None
    } else if t[j] == '`' {
        if run_length(t, j) == k {
            Some(j)
        } else {
            proof {
                lemma_run_length(t, j);
            }
            close_from(t, j + run_length(t, j), k)
        }
    } else {
        close_from(t, j + 1, k)
    }
}

pub proof fn lemma_close_from(t: Seq<char>, j: int, k: nat)
    requires
        0 <= j,
    ensures
        close_from(t, j, k) matches Some(c) ==> j <= c && c + k <= t.len() && run_length(t, c)
            == k,
    decreases t.len() - j,
{
    if 0 <= j < t.len() {
        lemma_run_length(t, j);
        if t[j] == '`' {
            if run_length(t, j) != k {
                lemma_close_from(t, j + run_length(t, j), k);
            }
        } else {
            lemma_close_from(t, j + 1, k);
        }
    }
}

/// How many bytes `c` takes in UTF-8.
pub open spec fn utf8_width(c: char) -> nat {
    vstd::utf8::encode_scalar(c as u32).len()
}

/// Whether `t` and `u` have backticks in exactly the same places.
pub open spec fn same_ticks(t: Seq<char>, u: Seq<char>) -> bool {
    &&& t.len() == u.len()
    &&& forall|i: int| 0 <= i < t.len() ==> (#[trigger] t[i] == '`' <==> u[i] == '`')
}

proof fn lemma_run_length_ticks(t: Seq<char>, u: Seq<char>, i: int)
    requires
        same_ticks(t, u),
    ensures
        run_length(t, i) == run_length(u, i),
    decreases t.len() - i,
{
    if 0 <= i < t.len() && t[i] == '`' {
        lemma_run_length_ticks(t, u, i + 1);
    }
}

/// Only the backticks decide where a code span closes: what lies between
/// them, newlines included, does not. A span runs on across line breaks to
/// the next run of exactly as many backticks.
pub proof fn law_span_close_ignores_text(t: Seq<char>, u: Seq<char>, j: int, k: nat)
    requires
        same_ticks(t, u),
    ensures
        close_from(t, j, k) == close_from(u, j, k),
    decreases t.len() - j,
{
    if 0 <= j < t.len() {
        lemma_run_length_ticks(t, u, j);
        if t[j] == '`' {
            if run_length(t, j) != k {
                lemma_run_length(t, j);
                law_span_close_ignores_text(t, u, j + run_length(t, j), k);
            }
        } else {
            law_span_close_ignores_text(t, u, j + 1, k);
        }
    }
}

/// A span opened before `j` closes at the first backtick from `j` on, when
/// that starts a run of exactly as many backticks, whatever comes between.
pub proof fn law_span_closes_at_next_matching_run(t: Seq<char>, j: int, c: int, k: nat)
    requires
        0 <= j <= c < t.len(),
        forall|i: int| j <= i < c ==> #[trigger] t[i] != '`',
        t[c] == '`',
        run_length(t, c) == k,
    ensures
        close_from(t, j, k) == Some(c),
    decreases c - j,
{
    if j < c {
        law_span_closes_at_next_matching_run(t, j + 1, c, k);
    }
}

/// What masking puts in place of a character: a newline stays, anything else
/// becomes one space per byte of its UTF-8 encoding, so that byte offsets
/// survive masking.
pub open spec fn hidden(c: char) -> Seq<char> {
    if c == '\n' {
        seq!['\n']
    } else {
        Seq::new(utf8_width(c), |_j: int| ' ')
    }
}

/// `s` with every character hidden.
pub open spec fn blanked(s: Seq<char>) -> Seq<char>
    decreases s.len(),
{
    if s.len() == 0 {
        Seq::empty()
    } else {
        blanked(s.drop_last()) + hidden(s.last())
    }
}

/// The fence state after a fence line of `k` backticks: it opens a fence, or
/// closes one at least as long, or is text inside a longer one.
pub open spec fn next_fence(fence: Option<nat>, k: nat) -> Option<nat> {
    match fence {
        None => Some(k),
        Some(open) => if k >= open {
            None
        } else {
            Some(open)
        },
    }
}

/// Three or more backticks at the start of a line.
pub open spec fn is_fence_marker(t: Seq<char>, i: int) -> bool {
    &&& 0 <= i < t.len()
    &&& i == 0 || t[i - 1] == '\n'
    &&& t[i] == '`'
    &&& run_length(t, i) >= 3
}

/// The masked text from `i` on, given whether a fence is open and how long
/// its opening run was. Fenced blocks and inline code spans are blanked; an
/// inline span opens on a run of backticks and closes on a run of exactly the
/// same length, and a run that never closes is kept as literal text.
pub open spec fn mask_from(t: Seq<char>, i: int, fence: Option<nat>) -> Seq<char>
    decreases t.len() - i,
{
    if i < 0 || i >= t.len() {
        Seq::empty()
    } else if is_fence_marker(t, i) {
        let k = run_length(t, i);
        proof {
            lemma_run_length(t, i);
        }
        blanked(t.subrange(i, i + k)) + mask_from(t, i + k, next_fence(fence, k))
    } else if fence is Some {
        hidden(t[i]) + mask_from(t, i + 1, fence)
    } else if t[i] == '`' {
        let k = run_length(t, i);
        proof {
            lemma_run_length(t, i);
            lemma_close_from(t, i + k, k);
        }
        match close_from(t, i + k, k) {
            Some(c) => blanked(t.subrange(i, c + k)) + mask_from(t, c + k, None),
            None => t.subrange(i, i + k) + mask_from(t, i + k, None),
        }
    } else {
        seq![t[i]] + mask_from(t, i + 1, None)
    }
}

/// `t` with the contents of fenced blocks and inline code spans blanked.
pub open spec fn mask(t: Seq<char>) -> Seq<char> {
    mask_from(t, 0, None)
}

/// Whether masked bytes `m` stand for the bytes `b`: as many of them, each
/// the same byte or a space, and a newline exactly where `b` has one.
pub open spec fn masks_bytes(m: Seq<u8>, b: Seq<u8>) -> bool {
    &&& m.len() == b.len()
    &&& forall|j: int|
        #![trigger m[j]]
        0 <= j < b.len() ==> (m[j] == b[j] || m[j] == 32u8) && (m[j] == 10u8 <==> b[j] == 10u8)
}

/// The encoding of two texts one after the other is the two encodings one
/// after the other.
pub proof fn lemma_encode_concat(a: Seq<char>, b: Seq<char>)
    ensures
        vstd::utf8::encode_utf8(a + b) == vstd::utf8::encode_utf8(a) + vstd::utf8::encode_utf8(b),
    decreases a.len(),
{
    if a.len() == 0 {
        assert(a + b =~= b);
        assert(vstd::utf8::encode_utf8(a) + vstd::utf8::encode_utf8(b) =~= vstd::utf8::encode_utf8(
            b,
        ));
    } else {
        assert((a + b)[0] == a[0]);
        assert((a + b).drop_first() =~= a.drop_first() + b);
        lemma_encode_concat(a.drop_first(), b);
        assert(vstd::utf8::encode_utf8(a + b) =~= vstd::utf8::encode_utf8(a)
            + vstd::utf8::encode_utf8(b));
    }
}

proof fn lemma_masks_bytes_concat(m1: Seq<u8>, b1: Seq<u8>, m2: Seq<u8>, b2: Seq<u8>)
    requires
        masks_bytes(m1, b1),
        masks_bytes(m2, b2),
    ensures
        masks_bytes(m1 + m2, b1 + b2),
{
    assert forall|j: int| 0 <= j < (b1 + b2).len() implies ((m1 + m2)[j] == (b1 + b2)[j] || (m1
        + m2)[j] == 32u8) && ((m1 + m2)[j] == 10u8 <==> (b1 + b2)[j] == 10u8) by {
        if j < b1.len() {
            assert(m1[j] == m1[j]);
        } else {
            assert(m2[j - b1.len()] == m2[j - b1.len()]);
        }
    }
}

proof fn lemma_count_byte_none(bs: Seq<u8>, x: u8)
    requires
        count_byte(bs, x) == 0,
    ensures
        forall|j: int| 0 <= j < bs.len() ==> bs[j] != x,
    decreases bs.len(),
{
    if bs.len() > 0 {
        lemma_count_byte_none(bs.drop_last(), x);
        assert forall|j: int| 0 <= j < bs.len() implies bs[j] != x by {
            if j < bs.len() - 1 {
                assert(bs[j] == bs.drop_last()[j]);
            }
        }
    }
}

/// A hidden character has the bytes of the character, each kept or a space.
proof fn lemma_hidden_bytes(c: char)
    ensures
        masks_bytes(vstd::utf8::encode_utf8(hidden(c)), vstd::utf8::encode_utf8(seq![c])),
{
    let e = vstd::utf8::encode_scalar(c as u32);
    let one = seq![c];
    assert(one[0] == c);
    assert(one.drop_first() =~= Seq::<char>::empty());
    assert(vstd::utf8::encode_utf8(Seq::<char>::empty()) =~= Seq::<u8>::empty());
    assert(vstd::utf8::encode_utf8(one) == e + vstd::utf8::encode_utf8(one.drop_first()));
    assert(vstd::utf8::encode_utf8(one) =~= e);
    if c != '\n' {
        let sp = hidden(c);
        assert(vstd::utf8::is_ascii_chars(sp));
        vstd::utf8::is_ascii_chars_encode_utf8(sp);
        lemma_encode_scalar_newline(c);
        lemma_count_byte_none(e, 10u8);
        let m = vstd::utf8::encode_utf8(sp);
        assert forall|j: int| 0 <= j < e.len() implies (m[j] == e[j] || m[j] == 32u8) && (m[j]
            == 10u8 <==> e[j] == 10u8) by {
            assert(sp[j] == ' ');
            assert(m[j] == sp[j] as u8);
        }
    } else {
        assert(hidden(c) =~= seq![c]);
    }
}

proof fn lemma_blanked_bytes(s: Seq<char>)
    ensures
        masks_bytes(vstd::utf8::encode_utf8(blanked(s)), vstd::utf8::encode_utf8(s)),
    decreases s.len(),
{
    if s.len() == 0 {
        assert(blanked(s) =~= s);
    } else {
        lemma_blanked_bytes(s.drop_last());
        lemma_hidden_bytes(s.last());
        lemma_encode_concat(blanked(s.drop_last()), hidden(s.last()));
        assert(s =~= s.drop_last() + seq![s.last()]);
        lemma_encode_concat(s.drop_last(), seq![s.last()]);
        lemma_masks_bytes_concat(
            vstd::utf8::encode_utf8(blanked(s.drop_last())),
            vstd::utf8::encode_utf8(s.drop_last()),
            vstd::utf8::encode_utf8(hidden(s.last())),
            vstd::utf8::encode_utf8(seq![s.last()]),
        );
    }
}

proof fn lemma_masks_bytes_refl(b: Seq<u8>)
    ensures
        masks_bytes(b, b),
{
}

/// The masked text of `piece + rest` stands for the text when `piece` and
/// `rest` each stand for their part.
proof fn lemma_piece(m1: Seq<char>, t1: Seq<char>, m2: Seq<char>, t2: Seq<char>)
    requires
        masks_bytes(vstd::utf8::encode_utf8(m1), vstd::utf8::encode_utf8(t1)),
        masks_bytes(vstd::utf8::encode_utf8(m2), vstd::utf8::encode_utf8(t2)),
    ensures
        masks_bytes(vstd::utf8::encode_utf8(m1 + m2), vstd::utf8::encode_utf8(t1 + t2)),
{
    lemma_encode_concat(m1, m2);
    lemma_encode_concat(t1, t2);
    lemma_masks_bytes_concat(
        vstd::utf8::encode_utf8(m1),
        vstd::utf8::encode_utf8(t1),
        vstd::utf8::encode_utf8(m2),
        vstd::utf8::encode_utf8(t2),
    );
}

proof fn lemma_mask_from_bytes(t: Seq<char>, i: int, fence: Option<nat>)
    requires
        0 <= i <= t.len(),
    ensures
        masks_bytes(
            vstd::utf8::encode_utf8(mask_from(t, i, fence)),
            vstd::utf8::encode_utf8(t.subrange(i, t.len() as int)),
        ),
    decreases t.len() - i,
{
    let n = t.len() as int;
    if i == n {
        assert(t.subrange(i, n) =~= Seq::<char>::empty());
    } else {
        lemma_run_length(t, i);
        if is_fence_marker(t, i) {
            let k = run_length(t, i) as int;
            lemma_mask_from_bytes(t, i + k, next_fence(fence, k as nat));
            lemma_blanked_bytes(t.subrange(i, i + k));
            assert(t.subrange(i, n) =~= t.subrange(i, i + k) + t.subrange(i + k, n));
            lemma_piece(
                blanked(t.subrange(i, i + k)),
                t.subrange(i, i + k),
                mask_from(t, i + k, next_fence(fence, k as nat)),
                t.subrange(i + k, n),
            );
        } else if fence is Some {
            lemma_mask_from_bytes(t, i + 1, fence);
            lemma_hidden_bytes(t[i]);
            assert(t.subrange(i, n) =~= seq![t[i]] + t.subrange(i + 1, n));
            lemma_piece(hidden(t[i]), seq![t[i]], mask_from(t, i + 1, fence), t.subrange(i + 1, n));
        } else if t[i] == '`' {
            let k = run_length(t, i) as int;
            lemma_close_from(t, i + k, k as nat);
            match close_from(t, i + k, k as nat) {
                Some(c) => {
                    lemma_mask_from_bytes(t, c + k, None);
                    lemma_blanked_bytes(t.subrange(i, c + k));
                    assert(t.subrange(i, n) =~= t.subrange(i, c + k) + t.subrange(c + k, n));
                    lemma_piece(
                        blanked(t.subrange(i, c + k)),
                        t.subrange(i, c + k),
                        mask_from(t, c + k, None),
                        t.subrange(c + k, n),
                    );
                },
                None => {
                    lemma_mask_from_bytes(t, i + k, None);
                    lemma_masks_bytes_refl(vstd::utf8::encode_utf8(t.subrange(i, i + k)));
                    assert(t.subrange(i, n) =~= t.subrange(i, i + k) + t.subrange(i + k, n));
                    lemma_piece(
                        t.subrange(i, i + k),
                        t.subrange(i, i + k),
                        mask_from(t, i + k, None),
                        t.subrange(i + k, n),
                    );
                },
            }
        } else {
            lemma_mask_from_bytes(t, i + 1, None);
            lemma_masks_bytes_refl(vstd::utf8::encode_utf8(seq![t[i]]));
            assert(t.subrange(i, n) =~= seq![t[i]] + t.subrange(i + 1, n));
            lemma_piece(seq![t[i]], seq![t[i]], mask_from(t, i + 1, None), t.subrange(i + 1, n));
        }
    }
}

proof fn lemma_masks_bytes_newlines(m: Seq<u8>, b: Seq<u8>)
    requires
        masks_bytes(m, b),
    ensures
        count_byte(m, 10u8) == count_byte(b, 10u8),
    decreases b.len(),
{
    if b.len() > 0 {
        assert(masks_bytes(m.drop_last(), b.drop_last())) by {
            assert forall|j: int| 0 <= j < b.drop_last().len() implies (m.drop_last()[j]
                == b.drop_last()[j] || m.drop_last()[j] == 32u8) && (m.drop_last()[j] == 10u8
                <==> b.drop_last()[j] == 10u8) by {
                assert(m[j] == m[j]);
            }
        }
        lemma_masks_bytes_newlines(m.drop_last(), b.drop_last());
        assert(m[m.len() - 1] == m[m.len() - 1]);
    }
}

/// Masking rather than deleting keeps byte offsets: the masked text has as
/// many bytes as the text, each the same byte or a space, and a newline
/// exactly where the text has one, so it has as many lines too.
pub proof fn law_mask_keeps_byte_offsets(t: Seq<char>)
    ensures
        masks_bytes(vstd::utf8::encode_utf8(mask(t)), vstd::utf8::encode_utf8(t)),
        count_char(mask(t), '\n') == count_char(t, '\n'),
{
    lemma_mask_from_bytes(t, 0, None);
    assert(t.subrange(0, t.len() as int) =~= t);
    lemma_masks_bytes_newlines(vstd::utf8::encode_utf8(mask(t)), vstd::utf8::encode_utf8(t));
    lemma_encoded_newlines(mask(t));
    lemma_encoded_newlines(t);
}

#[derive(Clone, Copy, PartialEq, Eq, Structural)]
enum Masked {
    Yes,
    No,
}

fn count_ticks(cs: &Vec<char>, from: usize) -> (r: usize)
    requires
        from <= cs.len(),
    ensures
        r == run_length(cs@, from as int),
        from + r <= cs.len(),
{
    proof {
        lemma_run_length(cs@, from as int);
    }
    let mut i = from;
    while i < cs.len() && cs[i] == '`'
        invariant
            from <= i <= cs.len(),
            run_length(cs@, from as int) == (i - from) + run_length(cs@, i as int),
        decreases cs.len() - i,
    {
        i += 1;
    }
    i - from
}

/// The offset of a closing run of exactly `ticks` backticks, if there is one.
fn find_close(cs: &Vec<char>, from: usize, ticks: usize) -> (r: Option<usize>)
    requires
        from <= cs.len(),
    ensures
        match r {
            Some(c) => close_from(cs@, from as int, ticks as nat) == Some(c as int),
            None => close_from(cs@, from as int, ticks as nat) is None,
        },
{
    let mut i = from;
    while i < cs.len()
        invariant
            from <= i <= cs.len(),
            close_from(cs@, i as int, ticks as nat) == close_from(cs@, from as int, ticks as nat),
        decreases cs.len() - i,
    {
        if cs[i] == '`' {
            let run = count_ticks(cs, i);
            if run == ticks {
                return Some(i);
            }
            i += run;
        } else {
            i += 1;
        }
    }
    None
}

/// How many bytes `c` takes in UTF-8.
fn width(c: char) -> (r: usize)
    ensures
        r == utf8_width(c),
{
    broadcast use vstd::utf8::char_is_scalar;

    let v = c as u32;
    if v <= 0x7F {
        1
    } else if v <= 0x7FF {
        2
    } else if v <= 0xFFFF {
        3
    } else {
        4
    }
}

/// Appends what masking puts in place of `c`.
fn push_hidden(out: &mut Vec<char>, c: char)
    ensures
        final(out)@ == old(out)@ + hidden(c),
{
    if c == '\n' {
        out.push('\n');
        return ;
    }
    let ghost start = out@;
    let w = width(c);
    let mut j: usize = 0;
    while j < w
        invariant
            j <= w,
            w == utf8_width(c),
            out@ == start + Seq::new(j as nat, |_k: int| ' '),
        decreases w - j,
    {
        out.push(' ');
        j += 1;
        assert(out@ =~= start + Seq::new(j as nat, |_k: int| ' '));
    }
    assert(out@ =~= start + hidden(c));
}

/// Advances one character, either copying it or hiding it. A newline is
/// always copied: line numbers are computed by counting newlines in the
/// masked text.
fn take_char(out: &mut Vec<char>, cs: &Vec<char>, i: &mut usize, masked: Masked)
    requires
        *old(i) < cs.len(),
    ensures
        *final(i) == *old(i) + 1,
        final(out)@ == old(out)@ + if masked == Masked::Yes {
            hidden(cs@[*old(i) as int])
        } else {
            seq![cs@[*old(i) as int]]
        },
{
    let ch = cs[*i];
    if masked == Masked::Yes {
        push_hidden(out, ch);
    } else {
        let ghost before = out@;
        out.push(ch);
        assert(out@ =~= before + seq![ch]);
    }
    *i = *i + 1;
}

/// Replaces a span with spaces, keeping newlines so line numbers survive.
fn blank(out: &mut Vec<char>, cs: &Vec<char>, from: usize, to: usize)
    requires
        from <= to <= cs.len(),
    ensures
        final(out)@ == old(out)@ + blanked(cs@.subrange(from as int, to as int)),
{
    let ghost start = out@;
    let mut i = from;
    while i < to
        invariant
            from <= i <= to <= cs.len(),
            out@ == start + blanked(cs@.subrange(from as int, i as int)),
        decreases to - i,
    {
        let ghost before = out@;
        push_hidden(out, cs[i]);
        let ghost sub = cs@.subrange(from as int, i + 1);
        assert(sub.drop_last() =~= cs@.subrange(from as int, i as int));
        assert(sub.last() == cs@[i as int]);
        assert(out@ =~= start + blanked(sub));
        i += 1;
    }
}

/// Copies a span as it is.
fn copy_span(out: &mut Vec<char>, cs: &Vec<char>, from: usize, to: usize)
    requires
        from <= to <= cs.len(),
    ensures
        final(out)@ == old(out)@ + cs@.subrange(from as int, to as int),
{
    let ghost start = out@;
    let mut i = from;
    while i < to
        invariant
            from <= i <= to <= cs.len(),
            out@ == start + cs@.subrange(from as int, i as int),
        decreases to - i,
    {
        out.push(cs[i]);
        i += 1;
        assert(out@ =~= start + cs@.subrange(from as int, i as int));
    }
}

pub open spec fn fence_view(f: Option<usize>) -> Option<nat> {
    match f {
        Some(k) => Some(k as nat),
        None => None,
    }
}

/// Replaces the contents of fenced blocks and inline code spans with spaces.
///
/// Masking rather than deleting is what keeps byte offsets — and therefore
/// line numbers — pointing at the right place in the unmasked text: a masked
/// character becomes one space per byte. Newlines survive for the same
/// reason.
pub fn mask_code(text: &str) -> (r: String)
    ensures
        r@ == mask(text@),
        masks_bytes(vstd::utf8::encode_utf8(r@), vstd::utf8::encode_utf8(text@)),
        count_char(r@, '\n') == count_char(text@, '\n'),
{
    let cs = chars_of(text);
    let n = cs.len();
    let mut out: Vec<char> = Vec::new();
    let mut i: usize = 0;
    let mut in_fence: Option<usize> = None;
    while i < n
        invariant
            n == cs.len(),
            cs@ == text@,
            i <= n,
            out@ + mask_from(cs@, i as int, fence_view(in_fence)) == mask(cs@),
        decreases n - i,
    {
        let ghost before = out@;
        let ghost f = fence_view(in_fence);
        let at_line_start = i == 0 || cs[i - 1] == '\n';
        // A fence is three or more backticks at the start of a line. The
        // closing fence must be at least as long as the opening one, so a
        // ```` block can contain ``` lines.
        if at_line_start && cs[i] == '`' {
            let ticks = count_ticks(&cs, i);
            if ticks >= 3 {
                in_fence =
                match in_fence {
                    None => Some(ticks),
                    Some(open) => if ticks >= open {
                        None
                    } else {
                        Some(open)
                    },
                };
                blank(&mut out, &cs, i, i + ticks);
                assert(fence_view(in_fence) == next_fence(f, ticks as nat));
                assert(out@ + mask_from(cs@, i + ticks, fence_view(in_fence)) =~= before
                    + mask_from(cs@, i as int, f));
                i += ticks;
                continue;
            }
        }
        if in_fence.is_some() {
            take_char(&mut out, &cs, &mut i, Masked::Yes);
            assert(out@ + mask_from(cs@, i as int, fence_view(in_fence)) =~= before + mask_from(
                cs@,
                i - 1,
                f,
            ));
            continue;
        }
        // An inline span opens on one or more backticks and closes on a run of
        // exactly the same length. An unterminated run is literal text, not an
        // open span that swallows the rest of the file.
        if cs[i] == '`' {
            let ticks = count_ticks(&cs, i);
            proof {
                lemma_close_from(cs@, (i + ticks) as int, ticks as nat);
            }
            match find_close(&cs, i + ticks, ticks) {
                Some(close) => {
                    blank(&mut out, &cs, i, close + ticks);
                    assert(out@ + mask_from(cs@, close + ticks, None) =~= before + mask_from(
                        cs@,
                        i as int,
                        f,
                    ));
                    i = close + ticks;
                },
                None => {
                    copy_span(&mut out, &cs, i, i + ticks);
                    assert(out@ + mask_from(cs@, i + ticks, None) =~= before + mask_from(
                        cs@,
                        i as int,
                        f,
                    ));
                    i += ticks;
                },
            }
            continue;
        }
        take_char(&mut out, &cs, &mut i, Masked::No);
        assert(out@ + mask_from(cs@, i as int, None) =~= before + mask_from(cs@, i - 1, f));
    }
    proof {
        law_mask_keeps_byte_offsets(cs@);
    }
    assert(out@ =~= mask(cs@));
    string_of(&out)
}

/// How many times `b` occurs in `bs`.
pub open spec fn count_byte(bs: Seq<u8>, b: u8) -> nat
    decreases bs.len(),
{
    if bs.len() == 0 {
        0
    } else {
        count_byte(bs.drop_last(), b) + if bs.last() == b {
            1nat
        } else {
            0nat
        }
    }
}

proof fn lemma_count_byte_concat(a: Seq<u8>, b: Seq<u8>, x: u8)
    ensures
        count_byte(a + b, x) == count_byte(a, x) + count_byte(b, x),
    decreases b.len(),
{
    if b.len() == 0 {
        assert(a + b =~= a);
    } else {
        assert((a + b).drop_last() =~= a + b.drop_last());
        lemma_count_byte_concat(a, b.drop_last(), x);
    }
}

proof fn lemma_count_byte_prefix(bs: Seq<u8>, k: int, x: u8)
    requires
        0 <= k <= bs.len(),
    ensures
        count_byte(bs.take(k), x) <= count_byte(bs, x),
    decreases bs.len() - k,
{
    if k < bs.len() {
        lemma_count_byte_prefix(bs, k + 1, x);
        assert(bs.take(k + 1).drop_last() =~= bs.take(k));
    } else {
        assert(bs.take(k) =~= bs);
    }
}

/// A newline is the only character whose UTF-8 encoding holds the byte 10.
proof fn lemma_encode_scalar_newline(c: char)
    ensures
        count_byte(vstd::utf8::encode_scalar(c as u32), 10u8) == if c == '\n' {
            1nat
        } else {
            0nat
        },
{
    reveal_with_fuel(count_byte, 5);
    let v = c as u32;
    let e = vstd::utf8::encode_scalar(v);
    if vstd::utf8::has_width_1_encoding(v) {
        assert(((v & 0x7F) as u8 == 10u8) == (v == 10u32)) by (bit_vector)
            requires
                v <= 0x7F,
        ;
        assert(e.drop_last() =~= Seq::<u8>::empty());
    } else {
        let l2 = vstd::utf8::last_continuation_byte(v);
        assert(l2 != 10u8) by (bit_vector)
            requires
                l2 == 0x80u8 | (v & 0x3F) as u8,
        ;
        if vstd::utf8::has_width_2_encoding(v) {
            let l1 = vstd::utf8::leading_byte_width_2(v);
            assert(l1 != 10u8) by (bit_vector)
                requires
                    l1 == 0xC0u8 | ((v >> 6) & 0x1F) as u8,
            ;
            assert(e.drop_last().drop_last() =~= Seq::<u8>::empty());
        } else {
            let m = vstd::utf8::second_last_continuation_byte(v);
            assert(m != 10u8) by (bit_vector)
                requires
                    m == 0x80u8 | ((v >> 6) & 0x3F) as u8,
            ;
            if vstd::utf8::has_width_3_encoding(v) {
                let l1 = vstd::utf8::leading_byte_width_3(v);
                assert(l1 != 10u8) by (bit_vector)
                    requires
                        l1 == 0xE0u8 | ((v >> 12) & 0x0F) as u8,
                ;
                assert(e.drop_last().drop_last().drop_last() =~= Seq::<u8>::empty());
            } else {
                let l1 = vstd::utf8::leading_byte_width_4(v);
                let m3 = vstd::utf8::third_last_continuation_byte(v);
                assert(l1 != 10u8) by (bit_vector)
                    requires
                        l1 == 0xF0u8 | ((v >> 18) & 0x7) as u8,
                ;
                assert(m3 != 10u8) by (bit_vector)
                    requires
                        m3 == 0x80u8 | ((v >> 12) & 0x3F) as u8,
                ;
                assert(e.drop_last().drop_last().drop_last().drop_last() =~= Seq::<u8>::empty());
            }
        }
    }
}

/// The UTF-8 encoding of a text holds one byte 10 per newline.
pub proof fn lemma_encoded_newlines(s: Seq<char>)
    ensures
        count_byte(vstd::utf8::encode_utf8(s), 10u8) == count_char(s, '\n'),
    decreases s.len(),
{
    if s.len() > 0 {
        let head = vstd::utf8::encode_scalar(s[0] as u32);
        lemma_encoded_newlines(s.drop_first());
        lemma_encode_scalar_newline(s[0]);
        lemma_count_byte_concat(head, vstd::utf8::encode_utf8(s.drop_first()), 10u8);
        lemma_count_char_concat(seq![s[0]], s.drop_first(), '\n');
        assert(seq![s[0]] + s.drop_first() =~= s);
        assert(seq![s[0]].drop_last() =~= Seq::<char>::empty());
        reveal_with_fuel(count_char, 2);
        assert(seq![s[0]].last() == s[0]);
        assert(count_char(seq![s[0]], '\n') == if s[0] == '\n' { 1nat } else { 0nat });
        assert(vstd::utf8::encode_utf8(s) == head + vstd::utf8::encode_utf8(s.drop_first()));
    }
}

/// The pattern of a link: two opening brackets, a target without brackets,
/// two closing brackets.
pub open spec fn link_pattern() -> Seq<char> {
    "\\[\\[([^\\[\\]]+)\\]\\]"@
}

/// What `regex::Regex::new(pattern)` and then `captures_iter(haystack)` give:
/// `None` if the pattern does not compile, else for each match in order the
/// byte offset where the whole match starts and the text of group 1.
pub uninterp spec fn regex_captures(pattern: Seq<char>, haystack: Seq<char>) -> Option<
    Seq<(usize, Option<Seq<char>>)>,
>;

pub open spec fn capture_views(v: Seq<(usize, Option<String>)>) -> Seq<(usize, Option<Seq<char>>)> {
    v.map_values(|c: (usize, Option<String>)| (c.0, opt_view(c.1)))
}

/// Compiles `pattern` with `regex::Regex::new` and lists its captures in
/// `haystack` with `Regex::captures_iter`, keeping where each match starts
/// (`Match::start`) and the text of group 1 (`Match::as_str`). Claimed: the
/// result is `regex_captures` of the two texts; nothing about what matches.
#[verifier::external_body]
fn captures(pattern: &str, haystack: &str) -> (r: Option<Vec<(usize, Option<String>)>>)
    ensures
        match r {
            Some(v) => regex_captures(pattern@, haystack@) == Some(capture_views(v@)),
            None => regex_captures(pattern@, haystack@) is None,
        },
{
    match regex::Regex::new(pattern) {
        Ok(re) => Some(
            re.captures_iter(haystack).map(
                |c| (c.get_match().start(), c.get(1).map(|m| m.as_str().to_string())),
            ).collect(),
        ),
        Err(_) => None,
    }
}

/// The link a target names: the trimmed target, split at its first colon
/// into source and name, each trimmed.
pub open spec fn target_link(target: Seq<char>, line: int) -> LinkView {
    let t = trim(target);
    match index_of(t, ':') {
        Some(k) => LinkView { source: Some(trim(t.take(k))), name: trim(t.skip(k + 1)), line },
        None => LinkView { source: None, name: t, line },
    }
}

/// The link written at a match, on the line of the match's start: the first
/// line plus the newlines before it.
pub open spec fn link_at(start: usize, target: Seq<char>, bytes: Seq<u8>, first_line: int) -> LinkView {
    let end = if start <= bytes.len() {
        start as int
    } else {
        bytes.len() as int
    };
    target_link(target, first_line + count_byte(bytes.take(end), 10u8))
}

/// The links of a list of captures, in order; a capture without a target
/// gives none.
pub open spec fn links_of(caps: Seq<(usize, Option<Seq<char>>)>, bytes: Seq<u8>, first_line: int) -> Seq<
    LinkView,
>
    decreases caps.len(),
{
    if caps.len() == 0 {
        Seq::empty()
    } else {
        let rest = links_of(caps.drop_last(), bytes, first_line);
        match caps.last().1 {
            Some(target) => rest.push(link_at(caps.last().0, target, bytes, first_line)),
            None => rest,
        }
    }
}

/// The links in a body whose first line is `first_line`: the matches of the
/// link pattern in the masked body, so nothing inside code counts.
pub open spec fn links_in(body: Seq<char>, first_line: int) -> Seq<LinkView> {
    match regex_captures(link_pattern(), mask(body)) {
        Some(caps) => links_of(caps, vstd::utf8::encode_utf8(mask(body)), first_line),
        None => Seq::empty(),
    }
}

/// `l` moved by `k` lines.
pub open spec fn shifted(l: LinkView, k: int) -> LinkView {
    LinkView { source: l.source, name: l.name, line: l.line + k }
}

/// Every link of `ls` moved by `k` lines.
pub open spec fn shifted_all(ls: Seq<LinkView>, k: int) -> Seq<LinkView> {
    ls.map_values(|l: LinkView| shifted(l, k))
}

proof fn lemma_links_of_shift(
    caps: Seq<(usize, Option<Seq<char>>)>,
    bytes: Seq<u8>,
    first_line: int,
    k: int,
)
    ensures
        links_of(caps, bytes, first_line + k) == shifted_all(links_of(caps, bytes, first_line), k),
    decreases caps.len(),
{
    if caps.len() > 0 {
        lemma_links_of_shift(caps.drop_last(), bytes, first_line, k);
        let rest = links_of(caps.drop_last(), bytes, first_line);
        match caps.last().1 {
            Some(target) => {
                let l = link_at(caps.last().0, target, bytes, first_line);
                assert(link_at(caps.last().0, target, bytes, first_line + k) == shifted(l, k));
                assert(shifted_all(rest.push(l), k) =~= shifted_all(rest, k).push(shifted(l, k)));
            },
            None => {},
        }
    }
}

/// Where the body starts only moves its links: starting it `k` lines later
/// moves every link `k` lines down and changes nothing else.
pub proof fn law_link_lines_shift(body: Seq<char>, first_line: int, k: int)
    ensures
        links_in(body, first_line + k) == shifted_all(links_in(body, first_line), k),
{
    match regex_captures(link_pattern(), mask(body)) {
        Some(caps) => lemma_links_of_shift(
            caps,
            vstd::utf8::encode_utf8(mask(body)),
            first_line,
            k,
        ),
        None => {
            assert(shifted_all(Seq::<LinkView>::empty(), k) =~= Seq::<LinkView>::empty());
        },
    }
}

proof fn lemma_links_of_same_newlines(
    caps: Seq<(usize, Option<Seq<char>>)>,
    m: Seq<u8>,
    b: Seq<u8>,
    first_line: int,
)
    requires
        masks_bytes(m, b),
    ensures
        links_of(caps, m, first_line) == links_of(caps, b, first_line),
    decreases caps.len(),
{
    if caps.len() > 0 {
        lemma_links_of_same_newlines(caps.drop_last(), m, b, first_line);
        let start = caps.last().0;
        let end = if start <= m.len() {
            start as int
        } else {
            m.len() as int
        };
        assert(masks_bytes(m.take(end), b.take(end))) by {
            assert forall|j: int| 0 <= j < b.take(end).len() implies (m.take(end)[j] == b.take(
                end,
            )[j] || m.take(end)[j] == 32u8) && (m.take(end)[j] == 10u8 <==> b.take(end)[j]
                == 10u8) by {
                assert(m[j] == m[j]);
            }
        }
        lemma_masks_bytes_newlines(m.take(end), b.take(end));
    }
}

/// Line numbers survive masking: each link's line is the first line plus
/// the newlines of the body itself before the link's match.
pub proof fn law_link_lines_count_body_newlines(body: Seq<char>, first_line: int)
    ensures
        links_in(body, first_line) == match regex_captures(link_pattern(), mask(body)) {
            Some(caps) => links_of(caps, vstd::utf8::encode_utf8(body), first_line),
            None => Seq::empty(),
        },
{
    law_mask_keeps_byte_offsets(body);
    match regex_captures(link_pattern(), mask(body)) {
        Some(caps) => lemma_links_of_same_newlines(
            caps,
            vstd::utf8::encode_utf8(mask(body)),
            vstd::utf8::encode_utf8(body),
            first_line,
        ),
        None => {},
    }
}

/// A cleanly written target reads back as written: with no white space
/// around it or beside its first colon, the link it makes is written
/// `[[target]]` again.
pub proof fn law_clean_link_round_trips(t: Seq<char>, line: int)
    requires
        trim(t) == t,
        match index_of(t, ':') {
            Some(k) => trim(t.take(k)) == t.take(k) && trim(t.skip(k + 1)) == t.skip(k + 1),
            None => true,
        },
    ensures
        target_link(t, line).written() == "[["@ + t + "]]"@,
{
    lemma_index_of_from(t, ':', 0);
    match index_of(t, ':') {
        Some(k) => {
            reveal_strlit(":");
            assert(t.take(k) + ":"@ + t.skip(k + 1) =~= t);
        },
        None => {},
    }
}

fn count_newline_bytes(bytes: &[u8], end: usize) -> (r: usize)
    ensures
        r == count_byte(
            bytes@.take(
                if end <= bytes@.len() {
                    end as int
                } else {
                    bytes@.len() as int
                },
            ),
            10u8,
        ),
{
    let stop = if end <= bytes.len() {
        end
    } else {
        bytes.len()
    };
    let mut i: usize = 0;
    let mut n: usize = 0;
    while i < stop
        invariant
            stop <= bytes@.len(),
            i <= stop,
            n == count_byte(bytes@.take(i as int), 10u8),
            n <= i,
        decreases stop - i,
    {
        assert(bytes@.take(i + 1).drop_last() =~= bytes@.take(i as int));
        if bytes[i] == 10u8 {
            n += 1;
        }
        i += 1;
    }
    n
}

/// The links of the captures of the link pattern in `masked`, each on the
/// line of its match's start, counted from `first_line`.
pub fn links_from_captures(masked: &str, caps: &Vec<(usize, Option<String>)>, first_line: usize) -> (r:
    Vec<Link>)
    requires
        first_line + count_char(masked@, '\n') <= usize::MAX,
    ensures
        link_views(r@) == links_of(
            capture_views(caps@),
            vstd::utf8::encode_utf8(masked@),
            first_line as int,
        ),
{
    let bytes = masked.as_bytes();
    let ghost bs = vstd::utf8::encode_utf8(masked@);
    proof {
        lemma_encoded_newlines(masked@);
    }
    let ghost cv = capture_views(caps@);
    let mut links: Vec<Link> = Vec::new();
    let mut i: usize = 0;
    while i < caps.len()
        invariant
            i <= caps.len(),
            cv == capture_views(caps@),
            bytes@ == bs,
            count_byte(bs, 10u8) + first_line <= usize::MAX,
            link_views(links@) == links_of(cv.take(i as int), bs, first_line as int),
        decreases caps.len() - i,
    {
        assert(cv.take(i + 1).drop_last() =~= cv.take(i as int));
        let (start, target) = &caps[i];
        match target {
            Some(target) => {
                let n = count_newline_bytes(bytes, *start);
                proof {
                    lemma_count_byte_prefix(
                        bs,
                        if *start <= bs.len() {
                            *start as int
                        } else {
                            bs.len() as int
                        },
                        10u8,
                    );
                }
                let link = link_from(target, first_line + n);
                links.push(link);
                assert(link_views(links@) =~= link_views(links@).drop_last().push(link@));
            },
            None => {},
        }
        i += 1;
    }
    assert(cv.take(caps.len() as int) =~= cv);
    links
}

/// Every link in `body`, in order, with the file line it is on.
pub fn extract_links(body: &str, first_line: usize) -> (r: Vec<Link>)
    requires
        first_line + count_char(body@, '\n') <= usize::MAX,
    ensures
        link_views(r@) == links_in(body@, first_line as int),
{
    let masked = mask_code(body);
    match captures("\\[\\[([^\\[\\]]+)\\]\\]", masked.as_str()) {
        None => Vec::new(),
        Some(caps) => links_from_captures(masked.as_str(), &caps, first_line),
    }
}

/// The link for one target on `line`.
fn link_from(target: &String, line: usize) -> (r: Link)
    ensures
        r@ == target_link(target@, line as int),
{
    let cs = chars_of(target.as_str());
    let t = trim_chars(&cs);
    match find_char(&t, ':') {
        Some(k) => {
            proof {
                lemma_index_of_from(t@, ':', 0);
            }
            let before = slice_chars(&t, 0, k);
            let after = slice_chars(&t, k + 1, t.len());
            let source = string_of(&trim_chars(&before));
            let name = string_of(&trim_chars(&after));
            assert(before@ =~= t@.take(k as int));
            assert(after@ =~= t@.skip(k + 1));
            Link { source: Some(source), name, line }
        },
        None => Link { source: None, name: string_of(&t), line },
    }
}

} // verus!
