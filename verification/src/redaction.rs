//! Turning detected token spans into character spans, placeholders and a
//! redacted text.

use vstd::prelude::*;

use crate::config::{pairs_view, placeholder_for, placeholder_spec};
use crate::decode::{strings_view, LabelSpace, RawSpan};
use crate::text::{is_whitespace, push_range, spec_is_whitespace, string_from_chars, sub_chars, to_chars};

verus! {

/// Bytes that `c` takes in UTF-8 (`char::len_utf8`).
pub open spec fn char_width(c: char) -> int {
    let u = c as u32;
    if u < 0x80 {
        1
    } else if u < 0x800 {
        2
    } else if u < 0x10000 {
        3
    } else {
        4
    }
}

/// Bytes that `chars` take in UTF-8.
pub open spec fn byte_len(chars: Seq<char>) -> int
    decreases chars.len(),
{
    if chars.len() == 0 {
        0
    } else {
        char_width(chars[0]) + byte_len(chars.drop_first())
    }
}

/// Index of the character that holds byte `b` of the UTF-8 encoding of
/// `chars`; `chars.len()` for the byte just past the end.
pub open spec fn char_at_byte(chars: Seq<char>, b: int) -> int
    decreases chars.len(),
{
    if chars.len() == 0 {
        0
    } else if b < char_width(chars[0]) {
        0
    } else {
        1 + char_at_byte(chars.drop_first(), b - char_width(chars[0]))
    }
}

/// `char::len_utf8`.
pub fn utf8_width(c: char) -> (w: usize)
    ensures
        w == char_width(c),
        1 <= w <= 4,
{
    let u = c as u32;
    if u < 0x80 {
        1
    } else if u < 0x800 {
        2
    } else if u < 0x10000 {
        3
    } else {
        4
    }
}

proof fn lemma_byte_len_take(s: Seq<char>, i: int)
    requires
        0 < i <= s.len(),
    ensures
        byte_len(s.take(i)) == char_width(s[0]) + byte_len(s.drop_first().take(i - 1)),
{
    assert(s.take(i).drop_first() =~= s.drop_first().take(i - 1));
}

proof fn lemma_byte_len_push(s: Seq<char>, c: char)
    ensures
        byte_len(s.push(c)) == byte_len(s) + char_width(c),
    decreases s.len(),
{
    if s.len() > 0 {
        assert(s.push(c).drop_first() =~= s.drop_first().push(c));
        assert(s.push(c)[0] == s[0]);
        lemma_byte_len_push(s.drop_first(), c);
    } else {
        assert(s.push(c).drop_first() =~= Seq::<char>::empty());
        assert(s.push(c)[0] == c);
        assert(byte_len(s.push(c).drop_first()) == 0);
        assert(byte_len(s) == 0);
    }
}

proof fn lemma_char_at_byte_in(s: Seq<char>, i: int, b: int)
    requires
        0 <= i < s.len(),
        byte_len(s.take(i)) <= b < byte_len(s.take(i + 1)),
    ensures
        char_at_byte(s, b) == i,
    decreases i,
{
    lemma_byte_len_take(s, i + 1);
    if i > 0 {
        lemma_byte_len_take(s, i);
        lemma_byte_len_nonneg(s.drop_first().take(i - 1));
        lemma_char_at_byte_in(s.drop_first(), i - 1, b - char_width(s[0]));
    } else {
        assert(s.take(0) =~= Seq::<char>::empty());
        assert(s.drop_first().take(0) =~= Seq::<char>::empty());
    }
}

proof fn lemma_byte_len_nonneg(s: Seq<char>)
    ensures
        byte_len(s) >= 0,
    decreases s.len(),
{
    if s.len() > 0 {
        lemma_byte_len_nonneg(s.drop_first());
    }
}

proof fn lemma_char_at_byte_end(s: Seq<char>)
    ensures
        char_at_byte(s, byte_len(s)) == s.len(),
    decreases s.len(),
{
    if s.len() > 0 {
        lemma_byte_len_nonneg(s.drop_first());
        lemma_char_at_byte_end(s.drop_first());
    }
}

/// For each byte of the UTF-8 encoding of `chars` (and the end position),
/// the index of the character it belongs to.
fn byte_to_char_table(chars: &Vec<char>) -> (t: Vec<usize>)
    ensures
        t@.len() == byte_len(chars@) + 1,
        t@.len() >= 1,
        forall|b: int| 0 <= b < t@.len() ==> #[trigger] t@[b] == char_at_byte(chars@, b),
{
    let mut table: Vec<usize> = Vec::new();
    let mut i: usize = 0;
    assert(chars@.take(0) =~= Seq::<char>::empty());
    while i < chars.len()
        invariant
            i <= chars.len(),
            table@.len() == byte_len(chars@.take(i as int)),
            forall|b: int| 0 <= b < table@.len() ==> #[trigger] table@[b] == char_at_byte(chars@, b),
        decreases chars.len() - i,
    {
        let w = utf8_width(chars[i]);
        proof {
            assert(chars@.take(i + 1) =~= chars@.take(i as int).push(chars@[i as int]));
            lemma_byte_len_push(chars@.take(i as int), chars@[i as int]);
        }
        let ghost lo = table@.len();
        let mut k: usize = 0;
        while k < w
            invariant
                k <= w,
                w == char_width(chars@[i as int]),
                i < chars.len(),
                table@.len() == lo + k,
                lo == byte_len(chars@.take(i as int)),
                lo + w == byte_len(chars@.take(i + 1)),
                forall|b: int| 0 <= b < table@.len() ==> #[trigger] table@[b] == char_at_byte(chars@, b),
            decreases w - k,
        {
            proof {
                lemma_char_at_byte_in(chars@, i as int, lo + k);
            }
            table.push(i);
            k += 1;
        }
        i += 1;
    }
    proof {
        assert(chars@.take(chars.len() as int) =~= chars@);
        lemma_char_at_byte_end(chars@);
        lemma_byte_len_nonneg(chars@);
    }
    table.push(chars.len());
    table
}

/// A character takes as many bytes as its UTF-8 encoding, and a text as
/// many as the UTF-8 encoding of its characters.
pub proof fn lemma_widths_are_utf8(c: char, s: Seq<char>)
    ensures
        char_width(c) == vstd::utf8::encode_scalar(c as u32).len(),
        byte_len(s) == vstd::utf8::encode_utf8(s).len(),
    decreases s.len(),
{
    broadcast use vstd::utf8::char_is_scalar;

    if s.len() > 0 {
        lemma_widths_are_utf8(s[0], s.drop_first());
    }
}

proof fn lemma_byte_len_prefix(s: Seq<char>, k: int)
    requires
        0 <= k <= s.len(),
    ensures
        byte_len(s.take(k)) <= byte_len(s),
    decreases s.len() - k,
{
    if k < s.len() {
        assert(s.take(k + 1) =~= s.take(k).push(s[k]));
        lemma_byte_len_push(s.take(k), s[k]);
        lemma_byte_len_prefix(s, k + 1);
    } else {
        assert(s.take(k) =~= s);
    }
}

/// Byte offsets follow the UTF-8 encoding of the text: every byte of the
/// encoding of character `i` (which begins where the encoding of the
/// characters before it ends) converts to character offset `i`, and the
/// end of the encoding converts to the number of characters.
pub proof fn lemma_char_offsets_follow_utf8(chars: Seq<char>, i: int, b: int)
    requires
        chars.len() <= usize::MAX,
    ensures
        0 <= i < chars.len() && vstd::utf8::encode_utf8(chars.take(i)).len() <= b
            < vstd::utf8::encode_utf8(chars.take(i + 1)).len() ==> char_offset_of(chars, b) == i,
        char_offset_of(chars, vstd::utf8::encode_utf8(chars).len() as int) == chars.len(),
{
    lemma_widths_are_utf8('a', chars);
    lemma_char_at_byte_end(chars);
    if 0 <= i < chars.len() {
        lemma_widths_are_utf8('a', chars.take(i));
        lemma_widths_are_utf8('a', chars.take(i + 1));
        if vstd::utf8::encode_utf8(chars.take(i)).len() <= b < vstd::utf8::encode_utf8(chars.take(i + 1)).len() {
            lemma_char_at_byte_in(chars, i, b);
            lemma_byte_len_prefix(chars, i + 1);
        }
    }
}

/// The character that byte position `b` of the UTF-8 encoding of `chars`
/// falls in (the end position maps to `chars.len()`); a position past the
/// end maps to `chars.len()` as well.
pub open spec fn char_offset_of(chars: Seq<char>, b: int) -> usize {
    if b <= byte_len(chars) {
        char_at_byte(chars, b) as usize
    } else {
        chars.len() as usize
    }
}

/// Byte offsets turned into character offsets (see `char_offset_of`).
pub open spec fn char_offsets_spec(chars: Seq<char>, bytes: Seq<(usize, usize)>) -> Seq<(usize, usize)> {
    Seq::new(
        bytes.len(),
        |i: int| (char_offset_of(chars, bytes[i].0 as int), char_offset_of(chars, bytes[i].1 as int)),
    )
}

proof fn lemma_char_at_byte_bound(s: Seq<char>, b: int)
    requires
        0 <= b <= byte_len(s),
    ensures
        0 <= char_at_byte(s, b) <= s.len(),
    decreases s.len(),
{
    if s.len() > 0 && b >= char_width(s[0]) {
        lemma_char_at_byte_bound(s.drop_first(), b - char_width(s[0]));
    }
}

/// The number of bytes of the UTF-8 encoding of `chars`.
pub fn utf8_len(chars: &Vec<char>) -> (n: usize)
    ensures
        n == byte_len(chars@),
{
    let table = byte_to_char_table(chars);
    table.len() - 1
}

/// Maps byte offsets into `chars` (as a tokenizer reports them) to
/// character offsets; an offset past the end of the text maps to the end.
pub fn char_offsets(chars: &Vec<char>, bytes: &Vec<(usize, usize)>) -> (r: Vec<(usize, usize)>)
    ensures
        r@ == char_offsets_spec(chars@, bytes@),
        forall|i: int| 0 <= i < r@.len() ==> (#[trigger] r@[i]).0 <= chars@.len() && r@[i].1 <= chars@.len(),
{
    let table = byte_to_char_table(chars);
    let total = table.len() - 1;
    let n = chars.len();
    let mut out: Vec<(usize, usize)> = Vec::new();
    let mut i: usize = 0;
    while i < bytes.len()
        invariant
            i <= bytes.len(),
            n == chars@.len(),
            total == byte_len(chars@),
            table@.len() == total + 1,
            forall|b: int| 0 <= b < table@.len() ==> #[trigger] table@[b] == char_at_byte(chars@, b),
            out@.len() == i,
            forall|j: int|
                0 <= j < i ==> #[trigger] out@[j] == (
                    char_offset_of(chars@, bytes@[j].0 as int),
                    char_offset_of(chars@, bytes@[j].1 as int),
                ),
            forall|j: int| 0 <= j < i ==> (#[trigger] out@[j]).0 <= n && out@[j].1 <= n,
        decreases bytes.len() - i,
    {
        let (s, e) = bytes[i];
        let cs = if s <= total {
            proof {
                lemma_char_at_byte_bound(chars@, s as int);
            }
            table[s]
        } else {
            n
        };
        let ce = if e <= total {
            proof {
                lemma_char_at_byte_bound(chars@, e as int);
            }
            table[e]
        } else {
            n
        };
        out.push((cs, ce));
        i += 1;
    }
    assert(out@ =~= char_offsets_spec(chars@, bytes@));
    out
}

/// One redacted entity: its name, its characters `start..end` in the
/// text, those characters, and the placeholder put in their stead.
#[derive(Debug, Clone)]
pub struct DetectedSpan {
    pub label: String,
    pub start: usize,
    pub end: usize,
    pub text: String,
    pub placeholder: String,
}

/// A detected span by the characters of its strings:
/// `(label, start, end, text, placeholder)`.
pub open spec fn span_view(d: DetectedSpan) -> (Seq<char>, usize, usize, Seq<char>, Seq<char>) {
    (d.label@, d.start, d.end, d.text@, d.placeholder@)
}

pub open spec fn spans_view(v: Seq<DetectedSpan>) -> Seq<(Seq<char>, usize, usize, Seq<char>, Seq<char>)> {
    v.map_values(|d: DetectedSpan| span_view(d))
}

/// The text with its entities replaced, the spans found, and how many spans
/// each entity has (in order of first appearance).
#[derive(Debug, Clone)]
pub struct Redaction {
    pub text: String,
    pub redacted_text: String,
    pub detected_spans: Vec<DetectedSpan>,
    pub summary: Vec<(String, u32)>,
}

/// First position at or after `s` (and before `e`) that is not white space.
pub open spec fn trim_lo(chars: Seq<char>, s: int, e: int) -> int
    decreases e - s,
{
    if s < e && 0 <= s < chars.len() && spec_is_whitespace(chars[s]) {
        trim_lo(chars, s + 1, e)
    } else {
        s
    }
}

/// End of `s..e` once trailing white space is dropped.
pub open spec fn trim_hi(chars: Seq<char>, s: int, e: int) -> int
    decreases e - s,
{
    if e > s && 0 <= e - 1 < chars.len() && spec_is_whitespace(chars[e - 1]) {
        trim_hi(chars, s, e - 1)
    } else {
        e
    }
}

/// The detected span that a raw token span gives: the characters from the
/// start of its first token to the end of its last, without surrounding
/// white space; nothing if that is empty.
pub open spec fn detect_one(
    chars: Seq<char>,
    offs: Seq<(usize, usize)>,
    names: Seq<Seq<char>>,
    pm: Seq<(Seq<char>, Seq<char>)>,
    raw: RawSpan,
) -> Option<(Seq<char>, usize, usize, Seq<char>, Seq<char>)> {
    let label = names[raw.entity as int];
    let s0 = offs[raw.start_token as int].0 as int;
    let e0 = offs[raw.end_token as int].1 as int;
    let s = trim_lo(chars, s0, e0);
    let e = trim_hi(chars, s, e0);
    if s >= e {
        None
    } else {
        Some((label, s as usize, e as usize, chars.subrange(s, e), placeholder_spec(pm, label)))
    }
}

/// The detected spans of all raw spans, in order.
pub open spec fn detect_all(
    chars: Seq<char>,
    offs: Seq<(usize, usize)>,
    names: Seq<Seq<char>>,
    pm: Seq<(Seq<char>, Seq<char>)>,
    raws: Seq<RawSpan>,
) -> Seq<(Seq<char>, usize, usize, Seq<char>, Seq<char>)>
    decreases raws.len(),
{
    if raws.len() == 0 {
        Seq::empty()
    } else {
        let rest = detect_all(chars, offs, names, pm, raws.drop_last());
        match detect_one(chars, offs, names, pm, raws.last()) {
            Some(d) => rest.push(d),
            None => rest,
        }
    }
}

/// The redacted text from `cursor` on: the text before each span (when
/// the span starts after the cursor), then its placeholder; after the last
/// span, the rest of the text.
pub open spec fn redact_from(
    chars: Seq<char>,
    spans: Seq<(Seq<char>, usize, usize, Seq<char>, Seq<char>)>,
    cursor: int,
) -> Seq<char>
    decreases spans.len(),
{
    if spans.len() == 0 {
        if cursor < chars.len() {
            chars.subrange(cursor, chars.len() as int)
        } else {
            Seq::empty()
        }
    } else {
        let d = spans[0];
        let gap = if d.1 > cursor {
            chars.subrange(cursor, d.1 as int)
        } else {
            Seq::empty()
        };
        gap + d.4 + redact_from(chars, spans.drop_first(), d.2 as int)
    }
}

/// First index at or after `i` whose key is `key`, or `s.len()`.
pub open spec fn key_index(s: Seq<(Seq<char>, nat)>, key: Seq<char>, i: int) -> int
    decreases s.len() - i,
{
    if i < 0 || i >= s.len() {
        s.len() as int
    } else if s[i].0 == key {
        i
    } else {
        key_index(s, key, i + 1)
    }
}

/// How many times each label occurs, in order of first occurrence.
pub open spec fn summary_of(labels: Seq<Seq<char>>) -> Seq<(Seq<char>, nat)>
    decreases labels.len(),
{
    if labels.len() == 0 {
        Seq::empty()
    } else {
        let s = summary_of(labels.drop_last());
        let l = labels.last();
        let j = key_index(s, l, 0);
        if j < s.len() {
            s.update(j, (l, s[j].1 + 1))
        } else {
            s.push((l, 1))
        }
    }
}

/// The labels of detected spans.
pub open spec fn span_labels(spans: Seq<(Seq<char>, usize, usize, Seq<char>, Seq<char>)>) -> Seq<Seq<char>> {
    spans.map_values(|d: (Seq<char>, usize, usize, Seq<char>, Seq<char>)| d.0)
}

pub open spec fn summary_view(v: Seq<(String, u32)>) -> Seq<(Seq<char>, nat)> {
    v.map_values(|p: (String, u32)| (p.0@, p.1 as nat))
}

/// What the redactor requires of its inputs: character offsets within the
/// text, and raw spans whose tokens and entity exist.
pub open spec fn redaction_inputs_ok(
    chars: Seq<char>,
    offs: Seq<(usize, usize)>,
    raws: Seq<RawSpan>,
    n_names: int,
) -> bool {
    &&& forall|i: int|
        0 <= i < offs.len() ==> (#[trigger] offs[i]).0 <= chars.len() && offs[i].1 <= chars.len()
    &&& forall|k: int|
        0 <= k < raws.len() ==> (#[trigger] raws[k]).start_token < offs.len()
            && raws[k].end_token < offs.len() && raws[k].entity < n_names
}

proof fn lemma_trim_lo(chars: Seq<char>, s: int, e: int)
    requires
        0 <= s,
    ensures
        s <= trim_lo(chars, s, e),
        s <= e ==> trim_lo(chars, s, e) <= e,
    decreases e - s,
{
    if s < e && 0 <= s < chars.len() && spec_is_whitespace(chars[s]) {
        lemma_trim_lo(chars, s + 1, e);
    }
}

proof fn lemma_trim_hi(chars: Seq<char>, s: int, e: int)
    ensures
        trim_hi(chars, s, e) <= e,
        s <= e ==> s <= trim_hi(chars, s, e),
    decreases e - s,
{
    if e > s && 0 <= e - 1 < chars.len() && spec_is_whitespace(chars[e - 1]) {
        lemma_trim_hi(chars, s, e - 1);
    }
}

fn detect_span(
    chars: &Vec<char>,
    offsets: &Vec<(usize, usize)>,
    raw: RawSpan,
    space: &LabelSpace,
    placeholders: &Vec<(String, String)>,
) -> (r: Option<DetectedSpan>)
    requires
        redaction_inputs_ok(chars@, offsets@, seq![raw], space.entity_names@.len() as int),
    ensures
        match r {
            Some(d) => detect_one(
                chars@,
                offsets@,
                strings_view(space.entity_names@),
                pairs_view(placeholders@),
                raw,
            ) == Some(span_view(d)),
            None => detect_one(
                chars@,
                offsets@,
                strings_view(space.entity_names@),
                pairs_view(placeholders@),
                raw,
            ) is None,
        },
        r matches Some(d) ==> d.start < d.end <= chars@.len(),
{
    assert(seq![raw][0] == raw);
    let label = &space.entity_names[raw.entity];
    let s0 = offsets[raw.start_token].0;
    let e0 = offsets[raw.end_token].1;
    let mut s = s0;
    while s < e0 && is_whitespace(chars[s])
        invariant
            s0 <= s,
            e0 <= chars.len(),
            trim_lo(chars@, s0 as int, e0 as int) == trim_lo(chars@, s as int, e0 as int),
        decreases e0 - s,
    {
        s += 1;
    }
    let mut e = e0;
    while e > s && is_whitespace(chars[e - 1])
        invariant
            e <= e0 <= chars.len(),
            trim_hi(chars@, s as int, e0 as int) == trim_hi(chars@, s as int, e as int),
        decreases e,
    {
        e -= 1;
    }
    if s >= e {
        return None;
    }
    let text = string_from_chars(sub_chars(chars, s, e).as_slice());
    let placeholder = placeholder_for(placeholders, label);
    assert(strings_view(space.entity_names@)[raw.entity as int] == label@);
    Some(DetectedSpan { label: label.clone(), start: s, end: e, text, placeholder })
}

/// Builds the redaction of `text`: each raw span becomes a detected span
/// (see `detect_one`), the redacted text replaces the detected spans by
/// their placeholders (see `redact_from`), and the summary counts the
/// detected spans of each entity. `offsets` are the character offsets of
/// the tokens.
pub fn assemble_redaction(
    text: &String,
    offsets: &Vec<(usize, usize)>,
    raw_spans: &Vec<RawSpan>,
    space: &LabelSpace,
    placeholders: &Vec<(String, String)>,
) -> (r: Redaction)
    requires
        redaction_inputs_ok(text@, offsets@, raw_spans@, space.entity_names@.len() as int),
        raw_spans.len() <= u32::MAX,
    ensures
        r.text@ == text@,
        spans_view(r.detected_spans@) == detect_all(
            text@,
            offsets@,
            strings_view(space.entity_names@),
            pairs_view(placeholders@),
            raw_spans@,
        ),
        r.redacted_text@ == redact_from(text@, spans_view(r.detected_spans@), 0),
        summary_view(r.summary@) == summary_of(span_labels(spans_view(r.detected_spans@))),
{
    let chars = to_chars(text.as_str());
    let ghost names = strings_view(space.entity_names@);
    let ghost pm = pairs_view(placeholders@);
    // detected spans
    let mut detected: Vec<DetectedSpan> = Vec::new();
    let mut k: usize = 0;
    while k < raw_spans.len()
        invariant
            k <= raw_spans.len(),
            chars@ == text@,
            names == strings_view(space.entity_names@),
            pm == pairs_view(placeholders@),
            redaction_inputs_ok(chars@, offsets@, raw_spans@, space.entity_names@.len() as int),
            spans_view(detected@) == detect_all(chars@, offsets@, names, pm, raw_spans@.take(k as int)),
            detected@.len() <= k,
            forall|j: int| 0 <= j < detected@.len() ==> (#[trigger] detected@[j]).start < detected@[j].end <= chars@.len(),
        decreases raw_spans.len() - k,
    {
        let raw = raw_spans[k];
        assert(raw_spans@.take(k + 1).drop_last() =~= raw_spans@.take(k as int));
        assert(raw_spans@.take(k + 1).last() == raw);
        assert(redaction_inputs_ok(chars@, offsets@, seq![raw], space.entity_names@.len() as int)) by {
            assert(raw_spans@[k as int] == raw);
            assert(seq![raw][0] == raw);
        }
        match detect_span(&chars, offsets, raw, space, placeholders) {
            Some(d) => {
                detected.push(d);
                assert(spans_view(detected@) =~= spans_view(detected@.drop_last()).push(span_view(d)));
            },
            None => {},
        }
        k += 1;
    }
    assert(raw_spans@.take(raw_spans.len() as int) =~= raw_spans@);
    let ghost dv = spans_view(detected@);
    // redacted text
    let mut out: Vec<char> = Vec::new();
    let mut cursor: usize = 0;
    let mut i: usize = 0;
    assert(dv.skip(0) =~= dv);
    while i < detected.len()
        invariant
            i <= detected.len(),
            dv == spans_view(detected@),
            cursor <= chars@.len(),
            forall|j: int| 0 <= j < detected@.len() ==> (#[trigger] detected@[j]).start < detected@[j].end <= chars@.len(),
            out@ + redact_from(chars@, dv.skip(i as int), cursor as int) == redact_from(chars@, dv, 0),
        decreases detected.len() - i,
    {
        let ghost before = out@;
        let d = &detected[i];
        assert(dv.skip(i as int)[0] == span_view(detected@[i as int]));
        assert(dv.skip(i as int).drop_first() =~= dv.skip(i + 1));
        if d.start > cursor {
            push_range(&mut out, &chars, cursor, d.start);
        }
        let p = to_chars(d.placeholder.as_str());
        push_range(&mut out, &p, 0, p.len());
        assert(p@.subrange(0, p@.len() as int) =~= p@);
        proof {
            let gap = if d.start > cursor {
                chars@.subrange(cursor as int, d.start as int)
            } else {
                Seq::empty()
            };
            assert(out@ == before + gap + d.placeholder@);
            assert(redact_from(chars@, dv.skip(i as int), cursor as int) == gap + d.placeholder@
                + redact_from(chars@, dv.skip(i + 1), d.end as int));
            assert(out@ + redact_from(chars@, dv.skip(i + 1), d.end as int) =~= before
                + redact_from(chars@, dv.skip(i as int), cursor as int));
        }
        cursor = d.end;
        i += 1;
    }
    assert(dv.skip(i as int) =~= Seq::<(Seq<char>, usize, usize, Seq<char>, Seq<char>)>::empty());
    let ghost before = out@;
    push_range(&mut out, &chars, cursor, chars.len());
    assert(out@ =~= before + redact_from(chars@, dv.skip(i as int), cursor as int));
    let redacted_text = string_from_chars(out.as_slice());
    // summary
    let ghost labels = span_labels(dv);
    let mut summary: Vec<(String, u32)> = Vec::new();
    let mut m: usize = 0;
    assert(labels.take(0) =~= Seq::<Seq<char>>::empty());
    assert(summary_view(summary@) =~= Seq::<(Seq<char>, nat)>::empty());
    while m < detected.len()
        invariant
            m <= detected.len(),
            detected.len() <= raw_spans.len() <= u32::MAX,
            dv == spans_view(detected@),
            labels == span_labels(dv),
            summary_view(summary@) == summary_of(labels.take(m as int)),
            forall|j: int| 0 <= j < summary@.len() ==> (#[trigger] summary@[j]).1 <= m,
        decreases detected.len() - m,
    {
        let label = &detected[m].label;
        assert(labels.take(m + 1).drop_last() =~= labels.take(m as int));
        assert(labels.take(m + 1).last() == label@);
        let ghost sv = summary_view(summary@);
        let mut j: usize = 0;
        while j < summary.len()
            invariant
                j <= summary.len(),
                sv == summary_view(summary@),
                key_index(sv, label@, 0) == key_index(sv, label@, j as int),
            ensures
                j <= summary.len(),
                key_index(sv, label@, 0) == key_index(sv, label@, j as int),
                j < summary.len() ==> sv[j as int].0 == label@,
            decreases summary.len() - j,
        {
            if summary[j].0 == *label {
                break ;
            }
            assert(sv[j as int].0 != label@);
            j += 1;
        }
        if j < summary.len() {
            assert(sv[j as int].0 == label@);
            let n = summary[j].1;
            let key = summary[j].0.clone();
            summary.set(j, (key, n + 1));
            assert(summary_view(summary@) =~= sv.update(j as int, (label@, sv[j as int].1 + 1)));
        } else {
            summary.push((label.clone(), 1));
            assert(summary_view(summary@) =~= sv.push((label@, 1)));
        }
        m += 1;
    }
    assert(labels.take(detected.len() as int) =~= labels);
    Redaction { text: text.clone(), redacted_text, detected_spans: detected, summary }
}

/// A detected span as the redactor reports it: a non-empty range of the
/// text whose characters it holds, with no white space at either end.
pub open spec fn detected_span_ok(
    chars: Seq<char>,
    pm: Seq<(Seq<char>, Seq<char>)>,
    d: (Seq<char>, usize, usize, Seq<char>, Seq<char>),
) -> bool {
    &&& d.1 < d.2 <= chars.len()
    &&& d.3 == chars.subrange(d.1 as int, d.2 as int)
    &&& !spec_is_whitespace(chars[d.1 as int])
    &&& !spec_is_whitespace(chars[d.2 - 1])
    &&& d.4 == placeholder_spec(pm, d.0)
}

proof fn lemma_trim_result(chars: Seq<char>, s: int, e: int)
    requires
        0 <= s,
        e <= chars.len(),
    ensures
        trim_lo(chars, s, e) < e ==> !spec_is_whitespace(chars[trim_lo(chars, s, e)]),
        trim_hi(chars, s, e) > s ==> !spec_is_whitespace(chars[trim_hi(chars, s, e) - 1]),
    decreases e - s,
{
    if s < e && spec_is_whitespace(chars[s]) {
        lemma_trim_result(chars, s + 1, e);
    }
    lemma_trim_hi_result(chars, s, e);
}

proof fn lemma_trim_hi_result(chars: Seq<char>, s: int, e: int)
    requires
        0 <= s,
        e <= chars.len(),
    ensures
        trim_hi(chars, s, e) > s ==> !spec_is_whitespace(chars[trim_hi(chars, s, e) - 1]),
    decreases e - s,
{
    if e > s && spec_is_whitespace(chars[e - 1]) {
        lemma_trim_hi_result(chars, s, e - 1);
    }
}

proof fn lemma_detect_one(
    chars: Seq<char>,
    offs: Seq<(usize, usize)>,
    names: Seq<Seq<char>>,
    pm: Seq<(Seq<char>, Seq<char>)>,
    raw: RawSpan,
)
    requires
        redaction_inputs_ok(chars, offs, seq![raw], names.len() as int),
    ensures
        detect_one(chars, offs, names, pm, raw) matches Some(d) ==> {
            &&& detected_span_ok(chars, pm, d)
            &&& d.0 == names[raw.entity as int]
            &&& offs[raw.start_token as int].0 <= d.1
            &&& d.2 <= offs[raw.end_token as int].1
        },
{
    assert(seq![raw][0] == raw);
    let s0 = offs[raw.start_token as int].0 as int;
    let e0 = offs[raw.end_token as int].1 as int;
    lemma_trim_lo(chars, s0, e0);
    let s = trim_lo(chars, s0, e0);
    lemma_trim_hi(chars, s, e0);
    lemma_trim_result(chars, s0, e0);
    if s < e0 {
        lemma_trim_hi_result(chars, s, e0);
    }
}

/// Every detected span is a non-empty range of the text that holds exactly
/// its characters, starts and ends with a character that is not white
/// space, and carries the placeholder of its entity.
pub proof fn lemma_detected_spans_ok(
    chars: Seq<char>,
    offs: Seq<(usize, usize)>,
    names: Seq<Seq<char>>,
    pm: Seq<(Seq<char>, Seq<char>)>,
    raws: Seq<RawSpan>,
)
    requires
        redaction_inputs_ok(chars, offs, raws, names.len() as int),
    ensures
        forall|k: int|
            0 <= k < detect_all(chars, offs, names, pm, raws).len() ==> detected_span_ok(
                chars,
                pm,
                #[trigger] detect_all(chars, offs, names, pm, raws)[k],
            ),
    decreases raws.len(),
{
    if raws.len() > 0 {
        let p = raws.drop_last();
        assert(redaction_inputs_ok(chars, offs, p, names.len() as int)) by {
            assert forall|k: int| 0 <= k < p.len() implies (#[trigger] p[k]).start_token < offs.len()
                && p[k].end_token < offs.len() && p[k].entity < names.len() by {
                assert(p[k] == raws[k]);
            }
        }
        lemma_detected_spans_ok(chars, offs, names, pm, p);
        let last = raws.last();
        assert(redaction_inputs_ok(chars, offs, seq![last], names.len() as int)) by {
            assert(seq![last][0] == raws[raws.len() - 1]);
        }
        lemma_detect_one(chars, offs, names, pm, last);
        let prev = detect_all(chars, offs, names, pm, p);
        let all = detect_all(chars, offs, names, pm, raws);
        match detect_one(chars, offs, names, pm, last) {
            Some(d) => {
                assert(all == prev.push(d));
                assert forall|k: int| 0 <= k < all.len() implies detected_span_ok(
                    chars,
                    pm,
                    #[trigger] all[k],
                ) by {
                    if k < prev.len() {
                        assert(all[k] == prev[k]);
                    }
                }
            },
            None => {
                assert(all == prev);
            },
        }
    }
}

/// Some character of `s..e` is not white space.
pub open spec fn has_text(chars: Seq<char>, s: int, e: int) -> bool {
    exists|i: int| s <= i < e && !spec_is_whitespace(#[trigger] chars[i])
}

proof fn lemma_trim_lo_ws(chars: Seq<char>, s: int, e: int)
    requires
        0 <= s,
        e <= chars.len(),
    ensures
        forall|i: int| s <= i < trim_lo(chars, s, e) ==> spec_is_whitespace(#[trigger] chars[i]),
    decreases e - s,
{
    if s < e && spec_is_whitespace(chars[s]) {
        lemma_trim_lo_ws(chars, s + 1, e);
    }
}

proof fn lemma_trim_hi_ws(chars: Seq<char>, s: int, e: int)
    requires
        0 <= s,
        e <= chars.len(),
    ensures
        forall|i: int| trim_hi(chars, s, e) <= i < e ==> spec_is_whitespace(#[trigger] chars[i]),
    decreases e - s,
{
    if e > s && spec_is_whitespace(chars[e - 1]) {
        lemma_trim_hi_ws(chars, s, e - 1);
    }
}

/// A raw span is detected exactly when the characters from the start of
/// its first token to the end of its last hold something other than white
/// space, whatever those characters are; the detected span is then that
/// range less its leading and trailing white space, with those characters
/// and the span's entity name.
pub proof fn lemma_detect_one_exact(
    chars: Seq<char>,
    offs: Seq<(usize, usize)>,
    names: Seq<Seq<char>>,
    pm: Seq<(Seq<char>, Seq<char>)>,
    raw: RawSpan,
)
    requires
        redaction_inputs_ok(chars, offs, seq![raw], names.len() as int),
    ensures
        ({
            let s0 = offs[raw.start_token as int].0 as int;
            let e0 = offs[raw.end_token as int].1 as int;
            &&& detect_one(chars, offs, names, pm, raw) is Some <==> has_text(chars, s0, e0)
            &&& detect_one(chars, offs, names, pm, raw) matches Some(d) ==> {
                &&& d.0 == names[raw.entity as int]
                &&& s0 <= d.1 < d.2 <= e0
                &&& !spec_is_whitespace(chars[d.1 as int])
                &&& !spec_is_whitespace(chars[d.2 - 1])
                &&& forall|i: int| s0 <= i < d.1 ==> spec_is_whitespace(#[trigger] chars[i])
                &&& forall|i: int| d.2 <= i < e0 ==> spec_is_whitespace(#[trigger] chars[i])
                &&& d.3 == chars.subrange(d.1 as int, d.2 as int)
            }
        }),
{
    assert(seq![raw][0] == raw);
    let s0 = offs[raw.start_token as int].0 as int;
    let e0 = offs[raw.end_token as int].1 as int;
    lemma_trim_lo(chars, s0, e0);
    let s = trim_lo(chars, s0, e0);
    lemma_trim_hi(chars, s, e0);
    let e = trim_hi(chars, s, e0);
    lemma_trim_result(chars, s0, e0);
    lemma_trim_lo_ws(chars, s0, e0);
    if s0 <= e0 {
        lemma_trim_hi_ws(chars, s, e0);
    }
    if s < e0 {
        lemma_trim_hi_result(chars, s, e0);
    }
    if s >= e {
        assert(!has_text(chars, s0, e0)) by {
            if has_text(chars, s0, e0) {
                let i = choose|i: int| s0 <= i < e0 && !spec_is_whitespace(#[trigger] chars[i]);
                if i < s {
                } else {
                    assert(e <= i);
                }
            }
        }
    } else {
        assert(!spec_is_whitespace(chars[s]));
        assert(has_text(chars, s0, e0));
    }
}

/// The raw spans whose characters hold more than white space.
pub open spec fn raws_with_text(chars: Seq<char>, offs: Seq<(usize, usize)>, raws: Seq<RawSpan>) -> Seq<RawSpan> {
    raws.filter(
        |r: RawSpan| has_text(chars, offs[r.start_token as int].0 as int, offs[r.end_token as int].1 as int),
    )
}

/// No raw span that holds text is lost: there is one detected span for
/// each raw span whose characters hold more than white space, in order,
/// and each is what that raw span gives.
pub proof fn lemma_detect_all_complete(
    chars: Seq<char>,
    offs: Seq<(usize, usize)>,
    names: Seq<Seq<char>>,
    pm: Seq<(Seq<char>, Seq<char>)>,
    raws: Seq<RawSpan>,
)
    requires
        redaction_inputs_ok(chars, offs, raws, names.len() as int),
    ensures
        detect_all(chars, offs, names, pm, raws).len() == raws_with_text(chars, offs, raws).len(),
        forall|k: int|
            0 <= k < raws_with_text(chars, offs, raws).len() ==> detect_one(
                chars,
                offs,
                names,
                pm,
                #[trigger] raws_with_text(chars, offs, raws)[k],
            ) == Some(detect_all(chars, offs, names, pm, raws)[k]),
    decreases raws.len(),
{
    let pred = |r: RawSpan| has_text(chars, offs[r.start_token as int].0 as int, offs[r.end_token as int].1 as int);
    if raws.len() == 0 {
        assert(raws.filter(pred) =~= Seq::<RawSpan>::empty());
    } else {
        let p = raws.drop_last();
        let x = raws.last();
        assert(redaction_inputs_ok(chars, offs, p, names.len() as int)) by {
            assert forall|k: int| 0 <= k < p.len() implies (#[trigger] p[k]).start_token < offs.len()
                && p[k].end_token < offs.len() && p[k].entity < names.len() by {
                assert(p[k] == raws[k]);
            }
        }
        lemma_detect_all_complete(chars, offs, names, pm, p);
        assert(redaction_inputs_ok(chars, offs, seq![x], names.len() as int)) by {
            assert(seq![x][0] == raws[raws.len() - 1]);
        }
        lemma_detect_one_exact(chars, offs, names, pm, x);
        assert(raws =~= p.push(x));
        p.lemma_filter_push(x, pred);
        let fp = p.filter(pred);
        let prev = detect_all(chars, offs, names, pm, p);
        let all = detect_all(chars, offs, names, pm, raws);
        if pred(x) {
            assert(raws.filter(pred) == fp.push(x));
            let d = detect_one(chars, offs, names, pm, x)->Some_0;
            assert(all == prev.push(d));
            assert forall|k: int| 0 <= k < raws.filter(pred).len() implies detect_one(
                chars,
                offs,
                names,
                pm,
                #[trigger] raws.filter(pred)[k],
            ) == Some(all[k]) by {
                if k < fp.len() {
                    assert(raws.filter(pred)[k] == fp[k]);
                    assert(all[k] == prev[k]);
                }
            }
        } else {
            assert(raws.filter(pred) == fp);
            assert(all == prev);
        }
    }
}

/// The spans with each placeholder replaced by the span's own text.
pub open spec fn with_own_text(
    spans: Seq<(Seq<char>, usize, usize, Seq<char>, Seq<char>)>,
) -> Seq<(Seq<char>, usize, usize, Seq<char>, Seq<char>)> {
    spans.map_values(|d: (Seq<char>, usize, usize, Seq<char>, Seq<char>)| (d.0, d.1, d.2, d.3, d.3))
}

/// Redaction keeps every character outside the spans, in order: for spans
/// in text order that each hold their own characters, putting each span's
/// text back in place of its placeholder gives the text again (from the
/// cursor on).
pub proof fn lemma_redaction_keeps_other_text(
    chars: Seq<char>,
    spans: Seq<(Seq<char>, usize, usize, Seq<char>, Seq<char>)>,
    cursor: int,
)
    requires
        0 <= cursor <= chars.len(),
        forall|k: int|
            0 <= k < spans.len() ==> (#[trigger] spans[k]).1 <= spans[k].2 <= chars.len() && spans[k].3
                == chars.subrange(spans[k].1 as int, spans[k].2 as int),
        forall|j: int, k: int| 0 <= j < k < spans.len() ==> (#[trigger] spans[j]).2 <= (#[trigger] spans[k]).1,
        spans.len() > 0 ==> cursor <= spans[0].1,
    ensures
        redact_from(chars, with_own_text(spans), cursor) == chars.subrange(cursor, chars.len() as int),
    decreases spans.len(),
{
    let own = with_own_text(spans);
    if spans.len() == 0 {
        assert(chars.subrange(cursor, chars.len() as int) =~= Seq::<char>::empty() || cursor < chars.len());
    } else {
        let d = spans[0];
        let rest = spans.drop_first();
        assert(own[0] == (d.0, d.1, d.2, d.3, d.3));
        assert(own.drop_first() =~= with_own_text(rest));
        assert forall|j: int, k: int| 0 <= j < k < rest.len() implies (#[trigger] rest[j]).2 <= (
        #[trigger] rest[k]).1 by {
            assert(rest[j] == spans[j + 1] && rest[k] == spans[k + 1]);
        }
        assert forall|k: int| 0 <= k < rest.len() implies (#[trigger] rest[k]).1 <= rest[k].2 <= chars.len()
            && rest[k].3 == chars.subrange(rest[k].1 as int, rest[k].2 as int) by {
            assert(rest[k] == spans[k + 1]);
        }
        if rest.len() > 0 {
            assert(rest[0] == spans[1]);
        }
        lemma_redaction_keeps_other_text(chars, rest, d.2 as int);
        let gap = if d.1 > cursor {
            chars.subrange(cursor, d.1 as int)
        } else {
            Seq::empty()
        };
        assert(gap =~= chars.subrange(cursor, d.1 as int));
        assert(chars.subrange(cursor, chars.len() as int) =~= chars.subrange(cursor, d.1 as int)
            + chars.subrange(d.1 as int, d.2 as int) + chars.subrange(d.2 as int, chars.len() as int));
    }
}

/// How many characters the spans cover, and how many their placeholders
/// hold.
pub open spec fn span_lengths(spans: Seq<(Seq<char>, usize, usize, Seq<char>, Seq<char>)>) -> (int, int)
    decreases spans.len(),
{
    if spans.len() == 0 {
        (0, 0)
    } else {
        let r = span_lengths(spans.drop_first());
        (r.0 + spans[0].2 - spans[0].1, r.1 + spans[0].4.len())
    }
}

/// Each span's characters give way to its placeholder: the redacted text
/// is as long as the text (from the cursor on), less the characters the
/// spans cover, plus those of their placeholders.
pub proof fn lemma_redaction_length(
    chars: Seq<char>,
    spans: Seq<(Seq<char>, usize, usize, Seq<char>, Seq<char>)>,
    cursor: int,
)
    requires
        0 <= cursor <= chars.len(),
        forall|k: int| 0 <= k < spans.len() ==> (#[trigger] spans[k]).1 <= spans[k].2 <= chars.len(),
        forall|j: int, k: int| 0 <= j < k < spans.len() ==> (#[trigger] spans[j]).2 <= (#[trigger] spans[k]).1,
        spans.len() > 0 ==> cursor <= spans[0].1,
    ensures
        redact_from(chars, spans, cursor).len() == chars.len() - cursor - span_lengths(spans).0 + span_lengths(
            spans,
        ).1,
    decreases spans.len(),
{
    if spans.len() > 0 {
        let d = spans[0];
        let rest = spans.drop_first();
        assert forall|j: int, k: int| 0 <= j < k < rest.len() implies (#[trigger] rest[j]).2 <= (
        #[trigger] rest[k]).1 by {
            assert(rest[j] == spans[j + 1] && rest[k] == spans[k + 1]);
        }
        assert forall|k: int| 0 <= k < rest.len() implies (#[trigger] rest[k]).1 <= rest[k].2 <= chars.len() by {
            assert(rest[k] == spans[k + 1]);
        }
        if rest.len() > 0 {
            assert(rest[0] == spans[1]);
        }
        lemma_redaction_length(chars, rest, d.2 as int);
    }
}

/// Token offsets that are well formed and in text order: each token starts
/// no later than it ends, and ends no later than any later token starts.
pub open spec fn offsets_in_order(offs: Seq<(usize, usize)>) -> bool {
    &&& forall|i: int| 0 <= i < offs.len() ==> (#[trigger] offs[i]).0 <= offs[i].1
    &&& forall|i: int, j: int| 0 <= i < j < offs.len() ==> (#[trigger] offs[i]).1 <= (#[trigger] offs[j]).0
}

/// Raw spans in strictly increasing, non-overlapping token order.
pub open spec fn raw_spans_in_order(raws: Seq<RawSpan>) -> bool {
    &&& forall|k: int| 0 <= k < raws.len() ==> (#[trigger] raws[k]).start_token <= raws[k].end_token
    &&& forall|j: int, k: int|
        0 <= j < k < raws.len() ==> (#[trigger] raws[j]).end_token < (#[trigger] raws[k]).start_token
}

/// Detected spans in text order, none overlapping the next.
pub open spec fn detected_in_order(ds: Seq<(Seq<char>, usize, usize, Seq<char>, Seq<char>)>) -> bool {
    forall|j: int, k: int| 0 <= j < k < ds.len() ==> (#[trigger] ds[j]).2 <= (#[trigger] ds[k]).1
}

proof fn lemma_detected_order_bound(
    chars: Seq<char>,
    offs: Seq<(usize, usize)>,
    names: Seq<Seq<char>>,
    pm: Seq<(Seq<char>, Seq<char>)>,
    raws: Seq<RawSpan>,
)
    requires
        redaction_inputs_ok(chars, offs, raws, names.len() as int),
        offsets_in_order(offs),
        raw_spans_in_order(raws),
    ensures
        detected_in_order(detect_all(chars, offs, names, pm, raws)),
        raws.len() > 0 ==> forall|k: int|
            0 <= k < detect_all(chars, offs, names, pm, raws).len() ==> (#[trigger] detect_all(
                chars,
                offs,
                names,
                pm,
                raws,
            )[k]).2 <= offs[raws.last().end_token as int].1,
    decreases raws.len(),
{
    if raws.len() > 0 {
        let p = raws.drop_last();
        assert(redaction_inputs_ok(chars, offs, p, names.len() as int)) by {
            assert forall|k: int| 0 <= k < p.len() implies (#[trigger] p[k]).start_token < offs.len()
                && p[k].end_token < offs.len() && p[k].entity < names.len() by {
                assert(p[k] == raws[k]);
            }
        }
        assert(raw_spans_in_order(p)) by {
            assert forall|j: int, k: int| 0 <= j < k < p.len() implies (#[trigger] p[j]).end_token
                < (#[trigger] p[k]).start_token by {
                assert(p[j] == raws[j] && p[k] == raws[k]);
            }
            assert forall|k: int| 0 <= k < p.len() implies (#[trigger] p[k]).start_token
                <= p[k].end_token by {
                assert(p[k] == raws[k]);
            }
        }
        lemma_detected_order_bound(chars, offs, names, pm, p);
        let last = raws.last();
        assert(redaction_inputs_ok(chars, offs, seq![last], names.len() as int)) by {
            assert(seq![last][0] == raws[raws.len() - 1]);
        }
        lemma_detect_one(chars, offs, names, pm, last);
        let prev = detect_all(chars, offs, names, pm, p);
        let all = detect_all(chars, offs, names, pm, raws);
        let b_last = offs[last.end_token as int].1;
        assert(raws[raws.len() - 1] == last);
        assert(last.start_token < offs.len() && last.end_token < offs.len());
        assert(offs[last.start_token as int].0 <= offs[last.start_token as int].1);
        if last.start_token < last.end_token {
            assert(offs[last.start_token as int].1 <= offs[last.end_token as int].0);
        }
        assert(offs[last.end_token as int].0 <= b_last);
        if p.len() > 0 {
            let b_prev = offs[p.last().end_token as int].1;
            assert(p.last() == raws[raws.len() - 2]);
            assert(p.last().end_token < last.start_token);
            assert(b_prev <= offs[last.start_token as int].0);
            assert forall|k: int| 0 <= k < prev.len() implies (#[trigger] prev[k]).2
                <= offs[last.start_token as int].0 by {}
        }
        match detect_one(chars, offs, names, pm, last) {
            Some(d) => {
                assert(all == prev.push(d));
                assert forall|j: int, k: int| 0 <= j < k < all.len() implies (#[trigger] all[j]).2
                    <= (#[trigger] all[k]).1 by {
                    if k < prev.len() {
                        assert(all[j] == prev[j] && all[k] == prev[k]);
                    } else {
                        assert(all[j] == prev[j]);
                        assert(all[k] == d);
                    }
                }
                assert forall|k: int| 0 <= k < all.len() implies (#[trigger] all[k]).2 <= b_last by {
                    if k < prev.len() {
                        assert(all[k] == prev[k]);
                    }
                }
            },
            None => {
                assert(all == prev);
                if p.len() > 0 {
                    assert forall|k: int| 0 <= k < all.len() implies (#[trigger] all[k]).2
                        <= b_last by {
                        assert(all[k] == prev[k]);
                    }
                }
            },
        }
    }
}

/// When the raw spans are in token order and the token offsets in text
/// order, the detected spans are in text order and never overlap.
pub proof fn lemma_detected_spans_in_order(
    chars: Seq<char>,
    offs: Seq<(usize, usize)>,
    names: Seq<Seq<char>>,
    pm: Seq<(Seq<char>, Seq<char>)>,
    raws: Seq<RawSpan>,
)
    requires
        redaction_inputs_ok(chars, offs, raws, names.len() as int),
        offsets_in_order(offs),
        raw_spans_in_order(raws),
    ensures
        detected_in_order(detect_all(chars, offs, names, pm, raws)),
{
    lemma_detected_order_bound(chars, offs, names, pm, raws);
}

/// With no span detected, the redacted text is the text itself.
pub proof fn lemma_nothing_detected_keeps_text(chars: Seq<char>)
    ensures
        redact_from(chars, Seq::empty(), 0) == chars,
{
    assert(chars.len() > 0 ==> chars.subrange(0, chars.len() as int) =~= chars);
}

/// How many entries of `labels` equal `l`.
pub open spec fn occurrences(labels: Seq<Seq<char>>, l: Seq<char>) -> nat
    decreases labels.len(),
{
    if labels.len() == 0 {
        0
    } else {
        occurrences(labels.drop_last(), l) + if labels.last() == l {
            1nat
        } else {
            0nat
        }
    }
}

/// The count that a summary gives for `l` (zero when absent).
pub open spec fn summary_count(s: Seq<(Seq<char>, nat)>, l: Seq<char>) -> nat {
    let j = key_index(s, l, 0);
    if j < s.len() {
        s[j].1
    } else {
        0
    }
}

/// The sum of the counts of a summary.
pub open spec fn summary_total(s: Seq<(Seq<char>, nat)>) -> nat
    decreases s.len(),
{
    if s.len() == 0 {
        0
    } else {
        summary_total(s.drop_last()) + s.last().1
    }
}

/// The keys of a summary are distinct.
pub open spec fn summary_keys_distinct(s: Seq<(Seq<char>, nat)>) -> bool {
    forall|i: int, j: int| 0 <= i < j < s.len() ==> (#[trigger] s[i]).0 != (#[trigger] s[j]).0
}

proof fn lemma_key_index(s: Seq<(Seq<char>, nat)>, l: Seq<char>, i: int)
    requires
        0 <= i <= s.len(),
    ensures
        i <= key_index(s, l, i) <= s.len(),
        key_index(s, l, i) < s.len() ==> s[key_index(s, l, i)].0 == l,
        forall|j: int| i <= j < key_index(s, l, i) ==> s[j].0 != l,
    decreases s.len() - i,
{
    if i < s.len() && s[i].0 != l {
        lemma_key_index(s, l, i + 1);
    }
}

proof fn lemma_total_update(s: Seq<(Seq<char>, nat)>, j: int, x: (Seq<char>, nat))
    requires
        0 <= j < s.len(),
    ensures
        summary_total(s.update(j, x)) + s[j].1 == summary_total(s) + x.1,
    decreases s.len(),
{
    if j == s.len() - 1 {
        assert(s.update(j, x).drop_last() =~= s.drop_last());
    } else {
        assert(s.update(j, x).drop_last() =~= s.drop_last().update(j, x));
        lemma_total_update(s.drop_last(), j, x);
    }
}

proof fn lemma_key_index_same_keys(s: Seq<(Seq<char>, nat)>, t: Seq<(Seq<char>, nat)>, l: Seq<char>, i: int)
    requires
        0 <= i <= s.len(),
        s.len() == t.len(),
        forall|q: int| 0 <= q < s.len() ==> (#[trigger] s[q]).0 == t[q].0,
    ensures
        key_index(s, l, i) == key_index(t, l, i),
    decreases s.len() - i,
{
    if i < s.len() {
        assert(s[i].0 == t[i].0);
        lemma_key_index_same_keys(s, t, l, i + 1);
    }
}

proof fn lemma_key_index_push(s: Seq<(Seq<char>, nat)>, y: (Seq<char>, nat), l: Seq<char>, i: int)
    requires
        0 <= i <= s.len(),
    ensures
        key_index(s.push(y), l, i) == if key_index(s, l, i) < s.len() {
            key_index(s, l, i)
        } else if y.0 == l {
            s.len() as int
        } else {
            s.len() + 1int
        },
    decreases s.len() - i,
{
    if i < s.len() {
        assert(s.push(y)[i] == s[i]);
        lemma_key_index_push(s, y, l, i + 1);
    } else {
        assert(s.push(y)[i] == y);
        assert(key_index(s.push(y), l, s.len() + 1int) == s.len() + 1);
        assert(key_index(s, l, i) == s.len());
    }
}

/// The summary has one entry per distinct label, the count of each label is
/// the number of detected spans with that label, and the counts add up to
/// the number of detected spans.
pub proof fn lemma_summary_counts(labels: Seq<Seq<char>>)
    ensures
        summary_keys_distinct(summary_of(labels)),
        forall|l: Seq<char>| #[trigger] summary_count(summary_of(labels), l) == occurrences(labels, l),
        summary_total(summary_of(labels)) == labels.len(),
    decreases labels.len(),
{
    if labels.len() > 0 {
        let p = labels.drop_last();
        lemma_summary_counts(p);
        let s = summary_of(p);
        let x = labels.last();
        lemma_key_index(s, x, 0);
        let j = key_index(s, x, 0);
        let out = summary_of(labels);
        if j < s.len() {
            assert(out == s.update(j, (x, s[j].1 + 1)));
            lemma_total_update(s, j, (x, s[j].1 + 1));
            assert forall|a: int, b: int| 0 <= a < b < out.len() implies (#[trigger] out[a]).0 != (
            #[trigger] out[b]).0 by {
                assert(s[a].0 != s[b].0);
            }
            assert forall|q: int| 0 <= q < out.len() implies (#[trigger] out[q]).0 == s[q].0 by {}
            assert forall|l: Seq<char>| #[trigger] summary_count(out, l) == occurrences(labels, l) by {
                lemma_key_index_same_keys(out, s, l, 0);
                lemma_key_index(s, l, 0);
                assert(summary_count(s, l) == occurrences(p, l));
                let q = key_index(s, l, 0);
                if q < s.len() {
                    if q == j {
                        assert(l == x);
                    } else {
                        assert(out[q] == s[q]);
                    }
                }
            }
        } else {
            assert(out == s.push((x, 1)));
            assert(out.drop_last() =~= s);
            assert forall|a: int, b: int| 0 <= a < b < out.len() implies (#[trigger] out[a]).0 != (
            #[trigger] out[b]).0 by {
                if b == s.len() {
                    assert(out[a] == s[a]);
                } else {
                    assert(out[a] == s[a] && out[b] == s[b]);
                }
            }
            assert forall|l: Seq<char>| #[trigger] summary_count(out, l) == occurrences(labels, l) by {
                lemma_key_index_push(s, (x, 1), l, 0);
                lemma_key_index(s, l, 0);
                assert(summary_count(s, l) == occurrences(p, l));
                if key_index(s, l, 0) < s.len() {
                    assert(out[key_index(s, l, 0)] == s[key_index(s, l, 0)]);
                }
            }
        }
    }
}

} // verus!
