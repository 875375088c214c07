//! BIOES tags, the label space of a token classifier, and span extraction.

use std::collections::HashMap;
use vstd::prelude::*;

use crate::text::{
    find_char, find_first, parse_usize, spec_parse_usize, string_from_chars, sub_chars, to_chars,
};

verus! {

/// One BIOES tag; the payload is the index of the entity name.
#[derive(Debug, Clone, Copy, PartialEq, Eq, Structural)]
pub enum Tag {
    O,
    B(usize),
    I(usize),
    E(usize),
    S(usize),
}

/// A tag that may stand after `prev` in a well-formed BIOES sequence:
/// `O`, `B` and `S` only after a closed position (`O`, `E`, `S`),
/// `I(e)` and `E(e)` only inside an open span of the same entity `e`.
pub open spec fn spec_allowed(prev: Tag, next: Tag) -> bool {
    match next {
        Tag::O | Tag::B(_) | Tag::S(_) => spec_closed(prev),
        Tag::I(e) => spec_opens(prev, e),
        Tag::E(e) => spec_opens(prev, e),
    }
}

/// `prev` leaves no span open.
pub open spec fn spec_closed(t: Tag) -> bool {
    t is O || t is E || t is S
}

/// `t` leaves a span of entity `e` open (`B(e)` or `I(e)`).
pub open spec fn spec_opens(t: Tag, e: usize) -> bool {
    match t {
        Tag::B(p) => p == e,
        Tag::I(p) => p == e,
        _ => false,
    }
}

/// A tag that may begin a sequence: `O`, `B` or `S`.
pub open spec fn spec_start_allowed(t: Tag) -> bool {
    t is O || t is B || t is S
}

/// A tag that may end a sequence: `O`, `E` or `S`.
pub open spec fn spec_end_allowed(t: Tag) -> bool {
    spec_closed(t)
}

/// A complete, well-formed BIOES sequence.
pub open spec fn valid_tag_path(ts: Seq<Tag>) -> bool {
    ts.len() > 0 ==> {
        &&& spec_start_allowed(ts[0])
        &&& spec_end_allowed(ts.last())
        &&& forall|i: int| 0 < i < ts.len() ==> spec_allowed(ts[i - 1], #[trigger] ts[i])
    }
}

/// The entity of a tag that keeps a span open or closes it from inside
/// (`B`, `I`, `E`), if it is one of those.
pub open spec fn span_entity(t: Tag) -> Option<usize> {
    match t {
        Tag::B(x) => Some(x),
        Tag::I(x) => Some(x),
        Tag::E(x) => Some(x),
        _ => None,
    }
}

/// The BIOES transition rules, both ways: after a position that leaves no
/// span open (`O`, `E(_)`, `S(_)`) any of `O`, `B(_)`, `S(_)` may follow;
/// after `B(e)` or `I(e)` exactly `I(e)` and `E(e)` may follow; nothing
/// else is allowed. A sequence may start with `O`, `B(_)` or `S(_)` and end
/// with `O`, `E(_)` or `S(_)`.
pub proof fn lemma_bioes_rules(prev: Tag, next: Tag)
    ensures
        (prev is O || prev is E || prev is S) && (next is O || next is B || next is S) ==> spec_allowed(
            prev,
            next,
        ),
        (prev is B || prev is I) && (next is I || next is E) && span_entity(prev) == span_entity(next)
            ==> spec_allowed(prev, next),
        spec_allowed(prev, next) ==> ((prev is O || prev is E || prev is S) && (next is O || next is B
            || next is S)) || ((prev is B || prev is I) && (next is I || next is E) && span_entity(prev)
            == span_entity(next)),
        spec_start_allowed(next) <==> (next is O || next is B || next is S),
        spec_end_allowed(prev) <==> (prev is O || prev is E || prev is S),
{
}

/// Which bias each transition receives: staying in the background,
/// entering a span from the background, leaving a span for the
/// background, starting a span right after one, continuing a span, and
/// closing it; every other transition gets none.
pub proof fn lemma_bias_kinds(prev: Tag, next: Tag)
    ensures
        (spec_bias_kind(prev, next) == BiasKind::BackgroundStay) <==> (prev is O && next is O),
        (spec_bias_kind(prev, next) == BiasKind::BackgroundToStart) <==> (prev is O && (next is B
            || next is S)),
        (spec_bias_kind(prev, next) == BiasKind::EndToBackground) <==> ((prev is E || prev is S)
            && next is O),
        (spec_bias_kind(prev, next) == BiasKind::EndToStart) <==> ((prev is E || prev is S) && (
        next is B || next is S)),
        (spec_bias_kind(prev, next) == BiasKind::InsideToContinue) <==> ((prev is B || prev is I)
            && next is I && span_entity(prev) == span_entity(next)),
        (spec_bias_kind(prev, next) == BiasKind::InsideToEnd) <==> ((prev is B || prev is I)
            && next is E && span_entity(prev) == span_entity(next)),
{
}

/// Which calibrated transition bias applies between two tags.
#[derive(Debug, Clone, Copy, PartialEq, Eq, Structural)]
pub enum BiasKind {
    BackgroundStay,
    BackgroundToStart,
    EndToBackground,
    EndToStart,
    InsideToContinue,
    InsideToEnd,
    /// No bias: the score is unchanged.
    Zero,
}

pub open spec fn spec_bias_kind(prev: Tag, next: Tag) -> BiasKind {
    match (prev, next) {
        (Tag::O, Tag::O) => BiasKind::BackgroundStay,
        (Tag::O, Tag::B(_)) => BiasKind::BackgroundToStart,
        (Tag::O, Tag::S(_)) => BiasKind::BackgroundToStart,
        (Tag::E(_), Tag::O) => BiasKind::EndToBackground,
        (Tag::S(_), Tag::O) => BiasKind::EndToBackground,
        (Tag::E(_), Tag::B(_)) => BiasKind::EndToStart,
        (Tag::E(_), Tag::S(_)) => BiasKind::EndToStart,
        (Tag::S(_), Tag::B(_)) => BiasKind::EndToStart,
        (Tag::S(_), Tag::S(_)) => BiasKind::EndToStart,
        (_, Tag::I(e)) => if spec_opens(prev, e) { BiasKind::InsideToContinue } else { BiasKind::Zero },
        (_, Tag::E(e)) => if spec_opens(prev, e) { BiasKind::InsideToEnd } else { BiasKind::Zero },
        _ => BiasKind::Zero,
    }
}

/// Tags an entity index to its name; `tags[k]` is the tag of label id `k`
/// in ascending order of the ids that parsed.
pub struct LabelSpace {
    pub tags: Vec<Tag>,
    pub entity_names: Vec<String>,
}

impl LabelSpace {
    /// Whether `next` may follow `prev`.
    pub fn allowed(prev: Tag, next: Tag) -> (r: bool)
        ensures
            r == spec_allowed(prev, next),
    {
        match next {
            Tag::O | Tag::B(_) | Tag::S(_) => matches!(prev, Tag::O | Tag::E(_) | Tag::S(_)),
            Tag::I(e) | Tag::E(e) => match prev {
                Tag::B(p) | Tag::I(p) => p == e,
                _ => false,
            },
        }
    }

    /// Whether a sequence may begin with `tag`.
    pub fn start_allowed(tag: Tag) -> (r: bool)
        ensures
            r == spec_start_allowed(tag),
    {
        matches!(tag, Tag::O | Tag::B(_) | Tag::S(_))
    }

    /// Whether a sequence may end with `tag`.
    pub fn end_allowed(tag: Tag) -> (r: bool)
        ensures
            r == spec_end_allowed(tag),
    {
        matches!(tag, Tag::O | Tag::E(_) | Tag::S(_))
    }

    /// The calibrated bias that a transition from `prev` to `next` receives.
    pub fn transition_kind(&self, prev: Tag, next: Tag) -> (k: BiasKind)
        ensures
            k == spec_bias_kind(prev, next),
    {
        match (prev, next) {
            (Tag::O, Tag::O) => BiasKind::BackgroundStay,
            (Tag::O, Tag::B(_) | Tag::S(_)) => BiasKind::BackgroundToStart,
            (Tag::E(_) | Tag::S(_), Tag::O) => BiasKind::EndToBackground,
            (Tag::E(_) | Tag::S(_), Tag::B(_) | Tag::S(_)) => BiasKind::EndToStart,
            (Tag::B(p), Tag::I(e)) if p == e => BiasKind::InsideToContinue,
            (Tag::I(p), Tag::I(e)) if p == e => BiasKind::InsideToContinue,
            (Tag::B(p), Tag::E(e)) if p == e => BiasKind::InsideToEnd,
            (Tag::I(p), Tag::E(e)) if p == e => BiasKind::InsideToEnd,
            _ => BiasKind::Zero,
        }
    }
}

/// A detected entity, as an inclusive range of token positions.
#[derive(Debug, Clone, Copy, PartialEq, Eq, Structural)]
pub struct RawSpan {
    pub entity: usize,
    pub start_token: usize,
    pub end_token: usize,
}

/// The tags that a path of label ids stands for.
pub open spec fn path_tags(path: Seq<usize>, tags: Seq<Tag>) -> Seq<Tag> {
    Seq::new(path.len(), |i: int| tags[path[i] as int])
}

/// Every label id of `path` names a tag of the label space.
pub open spec fn path_in_space(path: Seq<usize>, tags: Seq<Tag>) -> bool {
    forall|i: int| 0 <= i < path.len() ==> #[trigger] path[i] < tags.len()
}

/// Last position of the span of entity `e` whose next token is at `u`:
/// the span runs over `I(e)` tokens and takes in a closing `E(e)`; any
/// other tag (or the end of the sequence) stops it before `u`.
pub open spec fn span_end(ts: Seq<Tag>, e: usize, u: int) -> int
    decreases ts.len() - u,
{
    if u < 0 || u >= ts.len() {
        u - 1
    } else if ts[u] == Tag::I(e) {
        span_end(ts, e, u + 1)
    } else if ts[u] == Tag::E(e) {
        u
    } else {
        u - 1
    }
}

pub proof fn lemma_span_end_bounds(ts: Seq<Tag>, e: usize, u: int)
    requires
        0 <= u <= ts.len(),
    ensures
        u - 1 <= span_end(ts, e, u) < ts.len(),
    decreases ts.len() - u,
{
    if u < ts.len() && ts[u] == Tag::I(e) {
        lemma_span_end_bounds(ts, e, u + 1);
    }
}

/// The spans found by a left-to-right scan from position `t`: `S(e)` is a
/// one-token span; `B(e)` opens a span that ends at `span_end`; every other
/// tag is skipped.
pub open spec fn spans_from(ts: Seq<Tag>, t: int) -> Seq<RawSpan>
    decreases ts.len() - t,
{
    if t < 0 || t >= ts.len() {
        Seq::empty()
    } else {
        match ts[t] {
            Tag::S(e) => seq![RawSpan { entity: e, start_token: t as usize, end_token: t as usize }]
                + spans_from(ts, t + 1),
            Tag::B(e) => {
                proof {
                    lemma_span_end_bounds(ts, e, t + 1);
                }
                let end = span_end(ts, e, t + 1);
                seq![RawSpan { entity: e, start_token: t as usize, end_token: end as usize }]
                    + spans_from(ts, end + 1)
            },
            _ => spans_from(ts, t + 1),
        }
    }
}

/// A scan from position `t` finds at most one span per remaining token.
pub proof fn lemma_spans_count(ts: Seq<Tag>, t: int)
    requires
        0 <= t <= ts.len(),
    ensures
        spans_from(ts, t).len() <= ts.len() - t,
    decreases ts.len() - t,
{
    if t < ts.len() {
        match ts[t] {
            Tag::B(e) => {
                lemma_span_end_bounds(ts, e, t + 1);
                lemma_spans_count(ts, span_end(ts, e, t + 1) + 1);
            },
            _ => {
                lemma_spans_count(ts, t + 1);
            },
        }
    }
}

/// Collects the entity spans of a decoded path of label ids, left to right.
pub fn extract_spans(path: &[usize], space: &LabelSpace) -> (spans: Vec<RawSpan>)
    requires
        path_in_space(path@, space.tags@),
    ensures
        spans@ == spans_from(path_tags(path@, space.tags@), 0),
{
    let ghost ts = path_tags(path@, space.tags@);
    let mut spans: Vec<RawSpan> = Vec::new();
    let mut t: usize = 0;
    while t < path.len()
        invariant
            t <= path.len(),
            ts == path_tags(path@, space.tags@),
            path_in_space(path@, space.tags@),
            spans@ + spans_from(ts, t as int) == spans_from(ts, 0),
        decreases path.len() - t,
    {
        assert(path[t as int] < space.tags.len());
        match space.tags[path[t]] {
            Tag::S(e) => {
                assert(ts[t as int] == Tag::S(e));
                spans.push(RawSpan { entity: e, start_token: t, end_token: t });
                t += 1;
            },
            Tag::B(e) => {
                assert(ts[t as int] == Tag::B(e));
                proof {
                    lemma_span_end_bounds(ts, e, t + 1);
                }
                let mut end = t;
                let mut u = t + 1;
                while u < path.len()
                    invariant_except_break
                        end + 1 == u,
                        span_end(ts, e, t + 1) == span_end(ts, e, u as int),
                    invariant
                        t < u <= path.len(),
                        ts == path_tags(path@, space.tags@),
                        path_in_space(path@, space.tags@),
                    ensures
                        end == span_end(ts, e, t + 1),
                    decreases path.len() - u,
                {
                    assert(path[u as int] < space.tags.len());
                    match space.tags[path[u]] {
                        Tag::I(x) if x == e => {
                            end = u;
                            u += 1;
                        },
                        Tag::E(x) if x == e => {
                            end = u;
                            break ;
                        },
                        _ => {
                            break ;
                        },
                    }
                }
                spans.push(RawSpan { entity: e, start_token: t, end_token: end });
                t = end + 1;
            },
            _ => {
                t += 1;
            },
        }
    }
    spans
}

/// A span that the scan can produce: it starts at `S(e)` (one token) or at
/// `B(e)`, runs over `I(e)` tokens, and ends at an `I(e)` or `E(e)` token.
pub open spec fn span_shape(ts: Seq<Tag>, sp: RawSpan) -> bool {
    let (e, s, t) = (sp.entity, sp.start_token as int, sp.end_token as int);
    &&& 0 <= s <= t < ts.len()
    &&& (ts[s] == Tag::S(e) && t == s) || ts[s] == Tag::B(e)
    &&& forall|i: int| s < i < t ==> #[trigger] ts[i] == Tag::I(e)
    &&& t > s ==> (ts[t] == Tag::I(e) || ts[t] == Tag::E(e))
}

/// Spans in strictly increasing, non-overlapping order.
pub open spec fn spans_ordered(sps: Seq<RawSpan>) -> bool {
    forall|j: int, k: int|
        0 <= j < k < sps.len() ==> (#[trigger] sps[j]).end_token < (#[trigger] sps[k]).start_token
}

/// Position `i` lies inside one of the spans.
pub open spec fn covered(sps: Seq<RawSpan>, i: int) -> bool {
    exists|k: int| 0 <= k < sps.len() && (#[trigger] sps[k]).start_token <= i <= sps[k].end_token
}

proof fn lemma_span_end_run(ts: Seq<Tag>, e: usize, u: int)
    requires
        0 <= u <= ts.len(),
    ensures
        forall|i: int| u <= i < span_end(ts, e, u) ==> #[trigger] ts[i] == Tag::I(e),
        span_end(ts, e, u) >= u ==> (ts[span_end(ts, e, u)] == Tag::I(e) || ts[span_end(
            ts,
            e,
            u,
        )] == Tag::E(e)),
    decreases ts.len() - u,
{
    lemma_span_end_bounds(ts, e, u);
    if u < ts.len() && ts[u] == Tag::I(e) {
        lemma_span_end_run(ts, e, u + 1);
        lemma_span_end_bounds(ts, e, u + 1);
    }
}

proof fn lemma_spans_from_shape(ts: Seq<Tag>, t: int)
    requires
        0 <= t,
        ts.len() <= usize::MAX,
    ensures
        forall|k: int|
            0 <= k < spans_from(ts, t).len() ==> span_shape(ts, #[trigger] spans_from(ts, t)[k])
                && spans_from(ts, t)[k].start_token >= t,
        spans_ordered(spans_from(ts, t)),
    decreases ts.len() - t,
{
    if t < ts.len() {
        match ts[t] {
            Tag::S(e) => {
                lemma_spans_from_shape(ts, t + 1);
            },
            Tag::B(e) => {
                lemma_span_end_bounds(ts, e, t + 1);
                lemma_span_end_run(ts, e, t + 1);
                let end = span_end(ts, e, t + 1);
                lemma_spans_from_shape(ts, end + 1);
            },
            _ => {
                lemma_spans_from_shape(ts, t + 1);
            },
        }
    }
}

/// Spans found in any path of tags are well shaped (`S(e)` alone, or `B(e)`
/// followed by `I(e)` tokens and possibly a closing `E(e)`), lie inside the
/// path, and come in strictly increasing, non-overlapping order.
pub proof fn lemma_extracted_spans_well_formed(ts: Seq<Tag>)
    requires
        ts.len() <= usize::MAX,
    ensures
        forall|k: int|
            0 <= k < spans_from(ts, 0).len() ==> span_shape(ts, #[trigger] spans_from(ts, 0)[k]),
        spans_ordered(spans_from(ts, 0)),
{
    lemma_spans_from_shape(ts, 0);
}

proof fn lemma_valid_run_closes(ts: Seq<Tag>, e: usize, u: int)
    requires
        valid_tag_path(ts),
        1 <= u <= ts.len(),
        spec_opens(ts[u - 1], e),
    ensures
        u <= span_end(ts, e, u) < ts.len(),
        ts[span_end(ts, e, u)] == Tag::E(e),
    decreases ts.len() - u,
{
    if u == ts.len() {
        assert(ts.last() == ts[u - 1]);
    } else {
        assert(spec_allowed(ts[u - 1], ts[u]));
        if ts[u] == Tag::I(e) {
            lemma_valid_run_closes(ts, e, u + 1);
        }
    }
}

/// The span ends at a closing tag of its entity.
pub open spec fn span_closed(ts: Seq<Tag>, sp: RawSpan) -> bool {
    ts[sp.end_token as int] == Tag::E(sp.entity) || ts[sp.end_token as int] == Tag::S(sp.entity)
}

proof fn lemma_cover_prepend(ts: Seq<Tag>, head: RawSpan, rest: Seq<RawSpan>, t: int)
    requires
        head.start_token == t,
        t <= head.end_token,
        span_closed(ts, head),
        forall|i: int|
            head.end_token < i < ts.len() && ts[i] != Tag::O ==> covered(rest, i),
        forall|k: int| 0 <= k < rest.len() ==> span_closed(ts, #[trigger] rest[k]),
    ensures
        forall|i: int| t <= i < ts.len() && ts[i] != Tag::O ==> covered(seq![head] + rest, i),
        forall|k: int|
            0 <= k < (seq![head] + rest).len() ==> span_closed(ts, #[trigger] (seq![head] + rest)[k]),
{
    let sps = seq![head] + rest;
    assert forall|i: int| t <= i < ts.len() && ts[i] != Tag::O implies covered(sps, i) by {
        if i <= head.end_token {
            assert(sps[0].start_token <= i <= sps[0].end_token);
        } else {
            let k = choose|k: int|
                0 <= k < rest.len() && (#[trigger] rest[k]).start_token <= i <= rest[k].end_token;
            assert(sps[k + 1] == rest[k]);
        }
    }
    assert forall|k: int| 0 <= k < sps.len() implies span_closed(ts, #[trigger] sps[k]) by {
        if k > 0 {
            assert(sps[k] == rest[k - 1]);
        }
    }
}

proof fn lemma_valid_spans_cover(ts: Seq<Tag>, t: int)
    requires
        valid_tag_path(ts),
        ts.len() <= usize::MAX,
        0 <= t <= ts.len(),
        t == 0 || spec_closed(ts[t - 1]),
    ensures
        forall|i: int| t <= i < ts.len() && ts[i] != Tag::O ==> covered(spans_from(ts, t), i),
        forall|k: int|
            0 <= k < spans_from(ts, t).len() ==> span_closed(ts, #[trigger] spans_from(ts, t)[k]),
    decreases ts.len() - t,
{
    if t < ts.len() {
        if t > 0 {
            assert(spec_allowed(ts[t - 1], ts[t]));
        }
        match ts[t] {
            Tag::S(e) => {
                lemma_valid_spans_cover(ts, t + 1);
                let head = RawSpan { entity: e, start_token: t as usize, end_token: t as usize };
                lemma_cover_prepend(ts, head, spans_from(ts, t + 1), t);
            },
            Tag::B(e) => {
                lemma_valid_run_closes(ts, e, t + 1);
                let end = span_end(ts, e, t + 1);
                lemma_valid_spans_cover(ts, end + 1);
                let head = RawSpan { entity: e, start_token: t as usize, end_token: end as usize };
                lemma_cover_prepend(ts, head, spans_from(ts, end + 1), t);
            },
            _ => {
                lemma_valid_spans_cover(ts, t + 1);
                assert(ts[t] == Tag::O);
            },
        }
    }
}

/// On a well-formed BIOES path every span is closed (it ends at `E(e)` or
/// is a single `S(e)`), and every token that is not `O` lies in some span:
/// no entity token is dropped.
pub proof fn lemma_valid_path_spans(ts: Seq<Tag>)
    requires
        valid_tag_path(ts),
        ts.len() <= usize::MAX,
    ensures
        forall|i: int| 0 <= i < ts.len() && ts[i] != Tag::O ==> covered(spans_from(ts, 0), i),
        forall|k: int|
            0 <= k < spans_from(ts, 0).len() ==> span_closed(ts, #[trigger] spans_from(ts, 0)[k]),
{
    lemma_valid_spans_cover(ts, 0);
}

/// Why a label map could not be turned into a label space.
#[derive(Debug, PartialEq, Eq)]
pub enum LabelError {
    /// A label whose part before the first `-` is none of `O`, `B`, `I`,
    /// `E`, `S`; the payload is that part.
    UnknownPrefix(String),
}

/// The entries of `raw` whose id parses as a `usize`, with that id, in order.
pub open spec fn parsed_entries(raw: Seq<(String, String)>) -> Seq<(usize, String)>
    decreases raw.len(),
{
    if raw.len() == 0 {
        Seq::empty()
    } else {
        let rest = parsed_entries(raw.drop_last());
        match spec_parse_usize(raw.last().0@) {
            Some(id) => rest.push((id, raw.last().1)),
            None => rest,
        }
    }
}

/// Where a stable insertion puts an entry with id `key` into `r`: after
/// every trailing entry whose id is not greater.
pub open spec fn insert_pos<T>(r: Seq<(usize, T)>, key: usize) -> int
    decreases r.len(),
{
    if r.len() == 0 {
        0
    } else if r.last().0 > key {
        insert_pos(r.drop_last(), key)
    } else {
        r.len() as int
    }
}

/// Stable sort by id (entries with equal ids keep their order).
pub open spec fn sort_by_id<T>(s: Seq<(usize, T)>) -> Seq<(usize, T)>
    decreases s.len(),
{
    if s.len() == 0 {
        s
    } else {
        let r = sort_by_id(s.drop_last());
        r.insert(insert_pos(r, s.last().0), s.last())
    }
}

/// The part of a label before its first `-` (the whole label if none).
pub open spec fn label_prefix(name: Seq<char>) -> Seq<char> {
    name.take(find_char(name, '-', 0))
}

/// The part of a label after its first `-`, if it has one.
pub open spec fn label_entity(name: Seq<char>) -> Option<Seq<char>> {
    let k = find_char(name, '-', 0);
    if k < name.len() {
        Some(name.skip(k + 1))
    } else {
        None
    }
}

/// First index at or after `i` where `names` holds `e`, or `names.len()`.
pub open spec fn name_index(names: Seq<Seq<char>>, e: Seq<char>, i: int) -> int
    decreases names.len() - i,
{
    if i < 0 || i >= names.len() {
        names.len() as int
    } else if names[i] == e {
        i
    } else {
        name_index(names, e, i + 1)
    }
}

proof fn lemma_find_char_first(s: Seq<char>, c: char, i: int)
    requires
        0 <= i <= s.len(),
    ensures
        i <= find_char(s, c, i) <= s.len(),
        find_char(s, c, i) < s.len() ==> s[find_char(s, c, i)] == c,
        forall|j: int| i <= j < find_char(s, c, i) ==> s[j] != c,
    decreases s.len() - i,
{
    if i < s.len() && s[i] != c {
        lemma_find_char_first(s, c, i + 1);
    }
}

/// A label splits at its first `-`: `P-name` (with no `-` in `P`) has
/// prefix `P` and entity `name`, whatever `name` holds; a label without `-`
/// is all prefix and has no entity.
pub proof fn lemma_label_split(prefix: Seq<char>, entity: Seq<char>, plain: Seq<char>)
    ensures
        !prefix.contains('-') ==> label_prefix(prefix + seq!['-'] + entity) == prefix
            && label_entity(prefix + seq!['-'] + entity) == Some(entity),
        !plain.contains('-') ==> label_prefix(plain) == plain && label_entity(plain) is None,
{
    let l = prefix + seq!['-'] + entity;
    lemma_find_char_first(l, '-', 0);
    lemma_find_char_first(plain, '-', 0);
    if !prefix.contains('-') {
        let k = find_char(l, '-', 0);
        assert(l[prefix.len() as int] == '-');
        if k < prefix.len() {
            assert(l[k] == prefix[k]);
        }
        assert(k == prefix.len());
        assert(l.take(k) =~= prefix);
        assert(l.skip(k + 1) =~= entity);
    }
    if !plain.contains('-') {
        let k = find_char(plain, '-', 0);
        if k < plain.len() {
            assert(plain[k] == '-');
        }
        assert(plain.take(plain.len() as int) =~= plain);
    }
}

/// The one-letter prefixes `O`, `B`, `I`, `E`, `S` stand for their tags
/// (the entity index carried along); any other prefix stands for none.
pub proof fn lemma_prefix_tags(prefix: Seq<char>, idx: usize)
    ensures
        tag_for(seq!['O'], idx) == Some(Tag::O),
        tag_for(seq!['B'], idx) == Some(Tag::B(idx)),
        tag_for(seq!['I'], idx) == Some(Tag::I(idx)),
        tag_for(seq!['E'], idx) == Some(Tag::E(idx)),
        tag_for(seq!['S'], idx) == Some(Tag::S(idx)),
        prefix != seq!['O'] && prefix != seq!['B'] && prefix != seq!['I'] && prefix != seq!['E']
            && prefix != seq!['S'] ==> tag_for(prefix, idx) is None,
{
    assert(seq!['B'] != seq!['O']) by {
        assert(seq!['B'][0] != seq!['O'][0]);
    }
    assert(seq!['I'] != seq!['O'] && seq!['I'] != seq!['B']) by {
        assert(seq!['I'][0] != seq!['O'][0] && seq!['I'][0] != seq!['B'][0]);
    }
    assert(seq!['E'] != seq!['O'] && seq!['E'] != seq!['B'] && seq!['E'] != seq!['I']) by {
        assert(seq!['E'][0] != seq!['O'][0] && seq!['E'][0] != seq!['B'][0] && seq!['E'][0] != seq!['I'][0]);
    }
    assert(seq!['S'] != seq!['O'] && seq!['S'] != seq!['B'] && seq!['S'] != seq!['I'] && seq!['S'] != seq!['E']) by {
        assert(seq!['S'][0] != seq!['O'][0] && seq!['S'][0] != seq!['B'][0] && seq!['S'][0] != seq!['I'][0]
            && seq!['S'][0] != seq!['E'][0]);
    }
}

/// The tag that a label prefix stands for, with entity index `idx`.
pub open spec fn tag_for(prefix: Seq<char>, idx: usize) -> Option<Tag> {
    if prefix == seq!['O'] {
        Some(Tag::O)
    } else if prefix == seq!['B'] {
        Some(Tag::B(idx))
    } else if prefix == seq!['I'] {
        Some(Tag::I(idx))
    } else if prefix == seq!['E'] {
        Some(Tag::E(idx))
    } else if prefix == seq!['S'] {
        Some(Tag::S(idx))
    } else {
        None
    }
}

/// The entity index of a label, and the entity names after it is seen: a
/// new entity name is appended; a label without `-` gets `usize::MAX`.
pub open spec fn entity_slot(names: Seq<Seq<char>>, name: Seq<char>) -> (int, Seq<Seq<char>>) {
    match label_entity(name) {
        Some(e) => {
            let j = name_index(names, e, 0);
            if j < names.len() {
                (j, names)
            } else {
                (names.len() as int, names.push(e))
            }
        },
        None => (usize::MAX as int, names),
    }
}

/// Reading one more label into the tags and entity names built so far.
pub open spec fn label_step(tags: Seq<Tag>, names: Seq<Seq<char>>, name: Seq<char>) -> Result<
    (Seq<Tag>, Seq<Seq<char>>),
    Seq<char>,
> {
    let (idx, names2) = entity_slot(names, name);
    match tag_for(label_prefix(name), idx as usize) {
        Some(t) => Ok((tags.push(t), names2)),
        None => Err(label_prefix(name)),
    }
}

/// Reading labels in order: the tags and entity names, or the first unknown
/// prefix.
pub open spec fn label_space_of(labels: Seq<Seq<char>>) -> Result<
    (Seq<Tag>, Seq<Seq<char>>),
    Seq<char>,
>
    decreases labels.len(),
{
    if labels.len() == 0 {
        Ok((Seq::empty(), Seq::empty()))
    } else {
        match label_space_of(labels.drop_last()) {
            Ok((tags, names)) => label_step(tags, names, labels.last()),
            Err(p) => Err(p),
        }
    }
}

/// The label strings of entries, as characters.
pub open spec fn entry_labels(s: Seq<(usize, String)>) -> Seq<Seq<char>> {
    s.map_values(|e: (usize, String)| e.1@)
}

/// Strings as characters.
pub open spec fn strings_view(s: Seq<String>) -> Seq<Seq<char>> {
    s.map_values(|x: String| x@)
}

/// The label space that a list of `(id, label)` entries describes: ids that
/// parse are kept, sorted stably by id, and their labels read in that order.
pub open spec fn label_space_spec(entries: Seq<(String, String)>) -> Result<
    (Seq<Tag>, Seq<Seq<char>>),
    Seq<char>,
> {
    label_space_of(entry_labels(sort_by_id(parsed_entries(entries))))
}

/// A label-space result, by the characters of its strings.
pub open spec fn label_outcome(r: Result<LabelSpace, LabelError>) -> Result<
    (Seq<Tag>, Seq<Seq<char>>),
    Seq<char>,
> {
    match r {
        Ok(sp) => Ok((sp.tags@, strings_view(sp.entity_names@))),
        Err(LabelError::UnknownPrefix(p)) => Err(p@),
    }
}

/// `r` lists each entry of the map `m` exactly once, in some order.
pub open spec fn lists_map(m: Map<String, String>, r: Seq<(String, String)>) -> bool {
    &&& forall|i: int|
        0 <= i < r.len() ==> m.contains_key(#[trigger] r[i].0) && m[r[i].0] == r[i].1
    &&& forall|k: String| #[trigger] m.contains_key(k) ==> exists|i: int| 0 <= i < r.len() && r[i].0 == k
    &&& forall|i: int, j: int| 0 <= i < j < r.len() ==> (#[trigger] r[i]).0 != (#[trigger] r[j]).0
}

/// Walks a `HashMap` with `HashMap::iter` and clones its entries. The walk
/// order is whatever the map's hasher gives; each entry comes once.
#[verifier::external_body]
fn map_entries(m: &HashMap<String, String>) -> (r: Vec<(String, String)>)
    ensures
        lists_map(m@, r@),
{
    m.iter().map(|(k, v)| (k.clone(), v.clone())).collect()
}

fn parse_entries(raw: &Vec<(String, String)>) -> (r: Vec<(usize, String)>)
    ensures
        r@ == parsed_entries(raw@),
{
    let mut out: Vec<(usize, String)> = Vec::new();
    let mut k: usize = 0;
    while k < raw.len()
        invariant
            k <= raw.len(),
            out@ == parsed_entries(raw@.take(k as int)),
        decreases raw.len() - k,
    {
        assert(raw@.take(k + 1).drop_last() =~= raw@.take(k as int));
        assert(raw@.take(k + 1).last() == raw@[k as int]);
        match parse_usize(raw[k].0.as_str()) {
            Some(id) => {
                out.push((id, raw[k].1.clone()));
            },
            None => {},
        }
        k += 1;
    }
    assert(raw@.take(raw.len() as int) =~= raw@);
    out
}

/// Stable insertion sort by id.
fn sort_entries<T>(v: Vec<(usize, T)>) -> (r: Vec<(usize, T)>)
    ensures
        r@ == sort_by_id(v@),
{
    let ghost whole = v@;
    let mut sorted: Vec<(usize, T)> = Vec::new();
    let mut rest = v;
    let n = rest.len();
    assert(whole.take(0) =~= Seq::<(usize, T)>::empty());
    while rest.len() > 0
        invariant
            n == whole.len(),
            rest.len() <= n,
            rest@ =~= whole.skip(n - rest.len()),
            sorted@ == sort_by_id(whole.take(n - rest.len())),
        decreases rest.len(),
    {
        let ghost m = n - rest.len();
        let x = rest.remove(0);
        assert(x == whole[m]);
        assert(rest@ =~= whole.skip(m + 1));
        assert(whole.take(m + 1).drop_last() =~= whole.take(m));
        assert(whole.take(m + 1).last() == x);
        let key = x.0;
        let mut j = sorted.len();
        assert(sorted@.take(sorted.len() as int) =~= sorted@);
        while j > 0 && sorted[j - 1].0 > key
            invariant
                j <= sorted.len(),
                insert_pos(sorted@, key) == insert_pos(sorted@.take(j as int), key),
            decreases j,
        {
            assert(sorted@.take(j as int).drop_last() =~= sorted@.take(j - 1));
            j -= 1;
        }
        proof {
            if j > 0 {
                assert(sorted@.take(j as int).last() == sorted@[j - 1]);
            }
        }
        assert(insert_pos(sorted@, key) == j);
        sorted.insert(j, x);
    }
    assert(whole.take(n as int) =~= whole);
    sorted
}

fn position_of(names: &Vec<String>, e: &String) -> (r: usize)
    ensures
        r == name_index(strings_view(names@), e@, 0),
{
    let ghost view = strings_view(names@);
    let mut i: usize = 0;
    while i < names.len()
        invariant
            i <= names.len(),
            view == strings_view(names@),
            name_index(view, e@, 0) == name_index(view, e@, i as int),
        decreases names.len() - i,
    {
        if names[i] == *e {
            assert(view[i as int] == e@);
            return i;
        }
        assert(view[i as int] != e@);
        i += 1;
    }
    i
}

fn tag_of_prefix(prefix: &Vec<char>, idx: usize) -> (r: Option<Tag>)
    ensures
        r == tag_for(prefix@, idx),
{
    if prefix.len() == 1 {
        let c = prefix[0];
        assert(prefix@ =~= seq![c]);
        if c == 'O' {
            Some(Tag::O)
        } else if c == 'B' {
            Some(Tag::B(idx))
        } else if c == 'I' {
            Some(Tag::I(idx))
        } else if c == 'E' {
            Some(Tag::E(idx))
        } else if c == 'S' {
            Some(Tag::S(idx))
        } else {
            None
        }
    } else {
        assert(prefix@.len() != seq!['O'].len());
        None
    }
}

proof fn lemma_label_error_persists(labels: Seq<Seq<char>>, k: int)
    requires
        0 <= k <= labels.len(),
        label_space_of(labels.take(k)) is Err,
    ensures
        label_space_of(labels) == label_space_of(labels.take(k)),
    decreases labels.len() - k,
{
    if k < labels.len() {
        assert(labels.take(k + 1).drop_last() =~= labels.take(k));
        lemma_label_error_persists(labels, k + 1);
    } else {
        assert(labels.take(k) =~= labels);
    }
}

impl LabelSpace {
    /// Builds the label space from `(id, label)` entries: entries whose id
    /// does not parse are skipped, the rest are sorted stably by id, and
    /// each label `P-name` gives tag `P` with the index of `name` among the
    /// entity names in order of first appearance.
    pub fn from_entries(entries: &Vec<(String, String)>) -> (r: Result<LabelSpace, LabelError>)
        ensures
            label_outcome(r) == label_space_spec(entries@),
    {
        let parsed = parse_entries(entries);
        let sorted = sort_entries(parsed);
        let ghost labels = entry_labels(sorted@);
        let mut tags: Vec<Tag> = Vec::new();
        let mut names: Vec<String> = Vec::new();
        let mut k: usize = 0;
        assert(labels.take(0) =~= Seq::<Seq<char>>::empty());
        assert(strings_view(names@) =~= Seq::<Seq<char>>::empty());
        assert(tags@ =~= Seq::<Tag>::empty());
        while k < sorted.len()
            invariant
                k <= sorted.len(),
                labels == entry_labels(sorted@),
                labels == entry_labels(sort_by_id(parsed_entries(entries@))),
                labels.len() == sorted.len(),
                label_space_of(labels.take(k as int)) == Ok::<(Seq<Tag>, Seq<Seq<char>>), Seq<char>>((tags@, strings_view(names@))),
                names.len() <= k,
            decreases sorted.len() - k,
        {
            assert(labels.take(k + 1).drop_last() =~= labels.take(k as int));
            assert(labels.take(k + 1).last() == labels[k as int]);
            let name = to_chars(sorted[k].1.as_str());
            assert(name@ == labels[k as int]);
            let ghost old_names = strings_view(names@);
            let ghost old_tags = tags@;
            let dash = find_first(&name, '-');
            let prefix = sub_chars(&name, 0, dash);
            assert(prefix@ =~= name@.take(dash as int));
            let idx: usize = if dash < name.len() {
                let ent = string_from_chars(sub_chars(&name, dash + 1, name.len()).as_slice());
                assert(ent@ =~= name@.skip(dash + 1));
                let j = position_of(&names, &ent);
                if j < names.len() {
                    j
                } else {
                    let n = names.len();
                    names.push(ent);
                    assert(strings_view(names@) =~= strings_view(names@.drop_last()).push(ent@));
                    n
                }
            } else {
                usize::MAX
            };
            assert(label_prefix(name@) == prefix@);
            assert(entity_slot(old_names, name@) == (idx as int, strings_view(names@)));
            match tag_of_prefix(&prefix, idx) {
                Some(t) => {
                    tags.push(t);
                    assert(label_step(old_tags, old_names, name@) == Ok::<
                        (Seq<Tag>, Seq<Seq<char>>),
                        Seq<char>,
                    >((tags@, strings_view(names@))));
                },
                None => {
                    let p = string_from_chars(prefix.as_slice());
                    assert(label_step(old_tags, old_names, name@) == Err::<
                        (Seq<Tag>, Seq<Seq<char>>),
                        Seq<char>,
                    >(p@));
                    assert(label_space_of(labels.take(k + 1)) == Err::<
                        (Seq<Tag>, Seq<Seq<char>>),
                        Seq<char>,
                    >(p@));
                    proof {
                        lemma_label_error_persists(labels, k + 1);
                        assert(labels.take(labels.len() as int) =~= labels);
                    }
                    return Err(LabelError::UnknownPrefix(p));
                },
            }
            k += 1;
        }
        assert(labels.take(sorted.len() as int) =~= labels);
        Ok(LabelSpace { tags, entity_names: names })
    }

    /// Builds the label space of a model's `id2label` map (see
    /// `from_entries`); the map is walked in its own order, and the result
    /// is that of `from_entries` on that walk.
    pub fn from_id2label(id2label: &HashMap<String, String>) -> (r: Result<LabelSpace, LabelError>)
        ensures
            exists|walk: Seq<(String, String)>|
                lists_map(id2label@, walk) && label_outcome(r) == label_space_spec(walk),
    {
        let entries = map_entries(id2label);
        let r = Self::from_entries(&entries);
        assert(lists_map(id2label@, entries@) && label_outcome(r) == label_space_spec(entries@));
        r
    }
}

/// The entity index that a tag carries (`O` carries none).
pub open spec fn tag_entity(t: Tag) -> Option<usize> {
    match t {
        Tag::O => None,
        Tag::B(x) => Some(x),
        Tag::I(x) => Some(x),
        Tag::E(x) => Some(x),
        Tag::S(x) => Some(x),
    }
}

proof fn lemma_name_index(names: Seq<Seq<char>>, e: Seq<char>, i: int)
    requires
        0 <= i <= names.len(),
    ensures
        i <= name_index(names, e, i) <= names.len(),
        name_index(names, e, i) < names.len() ==> names[name_index(names, e, i)] == e,
        forall|j: int| i <= j < name_index(names, e, i) ==> names[j] != e,
    decreases names.len() - i,
{
    if i < names.len() && names[i] != e {
        lemma_name_index(names, e, i + 1);
    }
}

/// Reading a label map yields one tag per label and distinct entity names;
/// the tag of a label `P-name` carries the index of `name` among the entity
/// names, and the tag of a label without `-` carries `usize::MAX`.
pub proof fn lemma_label_space_entities(labels: Seq<Seq<char>>)
    requires
        label_space_of(labels) is Ok,
        labels.len() <= usize::MAX,
    ensures
        ({
            let (tags, names) = label_space_of(labels)->Ok_0;
            &&& tags.len() == labels.len()
            &&& names.len() <= labels.len()
            &&& names.no_duplicates()
            &&& forall|k: int|
                0 <= k < tags.len() ==> match (label_entity(labels[k]), #[trigger] tag_entity(
                    tags[k],
                )) {
                    (Some(e), Some(x)) => x < names.len() && names[x as int] == e,
                    (None, Some(x)) => x == usize::MAX,
                    (_, None) => true,
                }
        }),
    decreases labels.len(),
{
    if labels.len() > 0 {
        let prev = labels.drop_last();
        lemma_label_space_entities(prev);
        let (tags0, names0) = label_space_of(prev)->Ok_0;
        let name = labels.last();
        let (tags, names) = label_space_of(labels)->Ok_0;
        let (idx, names1) = entity_slot(names0, name);
        assert(names == names1);
        match label_entity(name) {
            Some(e) => {
                lemma_name_index(names0, e, 0);
            },
            None => {},
        }
        assert(names0.len() <= names.len());
        assert(forall|j: int| 0 <= j < names0.len() ==> names[j] == names0[j]);
        assert forall|k: int| 0 <= k < tags.len() implies match (
            label_entity(labels[k]),
            #[trigger] tag_entity(tags[k]),
        ) {
            (Some(e), Some(x)) => x < names.len() && names[x as int] == e,
            (None, Some(x)) => x == usize::MAX,
            (_, None) => true,
        } by {
            if k < tags0.len() {
                assert(tags[k] == tags0[k]);
                assert(labels[k] == prev[k]);
                assert(tag_entity(tags0[k]) == tag_entity(tags[k]));
            } else {
                assert(k == labels.len() - 1);
                assert(labels[k] == name);
                let t = tag_for(label_prefix(name), idx as usize)->Some_0;
                assert(tags[k] == t);
                assert(tag_entity(t) is Some ==> tag_entity(t)->Some_0 == idx as usize);
                match label_entity(name) {
                    Some(e) => {
                        assert(0 <= idx < names.len());
                        assert(names[idx] == e);
                    },
                    None => {},
                }
            }
        }
    }
}

/// Reading a label map gives the background tag `O` exactly to the labels
/// whose prefix is `O`.
pub proof fn lemma_label_space_background(labels: Seq<Seq<char>>)
    requires
        label_space_of(labels) is Ok,
    ensures
        ({
            let tags = label_space_of(labels)->Ok_0.0;
            &&& tags.len() == labels.len()
            &&& forall|k: int|
                0 <= k < tags.len() ==> ((#[trigger] tags[k] == Tag::O) <==> label_prefix(labels[k])
                    == seq!['O'])
        }),
    decreases labels.len(),
{
    if labels.len() > 0 {
        let prev = labels.drop_last();
        lemma_label_space_background(prev);
        let tags0 = label_space_of(prev)->Ok_0.0;
        let tags = label_space_of(labels)->Ok_0.0;
        assert forall|k: int| 0 <= k < tags.len() implies ((#[trigger] tags[k] == Tag::O) <==> label_prefix(
            labels[k],
        ) == seq!['O']) by {
            if k < tags0.len() {
                assert(tags[k] == tags0[k]);
                assert(labels[k] == prev[k]);
            }
        }
    }
}

/// Ids in ascending order.
pub open spec fn ids_ascending<T>(r: Seq<(usize, T)>) -> bool {
    forall|i: int, j: int| 0 <= i < j < r.len() ==> (#[trigger] r[i]).0 <= (#[trigger] r[j]).0
}

proof fn lemma_insert_pos<T>(r: Seq<(usize, T)>, key: usize)
    requires
        ids_ascending(r),
    ensures
        0 <= insert_pos(r, key) <= r.len(),
        forall|j: int| 0 <= j < insert_pos(r, key) ==> (#[trigger] r[j]).0 <= key,
        forall|j: int| insert_pos(r, key) <= j < r.len() ==> (#[trigger] r[j]).0 > key,
    decreases r.len(),
{
    if r.len() > 0 {
        if r.last().0 > key {
            let p = r.drop_last();
            assert(ids_ascending(p));
            lemma_insert_pos(p, key);
            assert forall|j: int| 0 <= j < insert_pos(r, key) implies (#[trigger] r[j]).0 <= key by {
                assert(r[j] == p[j]);
            }
            assert forall|j: int| insert_pos(r, key) <= j < r.len() implies (#[trigger] r[j]).0 > key by {
                if j < r.len() - 1 {
                    assert(r[j] == p[j]);
                }
            }
        } else {
            assert forall|j: int| 0 <= j < r.len() implies (#[trigger] r[j]).0 <= key by {
                if j < r.len() - 1 {
                    assert(r[j].0 <= r[r.len() - 1].0);
                }
            }
        }
    }
}

/// The stable sort by id puts ids in ascending order and keeps exactly the
/// same entries (as a multiset).
pub proof fn lemma_sort_by_id<T>(s: Seq<(usize, T)>)
    ensures
        sort_by_id(s).len() == s.len(),
        ids_ascending(sort_by_id(s)),
        sort_by_id(s).to_multiset() == s.to_multiset(),
    decreases s.len(),
{
    if s.len() > 0 {
        let p = s.drop_last();
        let x = s.last();
        lemma_sort_by_id(p);
        let r = sort_by_id(p);
        lemma_insert_pos(r, x.0);
        let q = insert_pos(r, x.0);
        r.insert_ensures(q, x);
        let out = r.insert(q, x);
        assert forall|i: int, j: int| 0 <= i < j < out.len() implies (#[trigger] out[i]).0 <= (
        #[trigger] out[j]).0 by {
            if j < q {
                assert(out[i] == r[i] && out[j] == r[j]);
            } else if j == q {
                assert(out[i] == r[i]);
            } else if i < q {
                assert(out[i] == r[i] && out[j] == r[j - 1]);
            } else if i == q {
                assert(out[j] == r[j - 1]);
            } else {
                assert(out[i] == r[i - 1] && out[j] == r[j - 1]);
            }
        }
        vstd::seq_lib::to_multiset_insert(r, q, x);
        vstd::seq_lib::to_multiset_build(p, x);
        assert(p.push(x) =~= s);
    }
}

/// Back-pointer tables of a Viterbi pass: one row per token, each with one
/// entry per label, each entry a label.
pub open spec fn back_table_ok(back: Seq<Seq<usize>>, n_labels: int) -> bool {
    &&& forall|t: int| 0 <= t < back.len() ==> (#[trigger] back[t]).len() == n_labels
    &&& forall|t: int, l: int| 0 <= t < back.len() && 0 <= l < n_labels ==> (#[trigger] back[t][l]) < n_labels
}

/// The path that follows back-pointers from the label `best_end` of the
/// last token: each label is the back-pointer of the label after it.
pub open spec fn follows_back_pointers(back: Seq<Seq<usize>>, best_end: usize, path: Seq<usize>) -> bool {
    &&& path.len() == back.len()
    &&& path.len() > 0 ==> path.last() == best_end
    &&& forall|t: int| 0 < t < path.len() ==> path[t - 1] == #[trigger] back[t][path[t] as int]
}

/// Recovers the decoded path from the back-pointers of a Viterbi pass.
pub fn backtrack(back: &Vec<Vec<usize>>, n_labels: usize, best_end: usize) -> (path: Vec<usize>)
    requires
        back_table_ok(back@.map_values(|r: Vec<usize>| r@), n_labels as int),
        best_end < n_labels,
    ensures
        follows_back_pointers(back@.map_values(|r: Vec<usize>| r@), best_end, path@),
        forall|t: int| 0 <= t < path@.len() ==> #[trigger] path@[t] < n_labels,
{
    let ghost b = back@.map_values(|r: Vec<usize>| r@);
    let n = back.len();
    if n == 0 {
        return Vec::new();
    }
    // `rev[k]` is the label of token `n - 1 - k`
    let mut rev: Vec<usize> = Vec::new();
    rev.push(best_end);
    while rev.len() < n
        invariant
            1 <= rev.len() <= n,
            n == back.len(),
            b == back@.map_values(|r: Vec<usize>| r@),
            back_table_ok(b, n_labels as int),
            rev@[0] == best_end,
            forall|k: int| 0 <= k < rev@.len() ==> #[trigger] rev@[k] < n_labels,
            forall|k: int| 0 < k < rev@.len() ==> #[trigger] rev@[k] == b[n - k][rev@[k - 1] as int],
        decreases n - rev.len(),
    {
        let k = rev.len();
        let t = n - k;
        let prev = rev[k - 1];
        assert(b[t as int] == back@[t as int]@);
        assert(b[t as int][prev as int] < n_labels);
        let lbl = back[t][prev];
        rev.push(lbl);
    }
    let mut path: Vec<usize> = Vec::new();
    while path.len() < n
        invariant
            path.len() <= n,
            n == back.len(),
            rev@.len() == n,
            b == back@.map_values(|r: Vec<usize>| r@),
            rev@[0] == best_end,
            forall|k: int| 0 <= k < rev@.len() ==> #[trigger] rev@[k] < n_labels,
            forall|k: int| 0 < k < rev@.len() ==> #[trigger] rev@[k] == b[n - k][rev@[k - 1] as int],
            forall|t: int| 0 <= t < path@.len() ==> #[trigger] path@[t] == rev@[n - 1 - t],
        decreases n - path.len(),
    {
        let t = path.len();
        path.push(rev[n - 1 - t]);
    }
    assert forall|t: int| 0 < t < path@.len() implies path@[t - 1] == #[trigger] b[t][path@[t] as int] by {
        assert(path@[t - 1] == rev@[n - t]);
        assert(path@[t] == rev@[n - 1 - t]);
        assert(rev@[n - t] == b[n - (n - t)][rev@[n - t - 1] as int]);
    }
    path
}

} // verus!
