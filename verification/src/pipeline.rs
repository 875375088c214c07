//! From a decoded label path to the redaction of a text.

use vstd::prelude::*;

use crate::config::pairs_view;
use crate::decode::{
    extract_spans, label_entity, label_prefix, label_space_of, lemma_extracted_spans_well_formed,
    lemma_label_space_background, lemma_label_space_entities, lemma_spans_count, path_in_space, path_tags,
    spans_from, strings_view, tag_entity, LabelSpace, RawSpan, Tag,
};
use crate::redaction::{
    assemble_redaction, byte_len, char_offsets, char_offsets_spec, detect_all, redact_from, span_labels,
    spans_view, summary_of, summary_view, utf8_len, Redaction,
};
use crate::text::to_chars;

verus! {

/// Why a decoded path could not be turned into a redaction.
#[derive(Debug, Clone, Copy, PartialEq, Eq, Structural)]
pub enum DecodeError {
    /// A label id of the path is not a label of the label space.
    LabelOutOfRange,
    /// A span covers a token that has no offset.
    TokenOutOfRange,
    /// A span begins or ends at a byte offset past the end of the text.
    OffsetOutOfRange,
    /// A span's entity has no name (its label had no `-entity` part).
    EntityOutOfRange,
}

/// Every span begins and ends within a text of `n` bytes: the start of its
/// first token and the end of its last token.
pub open spec fn span_offsets_within(raws: Seq<RawSpan>, offs: Seq<(usize, usize)>, n: int) -> bool {
    forall|k: int|
        0 <= k < raws.len() ==> offs[(#[trigger] raws[k]).start_token as int].0 <= n
            && offs[raws[k].end_token as int].1 <= n
}

/// Every span covers tokens that have offsets.
pub open spec fn spans_on_tokens(raws: Seq<RawSpan>, n_tokens: int) -> bool {
    forall|k: int| 0 <= k < raws.len() ==> (#[trigger] raws[k]).start_token < n_tokens && raws[k].end_token < n_tokens
}

/// Every span's entity has a name.
pub open spec fn spans_named(raws: Seq<RawSpan>, n_names: int) -> bool {
    forall|k: int| 0 <= k < raws.len() ==> (#[trigger] raws[k]).entity < n_names
}

/// Where every label of a label map other than the `O` ones names its entity
/// (`B-name`, `S-name`, ...), every span of every path decoded over it has
/// an entity name, so `redact_decoded` never answers `EntityOutOfRange`
/// for such a model.
pub proof fn lemma_named_labels_name_every_span(labels: Seq<Seq<char>>, path: Seq<usize>)
    requires
        label_space_of(labels) is Ok,
        labels.len() <= usize::MAX,
        path.len() <= usize::MAX,
        forall|k: int|
            0 <= k < labels.len() && label_prefix(#[trigger] labels[k]) != seq!['O'] ==> label_entity(
                labels[k],
            ) is Some,
        path_in_space(path, label_space_of(labels)->Ok_0.0),
    ensures
        spans_named(
            spans_from(path_tags(path, label_space_of(labels)->Ok_0.0), 0),
            label_space_of(labels)->Ok_0.1.len() as int,
        ),
{
    let (tags, names) = label_space_of(labels)->Ok_0;
    lemma_label_space_entities(labels);
    lemma_label_space_background(labels);
    let ts = path_tags(path, tags);
    lemma_extracted_spans_well_formed(ts);
    let raws = spans_from(ts, 0);
    assert forall|j: int| 0 <= j < raws.len() implies (#[trigger] raws[j]).entity < names.len() by {
        let sp = raws[j];
        let s = sp.start_token as int;
        let k = path[s] as int;
        assert(ts[s] == tags[k]);
        assert(tags[k] != Tag::O);
        assert(label_entity(labels[k]) is Some);
        assert(tag_entity(tags[k]) == Some(sp.entity));
    }
}

/// Redacts `text` from its tokens' byte offsets (as the tokenizer reports
/// them) and the label path decoded for them: the spans of the path are
/// collected, turned into character spans with placeholders, and replaced
/// in the text. Only the offsets that spans use are read: a span must cover
/// tokens that have offsets, within the text; other tokens' offsets may be
/// anything.
pub fn redact_decoded(
    text: &String,
    offsets: &Vec<(usize, usize)>,
    path: &Vec<usize>,
    space: &LabelSpace,
    placeholders: &Vec<(String, String)>,
) -> (r: Result<Redaction, DecodeError>)
    requires
        path@.len() <= u32::MAX,
    ensures
        ({
            let raws = spans_from(path_tags(path@, space.tags@), 0);
            if !path_in_space(path@, space.tags@) {
                r == Err::<Redaction, DecodeError>(DecodeError::LabelOutOfRange)
            } else if !spans_on_tokens(raws, offsets@.len() as int) {
                r == Err::<Redaction, DecodeError>(DecodeError::TokenOutOfRange)
            } else if !span_offsets_within(raws, offsets@, byte_len(text@)) {
                r == Err::<Redaction, DecodeError>(DecodeError::OffsetOutOfRange)
            } else if !spans_named(raws, space.entity_names@.len() as int) {
                r == Err::<Redaction, DecodeError>(DecodeError::EntityOutOfRange)
            } else {
                r matches Ok(red) && {
                    &&& red.text@ == text@
                    &&& spans_view(red.detected_spans@) == detect_all(
                        text@,
                        char_offsets_spec(text@, offsets@),
                        strings_view(space.entity_names@),
                        pairs_view(placeholders@),
                        raws,
                    )
                    &&& red.redacted_text@ == redact_from(text@, spans_view(red.detected_spans@), 0)
                    &&& summary_view(red.summary@) == summary_of(span_labels(spans_view(red.detected_spans@)))
                }
            }
        }),
{
    let n_labels = space.tags.len();
    let mut i: usize = 0;
    while i < path.len()
        invariant
            i <= path.len(),
            n_labels == space.tags@.len(),
            forall|j: int| 0 <= j < i ==> #[trigger] path@[j] < n_labels,
        decreases path.len() - i,
    {
        if path[i] >= n_labels {
            assert(path@[i as int] >= space.tags@.len());
            return Err(DecodeError::LabelOutOfRange);
        }
        i += 1;
    }
    let raws = extract_spans(path.as_slice(), space);
    let mut k: usize = 0;
    while k < raws.len()
        invariant
            k <= raws.len(),
            path_in_space(path@, space.tags@),
            raws@ == spans_from(path_tags(path@, space.tags@), 0),
            forall|j: int| 0 <= j < k ==> (#[trigger] raws@[j]).start_token < offsets@.len() && raws@[j].end_token < offsets@.len(),
        decreases raws.len() - k,
    {
        if raws[k].start_token >= offsets.len() || raws[k].end_token >= offsets.len() {
            assert(!spans_on_tokens(raws@, offsets@.len() as int)) by {
                assert(raws@[k as int].start_token >= offsets@.len() || raws@[k as int].end_token >= offsets@.len());
            }
            return Err(DecodeError::TokenOutOfRange);
        }
        k += 1;
    }
    let chars = to_chars(text.as_str());
    let n_bytes = utf8_len(&chars);
    let mut k: usize = 0;
    while k < raws.len()
        invariant
            k <= raws.len(),
            chars@ == text@,
            n_bytes == byte_len(text@),
            path_in_space(path@, space.tags@),
            raws@ == spans_from(path_tags(path@, space.tags@), 0),
            spans_on_tokens(raws@, offsets@.len() as int),
            forall|j: int|
                0 <= j < k ==> offsets@[(#[trigger] raws@[j]).start_token as int].0 <= n_bytes
                    && offsets@[raws@[j].end_token as int].1 <= n_bytes,
        decreases raws.len() - k,
    {
        let s = raws[k].start_token;
        let e = raws[k].end_token;
        if offsets[s].0 > n_bytes || offsets[e].1 > n_bytes {
            assert(!span_offsets_within(raws@, offsets@, byte_len(text@))) by {
                assert(raws@[k as int].start_token == s && raws@[k as int].end_token == e);
            }
            return Err(DecodeError::OffsetOutOfRange);
        }
        k += 1;
    }
    let n_names = space.entity_names.len();
    let mut k: usize = 0;
    while k < raws.len()
        invariant
            k <= raws.len(),
            n_names == space.entity_names@.len(),
            path_in_space(path@, space.tags@),
            raws@ == spans_from(path_tags(path@, space.tags@), 0),
            spans_on_tokens(raws@, offsets@.len() as int),
            span_offsets_within(raws@, offsets@, byte_len(text@)),
            forall|j: int| 0 <= j < k ==> (#[trigger] raws@[j]).entity < n_names,
        decreases raws.len() - k,
    {
        if raws[k].entity >= n_names {
            assert(raws@[k as int].entity >= n_names);
            return Err(DecodeError::EntityOutOfRange);
        }
        k += 1;
    }
    let char_offs = char_offsets(&chars, offsets);
    proof {
        lemma_spans_count(path_tags(path@, space.tags@), 0);
        assert(spans_named(raws@, space.entity_names@.len() as int));
        assert(char_offs@.len() == offsets@.len());
    }
    Ok(assemble_redaction(text, &char_offs, &raws, space, placeholders))
}

} // verus!
