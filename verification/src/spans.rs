//! What holds of the spans that decoding records.

use vstd::prelude::*;
use crate::grammar::{spec_decode, spec_decode_bytes, spec_decode_entries, spec_decode_items};
use crate::value::{Span, SpanTreeView, Value};

verus! {

impl SpanTreeView {
    /// Whether the tree has the shape of `value`, a child for each element
    /// of a list and for each value of a dictionary, and every span in it
    /// is a range of a buffer of `len` bytes.
    pub open spec fn fits(self, value: Value, len: int) -> bool
        decreases self,
    {
        &&& self.span.start <= self.span.end <= len
        &&& match value {
            Value::List(items) => {
                &&& self.children.len() == items.len()
                &&& forall|i: int|
                    0 <= i < self.children.len() ==> (#[trigger] self.children[i]).fits(
                        items[i],
                        len,
                    )
            },
            Value::Dict(entries) => {
                &&& self.children.len() == entries.len()
                &&& forall|i: int|
                    0 <= i < self.children.len() ==> (#[trigger] self.children[i]).fits(
                        entries[i].1,
                        len,
                    )
            },
            _ => self.children.len() == 0,
        }
    }
}

/// Whether each tree of `spans` fits the value at its place.
pub open spec fn all_fit(spans: Seq<SpanTreeView>, values: Seq<Value>, len: int) -> bool {
    &&& spans.len() == values.len()
    &&& forall|i: int| 0 <= i < spans.len() ==> (#[trigger] spans[i]).fits(values[i], len)
}

/// A decoded value ends after the offset at which it begins and within the
/// buffer, its span is exactly that range, and the spans recorded below it
/// fit it.
pub proof fn lemma_decode_spans(buf: Seq<u8>, pos: int)
    requires
        0 <= pos,
        buf.len() <= usize::MAX,
    ensures
        spec_decode(buf, pos) matches Ok(decoded) ==> {
            &&& pos < decoded.end <= buf.len()
            &&& decoded.spans.span == (Span { start: pos as usize, end: decoded.end as usize })
            &&& decoded.spans.fits(decoded.value, buf.len() as int)
        },
    decreases buf.len() - pos, 0int,
{
    if 0 <= pos < buf.len() {
        lemma_items_spans(buf, pos + 1, pos);
        lemma_entries_spans(buf, pos + 1, pos);
    }
}

/// The same, of the elements of a list.
pub proof fn lemma_items_spans(buf: Seq<u8>, pos: int, opened: int)
    requires
        0 <= pos,
        buf.len() <= usize::MAX,
    ensures
        spec_decode_items(buf, pos, opened) matches Ok(items) ==> {
            &&& pos < items.end <= buf.len()
            &&& all_fit(items.spans, items.values, buf.len() as int)
        },
    decreases buf.len() - pos, 1int,
{
    if 0 <= pos < buf.len() {
        lemma_decode_spans(buf, pos);
        if let Ok(head) = spec_decode(buf, pos) {
            lemma_items_spans(buf, head.end, opened);
        }
    }
}

/// The same, of the entries of a dictionary.
pub proof fn lemma_entries_spans(buf: Seq<u8>, pos: int, opened: int)
    requires
        0 <= pos,
        buf.len() <= usize::MAX,
    ensures
        spec_decode_entries(buf, pos, opened) matches Ok(dict) ==> {
            &&& pos < dict.end <= buf.len()
            &&& dict.spans.len() == dict.entries.len()
            &&& forall|i: int|
                0 <= i < dict.spans.len() ==> (#[trigger] dict.spans[i]).fits(
                    dict.entries[i].1,
                    buf.len() as int,
                )
        },
    decreases buf.len() - pos, 1int,
{
    if 0 <= pos < buf.len() {
        if let Ok((key, key_end)) = spec_decode_bytes(buf, pos) {
            lemma_decode_spans(buf, key_end);
            if let Ok(head) = spec_decode(buf, key_end) {
                lemma_entries_spans(buf, head.end, opened);
            }
        }
    }
}

} // verus!
