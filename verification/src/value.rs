//! The bencode value model and the byte spans that decoding records.

use vstd::prelude::*;

verus! {

/// A decoded bencode node.
///
/// A dictionary keeps its entries in the order in which the input gave them.
#[derive(Debug, PartialEq, Eq)]
pub enum Bencode {
    Integer(i64),
    ByteString(Vec<u8>),
    List(Vec<Bencode>),
    Dict(Vec<(Vec<u8>, Bencode)>),
}

/// The mathematical value that a [`Bencode`] node stands for.
pub enum Value {
    Integer(i64),
    ByteString(Seq<u8>),
    List(Seq<Value>),
    Dict(Seq<(Seq<u8>, Value)>),
}

/// The value that a node stands for: lists and dictionaries element by element.
pub open spec fn value_of(node: Bencode) -> Value
    decreases node,
{
    match node {
        Bencode::Integer(number) => Value::Integer(number),
        Bencode::ByteString(bytes) => Value::ByteString(bytes@),
        Bencode::List(items) => Value::List(
            Seq::new(
                items@.len(),
                |i: int|
                    if 0 <= i < items@.len() {
                        value_of(items@[i])
                    } else {
                        arbitrary()
                    },
            ),
        ),
        Bencode::Dict(entries) => Value::Dict(
            Seq::new(
                entries@.len(),
                |i: int|
                    if 0 <= i < entries@.len() {
                        (entries@[i].0@, value_of(entries@[i].1))
                    } else {
                        arbitrary()
                    },
            ),
        ),
    }
}

impl View for Bencode {
    type V = Value;

    open spec fn view(&self) -> Value {
        value_of(*self)
    }
}

/// A half-open range `[start, end)` of byte offsets into a decoded buffer.
#[derive(Debug, Clone, Copy, PartialEq, Eq, Structural)]
pub struct Span {
    pub start: usize,
    pub end: usize,
}

/// The spans recorded while decoding one value: its own, and below it one
/// tree for each element of a list or each value of a dictionary, in order.
#[derive(Debug, PartialEq, Eq)]
pub struct SpanTree {
    pub span: Span,
    pub children: Vec<SpanTree>,
}

/// The mathematical content of a [`SpanTree`].
pub struct SpanTreeView {
    pub span: Span,
    pub children: Seq<SpanTreeView>,
}

/// The contents of a span tree: its span and the contents of its children.
pub open spec fn span_tree_of(tree: SpanTree) -> SpanTreeView
    decreases tree,
{
    SpanTreeView {
        span: tree.span,
        children: Seq::new(
            tree.children@.len(),
            |i: int|
                if 0 <= i < tree.children@.len() {
                    span_tree_of(tree.children@[i])
                } else {
                    arbitrary()
                },
        ),
    }
}

impl View for SpanTree {
    type V = SpanTreeView;

    open spec fn view(&self) -> SpanTreeView {
        span_tree_of(*self)
    }
}

/// The values of a sequence of nodes, one for one.
pub open spec fn values_view(items: Seq<Bencode>) -> Seq<Value> {
    Seq::new(items.len(), |i: int| items[i]@)
}

/// The entries of a dictionary node as pairs of key bytes and value.
pub open spec fn entries_view(entries: Seq<(Vec<u8>, Bencode)>) -> Seq<(Seq<u8>, Value)> {
    Seq::new(entries.len(), |i: int| (entries[i].0@, entries[i].1@))
}

/// The contents of a sequence of span trees, one for one.
pub open spec fn spans_view(trees: Seq<SpanTree>) -> Seq<SpanTreeView> {
    Seq::new(trees.len(), |i: int| trees[i]@)
}

/// A list node stands for the list of what its elements stand for.
pub proof fn lemma_list_view(items: Vec<Bencode>)
    ensures
        Bencode::List(items)@ == Value::List(values_view(items@)),
{
    assert(Bencode::List(items)@->List_0 =~= values_view(items@));
}

/// A dictionary node stands for its entries, in their order.
pub proof fn lemma_dict_view(entries: Vec<(Vec<u8>, Bencode)>)
    ensures
        Bencode::Dict(entries)@ == Value::Dict(entries_view(entries@)),
{
    assert(Bencode::Dict(entries)@->Dict_0 =~= entries_view(entries@));
}

/// A span tree holds its own span and the contents of its children.
pub proof fn lemma_span_tree_view(tree: SpanTree)
    ensures
        tree@ == (SpanTreeView { span: tree.span, children: spans_view(tree.children@) }),
{
    assert(tree@.children =~= spans_view(tree.children@));
}

/// The index of the entry that a reader of the dictionary gets for `key`:
/// the last one with that key, so that a repeated key means its last value.
pub open spec fn lookup(entries: Seq<(Seq<u8>, Value)>, key: Seq<u8>) -> Option<int>
    decreases entries.len(),
{
    if entries.len() == 0 {
        None
    } else if entries.last().0 == key {
        Some(entries.len() - 1)
    } else {
        lookup(entries.drop_last(), key)
    }
}

/// `lookup` finds an entry with the key after which none has it, and finds
/// none only where no entry has it.
pub proof fn lemma_lookup(entries: Seq<(Seq<u8>, Value)>, key: Seq<u8>)
    ensures
        match lookup(entries, key) {
            Some(i) => {
                &&& 0 <= i < entries.len()
                &&& entries[i].0 == key
                &&& forall|j: int| i < j < entries.len() ==> entries[j].0 != key
            },
            None => forall|j: int| 0 <= j < entries.len() ==> entries[j].0 != key,
        },
    decreases entries.len(),
{
    if entries.len() > 0 && entries.last().0 != key {
        let front = entries.drop_last();
        lemma_lookup(front, key);
        assert forall|j: int| 0 <= j < front.len() implies front[j] == entries[j] by {}
        match lookup(front, key) {
            Some(i) => {
                assert forall|j: int| i < j < entries.len() implies entries[j].0 != key by {
                    if j < front.len() {
                        assert(front[j].0 != key);
                    }
                }
            },
            None => {
                assert forall|j: int| 0 <= j < entries.len() implies entries[j].0 != key by {
                    if j < front.len() {
                        assert(front[j].0 != key);
                    }
                }
            },
        }
    }
}

/// Compares two byte strings.
fn bytes_equal(a: &[u8], b: &[u8]) -> (r: bool)
    ensures
        r == (a@ == b@),
{
    if a.len() != b.len() {
        return false;
    }
    let mut i: usize = 0;
    while i < a.len()
        invariant
            a@.len() == b@.len(),
            i <= a@.len(),
            forall|k: int| 0 <= k < i ==> a@[k] == b@[k],
        decreases a@.len() - i,
    {
        if a[i] != b[i] {
            return false;
        }
        i = i + 1;
    }
    assert(a@ =~= b@);
    true
}

/// Finds the entry of a dictionary that holds the value of `key`.
pub fn find_entry(entries: &Vec<(Vec<u8>, Bencode)>, key: &[u8]) -> (r: Option<usize>)
    ensures
        match r {
            Some(i) => lookup(entries_view(entries@), key@) == Some(i as int) && i < entries@.len(),
            None => lookup(entries_view(entries@), key@) is None,
        },
{
    let ghost all = entries_view(entries@);
    let mut i: usize = entries.len();
    assert(all.subrange(0, i as int) =~= all);
    while i > 0
        invariant
            all == entries_view(entries@),
            i <= entries@.len(),
            lookup(all, key@) == lookup(all.subrange(0, i as int), key@),
        decreases i,
    {
        i = i - 1;
        assert(all.subrange(0, i + 1).drop_last() =~= all.subrange(0, i as int));
        if bytes_equal(entries[i].0.as_slice(), key) {
            return Some(i);
        }
    }
    None
}

} // verus!
