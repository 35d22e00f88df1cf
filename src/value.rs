use vstd::prelude::*;

verus! {

/// A decoded bencode value.
///
/// A dictionary keeps one entry per key, in the order in which each key was
/// first seen; when a key occurs again its value replaces the earlier one.
#[derive(Debug, PartialEq)]
pub enum Value {
    String(Vec<u8>),
    Integer(i64),
    List(Vec<Value>),
    Dict(Vec<(Vec<u8>, Value)>),
}

/// Why decoding failed.
#[derive(Debug, Clone, Copy, PartialEq, Eq, Structural)]
pub enum DecodeError {
    /// No decimal digit where a number was required.
    MalformedNumber,
    /// A run of digits whose value does not fit in a `u64`.
    NumericOverflow,
    /// An integer whose value does not fit in an `i64`.
    SignedOverflow,
    /// A byte string length not followed by `:`.
    MissingDelimiter,
    /// Fewer bytes left than a byte string's declared length.
    TruncatedString,
    /// A construct that does not start with its opening byte.
    UnexpectedToken,
    /// A list or dictionary closed before its first element.
    EmptyCollectionRejected,
    /// A list or dictionary whose closing `e` is missing after its elements.
    UnterminatedCollection,
    /// An integer whose closing `e` is missing after its digits.
    UnterminatedInteger,
    /// No form of value starts at this position.
    NoMatchingValueForm,
}

/// The mathematical content of a `Value`.
pub enum Node {
    Bytes(Seq<u8>),
    Int(int),
    List(Seq<Node>),
    Dict(Seq<(Seq<u8>, Node)>),
}

impl Value {
    pub open spec fn node(self) -> Node
        decreases self,
    {
        match self {
            Value::String(b) => Node::Bytes(b@),
            Value::Integer(n) => Node::Int(n as int),
            Value::List(items) => Node::List(nodes_of(items@)),
            Value::Dict(entries) => Node::Dict(entries_of(entries@)),
        }
    }
}

/// The nodes of a sequence of values, in order.
pub open spec fn nodes_of(s: Seq<Value>) -> Seq<Node>
    decreases s,
{
    if s.len() == 0 {
        Seq::empty()
    } else {
        nodes_of(s.subrange(0, s.len() - 1)).push(s[s.len() - 1].node())
    }
}

/// The content of a sequence of dictionary entries, in order.
pub open spec fn entries_of(s: Seq<(Vec<u8>, Value)>) -> Seq<(Seq<u8>, Node)>
    decreases s,
{
    if s.len() == 0 {
        Seq::empty()
    } else {
        entries_of(s.subrange(0, s.len() - 1)).push((s[s.len() - 1].0@, s[s.len() - 1].1.node()))
    }
}

pub proof fn lemma_nodes_of_push(s: Seq<Value>, v: Value)
    ensures
        nodes_of(s.push(v)) == nodes_of(s).push(v.node()),
{
    assert(s.push(v).subrange(0, s.len() as int) =~= s);
}

pub proof fn lemma_nodes_of_len(s: Seq<Value>)
    ensures
        nodes_of(s).len() == s.len(),
    decreases s.len(),
{
    if s.len() > 0 {
        lemma_nodes_of_len(s.subrange(0, s.len() - 1));
    }
}

pub proof fn lemma_entries_of_index(s: Seq<(Vec<u8>, Value)>)
    ensures
        entries_of(s).len() == s.len(),
        forall|j: int| 0 <= j < s.len() ==> #[trigger] entries_of(s)[j] == (s[j].0@, s[j].1.node()),
    decreases s.len(),
{
    if s.len() > 0 {
        let init = s.subrange(0, s.len() - 1);
        lemma_entries_of_index(init);
        assert forall|j: int| 0 <= j < s.len() - 1 implies init[j] == s[j] by {}
    }
}

pub proof fn lemma_entries_of_push(s: Seq<(Vec<u8>, Value)>, x: (Vec<u8>, Value))
    ensures
        entries_of(s.push(x)) == entries_of(s).push((x.0@, x.1.node())),
{
    assert(s.push(x).subrange(0, s.len() as int) =~= s);
}

pub proof fn lemma_entries_of_update(s: Seq<(Vec<u8>, Value)>, i: int, x: (Vec<u8>, Value))
    requires
        0 <= i < s.len(),
    ensures
        entries_of(s.update(i, x)) == entries_of(s).update(i, (x.0@, x.1.node())),
{
    lemma_entries_of_index(s);
    lemma_entries_of_index(s.update(i, x));
    assert(entries_of(s.update(i, x)) =~= entries_of(s).update(i, (x.0@, x.1.node())));
}

} // verus!
