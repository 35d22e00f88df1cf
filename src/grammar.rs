//! The bencode grammar, stated over byte sequences.
//!
//! Each function reads a value from the front of `t` and gives what it read
//! with the number of bytes it consumed, or the reason it failed.
use vstd::prelude::*;
use crate::value::{DecodeError, Node};

verus! {

pub open spec fn is_digit(b: u8) -> bool {
    48 <= b <= 57
}

/// Number of leading decimal digits of `t`.
pub open spec fn digit_run(t: Seq<u8>) -> nat
    decreases t.len(),
{
    if t.len() > 0 && is_digit(t[0]) {
        1 + digit_run(t.drop_first())
    } else {
        0
    }
}

/// The number written by the decimal digits `d`.
pub open spec fn digits_value(d: Seq<u8>) -> nat
    decreases d.len(),
{
    if d.len() == 0 {
        0
    } else {
        digits_value(d.drop_last()) * 10 + (d.last() - 48) as nat
    }
}

/// An unsigned number: the maximal run of one or more digits.
pub open spec fn spec_number(t: Seq<u8>) -> Result<(nat, nat), DecodeError> {
    let k = digit_run(t);
    if k == 0 {
        Err(DecodeError::MalformedNumber)
    } else if digits_value(t.take(k as int)) > u64::MAX {
        Err(DecodeError::NumericOverflow)
    } else {
        Ok((digits_value(t.take(k as int)), k))
    }
}

/// A signed number: an optional `-`, then an unsigned number, whose value
/// must fit in an `i64`.
pub open spec fn spec_signed(t: Seq<u8>) -> Result<(int, nat), DecodeError> {
    if t.len() > 0 && t[0] == 45 {
        match spec_number(t.drop_first()) {
            Ok((n, k)) => if n > 0x8000_0000_0000_0000 {
                Err(DecodeError::SignedOverflow)
            } else {
                Ok((-n, k + 1))
            },
            Err(e) => Err(e),
        }
    } else {
        match spec_number(t) {
            Ok((n, k)) => if n > i64::MAX {
                Err(DecodeError::SignedOverflow)
            } else {
                Ok((n as int, k))
            },
            Err(e) => Err(e),
        }
    }
}

/// A byte string's payload: a length `n`, `:`, then `n` bytes.
pub open spec fn spec_bytes(t: Seq<u8>) -> Result<(Seq<u8>, nat), DecodeError> {
    match spec_number(t) {
        Err(e) => Err(e),
        Ok((n, k)) => if k >= t.len() || t[k as int] != 58 {
            Err(DecodeError::MissingDelimiter)
        } else if t.len() - (k + 1) < n {
            Err(DecodeError::TruncatedString)
        } else {
            Ok((t.subrange(k + 1 as int, (k + 1 + n) as int), k + 1 + n))
        },
    }
}

pub open spec fn spec_string(t: Seq<u8>) -> Result<(Node, nat), DecodeError> {
    match spec_bytes(t) {
        Ok((b, n)) => Ok((Node::Bytes(b), n)),
        Err(e) => Err(e),
    }
}

/// An integer: `i`, a signed number, `e`.
pub open spec fn spec_integer(t: Seq<u8>) -> Result<(Node, nat), DecodeError> {
    if t.len() == 0 || t[0] != 105 {
        Err(DecodeError::UnexpectedToken)
    } else {
        match spec_signed(t.drop_first()) {
            Err(e) => Err(e),
            Ok((n, k)) => if k + 1 < t.len() && t[k + 1 as int] == 101 {
                Ok((Node::Int(n), k + 2))
            } else {
                Err(DecodeError::UnterminatedInteger)
            },
        }
    }
}

/// Values read one after another from the front of `t` until one fails:
/// the values, the bytes they take, and the error that ended the run.
///
/// A value that is read takes at least one byte and no more than there are;
/// the test on `n` only makes the recursion's termination evident.
pub open spec fn spec_items(t: Seq<u8>) -> (Seq<Node>, nat, DecodeError)
    decreases t.len(), 2nat,
{
    match spec_value(t) {
        Ok((v, n)) => if 0 < n <= t.len() {
            let rest = spec_items(t.skip(n as int));
            (seq![v] + rest.0, n + rest.1, rest.2)
        } else {
            (Seq::empty(), 0, DecodeError::NoMatchingValueForm)
        },
        Err(e) => (Seq::empty(), 0, e),
    }
}

/// A list: `l`, one or more values, `e`.
pub open spec fn spec_list(t: Seq<u8>) -> Result<(Node, nat), DecodeError>
    decreases t.len(), 0nat,
{
    if t.len() == 0 || t[0] != 108 {
        Err(DecodeError::UnexpectedToken)
    } else {
        let (items, n, e) = spec_items(t.drop_first());
        close_collection(t, items.len(), n + 1, e, Node::List(items))
    }
}

/// The end of a list or dictionary whose elements end before `t[p]`.
pub open spec fn close_collection(t: Seq<u8>, count: nat, p: nat, e: DecodeError, v: Node)
    -> Result<(Node, nat), DecodeError>
{
    let closed = p < t.len() && t[p as int] == 101;
    if count == 0 {
        if closed {
            Err(DecodeError::EmptyCollectionRejected)
        } else {
            Err(e)
        }
    } else if closed {
        Ok((v, p + 1))
    } else {
        Err(DecodeError::UnterminatedCollection)
    }
}

/// A dictionary entry: a byte string key, then a value. (A key that is read
/// takes at least its `:`; the test on `k` only makes termination evident.)
pub open spec fn spec_pair(t: Seq<u8>) -> Result<(Seq<u8>, Node, nat), DecodeError>
    decreases t.len(), 1nat,
{
    match spec_bytes(t) {
        Err(e) => Err(e),
        Ok((key, k)) => if 0 < k <= t.len() {
            match spec_value(t.skip(k as int)) {
                Ok((v, n)) => Ok((key, v, k + n)),
                Err(e) => Err(e),
            }
        } else {
            Err(DecodeError::MissingDelimiter)
        },
    }
}

/// Entries read one after another until one fails, as `spec_items` does.
pub open spec fn spec_pairs(t: Seq<u8>) -> (Seq<(Seq<u8>, Node)>, nat, DecodeError)
    decreases t.len(), 2nat,
{
    match spec_pair(t) {
        Ok((key, v, n)) => if 0 < n <= t.len() {
            let rest = spec_pairs(t.skip(n as int));
            (seq![(key, v)] + rest.0, n + rest.1, rest.2)
        } else {
            (Seq::empty(), 0, DecodeError::NoMatchingValueForm)
        },
        Err(e) => (Seq::empty(), 0, e),
    }
}

/// Index of the entry with key `k`, or -1 when there is none.
pub open spec fn find_key(entries: Seq<(Seq<u8>, Node)>, k: Seq<u8>) -> int
    decreases entries.len(),
{
    if entries.len() == 0 {
        -1
    } else if entries[0].0 == k {
        0
    } else {
        let i = find_key(entries.drop_first(), k);
        if i < 0 {
            -1
        } else {
            i + 1
        }
    }
}

/// Adds an entry: a key already present keeps its place and takes the new
/// value; a new key goes last.
pub open spec fn insert_entry(entries: Seq<(Seq<u8>, Node)>, k: Seq<u8>, v: Node) -> Seq<(Seq<u8>, Node)> {
    let i = find_key(entries, k);
    if i < 0 {
        entries.push((k, v))
    } else {
        entries.update(i, (k, v))
    }
}

/// The dictionary built from entries in the order they were read.
pub open spec fn build_dict(pairs: Seq<(Seq<u8>, Node)>) -> Seq<(Seq<u8>, Node)>
    decreases pairs.len(),
{
    if pairs.len() == 0 {
        Seq::empty()
    } else {
        let last = pairs.last();
        insert_entry(build_dict(pairs.drop_last()), last.0, last.1)
    }
}

/// A dictionary: `d`, one or more entries, `e`.
pub open spec fn spec_dict(t: Seq<u8>) -> Result<(Node, nat), DecodeError>
    decreases t.len(), 0nat,
{
    if t.len() == 0 || t[0] != 100 {
        Err(DecodeError::UnexpectedToken)
    } else {
        let (pairs, n, e) = spec_pairs(t.drop_first());
        close_collection(t, pairs.len(), n + 1, e, Node::Dict(build_dict(pairs)))
    }
}

/// Any value. The four forms start with distinct bytes (a digit, `i`, `l`,
/// `d`), so the first byte decides which one is read.
pub open spec fn spec_value(t: Seq<u8>) -> Result<(Node, nat), DecodeError>
    decreases t.len(), 1nat,
{
    if t.len() == 0 {
        Err(DecodeError::NoMatchingValueForm)
    } else if is_digit(t[0]) {
        spec_string(t)
    } else if t[0] == 105 {
        spec_integer(t)
    } else if t[0] == 108 {
        spec_list(t)
    } else if t[0] == 100 {
        spec_dict(t)
    } else {
        Err(DecodeError::NoMatchingValueForm)
    }
}

} // verus!
