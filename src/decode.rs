//! The decoder: each reader starts at a position of the input and gives the
//! value it read with the position just after it.
use vstd::prelude::*;
use crate::grammar::{
    build_dict, digit_run, digits_value, find_key, insert_entry, is_digit,
    spec_bytes, spec_dict, spec_integer, spec_items, spec_list, spec_number, spec_pair, spec_pairs,
    spec_signed, spec_string, spec_value,
};
use crate::value::{
    entries_of, lemma_entries_of_index, lemma_entries_of_push, lemma_entries_of_update,
    lemma_nodes_of_len, lemma_nodes_of_push, nodes_of, DecodeError, Node, Value,
};

verus! {

proof fn lemma_digit_run_step(s: Seq<u8>, q: int)
    requires
        0 <= q < s.len(),
        is_digit(s[q]),
    ensures
        digit_run(s.skip(q)) == 1 + digit_run(s.skip(q + 1)),
{
    assert(s.skip(q).drop_first() =~= s.skip(q + 1));
}

proof fn lemma_digits_value_step(s: Seq<u8>, a: int, i: int)
    requires
        0 <= a <= i < s.len(),
    ensures
        digits_value(s.subrange(a, i + 1)) == digits_value(s.subrange(a, i)) * 10 + (s[i] - 48) as nat,
{
    assert(s.subrange(a, i + 1).drop_last() =~= s.subrange(a, i));
}

/// A prefix of a digit string never writes a larger number than the whole.
proof fn lemma_digits_value_prefix(d: Seq<u8>, m: int)
    requires
        0 <= m <= d.len(),
    ensures
        digits_value(d.take(m)) <= digits_value(d),
    decreases d.len(),
{
    if m < d.len() {
        assert(d.drop_last().take(m) =~= d.take(m));
        lemma_digits_value_prefix(d.drop_last(), m);
    } else {
        assert(d.take(m) =~= d);
    }
}

/// Reads an unsigned number at `pos`.
fn number_at(s: &[u8], pos: usize) -> (r: Result<(u64, usize), DecodeError>)
    requires
        pos <= s@.len(),
    ensures
        match r {
            Ok((n, q)) => pos < q <= s@.len() && spec_number(s@.skip(pos as int)) == Ok::<(nat, nat), DecodeError>((n as nat, (q - pos) as nat)),
            Err(e) => spec_number(s@.skip(pos as int)) == Err::<(nat, nat), DecodeError>(e),
        },
{
    let mut q: usize = pos;
    while q < s.len() && 48 <= s[q] && s[q] <= 57
        invariant
            pos <= q <= s@.len(),
            digit_run(s@.skip(pos as int)) == (q - pos) + digit_run(s@.skip(q as int)),
            forall|j: int| pos <= j < q ==> is_digit(#[trigger] s@[j]),
        decreases s@.len() - q,
    {
        proof {
            lemma_digit_run_step(s@, q as int);
        }
        q = q + 1;
    }
    assert(digit_run(s@.skip(q as int)) == 0);
    if q == pos {
        return Err(DecodeError::MalformedNumber);
    }
    let ghost whole = s@.skip(pos as int).take((q - pos) as int);
    assert(whole =~= s@.subrange(pos as int, q as int));
    assert(digit_run(s@.skip(pos as int)) == q - pos);
    let mut acc: u64 = 0;
    let mut i: usize = pos;
    while i < q
        invariant
            pos <= i <= q <= s@.len(),
            whole == s@.subrange(pos as int, q as int),
            whole == s@.skip(pos as int).take((q - pos) as int),
            digit_run(s@.skip(pos as int)) == q - pos,
            forall|j: int| pos <= j < q ==> is_digit(#[trigger] s@[j]),
            acc as nat == digits_value(s@.subrange(pos as int, i as int)),
        decreases q - i,
    {
        proof {
            lemma_digits_value_step(s@, pos as int, i as int);
        }
        let d: u64 = (s[i] - 48) as u64;
        match acc.checked_mul(10) {
            Some(m) => match m.checked_add(d) {
                Some(v) => {
                    acc = v;
                },
                None => {
                    proof {
                        assert(whole.take(i + 1 - pos) =~= s@.subrange(pos as int, i + 1));
                        lemma_digits_value_prefix(whole, i + 1 - pos);
                    }
                    return Err(DecodeError::NumericOverflow);
                },
            },
            None => {
                proof {
                    assert(whole.take(i + 1 - pos) =~= s@.subrange(pos as int, i + 1));
                    lemma_digits_value_prefix(whole, i + 1 - pos);
                }
                return Err(DecodeError::NumericOverflow);
            },
        }
        i = i + 1;
    }
    Ok((acc, q))
}

proof fn lemma_skip_next(s: Seq<u8>, pos: int)
    requires
        0 <= pos < s.len(),
    ensures
        s.skip(pos).drop_first() == s.skip(pos + 1),
        s.skip(pos)[0] == s[pos],
{
    assert(s.skip(pos).drop_first() =~= s.skip(pos + 1));
}

/// Reads a signed number at `pos`.
fn signed_at(s: &[u8], pos: usize) -> (r: Result<(i64, usize), DecodeError>)
    requires
        pos <= s@.len(),
    ensures
        match r {
            Ok((n, q)) => pos < q <= s@.len() && spec_signed(s@.skip(pos as int)) == Ok::<(int, nat), DecodeError>((n as int, (q - pos) as nat)),
            Err(e) => spec_signed(s@.skip(pos as int)) == Err::<(int, nat), DecodeError>(e),
        },
{
    if pos < s.len() && s[pos] == 45 {
        proof {
            lemma_skip_next(s@, pos as int);
        }
        match number_at(s, pos + 1) {
            Ok((n, q)) => {
                if n > 0x8000_0000_0000_0000 {
                    Err(DecodeError::SignedOverflow)
                } else if n == 0x8000_0000_0000_0000 {
                    Ok((i64::MIN, q))
                } else {
                    Ok((-(n as i64), q))
                }
            },
            Err(e) => Err(e),
        }
    } else {
        match number_at(s, pos) {
            Ok((n, q)) => {
                if n > 0x7fff_ffff_ffff_ffff {
                    Err(DecodeError::SignedOverflow)
                } else {
                    Ok((n as i64, q))
                }
            },
            Err(e) => Err(e),
        }
    }
}

/// Reads a byte string's payload at `pos`.
fn bytes_at(s: &[u8], pos: usize) -> (r: Result<(Vec<u8>, usize), DecodeError>)
    requires
        pos <= s@.len(),
    ensures
        match r {
            Ok((b, q)) => pos < q <= s@.len() && spec_bytes(s@.skip(pos as int)) == Ok::<(Seq<u8>, nat), DecodeError>((b@, (q - pos) as nat)),
            Err(e) => spec_bytes(s@.skip(pos as int)) == Err::<(Seq<u8>, nat), DecodeError>(e),
        },
{
    let (n, q) = match number_at(s, pos) {
        Ok(r) => r,
        Err(e) => return Err(e),
    };
    if q >= s.len() || s[q] != 58 {
        return Err(DecodeError::MissingDelimiter);
    }
    if ((s.len() - (q + 1)) as u64) < n {
        return Err(DecodeError::TruncatedString);
    }
    let start: usize = q + 1;
    let end: usize = start + n as usize;
    let mut b: Vec<u8> = Vec::new();
    let mut i: usize = start;
    while i < end
        invariant
            start <= i <= end <= s@.len(),
            b@ == s@.subrange(start as int, i as int),
        decreases end - i,
    {
        b.push(s[i]);
        proof {
            assert(b@ =~= s@.subrange(start as int, i + 1));
        }
        i = i + 1;
    }
    proof {
        assert(s@.skip(pos as int).subrange(q - pos + 1, end - pos) =~= b@);
    }
    Ok((b, end))
}

/// Reads an integer at `pos`.
fn integer_at(s: &[u8], pos: usize) -> (r: Result<(Value, usize), DecodeError>)
    requires
        pos <= s@.len(),
    ensures
        match r {
            Ok((v, q)) => pos < q <= s@.len() && spec_integer(s@.skip(pos as int)) == Ok::<(Node, nat), DecodeError>((v.node(), (q - pos) as nat)),
            Err(e) => spec_integer(s@.skip(pos as int)) == Err::<(Node, nat), DecodeError>(e),
        },
{
    if pos >= s.len() || s[pos] != 105 {
        return Err(DecodeError::UnexpectedToken);
    }
    proof {
        lemma_skip_next(s@, pos as int);
    }
    let (n, q) = match signed_at(s, pos + 1) {
        Ok(r) => r,
        Err(e) => return Err(e),
    };
    if q < s.len() && s[q] == 101 {
        Ok((Value::Integer(n), q + 1))
    } else {
        Err(DecodeError::UnterminatedInteger)
    }
}

/// Reads a byte string at `pos`.
fn string_at(s: &[u8], pos: usize) -> (r: Result<(Value, usize), DecodeError>)
    requires
        pos <= s@.len(),
    ensures
        match r {
            Ok((v, q)) => pos < q <= s@.len() && spec_string(s@.skip(pos as int)) == Ok::<(Node, nat), DecodeError>((v.node(), (q - pos) as nat)),
            Err(e) => spec_string(s@.skip(pos as int)) == Err::<(Node, nat), DecodeError>(e),
        },
{
    match bytes_at(s, pos) {
        Ok((b, q)) => Ok((Value::String(b), q)),
        Err(e) => Err(e),
    }
}

proof fn lemma_skip_skip(s: Seq<u8>, p: int, q: int)
    requires
        0 <= p <= q <= s.len(),
    ensures
        s.skip(p).skip(q - p) == s.skip(q),
{
    assert(s.skip(p).skip(q - p) =~= s.skip(q));
}

/// Whether two byte strings are equal.
fn bytes_eq(a: &Vec<u8>, b: &Vec<u8>) -> (r: bool)
    ensures
        r == (a@ == b@),
{
    if a.len() != b.len() {
        return false;
    }
    let mut i: usize = 0;
    while i < a.len()
        invariant
            a@.len() == b@.len(),
            0 <= i <= a@.len(),
            forall|j: int| 0 <= j < i ==> a@[j] == b@[j],
        decreases a@.len() - i,
    {
        if a[i] != b[i] {
            return false;
        }
        i = i + 1;
    }
    assert(a@ =~= b@);
    true
}

proof fn lemma_find_key(e: Seq<(Seq<u8>, Node)>, k: Seq<u8>, i: int)
    requires
        0 <= i <= e.len(),
        forall|j: int| 0 <= j < i ==> (#[trigger] e[j]).0 != k,
        i < e.len() ==> e[i].0 == k,
    ensures
        find_key(e, k) == (if i < e.len() { i } else { -1 }),
    decreases e.len(),
{
    if e.len() > 0 && i > 0 {
        assert(e[0].0 != k);
        let rest = e.drop_first();
        assert forall|j: int| 0 <= j < i - 1 implies (#[trigger] rest[j]).0 != k by {
            assert(rest[j] == e[j + 1]);
        }
        lemma_find_key(rest, k, i - 1);
    }
}

/// Adds an entry to a dictionary: an existing key takes the new value in
/// its place, a new key goes last.
fn insert_entry_at(entries: &mut Vec<(Vec<u8>, Value)>, key: Vec<u8>, v: Value)
    ensures
        entries_of(final(entries)@) == insert_entry(entries_of(old(entries)@), key@, v.node()),
{
    proof {
        lemma_entries_of_index(entries@);
    }
    let mut i: usize = 0;
    while i < entries.len()
        invariant_except_break
            0 <= i <= entries@.len(),
            entries_of(entries@).len() == entries@.len(),
            forall|j: int| 0 <= j < entries@.len() ==> #[trigger] entries_of(entries@)[j] == (entries@[j].0@, entries@[j].1.node()),
            forall|j: int| 0 <= j < i ==> (#[trigger] entries_of(entries@)[j]).0 != key@,
        ensures
            0 <= i <= entries@.len(),
            entries_of(entries@).len() == entries@.len(),
            forall|j: int| 0 <= j < i ==> (#[trigger] entries_of(entries@)[j]).0 != key@,
            i < entries@.len() ==> entries_of(entries@)[i as int].0 == key@,
        decreases entries@.len() - i,
    {
        if bytes_eq(&entries[i].0, &key) {
            assert(entries_of(entries@)[i as int] == (entries@[i as int].0@, entries@[i as int].1.node()));
            break;
        }
        i = i + 1;
    }
    proof {
        lemma_find_key(entries_of(entries@), key@, i as int);
    }
    if i < entries.len() {
        proof {
            lemma_entries_of_update(entries@, i as int, (key, v));
        }
        entries.set(i, (key, v));
    } else {
        proof {
            lemma_entries_of_push(entries@, (key, v));
        }
        entries.push((key, v));
    }
}

/// Reads any value at `pos`.
fn value_at(s: &[u8], pos: usize) -> (r: Result<(Value, usize), DecodeError>)
    requires
        pos <= s@.len(),
    ensures
        match r {
            Ok((v, q)) => pos < q <= s@.len() && spec_value(s@.skip(pos as int)) == Ok::<(Node, nat), DecodeError>((v.node(), (q - pos) as nat)),
            Err(e) => spec_value(s@.skip(pos as int)) == Err::<(Node, nat), DecodeError>(e),
        },
    decreases s@.len() - pos, 1nat,
{
    if pos >= s.len() {
        return Err(DecodeError::NoMatchingValueForm);
    }
    let c = s[pos];
    if 48 <= c && c <= 57 {
        string_at(s, pos)
    } else if c == 105 {
        integer_at(s, pos)
    } else if c == 108 {
        list_at(s, pos)
    } else if c == 100 {
        dict_at(s, pos)
    } else {
        Err(DecodeError::NoMatchingValueForm)
    }
}

/// Reads a list at `pos`.
fn list_at(s: &[u8], pos: usize) -> (r: Result<(Value, usize), DecodeError>)
    requires
        pos <= s@.len(),
    ensures
        match r {
            Ok((v, q)) => pos < q <= s@.len() && spec_list(s@.skip(pos as int)) == Ok::<(Node, nat), DecodeError>((v.node(), (q - pos) as nat)),
            Err(e) => spec_list(s@.skip(pos as int)) == Err::<(Node, nat), DecodeError>(e),
        },
    decreases s@.len() - pos, 0nat,
{
    if pos >= s.len() || s[pos] != 108 {
        return Err(DecodeError::UnexpectedToken);
    }
    proof {
        lemma_skip_next(s@, pos as int);
    }
    let ghost start = (pos + 1) as int;
    let mut items: Vec<Value> = Vec::new();
    let mut p: usize = pos + 1;
    let mut err = DecodeError::NoMatchingValueForm;
    loop
        invariant
            pos < p <= s@.len(),
            spec_items(s@.skip(start)) == (
                nodes_of(items@) + spec_items(s@.skip(p as int)).0,
                ((p - start) + spec_items(s@.skip(p as int)).1) as nat,
                spec_items(s@.skip(p as int)).2,
            ),
        ensures
            pos < p <= s@.len(),
            spec_items(s@.skip(start)) == (nodes_of(items@), (p - start) as nat, err),
        decreases s@.len() - p,
    {
        match value_at(s, p) {
            Ok((v, q)) => {
                proof {
                    lemma_skip_skip(s@, p as int, q as int);
                    lemma_nodes_of_push(items@, v);
                    let rest = spec_items(s@.skip(q as int));
                    assert(nodes_of(items@).push(v.node()) + rest.0 =~= nodes_of(items@) + (seq![v.node()] + rest.0));
                }
                items.push(v);
                p = q;
            },
            Err(e) => {
                err = e;
                proof {
                    assert(nodes_of(items@) + Seq::<Node>::empty() =~= nodes_of(items@));
                }
                break;
            },
        }
    }
    proof {
        lemma_nodes_of_len(items@);
        assert(p < s@.len() ==> s@.skip(pos as int)[p - pos] == s@[p as int]);
    }
    if items.len() == 0 {
        if p < s.len() && s[p] == 101 {
            Err(DecodeError::EmptyCollectionRejected)
        } else {
            Err(err)
        }
    } else if p < s.len() && s[p] == 101 {
        Ok((Value::List(items), p + 1))
    } else {
        Err(DecodeError::UnterminatedCollection)
    }
}

/// Reads a dictionary at `pos`.
fn dict_at(s: &[u8], pos: usize) -> (r: Result<(Value, usize), DecodeError>)
    requires
        pos <= s@.len(),
    ensures
        match r {
            Ok((v, q)) => pos < q <= s@.len() && spec_dict(s@.skip(pos as int)) == Ok::<(Node, nat), DecodeError>((v.node(), (q - pos) as nat)),
            Err(e) => spec_dict(s@.skip(pos as int)) == Err::<(Node, nat), DecodeError>(e),
        },
    decreases s@.len() - pos, 0nat,
{
    if pos >= s.len() || s[pos] != 100 {
        return Err(DecodeError::UnexpectedToken);
    }
    proof {
        lemma_skip_next(s@, pos as int);
    }
    let ghost start = (pos + 1) as int;
    let ghost mut read: Seq<(Seq<u8>, Node)> = Seq::empty();
    let mut entries: Vec<(Vec<u8>, Value)> = Vec::new();
    let mut p: usize = pos + 1;
    let mut err = DecodeError::NoMatchingValueForm;
    let mut any = false;
    loop
        invariant
            pos < p <= s@.len(),
            any == (read.len() > 0),
            spec_pairs(s@.skip(start)) == (
                read + spec_pairs(s@.skip(p as int)).0,
                ((p - start) + spec_pairs(s@.skip(p as int)).1) as nat,
                spec_pairs(s@.skip(p as int)).2,
            ),
            entries_of(entries@) == build_dict(read),
        ensures
            pos < p <= s@.len(),
            any == (read.len() > 0),
            spec_pairs(s@.skip(start)) == (read, (p - start) as nat, err),
            entries_of(entries@) == build_dict(read),
        decreases s@.len() - p,
    {
        let (key, k) = match bytes_at(s, p) {
            Ok(r) => r,
            Err(e) => {
                err = e;
                proof {
                    assert(spec_pair(s@.skip(p as int)) == Err::<(Seq<u8>, Node, nat), DecodeError>(e));
                    assert(read + Seq::<(Seq<u8>, Node)>::empty() =~= read);
                }
                break;
            },
        };
        proof {
            lemma_skip_skip(s@, p as int, k as int);
        }
        match value_at(s, k) {
            Ok((v, q)) => {
                proof {
                    lemma_skip_skip(s@, p as int, q as int);
                    assert(spec_pair(s@.skip(p as int)) == Ok::<(Seq<u8>, Node, nat), DecodeError>((key@, v.node(), (q - p) as nat)));
                    let rest = spec_pairs(s@.skip(q as int));
                    let x = (key@, v.node());
                    assert(read.push(x) + rest.0 =~= read + (seq![x] + rest.0));
                    assert(read.push(x).drop_last() =~= read);
                    read = read.push(x);
                }
                insert_entry_at(&mut entries, key, v);
                any = true;
                p = q;
            },
            Err(e) => {
                err = e;
                proof {
                    assert(spec_pair(s@.skip(p as int)) == Err::<(Seq<u8>, Node, nat), DecodeError>(e));
                    assert(read + Seq::<(Seq<u8>, Node)>::empty() =~= read);
                }
                break;
            },
        }
    }
    proof {
        assert(p < s@.len() ==> s@.skip(pos as int)[p - pos] == s@[p as int]);
    }
    if !any {
        if p < s.len() && s[p] == 101 {
            Err(DecodeError::EmptyCollectionRejected)
        } else {
            Err(err)
        }
    } else if p < s.len() && s[p] == 101 {
        Ok((Value::Dict(entries), p + 1))
    } else {
        Err(DecodeError::UnterminatedCollection)
    }
}

/// `v` was read from the front of `i`, and `rest` is what follows it.
pub open spec fn reads(form: Result<(Node, nat), DecodeError>, i: Seq<u8>, v: Value, rest: Seq<u8>) -> bool {
    &&& rest.len() <= i.len()
    &&& rest == i.skip(i.len() - rest.len())
    &&& form == Ok::<(Node, nat), DecodeError>((v.node(), (i.len() - rest.len()) as nat))
}

/// What a public reader returns, given what it returned at position 0.
fn finish<'a>(i: &'a [u8], r: Result<(Value, usize), DecodeError>, Ghost(form): Ghost<Result<(Node, nat), DecodeError>>)
    -> (out: Result<(Value, &'a [u8]), DecodeError>)
    requires
        match r {
            Ok((v, q)) => 0 < q <= i@.len() && form == Ok::<(Node, nat), DecodeError>((v.node(), q as nat)),
            Err(e) => form == Err::<(Node, nat), DecodeError>(e),
        },
    ensures
        match out {
            Ok((v, rest)) => reads(form, i@, v, rest@),
            Err(e) => form == Err::<(Node, nat), DecodeError>(e),
        },
{
    match r {
        Ok((v, q)) => {
            let rest = vstd::slice::slice_subrange(i, q, i.len());
            proof {
                assert(rest@ =~= i@.skip(q as int));
            }
            Ok((v, rest))
        },
        Err(e) => Err(e),
    }
}

/// Decodes the value at the front of `i`, giving it with the bytes that
/// follow it.
pub fn value(i: &[u8]) -> (r: Result<(Value, &[u8]), DecodeError>)
    ensures
        match r {
            Ok((v, rest)) => reads(spec_value(i@), i@, v, rest@),
            Err(e) => spec_value(i@) == Err::<(Node, nat), DecodeError>(e),
        },
{
    assert(i@.skip(0) =~= i@);
    finish(i, value_at(i, 0), Ghost(spec_value(i@)))
}

/// Decodes a byte string at the front of `i`.
pub fn string(i: &[u8]) -> (r: Result<(Value, &[u8]), DecodeError>)
    ensures
        match r {
            Ok((v, rest)) => reads(spec_string(i@), i@, v, rest@),
            Err(e) => spec_string(i@) == Err::<(Node, nat), DecodeError>(e),
        },
{
    assert(i@.skip(0) =~= i@);
    finish(i, string_at(i, 0), Ghost(spec_string(i@)))
}

/// Decodes an integer at the front of `i`.
pub fn integer(i: &[u8]) -> (r: Result<(Value, &[u8]), DecodeError>)
    ensures
        match r {
            Ok((v, rest)) => reads(spec_integer(i@), i@, v, rest@),
            Err(e) => spec_integer(i@) == Err::<(Node, nat), DecodeError>(e),
        },
{
    assert(i@.skip(0) =~= i@);
    finish(i, integer_at(i, 0), Ghost(spec_integer(i@)))
}

/// Decodes a list at the front of `i`.
pub fn list(i: &[u8]) -> (r: Result<(Value, &[u8]), DecodeError>)
    ensures
        match r {
            Ok((v, rest)) => reads(spec_list(i@), i@, v, rest@),
            Err(e) => spec_list(i@) == Err::<(Node, nat), DecodeError>(e),
        },
{
    assert(i@.skip(0) =~= i@);
    finish(i, list_at(i, 0), Ghost(spec_list(i@)))
}

/// Decodes a dictionary at the front of `i`.
pub fn dict(i: &[u8]) -> (r: Result<(Value, &[u8]), DecodeError>)
    ensures
        match r {
            Ok((v, rest)) => reads(spec_dict(i@), i@, v, rest@),
            Err(e) => spec_dict(i@) == Err::<(Node, nat), DecodeError>(e),
        },
{
    assert(i@.skip(0) =~= i@);
    finish(i, dict_at(i, 0), Ghost(spec_dict(i@)))
}

} // verus!
