//! Properties of the decoder, proved over the grammar.
use vstd::prelude::*;
use crate::decode::reads;
use crate::grammar::{build_dict, digit_run, digits_value, find_key, insert_entry, is_digit, spec_value};
use crate::value::{DecodeError, Node, Value};

verus! {

/// The decimal digits of `n`, without leading zeros.
pub open spec fn decimal(n: nat) -> Seq<u8>
    decreases n,
{
    if n < 10 {
        seq![(48 + n) as u8]
    } else {
        decimal(n / 10).push((48 + n % 10) as u8)
    }
}

proof fn lemma_decimal(n: nat)
    ensures
        decimal(n).len() >= 1,
        forall|j: int| 0 <= j < decimal(n).len() ==> is_digit(#[trigger] decimal(n)[j]),
        digits_value(decimal(n)) == n,
    decreases n,
{
    if n < 10 {
        assert(decimal(n).drop_last() =~= Seq::<u8>::empty());
        assert(decimal(n).last() == 48 + n);
        assert(digits_value(decimal(n)) == digits_value(Seq::<u8>::empty()) * 10 + n);
    } else {
        lemma_decimal(n / 10);
        assert(decimal(n).drop_last() =~= decimal(n / 10));
        assert(decimal(n).last() == 48 + n % 10);
        assert((n / 10) * 10 + n % 10 == n);
        assert(digits_value(decimal(n)) == digits_value(decimal(n / 10)) * 10 + n % 10);
    }
}

proof fn lemma_digit_run_prefix(d: Seq<u8>, rest: Seq<u8>)
    requires
        forall|j: int| 0 <= j < d.len() ==> is_digit(#[trigger] d[j]),
        rest.len() == 0 || !is_digit(rest[0]),
    ensures
        digit_run(d + rest) == d.len(),
    decreases d.len(),
{
    if d.len() > 0 {
        assert((d + rest).drop_first() =~= d.drop_first() + rest);
        lemma_digit_run_prefix(d.drop_first(), rest);
    } else {
        assert(d + rest =~= rest);
    }
}

/// A byte string of any length, written as its decimal length, `:` and its
/// bytes, decodes to exactly those bytes and consumes the whole input.
pub proof fn lemma_string_round_trip(s: Seq<u8>)
    requires
        s.len() <= u64::MAX,
    ensures
        spec_value(decimal(s.len()) + seq![58u8] + s) == Ok::<(Node, nat), DecodeError>(
            (Node::Bytes(s), (decimal(s.len()) + seq![58u8] + s).len()),
        ),
{
    let d = decimal(s.len());
    let t = d + seq![58u8] + s;
    lemma_decimal(s.len());
    assert(t =~= d + (seq![58u8] + s));
    lemma_digit_run_prefix(d, seq![58u8] + s);
    assert(t.take(d.len() as int) =~= d);
    assert(t[d.len() as int] == 58u8);
    assert(t[0] == d[0]);
    assert(t.subrange(d.len() + 1 as int, (d.len() + 1 + s.len()) as int) =~= s);
}

/// Decoding the same bytes twice gives equal trees and leaves the same rest.
pub proof fn lemma_decode_deterministic(i: Seq<u8>, v1: Value, rest1: Seq<u8>, v2: Value, rest2: Seq<u8>)
    requires
        reads(spec_value(i), i, v1, rest1),
        reads(spec_value(i), i, v2, rest2),
    ensures
        v1.node() == v2.node(),
        rest1 == rest2,
{
}

/// No two entries share a key.
pub open spec fn keys_unique(e: Seq<(Seq<u8>, Node)>) -> bool {
    forall|i: int, j: int| 0 <= i < j < e.len() ==> #[trigger] e[i].0 != #[trigger] e[j].0
}

/// Index of the last entry with key `k`, or -1 when there is none.
pub open spec fn last_index(pairs: Seq<(Seq<u8>, Node)>, k: Seq<u8>) -> int
    decreases pairs.len(),
{
    if pairs.len() == 0 {
        -1
    } else if pairs.last().0 == k {
        pairs.len() - 1
    } else {
        last_index(pairs.drop_last(), k)
    }
}

proof fn lemma_find_key_found(e: Seq<(Seq<u8>, Node)>, k: Seq<u8>)
    ensures
        find_key(e, k) < e.len(),
        find_key(e, k) >= 0 ==> e[find_key(e, k)].0 == k,
        find_key(e, k) < 0 ==> forall|j: int| 0 <= j < e.len() ==> (#[trigger] e[j]).0 != k,
    decreases e.len(),
{
    if e.len() > 0 && e[0].0 != k {
        lemma_find_key_found(e.drop_first(), k);
        assert forall|j: int| 0 < j < e.len() implies e[j] == e.drop_first()[j - 1] by {}
    }
}

proof fn lemma_last_index(pairs: Seq<(Seq<u8>, Node)>, k: Seq<u8>)
    ensures
        -1 <= last_index(pairs, k) < pairs.len(),
        last_index(pairs, k) >= 0 ==> pairs[last_index(pairs, k)].0 == k,
    decreases pairs.len(),
{
    if pairs.len() > 0 && pairs.last().0 != k {
        lemma_last_index(pairs.drop_last(), k);
    }
}

/// A dictionary built from the entries read keeps one entry per key: every
/// key read has an entry, and each entry holds the value read last for its
/// key.
pub proof fn lemma_dict_last_write_wins(pairs: Seq<(Seq<u8>, Node)>)
    ensures
        keys_unique(build_dict(pairs)),
        forall|j: int| 0 <= j < build_dict(pairs).len() ==> {
            let k = (#[trigger] build_dict(pairs)[j]).0;
            last_index(pairs, k) >= 0 && build_dict(pairs)[j].1 == pairs[last_index(pairs, k)].1
        },
        forall|i: int| 0 <= i < pairs.len() ==> exists|j: int|
            0 <= j < build_dict(pairs).len() && #[trigger] build_dict(pairs)[j].0 == #[trigger] pairs[i].0,
    decreases pairs.len(),
{
    if pairs.len() > 0 {
        let init = pairs.drop_last();
        let (k0, v0) = pairs.last();
        let d = build_dict(init);
        let r = build_dict(pairs);
        lemma_dict_last_write_wins(init);
        lemma_find_key_found(d, k0);
        assert(r == insert_entry(d, k0, v0));
        let f = find_key(d, k0);
        assert forall|j: int| 0 <= j < r.len() implies {
            let k = (#[trigger] r[j]).0;
            last_index(pairs, k) >= 0 && r[j].1 == pairs[last_index(pairs, k)].1
        } by {
            if r[j].0 != k0 {
                assert(r[j] == d[j]);
                assert(last_index(pairs, r[j].0) == last_index(init, r[j].0));
                lemma_last_index(init, r[j].0);
            }
        }
        assert forall|i: int| 0 <= i < pairs.len() implies exists|j: int|
            0 <= j < r.len() && #[trigger] r[j].0 == #[trigger] pairs[i].0 by {
            if i == pairs.len() - 1 {
                if f >= 0 {
                    assert(r[f].0 == pairs[i].0);
                } else {
                    assert(r[d.len() as int].0 == pairs[i].0);
                }
            } else {
                assert(pairs[i] == init[i]);
                let j = choose|j: int| 0 <= j < d.len() && #[trigger] d[j].0 == #[trigger] init[i].0;
                assert(r[j].0 == pairs[i].0);
            }
        }
    }
}

} // verus!
