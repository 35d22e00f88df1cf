use bencode::{dict, integer, list, string, value, DecodeError, Value};

fn bytes(s: &str) -> Vec<u8> {
    s.as_bytes().to_vec()
}

fn done(v: Value) -> Result<(Value, &'static [u8]), DecodeError> {
    Ok((v, &[][..]))
}

fn done_string(x: &[u8]) -> Result<(Value, &'static [u8]), DecodeError> {
    done(Value::String(x.to_vec()))
}

#[test]
fn strings() {
    let res = "hello world!".as_bytes();
    let data = "12:hello world!".as_bytes();
    assert_eq!(done_string(res), string(data));
}

#[test]
fn integers() {
    let res = 123;
    let data = "i123e".as_bytes();
    assert_eq!(done(Value::Integer(res)), integer(data));
}

#[test]
fn negative_integer() {
    let res: i64 = -123;
    let data = "i-123e".as_bytes();
    assert_eq!(done(Value::Integer(res)), integer(data));
}

#[test]
fn lists() {
    let res = vec![
        Value::String(bytes("jelly")),
        Value::String(bytes("cake")),
        Value::String(bytes("custard")),
    ];
    let data = "l5:jelly4:cake7:custarde".as_bytes();
    assert_eq!(done(Value::List(res)), list(data));
}

#[test]
fn dicts() {
    let pairs = vec![
        (bytes("name"), Value::String(bytes("cream"))),
        (bytes("price"), Value::Integer(100)),
    ];
    let data = "d4:name5:cream5:pricei100ee".as_bytes();
    assert_eq!(done(Value::Dict(pairs)), dict(data));
}

#[test]
fn larger_example() {
    let data = b"d3:bard3:bazli1ei2ei3ei4e5:helloee3:fooi123e3:qux54:This is a much longer string containing\nnew\nlines\netc.6:wibbleli123123e3:foo3:bar3:bazi123124eli1e1:ael1:bi4eel2:cdeee";
    let res = value(data);
    assert!(res.is_ok());
}

#[test]
fn larger_example_tree() {
    let data = b"d3:bard3:bazli1ei2ei3ei4e5:helloee3:fooi123e3:qux54:This is a much longer string containing\nnew\nlines\netc.6:wibbleli123123e3:foo3:bar3:bazi123124eli1e1:ael1:bi4eel2:cdeee";
    let s = |x: &str| Value::String(bytes(x));
    let expected = Value::Dict(vec![
        (
            bytes("bar"),
            Value::Dict(vec![(
                bytes("baz"),
                Value::List(vec![
                    Value::Integer(1),
                    Value::Integer(2),
                    Value::Integer(3),
                    Value::Integer(4),
                    s("hello"),
                ]),
            )]),
        ),
        (bytes("foo"), Value::Integer(123)),
        (
            bytes("qux"),
            s("This is a much longer string containing\nnew\nlines\netc."),
        ),
        (
            bytes("wibble"),
            Value::List(vec![
                Value::Integer(123123),
                s("foo"),
                s("bar"),
                s("baz"),
                Value::Integer(123124),
                Value::List(vec![Value::Integer(1), s("a")]),
                Value::List(vec![s("b"), Value::Integer(4)]),
                Value::List(vec![s("cd")]),
            ]),
        ),
    ]);
    assert_eq!(value(data), done(expected));
}

#[test]
fn string_of_every_length_prefix() {
    for n in [0usize, 1, 9, 10, 11, 100, 255] {
        let payload: Vec<u8> = (0..n).map(|k| (k % 256) as u8).collect();
        let mut data = format!("{}:", n).into_bytes();
        data.extend_from_slice(&payload);
        assert_eq!(value(&data), done_string(&payload));
    }
}

#[test]
fn string_with_binary_and_delimiter_bytes() {
    let data = b"5:a:e\x00\xff";
    assert_eq!(value(data), done_string(b"a:e\x00\xff"));
}

#[test]
fn string_leaves_rest() {
    let data = b"3:abcxyz";
    assert_eq!(value(data), Ok((Value::String(bytes("abc")), &b"xyz"[..])));
}

#[test]
fn integer_forms() {
    assert_eq!(value(b"i123e"), done(Value::Integer(123)));
    assert_eq!(value(b"i-123e"), done(Value::Integer(-123)));
    assert_eq!(value(b"i0e"), done(Value::Integer(0)));
    assert_eq!(value(b"i-0e"), done(Value::Integer(0)));
    assert_eq!(value(b"i007e"), done(Value::Integer(7)));
}

#[test]
fn integer_limits() {
    assert_eq!(value(b"i9223372036854775807e"), done(Value::Integer(i64::MAX)));
    assert_eq!(value(b"i-9223372036854775808e"), done(Value::Integer(i64::MIN)));
    assert_eq!(value(b"i9223372036854775808e"), Err(DecodeError::SignedOverflow));
    assert_eq!(value(b"i-9223372036854775809e"), Err(DecodeError::SignedOverflow));
    assert_eq!(value(b"i18446744073709551616e"), Err(DecodeError::NumericOverflow));
    assert_eq!(value(b"i99999999999999999999999e"), Err(DecodeError::NumericOverflow));
}

#[test]
fn string_length_overflow() {
    assert_eq!(value(b"18446744073709551616:a"), Err(DecodeError::NumericOverflow));
}

#[test]
fn empty_collections_rejected() {
    assert_eq!(value(b"le"), Err(DecodeError::EmptyCollectionRejected));
    assert_eq!(value(b"de"), Err(DecodeError::EmptyCollectionRejected));
    assert_eq!(list(b"le"), Err(DecodeError::EmptyCollectionRejected));
    assert_eq!(dict(b"de"), Err(DecodeError::EmptyCollectionRejected));
}

#[test]
fn malformed_inputs() {
    assert_eq!(value(b"5jelly"), Err(DecodeError::MissingDelimiter));
    assert_eq!(value(b"5"), Err(DecodeError::MissingDelimiter));
    assert_eq!(value(b"10:short"), Err(DecodeError::TruncatedString));
    assert_eq!(value(b"l5:jelly"), Err(DecodeError::UnterminatedCollection));
    assert_eq!(value(b"li1ei2e"), Err(DecodeError::UnterminatedCollection));
    assert_eq!(value(b"d3:fooe"), Err(DecodeError::NoMatchingValueForm));
    assert_eq!(value(b"d3:fooi1e3:bare"), Err(DecodeError::UnterminatedCollection));
    assert_eq!(value(b"di1ei2ee"), Err(DecodeError::MalformedNumber));
    assert_eq!(value(b"i12"), Err(DecodeError::UnterminatedInteger));
    assert_eq!(value(b"i12x"), Err(DecodeError::UnterminatedInteger));
    assert_eq!(value(b"ie"), Err(DecodeError::MalformedNumber));
    assert_eq!(value(b"i-e"), Err(DecodeError::MalformedNumber));
    assert_eq!(value(b""), Err(DecodeError::NoMatchingValueForm));
    assert_eq!(value(b"x"), Err(DecodeError::NoMatchingValueForm));
    assert_eq!(value(b"l"), Err(DecodeError::NoMatchingValueForm));
}

#[test]
fn readers_reject_other_forms() {
    assert_eq!(string(b"i1e"), Err(DecodeError::MalformedNumber));
    assert_eq!(integer(b"1:a"), Err(DecodeError::UnexpectedToken));
    assert_eq!(list(b"d1:ai1ee"), Err(DecodeError::UnexpectedToken));
    assert_eq!(dict(b"li1ee"), Err(DecodeError::UnexpectedToken));
}

#[test]
fn duplicate_keys_last_wins() {
    let data = b"d1:ai1e1:bi2e1:ai3ee";
    let expected = Value::Dict(vec![
        (bytes("a"), Value::Integer(3)),
        (bytes("b"), Value::Integer(2)),
    ]);
    assert_eq!(value(data), done(expected));
}

#[test]
fn nested_collections() {
    let data = b"ld1:xli1e2:y\ne1:zi-5eee";
    let expected = Value::List(vec![Value::Dict(vec![
        (
            bytes("x"),
            Value::List(vec![Value::Integer(1), Value::String(bytes("y\n"))]),
        ),
        (bytes("z"), Value::Integer(-5)),
    ])]);
    assert_eq!(value(data), done(expected));
}

#[test]
fn decoding_is_deterministic() {
    let data = b"d3:bard3:bazli1ei2ee5:helloee3:fooi123ee";
    assert_eq!(value(data), value(data));
    let bad = b"l5:jelly";
    assert_eq!(value(bad), value(bad));
}
