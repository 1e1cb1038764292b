use miniredis::decode::DecodeError;
use miniredis::resp::Resp;

fn bulk(s: &[u8]) -> Resp {
    Resp::BulkString(Some(s.to_vec()))
}

fn decode_all(bytes: &[u8]) -> (Resp, usize) {
    Resp::decode(&bytes.to_vec(), 0).expect("expected a complete value")
}

#[test]
fn encode_simple_string() {
    assert_eq!(Resp::SimpleString(b"OK".to_vec()).encode(), b"+OK\r\n".to_vec());
}

#[test]
fn encode_error() {
    assert_eq!(Resp::Error(b"oops".to_vec()).encode(), b"-oops\r\n".to_vec());
}

#[test]
fn encode_integers() {
    assert_eq!(Resp::Integer(1234).encode(), b":1234\r\n".to_vec());
    assert_eq!(Resp::Integer(0).encode(), b":0\r\n".to_vec());
    assert_eq!(Resp::Integer(-42).encode(), b":-42\r\n".to_vec());
    assert_eq!(
        Resp::Integer(i64::MIN).encode(),
        b":-9223372036854775808\r\n".to_vec()
    );
    assert_eq!(
        Resp::Integer(i64::MAX).encode(),
        b":9223372036854775807\r\n".to_vec()
    );
}

#[test]
fn encode_bulk_string() {
    assert_eq!(bulk(b"hello").encode(), b"$5\r\nhello\r\n".to_vec());
    assert_eq!(bulk(b"").encode(), b"$0\r\n\r\n".to_vec());
    assert_eq!(Resp::BulkString(None).encode(), b"$-1\r\n".to_vec());
}

#[test]
fn encode_bulk_length_counts_bytes_not_chars() {
    // payload with an embedded CR LF: the declared length is its byte count
    assert_eq!(bulk(b"a\r\nb").encode(), b"$4\r\na\r\nb\r\n".to_vec());
}

#[test]
fn encode_arrays() {
    assert_eq!(Resp::Array(None).encode(), b"*-1\r\n".to_vec());
    assert_eq!(Resp::Array(Some(vec![])).encode(), b"*0\r\n".to_vec());
    assert_eq!(
        Resp::Array(Some(vec![bulk(b"PING")])).encode(),
        b"*1\r\n$4\r\nPING\r\n".to_vec()
    );
    let nested = Resp::Array(Some(vec![
        Resp::Integer(7),
        Resp::Array(Some(vec![Resp::SimpleString(b"hi".to_vec())])),
        Resp::BulkString(None),
    ]));
    assert_eq!(
        nested.encode(),
        b"*3\r\n:7\r\n*1\r\n+hi\r\n$-1\r\n".to_vec()
    );
}

#[test]
fn decode_simple_string() {
    let (v, end) = decode_all(b"+OK\r\n");
    assert_eq!(v, Resp::SimpleString(b"OK".to_vec()));
    assert_eq!(end, 5);
}

#[test]
fn decode_error_value() {
    let (v, end) = decode_all(b"-bad\r\n");
    assert_eq!(v, Resp::Error(b"bad".to_vec()));
    assert_eq!(end, 6);
}

#[test]
fn decode_integers() {
    assert_eq!(decode_all(b":1234\r\n"), (Resp::Integer(1234), 7));
    assert_eq!(decode_all(b":-42\r\n"), (Resp::Integer(-42), 6));
    assert_eq!(decode_all(b":+5\r\n"), (Resp::Integer(5), 5));
    assert_eq!(decode_all(b":007\r\n"), (Resp::Integer(7), 6));
    assert_eq!(
        decode_all(b":-9223372036854775808\r\n"),
        (Resp::Integer(i64::MIN), 23)
    );
}

#[test]
fn decode_integer_overflow_is_invalid() {
    let buf = b":9223372036854775808\r\n".to_vec();
    assert_eq!(Resp::decode(&buf, 0), Err(DecodeError::InvalidInteger));
    let buf = b":abc\r\n".to_vec();
    assert_eq!(Resp::decode(&buf, 0), Err(DecodeError::InvalidInteger));
    let buf = b":\r\n".to_vec();
    assert_eq!(Resp::decode(&buf, 0), Err(DecodeError::InvalidInteger));
}

#[test]
fn decode_bulk_string() {
    let (v, end) = decode_all(b"$5\r\nhello\r\n");
    assert_eq!(v, bulk(b"hello"));
    assert_eq!(end, 11);
    assert_eq!(decode_all(b"$-1\r\n"), (Resp::BulkString(None), 5));
    assert_eq!(decode_all(b"$0\r\n\r\n"), (bulk(b""), 6));
}

#[test]
fn decode_bulk_with_raw_cr_lf_round_trips() {
    // binary safety: the payload's own CR and LF bytes are data, not framing
    let v = bulk(b"a\r\nb\rc\nd");
    let enc = v.encode();
    let (back, end) = decode_all(&enc);
    assert_eq!(back, v);
    assert_eq!(end, enc.len());
}

#[test]
fn decode_null_array_is_not_empty_array() {
    assert_eq!(decode_all(b"*-1\r\n"), (Resp::Array(None), 5));
    assert_eq!(decode_all(b"*0\r\n"), (Resp::Array(Some(vec![])), 4));
    assert_ne!(Resp::Array(None), Resp::Array(Some(vec![])));
}

#[test]
fn decode_nested_array() {
    let (v, end) = decode_all(b"*3\r\n:7\r\n*1\r\n+hi\r\n$-1\r\n");
    assert_eq!(
        v,
        Resp::Array(Some(vec![
            Resp::Integer(7),
            Resp::Array(Some(vec![Resp::SimpleString(b"hi".to_vec())])),
            Resp::BulkString(None),
        ]))
    );
    assert_eq!(end, 22);
}

#[test]
fn round_trip_consumes_exactly_the_encoding() {
    let values = vec![
        Resp::SimpleString(b"PONG".to_vec()),
        Resp::Error(b"unknown command".to_vec()),
        Resp::Integer(-1),
        bulk(b""),
        bulk(b"a\r\nb"),
        Resp::BulkString(None),
        Resp::Array(None),
        Resp::Array(Some(vec![])),
        Resp::Array(Some(vec![
            bulk(b"SET"),
            bulk(b"key"),
            bulk(b"value"),
            bulk(b"PX"),
            bulk(b"100"),
        ])),
        Resp::Array(Some(vec![Resp::Array(Some(vec![Resp::Array(Some(vec![
            Resp::Integer(1),
        ]))]))])),
    ];
    for v in values {
        let enc = v.encode();
        let (back, end) = Resp::decode(&enc, 0).expect("round trip must decode");
        assert_eq!(back, v);
        assert_eq!(end, enc.len());
    }
}

#[test]
fn every_strict_prefix_is_incomplete() {
    // partial delivery: however the transport splits the message, the first
    // chunk alone reads as incomplete, and the whole message then decodes
    let v = Resp::Array(Some(vec![bulk(b"ECHO"), bulk(b"he\r\nllo")]));
    let enc = v.encode();
    for cut in 0..enc.len() {
        let first_chunk = enc[..cut].to_vec();
        assert_eq!(
            Resp::decode(&first_chunk, 0),
            Err(DecodeError::Incomplete),
            "cut at {cut}"
        );
        let mut rejoined = first_chunk.clone();
        rejoined.extend_from_slice(&enc[cut..]);
        let (back, end) = Resp::decode(&rejoined, 0).expect("whole message");
        assert_eq!(back, v);
        assert_eq!(end, enc.len());
    }
}

#[test]
fn back_to_back_requests_decode_one_at_a_time() {
    let first = Resp::Array(Some(vec![bulk(b"PING")]));
    let second = Resp::Array(Some(vec![bulk(b"GET"), bulk(b"k")]));
    let mut buf = first.encode();
    let boundary = buf.len();
    buf.extend(second.encode());
    let (v1, end1) = Resp::decode(&buf, 0).expect("first message");
    assert_eq!(v1, first);
    assert_eq!(end1, boundary);
    let (v2, end2) = Resp::decode(&buf, end1).expect("second message");
    assert_eq!(v2, second);
    assert_eq!(end2, buf.len());
}

#[test]
fn decode_errors() {
    assert_eq!(
        Resp::decode(&b"?hello\r\n".to_vec(), 0),
        Err(DecodeError::UnknownTypeTag)
    );
    assert_eq!(
        Resp::decode(&b"$-2\r\n".to_vec(), 0),
        Err(DecodeError::InvalidLength)
    );
    assert_eq!(
        Resp::decode(&b"*-5\r\n".to_vec(), 0),
        Err(DecodeError::InvalidLength)
    );
    assert_eq!(
        Resp::decode(&b"$3\r\nabcXY".to_vec(), 0),
        Err(DecodeError::ExpectedCrlf)
    );
    assert_eq!(
        Resp::decode(&b"+ab\rXcd\r\n".to_vec(), 0),
        Err(DecodeError::ExpectedCrlf)
    );
    assert_eq!(
        Resp::decode(&b"$x\r\n".to_vec(), 0),
        Err(DecodeError::InvalidInteger)
    );
}

#[test]
fn decode_incomplete_variants() {
    for case in [
        &b""[..],
        b"+",
        b"+abc",
        b"+abc\r",
        b":12",
        b"$5\r\nab",
        b"$5\r\nhello",
        b"$5\r\nhello\r",
        b"*2\r\n+a\r\n",
        b"*1\r\n",
    ] {
        assert_eq!(
            Resp::decode(&case.to_vec(), 0),
            Err(DecodeError::Incomplete),
            "case {case:?}"
        );
    }
}

#[test]
fn decode_at_offset() {
    let buf = b"abc+OK\r\n".to_vec();
    let (v, end) = Resp::decode(&buf, 3).expect("value at offset");
    assert_eq!(v, Resp::SimpleString(b"OK".to_vec()));
    assert_eq!(end, 8);
    assert_eq!(Resp::decode(&buf, 8), Err(DecodeError::Incomplete));
}
