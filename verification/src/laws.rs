//! The codec's laws. The encoding of every well-formed value is
//! self-delimiting: decoding a buffer that holds the encoding returns exactly
//! that value and consumes exactly its bytes, wherever in the buffer it
//! stands and whatever follows it (round trip, and back-to-back framing of
//! consecutive messages); and decoding any strict prefix of an encoding
//! reports `Incomplete`, never a hard error and never a value (partial
//! delivery).
use crate::decode::DecodeError;
use crate::decode::decode_list;
use crate::decode::decode_spec;
use crate::decode::find_cr;
use crate::decode::read_line;
use crate::numbers::MINUS_SIGN;
use crate::numbers::dec_int;
use crate::numbers::dec_nat;
use crate::numbers::is_digit;
use crate::numbers::lemma_dec_nat_digits;
use crate::numbers::lemma_parse_int_dec_int;
use crate::resp::CR;
use crate::resp::LF;
use crate::resp::RespV;
use crate::resp::enc_seq;
use crate::resp::lemma_enc_len;
use crate::resp::line_ok;
use vstd::prelude::*;

verus! {

broadcast use vstd::seq::group_seq_axioms;

/// If no byte of `s[a..b]` is a CR and `s[b]` is one, the scan from `a`
/// stops exactly at `b`.
proof fn lemma_find_cr_in_region(s: Seq<u8>, a: int, b: int)
    requires
        0 <= a <= b < s.len(),
        forall|j: int| a <= j < b ==> s[j] != CR,
        s[b] == CR,
    ensures
        find_cr(s, a) == Some(b),
    decreases b - a,
{
    if a < b {
        lemma_find_cr_in_region(s, a + 1, b);
    }
}

/// If no byte of `s[a..]` is a CR, the scan from `a` finds none.
proof fn lemma_find_cr_none(s: Seq<u8>, a: int)
    requires
        0 <= a,
        forall|j: int| a <= j < s.len() ==> s[j] != CR,
    ensures
        find_cr(s, a) is None,
    decreases s.len() - a,
{
    if a < s.len() {
        lemma_find_cr_none(s, a + 1);
    }
}

/// The decimal text of an integer holds neither CR nor LF.
proof fn lemma_dec_int_line_ok(i: int)
    ensures
        line_ok(dec_int(i)),
        line_ok(dec_nat(if i < 0 {
            (-i) as nat
        } else {
            i as nat
        })),
{
    let m: nat = if i < 0 {
        (-i) as nat
    } else {
        i as nat
    };
    lemma_dec_nat_digits(m);
    assert forall|j: int| 0 <= j < dec_nat(m).len() implies #[trigger] dec_nat(m)[j] != CR
        && dec_nat(m)[j] != LF by {
        assert(is_digit(dec_nat(m)[j]));
    }
    if i < 0 {
        assert forall|j: int| 0 <= j < dec_int(i).len() implies #[trigger] dec_int(i)[j] != CR
            && dec_int(i)[j] != LF by {
            if j > 0 {
                assert(dec_int(i)[j] == dec_nat(m)[j - 1]);
                assert(is_digit(dec_nat(m)[j - 1]));
            }
        }
    }
}

/// A complete line: payload bytes free of CR at `pos`, then CR LF.
proof fn lemma_line_at(s: Seq<u8>, pos: int, p: Seq<u8>)
    requires
        0 <= pos,
        pos + p.len() + 2 <= s.len(),
        forall|j: int| 0 <= j < p.len() ==> s[pos + j] == p[j],
        forall|j: int| 0 <= j < p.len() ==> p[j] != CR,
        s[pos + p.len()] == CR,
        s[pos + p.len() + 1] == LF,
    ensures
        read_line(s, pos) == Ok::<(Seq<u8>, int), DecodeError>((p, pos + p.len() + 2)),
{
    assert forall|j: int| pos <= j < pos + p.len() implies s[j] != CR by {
        assert(s[pos + (j - pos)] == p[j - pos]);
    }
    lemma_find_cr_in_region(s, pos, pos + p.len() as int);
    assert(s.subrange(pos, pos + p.len() as int) =~= p);
}

/// A truncated line: the buffer ends inside the payload or just after the
/// CR, so the read wants more bytes.
proof fn lemma_line_prefix(s: Seq<u8>, pos: int, p: Seq<u8>)
    requires
        0 <= pos <= s.len(),
        s.len() <= pos + p.len() + 1,
        forall|j: int| 0 <= j < p.len() ==> p[j] != CR,
        forall|j: int| pos <= j < s.len() && j - pos < p.len() ==> s[j] == p[j - pos],
        s.len() == pos + p.len() + 1 ==> s[pos + p.len()] == CR,
    ensures
        read_line(s, pos) == Err::<(Seq<u8>, int), DecodeError>(DecodeError::Incomplete),
{
    assert forall|j: int| pos <= j < s.len() && j < pos + p.len() implies s[j] != CR by {
        assert(s[j] == p[j - pos]);
    }
    if s.len() <= pos + p.len() {
        lemma_find_cr_none(s, pos);
    } else {
        lemma_find_cr_in_region(s, pos, pos + p.len() as int);
    }
}

/// Bridges a truncated buffer to `lemma_line_prefix`: the encoding `e` is a
/// tag byte, then the line payload `p`, then CR LF; the buffer holds only a
/// strict prefix of `e` at `pos`.
proof fn line_prefix_bridge(s: Seq<u8>, pos: int, e: Seq<u8>, p: Seq<u8>)
    requires
        0 <= pos < s.len(),
        s.len() <= pos + p.len() + 2,
        forall|j: int| 0 <= j < p.len() ==> e[1 + j] == p[j],
        p.len() as int + 1 < e.len(),
        e[p.len() as int + 1] == CR,
        forall|j: int| 0 <= j < p.len() ==> p[j] != CR,
        forall|j: int| 0 <= j < s.len() - pos ==> s[pos + j] == e[j],
    ensures
        read_line(s, pos + 1) == Err::<(Seq<u8>, int), DecodeError>(DecodeError::Incomplete),
{
    assert forall|j: int| pos + 1 <= j < s.len() && j - (pos + 1) < p.len() implies s[j] == p[j
        - pos - 1] by {
        assert(s[pos + (j - pos)] == e[j - pos]);
    }
    if s.len() == pos + 1 + p.len() + 1 {
        assert(s[pos + 1 + p.len()] == e[p.len() as int + 1]);
    }
    lemma_line_prefix(s, pos + 1, p);
}

/// Round trip, stated over the wire: wherever the encoding of a well-formed
/// value sits complete in a buffer, decoding at its first byte returns that
/// value and leaves the cursor exactly past its last byte — whatever bytes
/// surround it.
#[verifier::rlimit(60)]
pub proof fn lemma_decode_encode(v: RespV, s: Seq<u8>, pos: int)
    requires
        v.wf(),
        0 <= pos,
        pos + v.enc().len() <= s.len(),
        s.subrange(pos, pos + v.enc().len() as int) == v.enc(),
    ensures
        decode_spec(s, pos) == Ok::<(RespV, int), DecodeError>((v, pos + v.enc().len())),
    decreases v, 0int,
{
    let e = v.enc();
    assert forall|j: int| 0 <= j < e.len() implies s[pos + j] == e[j] by {
        assert(s.subrange(pos, pos + e.len() as int)[j] == e[j]);
    }
    lemma_enc_len(v);
    assert(s[pos + 0] == e[0]);
    match v {
        RespV::SimpleString(p) => {
            assert forall|j: int| 0 <= j < p.len() implies s[pos + 1 + j] == p[j] by {
                assert(e[1 + j] == p[j]);
            }
            assert(e[p.len() as int + 1] == CR && e[p.len() as int + 2] == LF);
            assert(s[pos + 1 + p.len()] == CR && s[pos + 1 + p.len() + 1] == LF);
            lemma_line_at(s, pos + 1, p);
        },
        RespV::Error(p) => {
            assert forall|j: int| 0 <= j < p.len() implies s[pos + 1 + j] == p[j] by {
                assert(e[1 + j] == p[j]);
            }
            assert(e[p.len() as int + 1] == CR && e[p.len() as int + 2] == LF);
            assert(s[pos + 1 + p.len()] == CR && s[pos + 1 + p.len() + 1] == LF);
            lemma_line_at(s, pos + 1, p);
        },
        RespV::Integer(i) => {
            let p = dec_int(i);
            lemma_dec_int_line_ok(i);
            assert forall|j: int| 0 <= j < p.len() implies s[pos + 1 + j] == p[j] by {
                assert(e[1 + j] == p[j]);
            }
            assert(e[p.len() as int + 1] == CR && e[p.len() as int + 2] == LF);
            assert(s[pos + 1 + p.len()] == CR && s[pos + 1 + p.len() + 1] == LF);
            lemma_line_at(s, pos + 1, p);
            lemma_parse_int_dec_int(i);
        },
        RespV::BulkString(None) => {
            let p = seq![MINUS_SIGN, 49u8];
            assert forall|j: int| 0 <= j < p.len() implies s[pos + 1 + j] == p[j] by {
                assert(e[1 + j] == p[j]);
            }
            assert(e[p.len() as int + 1] == CR && e[p.len() as int + 2] == LF);
            assert(s[pos + 1 + p.len()] == CR && s[pos + 1 + p.len() + 1] == LF);
            lemma_line_at(s, pos + 1, p);
            lemma_parse_int_dec_int(-1);
            assert(dec_int(-1) =~= p);
        },
        RespV::BulkString(Some(p)) => {
            let d = dec_nat(p.len());
            lemma_dec_nat_digits(p.len());
            lemma_dec_int_line_ok(p.len() as int);
            assert forall|j: int| 0 <= j < d.len() implies s[pos + 1 + j] == d[j] by {
                assert(e[1 + j] == d[j]);
            }
            assert(e[d.len() as int + 1] == CR && e[d.len() as int + 2] == LF);
            assert(s[pos + 1 + d.len()] == CR && s[pos + 1 + d.len() + 1] == LF);
            lemma_line_at(s, pos + 1, d);
            lemma_parse_int_dec_int(p.len() as int);
            assert(dec_int(p.len() as int) == d);
            let next = pos + 1 + d.len() + 2;
            let n = p.len() as int;
            assert(s[next + n] == CR && s[next + n + 1] == LF) by {
                assert(e[1 + d.len() + 2 + n] == CR);
                assert(e[1 + d.len() + 2 + n + 1] == LF);
            }
            assert(s.subrange(next, next + n) =~= p) by {
                assert forall|j: int| 0 <= j < n implies s[next + j] == p[j] by {
                    assert(e[1 + d.len() + 2 + j] == p[j]);
                }
            }
        },
        RespV::Array(None) => {
            let p = seq![MINUS_SIGN, 49u8];
            assert forall|j: int| 0 <= j < p.len() implies s[pos + 1 + j] == p[j] by {
                assert(e[1 + j] == p[j]);
            }
            assert(e[p.len() as int + 1] == CR && e[p.len() as int + 2] == LF);
            assert(s[pos + 1 + p.len()] == CR && s[pos + 1 + p.len() + 1] == LF);
            lemma_line_at(s, pos + 1, p);
            lemma_parse_int_dec_int(-1);
            assert(dec_int(-1) =~= p);
        },
        RespV::Array(Some(items)) => {
            let d = dec_nat(items.len());
            lemma_dec_nat_digits(items.len());
            lemma_dec_int_line_ok(items.len() as int);
            assert forall|j: int| 0 <= j < d.len() implies s[pos + 1 + j] == d[j] by {
                assert(e[1 + j] == d[j]);
            }
            assert(e[d.len() as int + 1] == CR && e[d.len() as int + 2] == LF);
            assert(s[pos + 1 + d.len()] == CR && s[pos + 1 + d.len() + 1] == LF);
            lemma_line_at(s, pos + 1, d);
            lemma_parse_int_dec_int(items.len() as int);
            assert(dec_int(items.len() as int) == d);
            let next = pos + 1 + d.len() + 2;
            let body = enc_seq(items);
            assert(s.subrange(next, next + body.len() as int) =~= body) by {
                assert forall|j: int| 0 <= j < body.len() implies s[next + j] == body[j] by {
                    assert(e[1 + d.len() + 2 + j] == body[j]);
                }
            }
            lemma_decode_encode_list(items, s, next);
        },
    }
}

/// Round trip for a run of values encoded one after another: decoding
/// `items.len()` values starting at the run's first byte returns the run.
pub proof fn lemma_decode_encode_list(items: Seq<RespV>, s: Seq<u8>, pos: int)
    requires
        forall|i: int| 0 <= i < items.len() ==> (#[trigger] items[i]).wf(),
        0 <= pos,
        pos + enc_seq(items).len() <= s.len(),
        s.subrange(pos, pos + enc_seq(items).len() as int) == enc_seq(items),
    ensures
        decode_list(s, pos, items.len() as int) == Ok::<(Seq<RespV>, int), DecodeError>(
            (items, pos + enc_seq(items).len()),
        ),
    decreases items, 1int,
{
    let b = enc_seq(items);
    assert forall|j: int| 0 <= j < b.len() implies s[pos + j] == b[j] by {
        assert(s.subrange(pos, pos + b.len() as int)[j] == b[j]);
    }
    if items.len() == 0 {
        assert(items =~= Seq::<RespV>::empty());
    } else {
        let v0 = items[0];
        let e0 = v0.enc();
        let rest = items.drop_first();
        assert(b == e0 + enc_seq(rest));
        assert(s.subrange(pos, pos + e0.len() as int) =~= e0) by {
            assert forall|j: int| 0 <= j < e0.len() implies s[pos + j] == e0[j] by {
                assert(b[j] == e0[j]);
            }
        }
        lemma_decode_encode(v0, s, pos);
        lemma_enc_len(v0);
        let pos2 = pos + e0.len() as int;
        assert(s.subrange(pos2, pos2 + enc_seq(rest).len() as int) =~= enc_seq(rest)) by {
            assert forall|j: int| 0 <= j < enc_seq(rest).len() implies s[pos2 + j] == enc_seq(
                rest,
            )[j] by {
                assert(b[e0.len() + j] == enc_seq(rest)[j]);
            }
        }
        lemma_decode_encode_list(rest, s, pos2);
        assert(seq![v0] + rest =~= items);
    }
}

/// Round trip at the buffer's start: decoding the encoding of a well-formed
/// value yields the value back and consumes every byte of the encoding.
pub proof fn lemma_round_trip(v: RespV)
    requires
        v.wf(),
    ensures
        decode_spec(v.enc(), 0) == Ok::<(RespV, int), DecodeError>((v, v.enc().len() as int)),
{
    assert(v.enc().subrange(0, v.enc().len() as int) =~= v.enc());
    lemma_decode_encode(v, v.enc(), 0);
}

/// Binary safety: a bulk string may hold any bytes — raw CR and LF
/// included — and still round-trips exactly, because its declared length is
/// its byte length and the decoder reads exactly that many payload bytes.
pub proof fn lemma_bulk_binary_safe(s: Seq<u8>)
    requires
        s.len() <= i64::MAX,
    ensures
        RespV::BulkString(Some(s)).wf(),
        decode_spec(RespV::BulkString(Some(s)).enc(), 0) == Ok::<(RespV, int), DecodeError>(
            (RespV::BulkString(Some(s)), RespV::BulkString(Some(s)).enc().len() as int),
        ),
{
    lemma_round_trip(RespV::BulkString(Some(s)));
}

/// Two messages sent back to back: decoding the first leaves the cursor
/// exactly at the start of the second, and decoding there yields the second.
pub proof fn lemma_back_to_back(v1: RespV, v2: RespV)
    requires
        v1.wf(),
        v2.wf(),
    ensures
        decode_spec(v1.enc() + v2.enc(), 0) == Ok::<(RespV, int), DecodeError>(
            (v1, v1.enc().len() as int),
        ),
        decode_spec(v1.enc() + v2.enc(), v1.enc().len() as int) == Ok::<(RespV, int), DecodeError>(
            (v2, (v1.enc() + v2.enc()).len() as int),
        ),
{
    let s = v1.enc() + v2.enc();
    assert(s.subrange(0, v1.enc().len() as int) =~= v1.enc());
    lemma_decode_encode(v1, s, 0);
    let pos2 = v1.enc().len() as int;
    assert(s.subrange(pos2, pos2 + v2.enc().len() as int) =~= v2.enc());
    lemma_decode_encode(v2, s, pos2);
}

/// Partial delivery: a buffer that ends anywhere strictly inside the
/// encoding of a well-formed value decodes to `Incomplete` — never to a
/// value and never to a hard error — so the reader knows to wait for more
/// bytes.
#[verifier::rlimit(60)]
pub proof fn lemma_prefix_incomplete(v: RespV, s: Seq<u8>, pos: int)
    requires
        v.wf(),
        0 <= pos <= s.len(),
        s.len() < pos + v.enc().len(),
        s.subrange(pos, s.len() as int) == v.enc().take(s.len() - pos),
    ensures
        decode_spec(s, pos) == Err::<(RespV, int), DecodeError>(DecodeError::Incomplete),
    decreases v, 0int,
{
    let e = v.enc();
    let k = s.len() - pos;
    assert forall|j: int| 0 <= j < k implies s[pos + j] == e[j] by {
        assert(s.subrange(pos, s.len() as int)[j] == e.take(k)[j]);
    }
    lemma_enc_len(v);
    if k == 0 {
    } else {
        assert(s[pos + 0] == e[0]);
        match v {
            RespV::SimpleString(p) => {
                line_prefix_bridge(s, pos, e, p);
            },
            RespV::Error(p) => {
                line_prefix_bridge(s, pos, e, p);
            },
            RespV::Integer(i) => {
                lemma_dec_int_line_ok(i);
                line_prefix_bridge(s, pos, e, dec_int(i));
            },
            RespV::BulkString(None) => {
                line_prefix_bridge(s, pos, e, seq![MINUS_SIGN, 49u8]);
            },
            RespV::Array(None) => {
                line_prefix_bridge(s, pos, e, seq![MINUS_SIGN, 49u8]);
            },
            RespV::BulkString(Some(p)) => {
                let d = dec_nat(p.len());
                lemma_dec_nat_digits(p.len());
                lemma_dec_int_line_ok(p.len() as int);
                let h = 1 + d.len() + 2;
                if k <= h - 1 {
                    line_prefix_bridge(s, pos, e, d);
                } else {
                    assert forall|j: int| 0 <= j < d.len() implies s[pos + 1 + j] == d[j] by {
                        assert(e[1 + j] == d[j]);
                    }
                    assert(e[d.len() as int + 1] == CR && e[d.len() as int + 2] == LF);
                    assert(s[pos + 1 + d.len()] == CR && s[pos + 1 + d.len() + 1] == LF);
                    lemma_line_at(s, pos + 1, d);
                    lemma_parse_int_dec_int(p.len() as int);
                    assert(dec_int(p.len() as int) == d);
                    assert(pos + h + p.len() + 2 == pos + e.len());
                }
            },
            RespV::Array(Some(items)) => {
                let d = dec_nat(items.len());
                lemma_dec_nat_digits(items.len());
                lemma_dec_int_line_ok(items.len() as int);
                let h = 1 + d.len() + 2;
                if k <= h - 1 {
                    line_prefix_bridge(s, pos, e, d);
                } else {
                    assert forall|j: int| 0 <= j < d.len() implies s[pos + 1 + j] == d[j] by {
                        assert(e[1 + j] == d[j]);
                    }
                    assert(e[d.len() as int + 1] == CR && e[d.len() as int + 2] == LF);
                    assert(s[pos + 1 + d.len()] == CR && s[pos + 1 + d.len() + 1] == LF);
                    lemma_line_at(s, pos + 1, d);
                    lemma_parse_int_dec_int(items.len() as int);
                    assert(dec_int(items.len() as int) == d);
                    let next = pos + h;
                    let body = enc_seq(items);
                    assert(s.subrange(next, s.len() as int) =~= body.take(s.len() - next)) by {
                        assert forall|j: int| 0 <= j < s.len() - next implies s[next + j] == body[j]
                            by {
                            assert(e[h + j] == body[j]);
                        }
                    }
                    lemma_prefix_incomplete_list(items, s, next);
                }
            },
        }
    }
}

/// Partial delivery for a run of values: a buffer that ends strictly inside
/// the run's concatenated encodings decodes to `Incomplete`.
pub proof fn lemma_prefix_incomplete_list(items: Seq<RespV>, s: Seq<u8>, pos: int)
    requires
        forall|i: int| 0 <= i < items.len() ==> (#[trigger] items[i]).wf(),
        0 <= pos <= s.len(),
        s.len() < pos + enc_seq(items).len(),
        s.subrange(pos, s.len() as int) == enc_seq(items).take(s.len() - pos),
    ensures
        decode_list(s, pos, items.len() as int) == Err::<(Seq<RespV>, int), DecodeError>(
            DecodeError::Incomplete,
        ),
    decreases items, 1int,
{
    let b = enc_seq(items);
    let k = s.len() - pos;
    assert forall|j: int| 0 <= j < k implies s[pos + j] == b[j] by {
        assert(s.subrange(pos, s.len() as int)[j] == b.take(k)[j]);
    }
    assert(items.len() > 0);
    let v0 = items[0];
    let e0 = v0.enc();
    let rest = items.drop_first();
    assert(b == e0 + enc_seq(rest));
    lemma_enc_len(v0);
    if k < e0.len() {
        assert(s.subrange(pos, s.len() as int) =~= e0.take(k)) by {
            assert forall|j: int| 0 <= j < k implies s[pos + j] == e0[j] by {
                assert(b[j] == e0[j]);
            }
        }
        lemma_prefix_incomplete(v0, s, pos);
    } else {
        assert(s.subrange(pos, pos + e0.len() as int) =~= e0) by {
            assert forall|j: int| 0 <= j < e0.len() implies s[pos + j] == e0[j] by {
                assert(b[j] == e0[j]);
            }
        }
        lemma_decode_encode(v0, s, pos);
        let pos2 = pos + e0.len() as int;
        assert(s.subrange(pos2, s.len() as int) =~= enc_seq(rest).take(s.len() - pos2)) by {
            assert forall|j: int| 0 <= j < s.len() - pos2 implies s[pos2 + j] == enc_seq(rest)[j]
                by {
                assert(b[e0.len() + j] == enc_seq(rest)[j]);
            }
        }
        lemma_prefix_incomplete_list(rest, s, pos2);
    }
}

} // verus!
