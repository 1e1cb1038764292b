//! Decoding one protocol value off a byte buffer. The decoder works against
//! a cursor into a buffer that the transport fills in chunks of arbitrary
//! size, so it distinguishes "the bytes so far do not yet frame a whole
//! value" (`Incomplete`, recoverable by reading more) from malformed data
//! (fatal to the stream position). `decode_spec` is the full mathematical
//! description of the decoder; the executable `Resp::decode` returns exactly
//! what it prescribes and never looks past the bytes of the decoded value.
use crate::numbers::parse_int;
use crate::numbers::parse_i64_bytes;
use crate::resp::CR;
use crate::resp::LF;
use crate::resp::TAG_ARRAY;
use crate::resp::TAG_BULK;
use crate::resp::TAG_ERROR;
use crate::resp::TAG_INTEGER;
use crate::resp::TAG_SIMPLE;
use crate::resp::Resp;
use crate::resp::RespV;
use crate::resp::seq_view;
use crate::resp::lemma_seq_view;
use vstd::prelude::*;

verus! {

broadcast use vstd::seq::group_seq_axioms, vstd::std_specs::vec::group_vec_axioms;

/// How a decode attempt can end short of a value: the buffer does not yet
/// hold a whole value (`Incomplete`, wait for more bytes), an unknown leading
/// type tag, an integer or length line that does not read as a number, a
/// length below the null marker, or a missing CR LF terminator.
#[derive(Debug, Clone, Copy, PartialEq, Eq)]
pub enum DecodeError {
    Incomplete,
    UnknownTypeTag,
    InvalidInteger,
    InvalidLength,
    ExpectedCrlf,
}

/// Position of the first carriage return at or after `pos`, if any.
pub open spec fn find_cr(s: Seq<u8>, pos: int) -> Option<int>
    decreases s.len() - pos,
{
    if pos < 0 || pos >= s.len() {
        None
    } else if s[pos] == CR {
        Some(pos)
    } else {
        find_cr(s, pos + 1)
    }
}

/// One CR-LF-terminated line starting at `pos`: its payload (the bytes
/// before the CR) and the position just after the LF.
pub open spec fn read_line(s: Seq<u8>, pos: int) -> Result<(Seq<u8>, int), DecodeError> {
    match find_cr(s, pos) {
        None => Err(DecodeError::Incomplete),
        Some(i) => if i + 1 >= s.len() {
            Err(DecodeError::Incomplete)
        } else if s[i + 1] != LF {
            Err(DecodeError::ExpectedCrlf)
        } else {
            Ok((s.subrange(pos, i), i + 2))
        },
    }
}

/// What one decoded value of the buffer `s` at cursor `pos` is, and where
/// the next value starts. This is the decoder's complete specification.
pub open spec fn decode_spec(s: Seq<u8>, pos: int) -> Result<(RespV, int), DecodeError>
    decreases s.len() - pos, 0int,
{
    if pos < 0 || pos >= s.len() {
        Err(DecodeError::Incomplete)
    } else {
        let tag = s[pos];
        if tag == TAG_SIMPLE {
            match read_line(s, pos + 1) {
                Ok((p, next)) => Ok((RespV::SimpleString(p), next)),
                Err(e) => Err(e),
            }
        } else if tag == TAG_ERROR {
            match read_line(s, pos + 1) {
                Ok((p, next)) => Ok((RespV::Error(p), next)),
                Err(e) => Err(e),
            }
        } else if tag == TAG_INTEGER {
            match read_line(s, pos + 1) {
                Ok((p, next)) => match parse_int(p) {
                    Some(v) => Ok((RespV::Integer(v), next)),
                    None => Err(DecodeError::InvalidInteger),
                },
                Err(e) => Err(e),
            }
        } else if tag == TAG_BULK {
            match read_line(s, pos + 1) {
                Ok((p, next)) => match parse_int(p) {
                    None => Err(DecodeError::InvalidInteger),
                    Some(n) => if n == -1 {
                        Ok((RespV::BulkString(None), next))
                    } else if n < -1 {
                        Err(DecodeError::InvalidLength)
                    } else if next + n + 2 > s.len() {
                        Err(DecodeError::Incomplete)
                    } else if s[next + n] == CR && s[next + n + 1] == LF {
                        Ok((RespV::BulkString(Some(s.subrange(next, next + n))), next + n + 2))
                    } else {
                        Err(DecodeError::ExpectedCrlf)
                    },
                },
                Err(e) => Err(e),
            }
        } else if tag == TAG_ARRAY {
            match read_line(s, pos + 1) {
                Ok((p, next)) => match parse_int(p) {
                    None => Err(DecodeError::InvalidInteger),
                    Some(n) => if n == -1 {
                        Ok((RespV::Array(None), next))
                    } else if n < -1 {
                        Err(DecodeError::InvalidLength)
                    } else if pos < next <= s.len() {
                        match decode_list(s, next, n) {
                            Ok((items, end)) => Ok((RespV::Array(Some(items)), end)),
                            Err(e) => Err(e),
                        }
                    } else {
                        // a line read never stands still; see lemma_read_line
                        Err(DecodeError::Incomplete)
                    },
                },
                Err(e) => Err(e),
            }
        } else {
            Err(DecodeError::UnknownTypeTag)
        }
    }
}

/// `n` consecutive decoded values starting at `pos`, and the position after
/// the last one.
pub open spec fn decode_list(s: Seq<u8>, pos: int, n: int) -> Result<
    (Seq<RespV>, int),
    DecodeError,
>
    decreases s.len() - pos, n + 1,
{
    if n <= 0 {
        Ok((Seq::empty(), pos))
    } else {
        match decode_spec(s, pos) {
            Err(e) => Err(e),
            Ok((v, pos2)) => if pos < pos2 <= s.len() {
                match decode_list(s, pos2, n - 1) {
                    Err(e) => Err(e),
                    Ok((items, end)) => Ok((seq![v] + items, end)),
                }
            } else {
                // decoding always advances; see lemma_decode_advances
                Err(DecodeError::Incomplete)
            },
        }
    }
}

/// What `find_cr` finds is the first carriage return at or after `pos`.
pub proof fn lemma_find_cr(s: Seq<u8>, pos: int)
    requires
        pos >= 0,
    ensures
        match find_cr(s, pos) {
            Some(i) => pos <= i < s.len() && s[i] == CR && (forall|j: int|
                pos <= j < i ==> s[j] != CR),
            None => forall|j: int| pos <= j < s.len() ==> s[j] != CR,
        },
    decreases s.len() - pos,
{
    if pos < s.len() && s[pos] != CR {
        lemma_find_cr(s, pos + 1);
    }
}

/// A line read yields the bytes up to the first CR, which carry no CR, and
/// a cursor past the CR LF pair, within the buffer.
pub proof fn lemma_read_line(s: Seq<u8>, pos: int)
    requires
        pos >= 0,
    ensures
        match read_line(s, pos) {
            Ok((p, next)) => pos + 2 <= next <= s.len() && p == s.subrange(pos, next - 2) && (
            forall|j: int| pos <= j < next - 2 ==> s[j] != CR) && s[next - 2] == CR && s[next - 1]
                == LF,
            Err(_) => true,
        },
{
    lemma_find_cr(s, pos);
}

/// Copies `buf[from..to]` into a fresh vector.
#[verifier::loop_isolation(false)]
fn copy_range(buf: &Vec<u8>, from: usize, to: usize) -> (r: Vec<u8>)
    requires
        from <= to <= buf@.len(),
    ensures
        r@ == buf@.subrange(from as int, to as int),
{
    let mut r: Vec<u8> = Vec::new();
    let mut i = from;
    while i < to
        invariant
            from <= i <= to,
            r@ == buf@.subrange(from as int, i as int),
        decreases to - i,
    {
        r.push(buf[i]);
        proof {
            assert(buf@.subrange(from as int, i as int + 1) =~= buf@.subrange(
                from as int,
                i as int,
            ).push(buf@[i as int]));
        }
        i = i + 1;
    }
    r
}

/// Finds the CR LF that ends the line whose payload starts at `pos`:
/// the CR's index and the position after the LF, as `read_line` describes.
#[verifier::loop_isolation(false)]
fn find_line_end(buf: &Vec<u8>, pos: usize) -> (r: Result<(usize, usize), DecodeError>)
    requires
        pos <= buf@.len(),
    ensures
        match r {
            Ok((cr, next)) => read_line(buf@, pos as int) == Ok::<(Seq<u8>, int), DecodeError>(
                (buf@.subrange(pos as int, cr as int), next as int),
            ) && pos <= cr && cr + 2 == next && next <= buf@.len(),
            Err(e) => read_line(buf@, pos as int) == Err::<(Seq<u8>, int), DecodeError>(e),
        },
{
    let mut i = pos;
    while i < buf.len()
        invariant
            pos <= i <= buf@.len(),
            find_cr(buf@, pos as int) == find_cr(buf@, i as int),
        decreases buf@.len() - i,
    {
        if buf[i] == CR {
            assert(find_cr(buf@, i as int) == Some(i as int));
            if i + 1 < buf.len() {
                if buf[i + 1] == LF {
                    return Ok((i, i + 2));
                } else {
                    return Err(DecodeError::ExpectedCrlf);
                }
            } else {
                return Err(DecodeError::Incomplete);
            }
        }
        i = i + 1;
    }
    assert(find_cr(buf@, i as int) is None);
    Err(DecodeError::Incomplete)
}

/// Decoding never stands still: a decoded value occupies at least one byte,
/// and never reaches past the buffer's end.
pub proof fn lemma_decode_advances(s: Seq<u8>, pos: int)
    ensures
        match decode_spec(s, pos) {
            Ok((v, p2)) => pos < p2 <= s.len(),
            Err(_) => true,
        },
    decreases s.len() - pos, 0int,
{
    if 0 <= pos < s.len() {
        lemma_read_line(s, pos + 1);
        if s[pos] == TAG_ARRAY {
            match read_line(s, pos + 1) {
                Ok((p, next)) => match parse_int(p) {
                    Some(n) => if n >= 0 && pos < next <= s.len() {
                        lemma_decode_list_advances(s, next, n);
                    } else {
                    },
                    None => {},
                },
                Err(_) => {},
            }
        }
    }
}

/// Decoding a run of values never moves the cursor backwards, nor past the
/// buffer's end.
pub proof fn lemma_decode_list_advances(s: Seq<u8>, pos: int, n: int)
    requires
        0 <= pos <= s.len(),
    ensures
        match decode_list(s, pos, n) {
            Ok((items, end)) => pos <= end <= s.len(),
            Err(_) => true,
        },
    decreases s.len() - pos, n + 1,
{
    if n > 0 {
        lemma_decode_advances(s, pos);
        match decode_spec(s, pos) {
            Ok((v, pos2)) => {
                if pos < pos2 <= s.len() {
                    lemma_decode_list_advances(s, pos2, n - 1);
                }
            },
            Err(_) => {},
        }
    }
}

impl Resp {
    /// Decodes exactly one value from `buf`, starting at `start`, consuming
    /// exactly the bytes of that value: on success the returned cursor is
    /// the start of the next message. The result — value, cursor and every
    /// error, `Incomplete` for a buffer that does not yet frame a whole
    /// value included — is exactly what `decode_spec` prescribes.
    #[verifier::loop_isolation(false)]
    pub fn decode(buf: &Vec<u8>, start: usize) -> (r: Result<(Resp, usize), DecodeError>)
        ensures
            match r {
                Ok((v, end)) => decode_spec(buf@, start as int) == Ok::<(RespV, int), DecodeError>(
                    (v@, end as int),
                ) && start < end <= buf@.len(),
                Err(e) => decode_spec(buf@, start as int) == Err::<(RespV, int), DecodeError>(e),
            },
        decreases buf@.len() - start,
    {
        let ghost s = buf@;
        if start >= buf.len() {
            return Err(DecodeError::Incomplete);
        }
        let tag = buf[start];
        if tag == TAG_SIMPLE {
            match find_line_end(buf, start + 1) {
                Err(e) => Err(e),
                Ok((cr, next)) => {
                    let p = copy_range(buf, start + 1, cr);
                    Ok((Resp::SimpleString(p), next))
                },
            }
        } else if tag == TAG_ERROR {
            match find_line_end(buf, start + 1) {
                Err(e) => Err(e),
                Ok((cr, next)) => {
                    let p = copy_range(buf, start + 1, cr);
                    Ok((Resp::Error(p), next))
                },
            }
        } else if tag == TAG_INTEGER {
            match find_line_end(buf, start + 1) {
                Err(e) => Err(e),
                Ok((cr, next)) => match parse_i64_bytes(buf, start + 1, cr) {
                    Some(v) => Ok((Resp::Integer(v), next)),
                    None => Err(DecodeError::InvalidInteger),
                },
            }
        } else if tag == TAG_BULK {
            match find_line_end(buf, start + 1) {
                Err(e) => Err(e),
                Ok((cr, next)) => match parse_i64_bytes(buf, start + 1, cr) {
                    None => Err(DecodeError::InvalidInteger),
                    Some(n) => if n == -1 {
                        Ok((Resp::BulkString(None), next))
                    } else if n < 0 {
                        Err(DecodeError::InvalidLength)
                    } else {
                        let avail = buf.len() - next;
                        if avail < 2 || (n as u64) > ((avail - 2) as u64) {
                            assert(next + n + 2 > s.len());
                            Err(DecodeError::Incomplete)
                        } else {
                            let nn = n as usize;
                            if buf[next + nn] == CR && buf[next + nn + 1] == LF {
                                let p = copy_range(buf, next, next + nn);
                                Ok((Resp::BulkString(Some(p)), next + nn + 2))
                            } else {
                                Err(DecodeError::ExpectedCrlf)
                            }
                        }
                    },
                },
            }
        } else if tag == TAG_ARRAY {
            match find_line_end(buf, start + 1) {
                Err(e) => Err(e),
                Ok((cr, next)) => match parse_i64_bytes(buf, start + 1, cr) {
                    None => Err(DecodeError::InvalidInteger),
                    Some(n) => if n == -1 {
                        Ok((Resp::Array(None), next))
                    } else if n < 0 {
                        Err(DecodeError::InvalidLength)
                    } else {
                        let mut items: Vec<Resp> = Vec::new();
                        let mut pos = next;
                        let mut k: i64 = 0;
                        loop
                            invariant
                                0 <= k <= n,
                                start < pos <= buf@.len(),
                                seq_view(items@).len() == k,
                                decode_list(s, next as int, n as int) == (match decode_list(
                                    s,
                                    pos as int,
                                    n - k,
                                ) {
                                    Ok((rest, end)) => Ok::<(Seq<RespV>, int), DecodeError>(
                                        (seq_view(items@) + rest, end),
                                    ),
                                    Err(e) => Err::<(Seq<RespV>, int), DecodeError>(e),
                                }),
                            decreases n - k,
                        {
                            if k >= n {
                                break;
                            }
                            match Resp::decode(buf, pos) {
                                Err(e) => {
                                    return Err(e);
                                },
                                Ok((v, end)) => {
                                    proof {
                                        lemma_seq_view(items@);
                                        lemma_seq_view(items@.push(v));
                                        assert(items@.push(v).drop_last() =~= items@);
                                        assert(seq_view(items@.push(v)) == seq_view(items@).push(
                                            v.view(),
                                        ));
                                        let inner = decode_list(s, end as int, n - k - 1);
                                        if inner is Ok {
                                            let (rest, e2) = inner->Ok_0;
                                            assert(seq_view(items@) + (seq![v.view()] + rest) =~= (
                                            seq_view(items@).push(v.view())) + rest);
                                        }
                                    }
                                    items.push(v);
                                    pos = end;
                                    k = k + 1;
                                },
                            }
                        }
                        proof {
                            lemma_seq_view(items@);
                            assert(seq_view(items@) + Seq::<RespV>::empty() =~= seq_view(items@));
                        }
                        Ok((Resp::Array(Some(items)), pos))
                    },
                },
            }
        } else {
            Err(DecodeError::UnknownTypeTag)
        }
    }
}

} // verus!
