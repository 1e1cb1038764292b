//! The wire protocol's value type: a closed tagged union of simple strings,
//! errors, integers, binary-safe bulk strings and nested arrays, together
//! with its mathematical model, its well-formedness predicate, the encoding
//! function and the byte-level encoding specification.
use crate::numbers::dec_int;
use crate::numbers::dec_nat;
use crate::numbers::MINUS_SIGN;
use vstd::prelude::*;

verus! {

broadcast use vstd::seq::group_seq_axioms, vstd::std_specs::vec::group_vec_axioms;

pub const CR: u8 = 13;
pub const LF: u8 = 10;
pub const TAG_SIMPLE: u8 = 43;
pub const TAG_ERROR: u8 = 45;
pub const TAG_INTEGER: u8 = 58;
pub const TAG_BULK: u8 = 36;
pub const TAG_ARRAY: u8 = 42;

/// One protocol value. Bulk strings carry arbitrary bytes of a declared
/// length; `BulkString(None)` and `Array(None)` are the explicit absent
/// markers of the wire format, distinct from an empty string or array.
#[derive(Debug, PartialEq)]
pub enum Resp {
    SimpleString(Vec<u8>),
    Error(Vec<u8>),
    Integer(i64),
    BulkString(Option<Vec<u8>>),
    Array(Option<Vec<Resp>>),
}

/// The mathematical model of a protocol value.
pub enum RespV {
    SimpleString(Seq<u8>),
    Error(Seq<u8>),
    Integer(int),
    BulkString(Option<Seq<u8>>),
    Array(Option<Seq<RespV>>),
}

/// The models of a sequence of values, in order.
pub open spec fn seq_view(items: Seq<Resp>) -> Seq<RespV>
    decreases items,
{
    if items.len() == 0 {
        Seq::empty()
    } else {
        seq_view(items.drop_last()).push(items.last().view())
    }
}

/// `seq_view` maps each element to its model, keeping length and order.
pub proof fn lemma_seq_view(items: Seq<Resp>)
    ensures
        seq_view(items).len() == items.len(),
        forall|i: int| 0 <= i < items.len() ==> #[trigger] seq_view(items)[i] == items[i].view(),
    decreases items.len(),
{
    if items.len() > 0 {
        lemma_seq_view(items.drop_last());
    }
}

impl Resp {
    pub open spec fn view(self) -> RespV
        decreases self,
    {
        match self {
            Resp::SimpleString(s) => RespV::SimpleString(s@),
            Resp::Error(s) => RespV::Error(s@),
            Resp::Integer(i) => RespV::Integer(i as int),
            Resp::BulkString(None) => RespV::BulkString(None),
            Resp::BulkString(Some(s)) => RespV::BulkString(Some(s@)),
            Resp::Array(None) => RespV::Array(None),
            Resp::Array(Some(items)) => RespV::Array(Some(seq_view(items@))),
        }
    }
}

/// Text that may stand in a simple string or error line: it carries no
/// carriage return and no line feed, so the line's end is unambiguous.
pub open spec fn line_ok(s: Seq<u8>) -> bool {
    forall|i: int| 0 <= i < s.len() ==> #[trigger] s[i] != CR && s[i] != LF
}

impl RespV {
    /// Well-formedness: simple strings and errors hold no CR or LF, integers
    /// fit the wire's signed 64-bit range, and declared lengths fit the range
    /// of the decoder's length parser. Every value the executable type can
    /// hold on a 64-bit machine and every value read off the wire is of this
    /// shape.
    pub open spec fn wf(self) -> bool
        decreases self,
    {
        match self {
            RespV::SimpleString(s) => line_ok(s),
            RespV::Error(s) => line_ok(s),
            RespV::Integer(i) => i64::MIN <= i <= i64::MAX,
            RespV::BulkString(None) => true,
            RespV::BulkString(Some(s)) => s.len() <= i64::MAX,
            RespV::Array(None) => true,
            RespV::Array(Some(items)) => items.len() <= i64::MAX && (forall|i: int|
                0 <= i < items.len() ==> (#[trigger] items[i]).wf()),
        }
    }

    /// The bytes that encode this value on the wire.
    pub open spec fn enc(self) -> Seq<u8>
        decreases self,
    {
        match self {
            RespV::SimpleString(s) => seq![TAG_SIMPLE] + s + seq![CR, LF],
            RespV::Error(s) => seq![TAG_ERROR] + s + seq![CR, LF],
            RespV::Integer(i) => seq![TAG_INTEGER] + dec_int(i) + seq![CR, LF],
            RespV::BulkString(None) => seq![TAG_BULK, MINUS_SIGN, 49u8, CR, LF],
            RespV::BulkString(Some(s)) => seq![TAG_BULK] + dec_nat(s.len()) + seq![CR, LF] + s
                + seq![CR, LF],
            RespV::Array(None) => seq![TAG_ARRAY, MINUS_SIGN, 49u8, CR, LF],
            RespV::Array(Some(items)) => seq![TAG_ARRAY] + dec_nat(items.len()) + seq![CR, LF]
                + enc_seq(items),
        }
    }
}

/// The concatenated encodings of a sequence of values, in order.
pub open spec fn enc_seq(items: Seq<RespV>) -> Seq<u8>
    decreases items,
{
    if items.len() == 0 {
        Seq::empty()
    } else {
        items[0].enc() + enc_seq(items.drop_first())
    }
}

/// Appending one value extends the concatenated encoding at the end.
pub proof fn lemma_enc_seq_push(items: Seq<RespV>, v: RespV)
    ensures
        enc_seq(items.push(v)) == enc_seq(items) + v.enc(),
    decreases items.len(),
{
    if items.len() == 0 {
        assert(items.push(v)[0] == v);
        assert(items.push(v).drop_first() =~= Seq::<RespV>::empty());
        assert(enc_seq(Seq::<RespV>::empty()) =~= Seq::<u8>::empty());
        assert(enc_seq(items.push(v)) =~= enc_seq(items) + v.enc());
    } else {
        assert(items.push(v).drop_first() =~= items.drop_first().push(v));
        lemma_enc_seq_push(items.drop_first(), v);
        assert(items.push(v)[0] == items[0]);
        assert(enc_seq(items.push(v)) =~= enc_seq(items) + v.enc());
    }
}

/// Every encoding starts with its tag byte and is at least three bytes long.
pub proof fn lemma_enc_len(v: RespV)
    ensures
        v.enc().len() >= 3,
{
    match v {
        RespV::Integer(i) => {
            crate::numbers::lemma_dec_nat_digits(if i < 0 {
                (-i) as nat
            } else {
                i as nat
            });
        },
        RespV::BulkString(Some(s)) => {
            crate::numbers::lemma_dec_nat_digits(s.len());
        },
        RespV::Array(Some(items)) => {
            crate::numbers::lemma_dec_nat_digits(items.len());
        },
        _ => {},
    }
}

impl Resp {
    /// Encodes the value for the wire, exactly as `RespV::enc` describes.
    /// Total: every representable value has an encoding.
    pub fn encode(&self) -> (r: Vec<u8>)
        ensures
            r@ == self@.enc(),
    {
        let mut out: Vec<u8> = Vec::new();
        self.encode_into(&mut out);
        proof {
            assert(out@ =~= self@.enc());
        }
        out
    }

    /// Appends the value's encoding to `out`.
    #[verifier::loop_isolation(false)]
    fn encode_into(&self, out: &mut Vec<u8>)
        ensures
            final(out)@ == old(out)@ + self@.enc(),
        decreases *self,
    {
        match self {
            Resp::SimpleString(s) => {
                out.push(TAG_SIMPLE);
                push_bytes(out, s);
                out.push(CR);
                out.push(LF);
                assert(out@ =~= old(out)@ + self@.enc());
            },
            Resp::Error(s) => {
                out.push(TAG_ERROR);
                push_bytes(out, s);
                out.push(CR);
                out.push(LF);
                assert(out@ =~= old(out)@ + self@.enc());
            },
            Resp::Integer(i) => {
                out.push(TAG_INTEGER);
                crate::numbers::push_dec_i64(out, *i);
                out.push(CR);
                out.push(LF);
                assert(out@ =~= old(out)@ + self@.enc());
            },
            Resp::BulkString(None) => {
                out.push(TAG_BULK);
                out.push(MINUS_SIGN);
                out.push(49);
                out.push(CR);
                out.push(LF);
                assert(out@ =~= old(out)@ + self@.enc());
            },
            Resp::BulkString(Some(s)) => {
                out.push(TAG_BULK);
                crate::numbers::push_dec_u64(out, s.len() as u64);
                out.push(CR);
                out.push(LF);
                push_bytes(out, s);
                out.push(CR);
                out.push(LF);
                assert(out@ =~= old(out)@ + self@.enc());
            },
            Resp::Array(None) => {
                out.push(TAG_ARRAY);
                out.push(MINUS_SIGN);
                out.push(49);
                out.push(CR);
                out.push(LF);
                assert(out@ =~= old(out)@ + self@.enc());
            },
            Resp::Array(Some(items)) => {
                out.push(TAG_ARRAY);
                crate::numbers::push_dec_u64(out, items.len() as u64);
                out.push(CR);
                out.push(LF);
                proof {
                    lemma_seq_view(items@);
                }
                let ghost header = out@;
                let mut k: usize = 0;
                while k < items.len()
                    invariant
                        k <= items.len(),
                        out@ == header + enc_seq(seq_view(items@).take(k as int)),
                    decreases items.len() - k,
                {
                    let ghost pre = out@;
                    items[k].encode_into(out);
                    proof {
                        lemma_seq_view(items@);
                        assert(seq_view(items@).take(k as int + 1) =~= seq_view(items@).take(
                            k as int,
                        ).push(items@[k as int].view()));
                        lemma_enc_seq_push(seq_view(items@).take(k as int), items@[k as int].view());
                        assert(out@ =~= header + enc_seq(seq_view(items@).take(k as int + 1)));
                    }
                    k = k + 1;
                }
                proof {
                    lemma_seq_view(items@);
                    assert(seq_view(items@).take(items@.len() as int) =~= seq_view(items@));
                    assert(out@ =~= old(out)@ + self@.enc());
                }
            },
        }
    }
}

/// Appends `src` to `out`.
#[verifier::loop_isolation(false)]
fn push_bytes(out: &mut Vec<u8>, src: &Vec<u8>)
    ensures
        final(out)@ == old(out)@ + src@,
{
    let mut k: usize = 0;
    while k < src.len()
        invariant
            k <= src@.len(),
            out@ == old(out)@ + src@.take(k as int),
        decreases src@.len() - k,
    {
        out.push(src[k]);
        proof {
            assert(old(out)@ + src@.take(k as int + 1) =~= (old(out)@ + src@.take(k as int)).push(
                src@[k as int],
            ));
        }
        k = k + 1;
    }
    proof {
        assert(src@.take(src@.len() as int) =~= src@);
    }
}

} // verus!
