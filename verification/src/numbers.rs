//! Decimal printing and parsing of integers, as they appear on the wire:
//! lengths and integer payloads are written as optionally signed decimal text.
use vstd::prelude::*;

verus! {

pub const ZERO_DIGIT: u8 = 48;
pub const NINE_DIGIT: u8 = 57;
pub const MINUS_SIGN: u8 = 45;
pub const PLUS_SIGN: u8 = 43;

pub open spec fn is_digit(b: u8) -> bool {
    ZERO_DIGIT <= b <= NINE_DIGIT
}

pub open spec fn all_digits(s: Seq<u8>) -> bool {
    forall|i: int| 0 <= i < s.len() ==> is_digit(#[trigger] s[i])
}

/// Numeric value of a run of decimal digits, most significant first.
pub open spec fn digits_val(s: Seq<u8>) -> nat
    decreases s.len(),
{
    if s.len() == 0 {
        0
    } else {
        digits_val(s.drop_last()) * 10 + (s.last() - ZERO_DIGIT) as nat
    }
}

/// Decimal digits of a natural number, most significant first, no sign,
/// no leading zeros (except for zero itself).
pub open spec fn dec_nat(n: nat) -> Seq<u8>
    decreases n,
{
    if n < 10 {
        seq![(n + ZERO_DIGIT) as u8]
    } else {
        dec_nat(n / 10) + seq![(n % 10 + ZERO_DIGIT) as u8]
    }
}

/// Decimal text of an integer: a minus sign for negative values, then digits.
pub open spec fn dec_int(i: int) -> Seq<u8> {
    if i < 0 {
        seq![MINUS_SIGN] + dec_nat((-i) as nat)
    } else {
        dec_nat(i as nat)
    }
}

/// What an optionally signed decimal byte run denotes, if anything:
/// an optional `+` or `-` sign, then at least one digit, with the value
/// within the range of `i64`. Anything else denotes nothing.
pub open spec fn parse_int(s: Seq<u8>) -> Option<int> {
    let neg = s.len() > 0 && s[0] == MINUS_SIGN;
    let signed = s.len() > 0 && (s[0] == MINUS_SIGN || s[0] == PLUS_SIGN);
    let ds = if signed {
        s.subrange(1, s.len() as int)
    } else {
        s
    };
    if ds.len() == 0 || !all_digits(ds) {
        None
    } else {
        let v: int = if neg {
            -(digits_val(ds) as int)
        } else {
            digits_val(ds) as int
        };
        if i64::MIN <= v <= i64::MAX {
            Some(v)
        } else {
            None
        }
    }
}

/// What an unsigned decimal byte run denotes, if anything: at least one
/// digit, no sign, with the value within the range of `u64`.
pub open spec fn parse_uint(s: Seq<u8>) -> Option<int> {
    if s.len() == 0 || !all_digits(s) {
        None
    } else {
        let v: int = digits_val(s) as int;
        if v <= u64::MAX {
            Some(v)
        } else {
            None
        }
    }
}

pub proof fn lemma_dec_nat_digits(n: nat)
    ensures
        dec_nat(n).len() >= 1,
        all_digits(dec_nat(n)),
    decreases n,
{
    if n >= 10 {
        lemma_dec_nat_digits(n / 10);
        assert forall|i: int| 0 <= i < dec_nat(n).len() implies is_digit(#[trigger] dec_nat(n)[i]) by {
            if i < dec_nat(n / 10).len() {
                assert(dec_nat(n)[i] == dec_nat(n / 10)[i]);
            }
        }
    }
}

/// Printing then reading back a natural number gives the number itself.
pub proof fn lemma_digits_val_dec_nat(n: nat)
    ensures
        digits_val(dec_nat(n)) == n,
    decreases n,
{
    if n < 10 {
        assert(dec_nat(n).drop_last() =~= Seq::<u8>::empty());
        assert(digits_val(Seq::<u8>::empty()) == 0);
    } else {
        lemma_digits_val_dec_nat(n / 10);
        assert(dec_nat(n).drop_last() =~= dec_nat(n / 10));
        assert(dec_nat(n).last() == (n % 10 + ZERO_DIGIT) as u8);
        vstd::arithmetic::div_mod::lemma_fundamental_div_mod(n as int, 10);
    }
}

/// Printing an integer in the range of `i64` and parsing the text back
/// gives the integer itself.
pub proof fn lemma_parse_int_dec_int(i: int)
    requires
        i64::MIN <= i <= i64::MAX,
    ensures
        parse_int(dec_int(i)) == Some(i),
{
    if i < 0 {
        let m = (-i) as nat;
        lemma_dec_nat_digits(m);
        lemma_digits_val_dec_nat(m);
        let s = dec_int(i);
        assert(s[0] == MINUS_SIGN);
        assert(s.subrange(1, s.len() as int) =~= dec_nat(m));
        assert(!is_digit(MINUS_SIGN));
    } else {
        let s = dec_int(i);
        lemma_dec_nat_digits(i as nat);
        lemma_digits_val_dec_nat(i as nat);
        assert(s[0] != MINUS_SIGN && s[0] != PLUS_SIGN);
    }
}

const HALF_RANGE: u64 = 9223372036854775808;

/// Reads the bytes `s[from..to]` as an optionally signed decimal `i64`,
/// exactly as `parse_int` describes.
#[verifier::loop_isolation(false)]
pub fn parse_i64_bytes(s: &Vec<u8>, from: usize, to: usize) -> (r: Option<i64>)
    requires
        from <= to <= s@.len(),
    ensures
        match r {
            Some(v) => parse_int(s@.subrange(from as int, to as int)) == Some(v as int),
            None => parse_int(s@.subrange(from as int, to as int)) is None,
        },
{
    let ghost full = s@.subrange(from as int, to as int);
    let mut i = from;
    let mut neg = false;
    if i < to && (s[i] == MINUS_SIGN || s[i] == PLUS_SIGN) {
        neg = s[i] == MINUS_SIGN;
        i = i + 1;
    }
    let start = i;
    let ghost ds = s@.subrange(start as int, to as int);
    proof {
        if start > from {
            assert(ds =~= full.subrange(1, full.len() as int));
        } else {
            assert(ds =~= full);
        }
    }
    if i == to {
        return None;
    }
    let mut acc: u64 = 0;
    let mut too_big = false;
    while i < to
        invariant
            from <= start <= i <= to <= s@.len(),
            ds == s@.subrange(start as int, to as int),
            all_digits(s@.subrange(start as int, i as int)),
            !too_big ==> acc as nat == digits_val(s@.subrange(start as int, i as int)) && acc
                <= HALF_RANGE,
            too_big ==> digits_val(s@.subrange(start as int, i as int)) > HALF_RANGE,
        decreases to - i,
    {
        let b = s[i];
        if b < ZERO_DIGIT || b > NINE_DIGIT {
            proof {
                assert(ds[i - start] == b);
                assert(!all_digits(ds));
            }
            return None;
        }
        let d = (b - ZERO_DIGIT) as u64;
        proof {
            let pre = s@.subrange(start as int, i as int);
            let post = s@.subrange(start as int, i as int + 1);
            assert(post.drop_last() =~= pre);
            assert(post.last() == b);
        }
        if too_big {
        } else {
            let t: u128 = (acc as u128) * 10 + (d as u128);
            if t > HALF_RANGE as u128 {
                too_big = true;
            } else {
                acc = t as u64;
            }
        }
        i = i + 1;
    }
    assert(ds =~= s@.subrange(start as int, to as int));
    if too_big {
        return None;
    }
    if acc == HALF_RANGE {
        if neg {
            return Some(i64::MIN);
        } else {
            return None;
        }
    }
    let v = acc as i64;
    if neg {
        Some(-v)
    } else {
        Some(v)
    }
}

/// Reads the bytes `s[from..to]` as an unsigned decimal `u64`, exactly as
/// `parse_uint` describes.
#[verifier::loop_isolation(false)]
pub fn parse_u64_bytes(s: &Vec<u8>, from: usize, to: usize) -> (r: Option<u64>)
    requires
        from <= to <= s@.len(),
    ensures
        match r {
            Some(v) => parse_uint(s@.subrange(from as int, to as int)) == Some(v as int),
            None => parse_uint(s@.subrange(from as int, to as int)) is None,
        },
{
    let ghost ds = s@.subrange(from as int, to as int);
    if from == to {
        return None;
    }
    let mut i = from;
    let mut acc: u64 = 0;
    let mut too_big = false;
    while i < to
        invariant
            from <= i <= to <= s@.len(),
            ds == s@.subrange(from as int, to as int),
            all_digits(s@.subrange(from as int, i as int)),
            !too_big ==> acc as nat == digits_val(s@.subrange(from as int, i as int)),
            too_big ==> digits_val(s@.subrange(from as int, i as int)) > u64::MAX,
        decreases to - i,
    {
        let b = s[i];
        if b < ZERO_DIGIT || b > NINE_DIGIT {
            proof {
                assert(ds[i - from] == b);
                assert(!all_digits(ds));
            }
            return None;
        }
        let d = (b - ZERO_DIGIT) as u64;
        proof {
            let pre = s@.subrange(from as int, i as int);
            let post = s@.subrange(from as int, i as int + 1);
            assert(post.drop_last() =~= pre);
            assert(post.last() == b);
        }
        if too_big {
        } else {
            let t: u128 = (acc as u128) * 10 + (d as u128);
            if t > u64::MAX as u128 {
                too_big = true;
            } else {
                acc = t as u64;
            }
        }
        i = i + 1;
    }
    assert(ds =~= s@.subrange(from as int, to as int));
    if too_big {
        None
    } else {
        Some(acc)
    }
}

/// Appends the decimal digits of `n` to `out`.
pub fn push_dec_u64(out: &mut Vec<u8>, n: u64)
    ensures
        final(out)@ == old(out)@ + dec_nat(n as nat),
    decreases n,
{
    if n < 10 {
        out.push((n as u8) + ZERO_DIGIT);
        assert(out@ =~= old(out)@ + dec_nat(n as nat));
    } else {
        let ghost mid = out@;
        push_dec_u64(out, n / 10);
        out.push(((n % 10) as u8) + ZERO_DIGIT);
        assert(out@ =~= old(out)@ + dec_nat(n as nat));
    }
}

/// Appends the decimal text of `i` (sign included) to `out`.
pub fn push_dec_i64(out: &mut Vec<u8>, i: i64)
    ensures
        final(out)@ == old(out)@ + dec_int(i as int),
{
    if i < 0 {
        out.push(MINUS_SIGN);
        let m: u64 = (-(i as i128)) as u64;
        push_dec_u64(out, m);
        assert(out@ =~= old(out)@ + dec_int(i as int));
    } else {
        push_dec_u64(out, i as u64);
    }
}

} // verus!
