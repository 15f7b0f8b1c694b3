//! Fixed-format timestamp parsing.
//!
//! Timestamps on the wire are exactly `YYYYMMDD-HH:MM:SS.ssssss`. Parsing
//! produces a lossless, sortable integer encoding: `seconds` packs the
//! digits `YYYYMMDDHHMMSS` in base 10 (no timezone or calendar
//! interpretation), `micros` keeps the six fractional digits exactly.

use vstd::prelude::*;

verus! {

use crate::{ESCAPE, ParseError, ParseErrorKind};

/// A parsed timestamp. `seconds` is the base-10 packing of
/// `YYYYMMDDHHMMSS`; `micros` never exceeds 999 999.
#[derive(Clone, Copy, PartialEq, Eq, Structural, Debug)]
pub struct FixTimestamp {
    pub seconds: u64,
    pub micros: u32,
}

/// Is `b` an ASCII decimal digit?
pub open spec fn is_digit(b: u8) -> bool {
    48 <= b <= 57
}

/// Does `s` consist of ASCII decimal digits only?
pub open spec fn all_digits(s: Seq<u8>) -> bool {
    forall|k: int| 0 <= k < s.len() ==> is_digit(s[k])
}

/// The number that the digit string `s` denotes in base 10.
pub open spec fn dec_val(s: Seq<u8>) -> nat
    decreases s.len(),
{
    if s.len() == 0 {
        0
    } else {
        dec_val(s.drop_last()) * 10 + (s.last() - 48) as nat
    }
}

/// Is `s` accepted as an unsigned decimal that fits in 64 bits?
pub open spec fn u64_digits(s: Seq<u8>) -> bool {
    s.len() > 0 && all_digits(s) && dec_val(s) <= u64::MAX
}

/// A digit-string prefix never denotes more than the whole string.
proof fn lemma_dec_val_prefix(s: Seq<u8>, j: int)
    requires
        0 <= j <= s.len(),
        all_digits(s),
    ensures
        dec_val(s.subrange(0, j)) <= dec_val(s),
    decreases s.len() - j,
{
    if j < s.len() {
        lemma_dec_val_prefix(s, j + 1);
        assert(s.subrange(0, j + 1).drop_last() =~= s.subrange(0, j));
        assert(dec_val(s.subrange(0, j + 1)) == dec_val(s.subrange(0, j)) * 10 + (s[j]
            - 48) as nat);
    } else {
        assert(s.subrange(0, j) =~= s);
    }
}

/// `pow10(n)` is ten to the `n`.
pub open spec fn pow10(n: nat) -> nat
    decreases n,
{
    if n == 0 {
        1
    } else {
        10 * pow10((n - 1) as nat)
    }
}

/// A string of `n` digits denotes less than `pow10(n)`.
proof fn lemma_dec_val_bound(s: Seq<u8>)
    requires
        all_digits(s),
    ensures
        dec_val(s) < pow10(s.len()),
    decreases s.len(),
{
    if s.len() > 0 {
        lemma_dec_val_bound(s.drop_last());
        assert(is_digit(s.last()));
    }
}

/// Parse an unsigned decimal. Accepts exactly the non-empty all-digit
/// strings whose value fits in 64 bits; anything else (empty input, an
/// escape byte or other non-digit, overflow) is rejected.
pub fn parse_u64(s: &[u8]) -> (r: Result<u64, ()>)
    ensures
        r is Ok <==> u64_digits(s@),
        r matches Ok(v) ==> v == dec_val(s@),
{
    if s.len() == 0 {
        return Err(());
    }
    let mut v: u64 = 0;
    let mut i: usize = 0;
    proof {
        assert(s@.subrange(0, 0) =~= Seq::<u8>::empty());
    }
    while i < s.len()
        invariant
            0 < s@.len(),
            i <= s.len(),
            all_digits(s@.subrange(0, i as int)),
            v == dec_val(s@.subrange(0, i as int)),
        decreases s.len() - i,
    {
        let d = s[i];
        if !(48 <= d && d <= 57) {
            return Err(());
        }
        proof {
            assert(s@.subrange(0, i + 1).drop_last() =~= s@.subrange(0, i as int));
        }
        let m = match v.checked_mul(10) {
            Some(m) => m,
            None => {
                proof {
                    if all_digits(s@) {
                        lemma_dec_val_prefix(s@, i + 1);
                    }
                }
                return Err(());
            },
        };
        let w = match m.checked_add((d - 48) as u64) {
            Some(w) => w,
            None => {
                proof {
                    if all_digits(s@) {
                        lemma_dec_val_prefix(s@, i + 1);
                    }
                }
                return Err(());
            },
        };
        v = w;
        i = i + 1;
    }
    proof {
        assert(s@.subrange(0, i as int) =~= s@);
    }
    Ok(v)
}

/// Does `s` start with a well-formed `YYYYMMDD-HH:MM:SS.ssssss`
/// timestamp, with no escape byte anywhere in `s`?
pub open spec fn ts_valid(s: Seq<u8>) -> bool {
    &&& s.len() >= 24
    &&& s[8] == 45
    &&& s[11] == 58
    &&& s[14] == 58
    &&& s[17] == 46
    &&& forall|k: int| 0 <= k < s.len() ==> s[k] != ESCAPE
    &&& u64_digits(s.subrange(0, 8))
    &&& u64_digits(s.subrange(9, 11))
    &&& u64_digits(s.subrange(12, 14))
    &&& u64_digits(s.subrange(15, 17))
    &&& u64_digits(s.subrange(18, 24))
    &&& dec_val(s.subrange(18, 24)) <= 999_999
}

/// The packed `YYYYMMDDHHMMSS` value of a valid timestamp.
pub open spec fn ts_seconds(s: Seq<u8>) -> nat {
    dec_val(s.subrange(0, 8)) * 1_000_000 + dec_val(s.subrange(9, 11)) * 10_000 + dec_val(
        s.subrange(12, 14),
    ) * 100 + dec_val(s.subrange(15, 17))
}

/// The microsecond field of a valid timestamp.
pub open spec fn ts_micros(s: Seq<u8>) -> nat {
    dec_val(s.subrange(18, 24))
}

/// Parse the fixed timestamp format. Succeeds exactly on inputs that
/// `ts_valid` accepts; the digits are preserved exactly, with no
/// rounding and no timezone interpretation.
pub fn parse_timestamp(s: &[u8]) -> (r: Result<FixTimestamp, ()>)
    ensures
        r is Ok <==> ts_valid(s@),
        r matches Ok(ts) ==> ts.seconds == ts_seconds(s@) && ts.micros == ts_micros(s@)
            && ts.micros <= 999_999,
{
    if s.len() < 24 {
        return Err(());
    }
    if s[8] != 45 || s[11] != 58 || s[14] != 58 || s[17] != 46 {
        return Err(());
    }
    let mut k: usize = 0;
    while k < s.len()
        invariant
            k <= s.len(),
            forall|t: int| 0 <= t < k ==> s@[t] != ESCAPE,
        decreases s.len() - k,
    {
        if s[k] == ESCAPE {
            return Err(());
        }
        k = k + 1;
    }

    let ymd = match parse_u64(&s[0..8]) {
        Ok(v) => v,
        Err(_) => {
            return Err(());
        },
    };
    let hh = match parse_u64(&s[9..11]) {
        Ok(v) => v,
        Err(_) => {
            return Err(());
        },
    };
    let mm = match parse_u64(&s[12..14]) {
        Ok(v) => v,
        Err(_) => {
            return Err(());
        },
    };
    let ss = match parse_u64(&s[15..17]) {
        Ok(v) => v,
        Err(_) => {
            return Err(());
        },
    };
    let micros64 = match parse_u64(&s[18..24]) {
        Ok(v) => v,
        Err(_) => {
            return Err(());
        },
    };
    proof {
        lemma_dec_val_bound(s@.subrange(0, 8));
        lemma_dec_val_bound(s@.subrange(9, 11));
        lemma_dec_val_bound(s@.subrange(12, 14));
        lemma_dec_val_bound(s@.subrange(15, 17));
        lemma_dec_val_bound(s@.subrange(18, 24));
        assert(pow10(8) == 100_000_000 && pow10(2) == 100 && pow10(6) == 1_000_000) by {
            reveal_with_fuel(pow10, 9);
        }
    }
    let micros = micros64 as u32;
    if micros > 999_999 {
        return Err(());
    }
    let seconds = ymd * 1_000_000 + hh * 10_000 + mm * 100 + ss;
    Ok(FixTimestamp { seconds, micros })
}

/// Public timestamp parser: as `parse_timestamp`, with failures reported
/// as an `InvalidTimestamp` error at byte 0.
pub fn parse_fix_timestamp(s: &[u8]) -> (r: Result<FixTimestamp, ParseError>)
    ensures
        r is Ok <==> ts_valid(s@),
        r matches Ok(ts) ==> ts.seconds == ts_seconds(s@) && ts.micros == ts_micros(s@)
            && ts.micros <= 999_999,
        r matches Err(e) ==> e == (ParseError { kind: ParseErrorKind::InvalidTimestamp, at_byte: 0 }),
{
    match parse_timestamp(s) {
        Ok(ts) => Ok(ts),
        Err(_) => Err(ParseError { kind: ParseErrorKind::InvalidTimestamp, at_byte: 0 }),
    }
}

} // verus!
