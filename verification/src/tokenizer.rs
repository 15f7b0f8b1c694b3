//! Message tokenizer and field dispatch.
//!
//! A raw message is a sequence of `TAG=VALUE` fields separated by
//! unescaped delimiters. The scan carves out one field at a time
//! (skipping empty fields, such as one after a trailing delimiter),
//! splits each on its first unescaped `=`, and files the values of the
//! recognized tags; unrecognized tags are ignored, for forward
//! compatibility. After the scan, the five required tags — order id,
//! symbol, side, quantity, timestamp — must all be present.

use vstd::prelude::*;

verus! {

use crate::{FIELD_DELIM, ParseError, ParseErrorKind};
use crate::escape::{EscapedValue, find_unesc, find_unescaped, lemma_find_unesc_in_range};
use crate::timestamp::{
    FixTimestamp,
    dec_val,
    parse_timestamp,
    parse_u64,
    ts_micros,
    ts_seconds,
    ts_valid,
    u64_digits,
};

/// Split a field into tag and value at its first unescaped `=` (an `=`
/// behind an escape byte does not split, just as an escaped delimiter
/// does not end a field). Nothing comes back when there is no unescaped
/// `=` or the tag is empty; values may themselves contain `=`.
pub open spec fn split_tv(f: Seq<u8>) -> Option<(Seq<u8>, Seq<u8>)> {
    match find_unesc(f, 0, 61) {
        None => None,
        Some(i) => if i == 0 {
            None
        } else {
            Some((f.subrange(0, i), f.subrange(i + 1, f.len() as int)))
        },
    }
}

/// Split a field at its first unescaped `=`.
pub(crate) fn split_tag_value<'a>(field: &'a [u8]) -> (r: Option<(&'a [u8], &'a [u8])>)
    ensures
        match r {
            Some(tv) => split_tv(field@) == Some((tv.0@, tv.1@)),
            None => split_tv(field@) is None,
        },
{
    match find_unescaped(field, 0, 61) {
        None => None,
        Some(i) => {
            if i == 0 {
                return None;
            }
            let flen = field.len();
            proof {
                lemma_find_unesc_in_range(field@, 0, 61);
                assert(i < flen);
            }
            let tag = &field[0..i];
            let value = &field[i + 1..flen];
            Some((tag, value))
        },
    }
}

/// The values gathered for the recognized tags while scanning a
/// message.
#[verifier::ext_equal]
pub ghost struct FieldsV {
    pub order_id: Option<Seq<u8>>,
    pub symbol: Option<Seq<u8>>,
    pub side: Option<u8>,
    pub quantity: Option<u64>,
    pub timestamp: Option<FixTimestamp>,
    pub text58: Option<Seq<u8>>,
}

/// The scan starts with nothing gathered.
pub open spec fn no_fields() -> FieldsV {
    FieldsV {
        order_id: None,
        symbol: None,
        side: None,
        quantity: None,
        timestamp: None,
        text58: None,
    }
}

/// File one field's value under its tag. The order id (tag `11`),
/// symbol (`55`) and free text (`58`) keep their raw escaped bytes; the
/// side (`54`) keeps the first value byte; quantity (`38`) must be a
/// clean unsigned decimal and timestamp (`52`) a well-formed fixed
/// timestamp, each failing with its own error at the field's offset.
/// Any other tag leaves the state alone.
pub open spec fn file_field(st: FieldsV, tag: Seq<u8>, value: Seq<u8>, at: int) -> Result<
    FieldsV,
    ParseError,
> {
    if tag == seq![49u8, 49u8] {
        Ok(FieldsV { order_id: Some(value), ..st })
    } else if tag == seq![53u8, 53u8] {
        Ok(FieldsV { symbol: Some(value), ..st })
    } else if tag == seq![53u8, 52u8] {
        Ok(
            FieldsV {
                side: if value.len() > 0 {
                    Some(value[0])
                } else {
                    None
                },
                ..st
            },
        )
    } else if tag == seq![51u8, 56u8] {
        if u64_digits(value) {
            Ok(FieldsV { quantity: Some((dec_val(value) as u64)), ..st })
        } else {
            Err(ParseError { kind: ParseErrorKind::InvalidNumber, at_byte: at as usize })
        }
    } else if tag == seq![53u8, 50u8] {
        if ts_valid(value) {
            Ok(
                FieldsV {
                    timestamp: Some(
                        FixTimestamp {
                            seconds: ts_seconds(value) as u64,
                            micros: ts_micros(value) as u32,
                        },
                    ),
                    ..st
                },
            )
        } else {
            Err(ParseError { kind: ParseErrorKind::InvalidTimestamp, at_byte: at as usize })
        }
    } else if tag == seq![53u8, 56u8] {
        Ok(FieldsV { text58: Some(value), ..st })
    } else {
        Ok(st)
    }
}

/// The field scan from offset `i` with `st` already gathered: carve the
/// next field at the next unescaped delimiter, skip it if it is empty,
/// reject it at its offset if it has no `=` or an empty tag, otherwise
/// file it and go on.
pub open spec fn scan_fields(raw: Seq<u8>, i: int, st: FieldsV) -> Result<FieldsV, ParseError>
    decreases raw.len() - i,
    via scan_fields_dec
{
    if i < 0 || i >= raw.len() {
        Ok(st)
    } else {
        let fe = find_unesc(raw, i, FIELD_DELIM);
        let next_i = match fe {
            Some(j) => j + 1,
            None => raw.len() as int,
        };
        if i == next_i - 1 {
            scan_fields(raw, next_i, st)
        } else {
            let fend = match fe {
                Some(j) => j,
                None => raw.len() as int,
            };
            let field = raw.subrange(i, fend);
            match split_tv(field) {
                None => Err(
                    ParseError { kind: ParseErrorKind::InvalidField, at_byte: i as usize },
                ),
                Some(tv) => match file_field(st, tv.0, tv.1, i) {
                    Err(e) => Err(e),
                    Ok(st2) => scan_fields(raw, next_i, st2),
                },
            }
        }
    }
}

#[via_fn]
proof fn scan_fields_dec(raw: Seq<u8>, i: int, st: FieldsV) {
    if 0 <= i < raw.len() {
        lemma_find_unesc_in_range(raw, i, FIELD_DELIM);
    }
}

/// A fully parsed message: the five required fields, and the free-text
/// field when present.
pub ghost struct ParsedV {
    pub order_id: Seq<u8>,
    pub symbol: Seq<u8>,
    pub side: u8,
    pub quantity: u64,
    pub timestamp: FixTimestamp,
    pub text58: Option<Seq<u8>>,
}

/// The whole parse: scan all fields, then demand the five required
/// tags, reporting the first absent one as `MissingTag` at byte 0 (in
/// the order: order id, symbol, side, quantity, timestamp).
pub open spec fn parse_msg(raw: Seq<u8>) -> Result<ParsedV, ParseError> {
    match scan_fields(raw, 0, no_fields()) {
        Err(e) => Err(e),
        Ok(st) => if st.order_id is None || st.symbol is None || st.side is None || st.quantity
            is None || st.timestamp is None {
            Err(ParseError { kind: ParseErrorKind::MissingTag, at_byte: 0 })
        } else {
            Ok(
                ParsedV {
                    order_id: st.order_id->Some_0,
                    symbol: st.symbol->Some_0,
                    side: st.side->Some_0,
                    quantity: st.quantity->Some_0,
                    timestamp: st.timestamp->Some_0,
                    text58: st.text58,
                },
            )
        },
    }
}

/// The required fields of one message, as views over the raw bytes.
#[derive(Debug, Clone, Copy)]
pub struct Parsed<'a> {
    pub order_id: EscapedValue<'a>,
    pub symbol: EscapedValue<'a>,
    pub side: u8,
    pub quantity: u64,
    pub timestamp: FixTimestamp,
    pub text58: Option<EscapedValue<'a>>,
}

impl<'a> View for Parsed<'a> {
    type V = ParsedV;

    open spec fn view(&self) -> ParsedV {
        ParsedV {
            order_id: self.order_id@,
            symbol: self.symbol@,
            side: self.side,
            quantity: self.quantity,
            timestamp: self.timestamp,
            text58: match self.text58 {
                Some(t) => Some(t@),
                None => None,
            },
        }
    }
}

/// The view of the running exec state.
spec fn st_of(
    order_id: Option<EscapedValue<'_>>,
    symbol: Option<EscapedValue<'_>>,
    side: Option<u8>,
    quantity: Option<u64>,
    timestamp: Option<FixTimestamp>,
    text58: Option<EscapedValue<'_>>,
) -> FieldsV {
    FieldsV {
        order_id: match order_id {
            Some(v) => Some(v@),
            None => None,
        },
        symbol: match symbol {
            Some(v) => Some(v@),
            None => None,
        },
        side,
        quantity,
        timestamp,
        text58: match text58 {
            Some(v) => Some(v@),
            None => None,
        },
    }
}

/// Does `tag` consist of exactly the bytes `a`, `b`?
fn tag_is(tag: &[u8], a: u8, b: u8) -> (r: bool)
    ensures
        r == (tag@ == seq![a, b]),
{
    if tag.len() == 2 && tag[0] == a && tag[1] == b {
        proof {
            assert(tag@ =~= seq![a, b]);
        }
        true
    } else {
        proof {
            if tag@ == seq![a, b] {
                assert(tag@.len() == 2);
                assert(tag@[0] == a && tag@[1] == b);
            }
        }
        false
    }
}

/// Parse one message into its required fields, exactly as `parse_msg`
/// lays it down.
pub(crate) fn parse_required<'a>(raw: &'a [u8]) -> (r: Result<Parsed<'a>, ParseError>)
    ensures
        r matches Ok(p) ==> parse_msg(raw@) == Ok::<ParsedV, ParseError>(p@),
        r matches Err(e) ==> parse_msg(raw@) == Err::<ParsedV, ParseError>(e),
{
    let mut order_id: Option<EscapedValue<'a>> = None;
    let mut symbol: Option<EscapedValue<'a>> = None;
    let mut side: Option<u8> = None;
    let mut quantity: Option<u64> = None;
    let mut timestamp: Option<FixTimestamp> = None;
    let mut text58: Option<EscapedValue<'a>> = None;

    let mut i: usize = 0;
    while i < raw.len()
        invariant
            i <= raw.len() + 1,
            scan_fields(raw@, 0, no_fields()) == scan_fields(
                raw@,
                i as int,
                st_of(order_id, symbol, side, quantity, timestamp, text58),
            ),
        decreases raw.len() - i,
    {
        let ghost st = st_of(order_id, symbol, side, quantity, timestamp, text58);
        let field_start = i;
        let field_end = find_unescaped(raw, i, FIELD_DELIM);
        proof {
            lemma_find_unesc_in_range(raw@, i as int, FIELD_DELIM);
        }
        i = match field_end {
            Some(j) => j + 1,
            None => raw.len(),
        };

        if field_start == i - 1 {
            // empty field (e.g. a trailing delimiter)
            continue ;
        }

        let fend = match field_end {
            Some(j) => j,
            None => raw.len(),
        };
        let field = &raw[field_start..fend];
        proof {
            assert(field@ == raw@.subrange(field_start as int, fend as int));
        }
        let tv = split_tag_value(field);
        let (tag, value) = match tv {
            Some(tv) => tv,
            None => {
                return Err(
                    ParseError { kind: ParseErrorKind::InvalidField, at_byte: field_start },
                );
            },
        };

        if tag_is(tag, 49, 49) {
            order_id = Some(EscapedValue::new(value));
        } else if tag_is(tag, 53, 53) {
            symbol = Some(EscapedValue::new(value));
        } else if tag_is(tag, 53, 52) {
            side = if value.len() > 0 {
                Some(value[0])
            } else {
                None
            };
        } else if tag_is(tag, 51, 56) {
            quantity = match parse_u64(value) {
                Ok(q) => Some(q),
                Err(_) => {
                    return Err(
                        ParseError { kind: ParseErrorKind::InvalidNumber, at_byte: field_start },
                    );
                },
            };
        } else if tag_is(tag, 53, 50) {
            timestamp = match parse_timestamp(value) {
                Ok(ts) => Some(ts),
                Err(_) => {
                    return Err(
                        ParseError {
                            kind: ParseErrorKind::InvalidTimestamp,
                            at_byte: field_start,
                        },
                    );
                },
            };
        } else if tag_is(tag, 53, 56) {
            text58 = Some(EscapedValue::new(value));
        }
        proof {
            let st2 = st_of(order_id, symbol, side, quantity, timestamp, text58);
            assert(file_field(st, tag@, value@, field_start as int) == Ok::<FieldsV, ParseError>(
                st2,
            ));
        }
    }

    proof {
        assert(scan_fields(
            raw@,
            i as int,
            st_of(order_id, symbol, side, quantity, timestamp, text58),
        ) == Ok::<FieldsV, ParseError>(
            st_of(order_id, symbol, side, quantity, timestamp, text58),
        ));
    }

    let order_id = match order_id {
        Some(v) => v,
        None => {
            return Err(ParseError { kind: ParseErrorKind::MissingTag, at_byte: 0 });
        },
    };
    let symbol = match symbol {
        Some(v) => v,
        None => {
            return Err(ParseError { kind: ParseErrorKind::MissingTag, at_byte: 0 });
        },
    };
    let side = match side {
        Some(v) => v,
        None => {
            return Err(ParseError { kind: ParseErrorKind::MissingTag, at_byte: 0 });
        },
    };
    let quantity = match quantity {
        Some(v) => v,
        None => {
            return Err(ParseError { kind: ParseErrorKind::MissingTag, at_byte: 0 });
        },
    };
    let timestamp = match timestamp {
        Some(v) => v,
        None => {
            return Err(ParseError { kind: ParseErrorKind::MissingTag, at_byte: 0 });
        },
    };

    Ok(Parsed { order_id, symbol, side, quantity, timestamp, text58 })
}

} // verus!
