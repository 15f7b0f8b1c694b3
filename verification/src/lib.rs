//! A trade-message aggregation library.
//!
//! The central piece is an ingestion engine for pipe-delimited trade
//! execution messages: an escape-aware tokenizer, a fixed-format timestamp
//! parser, a bump-allocated byte arena, and a fixed-capacity open-addressing
//! symbol table that maintains per-symbol count and traded volume, fronted
//! by the [`analyzer::TradeAnalyzer`] facade.
//!
//! Two smaller components live alongside it: a word-frequency counter
//! ([`text::TextProcessor`]) and the error type of a small book-keeping
//! service ([`books::BookError`]).

use vstd::prelude::*;

pub mod analyzer;
pub mod books;
pub mod decimal;
pub mod text;
pub mod escape;
pub mod strutil;
pub mod table;
pub mod timestamp;
pub mod tokenizer;

verus! {

/// What went wrong while parsing or ingesting a message.
#[derive(Clone, Copy, PartialEq, Eq, Structural, Debug)]
pub enum ParseErrorKind {
    /// A required tag is absent from the message.
    MissingTag,
    /// A tag is not usable.
    InvalidTag,
    /// A field is not of the form `TAG=VALUE`.
    InvalidField,
    /// A numeric field is not a clean unsigned decimal, or overflows.
    InvalidNumber,
    /// A timestamp field is not in the fixed `YYYYMMDD-HH:MM:SS.ssssss`
    /// format.
    InvalidTimestamp,
    /// The symbol arena's byte budget is exhausted.
    ArenaFull,
    /// No free slot is left in the symbol table.
    TableFull,
}

/// A parse failure, with the byte offset of the offending field where
/// one applies.
#[derive(Clone, Copy, PartialEq, Eq, Structural, Debug)]
pub struct ParseError {
    pub kind: ParseErrorKind,
    pub at_byte: usize,
}

/// The name of an error kind, as text.
pub open spec fn kind_name(k: ParseErrorKind) -> Seq<char> {
    match k {
        ParseErrorKind::MissingTag => "MissingTag"@,
        ParseErrorKind::InvalidTag => "InvalidTag"@,
        ParseErrorKind::InvalidField => "InvalidField"@,
        ParseErrorKind::InvalidNumber => "InvalidNumber"@,
        ParseErrorKind::InvalidTimestamp => "InvalidTimestamp"@,
        ParseErrorKind::ArenaFull => "ArenaFull"@,
        ParseErrorKind::TableFull => "TableFull"@,
    }
}

impl ParseError {
    /// The error as text: the kind's name and the byte offset.
    pub fn describe(&self) -> (r: String)
        ensures
            r@ == kind_name(self.kind) + " at byte "@ + crate::decimal::dec_chars(
                self.at_byte as nat,
            ),
    {
        let mut s = String::new();
        match self.kind {
            ParseErrorKind::MissingTag => s.append("MissingTag"),
            ParseErrorKind::InvalidTag => s.append("InvalidTag"),
            ParseErrorKind::InvalidField => s.append("InvalidField"),
            ParseErrorKind::InvalidNumber => s.append("InvalidNumber"),
            ParseErrorKind::InvalidTimestamp => s.append("InvalidTimestamp"),
            ParseErrorKind::ArenaFull => s.append("ArenaFull"),
            ParseErrorKind::TableFull => s.append("TableFull"),
        }
        s.append(" at byte ");
        let n = crate::decimal::u64_to_string(self.at_byte as u64);
        s.append(n.as_str());
        proof {
            assert(s@ =~= kind_name(self.kind) + " at byte "@ + crate::decimal::dec_chars(
                self.at_byte as nat,
            ));
        }
        s
    }
}

/// Field delimiter of the wire format: the byte `|`.
pub const FIELD_DELIM: u8 = 124;

/// Escape byte, `\`: `ESCAPE` followed by `FIELD_DELIM` stands for a
/// literal delimiter inside a field value.
pub const ESCAPE: u8 = 92;

} // verus!
