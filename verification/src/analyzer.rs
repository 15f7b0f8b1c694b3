//! The analyzer facade: global message counters plus one symbol table,
//! with message ingestion and report generation.

use vstd::prelude::*;

verus! {

use crate::{ParseError, ParseErrorKind};
use crate::decimal::{dec_chars, u64_to_string};
use crate::escape::decoded;
use crate::table::{
    ARENA_MAX_BYTES,
    RowV,
    SymbolSnapshot,
    SymbolTable,
    TABLE_MAX_SYMBOLS,
    TableV,
    cap_for,
    record_spec,
    rows_of,
    table_wf,
    wrap_add,
};
use crate::tokenizer::parse_msg;

/// Aggregate statistics over a stream of trade messages: message and
/// side totals, and per-symbol count and volume.
pub struct TradeAnalyzer {
    total_messages: u64,
    malformed_messages: u64,
    side_buy: u64,
    side_sell: u64,
    symbols: SymbolTable,
}

/// The mathematical state of an analyzer.
#[verifier::ext_equal]
pub ghost struct AnalyzerV {
    pub total: u64,
    pub malformed: u64,
    pub buy: u64,
    pub sell: u64,
    pub table: TableV,
}

impl View for TradeAnalyzer {
    type V = AnalyzerV;

    closed spec fn view(&self) -> AnalyzerV {
        AnalyzerV {
            total: self.total_messages,
            malformed: self.malformed_messages,
            buy: self.side_buy,
            sell: self.side_sell,
            table: self.symbols@,
        }
    }
}

/// An analyzer is well-formed when its symbol table is.
pub open spec fn analyzer_wf(a: AnalyzerV) -> bool {
    table_wf(a.table)
}

/// What processing one message does to the analyzer. A message that
/// fails to parse changes nothing and surfaces the parse error. A parsed
/// message bumps the message total, attributes recognized side codes
/// (`1` buy, `2` sell; others count in the total only), and records the
/// symbol and quantity in the table; a table failure surfaces as an
/// error at byte 0, with the already-bumped counters kept.
pub open spec fn process_spec(a: AnalyzerV, raw: Seq<u8>) -> (AnalyzerV, Result<(), ParseError>) {
    match parse_msg(raw) {
        Err(e) => (a, Err(e)),
        Ok(p) => {
            let rec = record_spec(a.table, decoded(p.symbol), p.quantity);
            let a2 = AnalyzerV {
                total: wrap_add(a.total, 1),
                malformed: a.malformed,
                buy: if p.side == 49 {
                    wrap_add(a.buy, 1)
                } else {
                    a.buy
                },
                sell: if p.side == 50 {
                    wrap_add(a.sell, 1)
                } else {
                    a.sell
                },
                table: rec.0,
            };
            match rec.1 {
                Ok(u) => (a2, Ok(u)),
                Err(kind) => (a2, Err(ParseError { kind, at_byte: 0 })),
            }
        },
    }
}

/// The text of one report: the four counters, then one line per
/// published symbol in slot order.
pub open spec fn report_chars(a: AnalyzerV) -> Seq<char> {
    "=== Compliance Report ===\n"@ + "total_messages: "@ + dec_chars(a.total as nat) + "\n"@
        + "malformed_messages: "@ + dec_chars(a.malformed as nat) + "\n"@ + "side_buy: "@
        + dec_chars(a.buy as nat) + "\n"@ + "side_sell: "@ + dec_chars(a.sell as nat) + "\n"@
        + "\n=== Volume by Symbol ===\n"@ + rows_text(rows_of(a.table), 0)
}

/// The symbol lines of a report, from row `i` on.
pub open spec fn rows_text(rows: Seq<RowV>, i: int) -> Seq<char>
    decreases rows.len() - i,
{
    if i < 0 || i >= rows.len() {
        seq![]
    } else {
        rows[i].symbol + " count="@ + dec_chars(rows[i].count as nat) + " volume="@ + dec_chars(
            rows[i].volume as nat,
        ) + "\n"@ + rows_text(rows, i + 1)
    }
}

impl TradeAnalyzer {
    /// A fresh analyzer. `max_symbols` bounds the distinct symbols that
    /// can be tracked (rounded up to a power of two, at least 8);
    /// `arena_bytes` bounds the bytes available to store unique decoded
    /// symbol names. Both caps are machine limits: the slot array must
    /// fit the address space, and arena offsets must fit a packed
    /// 32-bit descriptor half.
    pub fn new(max_symbols: usize, arena_bytes: usize) -> (r: TradeAnalyzer)
        requires
            max_symbols <= TABLE_MAX_SYMBOLS,
            arena_bytes <= ARENA_MAX_BYTES,
        ensures
            analyzer_wf(r@),
            r@.total == 0,
            r@.malformed == 0,
            r@.buy == 0,
            r@.sell == 0,
            r@.table.slots.len() == cap_for(max_symbols as nat),
            r@.table.next == 0,
            r@.table.bytes.len() == arena_bytes,
            rows_of(r@.table).len() == 0,
    {
        let symbols = SymbolTable::new(max_symbols, arena_bytes);
        let r = TradeAnalyzer {
            total_messages: 0,
            malformed_messages: 0,
            side_buy: 0,
            side_sell: 0,
            symbols,
        };
        proof {
            crate::table::lemma_rows_all_unpublished(r@.table, 0);
        }
        r
    }

    /// Parse and ingest one message, exactly as `process_spec` lays it
    /// down: errors surface to the caller, and a failed parse leaves
    /// every counter untouched.
    pub fn process_message(&mut self, raw: &[u8]) -> (r: Result<(), ParseError>)
        requires
            analyzer_wf(old(self)@),
        ensures
            analyzer_wf(final(self)@),
            final(self)@ == process_spec(old(self)@, raw@).0,
            r == process_spec(old(self)@, raw@).1,
            final(self)@.malformed == old(self)@.malformed,
    {
        let parsed = match crate::tokenizer::parse_required(raw) {
            Ok(p) => p,
            Err(e) => {
                return Err(e);
            },
        };

        self.total_messages = self.total_messages.wrapping_add(1);
        if parsed.side == 49 {
            self.side_buy = self.side_buy.wrapping_add(1);
        } else if parsed.side == 50 {
            self.side_sell = self.side_sell.wrapping_add(1);
        }

        match self.symbols.record(&parsed.symbol, parsed.quantity) {
            Ok(_) => Ok(()),
            Err(kind) => Err(ParseError { kind, at_byte: 0 }),
        }
    }

    /// Like `process_message`, but never propagates an error: a failure
    /// of any kind is counted in `malformed_messages` and handed to
    /// `log_fn`, and the stream goes on.
    pub fn process_message_lossy<F: FnMut(ParseError)>(&mut self, raw: &[u8], log_fn: F)
        requires
            analyzer_wf(old(self)@),
            forall|e: ParseError| call_requires(log_fn, (e,)),
        ensures
            analyzer_wf(final(self)@),
            process_spec(old(self)@, raw@).1 is Ok ==> final(self)@ == process_spec(
                old(self)@,
                raw@,
            ).0,
            process_spec(old(self)@, raw@).1 is Err ==> final(self)@ == (AnalyzerV {
                malformed: wrap_add(process_spec(old(self)@, raw@).0.malformed, 1),
                ..process_spec(old(self)@, raw@).0
            }),
    {
        let mut log_fn = log_fn;
        match self.process_message(raw) {
            Ok(_) => {},
            Err(e) => {
                self.malformed_messages = self.malformed_messages.wrapping_add(1);
                log_fn(e);
            },
        }
    }

    /// Messages ingested so far (parse failures not included).
    pub fn total_messages(&self) -> (r: u64)
        ensures
            r == self@.total,
    {
        self.total_messages
    }

    /// Messages the lossy path rejected so far.
    pub fn malformed_messages(&self) -> (r: u64)
        ensures
            r == self@.malformed,
    {
        self.malformed_messages
    }

    /// The report as text: the counters, then one `symbol count=N
    /// volume=M` line per published symbol, in the table's slot order.
    /// The text is a function of the analyzer's state alone, so two
    /// reports with no ingestion in between are identical.
    pub fn report_string(&self) -> (r: String)
        requires
            analyzer_wf(self@),
        ensures
            r@ == report_chars(self@),
    {
        let mut out = String::new();
        out.append("=== Compliance Report ===\n");
        out.append("total_messages: ");
        let n = u64_to_string(self.total_messages);
        out.append(n.as_str());
        out.append("\n");
        out.append("malformed_messages: ");
        let n = u64_to_string(self.malformed_messages);
        out.append(n.as_str());
        out.append("\n");
        out.append("side_buy: ");
        let n = u64_to_string(self.side_buy);
        out.append(n.as_str());
        out.append("\n");
        out.append("side_sell: ");
        let n = u64_to_string(self.side_sell);
        out.append(n.as_str());
        out.append("\n");
        out.append("\n=== Volume by Symbol ===\n");

        let rows = self.symbols.snapshot();
        let ghost rv = rows@.map_values(|s: SymbolSnapshot| s@);
        proof {
            assert(rv == rows_of(self@.table));
            assert(out@ =~= report_chars(self@).subrange(
                0,
                report_chars(self@).len() - rows_text(rv, 0).len(),
            ));
        }
        let mut i: usize = 0;
        while i < rows.len()
            invariant
                i <= rows@.len(),
                rv == rows@.map_values(|s: SymbolSnapshot| s@),
                report_chars(self@) == out@ + rows_text(rv, i as int),
            decreases rows@.len() - i,
        {
            let row = &rows[i];
            proof {
                assert(rv[i as int] == row@);
            }
            out.append(row.symbol.as_str());
            out.append(" count=");
            let n = u64_to_string(row.count);
            out.append(n.as_str());
            out.append(" volume=");
            let n = u64_to_string(row.volume);
            out.append(n.as_str());
            out.append("\n");
            proof {
                assert(rows_text(rv, i as int) == rv[i as int].symbol + " count="@ + dec_chars(
                    rv[i as int].count as nat,
                ) + " volume="@ + dec_chars(rv[i as int].volume as nat) + "\n"@ + rows_text(
                    rv,
                    i + 1,
                ));
            }
            i = i + 1;
        }
        proof {
            assert(rows_text(rv, i as int) =~= Seq::<char>::empty());
            assert(report_chars(self@) =~= out@);
        }
        out
    }
}

/// Report generation is deterministic in the analyzer's state: with no
/// ingestion in between, two reports are the same text.
pub proof fn lemma_report_idempotent(a: AnalyzerV, r1: Seq<char>, r2: Seq<char>)
    requires
        r1 == report_chars(a),
        r2 == report_chars(a),
    ensures
        r1 == r2,
{
}

} // verus!
