//! Escape codec: byte strings may contain the two-byte sequence
//! `ESCAPE FIELD_DELIM` standing for a literal delimiter byte. The codec
//! decodes such strings, compares a still-escaped string against decoded
//! bytes without materializing a copy, and locates unescaped occurrences
//! of a byte.
//!
//! A trailing lone escape byte is treated as a literal escape character,
//! not as an error.

use vstd::prelude::*;

verus! {

use crate::ESCAPE;

/// The decoded form of a raw byte string: each pair `ESCAPE b` collapses
/// to `b`; a trailing lone `ESCAPE` stands for itself.
pub open spec fn decoded(raw: Seq<u8>) -> Seq<u8>
    decreases raw.len(),
{
    if raw.len() == 0 {
        seq![]
    } else if raw[0] == ESCAPE && raw.len() >= 2 {
        seq![raw[1]] + decoded(raw.skip(2))
    } else {
        seq![raw[0]] + decoded(raw.skip(1))
    }
}

/// Number of bytes `decode_into` would write for `raw`.
pub fn decoded_len(raw: &[u8]) -> (n: usize)
    ensures
        n == decoded(raw@).len(),
{
    let mut n: usize = 0;
    let mut i: usize = 0;
    proof {
        assert(raw@.skip(0) =~= raw@);
    }
    while i < raw.len()
        invariant
            i <= raw.len(),
            n <= i,
            decoded(raw@).len() == n + decoded(raw@.skip(i as int)).len(),
        decreases raw.len() - i,
    {
        proof {
            lemma_decoded_step(raw@, i as int);
        }
        if raw[i] == ESCAPE && i + 1 < raw.len() {
            n = n + 1;
            i = i + 2;
        } else {
            n = n + 1;
            i = i + 1;
        }
    }
    n
}

/// Decode `raw` into `out`, returning the number of bytes written.
/// Bytes of `out` past the decoded length are left as they were.
pub fn decode_into(raw: &[u8], out: &mut [u8]) -> (n: usize)
    requires
        old(out)@.len() >= decoded(raw@).len(),
    ensures
        n == decoded(raw@).len(),
        final(out)@.len() == old(out)@.len(),
        final(out)@.subrange(0, n as int) == decoded(raw@),
        forall|k: int| n <= k < final(out)@.len() ==> final(out)@[k] == old(out)@[k],
{
    let mut w: usize = 0;
    let mut i: usize = 0;
    proof {
        assert(raw@.skip(0) =~= raw@);
        assert(decoded(raw@) =~= out@.subrange(0, 0) + decoded(raw@.skip(0)));
    }
    while i < raw.len()
        invariant
            i <= raw.len(),
            w == decoded(raw@).len() - decoded(raw@.skip(i as int)).len(),
            w <= decoded(raw@).len() <= out@.len(),
            out@.len() == old(out)@.len(),
            decoded(raw@) == out@.subrange(0, w as int) + decoded(raw@.skip(i as int)),
            forall|k: int| w <= k < out@.len() ==> out@[k] == old(out)@[k],
        decreases raw.len() - i,
    {
        proof {
            lemma_decoded_step(raw@, i as int);
        }
        let ghost prev = out@;
        if raw[i] == ESCAPE && i + 1 < raw.len() {
            out[w] = raw[i + 1];
            proof {
                assert(out@.subrange(0, w + 1) =~= prev.subrange(0, w as int) + seq![
                    raw@[i + 1],
                ]);
                assert(decoded(raw@) =~= out@.subrange(0, w + 1) + decoded(
                    raw@.skip(i + 2),
                ));
            }
            w = w + 1;
            i = i + 2;
        } else {
            out[w] = raw[i];
            proof {
                assert(out@.subrange(0, w + 1) =~= prev.subrange(0, w as int) + seq![raw@[i as int]]);
                assert(decoded(raw@) =~= out@.subrange(0, w + 1) + decoded(
                    raw@.skip(i + 1),
                ));
            }
            w = w + 1;
            i = i + 1;
        }
    }
    proof {
        assert(decoded(raw@) =~= out@.subrange(0, w as int));
    }
    w
}

/// Escape-aware equality: does the decoded form of `raw` equal the
/// already-decoded bytes `stored`?
pub fn escaped_eq(raw: &[u8], stored: &[u8]) -> (r: bool)
    ensures
        r == (decoded(raw@) == stored@),
{
    let mut i: usize = 0;
    let mut j: usize = 0;
    proof {
        assert(raw@.skip(0) =~= raw@);
        assert(decoded(raw@) =~= stored@.subrange(0, 0) + decoded(raw@.skip(0)));
    }
    while i < raw.len()
        invariant
            i <= raw.len(),
            j <= stored@.len(),
            j == decoded(raw@).len() - decoded(raw@.skip(i as int)).len(),
            decoded(raw@) == stored@.subrange(0, j as int) + decoded(raw@.skip(i as int)),
        decreases raw.len() - i,
    {
        proof {
            lemma_decoded_step(raw@, i as int);
        }
        let b: u8;
        if raw[i] == ESCAPE && i + 1 < raw.len() {
            b = raw[i + 1];
            i = i + 2;
        } else {
            b = raw[i];
            i = i + 1;
        }
        proof {
            assert(decoded(raw@) == stored@.subrange(0, j as int) + (seq![b] + decoded(
                raw@.skip(i as int),
            )));
            assert(decoded(raw@)[j as int] == b);
        }
        if j >= stored.len() || stored[j] != b {
            proof {
                if j < stored@.len() {
                    assert(decoded(raw@)[j as int] != stored@[j as int]);
                }
            }
            return false;
        }
        proof {
            assert(stored@.subrange(0, j + 1) =~= stored@.subrange(0, j as int) + seq![b]);
            assert(decoded(raw@) =~= stored@.subrange(0, j + 1) + decoded(raw@.skip(i as int)));
        }
        j = j + 1;
    }
    proof {
        assert(decoded(raw@) =~= stored@.subrange(0, j as int));
        if j == stored@.len() {
            assert(stored@.subrange(0, j as int) =~= stored@);
        }
    }
    j == stored.len()
}

/// Position of the first occurrence of `needle` at or after `i` in `buf`
/// that is not hidden behind an escape byte; scanning skips over each
/// escape byte together with the byte it escapes.
pub open spec fn find_unesc(buf: Seq<u8>, i: int, needle: u8) -> Option<int>
    decreases buf.len() - i,
{
    if i < 0 || i >= buf.len() {
        None
    } else if buf[i] == ESCAPE {
        if i + 1 < buf.len() {
            find_unesc(buf, i + 2, needle)
        } else {
            None
        }
    } else if buf[i] == needle {
        Some(i)
    } else {
        find_unesc(buf, i + 1, needle)
    }
}

/// Whatever `find_unesc` returns points at an unescaped `needle` within
/// bounds, at or after the start of the scan.
pub proof fn lemma_find_unesc_in_range(buf: Seq<u8>, i: int, needle: u8)
    requires
        0 <= i,
    ensures
        find_unesc(buf, i, needle) matches Some(j) ==> i <= j < buf.len() && buf[j] == needle,
    decreases buf.len() - i,
{
    if i < buf.len() {
        if buf[i] == ESCAPE {
            if i + 1 < buf.len() {
                lemma_find_unesc_in_range(buf, i + 2, needle);
            }
        } else if buf[i] != needle {
            lemma_find_unesc_in_range(buf, i + 1, needle);
        }
    }
}

/// Scan `buf` from offset `i` for the first unescaped occurrence of
/// `needle`.
pub fn find_unescaped(buf: &[u8], start: usize, needle: u8) -> (r: Option<usize>)
    ensures
        match r {
            Some(j) => find_unesc(buf@, start as int, needle) == Some(j as int),
            None => find_unesc(buf@, start as int, needle) is None,
        },
{
    let mut i: usize = start;
    while i < buf.len()
        invariant
            find_unesc(buf@, start as int, needle) == find_unesc(buf@, i as int, needle),
        decreases buf.len() - i,
    {
        let b = buf[i];
        if b == ESCAPE {
            if i + 1 < buf.len() {
                i = i + 2;
            } else {
                return None;
            }
            continue ;
        }
        if b == needle {
            return Some(i);
        }
        i = i + 1;
    }
    None
}

/// A view of a field value that may contain escape sequences (notably an
/// escaped delimiter). The view of an `EscapedValue` is its raw, still
/// escaped, byte sequence.
#[derive(Debug, Clone, Copy)]
pub struct EscapedValue<'a> {
    raw: &'a [u8],
}

impl<'a> View for EscapedValue<'a> {
    type V = Seq<u8>;

    closed spec fn view(&self) -> Seq<u8> {
        self.raw@
    }
}

impl<'a> EscapedValue<'a> {
    pub fn new(raw: &'a [u8]) -> (r: Self)
        ensures
            r@ == raw@,
    {
        Self { raw }
    }

    pub fn raw(&self) -> (r: &'a [u8])
        ensures
            r@ == self@,
    {
        self.raw
    }

    /// Length of the decoded form of the value.
    pub fn decoded_len(&self) -> (n: usize)
        ensures
            n == decoded(self@).len(),
    {
        decoded_len(self.raw)
    }

    /// Decode into `out`, returning the number of bytes written.
    pub fn decode_into(&self, out: &mut [u8]) -> (n: usize)
        requires
            old(out)@.len() >= decoded(self@).len(),
        ensures
            n == decoded(self@).len(),
            final(out)@.len() == old(out)@.len(),
            final(out)@.subrange(0, n as int) == decoded(self@),
            forall|k: int| n <= k < final(out)@.len() ==> final(out)@[k] == old(out)@[k],
    {
        decode_into(self.raw, out)
    }

    /// The decoded value as text, with ill-formed UTF-8 replaced.
    pub fn to_string_lossy(&self) -> (r: String)
        ensures
            r@ == crate::strutil::utf8_lossy(decoded(self@)),
            crate::strutil::ascii_bytes(decoded(self@)) ==> r@ == crate::strutil::ascii_chars(
                decoded(self@),
            ),
    {
        let n = self.decoded_len();
        let mut buf: Vec<u8> = Vec::new();
        buf.resize(n, 0u8);
        let w = decode_into(self.raw, buf.as_mut_slice());
        proof {
            assert(buf@.subrange(0, w as int) =~= buf@);
        }
        crate::strutil::bytes_to_string_lossy(buf.as_slice())
    }
}

/// `v` with every delimiter byte written in its escaped, two-byte form.
pub open spec fn escape_delims(v: Seq<u8>) -> Seq<u8>
    decreases v.len(),
{
    if v.len() == 0 {
        seq![]
    } else if v[0] == crate::FIELD_DELIM {
        seq![ESCAPE, crate::FIELD_DELIM] + escape_delims(v.skip(1))
    } else {
        seq![v[0]] + escape_delims(v.skip(1))
    }
}

/// Escaping round-trips: for a value free of escape bytes, writing each
/// literal delimiter as its escaped form and decoding the result yields
/// the value back, literal delimiters included.
pub proof fn lemma_escape_round_trip(v: Seq<u8>)
    requires
        forall|k: int| 0 <= k < v.len() ==> v[k] != ESCAPE,
    ensures
        decoded(escape_delims(v)) == v,
    decreases v.len(),
{
    if v.len() == 0 {
    } else {
        lemma_escape_round_trip(v.skip(1));
        if v[0] == crate::FIELD_DELIM {
            let e = seq![ESCAPE, crate::FIELD_DELIM] + escape_delims(v.skip(1));
            assert(e[0] == ESCAPE && e.len() >= 2);
            assert(e.skip(2) =~= escape_delims(v.skip(1)));
            assert(decoded(e) =~= seq![crate::FIELD_DELIM] + decoded(escape_delims(v.skip(1))));
            assert(decoded(escape_delims(v)) =~= v);
        } else {
            let e = seq![v[0]] + escape_delims(v.skip(1));
            assert(e[0] == v[0] && e[0] != ESCAPE);
            if e.len() >= 2 {
                assert(e.skip(1) =~= escape_delims(v.skip(1)));
            } else {
                assert(e.skip(1) =~= escape_delims(v.skip(1)));
            }
            assert(decoded(escape_delims(v)) =~= v);
        }
    }
}

/// One unfolding of `decoded` at offset `i` of `raw`.
pub proof fn lemma_decoded_step(raw: Seq<u8>, i: int)
    requires
        0 <= i < raw.len(),
    ensures
        raw[i] == ESCAPE && i + 1 < raw.len() ==> decoded(raw.skip(i)) == seq![raw[i + 1]]
            + decoded(raw.skip(i + 2)),
        !(raw[i] == ESCAPE && i + 1 < raw.len()) ==> decoded(raw.skip(i)) == seq![raw[i]]
            + decoded(raw.skip(i + 1)),
{
    let s = raw.skip(i);
    assert(s[0] == raw[i]);
    if raw[i] == ESCAPE && i + 1 < raw.len() {
        assert(s.len() >= 2);
        assert(s[1] == raw[i + 1]);
        assert(s.skip(2) =~= raw.skip(i + 2));
    } else {
        assert(s.skip(1) =~= raw.skip(i + 1));
    }
}

} // verus!
