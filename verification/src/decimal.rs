//! Verified decimal rendering of unsigned integers, used by the report
//! writer and error descriptions.

use vstd::prelude::*;

verus! {

use crate::strutil::push_char;

/// The character of the decimal digit `d`.
pub open spec fn digit_char(d: nat) -> char {
    ((48 + d) as u8) as char
}

/// The decimal digit string of `n`, most significant digit first, with
/// no leading zeros (`0` itself is the single digit `0`).
pub open spec fn dec_chars(n: nat) -> Seq<char>
    decreases n,
{
    if n < 10 {
        seq![digit_char(n)]
    } else {
        dec_chars(n / 10).push(digit_char(n % 10))
    }
}

/// The digits of `ds`, least significant first, read back to front as
/// characters.
spec fn rev_chars(ds: Seq<u8>) -> Seq<char>
    decreases ds.len(),
{
    if ds.len() == 0 {
        seq![]
    } else {
        seq![ds.last() as char] + rev_chars(ds.drop_last())
    }
}

proof fn lemma_rev_chars_index(ds: Seq<u8>, i: int)
    requires
        0 <= i < ds.len(),
    ensures
        rev_chars(ds).len() == ds.len(),
        rev_chars(ds)[i] == ds[ds.len() - 1 - i] as char,
    decreases ds.len(),
{
    lemma_rev_chars_len(ds);
    if i > 0 {
        lemma_rev_chars_index(ds.drop_last(), i - 1);
    }
}

proof fn lemma_rev_chars_len(ds: Seq<u8>)
    ensures
        rev_chars(ds).len() == ds.len(),
    decreases ds.len(),
{
    if ds.len() > 0 {
        lemma_rev_chars_len(ds.drop_last());
    }
}

/// Render `n` in decimal.
pub fn u64_to_string(n: u64) -> (s: String)
    ensures
        s@ == dec_chars(n as nat),
{
    let mut digits: Vec<u8> = Vec::new();
    let mut m: u64 = n;
    loop
        invariant_except_break
            digits@.len() == 0 ==> m == n,
            digits@.len() > 0 ==> m > 0 && dec_chars(n as nat) == dec_chars(m as nat)
                + rev_chars(digits@),
        ensures
            dec_chars(n as nat) == rev_chars(digits@),
        decreases m,
    {
        let ghost m0 = m as nat;
        let d = (m % 10) as u8;
        let ghost olddigits = digits@;
        digits.push(48 + d);
        proof {
            assert(digits@.drop_last() =~= olddigits);
            assert(digits@.last() == 48 + d);
            assert(rev_chars(digits@) == seq![((48 + d) as u8) as char] + rev_chars(olddigits));
        }
        m = m / 10;
        proof {
            if m0 < 10 {
                assert(dec_chars(m0) =~= seq![digit_char(m0)]);
            } else {
                assert(dec_chars(m0) == dec_chars(m0 / 10).push(digit_char(m0 % 10)));
            }
            if olddigits.len() == 0 {
                assert(rev_chars(olddigits) =~= Seq::<char>::empty());
                assert(dec_chars(m0) =~= dec_chars(m0) + rev_chars(olddigits));
            }
            assert(dec_chars(n as nat) == dec_chars(m0) + rev_chars(olddigits));
            if m == 0 {
                assert(dec_chars(n as nat) =~= seq![((48 + d) as u8) as char] + rev_chars(
                    olddigits,
                ));
            } else {
                assert(dec_chars(m0) =~= dec_chars(m as nat).push(digit_char((d) as nat)));
                assert(dec_chars(m as nat).push(digit_char(d as nat)) + rev_chars(olddigits)
                    =~= dec_chars(m as nat) + rev_chars(digits@));
            }
        }
        if m == 0 {
            break ;
        }
    }
    proof {
        lemma_rev_chars_len(digits@);
    }
    let mut s = String::new();
    let mut j: usize = 0;
    while j < digits.len()
        invariant
            j <= digits@.len(),
            rev_chars(digits@).len() == digits@.len(),
            dec_chars(n as nat) == rev_chars(digits@),
            s@ =~= rev_chars(digits@).take(j as int),
        decreases digits@.len() - j,
    {
        proof {
            lemma_rev_chars_index(digits@, j as int);
        }
        push_char(&mut s, digits[digits.len() - 1 - j] as char);
        proof {
            assert(s@ =~= rev_chars(digits@).take(j + 1));
        }
        j = j + 1;
    }
    proof {
        assert(rev_chars(digits@).take(j as int) =~= dec_chars(n as nat));
    }
    s
}

} // verus!
