//! A word-frequency counter: text is split on whitespace, each word is
//! stripped to its alphanumeric characters and lowercased, stop words
//! are dropped, and the rest are counted.

use vstd::prelude::*;
use vstd::string::StrSliceExecFns;

verus! {

use crate::strutil::{is_alnum_char, is_space_char, lower_of, lowercase, push_char, str_eq};

/// The word list built while splitting `s` on whitespace, from offset
/// `i`, with the currently open word `cur`: maximal runs of
/// non-whitespace characters, in order.
pub open spec fn split_acc(s: Seq<char>, i: int, cur: Seq<char>) -> Seq<Seq<char>>
    decreases s.len() - i,
{
    if i < 0 || i >= s.len() {
        if cur.len() > 0 {
            seq![cur]
        } else {
            seq![]
        }
    } else if is_space_char(s[i]) {
        (if cur.len() > 0 {
            seq![cur]
        } else {
            seq![]
        }) + split_acc(s, i + 1, seq![])
    } else {
        split_acc(s, i + 1, cur.push(s[i]))
    }
}

/// The whitespace-separated words of `s`.
pub open spec fn split_ws(s: Seq<char>) -> Seq<Seq<char>> {
    split_acc(s, 0, seq![])
}

/// Split `text` into its whitespace-separated words.
fn split_words(text: &str) -> (r: Vec<String>)
    ensures
        r@.map_values(|w: String| w@) == split_ws(text@),
{
    let n = text.unicode_len();
    let mut out: Vec<String> = Vec::new();
    let mut cur = String::new();
    let mut i: usize = 0;
    proof {
        assert(out@.map_values(|w: String| w@) =~= Seq::<Seq<char>>::empty());
    }
    while i < n
        invariant
            i <= n,
            n == text@.len(),
            split_ws(text@) == out@.map_values(|w: String| w@) + split_acc(
                text@,
                i as int,
                cur@,
            ),
        decreases n - i,
    {
        let c = text.get_char(i);
        if c.is_whitespace() {
            if !cur.as_str().is_empty() {
                proof {
                    assert(cur@.len() > 0);
                }
                let ghost oldout = out@;
                out.push(cur);
                proof {
                    assert(out@.map_values(|w: String| w@) =~= oldout.map_values(|w: String| w@)
                        + seq![out@.last()@]);
                }
                cur = String::new();
            } else {
                proof {
                    assert(cur@.len() == 0);
                    assert((if cur@.len() > 0 {
                        seq![cur@]
                    } else {
                        Seq::<Seq<char>>::empty()
                    }) + split_acc(text@, i + 1, seq![]) =~= split_acc(text@, i + 1, seq![]));
                }
                cur = String::new();
            }
            proof {
                assert(cur@ =~= Seq::<char>::empty());
            }
        } else {
            push_char(&mut cur, c);
        }
        i = i + 1;
    }
    if !cur.as_str().is_empty() {
        proof {
            assert(cur@.len() > 0);
        }
        let ghost oldout = out@;
        out.push(cur);
        proof {
            assert(out@.map_values(|w: String| w@) =~= oldout.map_values(|w: String| w@) + seq![
                out@.last()@,
            ]);
        }
    } else {
        proof {
            assert(split_acc(text@, i as int, cur@) =~= Seq::<Seq<char>>::empty());
            assert(out@.map_values(|w: String| w@) + split_acc(text@, i as int, cur@)
                =~= out@.map_values(|w: String| w@));
        }
    }
    out
}

/// The count table is an association list: distinct words, in first-seen
/// order, each with its count.
pub open spec fn counts_wf(cs: Seq<(Seq<char>, usize)>) -> bool {
    forall|i: int, j: int| 0 <= i < j < cs.len() ==> cs[i].0 != cs[j].0
}

/// The count stored for `w`, or zero when `w` is absent.
pub open spec fn count_of(cs: Seq<(Seq<char>, usize)>, w: Seq<char>) -> usize
    decreases cs.len(),
{
    if cs.len() == 0 {
        0
    } else if cs[0].0 == w {
        cs[0].1
    } else {
        count_of(cs.skip(1), w)
    }
}

/// The table after one more occurrence of `w`: its count is bumped
/// (wrapping), or a fresh entry with count 1 is appended.
pub open spec fn bump(cs: Seq<(Seq<char>, usize)>, w: Seq<char>) -> Seq<(Seq<char>, usize)>
    decreases cs.len(),
{
    if cs.len() == 0 {
        seq![(w, 1usize)]
    } else if cs[0].0 == w {
        seq![(w, vstd::wrapping::usize_specs::wrapping_add(cs[0].1, 1))] + cs.skip(1)
    } else {
        seq![cs[0]] + bump(cs.skip(1), w)
    }
}

/// The logical key a raw word counts under: its alphanumeric characters,
/// lowercased.
pub open spec fn word_key(w: Seq<char>) -> Seq<char> {
    lower_of(w.filter(|c: char| is_alnum_char(c)))
}

/// How one raw word changes the table: a word with no alphanumeric
/// characters is skipped, a stop word is skipped, anything else is
/// counted under its key.
pub open spec fn ingest_word(
    cs: Seq<(Seq<char>, usize)>,
    stops: Seq<Seq<char>>,
    w: Seq<char>,
) -> Seq<(Seq<char>, usize)> {
    let cleaned = w.filter(|c: char| is_alnum_char(c));
    if cleaned.len() == 0 {
        cs
    } else {
        let key = word_key(w);
        if stops.contains(key) {
            cs
        } else {
            bump(cs, key)
        }
    }
}

/// The table after ingesting the words `ws[i..]`.
pub open spec fn ingest_all(
    cs: Seq<(Seq<char>, usize)>,
    stops: Seq<Seq<char>>,
    ws: Seq<Seq<char>>,
    i: int,
) -> Seq<(Seq<char>, usize)>
    decreases ws.len() - i,
{
    if i < 0 || i >= ws.len() {
        cs
    } else {
        ingest_all(ingest_word(cs, stops, ws[i]), stops, ws, i + 1)
    }
}

/// A word-frequency counter with a fixed stop-word list.
pub struct TextProcessor {
    words: Vec<(String, usize)>,
    stops: Vec<String>,
}

/// The mathematical state of a `TextProcessor`: the count table and the
/// lowercased stop words.
#[verifier::ext_equal]
pub ghost struct TextV {
    pub counts: Seq<(Seq<char>, usize)>,
    pub stops: Seq<Seq<char>>,
}

impl View for TextProcessor {
    type V = TextV;

    closed spec fn view(&self) -> TextV {
        TextV {
            counts: self.words@.map_values(|p: (String, usize)| (p.0@, p.1)),
            stops: self.stops@.map_values(|s: String| s@),
        }
    }
}

impl TextProcessor {
    /// A counter with the given stop words, which are lowercased once
    /// here; no word is counted yet.
    pub fn new(stop_words: Vec<String>) -> (r: TextProcessor)
        ensures
            r@.counts == Seq::<(Seq<char>, usize)>::empty(),
            r@.stops == stop_words@.map_values(|s: String| lower_of(s@)),
            counts_wf(r@.counts),
    {
        let mut stops: Vec<String> = Vec::new();
        let mut i: usize = 0;
        while i < stop_words.len()
            invariant
                i <= stop_words@.len(),
                stops@.len() == i,
                forall|t: int| 0 <= t < i ==> stops@[t]@ == lower_of(stop_words@[t]@),
            decreases stop_words@.len() - i,
        {
            let w = lowercase(stop_words[i].as_str());
            stops.push(w);
            i = i + 1;
        }
        let r = TextProcessor { words: Vec::new(), stops };
        proof {
            assert(r@.counts =~= Seq::<(Seq<char>, usize)>::empty());
            assert(r@.stops =~= stop_words@.map_values(|s: String| lower_of(s@)));
        }
        r
    }

    /// Is `word` (already lowercased) one of the stop words?
    fn is_stop_word(&self, word: &str) -> (r: bool)
        ensures
            r == self@.stops.contains(word@),
    {
        let mut i: usize = 0;
        while i < self.stops.len()
            invariant
                i <= self.stops@.len(),
                forall|t: int| 0 <= t < i ==> self@.stops[t] != word@,
            decreases self.stops@.len() - i,
        {
            if str_eq(word, self.stops[i].as_str()) {
                proof {
                    assert(self@.stops[i as int] == word@);
                }
                return true;
            }
            i = i + 1;
        }
        false
    }

    /// `word` stripped to its alphanumeric characters, in order.
    fn clean_word(&self, word: &str) -> (r: String)
        ensures
            r@ == word@.filter(|c: char| is_alnum_char(c)),
    {
        let n = word.unicode_len();
        let mut out = String::new();
        let mut i: usize = 0;
        proof {
            reveal(Seq::filter);
            assert(word@.take(0) =~= Seq::<char>::empty());
            assert(out@ =~= word@.take(0).filter(|c: char| is_alnum_char(c)));
        }
        while i < n
            invariant
                i <= n,
                n == word@.len(),
                out@ == word@.take(i as int).filter(|c: char| is_alnum_char(c)),
            decreases n - i,
        {
            let c = word.get_char(i);
            proof {
                reveal(Seq::filter);
                assert(word@.take(i + 1).drop_last() =~= word@.take(i as int));
                assert(word@.take(i + 1).last() == word@[i as int]);
            }
            if c.is_alphanumeric() {
                push_char(&mut out, c);
            }
            i = i + 1;
        }
        proof {
            assert(word@.take(i as int) =~= word@);
        }
        out
    }

    /// Count every word of `text`: split on whitespace, strip each word
    /// to its alphanumeric characters, lowercase it, drop stop words and
    /// empty leavings, and bump each survivor's count.
    pub fn process_text(&mut self, text: &str)
        requires
            counts_wf(old(self)@.counts),
        ensures
            counts_wf(final(self)@.counts),
            final(self)@.counts == ingest_all(
                old(self)@.counts,
                old(self)@.stops,
                split_ws(text@),
                0,
            ),
            final(self)@.stops == old(self)@.stops,
    {
        let ghost stops0 = self@.stops;
        let ghost cs0 = self@.counts;
        let ghost ws = split_ws(text@);
        let words = split_words(text);
        let mut i: usize = 0;
        while i < words.len()
            invariant
                i <= words@.len(),
                cs0 == old(self)@.counts,
                stops0 == old(self)@.stops,
                ws == split_ws(text@),
                ws == words@.map_values(|w: String| w@),
                counts_wf(self@.counts),
                self@.stops == stops0,
                ingest_all(cs0, stops0, ws, 0) == ingest_all(self@.counts, stops0, ws, i as int),
            decreases words@.len() - i,
        {
            let ghost csb = self@.counts;
            let cleaned = self.clean_word(words[i].as_str());
            if !cleaned.as_str().is_empty() {
                let lower = lowercase(cleaned.as_str());
                if !self.is_stop_word(lower.as_str()) {
                    self.bump_word(lower);
                }
            }
            proof {
                assert(ingest_word(csb, stops0, ws[i as int]) == self@.counts);
            }
            i = i + 1;
        }
    }

    /// Add one occurrence of `key` to the table.
    fn bump_word(&mut self, key: String)
        requires
            counts_wf(old(self)@.counts),
        ensures
            counts_wf(final(self)@.counts),
            final(self)@.counts == bump(old(self)@.counts, key@),
            final(self).stops == old(self).stops,
    {
        let ghost cs0 = self@.counts;
        let mut i: usize = 0;
        while i < self.words.len()
            invariant
                i <= self.words@.len(),
                self == old(self),
                cs0 == old(self)@.counts,
                counts_wf(cs0),
                forall|t: int| 0 <= t < i ==> self@.counts[t].0 != key@,
            decreases self.words@.len() - i,
        {
            if str_eq(self.words[i].0.as_str(), key.as_str()) {
                proof {
                    assert(cs0[i as int].0 == key@);
                    lemma_bump_found(cs0, key@, i as int);
                }
                let c = self.words[i].1;
                let w = self.words[i].0.clone();
                self.words[i] = (w, c.wrapping_add(1));
                proof {
                    assert(self@.counts =~= cs0.update(
                        i as int,
                        (key@, vstd::wrapping::usize_specs::wrapping_add(cs0[i as int].1, 1)),
                    ));
                    assert forall|p: int, q: int|
                        0 <= p < q < self@.counts.len() implies self@.counts[p].0
                        != self@.counts[q].0 by {
                        assert(cs0[p].0 != cs0[q].0);
                        assert(self@.counts[p].0 == cs0[p].0 && self@.counts[q].0 == cs0[q].0);
                    }
                }
                return ;
            }
            i = i + 1;
        }
        proof {
            lemma_bump_absent(cs0, key@);
        }
        self.words.push((key, 1));
        proof {
            assert(self@.counts =~= cs0.push((key@, 1usize)));
            assert forall|p: int, q: int|
                0 <= p < q < self@.counts.len() implies self@.counts[p].0 != self@.counts[q].0 by {
                if q < cs0.len() {
                    assert(cs0[p].0 != cs0[q].0);
                } else {
                    assert(self@.counts[p].0 == cs0[p].0);
                }
            }
        }
    }
}

impl TextProcessor {
    /// The count recorded for exactly `word` (no cleaning or
    /// lowercasing is applied here), or zero.
    pub fn get_word_count(&self, word: &str) -> (r: usize)
        ensures
            r == count_of(self@.counts, word@),
    {
        let ghost cs = self@.counts;
        let mut i: usize = 0;
        while i < self.words.len()
            invariant
                i <= self.words@.len(),
                cs == self@.counts,
                forall|t: int| 0 <= t < i ==> cs[t].0 != word@,
            decreases self.words@.len() - i,
        {
            if str_eq(self.words[i].0.as_str(), word) {
                proof {
                    lemma_count_of_found(cs, word@, i as int);
                }
                return self.words[i].1;
            }
            i = i + 1;
        }
        proof {
            lemma_count_of_absent(cs, word@);
        }
        0
    }

    /// How many distinct words have been counted.
    pub fn total_unique_words(&self) -> (r: usize)
        ensures
            r == self@.counts.len(),
    {
        self.words.len()
    }

    /// Drop every count; the stop words are kept.
    pub fn clear(&mut self)
        ensures
            final(self)@.counts == Seq::<(Seq<char>, usize)>::empty(),
            final(self)@.stops == old(self)@.stops,
            counts_wf(final(self)@.counts),
    {
        self.words.clear();
        proof {
            assert(self@.counts =~= Seq::<(Seq<char>, usize)>::empty());
        }
    }

    /// The distinct words counted so far, in first-seen order.
    pub fn get_unique_words(&self) -> (r: Vec<String>)
        ensures
            r@.map_values(|w: String| w@) == self@.counts.map_values(
                |p: (Seq<char>, usize)| p.0,
            ),
    {
        let mut out: Vec<String> = Vec::new();
        let mut i: usize = 0;
        while i < self.words.len()
            invariant
                i <= self.words@.len(),
                out@.len() == i,
                forall|t: int| 0 <= t < i ==> out@[t]@ == self@.counts[t].0,
            decreases self.words@.len() - i,
        {
            out.push(self.words[i].0.clone());
            i = i + 1;
        }
        proof {
            assert(out@.map_values(|w: String| w@) =~= self@.counts.map_values(
                |p: (Seq<char>, usize)| p.0,
            ));
        }
        out
    }

    /// Up to `n` of the most frequent words, with their counts, most
    /// frequent first: the result holds entries of the table, no word
    /// twice, counts descending, and every word left out counts no more
    /// than any word returned.
    pub fn get_top_words(&self, n: usize) -> (r: Vec<(String, usize)>)
        requires
            counts_wf(self@.counts),
        ensures
            r@.len() == if n <= self@.counts.len() {
                n as int
            } else {
                self@.counts.len() as int
            },
            forall|x: int, y: int| 0 <= x < y < r@.len() ==> r@[x].1 >= r@[y].1,
            forall|x: int|
                0 <= x < r@.len() ==> self@.counts.contains((#[trigger] r@[x].0@, r@[x].1)),
            forall|x: int, y: int| 0 <= x < y < r@.len() ==> r@[x].0@ != r@[y].0@,
            forall|t: int, x: int|
                0 <= t < self@.counts.len() && 0 <= x < r@.len() && !(exists|y: int|
                    0 <= y < r@.len() && #[trigger] r@[y].0@ == self@.counts[t].0)
                    ==> #[trigger] self@.counts[t].1 <= #[trigger] r@[x].1,
    {
        let ghost cs = self@.counts;
        let mut pool: Vec<(String, usize)> = Vec::new();
        let mut i: usize = 0;
        while i < self.words.len()
            invariant
                i <= self.words@.len(),
                cs == self@.counts,
                pool@.len() == i,
                forall|t: int| 0 <= t < i ==> (#[trigger] pool@[t].0@, pool@[t].1) == cs[t],
            decreases self.words@.len() - i,
        {
            let w = self.words[i].0.clone();
            let c = self.words[i].1;
            pool.push((w, c));
            i = i + 1;
        }

        let mut result: Vec<(String, usize)> = Vec::new();
        proof {
            assert forall|x: int| 0 <= x < pool@.len() implies cs.contains(
                (#[trigger] pool@[x].0@, pool@[x].1),
            ) by {
                assert(cs[x] == (pool@[x].0@, pool@[x].1));
            }
            assert forall|x: int, y: int| 0 <= x < y < pool@.len() implies #[trigger] pool@[x].0@
                != #[trigger] pool@[y].0@ by {
                assert(cs[x].0 == pool@[x].0@ && cs[y].0 == pool@[y].0@);
                assert(cs[x].0 != cs[y].0);
            }
            assert forall|t: int| 0 <= t < cs.len() implies covered(
                cs[t],
                result@,
                pool@,
            ) by {
                assert((pool@[t].0@, pool@[t].1) == cs[t]);
            }
        }
        while result.len() < n && pool.len() > 0
            invariant
                counts_wf(cs),
                cs == self@.counts,
                result@.len() <= n,
                result@.len() + pool@.len() == cs.len(),
                forall|x: int|
                    0 <= x < pool@.len() ==> cs.contains((#[trigger] pool@[x].0@, pool@[x].1)),
                forall|x: int|
                    0 <= x < result@.len() ==> cs.contains(
                        (#[trigger] result@[x].0@, result@[x].1),
                    ),
                forall|x: int, y: int|
                    0 <= x < y < pool@.len() ==> #[trigger] pool@[x].0@ != #[trigger] pool@[y].0@,
                forall|x: int, y: int|
                    0 <= x < y < result@.len() ==> #[trigger] result@[x].0@
                        != #[trigger] result@[y].0@,
                forall|x: int, y: int|
                    0 <= x < result@.len() && 0 <= y < pool@.len() ==> #[trigger] result@[x].0@
                        != #[trigger] pool@[y].0@,
                forall|x: int, y: int|
                    0 <= x < y < result@.len() ==> #[trigger] result@[x].1
                        >= #[trigger] result@[y].1,
                forall|x: int, y: int|
                    0 <= x < result@.len() && 0 <= y < pool@.len() ==> #[trigger] pool@[y].1
                        <= #[trigger] result@[x].1,
                forall|t: int| 0 <= t < cs.len() ==> covered(#[trigger] cs[t], result@, pool@),
            decreases pool@.len(),
        {
            let mut best: usize = 0;
            let mut p: usize = 1;
            while p < pool.len()
                invariant
                    best < p <= pool@.len(),
                    pool@.len() > 0,
                    forall|t: int| 0 <= t < p ==> #[trigger] pool@[t].1 <= pool@[best as int].1,
                decreases pool@.len() - p,
            {
                if pool[p].1 > pool[best].1 {
                    best = p;
                }
                p = p + 1;
            }
            let ghost oldpool = pool@;
            let ghost oldres = result@;
            let item = pool.swap_remove(best);
            result.push(item);
            proof {
                let pmap = |x: int|
                    if x == best {
                        oldpool.len() - 1
                    } else {
                        x
                    };
                assert(result@.len() == oldres.len() + 1);
                assert(result@[result@.len() - 1] == oldpool[best as int]);
                assert(forall|x: int| 0 <= x < oldres.len() ==> result@[x] == oldres[x]);
                assert forall|x: int| 0 <= x < pool@.len() implies pool@[x] == oldpool[pmap(x)]
                    && 0 <= pmap(x) < oldpool.len() by {}
                assert forall|x: int, y: int|
                    0 <= x < y < pool@.len() implies #[trigger] pool@[x].0@
                    != #[trigger] pool@[y].0@ by {
                    assert(pmap(x) != pmap(y));
                    assert(oldpool[pmap(x)].0@ != oldpool[pmap(y)].0@);
                }
                assert forall|x: int| 0 <= x < pool@.len() implies cs.contains(
                    (#[trigger] pool@[x].0@, pool@[x].1),
                ) by {
                    assert(cs.contains((oldpool[pmap(x)].0@, oldpool[pmap(x)].1)));
                }
                assert forall|x: int| 0 <= x < result@.len() implies cs.contains(
                    (#[trigger] result@[x].0@, result@[x].1),
                ) by {
                    if x < oldres.len() {
                        assert(cs.contains((oldres[x].0@, oldres[x].1)));
                    } else {
                        assert(result@[x] == oldpool[best as int]);
                        assert(cs.contains((oldpool[best as int].0@, oldpool[best as int].1)));
                    }
                }
                assert forall|t: int| 0 <= t < cs.len() implies covered(
                    #[trigger] cs[t],
                    result@,
                    pool@,
                ) by {
                    assert(covered(cs[t], oldres, oldpool));
                    if exists|x: int|
                        0 <= x < oldres.len() && (#[trigger] oldres[x].0@, oldres[x].1) == cs[t] {
                        let x = choose|x: int|
                            0 <= x < oldres.len() && (#[trigger] oldres[x].0@, oldres[x].1)
                                == cs[t];
                        assert(result@[x] == oldres[x]);
                        assert((result@[x].0@, result@[x].1) == cs[t]);
                    } else {
                        let x = choose|x: int|
                            0 <= x < oldpool.len() && (#[trigger] oldpool[x].0@, oldpool[x].1)
                                == cs[t];
                        if x == best {
                            assert(result@[result@.len() - 1] == oldpool[x]);
                        } else if x == oldpool.len() - 1 && best < oldpool.len() - 1 {
                            assert(pool@[best as int] == oldpool[x]);
                        } else {
                            assert(pool@[x] == oldpool[x]);
                        }
                    }
                }
            }
        }
        proof {
            if result@.len() < n {
                assert(pool@.len() == 0);
                assert(result@.len() == cs.len());
            }
            assert forall|t: int, x: int|
                0 <= t < cs.len() && 0 <= x < result@.len() && !(exists|y: int|
                    0 <= y < result@.len() && #[trigger] result@[y].0@ == cs[t].0)
                implies #[trigger] cs[t].1 <= #[trigger] result@[x].1 by {
                assert(covered(cs[t], result@, pool@));
                if exists|y: int| 0 <= y < pool@.len() && (#[trigger] pool@[y].0@, pool@[y].1)
                    == cs[t] {
                    let y = choose|y: int|
                        0 <= y < pool@.len() && (#[trigger] pool@[y].0@, pool@[y].1) == cs[t];
                    assert(pool@[y].1 <= result@[x].1);
                } else {
                    let y = choose|y: int|
                        0 <= y < result@.len() && (#[trigger] result@[y].0@, result@[y].1)
                            == cs[t];
                    assert(result@[y].0@ == cs[t].0);
                    assert(false);
                }
            }
        }
        result
    }
}

/// Is the table entry `p` present, string-for-string, in `res` or
/// `pool`?
spec fn covered(
    p: (Seq<char>, usize),
    res: Seq<(String, usize)>,
    pool: Seq<(String, usize)>,
) -> bool {
    (exists|x: int| 0 <= x < res.len() && (#[trigger] res[x].0@, res[x].1) == p) || (exists|x: int|
        0 <= x < pool.len() && (#[trigger] pool[x].0@, pool[x].1) == p)
}

/// The stored count at the first match is what lookup returns.
proof fn lemma_count_of_found(cs: Seq<(Seq<char>, usize)>, w: Seq<char>, i: int)
    requires
        0 <= i < cs.len(),
        cs[i].0 == w,
        forall|t: int| 0 <= t < i ==> cs[t].0 != w,
    ensures
        count_of(cs, w) == cs[i].1,
    decreases i,
{
    if i > 0 {
        lemma_count_of_found(cs.skip(1), w, i - 1);
        assert(cs.skip(1)[i - 1] == cs[i]);
    }
}

/// Lookup of an absent word yields zero.
proof fn lemma_count_of_absent(cs: Seq<(Seq<char>, usize)>, w: Seq<char>)
    requires
        forall|t: int| 0 <= t < cs.len() ==> cs[t].0 != w,
    ensures
        count_of(cs, w) == 0,
    decreases cs.len(),
{
    if cs.len() > 0 {
        lemma_count_of_absent(cs.skip(1), w);
    }
}

/// When the first match for `w` sits at index `i`, bumping updates that
/// entry in place.
proof fn lemma_bump_found(cs: Seq<(Seq<char>, usize)>, w: Seq<char>, i: int)
    requires
        0 <= i < cs.len(),
        cs[i].0 == w,
        forall|t: int| 0 <= t < i ==> cs[t].0 != w,
    ensures
        bump(cs, w) == cs.update(
            i,
            (w, vstd::wrapping::usize_specs::wrapping_add(cs[i].1, 1)),
        ),
    decreases i,
{
    if i == 0 {
        assert(bump(cs, w) =~= cs.update(
            0,
            (w, vstd::wrapping::usize_specs::wrapping_add(cs[0].1, 1)),
        ));
    } else {
        lemma_bump_found(cs.skip(1), w, i - 1);
        assert(cs.skip(1)[i - 1] == cs[i]);
        assert(bump(cs, w) == seq![cs[0]] + bump(cs.skip(1), w));
        assert(bump(cs, w) =~= cs.update(
            i,
            (w, vstd::wrapping::usize_specs::wrapping_add(cs[i].1, 1)),
        ));
    }
}

/// When `w` is absent, bumping appends a fresh entry with count 1.
proof fn lemma_bump_absent(cs: Seq<(Seq<char>, usize)>, w: Seq<char>)
    requires
        forall|t: int| 0 <= t < cs.len() ==> cs[t].0 != w,
    ensures
        bump(cs, w) == cs.push((w, 1usize)),
    decreases cs.len(),
{
    if cs.len() == 0 {
        assert(bump(cs, w) =~= cs.push((w, 1usize)));
    } else {
        assert(cs[0].0 != w);
        lemma_bump_absent(cs.skip(1), w);
        assert(bump(cs, w) =~= cs.push((w, 1usize)));
    }
}

} // verus!
