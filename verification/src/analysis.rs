//! Analyzers: turning a content string into an ordered stream of
//! (term, position) pairs.
//!
//! A word is a maximal run of non-whitespace characters; its token position
//! is the number of words before it.  The whitespace analyzer emits one
//! lowercased term per word spanning the whole word; the ngrams analyzer
//! emits one term per prefix of each word, all sharing the word's token
//! position, with byte offsets ending at each prefix's last character.

use vstd::prelude::*;
use crate::chars::{byte_off, chars_vec, char_is_whitespace, lemma_byte_off_mono,
    lemma_byte_off_step, lemma_byte_off_zero, lower_chars_of, lower_str, whitespace_char};
use crate::postings::Position;

verus! {

/// Whether character index `i` begins a word: a non-whitespace character at
/// the start of the string or right after a whitespace character.
pub open spec fn is_word_start(s: Seq<char>, i: int) -> bool {
    0 <= i < s.len() && !whitespace_char(s[i]) && (i == 0 || whitespace_char(s[i - 1]))
}

/// First whitespace character index at or after `i` (the string's length
/// when none follows).
pub open spec fn word_end(s: Seq<char>, i: int) -> int
    recommends
        0 <= i <= s.len(),
    decreases s.len() - i,
{
    if i < 0 || i >= s.len() || whitespace_char(s[i]) {
        i
    } else {
        word_end(s, i + 1)
    }
}

pub proof fn lemma_word_end_bounds(s: Seq<char>, i: int)
    requires
        0 <= i <= s.len(),
    ensures
        i <= word_end(s, i) <= s.len(),
        forall|m: int| i <= m < word_end(s, i) ==> !whitespace_char(#[trigger] s[m]),
        word_end(s, i) < s.len() ==> whitespace_char(s[word_end(s, i)]),
    decreases s.len() - i,
{
    if i < s.len() && !whitespace_char(s[i]) {
        lemma_word_end_bounds(s, i + 1);
    }
}

/// Number of word starts strictly before character index `i`: the token
/// position of the word starting at `i`.
pub open spec fn starts_before(s: Seq<char>, i: int) -> int
    decreases i,
{
    if i <= 0 {
        0
    } else {
        starts_before(s, i - 1) + if is_word_start(s, i - 1) {
            1int
        } else {
            0int
        }
    }
}

pub proof fn lemma_starts_before_bound(s: Seq<char>, i: int)
    ensures
        0 <= starts_before(s, i) <= if i >= 0 {
            i
        } else {
            0
        },
    decreases i,
{
    if i > 0 {
        lemma_starts_before_bound(s, i - 1);
    }
}

/// Between two indexes with no word start, the token counter is unchanged.
pub proof fn lemma_starts_before_interval(s: Seq<char>, j: int, e: int)
    requires
        0 <= j <= e,
        forall|m: int| j <= m < e ==> !is_word_start(s, m),
    ensures
        starts_before(s, e) == starts_before(s, j),
    decreases e - j,
{
    if j < e {
        lemma_starts_before_interval(s, j, e - 1);
    }
}

/// The lowercase folding of a character sequence: each character mapped
/// through the Unicode lowercase mapping, concatenated.
pub open spec fn lower_seq(w: Seq<char>) -> Seq<char>
    decreases w.len(),
{
    if w.len() == 0 {
        Seq::<char>::empty()
    } else {
        lower_chars_of(w[0]) + lower_seq(w.drop_first())
    }
}

pub proof fn lemma_lower_seq_push(w: Seq<char>, c: char)
    ensures
        lower_seq(w.push(c)) =~= lower_seq(w) + lower_chars_of(c),
    decreases w.len(),
{
    if w.len() == 0 {
        assert(w.push(c)[0] == c);
        assert(w.push(c).drop_first() =~= Seq::<char>::empty());
        assert(lower_seq(Seq::<char>::empty()) =~= Seq::<char>::empty());
    } else {
        assert(w.push(c)[0] == w[0]);
        assert(w.push(c).drop_first() =~= w.drop_first().push(c));
        lemma_lower_seq_push(w.drop_first(), c);
    }
}

/// One analyzed item: the lowercased term of characters `i .. i + k` of the
/// content, the byte offsets of that span, and the word's token position.
pub open spec fn word_item(s: Seq<char>, i: int, k: int, pos: int) -> (Seq<char>, int, int, int) {
    (lower_seq(s.subrange(i, i + k)), byte_off(s, i), byte_off(s, i + k), pos)
}

/// An analyzer turns a string into an ordered stream of (term, position)
/// pairs: the whitespace analyzer emits the whole of each word, the ngrams
/// analyzer every character-prefix of each word.
#[derive(Clone, Copy, Debug, PartialEq, Eq, Structural)]
pub enum Analyzer {
    /// One token per whitespace-delimited word, lowercased.
    Whitespace,
    /// Every prefix of each whitespace-delimited word, lowercased.
    Ngrams,
}

/// The items contributed by the word starting at character index `i`.
pub open spec fn word_items(a: Analyzer, s: Seq<char>, i: int) -> Seq<(Seq<char>, int, int, int)> {
    let len = word_end(s, i) - i;
    let pos = starts_before(s, i);
    match a {
        Analyzer::Whitespace => seq![word_item(s, i, len, pos)],
        Analyzer::Ngrams => Seq::new(len as nat, |k: int| word_item(s, i, k + 1, pos)),
    }
}

/// The analyzed stream of `s` from character index `i` on: each word start
/// contributes its items, in order.
pub open spec fn stream_from(a: Analyzer, s: Seq<char>, i: int) -> Seq<(Seq<char>, int, int, int)>
    decreases s.len() - i,
{
    if i < 0 || i >= s.len() {
        Seq::<(Seq<char>, int, int, int)>::empty()
    } else {
        (if is_word_start(s, i) {
            word_items(a, s, i)
        } else {
            Seq::<(Seq<char>, int, int, int)>::empty()
        }) + stream_from(a, s, i + 1)
    }
}

/// The full analyzed stream of a content string.
pub open spec fn stream(a: Analyzer, s: Seq<char>) -> Seq<(Seq<char>, int, int, int)> {
    stream_from(a, s, 0)
}

/// Skipping indexes that start no word leaves the stream unchanged.
pub proof fn lemma_stream_interior(a: Analyzer, s: Seq<char>, j: int, e: int)
    requires
        0 <= j <= e <= s.len(),
        forall|m: int| j <= m < e ==> !is_word_start(s, m),
    ensures
        stream_from(a, s, j) == stream_from(a, s, e),
    decreases e - j,
{
    if j < e {
        assert(!is_word_start(s, j));
        lemma_stream_interior(a, s, j + 1, e);
        assert(stream_from(a, s, j) =~= stream_from(a, s, j + 1));
    }
}

/// The abstract value of an analyzed pair vector: term views and position
/// fields as mathematical integers.
pub open spec fn pairs_view(v: Seq<(String, Position)>) -> Seq<(Seq<char>, int, int, int)> {
    Seq::new(
        v.len(),
        |i: int|
            (v[i].0@, v[i].1.offsets.0 as int, v[i].1.offsets.1 as int, v[i].1.position as int),
    )
}

pub proof fn lemma_pairs_view_snoc(v: Seq<(String, Position)>, w: Seq<(String, Position)>)
    requires
        w.len() == v.len() + 1,
        forall|k: int| 0 <= k < v.len() ==> w[k] == v[k],
    ensures
        pairs_view(w) =~= pairs_view(v).push(
            (
                w[v.len() as int].0@,
                w[v.len() as int].1.offsets.0 as int,
                w[v.len() as int].1.offsets.1 as int,
                w[v.len() as int].1.position as int,
            ),
        ),
{
    assert forall|k: int| 0 <= k < w.len() implies #[trigger] pairs_view(w)[k] == pairs_view(
        v,
    ).push(
        (
            w[v.len() as int].0@,
            w[v.len() as int].1.offsets.0 as int,
            w[v.len() as int].1.offsets.1 as int,
            w[v.len() as int].1.position as int,
        ),
    )[k] by {
        if k < v.len() {
            assert(w[k] == v[k]);
        }
    }
}

impl Analyzer {
    /// Tokenizes the content string into its ordered stream of lowercased
    /// terms with byte offsets and token positions.
    pub fn analyze(&self, s: &str) -> (r: Vec<(String, Position)>)
        ensures
            pairs_view(r@) == stream(*self, s@),
    {
        let cs = chars_vec(s);
        let n = cs.len();
        let total = s.as_bytes().len();
        proof {
            assert(total == byte_off(s@, n as int)) by {
                assert(s@.take(n as int) =~= s@);
            }
            lemma_byte_off_zero(s@);
        }
        let mut out: Vec<(String, Position)> = Vec::new();
        let mut i: usize = 0;
        let mut bpos: usize = 0;
        let mut tokpos: usize = 0;
        let mut prev_ws: bool = true;
        while i < n
            invariant
                cs@ == s@,
                n == s@.len(),
                i <= n,
                total == byte_off(s@, n as int),
                bpos as int == byte_off(s@, i as int),
                tokpos as int == starts_before(s@, i as int),
                prev_ws == (i == 0 || whitespace_char(s@[i as int - 1])),
                pairs_view(out@) + stream_from(*self, s@, i as int) =~= stream(*self, s@),
            decreases n - i,
        {
            let c = cs[i];
            let cl = crate::chars::utf8_len(c);
            proof {
                lemma_byte_off_step(s@, i as int);
                lemma_byte_off_mono(s@, i as int + 1, n as int);
            }
            if char_is_whitespace(c) {
                proof {
                    assert(!is_word_start(s@, i as int));
                    assert(stream_from(*self, s@, i as int) =~= stream_from(
                        *self,
                        s@,
                        i as int + 1,
                    ));
                }
                bpos = bpos + cl;
                i = i + 1;
                prev_ws = true;
            } else if !prev_ws {
                // inside a word handled at its start
                proof {
                    assert(!is_word_start(s@, i as int));
                    assert(stream_from(*self, s@, i as int) =~= stream_from(
                        *self,
                        s@,
                        i as int + 1,
                    ));
                }
                bpos = bpos + cl;
                i = i + 1;
                prev_ws = false;
            } else {
                // a word starts here
                proof {
                    assert(is_word_start(s@, i as int));
                    lemma_word_end_bounds(s@, i as int);
                }
                let ghost we = word_end(s@, i as int);
                let ghost pos0 = starts_before(s@, i as int);
                let ghost pout0 = out@;
                let bstart = bpos;
                let mut term = String::new();
                let mut j: usize = i;
                let mut ebpos: usize = bpos;
                while j < n && !char_is_whitespace(cs[j])
                    invariant
                        cs@ == s@,
                        n == s@.len(),
                        total == byte_off(s@, n as int),
                        i <= j <= n,
                        i < n,
                        is_word_start(s@, i as int),
                        we == word_end(s@, i as int),
                        pos0 == starts_before(s@, i as int),
                        tokpos as int == pos0,
                        bstart as int == byte_off(s@, i as int),
                        j as int <= we,
                        forall|m: int|
                            i as int <= m < j as int ==> !whitespace_char(#[trigger] s@[m]),
                        ebpos as int == byte_off(s@, j as int),
                        term@ =~= lower_seq(s@.subrange(i as int, j as int)),
                        pairs_view(out@) =~= pairs_view(pout0) + (if (*self) is Ngrams {
                            Seq::new(
                                (j - i) as nat,
                                |k: int| word_item(s@, i as int, k + 1, pos0),
                            )
                        } else {
                            Seq::<(Seq<char>, int, int, int)>::empty()
                        }),
                    decreases n - j,
                {
                    let wc = cs[j];
                    let wl = crate::chars::utf8_len(wc);
                    proof {
                        lemma_byte_off_step(s@, j as int);
                        lemma_byte_off_mono(s@, j as int + 1, n as int);
                        lemma_word_end_bounds(s@, i as int);
                        assert((j as int) < we) by {
                            if j as int == we {
                                assert(we < s@.len());
                                assert(whitespace_char(s@[we]));
                            }
                        }
                    }
                    let low = lower_str(wc);
                    term.append(low.as_str());
                    ebpos = ebpos + wl;
                    proof {
                        assert(s@.subrange(i as int, j as int + 1) =~= s@.subrange(
                            i as int,
                            j as int,
                        ).push(s@[j as int]));
                        lemma_lower_seq_push(s@.subrange(i as int, j as int), s@[j as int]);
                    }
                    if *self == Analyzer::Ngrams {
                        let ghost preout = out@;
                        out.push(
                            (term.clone(), Position { offsets: (bstart, ebpos), position: tokpos }),
                        );
                        proof {
                            lemma_pairs_view_snoc(preout, out@);
                            assert(out@[preout.len() as int].0@ == term@);
                            assert((term@, bstart as int, ebpos as int, tokpos as int)
                                == word_item(s@, i as int, j + 1 - i as int, pos0));
                            assert(Seq::new((j + 1 - i) as nat, |k: int| word_item(s@, i as int, k
                                + 1, pos0)) =~= Seq::new(
                                (j - i) as nat,
                                |k: int| word_item(s@, i as int, k + 1, pos0),
                            ).push(word_item(s@, i as int, j + 1 - i as int, pos0)));
                            assert(pairs_view(out@) =~= pairs_view(pout0) + Seq::new(
                                (j + 1 - i) as nat,
                                |k: int| word_item(s@, i as int, k + 1, pos0),
                            ));
                        }
                    }
                    j = j + 1;
                }
                proof {
                    lemma_word_end_bounds(s@, i as int);
                    assert(j as int == we) by {
                        if (j as int) < we {
                            assert(!whitespace_char(s@[j as int]));
                            assert(j < n);
                        }
                    }
                }
                if *self == Analyzer::Whitespace {
                    let ghost preout = out@;
                    out.push((term, Position { offsets: (bstart, ebpos), position: tokpos }));
                    proof {
                        lemma_pairs_view_snoc(preout, out@);
                    }
                }
                proof {
                    // what was pushed is exactly this word's item sequence
                    assert(pairs_view(out@) =~= pairs_view(pout0) + word_items(
                        *self,
                        s@,
                        i as int,
                    )) by {
                        if (*self) is Whitespace {
                            assert(pairs_view(out@) =~= pairs_view(pout0).push(
                                word_item(s@, i as int, we - i as int, pos0),
                            ));
                            assert(word_items(*self, s@, i as int) == seq![
                                word_item(s@, i as int, we - i as int, pos0),
                            ]);
                        }
                    }
                    assert forall|m: int| i as int + 1 <= m < we implies !is_word_start(s@, m) by {
                        assert(!whitespace_char(s@[m - 1]));
                    }
                    lemma_stream_interior(*self, s@, i as int + 1, we);
                    lemma_starts_before_interval(s@, i as int + 1, we);
                    assert(stream_from(*self, s@, i as int) =~= word_items(*self, s@, i as int)
                        + stream_from(*self, s@, we));
                    assert(starts_before(s@, i as int + 1) == pos0 + 1);
                    assert(starts_before(s@, we) == pos0 + 1);
                    lemma_starts_before_bound(s@, we);
                    assert(pairs_view(out@) + stream_from(*self, s@, we) =~= stream(*self, s@));
                }
                i = j;
                bpos = ebpos;
                tokpos = tokpos + 1;
                prev_ws = false;
            }
        }
        proof {
            assert(stream_from(*self, s@, n as int) =~= Seq::<(Seq<char>, int, int, int)>::empty());
            assert(pairs_view(out@) =~= stream(*self, s@));
        }
        out
    }

    /// Tokenizes the content string, returning the terms alone.
    pub fn analyze_tokens(&self, s: &str) -> (r: Vec<String>)
        ensures
            r@.len() == stream(*self, s@).len(),
            forall|k: int| 0 <= k < r@.len() ==> (#[trigger] r@[k])@ == stream(*self, s@)[k].0,
    {
        let pairs = self.analyze(s);
        let mut r: Vec<String> = Vec::new();
        let mut i: usize = 0;
        while i < pairs.len()
            invariant
                i <= pairs@.len(),
                pairs_view(pairs@) == stream(*self, s@),
                r@.len() == i,
                forall|k: int| 0 <= k < i ==> (#[trigger] r@[k])@ == stream(*self, s@)[k].0,
            decreases pairs@.len() - i,
        {
            let t = pairs[i].0.clone();
            proof {
                assert(pairs_view(pairs@)[i as int].0 == pairs@[i as int].0@);
            }
            r.push(t);
            i = i + 1;
        }
        proof {
            assert(pairs_view(pairs@).len() == pairs@.len());
        }
        r
    }
}

} // verus!
