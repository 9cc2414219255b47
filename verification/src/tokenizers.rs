//! A tokenizer of documents supplied as UTF-8 byte buffers: tokens are
//! runs of alphanumeric characters, whitespace separates tokens, other
//! characters and invalid byte sequences are skipped, and filters expand
//! tokens into their prefixes or lowercase them.

use vstd::prelude::*;
use vstd::slice::slice_subrange;
use vstd::utf8::{decode_first_scalar, length_of_first_scalar, valid_first_scalar};
use crate::analysis::{lemma_lower_seq_push, lower_seq};
use crate::chars::{alnum_char, byte_off, char_is_alphanumeric, char_is_whitespace,
    lemma_byte_off_mono, lemma_byte_off_step, lemma_byte_off_zero, push_char, whitespace_char};
use crate::char_utf8::decode_utf8;
use crate::postings::Position;

verus! {

/// A token: a single parsed word of the input, with its position.
#[derive(Clone, Debug, PartialEq, Eq)]
pub struct Token {
    /// The parsed word.
    pub token: String,
    /// The byte offsets and ordinal of the word within the input.
    pub position: Position,
}

impl Token {
    /// Creates a new token from a string, offsets, and position.
    pub fn new(token: &str, offsets: (usize, usize), position: usize) -> (t: Token)
        ensures
            t.token@ == token@,
            t.position == (Position { offsets, position }),
    {
        Token { token: token.to_owned(), position: Position { offsets, position } }
    }

    /// Creates an empty token.
    pub fn empty() -> (t: Token)
        ensures
            t.token@ == Seq::<char>::empty(),
            t.position == (Position { offsets: (0usize, 0usize), position: 0usize }),
    {
        Token { token: String::new(), position: Position { offsets: (0, 0), position: 0 } }
    }
}

/// One pass of the byte scanner from cursor `off`, carrying the token
/// accumulated so far (its characters and byte offsets): the token ends at
/// whitespace or at the end of the input; alphanumeric characters join it;
/// anything else moves the cursor on, an invalid byte by exactly one.
pub open spec fn spec_scan(
    bytes: Seq<u8>,
    off: int,
    acc: Option<(Seq<char>, int, int)>,
) -> (Option<(Seq<char>, int, int)>, int)
    decreases bytes.len() - off,
{
    if off < 0 || off >= bytes.len() {
        (acc, if off < 0 {
            0
        } else {
            off
        })
    } else {
        let tail = bytes.skip(off);
        if !valid_first_scalar(tail) {
            spec_scan(bytes, off + 1, acc)
        } else {
            let w = length_of_first_scalar(tail);
            let c = decode_first_scalar(tail) as char;
            if whitespace_char(c) {
                if acc is Some {
                    (acc, off + w)
                } else {
                    spec_scan(bytes, off + w, acc)
                }
            } else if !alnum_char(c) {
                spec_scan(bytes, off + w, acc)
            } else {
                spec_scan(
                    bytes,
                    off + w,
                    Some(
                        match acc {
                            None => (seq![c], off, off + w),
                            Some(t) => (t.0.push(c), t.1, off + w),
                        },
                    ),
                )
            }
        }
    }
}

/// A tokenizer of documents encoded in UTF-8, read from a byte buffer.
#[derive(Debug)]
pub struct EnglishUtf8 {
    /// The input bytes.
    pub bytes: Vec<u8>,
    /// The read cursor into the bytes.
    pub pos: usize,
    /// The byte offset recorded in tokens; it tracks the cursor but is not
    /// moved back by `reset`.
    pub offset: usize,
    /// The number of tokens returned so far.
    pub num_tokens: usize,
}

impl EnglishUtf8 {
    /// The cursor is inside the input and the recorded offset cannot
    /// overflow while scanning the rest.
    pub open spec fn wf(self) -> bool {
        &&& self.pos <= self.bytes@.len()
        &&& self.offset + self.bytes@.len() - self.pos <= usize::MAX
        &&& self.num_tokens + self.bytes@.len() - self.pos <= usize::MAX
    }

    /// Creates a new tokenizer backed by the given bytes.
    pub fn new(bytes: Vec<u8>) -> (t: EnglishUtf8)
        ensures
            t.bytes == bytes,
            t.pos == 0,
            t.offset == 0,
            t.num_tokens == 0,
            t.wf(),
    {
        let n = bytes.len();
        EnglishUtf8 { bytes, pos: 0, offset: 0, num_tokens: 0 }
    }

    /// Constructs a tokenizer backed by a byte buffer.
    pub fn from_bytes(bytes: Vec<u8>) -> (t: EnglishUtf8)
        ensures
            t.bytes == bytes,
            t.pos == 0,
            t.offset == 0,
            t.num_tokens == 0,
            t.wf(),
    {
        EnglishUtf8::new(bytes)
    }

    /// Moves the read cursor back to the start of the buffer.  The offset
    /// recorded in tokens and the token count are kept, as a caller that
    /// wants a fresh numbering constructs a fresh tokenizer.
    pub fn reset(&mut self)
        requires
            old(self).offset + old(self).bytes@.len() <= usize::MAX,
            old(self).num_tokens + old(self).bytes@.len() <= usize::MAX,
        ensures
            final(self).pos == 0,
            final(self).bytes == old(self).bytes,
            final(self).offset == old(self).offset,
            final(self).num_tokens == old(self).num_tokens,
            final(self).wf(),
    {
        self.pos = 0;
    }

    /// Reads the next token from the input into `tok`; false at the end of
    /// the input.  The token receives the scanned word, its byte offsets
    /// shifted by the recorded offset base, and the running token ordinal.
    pub fn read(&mut self, tok: &mut Token) -> (r: bool)
        requires
            old(self).wf(),
        ensures
            final(self).wf(),
            final(self).bytes == old(self).bytes,
            ({
                let (res, np) = spec_scan(old(self).bytes@, old(self).pos as int, None);
                let shift = old(self).offset - old(self).pos;
                &&& final(self).pos == np
                &&& final(self).offset == np + shift
                &&& match res {
                    None => {
                        &&& r == false
                        &&& final(self).num_tokens == old(self).num_tokens
                        &&& final(tok).token@ == Seq::<char>::empty()
                        &&& final(tok).position == old(tok).position
                    },
                    Some((t, b, e)) => {
                        &&& r == true
                        &&& final(self).num_tokens == old(self).num_tokens + 1
                        &&& final(tok).token@ == t
                        &&& final(tok).position.offsets.0 == b + shift
                        &&& final(tok).position.offsets.1 == e + shift
                        &&& final(tok).position.position == old(self).num_tokens
                    },
                }
            }),
    {
        let ghost bytes0 = self.bytes@;
        let ghost pos0 = self.pos as int;
        let ghost shift = self.offset - self.pos;
        tok.token = String::new();
        let mut started: bool = false;
        let ghost mut tb: int = 0;
        let ghost mut te: int = 0;
        loop
            invariant_except_break
                spec_scan(bytes0, pos0, None) == spec_scan(
                    bytes0,
                    self.pos as int,
                    if started {
                        Some((tok.token@, tb, te))
                    } else {
                        None
                    },
                ),
            invariant
                self.wf(),
                self.bytes == old(self).bytes,
                self.bytes@ == bytes0,
                pos0 <= self.pos as int <= bytes0.len(),
                started ==> pos0 < self.pos as int,
                shift == self.offset - self.pos,
                self.num_tokens == old(self).num_tokens,
                started ==> tok.token@.len() > 0,
                !started ==> tok.token@.len() == 0,
                started ==> tok.position.offsets.0 == tb + shift && tok.position.offsets.1 == te
                    + shift,
                !started ==> tok.position == old(tok).position,
            ensures
                self.wf(),
                self.bytes == old(self).bytes,
                self.bytes@ == bytes0,
                shift == self.offset - self.pos,
                self.num_tokens == old(self).num_tokens,
                started ==> tok.token@.len() > 0 && tok.position.offsets.0 == tb + shift
                    && tok.position.offsets.1 == te + shift,
                !started ==> tok.token@.len() == 0 && tok.position == old(tok).position,
                ({
                    let (res, np) = spec_scan(bytes0, pos0, None);
                    &&& self.pos as int == np
                    &&& res == if started {
                        Some((tok.token@, tb, te))
                    } else {
                        None
                    }
                }),
            decreases bytes0.len() - self.pos,
        {
            if self.pos >= self.bytes.len() {
                break ;
            }
            let tail = slice_subrange(self.bytes.as_slice(), self.pos, self.bytes.len());
            proof {
                assert(tail@ =~= bytes0.skip(self.pos as int));
            }
            match decode_utf8(tail) {
                None => {
                    self.pos = self.pos + 1;
                    self.offset = self.offset + 1;
                },
                Some((w, c)) => {
                    proof {
                        let tl = bytes0.skip(self.pos as int);
                        assert(w as int == length_of_first_scalar(tl));
                        assert(1 <= w && self.pos + w <= bytes0.len());
                        vstd::utf8::char_u32_cast(c, decode_first_scalar(tl));
                        assert((decode_first_scalar(tl) as char) == c);
                    }
                    if char_is_whitespace(c) {
                        self.pos = self.pos + w;
                        self.offset = self.offset + w;
                        if started {
                            break ;
                        }
                    } else if !char_is_alphanumeric(c) {
                        self.pos = self.pos + w;
                        self.offset = self.offset + w;
                    } else {
                        if !started {
                            proof {
                                tb = self.pos as int;
                            }
                            tok.position = Position {
                                offsets: (self.offset, 0),
                                position: tok.position.position,
                            };
                        }
                        let ghost pre_token = tok.token@;
                        push_char(&mut tok.token, c);
                        proof {
                            if pre_token.len() == 0 {
                                assert(tok.token@ =~= seq![c]);
                            }
                        }
                        self.pos = self.pos + w;
                        self.offset = self.offset + w;
                        proof {
                            te = self.pos as int;
                        }
                        tok.position = Position {
                            offsets: (tok.position.offsets.0, self.offset),
                            position: tok.position.position,
                        };
                        started = true;
                    }
                },
            }
        }
        if started {
            tok.position = Position {
                offsets: tok.position.offsets,
                position: self.num_tokens,
            };
            self.num_tokens = self.num_tokens + 1;
            true
        } else {
            false
        }
    }
}

/// The abstract value of a token: its characters, byte offsets and
/// ordinal.
pub open spec fn tok_view(t: Token) -> (Seq<char>, int, int, int) {
    (t.token@, t.position.offsets.0 as int, t.position.offsets.1 as int, t.position.position as int)
}

/// The `k`-character prefix of a token starting at byte `b` with ordinal
/// `p`: its end offset is the byte length of the prefix within the token's
/// own encoding.
pub open spec fn prefix_token(t: Seq<char>, b: int, p: int, k: int) -> (Seq<char>, int, int, int) {
    (t.take(k), b, b + byte_off(t, k), p)
}

/// How one `read` of the byte tokenizer relates its states and the token
/// views before and after.
pub open spec fn english_read_rel(
    pre: EnglishUtf8,
    post: EnglishUtf8,
    r: bool,
    tv0: (Seq<char>, int, int, int),
    tv: (Seq<char>, int, int, int),
) -> bool {
    let (res, np) = spec_scan(pre.bytes@, pre.pos as int, None);
    let shift = pre.offset - pre.pos;
    &&& post.bytes == pre.bytes
    &&& post.pos == np
    &&& post.offset == np + shift
    &&& match res {
        None => {
            &&& !r
            &&& post.num_tokens == pre.num_tokens
            &&& tv.0 == Seq::<char>::empty()
            &&& tv.1 == tv0.1
            &&& tv.2 == tv0.2
            &&& tv.3 == tv0.3
        },
        Some((t, b, e)) => {
            &&& r
            &&& post.num_tokens == pre.num_tokens + 1
            &&& tv == (t, b + shift, e + shift, pre.num_tokens as int)
        },
    }
}

/// A filter that expands each token of the byte tokenizer into all its
/// character prefixes, yielded shortest first; the prefixes still to yield
/// wait on a stack.
#[derive(Debug)]
pub struct NgramsFilter {
    /// The backing byte tokenizer.
    pub tokenizer: EnglishUtf8,
    /// The prefixes of the current token still to yield, longest at the
    /// bottom.
    pub next: Vec<Token>,
}

/// How one `read` of the prefix filter relates its states and the token
/// views: a waiting prefix is popped; otherwise a token is read from the
/// byte tokenizer and its prefixes take its place, the one-character
/// prefix yielded at once and the rest stacked longest-first.
pub open spec fn ngrams_read_rel(
    pre: NgramsFilter,
    post: NgramsFilter,
    r: bool,
    tv0: (Seq<char>, int, int, int),
    tv: (Seq<char>, int, int, int),
) -> bool {
    if pre.next@.len() > 0 {
        &&& r
        &&& post.tokenizer == pre.tokenizer
        &&& post.next@ == pre.next@.drop_last()
        &&& tv == tok_view(pre.next@.last())
    } else {
        let (res, np) = spec_scan(pre.tokenizer.bytes@, pre.tokenizer.pos as int, None);
        let shift = pre.tokenizer.offset - pre.tokenizer.pos;
        &&& english_read_rel(
            pre.tokenizer,
            post.tokenizer,
            r,
            tv0,
            match res {
                None => tv,
                Some((t, b, e)) => (t, b + shift, e + shift, pre.tokenizer.num_tokens as int),
            },
        )
        &&& match res {
            None => post.next@.len() == 0 && tv.0 == Seq::<char>::empty() && tv.1 == tv0.1 && tv.2
                == tv0.2 && tv.3 == tv0.3,
            Some((t, b, e)) => {
                &&& post.next@.len() == t.len() - 1
                &&& forall|j: int|
                    0 <= j < t.len() - 1 ==> tok_view(#[trigger] post.next@[j]) == prefix_token(
                        t,
                        b + shift,
                        pre.tokenizer.num_tokens as int,
                        t.len() - j,
                    )
                &&& tv == prefix_token(t, b + shift, pre.tokenizer.num_tokens as int, 1)
            },
        }
    }
}

impl NgramsFilter {
    /// Creates a prefix filter over a byte tokenizer.
    pub fn new(tokenizer: EnglishUtf8) -> (f: NgramsFilter)
        ensures
            f.tokenizer == tokenizer,
            f.next@.len() == 0,
    {
        NgramsFilter { tokenizer, next: Vec::new() }
    }

    /// Creates a prefix filter with a backing byte tokenizer over the
    /// bytes.
    pub fn from_bytes(bytes: Vec<u8>) -> (f: NgramsFilter)
        ensures
            f.tokenizer.bytes == bytes,
            f.tokenizer.pos == 0,
            f.tokenizer.offset == 0,
            f.tokenizer.num_tokens == 0,
            f.tokenizer.wf(),
            f.next@.len() == 0,
    {
        NgramsFilter { tokenizer: EnglishUtf8::from_bytes(bytes), next: Vec::new() }
    }

    /// Reads the next prefix token; false at the end of the input.
    pub fn read(&mut self, tok: &mut Token) -> (r: bool)
        requires
            old(self).tokenizer.wf(),
        ensures
            final(self).tokenizer.wf(),
            ngrams_read_rel(*old(self), *final(self), r, tok_view(*old(tok)), tok_view(*final(tok))),
    {
        match self.next.pop() {
            Some(next) => {
                *tok = next;
                true
            },
            None => {
                let got = self.tokenizer.read(tok);
                if !got {
                    return false;
                }
                // expand the token into its prefixes
                let cs = crate::chars::chars_vec(tok.token.as_str());
                let n = cs.len();
                let ghost t = tok.token@;
                let start = tok.position.offsets.0;
                let pnum = tok.position.position;
                proof {
                    lemma_byte_off_zero(t);
                    lemma_scan_token_nonempty(
                        old(self).tokenizer.bytes@,
                        old(self).tokenizer.pos as int,
                        None,
                    );
                    lemma_scan_token_bytes(
                        old(self).tokenizer.bytes@,
                        old(self).tokenizer.pos as int,
                        None,
                    );
                    assert(t.len() > 0);
                    assert(start as int + byte_off(t, t.len() as int) <= usize::MAX);
                }
                let mut prefixes: Vec<Token> = Vec::new();
                let mut term = String::new();
                let mut k: usize = 0;
                let mut ebytes: usize = 0;
                let ghost sbig = start as int + byte_off(t, t.len() as int);
                proof {
                    assert(t.take(0) =~= Seq::<char>::empty());
                }
                while k < n
                    invariant
                        n == t.len(),
                        cs@ == t,
                        k <= n,
                        term@ =~= t.take(k as int),
                        ebytes as int == byte_off(t, k as int),
                        start + byte_off(t, t.len() as int) <= usize::MAX,
                        prefixes@.len() == k,
                        forall|j: int|
                            0 <= j < k ==> tok_view(#[trigger] prefixes@[j]) == prefix_token(
                                t,
                                start as int,
                                pnum as int,
                                j + 1,
                            ),
                    decreases n - k,
                {
                    let c = cs[k];
                    let cl = crate::chars::utf8_len(c);
                    proof {
                        lemma_byte_off_step(t, k as int);
                        lemma_byte_off_mono(t, k as int + 1, t.len() as int);
                        assert(t.take(k + 1) =~= t.take(k as int).push(t[k as int]));
                    }
                    push_char(&mut term, c);
                    ebytes = ebytes + cl;
                    let ghost pre_prefixes = prefixes@;
                    prefixes.push(
                        Token {
                            token: term.clone(),
                            position: Position { offsets: (start, start + ebytes), position: pnum },
                        },
                    );
                    proof {
                        assert forall|j: int|
                            0 <= j < k + 1 implies tok_view(#[trigger] prefixes@[j])
                            == prefix_token(t, start as int, pnum as int, j + 1) by {
                            if j < k {
                                assert(prefixes@[j] == pre_prefixes[j]);
                            }
                        }
                    }
                    k = k + 1;
                }
                // stack all but the shortest, longest first
                let ghost all = prefixes@;
                while prefixes.len() > 1
                    invariant
                        all.len() == t.len(),
                        t.len() > 0,
                        1 <= prefixes@.len() <= all.len(),
                        prefixes@ =~= all.take(prefixes@.len() as int),
                        self.next@.len() == all.len() - prefixes@.len(),
                        forall|j: int|
                            0 <= j < self.next@.len() ==> #[trigger] self.next@[j] == all[all.len()
                                - 1 - j],
                        self.tokenizer == old(self).tokenizer.spec_after_read(),
                        forall|j: int|
                            0 <= j < all.len() ==> tok_view(#[trigger] all[j]) == prefix_token(
                                t,
                                start as int,
                                pnum as int,
                                j + 1,
                            ),
                    decreases prefixes@.len(),
                {
                    match prefixes.pop() {
                        Some(p) => {
                            self.next.push(p);
                        },
                        None => {
                        },
                    }
                }
                match prefixes.pop() {
                    Some(first) => {
                        *tok = first;
                        proof {
                            assert(all.take(1)[0] == all[0]);
                        }
                        true
                    },
                    None => {
                        proof {
                            assert(false);
                        }
                        false
                    },
                }
            },
        }
    }
}

impl EnglishUtf8 {
    /// The tokenizer's state after one read: the cursor at the scan's end,
    /// the offset moved with it, and the token count grown when a token
    /// came.
    pub open spec fn spec_after_read(self) -> EnglishUtf8 {
        let (res, np) = spec_scan(self.bytes@, self.pos as int, None);
        let shift = self.offset - self.pos;
        EnglishUtf8 {
            bytes: self.bytes,
            pos: np as usize,
            offset: (np + shift) as usize,
            num_tokens: if res is Some {
                (self.num_tokens + 1) as usize
            } else {
                self.num_tokens
            },
        }
    }
}

/// A token the scanner accumulates is never empty.
pub proof fn lemma_scan_token_nonempty(
    bytes: Seq<u8>,
    off: int,
    acc: Option<(Seq<char>, int, int)>,
)
    requires
        acc is Some ==> acc->Some_0.0.len() > 0,
    ensures
        spec_scan(bytes, off, acc).0 is Some ==> spec_scan(bytes, off, acc).0->Some_0.0.len() > 0,
    decreases bytes.len() - off,
{
    if off >= 0 && off < bytes.len() {
        let tail = bytes.skip(off);
        if !valid_first_scalar(tail) {
            lemma_scan_token_nonempty(bytes, off + 1, acc);
        } else {
            let w = length_of_first_scalar(tail);
            let c = decode_first_scalar(tail) as char;
            if whitespace_char(c) {
                if !(acc is Some) {
                    lemma_scan_token_nonempty(bytes, off + w, acc);
                }
            } else if !alnum_char(c) {
                lemma_scan_token_nonempty(bytes, off + w, acc);
            } else {
                lemma_scan_token_nonempty(
                    bytes,
                    off + w,
                    Some(
                        match acc {
                            None => (seq![c], off, off + w),
                            Some(t) => (t.0.push(c), t.1, off + w),
                        },
                    ),
                );
            }
        }
    }
}

/// The decoded character of a well-formed scalar re-encodes to the same
/// number of bytes.
pub proof fn lemma_scan_width(tail: Seq<u8>)
    requires
        valid_first_scalar(tail),
    ensures
        crate::chars::char_utf8_len(decode_first_scalar(tail) as char) == length_of_first_scalar(
            tail,
        ),
        (decode_first_scalar(tail) as char) as u32 == decode_first_scalar(tail),
{
    let cp = vstd::utf8::decode_first_codepoint(tail);
    let b0 = tail[0];
    assert(vstd::utf8::is_scalar(cp)) by {
        if vstd::utf8::is_leading_byte_width_1(b0) {
            assert(cp == vstd::utf8::codepoint_width_1(b0));
            assert(cp < 0x80) by (bit_vector)
                requires
                    cp == (b0 & 0x7F) as u32,
            ;
        } else if vstd::utf8::is_leading_byte_width_2(b0) {
            let b1 = tail[1];
            assert(cp <= 0x7FF) by (bit_vector)
                requires
                    cp == ((((b1 & 0x3F) as u32) | (((b0 & 0x1F) as u32) << 6)) as u32) || cp == (((
                    (b0 & 0x1F) as u32) << 6) | ((b1 & 0x3F) as u32)),
            ;
        } else if vstd::utf8::is_leading_byte_width_3(b0) {
            let b1 = tail[1];
            let b2 = tail[2];
            assert(cp <= 0xFFFF) by (bit_vector)
                requires
                    cp == ((((b0 & 0x0F) as u32) << 12) | (((b1 & 0x3F) as u32) << 6) | ((b2
                        & 0x3F) as u32)),
            ;
        } else {
        }
    }
    assert((cp as char) as u32 == cp);
    if vstd::utf8::is_leading_byte_width_1(b0) {
        assert(cp < 0x80) by (bit_vector)
            requires
                cp == (b0 & 0x7F) as u32,
        ;
    } else if vstd::utf8::is_leading_byte_width_2(b0) {
        let b1 = tail[1];
        assert(cp <= 0x7FF) by (bit_vector)
            requires
                cp == ((((b0 & 0x1F) as u32) << 6) | ((b1 & 0x3F) as u32)),
        ;
    } else if vstd::utf8::is_leading_byte_width_3(b0) {
        let b1 = tail[1];
        let b2 = tail[2];
        assert(cp <= 0xFFFF) by (bit_vector)
            requires
                cp == ((((b0 & 0x0F) as u32) << 12) | (((b1 & 0x3F) as u32) << 6) | ((b2
                    & 0x3F) as u32)),
        ;
    } else {
    }
}

/// The bytes a scanned token covers include its characters' encodings: the
/// encoded length of the accumulated characters never exceeds the span
/// from the token's begin offset to the cursor.
pub proof fn lemma_scan_token_bytes(bytes: Seq<u8>, off: int, acc: Option<(Seq<char>, int, int)>)
    requires
        0 <= off,
        acc is Some ==> acc->Some_0.1 + byte_off(acc->Some_0.0, acc->Some_0.0.len() as int)
            <= acc->Some_0.2 <= off && 0 <= acc->Some_0.1,
    ensures
        spec_scan(bytes, off, acc).0 is Some ==> ({
            let t = spec_scan(bytes, off, acc).0->Some_0;
            &&& t.1 + byte_off(t.0, t.0.len() as int) <= t.2
            &&& t.2 <= spec_scan(bytes, off, acc).1
            &&& 0 <= t.1
        }),
        spec_scan(bytes, off, acc).1 >= off,
    decreases bytes.len() - off,
{
    if off >= bytes.len() {
    } else {
        let tail = bytes.skip(off);
        if !valid_first_scalar(tail) {
            lemma_scan_token_bytes(bytes, off + 1, acc);
        } else {
            let w = length_of_first_scalar(tail);
            let c = decode_first_scalar(tail) as char;
            lemma_scan_width(tail);
            if whitespace_char(c) {
                if !(acc is Some) {
                    lemma_scan_token_bytes(bytes, off + w, acc);
                }
            } else if !alnum_char(c) {
                lemma_scan_token_bytes(bytes, off + w, acc);
            } else {
                let acc2 = Some(
                    match acc {
                        None => (seq![c], off, off + w),
                        Some(t) => (t.0.push(c), t.1, off + w),
                    },
                );
                let t2 = acc2->Some_0;
                assert(t2.1 + byte_off(t2.0, t2.0.len() as int) <= t2.2) by {
                    match acc {
                        None => {
                            lemma_byte_off_zero(t2.0);
                            lemma_byte_off_step(t2.0, 0);
                            assert(t2.0[0] == c);
                        },
                        Some(t) => {
                            lemma_byte_off_step(t2.0, t.0.len() as int);
                            assert(t2.0.take(t.0.len() as int) =~= t.0);
                            assert(t.0.take(t.0.len() as int) =~= t.0);
                            assert(byte_off(t2.0, t.0.len() as int) == byte_off(
                                t.0,
                                t.0.len() as int,
                            ));
                            assert(t2.0[t.0.len() as int] == c);
                        },
                    }
                }
                lemma_scan_token_bytes(bytes, off + w, acc2);
            }
        }
    }
}

/// Lowercases a string by mapping each character through the Unicode
/// lowercase mapping.
fn lowercase_string(s: &String) -> (r: String)
    ensures
        r@ == lower_seq(s@),
{
    let cs = crate::chars::chars_vec(s.as_str());
    let mut r = String::new();
    let mut k: usize = 0;
    proof {
        assert(s@.take(0) =~= Seq::<char>::empty());
        assert(lower_seq(s@.take(0)) =~= Seq::<char>::empty());
    }
    while k < cs.len()
        invariant
            cs@ == s@,
            k <= s@.len(),
            r@ =~= lower_seq(s@.take(k as int)),
        decreases s@.len() - k,
    {
        let low = crate::chars::lower_str(cs[k]);
        r.append(low.as_str());
        proof {
            assert(s@.take(k + 1) =~= s@.take(k as int).push(s@[k as int]));
            lemma_lower_seq_push(s@.take(k as int), s@[k as int]);
        }
        k = k + 1;
    }
    proof {
        assert(s@.take(s@.len() as int) =~= s@);
    }
    r
}

/// The tokenizer a lowercase filter draws from: the plain byte tokenizer,
/// or the prefix filter over it.
#[derive(Debug)]
pub enum LowerInner {
    /// Whole words from the byte tokenizer.
    Words(EnglishUtf8),
    /// Word prefixes from the prefix filter.
    Ngrams(NgramsFilter),
}

/// A filter that lowercases every token of its backing tokenizer.
#[derive(Debug)]
pub struct LowercaseFilter {
    /// The backing tokenizer.
    pub tokenizer: LowerInner,
}

impl LowercaseFilter {
    /// Creates a lowercase filter over a prefix filter.
    pub fn after_tokenizer(tokenizer: NgramsFilter) -> (f: LowercaseFilter)
        ensures
            f.tokenizer == LowerInner::Ngrams(tokenizer),
    {
        LowercaseFilter { tokenizer: LowerInner::Ngrams(tokenizer) }
    }

    /// Creates a lowercase filter over a byte tokenizer on the bytes.
    pub fn new(bytes: Vec<u8>) -> (f: LowercaseFilter)
        ensures
            f.tokenizer is Words,
            f.tokenizer->Words_0.bytes == bytes,
            f.tokenizer->Words_0.pos == 0,
            f.tokenizer->Words_0.offset == 0,
            f.tokenizer->Words_0.num_tokens == 0,
            f.tokenizer->Words_0.wf(),
    {
        LowercaseFilter { tokenizer: LowerInner::Words(EnglishUtf8::from_bytes(bytes)) }
    }

    /// Creates a lowercase filter over a byte tokenizer on the bytes.
    pub fn from_bytes(bytes: Vec<u8>) -> (f: LowercaseFilter)
        ensures
            f.tokenizer is Words,
            f.tokenizer->Words_0.bytes == bytes,
            f.tokenizer->Words_0.pos == 0,
            f.tokenizer->Words_0.offset == 0,
            f.tokenizer->Words_0.num_tokens == 0,
            f.tokenizer->Words_0.wf(),
    {
        LowercaseFilter::new(bytes)
    }

    /// Whether the backing tokenizer's byte scanner is well-formed.
    pub open spec fn wf(self) -> bool {
        match self.tokenizer {
            LowerInner::Words(t) => t.wf(),
            LowerInner::Ngrams(f) => f.tokenizer.wf(),
        }
    }

    /// Reads the next token and lowercases it: the backing tokenizer reads
    /// as its own contract says, and the token's text is replaced by its
    /// Unicode lowercase folding, offsets and ordinal kept.
    pub fn read(&mut self, tok: &mut Token) -> (r: bool)
        requires
            old(self).wf(),
        ensures
            final(self).wf(),
            match (old(self).tokenizer, final(self).tokenizer) {
                (LowerInner::Words(pre), LowerInner::Words(post)) => exists|t0: Seq<char>|
                    #![auto]
                    english_read_rel(
                        pre,
                        post,
                        r,
                        tok_view(*old(tok)),
                        (
                            t0,
                            final(tok).position.offsets.0 as int,
                            final(tok).position.offsets.1 as int,
                            final(tok).position.position as int,
                        ),
                    ) && final(tok).token@ == lower_seq(t0),
                (LowerInner::Ngrams(pre), LowerInner::Ngrams(post)) => exists|t0: Seq<char>|
                    #![auto]
                    ngrams_read_rel(
                        pre,
                        post,
                        r,
                        tok_view(*old(tok)),
                        (
                            t0,
                            final(tok).position.offsets.0 as int,
                            final(tok).position.offsets.1 as int,
                            final(tok).position.position as int,
                        ),
                    ) && final(tok).token@ == lower_seq(t0),
                _ => false,
            },
    {
        let got = match &mut self.tokenizer {
            LowerInner::Words(t) => t.read(tok),
            LowerInner::Ngrams(f) => f.read(tok),
        };
        let ghost t0 = tok.token@;
        let lowered = lowercase_string(&tok.token);
        tok.token = lowered;
        got
    }
}

/// Creates a lowercase-ngrams tokenizer by chaining the two filters over
/// the bytes.
pub fn lowercase_ngrams(bytes: Vec<u8>) -> (f: LowercaseFilter)
    ensures
        f.tokenizer is Ngrams,
        f.tokenizer->Ngrams_0.tokenizer.bytes == bytes,
        f.tokenizer->Ngrams_0.tokenizer.pos == 0,
        f.tokenizer->Ngrams_0.tokenizer.offset == 0,
        f.tokenizer->Ngrams_0.tokenizer.num_tokens == 0,
        f.tokenizer->Ngrams_0.next@.len() == 0,
        f.wf(),
{
    LowercaseFilter::after_tokenizer(NgramsFilter::from_bytes(bytes))
}

} // verus!
