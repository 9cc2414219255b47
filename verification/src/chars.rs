//! Character-level primitives: the Unicode classification and case-folding
//! calls the analyzers rely on, UTF-8 byte lengths, code-point order on
//! character sequences, and the character successor used by prefix scans.

use vstd::prelude::*;

verus! {

/// Whether the character counts as whitespace when splitting content into words.
pub uninterp spec fn whitespace_char(c: char) -> bool;

/// Relies on char::is_whitespace: a predicate of the character alone
/// (the Unicode White_Space property).
#[verifier::external_body]
pub fn char_is_whitespace(c: char) -> (r: bool)
    ensures
        r == whitespace_char(c),
{
    c.is_whitespace()
}

/// Whether the character counts as alphanumeric for the byte-stream tokenizer.
pub uninterp spec fn alnum_char(c: char) -> bool;

/// Relies on char::is_alphanumeric: a predicate of the character alone
/// (the Unicode Alphabetic property or a general-category number).
#[verifier::external_body]
pub fn char_is_alphanumeric(c: char) -> (r: bool)
    ensures
        r == alnum_char(c),
{
    c.is_alphanumeric()
}

/// The Unicode lowercase mapping of one character, as a character sequence
/// (a single character may lowercase to several).
pub uninterp spec fn lower_chars_of(c: char) -> Seq<char>;

/// Relies on char::to_lowercase: the Unicode lowercase mapping, a function
/// of the character alone.
#[verifier::external_body]
pub fn lower_str(c: char) -> (r: String)
    ensures
        r@ == lower_chars_of(c),
{
    c.to_lowercase().collect()
}

/// Relies on char::from_u32: returns a character exactly for Unicode scalar
/// values, that is values at most 0x10FFFF and outside the surrogate range.
#[verifier::external_body]
pub fn char_from_u32(v: u32) -> (r: Option<char>)
    ensures
        r is Some <==> (v < 0xD800 || (0xDFFF < v && v <= 0x10FFFF)),
        r is Some ==> r->Some_0 as u32 == v,
{
    char::from_u32(v)
}

/// Relies on String::push: appends the character to the string.
#[verifier::external_body]
pub fn push_char(s: &mut String, c: char)
    ensures
        final(s)@ == old(s)@.push(c),
{
    s.push(c)
}

/// Byte length of the UTF-8 encoding of a character.
pub open spec fn char_utf8_len(c: char) -> int {
    let v = c as u32;
    if v < 0x80 {
        1
    } else if v < 0x800 {
        2
    } else if v < 0x10000 {
        3
    } else {
        4
    }
}

/// The UTF-8 byte length of a character agrees with the length of its
/// encoding as vstd defines it.
pub proof fn lemma_char_utf8_len(c: char)
    ensures
        char_utf8_len(c) == vstd::utf8::encode_scalar(c as u32).len(),
{
    broadcast use vstd::utf8::char_is_scalar;

}

pub fn utf8_len(c: char) -> (n: usize)
    ensures
        n == char_utf8_len(c),
{
    let v = c as u32;
    if v < 0x80 {
        1
    } else if v < 0x800 {
        2
    } else if v < 0x10000 {
        3
    } else {
        4
    }
}

/// Byte offset of character index `i` within the UTF-8 encoding of `s`.
pub open spec fn byte_off(s: Seq<char>, i: int) -> int {
    vstd::utf8::encode_utf8(s.take(i)).len() as int
}

pub proof fn lemma_byte_off_zero(s: Seq<char>)
    ensures
        byte_off(s, 0) == 0,
{
    assert(s.take(0) =~= Seq::<char>::empty());
    reveal_with_fuel(vstd::utf8::encode_utf8, 2);
}

/// Stepping one character forward advances the byte offset by that
/// character's UTF-8 length.
pub proof fn lemma_byte_off_step(s: Seq<char>, i: int)
    requires
        0 <= i < s.len(),
    ensures
        byte_off(s, i + 1) == byte_off(s, i) + char_utf8_len(s[i]),
    decreases i,
{
    lemma_char_utf8_len(s[i]);
    if i == 0 {
        assert(s.take(1) =~= seq![s[0]]);
        assert(s.take(1).drop_first() =~= Seq::<char>::empty());
        assert(s.take(0) =~= Seq::<char>::empty());
        reveal_with_fuel(vstd::utf8::encode_utf8, 2);
    } else {
        let t = s.drop_first();
        lemma_byte_off_step(t, i - 1);
        assert(s.take(i + 1).drop_first() =~= t.take(i));
        assert(s.take(i).drop_first() =~= t.take(i - 1));
        assert(s.take(i + 1)[0] == s[0]);
        assert(s.take(i)[0] == s[0]);
        reveal_with_fuel(vstd::utf8::encode_utf8, 1);
        assert(vstd::utf8::encode_utf8(s.take(i + 1)) == vstd::utf8::encode_scalar(
            s[0] as u32,
        ) + vstd::utf8::encode_utf8(t.take(i)));
        assert(vstd::utf8::encode_utf8(s.take(i)) == vstd::utf8::encode_scalar(s[0] as u32)
            + vstd::utf8::encode_utf8(t.take(i - 1)));
        assert(t[i - 1] == s[i]);
    }
}

pub proof fn lemma_byte_off_mono(s: Seq<char>, i: int, j: int)
    requires
        0 <= i <= j <= s.len(),
    ensures
        byte_off(s, i) <= byte_off(s, j),
        i < j ==> byte_off(s, i) < byte_off(s, j),
    decreases j - i,
{
    if i < j {
        lemma_byte_off_step(s, j - 1);
        lemma_byte_off_mono(s, i, j - 1);
    }
}

/// Code-point order on characters.
pub open spec fn char_lt(a: char, b: char) -> bool {
    (a as u32) < (b as u32)
}

/// Lexicographic code-point order on character sequences (non-strict).
pub open spec fn lex_le(a: Seq<char>, b: Seq<char>) -> bool
    decreases a.len(),
{
    if a.len() == 0 {
        true
    } else if b.len() == 0 {
        false
    } else if char_lt(a[0], b[0]) {
        true
    } else if char_lt(b[0], a[0]) {
        false
    } else {
        lex_le(a.drop_first(), b.drop_first())
    }
}

/// Lexicographic code-point order, strict.
pub open spec fn lex_lt(a: Seq<char>, b: Seq<char>) -> bool {
    lex_le(a, b) && a != b
}

/// Two characters with the same code point are the same character.
pub proof fn lemma_char_eq(a: char, b: char)
    requires
        a as u32 == b as u32,
    ensures
        a == b,
{
    vstd::utf8::char_u32_cast(a, a as u32);
    vstd::utf8::char_u32_cast(b, b as u32);
}

/// `lex_le` is antisymmetric: two sequences below one another are equal.
pub proof fn lemma_lex_le_antisym(a: Seq<char>, b: Seq<char>)
    requires
        lex_le(a, b),
        lex_le(b, a),
    ensures
        a =~= b,
    decreases a.len(),
{
    if a.len() != 0 && b.len() != 0 {
        assert(!char_lt(a[0], b[0]) && !char_lt(b[0], a[0]));
        lemma_char_eq(a[0], b[0]);
        lemma_lex_le_antisym(a.drop_first(), b.drop_first());
        assert(a =~= seq![a[0]] + a.drop_first());
        assert(b =~= seq![b[0]] + b.drop_first());
    }
}

/// `lex_le` is total: one of the two directions always holds.
pub proof fn lemma_lex_le_total(a: Seq<char>, b: Seq<char>)
    ensures
        lex_le(a, b) || lex_le(b, a),
    decreases a.len(),
{
    if a.len() != 0 && b.len() != 0 && !char_lt(a[0], b[0]) && !char_lt(b[0], a[0]) {
        lemma_lex_le_total(a.drop_first(), b.drop_first());
    }
}

/// `lex_le` is transitive.
pub proof fn lemma_lex_le_trans(a: Seq<char>, b: Seq<char>, c: Seq<char>)
    requires
        lex_le(a, b),
        lex_le(b, c),
    ensures
        lex_le(a, c),
    decreases a.len(),
{
    if a.len() != 0 && b.len() != 0 && c.len() != 0 {
        if !char_lt(a[0], c[0]) && !char_lt(c[0], a[0]) && !char_lt(a[0], b[0]) && !char_lt(
            b[0],
            a[0],
        ) && !char_lt(b[0], c[0]) && !char_lt(c[0], b[0]) {
            lemma_lex_le_trans(a.drop_first(), b.drop_first(), c.drop_first());
        }
    }
}

/// Dropping an equal prefix does not change how two sequences compare.
pub proof fn lemma_lex_le_skip(a: Seq<char>, b: Seq<char>, i: int)
    requires
        0 <= i <= a.len(),
        i <= b.len(),
        a.take(i) =~= b.take(i),
    ensures
        lex_le(a, b) == lex_le(a.skip(i), b.skip(i)),
    decreases i,
{
    if i == 0 {
        assert(a.skip(0) =~= a);
        assert(b.skip(0) =~= b);
    } else {
        assert(a.take(i)[0] == a[0]);
        assert(b.take(i)[0] == b[0]);
        assert(a.len() > 0 && b.len() > 0);
        assert(a[0] == b[0]);
        assert(!char_lt(a[0], b[0]) && !char_lt(b[0], a[0]));
        assert(a.drop_first().take(i - 1) =~= b.drop_first().take(i - 1)) by {
            assert forall|k: int| 0 <= k < i - 1 implies #[trigger] a.drop_first()[k]
                == b.drop_first()[k] by {
                assert(a.take(i)[k + 1] == b.take(i)[k + 1]);
            }
        }
        lemma_lex_le_skip(a.drop_first(), b.drop_first(), i - 1);
        assert(a.drop_first().skip(i - 1) =~= a.skip(i));
        assert(b.drop_first().skip(i - 1) =~= b.skip(i));
    }
}

/// Code-point comparison of two string slices, matching `lex_le` on views.
pub fn str_le(a: &str, b: &str) -> (r: bool)
    ensures
        r == lex_le(a@, b@),
{
    let alen = a.unicode_len();
    let blen = b.unicode_len();
    let mut i: usize = 0;
    loop
        invariant
            i <= alen,
            i <= blen,
            alen == a@.len(),
            blen == b@.len(),
            a@.take(i as int) =~= b@.take(i as int),
        decreases alen - i,
    {
        proof {
            lemma_lex_le_skip(a@, b@, i as int);
        }
        if i >= alen {
            assert(a@.skip(i as int) =~= Seq::<char>::empty());
            return true;
        }
        if i >= blen {
            assert(b@.skip(i as int) =~= Seq::<char>::empty());
            assert(a@.skip(i as int).len() > 0);
            return false;
        }
        let ca = a.get_char(i);
        let cb = b.get_char(i);
        proof {
            assert(a@.skip(i as int)[0] == a@[i as int]);
            assert(b@.skip(i as int)[0] == b@[i as int]);
        }
        if (ca as u32) < (cb as u32) {
            return true;
        }
        if (cb as u32) < (ca as u32) {
            return false;
        }
        proof {
            assert(ca == cb) by {
                vstd::utf8::char_u32_cast(ca, ca as u32);
                vstd::utf8::char_u32_cast(cb, cb as u32);
            }
            assert(a@.take(i + 1) =~= b@.take(i + 1)) by {
                assert forall|k: int| 0 <= k < i + 1 implies #[trigger] a@.take(i + 1)[k]
                    == b@.take(i + 1)[k] by {
                    if k < i {
                        assert(a@.take(i as int)[k] == b@.take(i as int)[k]);
                    }
                }
            }
        }
        i = i + 1;
    }
}

/// The next Unicode scalar value after `c`, skipping the surrogate range:
/// the value after 0xD7FF is 0xE000.
pub open spec fn succ_code(c: char) -> int {
    if c as u32 == 0xD7FF {
        0xE000
    } else {
        c as u32 + 1
    }
}

/// Successor of a character in code-point order, skipping the surrogate
/// range; none for the maximum code point.
pub fn successor(c: char) -> (r: Option<char>)
    ensures
        r is Some <==> c as u32 != 0x10FFFF,
        r is Some ==> r->Some_0 as u32 == succ_code(c),
{
    proof {
        broadcast use vstd::utf8::char_is_scalar;

    }
    let v = c as u32;
    if v == 0xD7FF {
        char_from_u32(0xE000)
    } else {
        char_from_u32(v + 1)
    }
}

/// The characters of a string slice, as a vector.
pub fn chars_vec(s: &str) -> (r: Vec<char>)
    ensures
        r@ == s@,
{
    let n = s.unicode_len();
    let mut r: Vec<char> = Vec::new();
    let mut i: usize = 0;
    while i < n
        invariant
            i <= n,
            n == s@.len(),
            r@ =~= s@.take(i as int),
        decreases n - i,
    {
        r.push(s.get_char(i));
        proof {
            assert(s@.take(i + 1) =~= s@.take(i as int).push(s@[i as int]));
        }
        i = i + 1;
    }
    proof {
        assert(s@.take(n as int) =~= s@);
    }
    r
}

} // verus!
