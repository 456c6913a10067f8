//! Catalog records and the decoding of their code points.
use vstd::prelude::*;
use crate::error::EmoError;
use crate::text::{string_of, decimal_text, decimal_string, char_vec, is_white_space, words, word_scan, is_white_space_spec};

verus! {

/// One emoji of the catalog.
#[derive(Debug)]
pub struct EmojiRecord {
    pub keywords: Vec<String>,
    /// A code point written `U+XXXX`.
    pub unicode: String,
    pub name: String,
    pub shortcode: Option<String>,
    pub definition: Option<String>,
}

/// The value of an ASCII hexadecimal digit.
pub open spec fn hex_digit(c: char) -> Option<nat> {
    if '0' <= c <= '9' {
        Some((c as nat - '0' as nat) as nat)
    } else if 'a' <= c <= 'f' {
        Some((c as nat - 'a' as nat + 10) as nat)
    } else if 'A' <= c <= 'F' {
        Some((c as nat - 'A' as nat + 10) as nat)
    } else {
        None
    }
}

/// Whether every character of `s` is a hexadecimal digit.
pub open spec fn all_hex(s: Seq<char>) -> bool {
    forall|i: int| 0 <= i < s.len() ==> #[trigger] hex_digit(s[i]) is Some
}

/// The number that the hexadecimal digits `s` write.
pub open spec fn hex_number(s: Seq<char>) -> nat
    decreases s.len(),
{
    if s.len() == 0 {
        0
    } else {
        hex_number(s.drop_last()) * 16 + match hex_digit(s.last()) {
            Some(d) => d,
            None => 0,
        }
    }
}

/// `u32::from_str_radix(s, 16)`: an optional `+`, then at least one
/// hexadecimal digit, for a value that fits in 32 bits.
pub open spec fn parse_hex_u32(s: Seq<char>) -> Option<u32> {
    let digits = if s.len() > 0 && s[0] == '+' {
        s.skip(1)
    } else {
        s
    };
    if digits.len() > 0 && all_hex(digits) && hex_number(digits) <= u32::MAX {
        Some(hex_number(digits) as u32)
    } else {
        None
    }
}

/// `s` with every leading `U+` removed (`str::trim_start_matches("U+")`).
pub open spec fn strip_code_prefix(s: Seq<char>) -> Seq<char>
    decreases s.len(),
{
    if s.len() >= 2 && s[0] == 'U' && s[1] == '+' {
        strip_code_prefix(s.skip(2))
    } else {
        s
    }
}

/// Whether `v` is a Unicode scalar value.
pub open spec fn is_scalar(v: u32) -> bool {
    v <= 0x10FFFF && !(0xD800 <= v <= 0xDFFF)
}

/// The code point that a record's `unicode` field denotes: its first word,
/// without the `U+` prefix, read as hexadecimal; none when that fails or is
/// not a scalar value.
pub open spec fn decoded_code(unicode: Seq<char>) -> Option<u32> {
    if words(unicode).len() == 0 {
        None
    } else {
        match parse_hex_u32(strip_code_prefix(words(unicode)[0])) {
            Some(v) => if is_scalar(v) {
                Some(v)
            } else {
                None
            },
            None => None,
        }
    }
}

/// The message of a failed decoding: the whole field when it holds no code
/// point, the hexadecimal text when it does not parse, else the value.
pub open spec fn decode_error(unicode: Seq<char>) -> Seq<char> {
    if words(unicode).len() == 0 {
        "Invalid unicode: "@ + unicode
    } else {
        let hex = strip_code_prefix(words(unicode)[0]);
        match parse_hex_u32(hex) {
            None => "Invalid hex code: "@ + hex,
            Some(v) => "Invalid code point: "@ + decimal_text(v as nat),
        }
    }
}

/// Relies on `char::from_u32`: a character exactly for the scalar values.
#[verifier::external_body]
fn char_from_code(v: u32) -> (r: Option<char>)
    ensures
        r is Some <==> is_scalar(v),
        r matches Some(c) ==> c as u32 == v,
{
    char::from_u32(v)
}

fn hex_digit_value(c: char) -> (r: Option<u32>)
    ensures
        r matches Some(d) ==> hex_digit(c) == Some(d as nat) && d < 16,
        r is None <==> hex_digit(c) is None,
{
    if '0' <= c && c <= '9' {
        Some((c as u32) - ('0' as u32))
    } else if 'a' <= c && c <= 'f' {
        Some((c as u32) - ('a' as u32) + 10)
    } else if 'A' <= c && c <= 'F' {
        Some((c as u32) - ('A' as u32) + 10)
    } else {
        None
    }
}

/// Reads `s[from..]` as `u32::from_str_radix(_, 16)` does.
fn parse_hex_from(s: &Vec<char>, from: usize) -> (r: Option<u32>)
    requires
        from <= s@.len(),
    ensures
        r == parse_hex_u32(s@.skip(from as int)),
{
    let ghost t = s@.skip(from as int);
    let mut start = from;
    if start < s.len() && s[start] == '+' {
        start = start + 1;
    }
    let ghost digits = s@.skip(start as int);
    assert(digits =~= (if t.len() > 0 && t[0] == '+' { t.skip(1) } else { t }));
    if start == s.len() {
        return None;
    }
    let mut value: u64 = 0;
    let mut over = false;
    let mut i = start;
    while i < s.len()
        invariant
            start <= i <= s@.len(),
            digits == s@.skip(start as int),
            t == s@.skip(from as int),
            digits == (if t.len() > 0 && t[0] == '+' { t.skip(1) } else { t }),
            all_hex(s@.subrange(start as int, i as int)),
            !over ==> value == hex_number(s@.subrange(start as int, i as int)) && value <= u32::MAX,
            over ==> hex_number(s@.subrange(start as int, i as int)) > u32::MAX,
        decreases s@.len() - i,
    {
        let ghost prev = s@.subrange(start as int, i as int);
        let ghost next = s@.subrange(start as int, i as int + 1);
        assert(next.drop_last() =~= prev);
        match hex_digit_value(s[i]) {
            None => {
                assert(digits[i - start] == s@[i as int]);
                assert(hex_digit(digits[i - start]) is None);
                assert(!all_hex(digits));
                assert(parse_hex_u32(t) is None);
                return None;
            },
            Some(d) => {
                assert(hex_number(next) == hex_number(prev) * 16 + d);
                if !over {
                    value = value * 16 + d as u64;
                    if value > 0xFFFF_FFFF {
                        over = true;
                    }
                }
                assert forall|k: int| 0 <= k < next.len() implies #[trigger] hex_digit(next[k]) is Some by {
                    if k < prev.len() {
                        assert(next[k] == prev[k]);
                    }
                }
            },
        }
        i += 1;
    }
    assert(s@.subrange(start as int, i as int) =~= digits);
    if over {
        None
    } else {
        Some(value as u32)
    }
}

/// Skips every leading `U+` of `s[from..]`.
fn skip_code_prefix(s: &Vec<char>, from: usize) -> (r: usize)
    requires
        from <= s@.len(),
    ensures
        r <= s@.len(),
        s@.skip(r as int) == strip_code_prefix(s@.skip(from as int)),
    decreases s@.len() - from,
{
    if s.len() - from >= 2 && s[from] == 'U' && s[from + 1] == '+' {
        assert(s@.skip(from as int).skip(2) =~= s@.skip(from as int + 2));
        skip_code_prefix(s, from + 2)
    } else {
        from
    }
}

/// The character that `emoji.unicode` denotes.
pub fn to_char(emoji: &EmojiRecord) -> (r: Result<char, EmoError>)
    ensures
        match r {
            Ok(c) => decoded_code(emoji.unicode@) == Some(c as u32),
            Err(e) => decoded_code(emoji.unicode@) is None && (e matches EmoError::InvalidInput(m)
                && m@ == decode_error(emoji.unicode@)),
        },
{
    let u = char_vec(emoji.unicode.as_str());
    // the first word: skip white space, then read up to the next white space
    let mut i: usize = 0;
    while i < u.len() && is_white_space(u[i])
        invariant
            i <= u@.len(),
            forall|k: int| 0 <= k < i ==> is_white_space_spec(#[trigger] u@[k]),
        decreases u@.len() - i,
    {
        i += 1;
    }
    let mut j: usize = i;
    while j < u.len() && !is_white_space(u[j])
        invariant
            i <= j <= u@.len(),
            forall|k: int| i <= k < j ==> !is_white_space_spec(#[trigger] u@[k]),
        decreases u@.len() - j,
    {
        j += 1;
    }
    proof {
        lemma_first_word(u@, i as int, j as int);
    }
    assert(u@ == emoji.unicode@);
    if i == u.len() {
        let mut m = String::from_str("Invalid unicode: ");
        m.append(emoji.unicode.as_str());
        return Err(EmoError::InvalidInput(m));
    }
    let mut w: Vec<char> = Vec::new();
    let mut k: usize = i;
    while k < j
        invariant
            i <= k <= j <= u@.len(),
            w@ == u@.subrange(i as int, k as int),
        decreases j - k,
    {
        w.push(u[k]);
        k += 1;
        assert(w@ =~= u@.subrange(i as int, k as int));
    }
    let start = skip_code_prefix(&w, 0);
    assert(w@.skip(0) =~= w@);
    match parse_hex_from(&w, start) {
        None => {
            let mut hex: Vec<char> = Vec::new();
            let mut k: usize = start;
            while k < w.len()
                invariant
                    start <= k <= w@.len(),
                    hex@ == w@.subrange(start as int, k as int),
                decreases w@.len() - k,
            {
                hex.push(w[k]);
                k += 1;
                assert(hex@ =~= w@.subrange(start as int, k as int));
            }
            assert(hex@ =~= w@.skip(start as int));
            let mut m = String::from_str("Invalid hex code: ");
            let h = string_of(&hex);
            m.append(h.as_str());
            Err(EmoError::InvalidInput(m))
        },
        Some(v) => match char_from_code(v) {
            Some(c) => Ok(c),
            None => {
                let mut m = String::from_str("Invalid code point: ");
                let n = decimal_string(v as usize);
                m.append(n.as_str());
                Err(EmoError::InvalidInput(m))
            },
        },
    }
}

/// The first word of `s` is the run of non-white-space characters that
/// starts after the leading white space.
proof fn lemma_first_word(s: Seq<char>, i: int, j: int)
    requires
        0 <= i <= j <= s.len(),
        forall|k: int| 0 <= k < i ==> is_white_space_spec(#[trigger] s[k]),
        forall|k: int| i <= k < j ==> !is_white_space_spec(#[trigger] s[k]),
        j == s.len() || is_white_space_spec(s[j]),
        i < s.len() ==> !is_white_space_spec(s[i]),
    ensures
        i == s.len() ==> words(s).len() == 0,
        i < s.len() ==> words(s).len() > 0 && words(s)[0] == s.subrange(i, j),
{
    lemma_leading_run(s, i, j, j);
    if i < s.len() {
        if j < s.len() {
            assert(s.take(j + 1).drop_last() =~= s.take(j));
            assert(word_scan(s.take(j + 1)).0 =~= seq![s.subrange(i, j)]);
            lemma_scan_keeps_words(s, j + 1, s.len() as int);
            assert(s.take(s.len() as int) =~= s);
            assert(word_scan(s).0[0] == s.subrange(i, j));
        } else {
            assert(s.take(j) =~= s);
            assert(word_scan(s).1.len() > 0);
        }
    } else {
        assert(s.take(i) =~= s);
    }
}

/// Scanning the leading white space and then part of the first word.
proof fn lemma_leading_run(s: Seq<char>, i: int, j: int, n: int)
    requires
        0 <= i <= j <= s.len(),
        0 <= n <= j,
        forall|k: int| 0 <= k < i ==> is_white_space_spec(#[trigger] s[k]),
        forall|k: int| i <= k < j ==> !is_white_space_spec(#[trigger] s[k]),
    ensures
        word_scan(s.take(n)).0.len() == 0,
        n <= i ==> word_scan(s.take(n)).1.len() == 0,
        i <= n ==> word_scan(s.take(n)).1 == s.subrange(i, n),
    decreases n,
{
    if n > 0 {
        lemma_leading_run(s, i, j, n - 1);
        assert(s.take(n).drop_last() =~= s.take(n - 1));
        if i <= n - 1 {
            assert(s.subrange(i, n - 1).push(s[n - 1]) =~= s.subrange(i, n));
        } else if n == i {
            assert(s.subrange(i, n) =~= Seq::<char>::empty());
        }
    } else if i == 0 {
        assert(s.subrange(i, n) =~= Seq::<char>::empty());
    }
}

/// Words finished within a prefix stay finished, in place.
proof fn lemma_scan_keeps_words(s: Seq<char>, n: int, m: int)
    requires
        0 <= n <= m <= s.len(),
    ensures
        word_scan(s.take(m)).0.len() >= word_scan(s.take(n)).0.len(),
        forall|k: int| 0 <= k < word_scan(s.take(n)).0.len()
            ==> #[trigger] word_scan(s.take(m)).0[k] == word_scan(s.take(n)).0[k],
    decreases m - n,
{
    if n < m {
        lemma_scan_keeps_words(s, n, m - 1);
        assert(s.take(m).drop_last() =~= s.take(m - 1));
    }
}

} // verus!
