//! Character-level text helpers shared by the matchers.
use vstd::prelude::*;

verus! {

/// The Unicode `White_Space` property, the set that `char::is_whitespace` tests.
pub open spec fn is_white_space_spec(c: char) -> bool {
    let u = c as u32;
    ||| 0x09 <= u <= 0x0D
    ||| u == 0x20
    ||| u == 0x85
    ||| u == 0xA0
    ||| u == 0x1680
    ||| 0x2000 <= u <= 0x200A
    ||| u == 0x2028
    ||| u == 0x2029
    ||| u == 0x202F
    ||| u == 0x205F
    ||| u == 0x3000
}

pub fn is_white_space(c: char) -> (r: bool)
    ensures
        r == is_white_space_spec(c),
{
    let u = c as u32;
    (0x09 <= u && u <= 0x0D) || u == 0x20 || u == 0x85 || u == 0xA0 || u == 0x1680 || (0x2000
        <= u && u <= 0x200A) || u == 0x2028 || u == 0x2029 || u == 0x202F || u == 0x205F || u
        == 0x3000
}

/// Words finished so far and the word being read, after scanning `s` left to
/// right and splitting on white space.
pub open spec fn word_scan(s: Seq<char>) -> (Seq<Seq<char>>, Seq<char>)
    decreases s.len(),
{
    if s.len() == 0 {
        (Seq::empty(), Seq::empty())
    } else {
        let (done, cur) = word_scan(s.drop_last());
        let c = s.last();
        if is_white_space_spec(c) {
            if cur.len() > 0 {
                (done.push(cur), Seq::empty())
            } else {
                (done, cur)
            }
        } else {
            (done, cur.push(c))
        }
    }
}

/// The maximal runs of non-white-space characters of `s`, in order: what
/// `str::split_whitespace` yields.
pub open spec fn words(s: Seq<char>) -> Seq<Seq<char>> {
    let (done, cur) = word_scan(s);
    if cur.len() > 0 {
        done.push(cur)
    } else {
        done
    }
}

/// Relies on `String::push`: the character is appended at the end.
#[verifier::external_body]
pub(crate) fn push_char(s: &mut String, c: char)
    ensures
        final(s)@ == old(s)@.push(c),
{
    s.push(c)
}

/// The characters of `s`, in order.
pub fn char_vec(s: &str) -> (r: Vec<char>)
    ensures
        r@ == s@,
{
    let mut r: Vec<char> = Vec::new();
    for c in it: s.chars()
        invariant
            r@ == it.seq().take(it.index() as int),
    {
        r.push(c);
    }
    r
}

/// The decimal digit character for `d < 10`.
pub open spec fn digit_char(d: nat) -> char {
    if d == 0 { '0' } else if d == 1 { '1' } else if d == 2 { '2' } else if d == 3 { '3' }
    else if d == 4 { '4' } else if d == 5 { '5' } else if d == 6 { '6' } else if d == 7 { '7' }
    else if d == 8 { '8' } else { '9' }
}

/// `n` written in decimal, without leading zeros (as `{}` formats it).
pub open spec fn decimal_text(n: nat) -> Seq<char>
    decreases n,
{
    if n < 10 {
        seq![digit_char(n)]
    } else {
        decimal_text(n / 10) + seq![digit_char(n % 10)]
    }
}

fn digit(d: usize) -> (r: char)
    requires
        d < 10,
    ensures
        r == digit_char(d as nat),
{
    if d == 0 { '0' } else if d == 1 { '1' } else if d == 2 { '2' } else if d == 3 { '3' }
    else if d == 4 { '4' } else if d == 5 { '5' } else if d == 6 { '6' } else if d == 7 { '7' }
    else if d == 8 { '8' } else { '9' }
}

/// `n` written in decimal.
pub fn decimal_string(n: usize) -> (r: String)
    ensures
        r@ == decimal_text(n as nat),
    decreases n,
{
    if n < 10 {
        let mut s = String::new();
        push_char(&mut s, digit(n));
        assert(s@ =~= seq![digit_char(n as nat)]);
        s
    } else {
        let mut s = decimal_string(n / 10);
        push_char(&mut s, digit(n % 10));
        s
    }
}

/// The string made of the characters of `v`, in order.
pub fn string_of(v: &[char]) -> (r: String)
    ensures
        r@ == v@,
{
    let mut r = String::new();
    let mut i: usize = 0;
    while i < v.len()
        invariant
            i <= v@.len(),
            r@ == v@.take(i as int),
        decreases v@.len() - i,
    {
        push_char(&mut r, v[i]);
        i += 1;
        assert(r@ =~= v@.take(i as int));
    }
    assert(v@.take(i as int) =~= v@);
    r
}

/// What `str::to_lowercase` makes of a text: full Unicode case folding to
/// lower case, a function of the characters alone.
pub uninterp spec fn lower_of(s: Seq<char>) -> Seq<char>;

/// Relies on `str::to_lowercase`: its result depends on the characters alone,
/// and an empty text stays empty.
#[verifier::external_body]
pub(crate) fn lowercase(s: &str) -> (r: String)
    ensures
        r@ == lower_of(s@),
        s@.len() == 0 ==> r@.len() == 0,
{
    s.to_lowercase()
}

/// The lower-case form of `s`, as characters.
pub fn lower_chars(s: &str) -> (r: Vec<char>)
    ensures
        r@ == lower_of(s@),
{
    let l = lowercase(s);
    char_vec(l.as_str())
}

/// Whether `char::is_alphanumeric` holds of a character (Unicode `Alphabetic`
/// or `Numeric`).
pub uninterp spec fn is_alnum(c: char) -> bool;

/// Relies on `char::is_alphanumeric`, a fixed property of each character.
#[verifier::external_body]
pub(crate) fn alphanumeric(c: char) -> (r: bool)
    ensures
        r == is_alnum(c),
{
    c.is_alphanumeric()
}

/// Pieces finished so far and the piece being read, after scanning `s` left to
/// right and cutting at every character that is not alphanumeric.
pub open spec fn piece_scan(s: Seq<char>) -> (Seq<Seq<char>>, Seq<char>)
    decreases s.len(),
{
    if s.len() == 0 {
        (Seq::empty(), Seq::empty())
    } else {
        let (done, cur) = piece_scan(s.drop_last());
        let c = s.last();
        if is_alnum(c) {
            (done, cur.push(c))
        } else {
            (done.push(cur), Seq::empty())
        }
    }
}

/// The pieces of `s` between non-alphanumeric characters, empty ones
/// included: what `str::split(|c| !c.is_alphanumeric())` yields.
pub open spec fn pieces(s: Seq<char>) -> Seq<Seq<char>> {
    let (done, cur) = piece_scan(s);
    done.push(cur)
}

/// Whether some piece of `text`, once lower-cased, equals `word`.
pub open spec fn has_exact_word(text: Seq<char>, word: Seq<char>) -> bool {
    exists|j: int| 0 <= j < pieces(text).len() && #[trigger] lower_of(pieces(text)[j]) == word
}

/// Whether `word` occurs in `text` as a contiguous run of characters.
pub open spec fn contains_seq(text: Seq<char>, word: Seq<char>) -> bool {
    exists|i: int| 0 <= i && i + word.len() <= text.len() && #[trigger] text.subrange(i, i + word.len()) == word
}

/// Whether two texts hold the same characters.
pub fn same_text(a: &str, b: &str) -> (r: bool)
    ensures
        r == (a@ == b@),
{
    let x = char_vec(a);
    let y = char_vec(b);
    chars_equal(&x, &y)
}

pub fn chars_equal(a: &[char], b: &[char]) -> (r: bool)
    ensures
        r == (a@ == b@),
{
    if a.len() != b.len() {
        return false;
    }
    let mut i: usize = 0;
    while i < a.len()
        invariant
            i <= a@.len(),
            a@.len() == b@.len(),
            a@.take(i as int) == b@.take(i as int),
        decreases a@.len() - i,
    {
        if a[i] != b[i] {
            assert(a@.take(i as int + 1)[i as int] != b@.take(i as int + 1)[i as int]);
            return false;
        }
        i += 1;
        assert(a@.take(i as int) =~= b@.take(i as int));
    }
    assert(a@ =~= a@.take(i as int));
    assert(b@ =~= b@.take(i as int));
    true
}

fn matches_at(text: &[char], word: &[char], at: usize) -> (r: bool)
    requires
        at + word@.len() <= text@.len(),
    ensures
        r == (text@.subrange(at as int, at + word@.len()) == word@),
{
    let n = text.len();
    let mut i: usize = 0;
    while i < word.len()
        invariant
            i <= word@.len(),
            n == text@.len(),
            at + word@.len() <= text@.len(),
            forall|k: int| 0 <= k < i ==> text@[at + k] == word@[k],
        decreases word@.len() - i,
    {
        if text[at + i] != word[i] {
            assert(text@.subrange(at as int, at + word@.len())[i as int] != word@[i as int]);
            return false;
        }
        i += 1;
    }
    assert(text@.subrange(at as int, at + word@.len()) =~= word@);
    true
}

/// Whether `word` occurs in `text` (`str::contains` on the two texts).
pub fn contains_chars(text: &[char], word: &[char]) -> (r: bool)
    ensures
        r == contains_seq(text@, word@),
{
    if word.len() > text.len() {
        return false;
    }
    let last = text.len() - word.len();
    let mut at: usize = 0;
    loop
        invariant
            last + word@.len() == text@.len(),
            at <= last,
            forall|i: int| 0 <= i < at ==> #[trigger] text@.subrange(i, i + word@.len()) != word@,
        decreases last - at,
    {
        if matches_at(text, word, at) {
            return true;
        }
        if at == last {
            return false;
        }
        at += 1;
    }
}

/// Whether some piece of `text` between non-alphanumeric characters, once
/// lower-cased, equals `word`.
pub fn is_exact_word_match(text: &str, search: &str) -> (r: bool)
    ensures
        r == has_exact_word(text@, search@),
{
    let t = char_vec(text);
    let target = char_vec(search);
    let mut cur: Vec<char> = Vec::new();
    let mut i: usize = 0;
    while i < t.len()
        invariant
            i <= t@.len(),
            t@ == text@,
            target@ == search@,
            cur@ == piece_scan(t@.take(i as int)).1,
            forall|j: int| 0 <= j < piece_scan(t@.take(i as int)).0.len()
                ==> #[trigger] lower_of(piece_scan(t@.take(i as int)).0[j]) != search@,
        decreases t@.len() - i,
    {
        let c = t[i];
        assert(t@.take(i as int + 1).drop_last() =~= t@.take(i as int));
        if alphanumeric(c) {
            cur.push(c);
        } else {
            let piece = string_of(&cur);
            let low = lower_chars(piece.as_str());
            if chars_equal(&low, &target) {
                proof {
                    let done = piece_scan(t@.take(i as int + 1)).0;
                    assert(done[done.len() - 1] == cur@);
                    lemma_pieces_prefix(t@, i as int + 1);
                    assert(lower_of(pieces(text@)[done.len() - 1]) == search@);
                }
                return true;
            }
            cur = Vec::new();
        }
        i += 1;
    }
    assert(t@.take(i as int) =~= t@);
    let piece = string_of(&cur);
    let low = lower_chars(piece.as_str());
    let found = chars_equal(&low, &target);
    proof {
        let p = pieces(text@);
        if !found {
            assert forall|j: int| 0 <= j < p.len() implies #[trigger] lower_of(p[j]) != search@ by {}
        } else {
            assert(lower_of(p[p.len() - 1]) == search@);
        }
    }
    found
}

/// The whitespace-separated words of `s`, each as a string.
pub fn split_words(s: &str) -> (r: Vec<String>)
    ensures
        r@.len() == words(s@).len(),
        forall|j: int| 0 <= j < r@.len() ==> #[trigger] r@[j]@ == words(s@)[j],
{
    let t = char_vec(s);
    let mut done: Vec<String> = Vec::new();
    let mut cur: Vec<char> = Vec::new();
    let mut i: usize = 0;
    while i < t.len()
        invariant
            i <= t@.len(),
            t@ == s@,
            cur@ == word_scan(t@.take(i as int)).1,
            done@.len() == word_scan(t@.take(i as int)).0.len(),
            forall|j: int| 0 <= j < done@.len() ==> #[trigger] done@[j]@ == word_scan(t@.take(i as int)).0[j],
        decreases t@.len() - i,
    {
        let c = t[i];
        assert(t@.take(i as int + 1).drop_last() =~= t@.take(i as int));
        if is_white_space(c) {
            if cur.len() > 0 {
                done.push(string_of(&cur));
                cur = Vec::new();
            }
        } else {
            cur.push(c);
        }
        i += 1;
    }
    assert(t@.take(i as int) =~= s@);
    if cur.len() > 0 {
        done.push(string_of(&cur));
    }
    done
}

/// Whether `c` is `sep`, or `alt` when one is given.
pub open spec fn is_cut(sep: char, alt: Option<char>, c: char) -> bool {
    c == sep || alt == Some(c)
}

/// Parts finished so far and the part being read, after scanning `s` left to
/// right and cutting at every `sep` (and `alt`).
pub open spec fn part_scan(s: Seq<char>, sep: char, alt: Option<char>) -> (Seq<Seq<char>>, Seq<char>)
    decreases s.len(),
{
    if s.len() == 0 {
        (Seq::empty(), Seq::empty())
    } else {
        let (done, cur) = part_scan(s.drop_last(), sep, alt);
        let c = s.last();
        if is_cut(sep, alt, c) {
            (done.push(cur), Seq::empty())
        } else {
            (done, cur.push(c))
        }
    }
}

/// The parts of `s` between separators, empty ones included: what
/// `str::split` with those separators yields.
pub open spec fn split_parts(s: Seq<char>, sep: char, alt: Option<char>) -> Seq<Seq<char>> {
    let (done, cur) = part_scan(s, sep, alt);
    done.push(cur)
}

/// Splits `s` at each `sep` (or, when `alt` is given, also at each `alt`),
/// keeping empty parts.
pub fn split_at_chars(s: &str, sep: char, alt: Option<char>) -> (r: Vec<Vec<char>>)
    ensures
        r@.len() == split_parts(s@, sep, alt).len(),
        forall|k: int| 0 <= k < r@.len() ==> #[trigger] r@[k]@ == split_parts(s@, sep, alt)[k],
{
    let t = char_vec(s);
    let mut done: Vec<Vec<char>> = Vec::new();
    let mut cur: Vec<char> = Vec::new();
    let mut i: usize = 0;
    while i < t.len()
        invariant
            i <= t@.len(),
            t@ == s@,
            cur@ == part_scan(t@.take(i as int), sep, alt).1,
            done@.len() == part_scan(t@.take(i as int), sep, alt).0.len(),
            forall|j: int| 0 <= j < done@.len() ==> #[trigger] done@[j]@ == part_scan(t@.take(i as int), sep, alt).0[j],
        decreases t@.len() - i,
    {
        let c = t[i];
        assert(t@.take(i as int + 1).drop_last() =~= t@.take(i as int));
        let cut = c == sep || match alt {
            Some(a) => c == a,
            None => false,
        };
        assert(cut == is_cut(sep, alt, c));
        if cut {
            done.push(cur);
            cur = Vec::new();
        } else {
            cur.push(c);
        }
        i += 1;
    }
    assert(t@.take(i as int) =~= s@);
    done.push(cur);
    done
}

/// Whether `s` ends with `suffix`.
pub open spec fn ends_with(s: Seq<char>, suffix: Seq<char>) -> bool {
    suffix.len() <= s.len() && s.subrange(s.len() - suffix.len(), s.len() as int) == suffix
}

/// `s` with each occurrence of `pat`, read left to right without overlap,
/// replaced by `rep` (`str::replace`).
pub open spec fn replace_all(s: Seq<char>, pat: Seq<char>, rep: Seq<char>) -> Seq<char>
    recommends
        pat.len() > 0,
    decreases s.len(),
{
    if s.len() == 0 || pat.len() == 0 {
        s
    } else if pat.len() <= s.len() && s.subrange(0, pat.len() as int) == pat {
        rep + replace_all(s.skip(pat.len() as int), pat, rep)
    } else {
        seq![s[0]] + replace_all(s.skip(1), pat, rep)
    }
}

/// Replaces each occurrence of `pat` in `s` by `rep`.
pub fn replace_text(s: &[char], pat: &str, rep: &str) -> (r: Vec<char>)
    requires
        pat@.len() > 0,
    ensures
        r@ == replace_all(s@, pat@, rep@),
{
    let p = char_vec(pat);
    let q = char_vec(rep);
    let mut out: Vec<char> = Vec::new();
    let mut i: usize = 0;
    assert(s@.skip(0) =~= s@);
    assert(out@ + replace_all(s@, pat@, rep@) =~= replace_all(s@, pat@, rep@));
    while i < s.len()
        invariant
            i <= s@.len(),
            p@ == pat@,
            q@ == rep@,
            p@.len() > 0,
            replace_all(s@, pat@, rep@) == out@ + replace_all(s@.skip(i as int), pat@, rep@),
        decreases s@.len() - i,
    {
        let ghost rest = s@.skip(i as int);
        if p.len() <= s.len() - i && matches_at(s, &p, i) {
            assert(rest.subrange(0, p@.len() as int) =~= s@.subrange(i as int, i + p@.len()));
            assert(rest.skip(p@.len() as int) =~= s@.skip(i + p@.len()));
            let mut k: usize = 0;
            let ghost o0 = out@;
            while k < q.len()
                invariant
                    k <= q@.len(),
                    out@ == o0 + q@.take(k as int),
                decreases q@.len() - k,
            {
                out.push(q[k]);
                k += 1;
                assert(out@ =~= o0 + q@.take(k as int));
            }
            assert(q@.take(k as int) =~= q@);
            assert(o0 + (rep@ + replace_all(s@.skip(i + p@.len()), pat@, rep@)) =~= out@ + replace_all(s@.skip(i + p@.len()), pat@, rep@));
            i += p.len();
        } else {
            if p.len() <= s.len() - i {
                assert(rest.subrange(0, p@.len() as int) =~= s@.subrange(i as int, i + p@.len()));
            }
            assert(rest.skip(1) =~= s@.skip(i + 1));
            assert(rest[0] == s@[i as int]);
            let ghost o0 = out@;
            out.push(s[i]);
            assert(o0 + (seq![s@[i as int]] + replace_all(s@.skip(i + 1), pat@, rep@)) =~= out@ + replace_all(s@.skip(i + 1), pat@, rep@));
            i += 1;
        }
    }
    assert(out@ + replace_all(s@.skip(i as int), pat@, rep@) =~= out@);
    out
}

/// Pieces finished within a prefix stay pieces of the whole text.
proof fn lemma_pieces_prefix(s: Seq<char>, n: int)
    requires
        0 <= n <= s.len(),
    ensures
        forall|j: int| 0 <= j < piece_scan(s.take(n)).0.len()
            ==> #[trigger] piece_scan(s.take(n)).0[j] == pieces(s)[j],
        piece_scan(s.take(n)).0.len() < pieces(s).len(),
    decreases s.len() - n,
{
    if n == s.len() {
        assert(s.take(n) =~= s);
    } else {
        lemma_pieces_prefix(s, n + 1);
        assert(s.take(n + 1).drop_last() =~= s.take(n));
        let d0 = piece_scan(s.take(n)).0;
        let d1 = piece_scan(s.take(n + 1)).0;
        assert(d1.len() >= d0.len());
        assert forall|j: int| 0 <= j < d0.len() implies #[trigger] d0[j] == pieces(s)[j] by {
            assert(d1[j] == d0[j]);
        }
    }
}

} // verus!
