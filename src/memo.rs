//! User memos (term → emoji overrides) and how they blend with search.
use vstd::prelude::*;
use crate::error::EmoError;
use crate::record::EmojiRecord;
use crate::search::{search, search_result, lemma_code_injective};
use crate::text::{same_text, char_vec, decimal_text, decimal_string};

verus! {

/// The memo for `term` among `entries`: the last entry for that term wins.
pub open spec fn memo_of(entries: Seq<(String, char)>, term: Seq<char>) -> Option<char>
    decreases entries.len(),
{
    if entries.len() == 0 {
        None
    } else if entries.last().0@ == term {
        Some(entries.last().1)
    } else {
        memo_of(entries.drop_last(), term)
    }
}

/// Persisted user state: memos and the preferred model.
pub struct EmojiMappings {
    mappings: Vec<(String, char)>,
    model: Option<String>,
}

impl EmojiMappings {
    /// The memo saved for `term`, if any.
    pub closed spec fn memo(&self, term: Seq<char>) -> Option<char> {
        memo_of(self.mappings@, term)
    }

    /// The preferred model.
    pub closed spec fn model_spec(&self) -> Option<String> {
        self.model
    }

    /// No memos, no model.
    pub fn new() -> (r: Self)
        ensures
            forall|t: Seq<char>| #[trigger] r.memo(t) is None,
            r.model_spec() is None,
    {
        EmojiMappings { mappings: Vec::new(), model: None }
    }

    /// The memo saved for `term`, if any.
    pub fn lookup(&self, term: &str) -> (r: Option<char>)
        ensures
            r == self.memo(term@),
    {
        let mut i = self.mappings.len();
        assert(self.mappings@.take(i as int) =~= self.mappings@);
        while i > 0
            invariant
                i <= self.mappings@.len(),
                memo_of(self.mappings@, term@) == memo_of(self.mappings@.take(i as int), term@),
            decreases i,
        {
            let ghost pre = self.mappings@.take(i as int);
            assert(pre.drop_last() =~= self.mappings@.take(i - 1));
            let same = same_text(self.mappings[i - 1].0.as_str(), term);
            assert(pre.last() == self.mappings@[i - 1]);
            if same {
                assert(self.mappings@[i - 1].0@ == term@);
                return Some(self.mappings[i - 1].1);
            }
            assert(self.mappings@[i - 1].0@ != term@);
            i -= 1;
        }
        None
    }

    /// Removes the memo for `term`; tells whether there was one.
    pub fn erase(&mut self, term: &str) -> (r: bool)
        ensures
            r == old(self).memo(term@) is Some,
            final(self).memo(term@) is None,
            forall|t: Seq<char>| t != term@ ==> #[trigger] final(self).memo(t) == old(self).memo(t),
            final(self).model_spec() == old(self).model_spec(),
    {
        let existed = self.lookup(term).is_some();
        let ghost before = self.mappings@;
        let mut kept: Vec<(String, char)> = Vec::new();
        let mut i: usize = 0;
        while i < self.mappings.len()
            invariant
                i <= before.len(),
                self.mappings@ == before,
                memo_of(kept@, term@) is None,
                forall|t: Seq<char>| t != term@ ==> #[trigger] memo_of(kept@, t) == memo_of(before.take(i as int), t),
            decreases before.len() - i,
        {
            let ghost k0 = kept@;
            let e = &self.mappings[i];
            let same = same_text(e.0.as_str(), term);
            if !same {
                kept.push((e.0.clone(), e.1));
            }
            proof {
                let b1 = before.take(i + 1);
                assert(b1.drop_last() =~= before.take(i as int));
                assert(b1.last() == before[i as int]);
                if !same {
                    assert(kept@.drop_last() =~= k0);
                }
                assert forall|t: Seq<char>| t != term@ implies #[trigger] memo_of(kept@, t) == memo_of(b1, t) by {
                    assert(memo_of(k0, t) == memo_of(before.take(i as int), t));
                }
            }
            i += 1;
        }
        assert(before.take(i as int) =~= before);
        self.mappings = kept;
        existed
    }

    /// Sets the memo for `term` to `value`.
    pub fn insert(&mut self, term: String, value: char)
        ensures
            final(self).memo(term@) == Some(value),
            forall|t: Seq<char>| t != term@ ==> #[trigger] final(self).memo(t) == old(self).memo(t),
            final(self).model_spec() == old(self).model_spec(),
    {
        self.erase(term.as_str());
        let ghost m0 = self.mappings@;
        let ghost mid = *self;
        self.mappings.push((term, value));
        assert(self.mappings@.drop_last() =~= m0);
        assert forall|t: Seq<char>| t != term@ implies #[trigger] self.memo(t) == old(self).memo(t) by {
            assert(mid.memo(t) == old(self).memo(t));
            assert(memo_of(self.mappings@, t) == memo_of(m0, t));
        }
    }

    /// The memos as (term, emoji) entries; for each term the last entry
    /// holds its memo.
    pub fn entries(&self) -> (r: Vec<(String, char)>)
        ensures
            forall|t: Seq<char>| #[trigger] memo_of(r@, t) == self.memo(t),
    {
        let mut r: Vec<(String, char)> = Vec::new();
        let mut i: usize = 0;
        while i < self.mappings.len()
            invariant
                i <= self.mappings@.len(),
                r@ == self.mappings@.take(i as int),
            decreases self.mappings@.len() - i,
        {
            r.push((self.mappings[i].0.clone(), self.mappings[i].1));
            i += 1;
            assert(r@ =~= self.mappings@.take(i as int));
        }
        assert(self.mappings@.take(i as int) =~= self.mappings@);
        assert(r@ == self.mappings@);
        r
    }

    /// The memos as (term, emoji) pairs, one per term, ordered by term.
    pub fn listing(&self) -> (r: Vec<(String, char)>)
        ensures
            sorted_by_term(r@),
            forall|j: int| 0 <= j < r@.len() ==> self.memo(#[trigger] r@[j].0@) == Some(r@[j].1),
            forall|t: Seq<char>| #[trigger] self.memo(t) is Some ==> exists|j: int| 0 <= j < r@.len() && r@[j].0@ == t,
    {
        let mut out: Vec<(String, char)> = Vec::new();
        let mut i: usize = 0;
        while i < self.mappings.len()
            invariant
                i <= self.mappings@.len(),
                sorted_by_term(out@),
                forall|j: int| 0 <= j < out@.len() ==> memo_of(self.mappings@.take(i as int), #[trigger] out@[j].0@) == Some(out@[j].1),
                forall|t: Seq<char>| #[trigger] memo_of(self.mappings@.take(i as int), t) is Some ==> exists|j: int| 0 <= j < out@.len() && out@[j].0@ == t,
            decreases self.mappings@.len() - i,
        {
            let ghost pre = self.mappings@.take(i as int);
            let ghost next = self.mappings@.take(i + 1);
            assert(next.drop_last() =~= pre);
            let key = &self.mappings[i].0;
            let value = self.mappings[i].1;
            let ghost kv = key@;
            // first position whose term is not below the new one
            let mut p: usize = 0;
            while p < out.len() && text_lt(out[p].0.as_str(), key.as_str())
                invariant
                    p <= out@.len(),
                    forall|j: int| 0 <= j < p ==> text_less(#[trigger] out@[j].0@, kv),
                    key@ == kv,
                decreases out@.len() - p,
            {
                p += 1;
            }
            let ghost o0 = out@;
            if p < out.len() && same_text(out[p].0.as_str(), key.as_str()) {
                out.set(p, (key.clone(), value));
                proof {
                    assert forall|a: int, b: int| 0 <= a < b < out@.len() implies text_less(out@[a].0@, out@[b].0@) by {
                        assert(out@[a].0@ == o0[a].0@ && out@[b].0@ == o0[b].0@);
                    }
                    assert forall|j: int| 0 <= j < out@.len() implies memo_of(next, #[trigger] out@[j].0@) == Some(out@[j].1) by {
                        if j != p {
                            assert(out@[j] == o0[j]);
                            assert(o0[j].0@ != kv) by {
                                if j < p {
                                    lemma_text_less_irreflexive(kv);
                                } else {
                                    lemma_text_less_irreflexive(kv);
                                }
                            }
                            assert(memo_of(pre, o0[j].0@) == Some(o0[j].1));
                        }
                    }
                    assert forall|t: Seq<char>| #[trigger] memo_of(next, t) is Some implies exists|j: int| 0 <= j < out@.len() && out@[j].0@ == t by {
                        if t == kv {
                            assert(out@[p as int].0@ == t);
                        } else {
                            assert(memo_of(pre, t) is Some);
                            let j = choose|j: int| 0 <= j < o0.len() && o0[j].0@ == t;
                            assert(out@[j].0@ == t);
                        }
                    }
                }
            } else {
                out.insert(p, (key.clone(), value));
                proof {
                    if p < o0.len() {
                        lemma_text_less_total(o0[p as int].0@, kv);
                    }
                    assert forall|a: int, b: int| 0 <= a < b < out@.len() implies text_less(out@[a].0@, out@[b].0@) by {
                        if b < p {
                            assert(out@[a] == o0[a] && out@[b] == o0[b]);
                        } else if b == p {
                            assert(out@[a] == o0[a]);
                        } else if a == p {
                            assert(out@[b] == o0[b - 1]);
                            if b - 1 > p {
                                lemma_text_less_transitive(kv, o0[p as int].0@, o0[b - 1].0@);
                            }
                        } else if a < p {
                            assert(out@[a] == o0[a] && out@[b] == o0[b - 1]);
                        } else {
                            assert(out@[a] == o0[a - 1] && out@[b] == o0[b - 1]);
                        }
                    }
                    assert forall|j: int| 0 <= j < out@.len() implies memo_of(next, #[trigger] out@[j].0@) == Some(out@[j].1) by {
                        if j != p {
                            let jj = if j < p { j } else { j - 1 };
                            assert(out@[j] == o0[jj]);
                            assert(o0[jj].0@ != kv) by {
                                lemma_text_less_irreflexive(kv);
                                if jj >= p {
                                    if jj > p {
                                        lemma_text_less_transitive(kv, o0[p as int].0@, o0[jj].0@);
                                    }
                                }
                            }
                            assert(memo_of(pre, o0[jj].0@) == Some(o0[jj].1));
                        }
                    }
                    assert forall|t: Seq<char>| #[trigger] memo_of(next, t) is Some implies exists|j: int| 0 <= j < out@.len() && out@[j].0@ == t by {
                        if t == kv {
                            assert(out@[p as int].0@ == t);
                        } else {
                            assert(memo_of(pre, t) is Some);
                            let j = choose|j: int| 0 <= j < o0.len() && o0[j].0@ == t;
                            if j < p {
                                assert(out@[j].0@ == t);
                            } else {
                                assert(out@[j + 1].0@ == t);
                            }
                        }
                    }
                }
            }
            i += 1;
        }
        assert(self.mappings@.take(i as int) =~= self.mappings@);
        out
    }

    /// Whether no memo is saved.
    pub fn is_empty(&self) -> (r: bool)
        ensures
            r == forall|t: Seq<char>| #[trigger] self.memo(t) is None,
    {
        if self.mappings.len() > 0 {
            assert(self.memo(self.mappings@.last().0@) is Some);
        }
        self.mappings.len() == 0
    }

    /// The preferred model, if one was chosen.
    pub fn model(&self) -> (r: Option<String>)
        ensures
            r == self.model_spec(),
    {
        match &self.model {
            Some(m) => Some(m.clone()),
            None => None,
        }
    }

    /// Chooses the preferred model.
    pub fn set_model(&mut self, model: Option<String>)
        ensures
            final(self).model_spec() == model,
            forall|t: Seq<char>| #[trigger] final(self).memo(t) == old(self).memo(t),
    {
        self.model = model;
    }
}

/// Whether `a` comes strictly before `b` in code point order (the order of
/// `String`'s `Ord`).
pub open spec fn text_less(a: Seq<char>, b: Seq<char>) -> bool
    decreases a.len(),
{
    if a.len() == 0 {
        b.len() > 0
    } else if b.len() == 0 {
        false
    } else if a[0] != b[0] {
        (a[0] as u32) < (b[0] as u32)
    } else {
        text_less(a.skip(1), b.skip(1))
    }
}

proof fn lemma_text_less_irreflexive(a: Seq<char>)
    ensures
        !text_less(a, a),
    decreases a.len(),
{
    if a.len() > 0 {
        lemma_text_less_irreflexive(a.skip(1));
    }
}

proof fn lemma_text_less_total(a: Seq<char>, b: Seq<char>)
    ensures
        a != b ==> text_less(a, b) || text_less(b, a),
        !(text_less(a, b) && text_less(b, a)),
    decreases a.len(),
{
    if a.len() > 0 && b.len() > 0 {
        lemma_text_less_total(a.skip(1), b.skip(1));
        if a[0] == b[0] && a != b {
            assert(a =~= seq![a[0]] + a.skip(1));
            assert(b =~= seq![b[0]] + b.skip(1));
        }
        if a[0] != b[0] {
            if a[0] as u32 == b[0] as u32 {
                lemma_code_injective(a[0], b[0]);
            }
        }
    } else if a.len() == 0 && b.len() == 0 {
        assert(a =~= b);
    }
}

proof fn lemma_text_less_transitive(a: Seq<char>, b: Seq<char>, c: Seq<char>)
    requires
        text_less(a, b),
        text_less(b, c),
    ensures
        text_less(a, c),
    decreases a.len(),
{
    if a.len() > 0 && b.len() > 0 && c.len() > 0 {
        if a[0] == b[0] && b[0] == c[0] {
            lemma_text_less_transitive(a.skip(1), b.skip(1), c.skip(1));
        }
    }
}

/// Whether `s` is strictly increasing by term.
pub open spec fn sorted_by_term(s: Seq<(String, char)>) -> bool {
    forall|a: int, b: int| 0 <= a < b < s.len() ==> text_less(s[a].0@, s[b].0@)
}

fn text_lt(a: &str, b: &str) -> (r: bool)
    ensures
        r == text_less(a@, b@),
{
    let x = char_vec(a);
    let y = char_vec(b);
    let mut i: usize = 0;
    assert(x@.skip(0) =~= x@);
    assert(y@.skip(0) =~= y@);
    while i < x.len() && i < y.len() && x[i] == y[i]
        invariant
            i <= x@.len(),
            i <= y@.len(),
            text_less(a@, b@) == text_less(x@.skip(i as int), y@.skip(i as int)),
            x@ == a@,
            y@ == b@,
        decreases x@.len() - i,
    {
        assert(x@.skip(i as int).skip(1) =~= x@.skip(i + 1));
        assert(y@.skip(i as int).skip(1) =~= y@.skip(i + 1));
        i += 1;
    }
    if i == x.len() {
        i < y.len()
    } else if i == y.len() {
        false
    } else {
        (x[i] as u32) < (y[i] as u32)
    }
}

/// The code points of search results, in order.
pub open spec fn codes(s: Seq<(u32, int)>) -> Seq<u32> {
    s.map_values(|e: (u32, int)| e.0)
}

/// `s` without its entries equal to `c`, order kept.
pub open spec fn without(s: Seq<u32>, c: u32) -> Seq<u32>
    decreases s.len(),
{
    if s.len() == 0 {
        Seq::empty()
    } else {
        let w = without(s.drop_last(), c);
        if s.last() == c {
            w
        } else {
            w.push(s.last())
        }
    }
}

/// At most the first `n` entries of `s`.
pub open spec fn first_n(s: Seq<u32>, n: nat) -> Seq<u32> {
    if s.len() <= n {
        s
    } else {
        s.take(n as int)
    }
}

/// Extra search results asked for beyond `count` when a memo takes the first
/// place, so that a search hit equal to the memo does not leave a gap.
pub const LOOKAHEAD: usize = 5;

/// The search limit used to fill the places after a memo.
pub open spec fn lookahead(count: nat) -> nat {
    if count + LOOKAHEAD <= usize::MAX {
        (count + LOOKAHEAD) as nat
    } else {
        usize::MAX as nat
    }
}

/// What a query resolves to, as code points: without a memo, the search
/// result; with one, the memo first and then the search hits other than the
/// memo, `count` in all at most.
pub open spec fn resolution(cat: Seq<EmojiRecord>, memo: Option<char>, term: Seq<char>, count: nat) -> Seq<u32> {
    match memo {
        None => codes(search_result(cat, term, count)),
        Some(m) => if count <= 1 {
            seq![m as u32]
        } else {
            seq![m as u32] + first_n(
                without(codes(search_result(cat, term, lookahead(count))), m as u32),
                (count - 1) as nat,
            )
        },
    }
}

/// Resolves `term` to at most `count` emoji: a memo for it comes first, and
/// search results fill the remaining places.
pub fn resolve(emojis: &[EmojiRecord], mappings: &EmojiMappings, term: &str, count: usize) -> (r: Vec<char>)
    requires
        count >= 1,
    ensures
        r@.len() == resolution(emojis@, mappings.memo(term@), term@, count as nat).len(),
        forall|k: int| 0 <= k < r@.len()
            ==> r@[k] as u32 == #[trigger] resolution(emojis@, mappings.memo(term@), term@, count as nat)[k],
{
    match mappings.lookup(term) {
        None => {
            let found = search(emojis, term, count);
            let ghost want = codes(search_result(emojis@, term@, count as nat));
            let mut out: Vec<char> = Vec::new();
            let mut i: usize = 0;
            while i < found.len()
                invariant
                    i <= found@.len(),
                    found@.len() == want.len(),
                    want == codes(search_result(emojis@, term@, count as nat)),
                    forall|k: int| 0 <= k < found@.len() ==> found@[k].0 as u32 == #[trigger] want[k],
                    out@.len() == i,
                    forall|k: int| 0 <= k < i ==> out@[k] as u32 == #[trigger] want[k],
                decreases found@.len() - i,
            {
                out.push(found[i].0);
                i += 1;
            }
            out
        },
        Some(m) => {
            let mut out: Vec<char> = Vec::new();
            out.push(m);
            if count == 1 {
                return out;
            }
            let limit = count.saturating_add(LOOKAHEAD);
            let found = search(emojis, term, limit);
            let ghost all = codes(search_result(emojis@, term@, limit as nat));
            let ghost n = (count - 1) as nat;
            let mut i: usize = 0;
            while i < found.len()
                invariant
                    i <= found@.len(),
                    count >= 2,
                    n == count - 1,
                    found@.len() == all.len(),
                    forall|k: int| 0 <= k < found@.len() ==> found@[k].0 as u32 == #[trigger] all[k],
                    out@.len() == 1 + first_n(without(all.take(i as int), m as u32), n).len(),
                    out@[0] == m,
                    forall|k: int| 1 <= k < out@.len()
                        ==> out@[k] as u32 == #[trigger] first_n(without(all.take(i as int), m as u32), n)[k - 1],
                decreases found@.len() - i,
            {
                let c = found[i].0;
                let ghost w0 = without(all.take(i as int), m as u32);
                assert(all.take(i + 1).drop_last() =~= all.take(i as int));
                if c != m {
                    proof {
                        if c as u32 == m as u32 {
                            lemma_code_injective(c, m);
                        }
                    }
                    assert(without(all.take(i + 1), m as u32) == w0.push(c as u32));
                    if out.len() < count {
                        assert(w0.len() < n);
                        out.push(c);
                    } else {
                        assert(first_n(w0.push(c as u32), n) =~= first_n(w0, n));
                    }
                } else {
                    assert(c as u32 == m as u32);
                }
                i += 1;
            }
            assert(all.take(i as int) =~= all);
            out
        },
    }
}

/// The value of an ASCII decimal digit.
pub open spec fn decimal_digit(c: char) -> Option<nat> {
    if '0' <= c <= '9' {
        Some((c as nat - '0' as nat) as nat)
    } else {
        None
    }
}

/// The number that the decimal digits `s` write.
pub open spec fn decimal_number(s: Seq<char>) -> nat
    decreases s.len(),
{
    if s.len() == 0 {
        0
    } else {
        decimal_number(s.drop_last()) * 10 + match decimal_digit(s.last()) {
            Some(d) => d,
            None => 0,
        }
    }
}

/// Whether every character of `s` is a decimal digit.
pub open spec fn all_decimal(s: Seq<char>) -> bool {
    forall|i: int| 0 <= i < s.len() ==> #[trigger] decimal_digit(s[i]) is Some
}

/// `str::parse::<usize>`: an optional `+`, then at least one decimal digit,
/// for a value that fits in a `usize`.
pub open spec fn parse_count(s: Seq<char>) -> Option<usize> {
    let digits = if s.len() > 0 && s[0] == '+' {
        s.skip(1)
    } else {
        s
    };
    if digits.len() > 0 && all_decimal(digits) && decimal_number(digits) <= usize::MAX {
        Some(decimal_number(digits) as usize)
    } else {
        None
    }
}

/// Reads `s` as `str::parse::<usize>` does.
pub fn parse_index(s: &str) -> (r: Option<usize>)
    ensures
        r == parse_count(s@),
{
    let v = char_vec(s);
    let ghost t = s@;
    let mut start: usize = 0;
    if v.len() > 0 && v[0] == '+' {
        start = 1;
    }
    let ghost digits = v@.skip(start as int);
    assert(digits =~= (if t.len() > 0 && t[0] == '+' { t.skip(1) } else { t }));
    if start == v.len() {
        return None;
    }
    let mut value: u128 = 0;
    let mut over = false;
    let mut i = start;
    while i < v.len()
        invariant
            start <= i <= v@.len(),
            v@ == t,
            t == s@,
            digits == v@.skip(start as int),
            digits == (if t.len() > 0 && t[0] == '+' { t.skip(1) } else { t }),
            forall|k: int| 0 <= k < i - start ==> #[trigger] decimal_digit(digits[k]) is Some,
            !over ==> value == decimal_number(v@.subrange(start as int, i as int)) && value <= usize::MAX,
            over ==> decimal_number(v@.subrange(start as int, i as int)) > usize::MAX,
        decreases v@.len() - i,
    {
        let ghost prev = v@.subrange(start as int, i as int);
        let ghost next = v@.subrange(start as int, i as int + 1);
        assert(next.drop_last() =~= prev);
        let c = v[i];
        assert(digits[i - start] == c);
        if !('0' <= c && c <= '9') {
            assert(decimal_digit(digits[i - start]) is None);
            assert(!all_decimal(digits));
            assert(parse_count(t) is None);
            return None;
        }
        let d = (c as u32) - ('0' as u32);
        assert(decimal_number(next) == decimal_number(prev) * 10 + d);
        if !over {
            value = value * 10 + d as u128;
            if value > usize::MAX as u128 {
                over = true;
            }
        }
        i += 1;
    }
    assert(v@.subrange(start as int, i as int) =~= digits);
    assert(all_decimal(digits));
    if over {
        None
    } else {
        Some(value as usize)
    }
}

/// The outcome of saving `value` as the memo for `term`: the code point
/// stored (with a number `i` in `value`, that of the `i`-th search result for
/// `term`, counting from one; else the first character of `value`), or the
/// message of the input error.
pub open spec fn save_outcome(cat: Seq<EmojiRecord>, term: Seq<char>, value: Seq<char>) -> Result<u32, Seq<char>> {
    if term.len() == 0 || value.len() == 0 {
        Err("Cannot save mapping for empty search term or emoji"@)
    } else {
        match parse_count(value) {
            Some(i) => if i == 0 {
                Err("Index must be greater than 0"@)
            } else if search_result(cat, term, i as nat).len() < i {
                Err("Only "@ + decimal_text(search_result(cat, term, i as nat).len()) + " results found, cannot select index "@
                    + decimal_text(i as nat))
            } else {
                Ok(search_result(cat, term, i as nat)[i - 1].0)
            },
            None => Ok(value[0] as u32),
        }
    }
}

/// Checks that a memo request names a term and a value.
pub fn check_save_input(term: &str, value: &str) -> (r: Result<(), EmoError>)
    ensures
        r is Ok <==> term@.len() > 0 && value@.len() > 0,
        r matches Err(e) ==> e matches EmoError::InvalidInput(m) && m@ == "Cannot save mapping for empty search term or emoji"@,
{
    let tv = char_vec(term);
    let vv = char_vec(value);
    if tv.len() == 0 || vv.len() == 0 {
        return Err(EmoError::InvalidInput(String::from_str("Cannot save mapping for empty search term or emoji")));
    }
    Ok(())
}

/// Checks that an erase request names a term.
pub fn check_erase_term(term: &str) -> (r: Result<(), EmoError>)
    ensures
        r is Ok <==> term@.len() > 0,
        r matches Err(e) ==> e matches EmoError::InvalidInput(m) && m@ == "Cannot erase mapping for empty search term"@,
{
    let tv = char_vec(term);
    if tv.len() == 0 {
        return Err(EmoError::InvalidInput(String::from_str("Cannot erase mapping for empty search term")));
    }
    Ok(())
}

impl EmojiMappings {
    /// Saves a memo for `term`: the emoji that `value` designates (see
    /// `save_outcome`). Returns the saved emoji.
    pub fn save_mapping(&mut self, emojis: &[EmojiRecord], term: &str, value: &str) -> (r: Result<char, EmoError>)
        ensures
            match r {
                Ok(c) => {
                    &&& save_outcome(emojis@, term@, value@) == Ok::<u32, Seq<char>>(c as u32)
                    &&& final(self).memo(term@) == Some(c)
                    &&& forall|t: Seq<char>| t != term@ ==> #[trigger] final(self).memo(t) == old(self).memo(t)
                },
                Err(e) => {
                    &&& e matches EmoError::InvalidInput(m) && save_outcome(emojis@, term@, value@) == Err::<u32, Seq<char>>(m@)
                    &&& forall|t: Seq<char>| #[trigger] final(self).memo(t) == old(self).memo(t)
                },
            },
            final(self).model_spec() == old(self).model_spec(),
    {
        check_save_input(term, value)?;
        let vv = char_vec(value);
        let c = match parse_index(value) {
            Some(index) => {
                if index == 0 {
                    return Err(EmoError::InvalidInput(String::from_str("Index must be greater than 0")));
                }
                let found = search(emojis, term, index);
                if found.len() < index {
                    let mut m = String::from_str("Only ");
                    let n = decimal_string(found.len());
                    m.append(n.as_str());
                    m.append(" results found, cannot select index ");
                    let k = decimal_string(index);
                    m.append(k.as_str());
                    return Err(EmoError::InvalidInput(m));
                }
                found[index - 1].0
            },
            None => vv[0],
        };
        self.insert(String::from_str(term), c);
        Ok(c)
    }

    /// Erases the memo for `term`; tells whether one existed.
    pub fn erase_mapping(&mut self, term: &str) -> (r: Result<bool, EmoError>)
        ensures
            match r {
                Ok(existed) => {
                    &&& term@.len() > 0
                    &&& existed == old(self).memo(term@) is Some
                    &&& final(self).memo(term@) is None
                    &&& forall|t: Seq<char>| t != term@ ==> #[trigger] final(self).memo(t) == old(self).memo(t)
                },
                Err(e) => {
                    &&& term@.len() == 0
                    &&& e matches EmoError::InvalidInput(m) && m@ == "Cannot erase mapping for empty search term"@
                    &&& forall|t: Seq<char>| #[trigger] final(self).memo(t) == old(self).memo(t)
                },
            },
            final(self).model_spec() == old(self).model_spec(),
    {
        check_erase_term(term)?;
        Ok(self.erase(term))
    }
}

/// With a memo and a count of one, the memo alone is the answer.
pub proof fn lemma_memo_alone(cat: Seq<EmojiRecord>, m: char, term: Seq<char>)
    ensures
        resolution(cat, Some(m), term, 1) == seq![m as u32],
{
}

/// With a memo and a count above one, the memo comes first and never again.
pub proof fn lemma_memo_leads(cat: Seq<EmojiRecord>, m: char, term: Seq<char>, count: nat)
    requires
        count > 1,
    ensures
        resolution(cat, Some(m), term, count)[0] == m as u32,
        1 <= resolution(cat, Some(m), term, count).len() <= count,
        forall|k: int| 1 <= k < resolution(cat, Some(m), term, count).len()
            ==> #[trigger] resolution(cat, Some(m), term, count)[k] != m as u32,
{
    let w = without(codes(search_result(cat, term, lookahead(count))), m as u32);
    lemma_without_excludes(codes(search_result(cat, term, lookahead(count))), m as u32);
    let f = first_n(w, (count - 1) as nat);
    let r = resolution(cat, Some(m), term, count);
    assert forall|k: int| 1 <= k < r.len() implies #[trigger] r[k] != m as u32 by {
        assert(r[k] == f[k - 1]);
        assert(f[k - 1] == w[k - 1]);
    }
}

/// `without(s, c)` holds no `c`.
proof fn lemma_without_excludes(s: Seq<u32>, c: u32)
    ensures
        forall|k: int| 0 <= k < without(s, c).len() ==> #[trigger] without(s, c)[k] != c,
    decreases s.len(),
{
    if s.len() > 0 {
        lemma_without_excludes(s.drop_last(), c);
        let w0 = without(s.drop_last(), c);
        let w = without(s, c);
        assert forall|k: int| 0 <= k < w.len() implies #[trigger] w[k] != c by {
            if k < w0.len() {
                assert(w[k] == w0[k]);
            }
        }
    }
}

/// After a memo `e` is saved for `t` (the state that `insert` and
/// `save_mapping` leave), resolving `t` with a count of one yields exactly `e`.
pub proof fn lemma_saved_memo_resolves(cat: Seq<EmojiRecord>, saved: EmojiMappings, t: Seq<char>, e: char)
    requires
        saved.memo(t) == Some(e),
    ensures
        resolution(cat, saved.memo(t), t, 1) == seq![e as u32],
{
}

/// After the memo for `t` is erased (the state that `erase` and
/// `erase_mapping` leave), resolving `t` is the plain search: no memo is put
/// first.
pub proof fn lemma_erased_memo_falls_through(cat: Seq<EmojiRecord>, erased: EmojiMappings, t: Seq<char>, count: nat)
    requires
        erased.memo(t) is None,
    ensures
        resolution(cat, erased.memo(t), t, count) == codes(search_result(cat, t, count)),
{
}

impl Default for EmojiMappings {
    fn default() -> (r: Self)
        ensures
            forall|t: Seq<char>| #[trigger] r.memo(t) is None,
            r.model_spec() is None,
    {
        EmojiMappings::new()
    }
}

} // verus!
