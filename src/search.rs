//! The tiered lexical matcher.
use vstd::prelude::*;
use crate::record::{EmojiRecord, to_char, decoded_code};
use crate::text::{
    lower_of, words, has_exact_word, contains_seq, lowercase, split_words, char_vec,
    contains_chars, is_exact_word_match, same_text,
};

verus! {

/// Number of match tiers.
pub const TIER_COUNT: usize = 6;

/// The words of a query, split on white space and lower-cased.
pub open spec fn query_words(q: Seq<char>) -> Seq<Seq<char>> {
    words(q).map_values(|w: Seq<char>| lower_of(w))
}

/// Every query word is a whole word of the lower-cased `text`.
pub open spec fn all_exact(text: Seq<char>, ws: Seq<Seq<char>>) -> bool {
    forall|k: int| 0 <= k < ws.len() ==> #[trigger] has_exact_word(lower_of(text), ws[k])
}

/// Every query word occurs somewhere in the lower-cased `text`.
pub open spec fn all_contained(text: Seq<char>, ws: Seq<Seq<char>>) -> bool {
    forall|k: int| 0 <= k < ws.len() ==> #[trigger] contains_seq(lower_of(text), ws[k])
}

/// Whether record `r` matches query `q` at `tier`, from the strongest (the
/// name is the whole query) to the weakest (the definition contains every
/// word).
pub open spec fn tier_matches(tier: int, r: EmojiRecord, q: Seq<char>) -> bool {
    let ws = query_words(q);
    if tier == 0 {
        lower_of(r.name@) == lower_of(q)
    } else if tier == 1 {
        all_exact(r.name@, ws)
    } else if tier == 2 {
        exists|k: int| 0 <= k < r.keywords@.len() && #[trigger] all_exact(r.keywords@[k]@, ws)
    } else if tier == 3 {
        all_contained(r.name@, ws)
    } else if tier == 4 {
        exists|k: int| 0 <= k < r.keywords@.len() && #[trigger] all_contained(r.keywords@[k]@, ws)
    } else {
        r.definition matches Some(d) && all_contained(d@, ws)
    }
}

/// Record `i` as a candidate at `tier`: its code point and index, when it
/// matches there and decodes.
pub open spec fn hit(cat: Seq<EmojiRecord>, q: Seq<char>, tier: int, i: int) -> Seq<(u32, int)> {
    if tier_matches(tier, cat[i], q) && decoded_code(cat[i].unicode@) is Some {
        seq![(decoded_code(cat[i].unicode@)->0, i)]
    } else {
        Seq::empty()
    }
}

/// The candidates of `tier` among the first `n` records, in catalog order.
pub open spec fn tier_hits(cat: Seq<EmojiRecord>, q: Seq<char>, tier: int, n: int) -> Seq<(u32, int)>
    decreases n,
{
    if n <= 0 {
        Seq::empty()
    } else {
        tier_hits(cat, q, tier, n - 1) + hit(cat, q, tier, n - 1)
    }
}

/// The candidates of all tiers below `tier`, tier by tier.
pub open spec fn hits_below(cat: Seq<EmojiRecord>, q: Seq<char>, tier: int) -> Seq<(u32, int)>
    decreases tier,
{
    if tier <= 0 {
        Seq::empty()
    } else {
        hits_below(cat, q, tier - 1) + tier_hits(cat, q, tier - 1, cat.len() as int)
    }
}

/// Every candidate of every tier, strongest tier first.
pub open spec fn candidates(cat: Seq<EmojiRecord>, q: Seq<char>) -> Seq<(u32, int)> {
    hits_below(cat, q, TIER_COUNT as int)
}

/// Whether some entry of `d` carries code point `c`.
pub open spec fn has_code(d: Seq<(u32, int)>, c: u32) -> bool {
    exists|k: int| 0 <= k < d.len() && (#[trigger] d[k]).0 == c
}

/// The entries of `s` whose code point has not occurred earlier in `s`.
pub open spec fn first_seen(s: Seq<(u32, int)>) -> Seq<(u32, int)>
    decreases s.len(),
{
    if s.len() == 0 {
        Seq::empty()
    } else {
        let d = first_seen(s.drop_last());
        if has_code(d, s.last().0) {
            d
        } else {
            d.push(s.last())
        }
    }
}

/// At most the first `n` entries of `s`.
pub open spec fn at_most(s: Seq<(u32, int)>, n: nat) -> Seq<(u32, int)> {
    if s.len() <= n {
        s
    } else {
        s.take(n as int)
    }
}

/// What a search yields: (code point, catalog index) pairs, one per distinct
/// character, strongest tier first and catalog order within a tier, at most
/// `limit` of them.
pub open spec fn search_result(cat: Seq<EmojiRecord>, q: Seq<char>, limit: nat) -> Seq<(u32, int)> {
    at_most(first_seen(candidates(cat, q)), limit)
}

/// The character sequences of a list of strings.
pub open spec fn views(ws: Seq<String>) -> Seq<Seq<char>> {
    ws.map_values(|w: String| w@)
}

/// The lower-cased words of `q`.
fn query_word_list(q: &str) -> (r: Vec<String>)
    ensures
        r@.len() == query_words(q@).len(),
        forall|k: int| 0 <= k < r@.len() ==> #[trigger] r@[k]@ == query_words(q@)[k],
{
    let ws = split_words(q);
    let mut r: Vec<String> = Vec::new();
    let mut i: usize = 0;
    while i < ws.len()
        invariant
            i <= ws@.len(),
            ws@.len() == words(q@).len(),
            forall|j: int| 0 <= j < ws@.len() ==> #[trigger] ws@[j]@ == words(q@)[j],
            r@.len() == i,
            forall|k: int| 0 <= k < i ==> #[trigger] r@[k]@ == query_words(q@)[k],
        decreases ws@.len() - i,
    {
        r.push(lowercase(ws[i].as_str()));
        i += 1;
    }
    r
}

/// Whether every word of `ws` matches the lower-cased `text`: as a whole word
/// when `exact`, anywhere otherwise.
fn all_words_match(text: &str, ws: &Vec<String>, exact: bool) -> (r: bool)
    ensures
        exact ==> r == all_exact(text@, views(ws@)),
        !exact ==> r == all_contained(text@, views(ws@)),
{
    let ghost wv = views(ws@);
    let low = lowercase(text);
    let low_chars = char_vec(low.as_str());
    let mut i: usize = 0;
    while i < ws.len()
        invariant
            i <= ws@.len(),
            wv == views(ws@),
            low@ == lower_of(text@),
            low_chars@ == low@,
            exact ==> forall|k: int| 0 <= k < i ==> #[trigger] has_exact_word(lower_of(text@), wv[k]),
            !exact ==> forall|k: int| 0 <= k < i ==> #[trigger] contains_seq(lower_of(text@), wv[k]),
        decreases ws@.len() - i,
    {
        let ok = if exact {
            is_exact_word_match(low.as_str(), ws[i].as_str())
        } else {
            let w = char_vec(ws[i].as_str());
            contains_chars(&low_chars, &w)
        };
        if !ok {
            assert(wv[i as int] == ws@[i as int]@);
            return false;
        }
        i += 1;
    }
    true
}

/// Whether some keyword matches every word of `ws`.
fn any_keyword_matches(keywords: &Vec<String>, ws: &Vec<String>, exact: bool) -> (r: bool)
    ensures
        exact ==> r == exists|k: int| 0 <= k < keywords@.len()
            && #[trigger] all_exact(keywords@[k]@, views(ws@)),
        !exact ==> r == exists|k: int| 0 <= k < keywords@.len()
            && #[trigger] all_contained(keywords@[k]@, views(ws@)),
{
    let ghost wv = views(ws@);
    let mut i: usize = 0;
    while i < keywords.len()
        invariant
            i <= keywords@.len(),
            wv == views(ws@),
            exact ==> forall|k: int| 0 <= k < i ==> !#[trigger] all_exact(keywords@[k]@, wv),
            !exact ==> forall|k: int| 0 <= k < i ==> !#[trigger] all_contained(keywords@[k]@, wv),
        decreases keywords@.len() - i,
    {
        if all_words_match(keywords[i].as_str(), ws, exact) {
            return true;
        }
        i += 1;
    }
    false
}

/// Whether `e` matches at `tier`, given the query's lower-cased form and
/// lower-cased words.
fn matches_tier(tier: usize, e: &EmojiRecord, q: &str, lower_q: &String, ws: &Vec<String>) -> (r: bool)
    requires
        tier < TIER_COUNT,
        lower_q@ == lower_of(q@),
        views(ws@) == query_words(q@),
    ensures
        r == tier_matches(tier as int, *e, q@),
{
    if tier == 0 {
        let n = lowercase(e.name.as_str());
        n == *lower_q
    } else if tier == 1 {
        all_words_match(e.name.as_str(), ws, true)
    } else if tier == 2 {
        any_keyword_matches(&e.keywords, ws, true)
    } else if tier == 3 {
        all_words_match(e.name.as_str(), ws, false)
    } else if tier == 4 {
        any_keyword_matches(&e.keywords, ws, false)
    } else {
        match &e.definition {
            Some(d) => all_words_match(d.as_str(), ws, false),
            None => false,
        }
    }
}

/// Resolves `search_term` against the catalog `emojis`: tier by tier, and in
/// catalog order within a tier, each matching record whose character has not
/// been emitted yet, until `num_results` characters are collected.
pub fn search<'a>(emojis: &'a [EmojiRecord], search_term: &str, num_results: usize) -> (r: Vec<
    (char, &'a EmojiRecord),
>)
    requires
        num_results >= 1,
    ensures
        r@.len() == search_result(emojis@, search_term@, num_results as nat).len(),
        forall|k: int|
            0 <= k < r@.len() ==> {
                let (c, i) = #[trigger] search_result(emojis@, search_term@, num_results as nat)[k];
                &&& r@[k].0 as u32 == c
                &&& 0 <= i < emojis@.len()
                &&& *r@[k].1 == emojis@[i]
            },
        r@.len() <= num_results,
        forall|a: int, b: int| 0 <= a < b < r@.len() ==> r@[a].0 != r@[b].0,
{
    let ghost cat = emojis@;
    let ghost q = search_term@;
    let lower_q = lowercase(search_term);
    let ws = query_word_list(search_term);
    assert(views(ws@) =~= query_words(q));
    let mut results: Vec<(char, &'a EmojiRecord)> = Vec::new();
    let ghost mut model: Seq<(u32, int)> = Seq::empty();
    let n = emojis.len();
    let mut tier: usize = 0;
    while tier < TIER_COUNT
        invariant
            tier <= TIER_COUNT,
            n == cat.len(),
            cat == emojis@,
            q == search_term@,
            num_results >= 1,
            lower_q@ == lower_of(q),
            views(ws@) == query_words(q),
            model == first_seen(hits_below(cat, q, tier as int)),
            results@.len() == model.len(),
            results@.len() < num_results,
            forall|k: int| 0 <= k < model.len() ==> {
                &&& results@[k].0 as u32 == (#[trigger] model[k]).0
                &&& 0 <= model[k].1 < cat.len()
                &&& *results@[k].1 == cat[model[k].1]
            },
        decreases TIER_COUNT - tier,
    {
        let mut i: usize = 0;
        while i < n
            invariant
                tier < TIER_COUNT,
                i <= n,
                n == cat.len(),
                cat == emojis@,
                q == search_term@,
                num_results >= 1,
                lower_q@ == lower_of(q),
                views(ws@) == query_words(q),
                model == first_seen(hits_below(cat, q, tier as int) + tier_hits(cat, q, tier as int, i as int)),
                results@.len() == model.len(),
                results@.len() < num_results,
                forall|k: int| 0 <= k < model.len() ==> {
                    &&& results@[k].0 as u32 == (#[trigger] model[k]).0
                    &&& 0 <= model[k].1 < cat.len()
                    &&& *results@[k].1 == cat[model[k].1]
                },
            decreases n - i,
        {
            let ghost before = hits_below(cat, q, tier as int) + tier_hits(cat, q, tier as int, i as int);
            let ghost after = hits_below(cat, q, tier as int) + tier_hits(cat, q, tier as int, i as int + 1);
            assert(after =~= before + hit(cat, q, tier as int, i as int));
            let e = &emojis[i];
            if matches_tier(tier, e, search_term, &lower_q, &ws) {
                match to_char(e) {
                    Ok(c) => {
                        assert(after =~= before.push((c as u32, i as int)));
                        assert(after.drop_last() =~= before);
                        let mut seen = false;
                        let mut k: usize = 0;
                        while k < results.len()
                            invariant
                                k <= results@.len(),
                                results@.len() == model.len(),
                                forall|j: int| 0 <= j < model.len() ==> results@[j].0 as u32 == (#[trigger] model[j]).0,
                                seen == exists|j: int| 0 <= j < k && (#[trigger] results@[j]).0 == c,
                            decreases results@.len() - k,
                        {
                            if results[k].0 == c {
                                seen = true;
                            }
                            k += 1;
                        }
                        proof {
                            if has_code(model, c as u32) {
                                let j = choose|j: int| 0 <= j < model.len() && (#[trigger] model[j]).0 == c as u32;
                                lemma_code_injective(results@[j].0, c);
                                assert(results@[j].0 == c);
                            }
                            if seen {
                                let j = choose|j: int| 0 <= j < k && (#[trigger] results@[j]).0 == c;
                                assert(model[j].0 == c as u32);
                            }
                            assert(seen == has_code(model, c as u32));
                        }
                        if !seen {
                            results.push((c, e));
                            proof {
                                model = model.push((c as u32, i as int));
                            }
                            if results.len() >= num_results {
                                proof {
                                    lemma_prefix_of_candidates(cat, q, tier as int, i as int + 1);
                                    lemma_first_seen_prefix(after, candidates(cat, q));
                                    lemma_result_is_model(cat, q, num_results as nat, model);
                                    lemma_distinct_chars(results@, model);
                                }
                                return results;
                            }
                        }
                    },
                    Err(_) => {
                        assert(after =~= before);
                    },
                }
            } else {
                assert(after =~= before);
            }
            i += 1;
        }
        assert(hits_below(cat, q, tier as int + 1) =~= hits_below(cat, q, tier as int) + tier_hits(cat, q, tier as int, n as int));
        tier += 1;
    }
    proof {
        lemma_first_seen_prefix(model, model);
        lemma_result_is_model(cat, q, num_results as nat, model);
        lemma_distinct_chars(results@, model);
    }
    results
}

/// `idx` once for each word of `ws` whose lower-cased form is `w`.
pub open spec fn word_hits(ws: Seq<Seq<char>>, w: Seq<char>, idx: usize) -> Seq<usize>
    decreases ws.len(),
{
    if ws.len() == 0 {
        Seq::empty()
    } else {
        word_hits(ws.drop_last(), w, idx) + if lower_of(ws.last()) == w {
            seq![idx]
        } else {
            Seq::empty()
        }
    }
}

/// The indexes, among the first `n` records, at which `w` is a lower-cased
/// word of the name, once per occurrence.
pub open spec fn name_postings(cat: Seq<EmojiRecord>, w: Seq<char>, n: int) -> Seq<usize>
    decreases n,
{
    if n <= 0 {
        Seq::empty()
    } else {
        name_postings(cat, w, n - 1) + word_hits(words(cat[n - 1].name@), w, (n - 1) as usize)
    }
}

/// The same over the first `m` keywords of one record.
pub open spec fn keyword_hits(kws: Seq<String>, w: Seq<char>, idx: usize, m: int) -> Seq<usize>
    decreases m,
{
    if m <= 0 {
        Seq::empty()
    } else {
        keyword_hits(kws, w, idx, m - 1) + word_hits(words(kws[m - 1]@), w, idx)
    }
}

/// The indexes, among the first `n` records, at which `w` is a lower-cased
/// word of a keyword, once per occurrence.
pub open spec fn keyword_postings(cat: Seq<EmojiRecord>, w: Seq<char>, n: int) -> Seq<usize>
    decreases n,
{
    if n <= 0 {
        Seq::empty()
    } else {
        keyword_postings(cat, w, n - 1) + keyword_hits(cat[n - 1].keywords@, w, (n - 1) as usize, cat[n - 1].keywords@.len() as int)
    }
}

/// Word → record-index lists, kept as parallel vectors of distinct words and
/// their postings.
pub struct WordPostings {
    keys: Vec<String>,
    lists: Vec<Vec<usize>>,
}

impl WordPostings {
    pub closed spec fn wf(&self) -> bool {
        &&& self.keys@.len() == self.lists@.len()
        &&& forall|a: int, b: int| 0 <= a < b < self.keys@.len() ==> self.keys@[a]@ != self.keys@[b]@
    }

    /// The record indexes listed for `w`.
    pub closed spec fn get(&self, w: Seq<char>) -> Seq<usize> {
        if exists|k: int| 0 <= k < self.keys@.len() && #[trigger] self.keys@[k]@ == w {
            self.lists@[choose|k: int| 0 <= k < self.keys@.len() && #[trigger] self.keys@[k]@ == w]@
        } else {
            Seq::empty()
        }
    }

    fn new() -> (r: Self)
        ensures
            r.wf(),
            forall|w: Seq<char>| #[trigger] r.get(w) == Seq::<usize>::empty(),
    {
        WordPostings { keys: Vec::new(), lists: Vec::new() }
    }

    /// Appends `idx` to the list of `word`.
    fn add(&mut self, word: String, idx: usize)
        requires
            old(self).wf(),
        ensures
            final(self).wf(),
            final(self).get(word@) == old(self).get(word@).push(idx),
            forall|w: Seq<char>| w != word@ ==> #[trigger] final(self).get(w) == old(self).get(w),
    {
        let mut k: usize = 0;
        while k < self.keys.len()
            invariant
                self.wf(),
                *self == *old(self),
                k <= self.keys@.len(),
                forall|j: int| 0 <= j < k ==> self.keys@[j]@ != word@,
            decreases self.keys@.len() - k,
        {
            if same_text(self.keys[k].as_str(), word.as_str()) {
                let ghost before = *self;
                self.lists[k].push(idx);
                proof {
                    assert(self.keys@ == before.keys@);
                    assert forall|w: Seq<char>| w != word@ implies #[trigger] self.get(w) == before.get(w) by {
                        if exists|j: int| 0 <= j < self.keys@.len() && #[trigger] self.keys@[j]@ == w {
                            let j = choose|j: int| 0 <= j < self.keys@.len() && #[trigger] self.keys@[j]@ == w;
                            assert(j != k);
                            assert(self.lists@[j] == before.lists@[j]);
                        }
                    }
                    assert(self.keys@[k as int]@ == word@);
                }
                return;
            }
            k += 1;
        }
        let ghost before = *self;
        let ghost wv = word@;
        self.keys.push(word);
        self.lists.push(vec![idx]);
        proof {
            assert forall|a: int, b: int| 0 <= a < b < self.keys@.len() implies self.keys@[a]@ != self.keys@[b]@ by {
                if b == self.keys@.len() - 1 {
                    assert(before.keys@[a]@ != wv);
                } else {
                    assert(self.keys@[a] == before.keys@[a] && self.keys@[b] == before.keys@[b]);
                }
            }
            assert(self.keys@[self.keys@.len() - 1]@ == wv);
            assert(self.lists@[self.keys@.len() - 1]@ =~= seq![idx]);
            assert(!exists|j: int| 0 <= j < before.keys@.len() && #[trigger] before.keys@[j]@ == wv);
            assert(before.get(wv) == Seq::<usize>::empty());
            assert(Seq::<usize>::empty().push(idx) =~= seq![idx]);
            assert forall|w: Seq<char>| w != wv implies #[trigger] self.get(w) == before.get(w) by {
                if exists|j: int| 0 <= j < self.keys@.len() && #[trigger] self.keys@[j]@ == w {
                    let j = choose|j: int| 0 <= j < self.keys@.len() && #[trigger] self.keys@[j]@ == w;
                    assert(j < before.keys@.len());
                    assert(before.keys@[j]@ == w);
                    assert(self.lists@[j] == before.lists@[j]);
                } else {
                    if exists|j: int| 0 <= j < before.keys@.len() && #[trigger] before.keys@[j]@ == w {
                        let j = choose|j: int| 0 <= j < before.keys@.len() && #[trigger] before.keys@[j]@ == w;
                        assert(self.keys@[j]@ == w);
                    }
                }
            }
        }
    }

    /// Appends `idx` once for each word of `text` under its lower-cased form.
    fn add_words(&mut self, text: &str, idx: usize)
        requires
            old(self).wf(),
        ensures
            final(self).wf(),
            forall|w: Seq<char>| #[trigger] final(self).get(w) == old(self).get(w) + word_hits(words(text@), w, idx),
    {
        let ws = split_words(text);
        let ghost all = words(text@);
        let mut j: usize = 0;
        while j < ws.len()
            invariant
                self.wf(),
                j <= ws@.len(),
                ws@.len() == all.len(),
                all == words(text@),
                forall|k: int| 0 <= k < ws@.len() ==> #[trigger] ws@[k]@ == all[k],
                forall|w: Seq<char>| #[trigger] self.get(w) == old(self).get(w) + word_hits(all.take(j as int), w, idx),
            decreases ws@.len() - j,
        {
            let low = lowercase(ws[j].as_str());
            let ghost before = *self;
            let ghost lw = low@;
            self.add(low, idx);
            proof {
                assert(all.take(j + 1).drop_last() =~= all.take(j as int));
                assert(all.take(j + 1).last() == all[j as int]);
                assert forall|w: Seq<char>| #[trigger] self.get(w) == old(self).get(w) + word_hits(all.take(j + 1), w, idx) by {
                    assert(before.get(w) == old(self).get(w) + word_hits(all.take(j as int), w, idx));
                    if w == lw {
                        assert(self.get(w) =~= old(self).get(w) + word_hits(all.take(j + 1), w, idx));
                    } else {
                        assert(word_hits(all.take(j + 1), w, idx) =~= word_hits(all.take(j as int), w, idx));
                    }
                }
            }
            j += 1;
        }
        assert(all.take(j as int) =~= all);
    }

    /// The record indexes listed for `word`.
    fn lookup(&self, word: &str) -> (r: Vec<usize>)
        requires
            self.wf(),
        ensures
            r@ == self.get(word@),
    {
        let mut k: usize = 0;
        while k < self.keys.len()
            invariant
                self.wf(),
                k <= self.keys@.len(),
                forall|j: int| 0 <= j < k ==> self.keys@[j]@ != word@,
            decreases self.keys@.len() - k,
        {
            if same_text(self.keys[k].as_str(), word) {
                assert(self.keys@[k as int]@ == word@);
                return self.lists[k].clone();
            }
            k += 1;
        }
        Vec::new()
    }
}

/// An inverted index from lower-cased words to the records whose name, or
/// whose keywords, hold them.
pub struct SearchIndex {
    name_index: WordPostings,
    keyword_index: WordPostings,
}

impl SearchIndex {
    /// The record indexes whose name holds `w`.
    pub closed spec fn names(&self, w: Seq<char>) -> Seq<usize> {
        self.name_index.get(w)
    }

    /// The record indexes whose keywords hold `w`.
    pub closed spec fn keywords(&self, w: Seq<char>) -> Seq<usize> {
        self.keyword_index.get(w)
    }

    #[verifier::type_invariant]
    spec fn inv(&self) -> bool {
        self.name_index.wf() && self.keyword_index.wf()
    }

    /// Indexes every whitespace-separated word of each record's name and
    /// keywords, lower-cased, in catalog order.
    pub fn build(emojis: &[EmojiRecord]) -> (r: Self)
        ensures
            forall|w: Seq<char>| #[trigger] r.names(w) == name_postings(emojis@, w, emojis@.len() as int),
            forall|w: Seq<char>| #[trigger] r.keywords(w) == keyword_postings(emojis@, w, emojis@.len() as int),
    {
        let mut names = WordPostings::new();
        let mut keys = WordPostings::new();
        let mut i: usize = 0;
        while i < emojis.len()
            invariant
                i <= emojis@.len(),
                names.wf(),
                keys.wf(),
                forall|w: Seq<char>| #[trigger] names.get(w) == name_postings(emojis@, w, i as int),
                forall|w: Seq<char>| #[trigger] keys.get(w) == keyword_postings(emojis@, w, i as int),
            decreases emojis@.len() - i,
        {
            let e = &emojis[i];
            names.add_words(e.name.as_str(), i);
            let ghost k0 = keys;
            let mut m: usize = 0;
            while m < e.keywords.len()
                invariant
                    i < emojis@.len(),
                    *e == emojis@[i as int],
                    m <= e.keywords@.len(),
                    keys.wf(),
                    forall|w: Seq<char>| #[trigger] keys.get(w) == k0.get(w) + keyword_hits(e.keywords@, w, i, m as int),
                decreases e.keywords@.len() - m,
            {
                let ghost before = keys;
                keys.add_words(e.keywords[m].as_str(), i);
                proof {
                    assert forall|w: Seq<char>| #[trigger] keys.get(w) == k0.get(w) + keyword_hits(e.keywords@, w, i, m + 1) by {
                        assert(before.get(w) == k0.get(w) + keyword_hits(e.keywords@, w, i, m as int));
                        assert(keys.get(w) =~= k0.get(w) + keyword_hits(e.keywords@, w, i, m + 1));
                    }
                }
                m += 1;
            }
            proof {
                assert forall|w: Seq<char>| #[trigger] keys.get(w) == keyword_postings(emojis@, w, i + 1) by {
                    assert(k0.get(w) == keyword_postings(emojis@, w, i as int));
                }
            }
            i += 1;
        }
        SearchIndex { name_index: names, keyword_index: keys }
    }

    /// The records whose name holds the lower-cased word `word`.
    pub fn name_matches(&self, word: &str) -> (r: Vec<usize>)
        ensures
            r@ == self.names(word@),
    {
        proof {
            use_type_invariant(self);
        }
        self.name_index.lookup(word)
    }

    /// The records whose keywords hold the lower-cased word `word`.
    pub fn keyword_matches(&self, word: &str) -> (r: Vec<usize>)
        ensures
            r@ == self.keywords(word@),
    {
        proof {
            use_type_invariant(self);
        }
        self.keyword_index.lookup(word)
    }
}

/// The word index of a catalog, built once at start-up by the caller.
pub fn get_search_index(emojis: &[EmojiRecord]) -> (r: SearchIndex)
    ensures
        forall|w: Seq<char>| #[trigger] r.names(w) == name_postings(emojis@, w, emojis@.len() as int),
        forall|w: Seq<char>| #[trigger] r.keywords(w) == keyword_postings(emojis@, w, emojis@.len() as int),
{
    SearchIndex::build(emojis)
}

/// A search yields at most `limit` results, no two with the same character.
pub proof fn lemma_search_bounded_distinct(cat: Seq<EmojiRecord>, q: Seq<char>, limit: nat)
    ensures
        search_result(cat, q, limit).len() <= limit,
        forall|a: int, b: int|
            0 <= a < b < search_result(cat, q, limit).len() ==> search_result(cat, q, limit)[a].0
                != search_result(cat, q, limit)[b].0,
{
    let f = first_seen(candidates(cat, q));
    let r = search_result(cat, q, limit);
    lemma_first_seen_distinct(candidates(cat, q));
    assert forall|a: int, b: int| 0 <= a < b < r.len() implies r[a].0 != r[b].0 by {
        assert(r[a] == f[a] && r[b] == f[b]);
    }
}

/// A record whose name, case-folded, equals the whole query comes before
/// every record whose name does not: the tiers are a strict priority.
pub proof fn lemma_exact_name_first(cat: Seq<EmojiRecord>, q: Seq<char>, limit: nat)
    ensures
        forall|a: int, b: int|
            0 <= a < search_result(cat, q, limit).len() && 0 <= b < search_result(cat, q, limit).len()
                && tier_matches(0, cat[search_result(cat, q, limit)[a].1], q)
                && !tier_matches(0, cat[search_result(cat, q, limit)[b].1], q) ==> a < b,
{
    let r = search_result(cat, q, limit);
    let c = candidates(cat, q);
    let f = first_seen(c);
    let n = cat.len() as int;
    let block = tier_hits(cat, q, 0, n);
    assert(hits_below(cat, q, 0) =~= Seq::<(u32, int)>::empty());
    assert(hits_below(cat, q, 1) =~= block);
    lemma_hits_below_prefix(cat, q, 1, TIER_COUNT as int);
    lemma_first_seen_prefix(block, c);
    let d0 = first_seen(block);
    lemma_first_seen_distinct(c);
    lemma_first_seen_from(c);
    lemma_candidates_decode(cat, q, TIER_COUNT as int);
    lemma_first_seen_from(block);
    lemma_first_seen_covers(block);
    lemma_tier_hits_members(cat, q, 0, n);
    assert forall|a: int, b: int|
        0 <= a < r.len() && 0 <= b < r.len() && tier_matches(0, cat[r[a].1], q)
            && !tier_matches(0, cat[r[b].1], q) implies a < b by {
        assert(r[a] == f[a] && r[b] == f[b]);
        let p = choose|p: int| 0 <= p < c.len() && c[p] == #[trigger] f[a];
        let ia = f[a].1;
        assert(0 <= ia < n && decoded_code(cat[ia].unicode@) == Some(f[a].0));
        let pb = choose|p: int| 0 <= p < block.len() && #[trigger] block[p] == (f[a].0, ia);
        let k = choose|k: int| 0 <= k < d0.len() && (#[trigger] d0[k]).0 == block[pb].0;
        assert(d0[k] == f[k]);
        if b < a {
            assert(d0[b] == f[b]);
            let pb2 = choose|p: int| 0 <= p < block.len() && block[p] == #[trigger] d0[b];
        }
    }
}

/// Each search result names a catalog record and that record's code point.
pub proof fn lemma_search_result_decodes(cat: Seq<EmojiRecord>, q: Seq<char>, limit: nat)
    ensures
        forall|k: int| 0 <= k < search_result(cat, q, limit).len() ==> {
            let e = #[trigger] search_result(cat, q, limit)[k];
            &&& 0 <= e.1 < cat.len()
            &&& decoded_code(cat[e.1].unicode@) == Some(e.0)
        },
{
    let c = candidates(cat, q);
    let f = first_seen(c);
    let r = search_result(cat, q, limit);
    lemma_first_seen_from(c);
    lemma_candidates_decode(cat, q, TIER_COUNT as int);
    assert forall|k: int| 0 <= k < r.len() implies {
        let e = #[trigger] r[k];
        &&& 0 <= e.1 < cat.len()
        &&& decoded_code(cat[e.1].unicode@) == Some(e.0)
    } by {
        assert(r[k] == f[k]);
        let p = choose|p: int| 0 <= p < c.len() && c[p] == #[trigger] f[k];
    }
}

/// When a decodable record's name, case-folded, equals the whole query, its
/// character is in the result ahead of every record whose name does not.
pub proof fn lemma_exact_name_char_first(cat: Seq<EmojiRecord>, q: Seq<char>, limit: nat, ri: int)
    requires
        0 <= ri < cat.len(),
        tier_matches(0, cat[ri], q),
        decoded_code(cat[ri].unicode@) is Some,
    ensures
        forall|j: int|
            0 <= j < search_result(cat, q, limit).len() && !tier_matches(0, cat[#[trigger] search_result(cat, q, limit)[j].1], q)
                ==> exists|i: int| 0 <= i < j && search_result(cat, q, limit)[i].0 == decoded_code(cat[ri].unicode@)->0,
{
    let r = search_result(cat, q, limit);
    let c = candidates(cat, q);
    let f = first_seen(c);
    let n = cat.len() as int;
    let code = decoded_code(cat[ri].unicode@)->0;
    let block = tier_hits(cat, q, 0, n);
    assert(hits_below(cat, q, 0) =~= Seq::<(u32, int)>::empty());
    assert(hits_below(cat, q, 1) =~= block);
    lemma_hits_below_prefix(cat, q, 1, TIER_COUNT as int);
    lemma_first_seen_prefix(block, c);
    let d0 = first_seen(block);
    lemma_first_seen_from(block);
    lemma_first_seen_covers(block);
    lemma_tier_hits_members(cat, q, 0, n);
    let pb = choose|p: int| 0 <= p < block.len() && #[trigger] block[p] == (code, ri);
    assert(has_code(d0, block[pb].0));
    let k = choose|k: int| 0 <= k < d0.len() && (#[trigger] d0[k]).0 == block[pb].0;
    assert forall|j: int|
        0 <= j < r.len() && !tier_matches(0, cat[#[trigger] r[j].1], q)
            implies exists|i: int| 0 <= i < j && r[i].0 == code by {
        assert(r[j] == f[j]);
        if j < d0.len() {
            assert(d0[j] == f[j]);
            let p = choose|p: int| 0 <= p < block.len() && block[p] == #[trigger] d0[j];
        }
        assert(k < j);
        assert(r[k] == f[k] && d0[k] == f[k]);
    }
}

/// Every first occurrence is an entry of the sequence.
proof fn lemma_first_seen_from(s: Seq<(u32, int)>)
    ensures
        forall|k: int| 0 <= k < first_seen(s).len() ==> exists|p: int| 0 <= p < s.len() && s[p] == #[trigger] first_seen(s)[k],
    decreases s.len(),
{
    if s.len() > 0 {
        let s0 = s.drop_last();
        lemma_first_seen_from(s0);
        let f = first_seen(s);
        let d = first_seen(s0);
        assert forall|k: int| 0 <= k < f.len() implies exists|p: int| 0 <= p < s.len() && s[p] == #[trigger] f[k] by {
            if k < d.len() {
                assert(f[k] == d[k]);
                let p = choose|p: int| 0 <= p < s0.len() && s0[p] == #[trigger] d[k];
                assert(s[p] == s0[p]);
            } else {
                assert(s[s.len() - 1] == f[k]);
            }
        }
    }
}

/// Every code point of the sequence has a first occurrence.
proof fn lemma_first_seen_covers(s: Seq<(u32, int)>)
    ensures
        forall|p: int| 0 <= p < s.len() ==> has_code(first_seen(s), #[trigger] s[p].0),
    decreases s.len(),
{
    if s.len() > 0 {
        let s0 = s.drop_last();
        lemma_first_seen_covers(s0);
        let f = first_seen(s);
        let d = first_seen(s0);
        assert forall|p: int| 0 <= p < s.len() implies has_code(f, #[trigger] s[p].0) by {
            if p < s0.len() {
                assert(s[p] == s0[p]);
                assert(has_code(d, s0[p].0));
                let k = choose|k: int| 0 <= k < d.len() && (#[trigger] d[k]).0 == s0[p].0;
                assert(f[k] == d[k]);
            } else if !has_code(d, s.last().0) {
                assert(f[f.len() - 1] == s.last());
            }
        }
    }
}

/// Entries of the tier-`tier` candidates among the first `m` records are
/// exactly the matching, decodable records.
proof fn lemma_tier_hits_members(cat: Seq<EmojiRecord>, q: Seq<char>, tier: int, m: int)
    requires
        0 <= m <= cat.len(),
    ensures
        forall|p: int| 0 <= p < tier_hits(cat, q, tier, m).len() ==> {
            let e = #[trigger] tier_hits(cat, q, tier, m)[p];
            &&& 0 <= e.1 < m
            &&& tier_matches(tier, cat[e.1], q)
            &&& decoded_code(cat[e.1].unicode@) == Some(e.0)
        },
        forall|i: int| 0 <= i < m && tier_matches(tier, cat[i], q) && #[trigger] decoded_code(cat[i].unicode@) is Some
            ==> exists|p: int| 0 <= p < tier_hits(cat, q, tier, m).len()
                && #[trigger] tier_hits(cat, q, tier, m)[p] == (decoded_code(cat[i].unicode@)->0, i),
    decreases m,
{
    if m > 0 {
        lemma_tier_hits_members(cat, q, tier, m - 1);
        let t0 = tier_hits(cat, q, tier, m - 1);
        let t = tier_hits(cat, q, tier, m);
        let h = hit(cat, q, tier, m - 1);
        assert(t == t0 + h);
        assert forall|p: int| 0 <= p < t.len() implies {
            let e = #[trigger] t[p];
            &&& 0 <= e.1 < m
            &&& tier_matches(tier, cat[e.1], q)
            &&& decoded_code(cat[e.1].unicode@) == Some(e.0)
        } by {
            if p < t0.len() {
                assert(t[p] == t0[p]);
            }
        }
        assert forall|i: int| 0 <= i < m && tier_matches(tier, cat[i], q) && #[trigger] decoded_code(cat[i].unicode@) is Some
            implies exists|p: int| 0 <= p < t.len() && #[trigger] t[p] == (decoded_code(cat[i].unicode@)->0, i) by {
            if i < m - 1 {
                let p = choose|p: int| 0 <= p < t0.len() && #[trigger] t0[p] == (decoded_code(cat[i].unicode@)->0, i);
                assert(t[p] == t0[p]);
            } else {
                assert(t[t0.len() as int] == h[0]);
            }
        }
    }
}

/// Every candidate names a catalog record and that record's code point.
proof fn lemma_candidates_decode(cat: Seq<EmojiRecord>, q: Seq<char>, tier: int)
    requires
        0 <= tier,
    ensures
        forall|p: int| 0 <= p < hits_below(cat, q, tier).len() ==> {
            let e = #[trigger] hits_below(cat, q, tier)[p];
            &&& 0 <= e.1 < cat.len()
            &&& decoded_code(cat[e.1].unicode@) == Some(e.0)
        },
    decreases tier,
{
    if tier > 0 {
        lemma_candidates_decode(cat, q, tier - 1);
        lemma_tier_hits_members(cat, q, tier - 1, cat.len() as int);
        let a = hits_below(cat, q, tier - 1);
        let b = tier_hits(cat, q, tier - 1, cat.len() as int);
        assert forall|p: int| 0 <= p < hits_below(cat, q, tier).len() implies {
            let e = #[trigger] hits_below(cat, q, tier)[p];
            &&& 0 <= e.1 < cat.len()
            &&& decoded_code(cat[e.1].unicode@) == Some(e.0)
        } by {
            if p < a.len() {
                assert(hits_below(cat, q, tier)[p] == a[p]);
            } else {
                assert(hits_below(cat, q, tier)[p] == b[p - a.len()]);
            }
        }
    }
}

/// Characters with the same code point are the same character.
pub proof fn lemma_code_injective(a: char, b: char)
    requires
        a as u32 == b as u32,
    ensures
        a == b,
{
}

/// Distinct code points are distinct characters.
proof fn lemma_distinct_chars<T>(r: Seq<(char, T)>, model: Seq<(u32, int)>)
    requires
        r.len() == model.len(),
        forall|k: int| 0 <= k < model.len() ==> r[k].0 as u32 == (#[trigger] model[k]).0,
        forall|a: int, b: int| 0 <= a < b < model.len() ==> model[a].0 != model[b].0,
    ensures
        forall|a: int, b: int| 0 <= a < b < r.len() ==> r[a].0 != r[b].0,
{
    assert forall|a: int, b: int| 0 <= a < b < r.len() implies r[a].0 != r[b].0 by {
        assert(r[a].0 as u32 == model[a].0);
        assert(r[b].0 as u32 == model[b].0);
    }
}

/// A run of first occurrences that is complete, or that has reached the
/// limit, is the search result.
proof fn lemma_result_is_model(cat: Seq<EmojiRecord>, q: Seq<char>, limit: nat, model: Seq<(u32, int)>)
    requires
        model.is_prefix_of(first_seen(candidates(cat, q))),
        model.len() == limit || model == first_seen(candidates(cat, q)),
        model.len() <= limit,
    ensures
        search_result(cat, q, limit) == model,
        forall|a: int, b: int| 0 <= a < b < model.len() ==> model[a].0 != model[b].0,
{
    let f = first_seen(candidates(cat, q));
    lemma_first_seen_distinct(candidates(cat, q));
    if model.len() == limit {
        assert(search_result(cat, q, limit) =~= model);
    }
    assert forall|a: int, b: int| 0 <= a < b < model.len() implies model[a].0 != model[b].0 by {
        assert(model[a] == f[a] && model[b] == f[b]);
    }
}

/// No code point occurs twice among first occurrences.
pub proof fn lemma_first_seen_distinct(s: Seq<(u32, int)>)
    ensures
        forall|a: int, b: int|
            0 <= a < b < first_seen(s).len() ==> (#[trigger] first_seen(s)[a]).0 != (#[trigger] first_seen(s)[b]).0,
    decreases s.len(),
{
    if s.len() > 0 {
        lemma_first_seen_distinct(s.drop_last());
        let d = first_seen(s.drop_last());
        if !has_code(d, s.last().0) {
            let f = first_seen(s);
            assert forall|a: int, b: int| 0 <= a < b < f.len() implies (#[trigger] f[a]).0 != (#[trigger] f[b]).0 by {
                if b == f.len() - 1 {
                    assert(f[a] == d[a]);
                } else {
                    assert(f[a] == d[a] && f[b] == d[b]);
                }
            }
        }
    }
}

/// The candidates met up to record `i` of `tier` come first among all
/// candidates.
proof fn lemma_prefix_of_candidates(cat: Seq<EmojiRecord>, q: Seq<char>, tier: int, i: int)
    requires
        0 <= tier < TIER_COUNT,
        0 <= i <= cat.len(),
    ensures
        (hits_below(cat, q, tier) + tier_hits(cat, q, tier, i)).is_prefix_of(candidates(cat, q)),
{
    let a = hits_below(cat, q, tier);
    lemma_tier_hits_prefix(cat, q, tier, i, cat.len() as int);
    let t1 = tier_hits(cat, q, tier, i);
    let t2 = tier_hits(cat, q, tier, cat.len() as int);
    assert(hits_below(cat, q, tier + 1) == a + t2);
    lemma_hits_below_prefix(cat, q, tier + 1, TIER_COUNT as int);
    let c = candidates(cat, q);
    assert forall|k: int| 0 <= k < (a + t1).len() implies #[trigger] (a + t1)[k] == c[k] by {
        assert((a + t1)[k] == (a + t2)[k]);
    }
    assert((a + t1) =~= c.subrange(0, (a + t1).len() as int));
}

proof fn lemma_tier_hits_prefix(cat: Seq<EmojiRecord>, q: Seq<char>, tier: int, i: int, m: int)
    requires
        0 <= i <= m,
    ensures
        tier_hits(cat, q, tier, i).is_prefix_of(tier_hits(cat, q, tier, m)),
    decreases m - i,
{
    if i < m {
        lemma_tier_hits_prefix(cat, q, tier, i, m - 1);
        let a = tier_hits(cat, q, tier, i);
        let b = tier_hits(cat, q, tier, m - 1);
        let c = tier_hits(cat, q, tier, m);
        assert(c == b + hit(cat, q, tier, m - 1));
        assert(a =~= c.subrange(0, a.len() as int)) by {
            assert forall|k: int| 0 <= k < a.len() implies a[k] == c[k] by {
                assert(a[k] == b[k]);
            }
        }
    } else {
        assert(tier_hits(cat, q, tier, i) =~= tier_hits(cat, q, tier, m).subrange(0, tier_hits(cat, q, tier, i).len() as int));
    }
}

proof fn lemma_hits_below_prefix(cat: Seq<EmojiRecord>, q: Seq<char>, t: int, u: int)
    requires
        0 <= t <= u,
    ensures
        hits_below(cat, q, t).is_prefix_of(hits_below(cat, q, u)),
    decreases u - t,
{
    if t < u {
        lemma_hits_below_prefix(cat, q, t, u - 1);
        let a = hits_below(cat, q, t);
        let b = hits_below(cat, q, u - 1);
        let c = hits_below(cat, q, u);
        assert(c == b + tier_hits(cat, q, u - 1, cat.len() as int));
        assert(a =~= c.subrange(0, a.len() as int)) by {
            assert forall|k: int| 0 <= k < a.len() implies a[k] == c[k] by {
                assert(a[k] == b[k]);
            }
        }
    } else {
        assert(hits_below(cat, q, t) =~= hits_below(cat, q, u).subrange(0, hits_below(cat, q, t).len() as int));
    }
}

/// Dropping later entries keeps the earlier first occurrences.
proof fn lemma_first_seen_prefix(a: Seq<(u32, int)>, b: Seq<(u32, int)>)
    requires
        a.is_prefix_of(b),
    ensures
        first_seen(a).is_prefix_of(first_seen(b)),
    decreases b.len(),
{
    if a.len() == b.len() {
        assert(a =~= b);
        assert(first_seen(a) =~= first_seen(b).subrange(0, first_seen(a).len() as int));
    } else {
        let b0 = b.drop_last();
        assert(a.is_prefix_of(b0)) by {
            assert(a =~= b0.subrange(0, a.len() as int));
        }
        lemma_first_seen_prefix(a, b0);
        let fa = first_seen(a);
        let f0 = first_seen(b0);
        let fb = first_seen(b);
        assert(fb.len() >= f0.len());
        assert(fa =~= fb.subrange(0, fa.len() as int)) by {
            assert forall|k: int| 0 <= k < fa.len() implies fa[k] == fb[k] by {
                assert(fa[k] == f0[k]);
            }
        }
    }
}

} // verus!
