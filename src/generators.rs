//! One-emoji generators behind a common trait.
use vstd::prelude::*;
use crate::catalog::{load_emojis, is_single, is_bundled, singles};
use crate::error::EmoError;
use crate::memo::{EmojiMappings, memo_of};
use crate::record::EmojiRecord;
use crate::search::{search, search_result};
use crate::text::string_of;

verus! {

/// Produces one emoji, as a string, for an input phrase.
pub trait EmojiGenerator {
    fn generate(&self, input: &str) -> Result<String, EmoError>;
}

/// Answers with the best lexical match from the catalog.
pub struct SearchGenerator {
    catalog: Vec<EmojiRecord>,
}

impl SearchGenerator {
    /// The catalog searched.
    pub closed spec fn records(&self) -> Seq<EmojiRecord> {
        self.catalog@
    }

    /// A generator over the bundled catalog.
    pub fn new() -> (r: Self)
        ensures
            exists|b: Seq<EmojiRecord>| is_bundled(b) && r.records() == singles(b),
            forall|k: int| 0 <= k < r.records().len() ==> is_single(#[trigger] r.records()[k]),
    {
        SearchGenerator { catalog: load_emojis() }
    }

    /// A generator over the given catalog.
    pub fn with_catalog(catalog: Vec<EmojiRecord>) -> (r: Self)
        ensures
            r.records() == catalog@,
    {
        SearchGenerator { catalog }
    }
}

fn one_char_string(c: char) -> (r: String)
    ensures
        r@ == seq![c],
{
    let one = [c];
    let s = string_of(&one);
    assert(s@ =~= seq![c]);
    s
}

impl EmojiGenerator for SearchGenerator {
    /// The first search result for `input`; an error when nothing matches.
    fn generate(&self, input: &str) -> (r: Result<String, EmoError>)
        ensures
            search_result(self.records(), input@, 1).len() == 0 ==> (r matches Err(EmoError::InvalidInput(m))
                && m@ == "No emoji found for '"@ + input@ + "'"@),
            search_result(self.records(), input@, 1).len() > 0 ==> (r matches Ok(s) && s@.len() == 1
                && s@[0] as u32 == search_result(self.records(), input@, 1)[0].0),
    {
        let results = search(self.catalog.as_slice(), input, 1);
        if results.len() == 0 {
            let mut m = String::from_str("No emoji found for '");
            m.append(input);
            m.append("'");
            return Err(EmoError::InvalidInput(m));
        }
        Ok(one_char_string(results[0].0))
    }
}

/// Answers with the memo saved for the input.
pub struct MemoGenerator {
    mappings: EmojiMappings,
}

impl MemoGenerator {
    /// The memo for `term`.
    pub closed spec fn memo(&self, term: Seq<char>) -> Option<char> {
        self.mappings.memo(term)
    }

    /// A generator without memos.
    pub fn new() -> (r: Self)
        ensures
            forall|t: Seq<char>| #[trigger] r.memo(t) is None,
    {
        MemoGenerator { mappings: EmojiMappings::new() }
    }

    /// A generator with the given (term, emoji) memos; a later entry for a
    /// term replaces an earlier one.
    pub fn with_mappings(mappings: Vec<(String, char)>) -> (r: Self)
        ensures
            forall|t: Seq<char>| #[trigger] r.memo(t) == memo_of(mappings@, t),
    {
        let mut m = EmojiMappings::new();
        let mut rest = mappings;
        let ghost all = rest@;
        let n = rest.len();
        let mut i: usize = 0;
        while rest.len() > 0
            invariant
                i + rest@.len() == all.len(),
                all.len() == n,
                rest@ == all.skip(i as int),
                forall|t: Seq<char>| #[trigger] m.memo(t) == memo_of(all.take(i as int), t),
            decreases rest@.len(),
        {
            let (term, c) = rest.remove(0);
            assert(all[i as int] == (term, c));
            let ghost m0 = m;
            m.insert(term, c);
            proof {
                let pre = all.take(i + 1);
                assert(pre.drop_last() =~= all.take(i as int));
                assert forall|t: Seq<char>| #[trigger] m.memo(t) == memo_of(pre, t) by {
                    if t != all[i as int].0@ {
                        assert(m0.memo(t) == memo_of(all.take(i as int), t));
                    }
                }
            }
            i += 1;
            assert(rest@ =~= all.skip(i as int));
        }
        assert(all.take(i as int) =~= all);
        MemoGenerator { mappings: m }
    }
}

impl EmojiGenerator for MemoGenerator {
    /// The memo for `input`; an error when there is none.
    fn generate(&self, input: &str) -> (r: Result<String, EmoError>)
        ensures
            self.memo(input@) matches Some(c) ==> (r matches Ok(s) && s@ == seq![c]),
            self.memo(input@) is None ==> (r matches Err(EmoError::InvalidInput(m)) && m@ == "No memo found"@),
    {
        match self.mappings.lookup(input) {
            Some(c) => Ok(one_char_string(c)),
            None => Err(EmoError::InvalidInput(String::from_str("No memo found"))),
        }
    }
}

} // verus!
