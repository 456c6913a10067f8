//! What an invocation does: the choice of mode from its flags, and the
//! catalog lookups behind the define and random modes.
use vstd::prelude::*;
use crate::error::EmoError;
use crate::record::{EmojiRecord, to_char, decoded_code, decode_error};
use crate::search::{search, search_result};
use crate::text::char_vec;

verus! {

/// The flags of one invocation that choose what it does.
pub struct RunFlags {
    pub list_models: bool,
    pub list_mappings: bool,
    pub random: bool,
    pub ai: bool,
    /// A model was named on the command line.
    pub model: bool,
    pub erase: bool,
    /// The emoji, or result number, to save as a memo.
    pub save: Option<String>,
    pub define: bool,
    /// The length of each AI sentence, when sentences are asked for.
    pub sentence: Option<usize>,
}

/// One mode of operation.
pub enum Action {
    ListModels,
    ListMappings,
    Random,
    /// Ask the model: one emoji per call, or sentences of the given length.
    Ai { sentence: Option<usize> },
    Erase,
    Save(String),
    Define,
    Search,
}

/// The decision for one invocation: whether the named model is stored as the
/// preferred one first, and what is done then.
pub struct Plan {
    pub store_model: bool,
    pub action: Result<Action, EmoError>,
}

/// Whether the flags ask for a listing or a random pick, which need no
/// search term and store nothing.
pub open spec fn is_info(f: RunFlags) -> bool {
    f.list_models || f.list_mappings || f.random
}

/// Chooses the mode: listings and the random pick first; then, with a
/// search term, AI mode (also when a model is named), erase, save, define,
/// and plain search, in that order of precedence. A named model is stored
/// unless a listing or random pick was chosen.
pub fn plan(flags: &RunFlags, has_terms: bool) -> (r: Plan)
    ensures
        r.store_model == (!is_info(*flags) && flags.model),
        flags.list_models ==> r.action matches Ok(Action::ListModels),
        !flags.list_models && flags.list_mappings ==> r.action matches Ok(Action::ListMappings),
        !flags.list_models && !flags.list_mappings && flags.random ==> r.action matches Ok(Action::Random),
        !is_info(*flags) && !has_terms ==> (r.action matches Err(EmoError::InvalidInput(m))
            && m@ == "Please provide a search term or situation"@),
        !is_info(*flags) && has_terms ==> match r.action {
            Ok(Action::Ai { sentence }) => (flags.ai || flags.model) && sentence == flags.sentence,
            Ok(Action::Erase) => !(flags.ai || flags.model) && flags.erase,
            Ok(Action::Save(v)) => !(flags.ai || flags.model) && !flags.erase && flags.save == Some(v),
            Ok(Action::Define) => !(flags.ai || flags.model) && !flags.erase && flags.save is None && flags.define,
            Ok(Action::Search) => !(flags.ai || flags.model) && !flags.erase && flags.save is None && !flags.define,
            _ => false,
        },
{
    if flags.list_models {
        return Plan { store_model: false, action: Ok(Action::ListModels) };
    }
    if flags.list_mappings {
        return Plan { store_model: false, action: Ok(Action::ListMappings) };
    }
    if flags.random {
        return Plan { store_model: false, action: Ok(Action::Random) };
    }
    let store_model = flags.model;
    if !has_terms {
        return Plan {
            store_model,
            action: Err(EmoError::InvalidInput(String::from_str("Please provide a search term or situation"))),
        };
    }
    let action = if flags.ai || flags.model {
        Action::Ai { sentence: flags.sentence }
    } else if flags.erase {
        Action::Erase
    } else {
        match &flags.save {
            Some(v) => Action::Save(v.clone()),
            None => if flags.define {
                Action::Define
            } else {
                Action::Search
            },
        }
    };
    Plan { store_model, action: Ok(action) }
}

/// The index of the first record, among the first `n`, that decodes to code
/// point `u`.
pub open spec fn first_with_code(cat: Seq<EmojiRecord>, u: u32, n: int) -> Option<int>
    decreases n,
{
    if n <= 0 {
        None
    } else if first_with_code(cat, u, n - 1) is Some {
        first_with_code(cat, u, n - 1)
    } else if decoded_code(cat[n - 1].unicode@) == Some(u) {
        Some(n - 1)
    } else {
        None
    }
}

/// The record that define mode describes for `term`: the first record whose
/// character is the term's first character, else the best search match.
pub open spec fn define_pick(cat: Seq<EmojiRecord>, term: Seq<char>) -> Option<int> {
    if term.len() == 0 {
        None
    } else if first_with_code(cat, term[0] as u32, cat.len() as int) is Some {
        first_with_code(cat, term[0] as u32, cat.len() as int)
    } else if search_result(cat, term, 1).len() > 0 {
        Some(search_result(cat, term, 1)[0].1)
    } else {
        None
    }
}

/// The emoji and record that define mode shows for `term`.
pub fn define<'a>(emojis: &'a [EmojiRecord], term: &str) -> (r: Option<(char, &'a EmojiRecord)>)
    ensures
        match r {
            Some((c, e)) => define_pick(emojis@, term@) matches Some(k) && 0 <= k < emojis@.len()
                && *e == emojis@[k] && decoded_code(emojis@[k].unicode@) == Some(c as u32),
            None => define_pick(emojis@, term@) is None,
        },
{
    let t = char_vec(term);
    if t.len() == 0 {
        return None;
    }
    let first = t[0];
    let mut i: usize = 0;
    while i < emojis.len()
        invariant
            i <= emojis@.len(),
            t@ == term@,
            t@.len() > 0,
            first == t@[0],
            first_with_code(emojis@, first as u32, i as int) is None,
        decreases emojis@.len() - i,
    {
        match to_char(&emojis[i]) {
            Ok(c) => {
                if c == first {
                    proof {
                        assert(first_with_code(emojis@, first as u32, i as int + 1) == Some(i as int));
                        lemma_first_with_code_stays(emojis@, first as u32, i as int + 1);
                        assert(define_pick(emojis@, term@) == Some(i as int));
                    }
                    return Some((c, &emojis[i]));
                }
                proof {
                    if c as u32 == first as u32 {
                        crate::search::lemma_code_injective(c, first);
                    }
                }
            },
            Err(_) => {},
        }
        i += 1;
    }
    let found = search(emojis, term, 1);
    assert(term@[0] == first);
    if found.len() == 0 {
        return None;
    }
    assert(define_pick(emojis@, term@) == Some(search_result(emojis@, term@, 1)[0].1));
    proof {
        crate::search::lemma_search_result_decodes(emojis@, term@, 1);
    }
    Some(found[0])
}

/// A first match within a prefix stays the first match.
proof fn lemma_first_with_code_stays(cat: Seq<EmojiRecord>, u: u32, m: int)
    requires
        0 <= m <= cat.len(),
        first_with_code(cat, u, m) is Some,
    ensures
        first_with_code(cat, u, cat.len() as int) == first_with_code(cat, u, m),
    decreases cat.len() - m,
{
    if m < cat.len() {
        lemma_first_with_code_stays(cat, u, m + 1);
    }
}

/// The record that a random draw `draw` selects: the draw reduced modulo the
/// catalog size.
pub fn random_pick<'a>(emojis: &'a [EmojiRecord], draw: u64) -> (r: Result<(char, &'a EmojiRecord), EmoError>)
    ensures
        emojis@.len() == 0 ==> (r matches Err(EmoError::InvalidInput(m)) && m@ == "No emojis available"@),
        emojis@.len() > 0 ==> {
            let k = (#[verifier::truncate] (draw as usize)) % (emojis@.len() as usize);
            match r {
                Ok((c, e)) => *e == emojis@[k as int] && decoded_code(emojis@[k as int].unicode@) == Some(c as u32),
                Err(err) => decoded_code(emojis@[k as int].unicode@) is None && (err matches EmoError::InvalidInput(m)
                    && m@ == decode_error(emojis@[k as int].unicode@)),
            }
        },
{
    if emojis.len() == 0 {
        return Err(EmoError::InvalidInput(String::from_str("No emojis available")));
    }
    let k = (#[verifier::truncate] (draw as usize)) % emojis.len();
    let e = &emojis[k];
    match to_char(e) {
        Ok(c) => Ok((c, e)),
        Err(err) => Err(err),
    }
}

} // verus!
