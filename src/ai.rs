//! Decision logic of the AI resolver: the prompt, the scan of incrementally
//! generated text for the first emoji, and the exclusion list that keeps a
//! multi-emoji sentence free of repeats. Running the model is left to the
//! caller, which feeds each generated token in and acts on the answer.
use vstd::prelude::*;
use crate::error::EmoError;
use crate::text::{char_vec, string_of};

verus! {

#[verifier::external_type_specification]
#[verifier::external_body]
pub struct ExDecoder(encoding_rs::Decoder);

/// Whether code point `u` lies in one of the Unicode blocks taken as emoji.
pub open spec fn is_emoji_code(u: u32) -> bool {
    ||| 0x1F300 <= u <= 0x1F9FF
    ||| 0x2600 <= u <= 0x26FF
    ||| 0x2700 <= u <= 0x27BF
    ||| 0x1F000 <= u <= 0x1F02F
    ||| 0x1FA70 <= u <= 0x1FAFF
}

/// Whether `ch` lies in one of the Unicode blocks taken as emoji.
pub fn is_emoji_char(ch: char) -> (r: bool)
    ensures
        r == is_emoji_code(ch as u32),
{
    let u = ch as u32;
    (0x1F300 <= u && u <= 0x1F9FF) || (0x2600 <= u && u <= 0x26FF) || (0x2700 <= u && u <= 0x27BF)
        || (0x1F000 <= u && u <= 0x1F02F) || (0x1FA70 <= u && u <= 0x1FAFF)
}

/// The first character of `s` that is an emoji.
pub open spec fn first_emoji(s: Seq<char>) -> Option<char>
    decreases s.len(),
{
    if s.len() == 0 {
        None
    } else if first_emoji(s.drop_last()) is Some {
        first_emoji(s.drop_last())
    } else if is_emoji_code(s.last() as u32) {
        Some(s.last())
    } else {
        None
    }
}

/// The first emoji among the characters of `fragment`, if any.
pub fn find_emoji(fragment: &str) -> (r: Option<char>)
    ensures
        r == first_emoji(fragment@),
{
    let v = char_vec(fragment);
    let mut found: Option<char> = None;
    let mut i: usize = 0;
    while i < v.len()
        invariant
            i <= v@.len(),
            found == first_emoji(v@.take(i as int)),
        decreases v@.len() - i,
    {
        assert(v@.take(i + 1).drop_last() =~= v@.take(i as int));
        if found.is_none() && is_emoji_char(v[i]) {
            found = Some(v[i]);
        }
        i += 1;
    }
    assert(v@.take(i as int) =~= fragment@);
    found
}

/// `xs` written one after another, separated by `", "`.
pub open spec fn joined(xs: Seq<Seq<char>>) -> Seq<char>
    decreases xs.len(),
{
    if xs.len() == 0 {
        Seq::empty()
    } else if xs.len() == 1 {
        xs[0]
    } else {
        joined(xs.drop_last()) + ", "@ + xs.last()
    }
}

/// The instruction handed to the model: pick one emoji for `situation`,
/// avoiding those in `exclude`.
pub open spec fn prompt_text(situation: Seq<char>, exclude: Seq<Seq<char>>) -> Seq<char> {
    if exclude.len() == 0 {
        "Task: Select ONE emoji that best represents: "@ + situation
            + ". Reply with only the emoji, nothing else.\nEmoji:"@
    } else {
        "Task: Select ONE emoji that best represents: "@ + situation + ". Do not use: "@ + joined(
            exclude,
        ) + ". Reply with only the emoji.\nEmoji:"@
    }
}

/// Builds the prompt that asks for one emoji for `situation`, naming the
/// emoji of `exclude` as not to be used.
pub fn build_prompt(situation: &str, exclude: &[String]) -> (r: String)
    ensures
        r@ == prompt_text(situation@, exclude@.map_values(|e: String| e@)),
{
    let ghost ex = exclude@.map_values(|e: String| e@);
    let mut p = String::from_str("Task: Select ONE emoji that best represents: ");
    p.append(situation);
    if exclude.len() == 0 {
        p.append(". Reply with only the emoji, nothing else.\nEmoji:");
        return p;
    }
    p.append(". Do not use: ");
    let ghost head = p@;
    p.append(exclude[0].as_str());
    let mut i: usize = 1;
    assert(ex.take(1) =~= seq![ex[0]]);
    while i < exclude.len()
        invariant
            1 <= i <= exclude@.len(),
            ex == exclude@.map_values(|e: String| e@),
            p@ == head + joined(ex.take(i as int)),
        decreases exclude@.len() - i,
    {
        assert(ex.take(i + 1).drop_last() =~= ex.take(i as int));
        p.append(", ");
        p.append(exclude[i].as_str());
        i += 1;
    }
    assert(ex.take(i as int) =~= ex);
    p.append(". Reply with only the emoji.\nEmoji:");
    p
}

/// Most generation steps read before giving up.
pub const MAX_STEPS: usize = 20;

/// Most characters of generated text read before giving up.
pub const MAX_OUTPUT_CHARS: usize = 50;

/// What the scan asks of the generation loop after a step.
pub enum ScanStep {
    /// An emoji was found: stop generating and answer with it.
    Found(char),
    /// No emoji yet: generate the next step.
    Continue,
    /// A budget is spent: stop and fail.
    Exhausted,
}

/// Relies on `encoding_rs::UTF_8.new_decoder`: a fresh incremental UTF-8
/// decoder.
#[verifier::external_body]
fn utf8_decoder() -> (r: encoding_rs::Decoder) {
    encoding_rs::UTF_8.new_decoder()
}

/// Relies on `encoding_rs::Decoder::decode_to_string`: the text that the
/// next bytes of the stream complete. What comes out depends on bytes held
/// back from earlier calls, so nothing is stated of it.
#[verifier::external_body]
fn decode_step(decoder: &mut encoding_rs::Decoder, bytes: &[u8]) -> (r: String) {
    let mut text = String::with_capacity(32);
    let _ = decoder.decode_to_string(bytes, &mut text, false);
    text
}

/// The scan of one generation: the text read so far, the steps taken, and
/// the decoder that turns token bytes into text.
pub struct EmojiScan {
    output: Vec<char>,
    steps: usize,
    decoder: encoding_rs::Decoder,
}

impl EmojiScan {
    /// The generated text read so far.
    pub closed spec fn text(&self) -> Seq<char> {
        self.output@
    }

    /// The generation steps read so far.
    pub closed spec fn step_count(&self) -> nat {
        self.steps as nat
    }

    /// Whether the budgets leave room for another step.
    pub open spec fn is_open(&self) -> bool {
        self.step_count() < MAX_STEPS && self.text().len() <= MAX_OUTPUT_CHARS
    }

    /// A scan that has read nothing.
    pub fn new() -> (r: Self)
        ensures
            r.text() == Seq::<char>::empty(),
            r.step_count() == 0,
    {
        EmojiScan { output: Vec::new(), steps: 0, decoder: utf8_decoder() }
    }

    /// Reads the text of one generation step: answers with the first emoji
    /// in it, or asks for another step while the budgets allow.
    pub fn feed_text(&mut self, fragment: &str) -> (r: ScanStep)
        ensures
            old(self).is_open() ==> {
                &&& final(self).step_count() == old(self).step_count() + 1
                &&& final(self).text() == old(self).text() + fragment@
                &&& r == match first_emoji(fragment@) {
                    Some(c) => ScanStep::Found(c),
                    None => if final(self).is_open() {
                        ScanStep::Continue
                    } else {
                        ScanStep::Exhausted
                    },
                }
            },
            !old(self).is_open() ==> {
                &&& final(self).step_count() == old(self).step_count()
                &&& final(self).text() == old(self).text()
                &&& r is Exhausted
            },
    {
        if !(self.steps < MAX_STEPS && self.output.len() <= MAX_OUTPUT_CHARS) {
            return ScanStep::Exhausted;
        }
        self.steps = self.steps + 1;
        let ghost before = self.output@;
        let v = char_vec(fragment);
        let mut i: usize = 0;
        while i < v.len()
            invariant
                i <= v@.len(),
                self.output@ == before + v@.take(i as int),
                self.steps == old(self).steps + 1,
            decreases v@.len() - i,
        {
            self.output.push(v[i]);
            i += 1;
            assert(self.output@ =~= before + v@.take(i as int));
        }
        assert(v@.take(i as int) =~= fragment@);
        match find_emoji(fragment) {
            Some(c) => ScanStep::Found(c),
            None => if self.steps < MAX_STEPS && self.output.len() <= MAX_OUTPUT_CHARS {
                ScanStep::Continue
            } else {
                ScanStep::Exhausted
            },
        }
    }

    /// Reads the bytes of one generated token, decoding them as UTF-8
    /// together with any bytes held back from earlier tokens.
    pub fn feed_token(&mut self, bytes: &[u8]) -> (r: ScanStep)
        ensures
            old(self).is_open() ==> {
                let added = final(self).text().skip(old(self).text().len() as int);
                &&& final(self).step_count() == old(self).step_count() + 1
                &&& final(self).text().len() >= old(self).text().len()
                &&& final(self).text().take(old(self).text().len() as int) == old(self).text()
                &&& r == match first_emoji(added) {
                    Some(c) => ScanStep::Found(c),
                    None => if final(self).is_open() {
                        ScanStep::Continue
                    } else {
                        ScanStep::Exhausted
                    },
                }
                &&& r matches ScanStep::Found(c) ==> is_emoji_code(c as u32)
            },
            !old(self).is_open() ==> r is Exhausted && final(self).text() == old(self).text(),
    {
        let fragment = decode_step(&mut self.decoder, bytes);
        let ghost t0 = self.output@;
        let r = self.feed_text(fragment.as_str());
        proof {
            if old(self).is_open() {
                assert(self.output@.take(t0.len() as int) =~= t0);
                assert(self.output@.skip(t0.len() as int) =~= fragment@);
                lemma_first_emoji_in(fragment@);
            }
        }
        r
    }

    /// The failure that ends a generation without an emoji; it carries the
    /// text generated so far.
    pub fn failure(&self) -> (r: EmoError)
        ensures
            r matches EmoError::ConfigError(m) && m@ == "LLM did not generate an emoji. Generated text: '"@
                + self.text() + "'"@,
    {
        let mut m = String::from_str("LLM did not generate an emoji. Generated text: '");
        let out = string_of(&self.output);
        m.append(out.as_str());
        m.append("'");
        EmoError::ConfigError(m)
    }

    /// The generated text read so far.
    pub fn output(&self) -> (r: String)
        ensures
            r@ == self.text(),
    {
        string_of(&self.output)
    }
}

/// Whether no character occurs twice in `s`.
pub open spec fn all_distinct(s: Seq<char>) -> bool {
    forall|a: int, b: int| 0 <= a < b < s.len() ==> s[a] != s[b]
}

/// A multi-emoji sentence in progress: the emoji picked so far, each of which
/// is excluded from the next request, and the length asked for. A repeated
/// pick is refused, so no emoji ever occurs twice in it.
pub struct EmojiSentence {
    picks: Vec<char>,
    length: usize,
}

impl EmojiSentence {
    #[verifier::type_invariant]
    spec fn inv(&self) -> bool {
        all_distinct(self.picks@)
    }

    /// The emoji picked so far, in order.
    pub closed spec fn picked(&self) -> Seq<char> {
        self.picks@
    }

    /// The number of emoji asked for.
    pub closed spec fn wanted(&self) -> nat {
        self.length as nat
    }

    /// An empty sentence of `length` emoji.
    pub fn new(length: usize) -> (r: Self)
        ensures
            r.picked() == Seq::<char>::empty(),
            r.wanted() == length,
    {
        EmojiSentence { picks: Vec::new(), length }
    }

    /// Whether as many emoji as asked for have been picked.
    pub fn is_complete(&self) -> (r: bool)
        ensures
            r == (self.picked().len() >= self.wanted()),
    {
        self.picks.len() >= self.length
    }

    /// Whether `emoji` has been picked already.
    pub fn has_picked(&self, emoji: char) -> (r: bool)
        ensures
            r == self.picked().contains(emoji),
    {
        let mut i: usize = 0;
        while i < self.picks.len()
            invariant
                i <= self.picks@.len(),
                forall|k: int| 0 <= k < i ==> self.picks@[k] != emoji,
            decreases self.picks@.len() - i,
        {
            if self.picks[i] == emoji {
                assert(self.picks@[i as int] == emoji);
                return true;
            }
            i += 1;
        }
        false
    }

    /// The exclusion list for the next request: every emoji picked so far,
    /// in order, one string each.
    pub fn exclusions(&self) -> (r: Vec<String>)
        ensures
            r@.len() == self.picked().len(),
            forall|k: int| 0 <= k < r@.len() ==> #[trigger] r@[k]@ == seq![self.picked()[k]],
    {
        let mut r: Vec<String> = Vec::new();
        let mut i: usize = 0;
        while i < self.picks.len()
            invariant
                i <= self.picks@.len(),
                r@.len() == i,
                forall|k: int| 0 <= k < i ==> #[trigger] r@[k]@ == seq![self.picks@[k]],
            decreases self.picks@.len() - i,
        {
            let one = [self.picks[i]];
            let s = string_of(&one);
            assert(s@ =~= seq![self.picks@[i as int]]);
            r.push(s);
            i += 1;
        }
        r
    }

    /// Records the emoji that the latest request returned, unless it was
    /// picked already; tells whether it was recorded.
    pub fn record(&mut self, emoji: char) -> (r: bool)
        ensures
            r == !old(self).picked().contains(emoji),
            r ==> final(self).picked() == old(self).picked().push(emoji),
            !r ==> final(self).picked() == old(self).picked(),
            final(self).wanted() == old(self).wanted(),
    {
        proof {
            use_type_invariant(&*self);
        }
        if self.has_picked(emoji) {
            return false;
        }
        let ghost before = self.picks@;
        let mut grown: Vec<char> = Vec::new();
        let mut i: usize = 0;
        while i < self.picks.len()
            invariant
                i <= before.len(),
                before == self.picks@,
                grown@ == before.take(i as int),
            decreases before.len() - i,
        {
            grown.push(self.picks[i]);
            i += 1;
            assert(grown@ =~= before.take(i as int));
        }
        assert(before.take(i as int) =~= before);
        grown.push(emoji);
        assert forall|a: int, b: int| 0 <= a < b < grown@.len() implies grown@[a] != grown@[b] by {
            if b == before.len() {
                assert(grown@[a] == before[a]);
            } else {
                assert(grown@[a] == before[a] && grown@[b] == before[b]);
            }
        }
        self.picks = grown;
        true
    }

    /// The sentence: the picked emoji in order, none repeated.
    pub fn text(&self) -> (r: String)
        ensures
            r@ == self.picked(),
            all_distinct(r@),
    {
        proof {
            use_type_invariant(self);
        }
        string_of(&self.picks)
    }
}

/// The first emoji of `s` is one of its characters, and an emoji.
proof fn lemma_first_emoji_in(s: Seq<char>)
    ensures
        first_emoji(s) matches Some(c) ==> is_emoji_code(c as u32) && exists|k: int| 0 <= k < s.len() && s[k] == c,
    decreases s.len(),
{
    if s.len() > 0 {
        lemma_first_emoji_in(s.drop_last());
        if let Some(c) = first_emoji(s.drop_last()) {
            let k = choose|k: int| 0 <= k < s.drop_last().len() && s.drop_last()[k] == c;
            assert(s[k] == c);
        } else if is_emoji_code(s.last() as u32) {
            assert(s[s.len() - 1] == s.last());
        }
    }
}

} // verus!
