//! The bundled emoji catalog.
use vstd::prelude::*;
use crate::record::EmojiRecord;
use crate::text::char_vec;

verus! {

/// Whether a record's `unicode` field lists a single code point, that is it
/// holds no space.
pub open spec fn is_single(r: EmojiRecord) -> bool {
    !r.unicode@.contains(' ')
}

/// The records of `s` that list a single code point, in order.
pub open spec fn singles(s: Seq<EmojiRecord>) -> Seq<EmojiRecord>
    decreases s.len(),
{
    if s.len() == 0 {
        Seq::empty()
    } else if is_single(s.last()) {
        singles(s.drop_last()).push(s.last())
    } else {
        singles(s.drop_last())
    }
}

fn has_space(s: &str) -> (r: bool)
    ensures
        r == s@.contains(' '),
{
    let v = char_vec(s);
    let mut i: usize = 0;
    while i < v.len()
        invariant
            i <= v@.len(),
            v@ == s@,
            forall|k: int| 0 <= k < i ==> v@[k] != ' ',
        decreases v@.len() - i,
    {
        if v[i] == ' ' {
            return true;
        }
        i += 1;
    }
    false
}

/// Keeps the records that list a single code point; compound sequences
/// (several space-separated code points) are left out.
pub fn admit_records(records: Vec<EmojiRecord>) -> (r: Vec<EmojiRecord>)
    ensures
        r@ == singles(records@),
{
    let mut rest = records;
    let ghost all = rest@;
    let n = rest.len();
    let mut kept: Vec<EmojiRecord> = Vec::new();
    let mut i: usize = 0;
    while rest.len() > 0
        invariant
            i + rest@.len() == all.len(),
            all.len() == n,
            rest@ == all.skip(i as int),
            kept@ == singles(all.take(i as int)),
        decreases rest@.len(),
    {
        let e = rest.remove(0);
        assert(e == all[i as int]);
        assert(all.take(i + 1).drop_last() =~= all.take(i as int));
        if !has_space(e.unicode.as_str()) {
            kept.push(e);
        }
        i += 1;
        assert(rest@ =~= all.skip(i as int));
    }
    assert(all.take(i as int) =~= all);
    kept
}

/// Whether `r` holds the given name, code point text, keywords and
/// definition, and no shortcode.
pub open spec fn is_entry(r: EmojiRecord, name: Seq<char>, unicode: Seq<char>, keywords: Seq<&str>, definition: Seq<char>) -> bool {
    &&& r.name@ == name
    &&& r.unicode@ == unicode
    &&& r.keywords@.len() == keywords.len()
    &&& forall|i: int| 0 <= i < keywords.len() ==> #[trigger] r.keywords@[i]@ == keywords[i]@
    &&& r.shortcode is None
    &&& r.definition matches Some(d) && d@ == definition
}

/// Whether `b` is the bundled record list, in its order.
pub open spec fn is_bundled(b: Seq<EmojiRecord>) -> bool {
    &&& b.len() == 27
    &&& is_entry(b[0], "grinning face"@, "U+1F600"@, seq!["happy", "smile", "grin"], "A yellow face with a broad, open smile showing the upper teeth."@)
    &&& is_entry(b[1], "smiling face with smiling eyes"@, "U+1F60A"@, seq!["happy", "blush", "smile"], "A yellow face with smiling eyes and rosy cheeks."@)
    &&& is_entry(b[2], "face with tears of joy"@, "U+1F602"@, seq!["laugh", "happy", "lol"], "A yellow face laughing so hard that it cries."@)
    &&& is_entry(b[3], "crying face"@, "U+1F622"@, seq!["sad", "tear", "cry"], "A yellow face with a single tear on the cheek."@)
    &&& is_entry(b[4], "loudly crying face"@, "U+1F62D"@, seq!["sad", "sob", "tears"], "A yellow face crying streams of tears."@)
    &&& is_entry(b[5], "angry face"@, "U+1F620"@, seq!["mad", "annoyed"], "A yellow face with a frown and angry eyebrows."@)
    &&& is_entry(b[6], "thinking face"@, "U+1F914"@, seq!["hmm", "ponder", "consider"], "A face with a hand on the chin, thinking."@)
    &&& is_entry(b[7], "fire"@, "U+1F525"@, seq!["flame", "hot", "lit"], "A flame, for something hot or exciting."@)
    &&& is_entry(b[8], "red heart"@, "U+2764"@, seq!["love", "heart"], "A classic red love heart."@)
    &&& is_entry(b[9], "broken heart"@, "U+1F494"@, seq!["sad", "heartbreak"], "A red heart broken in two."@)
    &&& is_entry(b[10], "rocket"@, "U+1F680"@, seq!["launch", "space", "ship", "deploy"], "A rocket being propelled into space."@)
    &&& is_entry(b[11], "thumbs up"@, "U+1F44D"@, seq!["approve", "ok", "yes", "like"], "A hand with the thumb raised, for approval."@)
    &&& is_entry(b[12], "party popper"@, "U+1F389"@, seq!["celebrate", "party", "tada"], "A party popper bursting with confetti."@)
    &&& is_entry(b[13], "birthday cake"@, "U+1F382"@, seq!["birthday", "cake", "celebrate"], "A cake with lit candles."@)
    &&& is_entry(b[14], "sparkles"@, "U+2728"@, seq!["shiny", "new", "magic"], "Stars that sparkle, for something new or clean."@)
    &&& is_entry(b[15], "check mark button"@, "U+2705"@, seq!["done", "ok", "yes"], "A white check mark on a green square."@)
    &&& is_entry(b[16], "cross mark"@, "U+274C"@, seq!["no", "wrong", "cancel"], "A red cross, for something wrong or cancelled."@)
    &&& is_entry(b[17], "warning"@, "U+26A0"@, seq!["caution", "alert"], "A warning sign."@)
    &&& is_entry(b[18], "sun"@, "U+2600"@, seq!["sunny", "weather", "bright"], "A shining sun."@)
    &&& is_entry(b[19], "snowflake"@, "U+2744"@, seq!["cold", "winter", "snow"], "A snowflake."@)
    &&& is_entry(b[20], "bug"@, "U+1F41B"@, seq!["insect", "bug"], "A green caterpillar, often for a software bug."@)
    &&& is_entry(b[21], "pear"@, "U+1F350"@, seq!["fruit", "food"], "A green pear."@)
    &&& is_entry(b[22], "vampire"@, "U+1F9DB"@, seq!["dracula", "undead", "fangs"], "A vampire with fangs and a cape."@)
    &&& is_entry(b[23], "test tube"@, "U+1F9EA"@, seq!["science", "lab", "experiment", "test"], "A test tube."@)
    &&& is_entry(b[24], "hammer and wrench"@, "U+1F6E0"@, seq!["tools", "fix", "build"], "A hammer crossed with a wrench."@)
    &&& is_entry(b[25], "smiling face with hearts"@, "U+1F970"@, seq!["love", "adore", "happy"], "A smiling face surrounded by hearts."@)
    &&& is_entry(b[26], "man vampire"@, "U+1F9DB U+200D U+2642"@, seq!["dracula", "undead"], "A man vampire."@)
}

fn entry(name: &str, unicode: &str, keywords: &[&str], definition: &str) -> (r: EmojiRecord)
    ensures
        is_entry(r, name@, unicode@, keywords@, definition@),
{
    let mut kw: Vec<String> = Vec::new();
    let mut i: usize = 0;
    while i < keywords.len()
        invariant
            i <= keywords@.len(),
            kw@.len() == i,
            forall|j: int| 0 <= j < i ==> #[trigger] kw@[j]@ == keywords@[j]@,
        decreases keywords@.len() - i,
    {
        kw.push(String::from_str(keywords[i]));
        i += 1;
    }
    EmojiRecord {
        keywords: kw,
        unicode: String::from_str(unicode),
        name: String::from_str(name),
        shortcode: None,
        definition: Some(String::from_str(definition)),
    }
}

/// The records bundled with the library, before admission.
#[verifier::rlimit(50)]
pub fn bundled_records() -> (r: Vec<EmojiRecord>)
    ensures
        is_bundled(r@),
{
    let mut v: Vec<EmojiRecord> = Vec::new();
    v.push(entry("grinning face", "U+1F600", &["happy", "smile", "grin"], "A yellow face with a broad, open smile showing the upper teeth."));
    v.push(entry("smiling face with smiling eyes", "U+1F60A", &["happy", "blush", "smile"], "A yellow face with smiling eyes and rosy cheeks."));
    v.push(entry("face with tears of joy", "U+1F602", &["laugh", "happy", "lol"], "A yellow face laughing so hard that it cries."));
    v.push(entry("crying face", "U+1F622", &["sad", "tear", "cry"], "A yellow face with a single tear on the cheek."));
    v.push(entry("loudly crying face", "U+1F62D", &["sad", "sob", "tears"], "A yellow face crying streams of tears."));
    v.push(entry("angry face", "U+1F620", &["mad", "annoyed"], "A yellow face with a frown and angry eyebrows."));
    v.push(entry("thinking face", "U+1F914", &["hmm", "ponder", "consider"], "A face with a hand on the chin, thinking."));
    v.push(entry("fire", "U+1F525", &["flame", "hot", "lit"], "A flame, for something hot or exciting."));
    v.push(entry("red heart", "U+2764", &["love", "heart"], "A classic red love heart."));
    v.push(entry("broken heart", "U+1F494", &["sad", "heartbreak"], "A red heart broken in two."));
    v.push(entry("rocket", "U+1F680", &["launch", "space", "ship", "deploy"], "A rocket being propelled into space."));
    v.push(entry("thumbs up", "U+1F44D", &["approve", "ok", "yes", "like"], "A hand with the thumb raised, for approval."));
    v.push(entry("party popper", "U+1F389", &["celebrate", "party", "tada"], "A party popper bursting with confetti."));
    v.push(entry("birthday cake", "U+1F382", &["birthday", "cake", "celebrate"], "A cake with lit candles."));
    v.push(entry("sparkles", "U+2728", &["shiny", "new", "magic"], "Stars that sparkle, for something new or clean."));
    v.push(entry("check mark button", "U+2705", &["done", "ok", "yes"], "A white check mark on a green square."));
    v.push(entry("cross mark", "U+274C", &["no", "wrong", "cancel"], "A red cross, for something wrong or cancelled."));
    v.push(entry("warning", "U+26A0", &["caution", "alert"], "A warning sign."));
    v.push(entry("sun", "U+2600", &["sunny", "weather", "bright"], "A shining sun."));
    v.push(entry("snowflake", "U+2744", &["cold", "winter", "snow"], "A snowflake."));
    v.push(entry("bug", "U+1F41B", &["insect", "bug"], "A green caterpillar, often for a software bug."));
    v.push(entry("pear", "U+1F350", &["fruit", "food"], "A green pear."));
    v.push(entry("vampire", "U+1F9DB", &["dracula", "undead", "fangs"], "A vampire with fangs and a cape."));
    v.push(entry("test tube", "U+1F9EA", &["science", "lab", "experiment", "test"], "A test tube."));
    v.push(entry("hammer and wrench", "U+1F6E0", &["tools", "fix", "build"], "A hammer crossed with a wrench."));
    v.push(entry("smiling face with hearts", "U+1F970", &["love", "adore", "happy"], "A smiling face surrounded by hearts."));
    v.push(entry("man vampire", "U+1F9DB U+200D U+2642", &["dracula", "undead"], "A man vampire."));
    v
}

/// The catalog: the bundled records that list a single code point, in
/// bundled order.
pub fn load_emojis() -> (r: Vec<EmojiRecord>)
    ensures
        exists|b: Seq<EmojiRecord>| is_bundled(b) && r@ == singles(b),
        forall|k: int| 0 <= k < r@.len() ==> is_single(#[trigger] r@[k]),
{
    let b = bundled_records();
    let ghost all = b@;
    let r = admit_records(b);
    proof {
        lemma_singles_single(all);
    }
    r
}

/// Every admitted record lists a single code point.
proof fn lemma_singles_single(s: Seq<EmojiRecord>)
    ensures
        forall|k: int| 0 <= k < singles(s).len() ==> is_single(#[trigger] singles(s)[k]),
    decreases s.len(),
{
    if s.len() > 0 {
        lemma_singles_single(s.drop_last());
        let d = singles(s.drop_last());
        assert forall|k: int| 0 <= k < singles(s).len() implies is_single(#[trigger] singles(s)[k]) by {
            if k < d.len() {
                assert(singles(s)[k] == d[k]);
            }
        }
    }
}

} // verus!
