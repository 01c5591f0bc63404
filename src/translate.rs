use vstd::prelude::*;

use crate::section::char_from;
use crate::text::{chars_of, codes, lex_less, trim, trim_bounds};

verus! {

// ---------------------------------------------------------------------------
// The request for one new string in many languages.
// ---------------------------------------------------------------------------

/// The language code of a file: its name up to the first `.`.
pub open spec fn language_of(filename: Seq<char>) -> Seq<char> {
    filename.take(char_from(filename, '.', 0))
}

/// The language codes of the files, separated by a comma and a space.
pub open spec fn joined_languages(fs: Seq<Seq<char>>) -> Seq<char>
    decreases fs.len(),
{
    if fs.len() == 0 {
        Seq::empty()
    } else if fs.len() == 1 {
        language_of(fs[0])
    } else {
        joined_languages(fs.drop_last()) + ", "@ + language_of(fs.last())
    }
}

pub open spec fn prompt_text(
    languages: Seq<char>,
    section: Seq<char>,
    value: Seq<char>,
    extra: Seq<char>,
) -> Seq<char> {
    "Please translate '"@ + value + "' from US English to all of these languages: "@ + languages
        + PROMPT_MIDDLE@ + section + PROMPT_TAIL@ + extra
}

pub const PROMPT_MIDDLE: &'static str = ".\n    Output in json format, a single dictionary, key=value. Include en_US first (the original string).\n    For context, the string will be in the translation section '";

pub const PROMPT_TAIL: &'static str = "', and these strings are UI strings for my PSP emulator application.\n    'frame' refers to a displayed image frame of the running game, not a photo frame. In Swedish, frame is best translated as bildruta, and similar\n    may apply in other Nordic languages. Keep the strings relatively short, don't let them become more than 40% longer than the original string.\n    Do not output any text before or after the list of translated strings, do not ask followups.\n    ";

proof fn lemma_char_from(s: Seq<char>, c: char, i: int)
    requires
        0 <= i <= s.len(),
    ensures
        i <= char_from(s, c, i) <= s.len(),
        char_from(s, c, i) < s.len() ==> s[char_from(s, c, i)] == c,
        forall|k: int| i <= k < char_from(s, c, i) ==> s[k] != c,
    decreases s.len() - i,
{
    if i < s.len() && s[i] != c {
        lemma_char_from(s, c, i + 1);
    }
}

/// Where `c` first stands in `s`, or the length.
pub fn find_char(s: &Vec<char>, c: char) -> (r: usize)
    ensures
        r as int == char_from(s@, c, 0),
{
    let mut i: usize = 0;
    while i < s.len() && s[i] != c
        invariant
            i <= s.len(),
            char_from(s@, c, 0) == char_from(s@, c, i as int),
        decreases s.len() - i,
    {
        i = i + 1;
    }
    i
}

/// The request that asks for `value`, of section `section`, in the language
/// of each file (the file's name up to its first `.`), with `extra` words at
/// the end.
pub fn generate_prompt(filenames: &[String], section: &str, value: &str, extra: &str) -> (r: String)
    requires
        forall|i: int|
            0 <= i < filenames@.len() ==> char_from(#[trigger] filenames@[i]@, '.', 0)
                < filenames@[i]@.len(),
    ensures
        r@ == prompt_text(
            joined_languages(filenames@.map_values(|f: String| f@)),
            section@,
            value@,
            extra@,
        ),
{
    let ghost fs = filenames@.map_values(|f: String| f@);
    let mut languages = String::new();
    let mut i: usize = 0;
    assert(fs.take(0) =~= Seq::<Seq<char>>::empty());
    while i < filenames.len()
        invariant
            i <= filenames@.len(),
            fs == filenames@.map_values(|f: String| f@),
            languages@ == joined_languages(fs.take(i as int)),
        decreases filenames@.len() - i,
    {
        let fc = chars_of(filenames[i].as_str());
        let dot = find_char(&fc, '.');
        proof {
            lemma_char_from(fc@, '.', 0);
        }
        let code = filenames[i].as_str().substring_char(0, dot);
        assert(code@ == language_of(fs[i as int]));
        if i > 0 {
            languages.append(", ");
        }
        languages.append(code);
        assert(fs.take(i + 1).drop_last() =~= fs.take(i as int));
        i = i + 1;
    }
    assert(fs.take(i as int) =~= fs);
    let mut r = String::new();
    r.append("Please translate '");
    r.append(value);
    r.append("' from US English to all of these languages: ");
    r.append(languages.as_str());
    r.append(PROMPT_MIDDLE);
    r.append(section);
    r.append(PROMPT_TAIL);
    r.append(extra);
    r
}

// ---------------------------------------------------------------------------
// The reply: a mapping from language code to text.
// ---------------------------------------------------------------------------

/// What `serde_json` reads from `s` as an object of string values: its
/// entries in order of key, or nothing when `s` is no such object.
pub uninterp spec fn json_string_map(s: Seq<char>) -> Option<Seq<(Seq<char>, Seq<char>)>>;

pub open spec fn view_pairs(v: Seq<(String, String)>) -> Seq<(Seq<char>, Seq<char>)> {
    v.map_values(|p: (String, String)| (p.0@, p.1@))
}

/// Each key comes before the next, in the order of `str`'s `<`: the keys
/// are distinct and ascend.
pub open spec fn keys_ascending(es: Seq<(Seq<char>, Seq<char>)>) -> bool {
    forall|i: int, j: int|
        0 <= i < j < es.len() ==> lex_less(codes((#[trigger] es[i]).0), codes((#[trigger] es[j]).0))
}

/// Relies on `serde_json::from_str` into a `BTreeMap<String, String>`: it
/// succeeds when `s` is one JSON object (white space around it aside) whose
/// values are all strings, its result depending on `s` alone; a `BTreeMap`
/// hands its entries out in order of key.
#[verifier::external_body]
fn decode_string_map(s: &str) -> (r: Option<Vec<(String, String)>>)
    ensures
        match r {
            Some(v) => json_string_map(s@) == Some(view_pairs(v@)) && keys_ascending(
                view_pairs(v@),
            ),
            None => json_string_map(s@) is None,
        },
{
    serde_json::from_str::<std::collections::BTreeMap<String, String>>(s).ok().map(
        |m| m.into_iter().collect(),
    )
}

/// The last index below `i` where `s` holds `c`, or -1.
pub open spec fn char_before(s: Seq<char>, c: char, i: int) -> int
    decreases i,
{
    if 0 < i <= s.len() {
        if s[i - 1] == c {
            i - 1
        } else {
            char_before(s, c, i - 1)
        }
    } else {
        -1
    }
}

/// The span from the first `{` to the last `}` of `t`, both included.
pub open spec fn json_span(t: Seq<char>) -> Option<(int, int)> {
    let a = char_from(t, '{', 0);
    let b = char_before(t, '}', t.len() as int);
    if a < t.len() && 0 <= b && a <= b {
        Some((a, b + 1))
    } else {
        None
    }
}

/// What a reply holds: the object that spans from its first `{` to its last
/// `}`, read as a mapping of strings.
pub open spec fn reply_entries(response: Seq<char>) -> Option<Seq<(Seq<char>, Seq<char>)>> {
    let t = trim(response);
    match json_span(t) {
        Some((a, b)) => json_string_map(t.subrange(a, b)),
        None => None,
    }
}

/// Reads a reply that holds, somewhere in its text, a JSON object mapping
/// language codes to strings.
pub fn parse_response(response: &str) -> (r: Option<Vec<(String, String)>>)
    ensures
        match r {
            Some(v) => reply_entries(response@) == Some(view_pairs(v@)) && keys_ascending(
                view_pairs(v@),
            ),
            None => reply_entries(response@) is None,
        },
{
    let rc = chars_of(response);
    let (ta, tb) = trim_bounds(&rc);
    let ghost t = trim(response@);
    let a = {
        let mut i: usize = ta;
        while i < tb && rc[i] != '{'
            invariant
                ta <= i <= tb <= rc.len(),
                rc@ == response@,
                t == rc@.subrange(ta as int, tb as int),
                char_from(t, '{', 0) == char_from(t, '{', i - ta),
            decreases tb - i,
        {
            i = i + 1;
        }
        i
    };
    let mut b: usize = tb;
    while b > ta && rc[b - 1] != '}'
        invariant
            ta <= b <= tb <= rc.len(),
            rc@ == response@,
            t == rc@.subrange(ta as int, tb as int),
            char_before(t, '}', t.len() as int) == char_before(t, '}', b - ta),
        decreases b,
    {
        b = b - 1;
    }
    if a == tb || b == ta || a >= b {
        proof {
            if b > ta {
                assert(t[b - ta - 1] == '}');
            }
        }
        return None;
    }
    assert(t[b - ta - 1] == '}');
    let json = response.substring_char(a, b);
    assert(json@ =~= t.subrange(a - ta, b - ta));
    decode_string_map(json)
}

/// The text given for language `lang`, if the reply has one.
pub fn lookup_translation(entries: &Vec<(String, String)>, lang: &str) -> (r: Option<String>)
    ensures
        match r {
            Some(v) => exists|i: int|
                0 <= i < entries@.len() && (#[trigger] entries@[i]).0@ == lang@ && entries@[i].1@
                    == v@,
            None => forall|i: int| 0 <= i < entries@.len() ==> (#[trigger] entries@[i]).0@ != lang@,
        },
{
    let lc = chars_of(lang);
    let mut i: usize = 0;
    while i < entries.len()
        invariant
            i <= entries@.len(),
            lc@ == lang@,
            forall|k: int| 0 <= k < i ==> (#[trigger] entries@[k]).0@ != lang@,
        decreases entries@.len() - i,
    {
        let kc = chars_of(entries[i].0.as_str());
        if crate::text::equal_chars(&kc, &lc) {
            return Some(entries[i].1.clone());
        }
        i = i + 1;
    }
    None
}

} // verus!
