use vstd::prelude::*;

use crate::text::{chars_of, equal_chars, trim, trim_bounds};

verus! {

/// What `str::to_lowercase` makes of `s`: each character's Unicode lower case.
pub uninterp spec fn lowercase_of(s: Seq<char>) -> Seq<char>;

/// Relies on `str::to_lowercase`: its result depends on the characters alone,
/// and an empty string stays empty.
#[verifier::external_body]
fn to_lower(s: &str) -> (r: String)
    ensures
        r@ == lowercase_of(s@),
        s@.len() == 0 ==> r@.len() == 0,
{
    s.to_lowercase()
}

/// The answer that a lower-cased reply gives to a yes-or-no question:
/// `y` or `yes` is yes, `n` or `no` is no, anything else no answer.
pub open spec fn yes_no_answer(lowered: Seq<char>) -> Option<bool> {
    if lowered == seq!['y'] || lowered == seq!['y', 'e', 's'] {
        Some(true)
    } else if lowered == seq!['n'] || lowered == seq!['n', 'o'] {
        Some(false)
    } else {
        None
    }
}

/// The answer given by a reply that is already trimmed and lower-cased.
pub fn yes_no_of_lowered(lowered: &str) -> (r: Option<bool>)
    ensures
        r == yes_no_answer(lowered@),
{
    let lc = chars_of(lowered);
    let y = vec!['y'];
    let yes = vec!['y', 'e', 's'];
    let n = vec!['n'];
    let no = vec!['n', 'o'];
    assert(y@ =~= seq!['y'] && yes@ =~= seq!['y', 'e', 's']);
    assert(n@ =~= seq!['n'] && no@ =~= seq!['n', 'o']);
    if equal_chars(&lc, &y) || equal_chars(&lc, &yes) {
        Some(true)
    } else if equal_chars(&lc, &n) || equal_chars(&lc, &no) {
        Some(false)
    } else {
        None
    }
}

/// The answer a typed reply gives to a yes-or-no question, once trimmed and
/// lower-cased.
pub fn parse_yes_no(input: &str) -> (r: Option<bool>)
    ensures
        r == yes_no_answer(lowercase_of(trim(input@))),
{
    let ic = chars_of(input);
    let (a, b) = trim_bounds(&ic);
    let t = input.substring_char(a, b);
    let lowered = to_lower(t);
    yes_no_of_lowered(lowered.as_str())
}

/// The letter that a lower-cased reply picks: its first character, when it
/// is one of `allowed`.
pub open spec fn letter_answer(lowered: Seq<char>, allowed: Seq<char>) -> Option<char> {
    if lowered.len() > 0 && allowed.contains(lowered[0]) {
        Some(lowered[0])
    } else {
        None
    }
}

/// The letter picked by a reply that is already trimmed and lower-cased.
pub fn letter_of_lowered(lowered: &str, allowed: &str) -> (r: Option<char>)
    ensures
        r == letter_answer(lowered@, allowed@),
{
    let lc = chars_of(lowered);
    if lc.len() == 0 {
        return None;
    }
    let c = lc[0];
    let ac = chars_of(allowed);
    let mut i: usize = 0;
    while i < ac.len()
        invariant
            i <= ac.len(),
            ac@ == allowed@,
            lowered@.len() > 0,
            c == lowered@[0],
            forall|k: int| 0 <= k < i ==> ac@[k] != c,
        decreases ac.len() - i,
    {
        if ac[i] == c {
            assert(allowed@.contains(c)) by {
                assert(allowed@[i as int] == c);
            }
            return Some(c);
        }
        i = i + 1;
    }
    None
}

/// The letter a typed reply picks, once trimmed and lower-cased.
pub fn parse_letter(input: &str, allowed: &str) -> (r: Option<char>)
    ensures
        r == letter_answer(lowercase_of(trim(input@)), allowed@),
{
    let ic = chars_of(input);
    let (a, b) = trim_bounds(&ic);
    let t = input.substring_char(a, b);
    let lowered = to_lower(t);
    letter_of_lowered(lowered.as_str(), allowed)
}

} // verus!
