use vstd::prelude::*;

use crate::section::{first_starting, Section};
use crate::text::{chars_of, has_prefix, marker_after, starts_with, with_marker};

verus! {

#[verifier::external_type_specification]
#[verifier::external_body]
pub struct ExRegex(regex::Regex);

#[verifier::external_type_specification]
#[verifier::external_body]
pub struct ExRegexError(regex::Error);

/// Whether `regex` accepts `p` as a pattern.
pub uninterp spec fn pattern_compiles(p: Seq<char>) -> bool;

/// What `regex` makes of `text` when every match of pattern `p` is replaced
/// by `rep` (with its `$name` group references expanded).
pub uninterp spec fn replaced_all(p: Seq<char>, text: Seq<char>, rep: Seq<char>) -> Seq<char>;

/// Relies on `regex::Regex::new`: it compiles `p`, or fails, depending on `p` alone.
#[verifier::external_body]
fn compile(p: &str) -> (r: Result<regex::Regex, regex::Error>)
    ensures
        r is Ok == pattern_compiles(p@),
{
    regex::Regex::new(p)
}

/// A pattern for the values of lines, with the text it was compiled from.
pub struct ValuePattern {
    source: String,
    regex: regex::Regex,
}

/// A pattern that does not compile.
#[derive(Debug, Clone, PartialEq, Eq)]
pub struct InvalidPattern {
    pub pattern: String,
}

impl ValuePattern {
    pub closed spec fn source_text(&self) -> Seq<char> {
        self.source@
    }

    /// Compiles `p`.
    pub fn new(p: &str) -> (r: Result<ValuePattern, InvalidPattern>)
        ensures
            match r {
                Ok(v) => pattern_compiles(p@) && v.source_text() == p@,
                Err(e) => !pattern_compiles(p@) && e.pattern@ == p@,
            },
    {
        match compile(p) {
            Ok(regex) => Ok(ValuePattern { source: p.to_owned(), regex }),
            Err(_) => Err(InvalidPattern { pattern: p.to_owned() }),
        }
    }
}

/// Relies on `regex::Regex::replace_all` with a `&str` replacement. The
/// regex of a `ValuePattern` is the one compiled from its source.
#[verifier::external_body]
fn replace_all(p: &ValuePattern, text: &str, rep: &str) -> (r: String)
    ensures
        r@ == replaced_all(p.source_text(), text@, rep@),
{
    p.regex.replace_all(text, rep).into_owned()
}

/// Where the value of a line with a key prefix `n` characters long starts:
/// after the one space that follows the marker, if there is one.
pub open spec fn value_start(l: Seq<char>, n: int) -> int {
    if n < l.len() && l[n] == ' ' {
        n + 1
    } else {
        n
    }
}

/// A line of key `key` with every match in its value replaced.
pub open spec fn substituted(l: Seq<char>, key: Seq<char>, p: Seq<char>, rep: Seq<char>) -> Seq<
    char,
> {
    if starts_with(l, with_marker(key)) {
        let v = value_start(l, with_marker(key).len() as int);
        l.take(v) + replaced_all(p, l.skip(v), rep)
    } else {
        l
    }
}

impl Section {
    /// In the value of each line of key `key`, replaces every match of the
    /// pattern by `replacement`; the key and the marker stay. Returns whether
    /// the section has a line of that key.
    pub fn apply_regex(&mut self, key: &str, pattern: &ValuePattern, replacement: &str) -> (r: bool)
        ensures
            r == (first_starting(old(self)@.lines, with_marker(key@)) < old(self)@.lines.len()),
            final(self)@ == old(self).with_lines(
                old(self)@.lines.map_values(
                    |l: Seq<char>| substituted(l, key@, pattern.source_text(), replacement@),
                ),
            ),
    {
        let p = marker_after(key);
        let pc = chars_of(p.as_str());
        let ghost before = old(self)@.lines;
        let mut found = false;
        let mut i: usize = 0;
        while i < self.lines.len()
            invariant
                i <= self.lines.len(),
                self.lines.len() == before.len(),
                self.name == old(self).name,
                self.title_line == old(self).title_line,
                pc@ == with_marker(key@),
                forall|k: int| 0 <= k < i ==> (#[trigger] self@.lines[k]) == substituted(
                    before[k],
                    key@,
                    pattern.source_text(),
                    replacement@,
                ),
                forall|k: int| i <= k < before.len() ==> (#[trigger] self@.lines[k]) == before[k],
                found == exists|k: int| 0 <= k < i && starts_with(#[trigger] before[k], pc@),
            decreases self.lines.len() - i,
        {
            assert(self@.lines[i as int] == before[i as int]);
            let lc = chars_of(self.lines[i].as_str());
            if has_prefix(&lc, &pc) {
                found = true;
                let n = pc.len();
                let v = if n < lc.len() && lc[n] == ' ' {
                    n + 1
                } else {
                    n
                };
                let line = self.lines[i].as_str();
                let head = line.substring_char(0, v);
                let mut l = head.to_owned();
                let tail = line.substring_char(v, lc.len());
                let rep = replace_all(pattern, tail, replacement);
                l.append(rep.as_str());
                assert(tail@ =~= before[i as int].skip(v as int));
                assert(v as int == value_start(before[i as int], with_marker(key@).len() as int));
                assert(head@ =~= before[i as int].take(v as int));
                assert(l@ =~= substituted(before[i as int], key@, pattern.source_text(), replacement@));
                let ghost prev = self@.lines;
                self.lines.set(i, l);
                assert(self@.lines =~= prev.update(i as int, l@));
            } else {
                assert(substituted(before[i as int], key@, pattern.source_text(), replacement@)
                    == before[i as int]);
            }
            i = i + 1;
        }
        assert(self@.lines =~= before.map_values(
            |l: Seq<char>| substituted(l, key@, pattern.source_text(), replacement@),
        ));
        proof {
            crate::section::lemma_first_starting_found(before, pc@);
        }
        found
    }
}

} // verus!
