use vstd::prelude::*;

use crate::text::{
    chars_of, codes, contains, equal_chars, equal_folded, equal_ranges, find_marker, fold_code,
    folded, has_infix, has_marker_at, has_prefix, is_key_line, key_of, key_prefix,
    lemma_lex_total, lemma_lex_trans, lemma_marker_index, lemma_marker_of_agreeing, less_than,
    lex_le, lex_less, lex_less_at, marker_after, marker_index, rest_of, starts_with, trim,
    trim_bounds, with_marker,
};

verus! {

/// A named section: its header line as written, and its lines in order.
#[derive(Debug, Clone)]
pub struct Section {
    pub name: String,
    pub title_line: String,
    pub lines: Vec<String>,
}

/// What a section holds, as character sequences.
pub struct SectionModel {
    pub name: Seq<char>,
    pub title_line: Seq<char>,
    pub lines: Seq<Seq<char>>,
}

pub open spec fn view_lines(v: Seq<String>) -> Seq<Seq<char>> {
    v.map_values(|s: String| s@)
}

impl View for Section {
    type V = SectionModel;

    open spec fn view(&self) -> SectionModel {
        SectionModel { name: self.name@, title_line: self.title_line@, lines: view_lines(self.lines@) }
    }
}

// ---------------------------------------------------------------------------
// Looking a key up, ASCII case ignored.
// ---------------------------------------------------------------------------

/// The line bears a key equal to `key` once ASCII case is folded.
pub open spec fn key_matches_folded(l: Seq<char>, key: Seq<char>) -> bool {
    is_key_line(l) && folded(key_of(l)) == folded(key)
}

/// The first index at or after `i` whose line bears `key` (case folded), or the length.
pub open spec fn first_folded_from(lines: Seq<Seq<char>>, key: Seq<char>, i: int) -> int
    decreases lines.len() - i,
{
    if 0 <= i < lines.len() {
        if key_matches_folded(lines[i], key) {
            i
        } else {
            first_folded_from(lines, key, i + 1)
        }
    } else {
        lines.len() as int
    }
}

pub open spec fn first_folded(lines: Seq<Seq<char>>, key: Seq<char>) -> int {
    first_folded_from(lines, key, 0)
}

// ---------------------------------------------------------------------------
// Inserting a line at its place.
// ---------------------------------------------------------------------------

/// The key prefix of the translators' credits, a reserved key.
pub open spec fn translators_prefix() -> Seq<char> {
    seq!['t', 'r', 'a', 'n', 's', 'l', 'a', 't', 'o', 'r', 's', ' ', '=']
}

/// Lines of these keys are never copied: comments, and the translators' credits.
pub open spec fn is_excluded_prefix(p: Seq<char>) -> bool {
    starts_with(p, seq!['#']) || p == translators_prefix()
}

pub open spec fn insertable(l: Seq<char>) -> bool {
    is_key_line(l) && !is_excluded_prefix(key_prefix(l))
}

pub open spec fn has_line_starting(lines: Seq<Seq<char>>, p: Seq<char>) -> bool {
    exists|i: int| 0 <= i < lines.len() && starts_with(#[trigger] lines[i], p)
}

/// The line sorts after the prefix `p`, ASCII case folded.
pub open spec fn sorts_after(l: Seq<char>, p: Seq<char>) -> bool {
    lex_less(folded(p), folded(l))
}

/// The first index at or after `i` whose line sorts after `p`, or the length.
pub open spec fn first_after_from(lines: Seq<Seq<char>>, p: Seq<char>, i: int) -> int
    decreases lines.len() - i,
{
    if 0 <= i < lines.len() {
        if sorts_after(lines[i], p) {
            i
        } else {
            first_after_from(lines, p, i + 1)
        }
    } else {
        lines.len() as int
    }
}

/// Just after the last non-empty line: trailing empty lines stay last.
pub open spec fn end_of_content(lines: Seq<Seq<char>>) -> int
    decreases lines.len(),
{
    if lines.len() == 0 {
        0
    } else if lines.last().len() != 0 {
        lines.len() as int
    } else {
        end_of_content(lines.drop_last())
    }
}

/// Where a line with key prefix `p` goes: before the first line that sorts
/// after it, or else after the last non-empty line.
pub open spec fn insert_position(lines: Seq<Seq<char>>, p: Seq<char>) -> int {
    let j = first_after_from(lines, p, 0);
    if j < lines.len() {
        j
    } else {
        end_of_content(lines)
    }
}

/// The line goes in: it bears a key that may be copied and that no line has yet.
pub open spec fn inserts(lines: Seq<Seq<char>>, l: Seq<char>) -> bool {
    insertable(l) && !has_line_starting(lines, key_prefix(l))
}

pub open spec fn after_insert(lines: Seq<Seq<char>>, l: Seq<char>) -> Seq<Seq<char>> {
    if inserts(lines, l) {
        lines.insert(insert_position(lines, key_prefix(l)), l)
    } else {
        lines
    }
}

// ---------------------------------------------------------------------------
// Lines that the reference does not know.
// ---------------------------------------------------------------------------

pub open spec fn font_seq() -> Seq<char> {
    seq!['F', 'o', 'n', 't']
}

pub open spec fn url_seq() -> Seq<char> {
    seq!['U', 'R', 'L']
}

/// A key line of the target that no reference line starts with, and that is
/// neither a comment nor a font setting nor a URL.
pub open spec fn is_unknown(l: Seq<char>, reference: Seq<Seq<char>>) -> bool {
    &&& is_key_line(l)
    &&& !starts_with(key_prefix(l), font_seq())
    &&& !starts_with(key_prefix(l), seq!['#'])
    &&& !contains(key_prefix(l), url_seq())
    &&& !has_line_starting(reference, key_prefix(l))
}

pub open spec fn commented(l: Seq<char>, reference: Seq<Seq<char>>) -> Seq<char> {
    if is_unknown(l, reference) {
        seq!['#'] + l
    } else {
        l
    }
}

pub open spec fn after_comment_out(lines: Seq<Seq<char>>, reference: Seq<Seq<char>>) -> Seq<
    Seq<char>,
> {
    lines.map_values(|l: Seq<char>| commented(l, reference))
}

pub open spec fn kept(reference: Seq<Seq<char>>) -> spec_fn(Seq<char>) -> bool {
    |l: Seq<char>| !is_unknown(l, reference)
}

pub open spec fn unknown(reference: Seq<Seq<char>>) -> spec_fn(Seq<char>) -> bool {
    |l: Seq<char>| is_unknown(l, reference)
}

// ---------------------------------------------------------------------------
// Single-key edits, by exact key.
// ---------------------------------------------------------------------------

/// The last index below `i` whose line starts with `p`, or -1.
pub open spec fn last_starting_from(lines: Seq<Seq<char>>, p: Seq<char>, i: int) -> int
    decreases i,
{
    if 0 < i <= lines.len() {
        if starts_with(lines[i - 1], p) {
            i - 1
        } else {
            last_starting_from(lines, p, i - 1)
        }
    } else {
        -1
    }
}

pub open spec fn last_starting(lines: Seq<Seq<char>>, p: Seq<char>) -> int {
    last_starting_from(lines, p, lines.len() as int)
}

/// The first index at or after `i` whose line starts with `p`, or the length.
pub open spec fn first_starting_from(lines: Seq<Seq<char>>, p: Seq<char>, i: int) -> int
    decreases lines.len() - i,
{
    if 0 <= i < lines.len() {
        if starts_with(lines[i], p) {
            i
        } else {
            first_starting_from(lines, p, i + 1)
        }
    } else {
        lines.len() as int
    }
}

pub open spec fn first_starting(lines: Seq<Seq<char>>, p: Seq<char>) -> int {
    first_starting_from(lines, p, 0)
}

/// What follows the marker in the line of key `old` that is renamed to
/// `new`: a value still equal to its key is a placeholder and becomes `new`;
/// any other text stays as it was.
pub open spec fn carried_rest(l: Seq<char>, old: Seq<char>, new: Seq<char>) -> Seq<char> {
    let rest = l.skip(old.len() + 2 as int);
    if trim(rest) == trim(old) {
        seq![' '] + new
    } else {
        rest
    }
}

pub open spec fn renamed_line(l: Seq<char>, old: Seq<char>, new: Seq<char>) -> Seq<char> {
    with_marker(new) + carried_rest(l, old, new)
}

/// The last line of key `old` is taken out, and inserted again under `new`.
pub open spec fn after_rename(lines: Seq<Seq<char>>, old: Seq<char>, new: Seq<char>) -> Seq<
    Seq<char>,
> {
    let i = last_starting(lines, with_marker(old));
    if i < 0 {
        lines
    } else {
        after_insert(lines.remove(i), renamed_line(lines[i], old, new))
    }
}

/// The last line of key `old` stays, and a copy under `new` is inserted.
pub open spec fn after_dupe(lines: Seq<Seq<char>>, old: Seq<char>, new: Seq<char>) -> Seq<
    Seq<char>,
> {
    let i = last_starting(lines, with_marker(old));
    if i < 0 {
        lines
    } else {
        after_insert(lines, renamed_line(lines[i], old, new))
    }
}

/// The first index at or after `i` where `s` holds `c`, or the length.
pub open spec fn char_from(s: Seq<char>, c: char, i: int) -> int
    decreases s.len() - i,
{
    if 0 <= i < s.len() {
        if s[i] == c {
            i
        } else {
            char_from(s, c, i + 1)
        }
    } else {
        s.len() as int
    }
}

/// The value of a line whose key prefix is `n` characters long: what
/// follows, up to a `#` comment, trimmed.
pub open spec fn value_text(l: Seq<char>, n: int) -> Seq<char> {
    let rest = l.skip(n);
    trim(rest.take(char_from(rest, '#', 0)))
}

/// The line that sets `key` to `value`, with an optional comment.
pub open spec fn setting_line(key: Seq<char>, value: Seq<char>, comment: Option<Seq<char>>) -> Seq<
    char,
> {
    let base = key + seq![' ', '=', ' '] + value;
    match comment {
        Some(c) => base + seq![' ', '#', ' '] + c,
        None => base,
    }
}

/// A literal two-character line-break token, a backslash and an `n`, starts at `i`.
pub open spec fn is_break_at(s: Seq<char>, i: int) -> bool {
    0 <= i && i + 1 < s.len() && s[i] == '\\' && s[i + 1] == 'n'
}

/// `s` with each line-break token replaced by a space.
pub open spec fn without_breaks(s: Seq<char>) -> Seq<char>
    decreases s.len(),
{
    if s.len() == 0 {
        s
    } else if is_break_at(s, 0) {
        seq![' '] + without_breaks(s.skip(2))
    } else {
        seq![s[0]] + without_breaks(s.drop_first())
    }
}

/// A key line whose key, trimmed, is `key` trimmed.
pub open spec fn key_matches_trimmed(l: Seq<char>, key: Seq<char>) -> bool {
    is_key_line(l) && trim(key_of(l)) == trim(key)
}

pub open spec fn unbroken(l: Seq<char>, key: Seq<char>) -> Seq<char> {
    if key_matches_trimmed(l, key) {
        key_prefix(l) + without_breaks(rest_of(l))
    } else {
        l
    }
}

/// The lines stand in the order of `str`'s `<`, by code point.
pub open spec fn sorted_lines(lines: Seq<Seq<char>>) -> bool {
    forall|i: int, j: int|
        0 <= i < j < lines.len() ==> lex_le(codes(#[trigger] lines[i]), codes(#[trigger] lines[j]))
}

// ---------------------------------------------------------------------------
// Executable helpers.
// ---------------------------------------------------------------------------

pub fn take_chars(v: &Vec<char>, n: usize) -> (r: Vec<char>)
    requires
        n <= v.len(),
    ensures
        r@ == v@.take(n as int),
{
    let mut r: Vec<char> = Vec::new();
    let mut i: usize = 0;
    while i < n
        invariant
            n <= v.len(),
            i <= n,
            r@ == v@.take(i as int),
        decreases n - i,
    {
        r.push(v[i]);
        assert(v@.take(i + 1) =~= v@.take(i as int).push(v@[i as int]));
        i = i + 1;
    }
    r
}

fn translators_chars() -> (r: Vec<char>)
    ensures
        r@ == translators_prefix(),
{
    let r = vec!['t', 'r', 'a', 'n', 's', 'l', 'a', 't', 'o', 'r', 's', ' ', '='];
    assert(r@ =~= translators_prefix());
    r
}

/// The characters of each line.
pub fn lines_chars(lines: &Vec<String>) -> (r: Vec<Vec<char>>)
    ensures
        r.len() == lines.len(),
        forall|i: int| 0 <= i < r.len() ==> (#[trigger] r[i])@ == lines[i]@,
{
    let mut r: Vec<Vec<char>> = Vec::new();
    let mut i: usize = 0;
    while i < lines.len()
        invariant
            i <= lines.len(),
            r.len() == i,
            forall|k: int| 0 <= k < i ==> (#[trigger] r[k])@ == lines[k]@,
        decreases lines.len() - i,
    {
        r.push(chars_of(lines[i].as_str()));
        i = i + 1;
    }
    r
}

fn font_chars() -> (r: Vec<char>)
    ensures
        r@ == font_seq(),
{
    let r = vec!['F', 'o', 'n', 't'];
    assert(r@ =~= font_seq());
    r
}

fn url_chars() -> (r: Vec<char>)
    ensures
        r@ == url_seq(),
{
    let r = vec!['U', 'R', 'L'];
    assert(r@ =~= url_seq());
    r
}

/// Whether the line is one that the reference, given as the characters of
/// its lines, does not know; and where its marker stands.
fn unknown_marker(l: &Vec<char>, reference: &Vec<Vec<char>>, ghost_ref: Ghost<Seq<Seq<char>>>) -> (r: (bool, usize))
    requires
        reference.len() == ghost_ref@.len(),
        forall|i: int| 0 <= i < reference.len() ==> (#[trigger] reference[i])@ == ghost_ref@[i],
    ensures
        r.0 == is_unknown(l@, ghost_ref@),
        r.0 ==> r.1 as int == marker_index(l@),
{
    let m = match find_marker(l) {
        Some(m) => m,
        None => {
            return (false, 0);
        },
    };
    proof {
        lemma_marker_index(l@);
    }
    assert(m + 1 < l.len());
    let prefix = take_chars(l, m + 2);
    assert(prefix@ == key_prefix(l@));
    if prefix[0] == '#' {
        assert(starts_with(prefix@, seq!['#'])) by {
            assert(prefix@.take(1) =~= seq!['#']);
        }
        return (false, m);
    }
    assert(!starts_with(prefix@, seq!['#'])) by {
        if starts_with(prefix@, seq!['#']) {
            assert(prefix@.take(1)[0] == '#');
        }
    }
    if has_prefix(&prefix, &font_chars()) || has_infix(&prefix, &url_chars()) {
        return (false, m);
    }
    let mut i: usize = 0;
    while i < reference.len()
        invariant
            i <= reference.len(),
            reference.len() == ghost_ref@.len(),
            forall|k: int| 0 <= k < reference.len() ==> (#[trigger] reference[k])@ == ghost_ref@[k],
            forall|k: int| 0 <= k < i ==> !starts_with(#[trigger] ghost_ref@[k], prefix@),
            prefix@ == key_prefix(l@),
        decreases reference.len() - i,
    {
        if has_prefix(&reference[i], &prefix) {
            assert(starts_with(ghost_ref@[i as int], prefix@));
            return (false, m);
        }
        i = i + 1;
    }
    (true, m)
}

proof fn lemma_without_breaks_step(s: Seq<char>, i: int)
    requires
        0 <= i < s.len(),
    ensures
        is_break_at(s, i) ==> without_breaks(s.skip(i)) == seq![' '] + without_breaks(s.skip(i + 2)),
        !is_break_at(s, i) ==> without_breaks(s.skip(i)) == seq![s[i]] + without_breaks(
            s.skip(i + 1),
        ),
{
    let t = s.skip(i);
    assert(t.len() > 0);
    if is_break_at(s, i) {
        assert(is_break_at(t, 0));
        assert(t.skip(2) =~= s.skip(i + 2));
    } else {
        assert(!is_break_at(t, 0));
        assert(t.drop_first() =~= s.skip(i + 1));
    }
}

/// The line with each line-break token from position `n` on replaced by a space.
fn unbreak_line(line: &str, lc: &Vec<char>, n: usize) -> (r: String)
    requires
        lc@ == line@,
        n <= lc.len(),
    ensures
        r@ == lc@.take(n as int) + without_breaks(lc@.skip(n as int)),
{
    let ghost s = lc@;
    let mut out = line.substring_char(0, n).to_owned();
    let mut seg: usize = n;
    let mut i: usize = n;
    assert(s.subrange(n as int, n as int) =~= Seq::<char>::empty());
    while i < lc.len()
        invariant
            s == lc@,
            lc@ == line@,
            n <= seg <= i <= lc.len(),
            s.take(n as int) + without_breaks(s.skip(n as int)) == out@ + s.subrange(
                seg as int,
                i as int,
            ) + without_breaks(s.skip(i as int)),
        decreases lc.len() - i,
    {
        proof {
            lemma_without_breaks_step(s, i as int);
        }
        if i + 1 < lc.len() && lc[i] == '\\' && lc[i + 1] == 'n' {
            let ghost prev = out@;
            out.append(line.substring_char(seg, i));
            out.append(" ");
            proof {
                reveal_strlit(" ");
                assert(" "@ =~= seq![' ']);
                assert(s.subrange((i + 2) as int, (i + 2) as int) =~= Seq::<char>::empty());
                assert(out@ + s.subrange((i + 2) as int, (i + 2) as int) + without_breaks(
                    s.skip(i + 2),
                ) =~= prev + s.subrange(seg as int, i as int) + (seq![' '] + without_breaks(
                    s.skip(i + 2),
                )));
            }
            i = i + 2;
            seg = i;
        } else {
            assert(s.subrange(seg as int, i + 1) =~= s.subrange(seg as int, i as int).push(s[i as int]));
            assert(out@ + s.subrange(seg as int, i + 1) + without_breaks(s.skip(i + 1)) =~= out@
                + s.subrange(seg as int, i as int) + (seq![s[i as int]] + without_breaks(
                s.skip(i + 1),
            )));
            i = i + 1;
        }
    }
    out.append(line.substring_char(seg, lc.len()));
    proof {
        assert(s.skip(lc.len() as int).len() == 0);
        assert(without_breaks(s.skip(lc.len() as int)) =~= Seq::<char>::empty());
        assert(s.subrange(seg as int, lc.len() as int) + without_breaks(s.skip(lc.len() as int))
            =~= s.subrange(seg as int, lc.len() as int));
    }
    out
}

proof fn lemma_first_starting(lines: Seq<Seq<char>>, p: Seq<char>, i: int)
    requires
        0 <= i <= lines.len(),
    ensures
        i <= first_starting_from(lines, p, i) <= lines.len(),
        first_starting_from(lines, p, i) < lines.len() ==> starts_with(
            lines[first_starting_from(lines, p, i)],
            p,
        ),
    decreases lines.len() - i,
{
    if i < lines.len() && !starts_with(lines[i], p) {
        lemma_first_starting(lines, p, i + 1);
    }
}

/// `first_starting` finds a line exactly when one starts with `p`.
pub proof fn lemma_first_starting_found(lines: Seq<Seq<char>>, p: Seq<char>)
    ensures
        first_starting(lines, p) < lines.len() <==> exists|k: int|
            0 <= k < lines.len() && starts_with(#[trigger] lines[k], p),
{
    lemma_first_starting_all(lines, p, 0);
}

proof fn lemma_first_starting_all(lines: Seq<Seq<char>>, p: Seq<char>, i: int)
    requires
        0 <= i <= lines.len(),
    ensures
        first_starting_from(lines, p, i) < lines.len() <==> exists|k: int|
            i <= k < lines.len() && starts_with(#[trigger] lines[k], p),
    decreases lines.len() - i,
{
    if i < lines.len() {
        lemma_first_starting_all(lines, p, i + 1);
        if starts_with(lines[i], p) {
            assert(starts_with(lines[i], p));
        } else {
            assert forall|k: int| i <= k < lines.len() && starts_with(#[trigger] lines[k], p) implies i
                + 1 <= k by {}
        }
    }
}

proof fn lemma_last_starting(lines: Seq<Seq<char>>, p: Seq<char>, i: int)
    requires
        0 <= i <= lines.len(),
    ensures
        -1 <= last_starting_from(lines, p, i) < i,
        last_starting_from(lines, p, i) >= 0 ==> starts_with(lines[last_starting_from(lines, p, i)], p),
    decreases i,
{
    if i > 0 && !starts_with(lines[i - 1], p) {
        lemma_last_starting(lines, p, i - 1);
    }
}

proof fn lemma_multiset_insert(s: Seq<Seq<char>>, j: int, x: Seq<char>)
    requires
        0 <= j <= s.len(),
    ensures
        s.insert(j, x).to_multiset() == s.to_multiset().insert(x),
{
    let t = s.insert(j, x);
    assert(t.remove(j) =~= s);
    t.to_multiset_ensures();
    assert(t[j] == x);
    assert(t.contains(x));
    assert(t.to_multiset() =~= s.to_multiset().insert(x));
}

/// Inserting `x` before the first line that sorts after it keeps lines sorted.
proof fn lemma_sorted_insert(s: Seq<Seq<char>>, x: Seq<char>, j: int)
    requires
        sorted_lines(s),
        0 <= j <= s.len(),
        forall|k: int| 0 <= k < j ==> !lex_less(codes(x), codes(#[trigger] s[k])),
        j < s.len() ==> lex_less(codes(x), codes(s[j])),
    ensures
        sorted_lines(s.insert(j, x)),
{
    let t = s.insert(j, x);
    assert forall|a: int, b: int| 0 <= a < b < t.len() implies lex_le(
        codes(#[trigger] t[a]),
        codes(#[trigger] t[b]),
    ) by {
        if a < j && b == j {
            lemma_lex_total(codes(x), codes(s[a]));
        } else if a == j && b > j {
            if b - 1 > j {
                assert(lex_le(codes(s[j]), codes(s[b - 1])));
                if lex_less(codes(s[j]), codes(s[b - 1])) {
                    lemma_lex_trans(codes(x), codes(s[j]), codes(s[b - 1]));
                }
            }
        } else if a < j && b > j {
            assert(lex_le(codes(s[a]), codes(s[b - 1])));
        } else if b < j {
            assert(lex_le(codes(s[a]), codes(s[b])));
        } else {
            assert(lex_le(codes(s[a - 1]), codes(s[b - 1])));
        }
    }
}

proof fn lemma_end_of_content(lines: Seq<Seq<char>>, j: int)
    requires
        0 <= j <= lines.len(),
        forall|k: int| j <= k < lines.len() ==> (#[trigger] lines[k]).len() == 0,
        j == 0 || lines[j - 1].len() != 0,
    ensures
        end_of_content(lines) == j,
    decreases lines.len(),
{
    if lines.len() > j {
        assert(lines.drop_last().len() < lines.len());
        lemma_end_of_content(lines.drop_last(), j);
    }
}

impl Section {
    /// The model of a section that `lines` is the content of.
    pub open spec fn with_lines(self, lines: Seq<Seq<char>>) -> SectionModel {
        SectionModel { name: self.name@, title_line: self.title_line@, lines }
    }

    /// A copy with the same name, header and lines.
    pub fn copied(&self) -> (r: Section)
        ensures
            r@ == self@,
    {
        let mut lines: Vec<String> = Vec::new();
        let mut i: usize = 0;
        while i < self.lines.len()
            invariant
                i <= self.lines.len(),
                view_lines(lines@) == view_lines(self.lines@).take(i as int),
            decreases self.lines.len() - i,
        {
            let l = self.lines[i].clone();
            assert(l@ == view_lines(self.lines@)[i as int]);
            let ghost prev = view_lines(lines@);
            lines.push(l);
            assert(view_lines(lines@) =~= prev.push(l@));
            assert(view_lines(self.lines@).take(i + 1) =~= view_lines(self.lines@).take(
                i as int,
            ).push(l@));
            i = i + 1;
        }
        assert(view_lines(self.lines@).take(i as int) =~= view_lines(self.lines@));
        Section { name: self.name.clone(), title_line: self.title_line.clone(), lines }
    }

    /// Comments out (prefixes with `#`) each line that `other` does not know.
    pub fn comment_out_lines_if_not_in(&mut self, other: &Section)
        ensures
            final(self)@ == old(self).with_lines(after_comment_out(old(self)@.lines, other@.lines)),
    {
        let rc = lines_chars(&other.lines);
        let ghost reference = other@.lines;
        let ghost before = old(self)@.lines;
        let mut i: usize = 0;
        while i < self.lines.len()
            invariant
                i <= self.lines.len(),
                self.lines.len() == before.len(),
                self.name == old(self).name,
                self.title_line == old(self).title_line,
                rc.len() == reference.len(),
                forall|k: int| 0 <= k < rc.len() ==> (#[trigger] rc[k])@ == reference[k],
                forall|k: int| 0 <= k < i ==> (#[trigger] self@.lines[k]) == commented(before[k], reference),
                forall|k: int| i <= k < before.len() ==> (#[trigger] self@.lines[k]) == before[k],
            decreases self.lines.len() - i,
        {
            let lc = chars_of(self.lines[i].as_str());
            let (unknown, _m) = unknown_marker(&lc, &rc, Ghost(reference));
            assert(self@.lines[i as int] == before[i as int]);
            if unknown {
                let mut l = String::from_str("#");
                proof {
                    reveal_strlit("#");
                    assert("#"@ =~= seq!['#']);
                }
                l.append(self.lines[i].as_str());
                assert(l@ =~= seq!['#'] + before[i as int]);
                let ghost prev = self@.lines;
                self.lines.set(i, l);
                assert(self@.lines =~= prev.update(i as int, l@));
            }
            i = i + 1;
        }
        assert(self@.lines =~= after_comment_out(before, reference));
    }

    /// Removes each line that `other` does not know.
    pub fn remove_lines_if_not_in(&mut self, other: &Section)
        ensures
            final(self)@ == old(self).with_lines(old(self)@.lines.filter(kept(other@.lines))),
    {
        let rc = lines_chars(&other.lines);
        let ghost reference = other@.lines;
        let ghost before = old(self)@.lines;
        let mut out: Vec<String> = Vec::new();
        let mut i: usize = 0;
        while i < self.lines.len()
            invariant
                *self == *old(self),
                before == self@.lines,
                i <= self.lines.len(),
                rc.len() == reference.len(),
                forall|k: int| 0 <= k < rc.len() ==> (#[trigger] rc[k])@ == reference[k],
                view_lines(out@) == before.take(i as int).filter(kept(reference)),
            decreases self.lines.len() - i,
        {
            let lc = chars_of(self.lines[i].as_str());
            let (unknown, _m) = unknown_marker(&lc, &rc, Ghost(reference));
            proof {
                assert(before.take(i + 1) =~= before.take(i as int).push(before[i as int]));
                before.take(i as int).lemma_filter_push(before[i as int], kept(reference));
            }
            if !unknown {
                let l = self.lines[i].clone();
                let ghost prev = view_lines(out@);
                out.push(l);
                assert(view_lines(out@) =~= prev.push(l@));
            }
            i = i + 1;
        }
        assert(before.take(i as int) =~= before);
        self.lines = out;
    }

    /// The lines that `other` does not know, in order.
    pub fn get_lines_if_not_in(&self, other: &Section) -> (r: Vec<String>)
        ensures
            view_lines(r@) == self@.lines.filter(unknown(other@.lines)),
    {
        let rc = lines_chars(&other.lines);
        let ghost reference = other@.lines;
        let ghost before = self@.lines;
        let mut out: Vec<String> = Vec::new();
        let mut i: usize = 0;
        while i < self.lines.len()
            invariant
                before == self@.lines,
                i <= self.lines.len(),
                rc.len() == reference.len(),
                forall|k: int| 0 <= k < rc.len() ==> (#[trigger] rc[k])@ == reference[k],
                view_lines(out@) == before.take(i as int).filter(unknown(reference)),
            decreases self.lines.len() - i,
        {
            let lc = chars_of(self.lines[i].as_str());
            let (is_unknown, _m) = unknown_marker(&lc, &rc, Ghost(reference));
            proof {
                assert(before.take(i + 1) =~= before.take(i as int).push(before[i as int]));
                before.take(i as int).lemma_filter_push(before[i as int], unknown(reference));
            }
            if is_unknown {
                let l = self.lines[i].clone();
                let ghost prev = view_lines(out@);
                out.push(l);
                assert(view_lines(out@) =~= prev.push(l@));
            }
            i = i + 1;
        }
        assert(before.take(i as int) =~= before);
        out
    }

    /// The keys of the lines that `other` does not know, in order.
    pub fn get_keys_if_not_in(&self, other: &Section) -> (r: Vec<String>)
        ensures
            view_lines(r@) == self@.lines.filter(unknown(other@.lines)).map_values(
                |l: Seq<char>| key_of(l),
            ),
    {
        let rc = lines_chars(&other.lines);
        let ghost reference = other@.lines;
        let ghost before = self@.lines;
        let mut out: Vec<String> = Vec::new();
        let mut i: usize = 0;
        while i < self.lines.len()
            invariant
                before == self@.lines,
                i <= self.lines.len(),
                rc.len() == reference.len(),
                forall|k: int| 0 <= k < rc.len() ==> (#[trigger] rc[k])@ == reference[k],
                view_lines(out@) == before.take(i as int).filter(unknown(reference)).map_values(
                    |l: Seq<char>| key_of(l),
                ),
            decreases self.lines.len() - i,
        {
            let lc = chars_of(self.lines[i].as_str());
            let (is_unknown, m) = unknown_marker(&lc, &rc, Ghost(reference));
            proof {
                assert(before.take(i + 1) =~= before.take(i as int).push(before[i as int]));
                before.take(i as int).lemma_filter_push(before[i as int], unknown(reference));
            }
            if is_unknown {
                proof {
                    lemma_marker_index(lc@);
                }
                let k = self.lines[i].as_str().substring_char(0, m).to_owned();
                let ghost prev = view_lines(out@);
                let ghost f = before.take(i as int).filter(unknown(reference));
                out.push(k);
                assert(view_lines(out@) =~= prev.push(k@));
                assert(f.push(before[i as int]).map_values(|l: Seq<char>| key_of(l)) =~= f.map_values(
                    |l: Seq<char>| key_of(l),
                ).push(key_of(before[i as int])));
            }
            i = i + 1;
        }
        assert(before.take(i as int) =~= before);
        out
    }

    /// The index of the last line that starts with `p`.
    fn find_last_starting(&self, p: &Vec<char>) -> (r: Option<usize>)
        ensures
            match r {
                Some(i) => i < self.lines.len() && i as int == last_starting(self@.lines, p@),
                None => last_starting(self@.lines, p@) == -1,
            },
    {
        let mut i: usize = self.lines.len();
        while i > 0
            invariant
                i <= self.lines.len(),
                last_starting(self@.lines, p@) == last_starting_from(self@.lines, p@, i as int),
            decreases i,
        {
            let lc = chars_of(self.lines[i - 1].as_str());
            if has_prefix(&lc, p) {
                return Some(i - 1);
            }
            i = i - 1;
        }
        None
    }

    /// The index of the first line that starts with `p`.
    fn find_first_starting(&self, p: &Vec<char>) -> (r: Option<usize>)
        ensures
            match r {
                Some(i) => i < self.lines.len() && i as int == first_starting(self@.lines, p@),
                None => first_starting(self@.lines, p@) == self.lines.len(),
            },
    {
        let mut i: usize = 0;
        while i < self.lines.len()
            invariant
                i <= self.lines.len(),
                first_starting(self@.lines, p@) == first_starting_from(self@.lines, p@, i as int),
            decreases self.lines.len() - i,
        {
            let lc = chars_of(self.lines[i].as_str());
            if has_prefix(&lc, p) {
                return Some(i);
            }
            i = i + 1;
        }
        None
    }

    /// The line of key `old` given the key `new`, its value carried over.
    fn renamed(line: &String, old_key: &str, new_key: &str) -> (r: String)
        requires
            starts_with(line@, with_marker(old_key@)),
        ensures
            r@ == renamed_line(line@, old_key@, new_key@),
    {
        let lc = chars_of(line.as_str());
        let oc = chars_of(old_key);
        assert(with_marker(old_key@).len() <= lc.len());
        let start = oc.len() + 2;
        let rest = line.as_str().substring_char(start, lc.len());
        let rc = chars_of(rest);
        let same = equal_ranges(&rc, trim_bounds(&rc), &oc, trim_bounds(&oc));
        let mut r = marker_after(new_key);
        if same {
            r.append(" ");
            r.append(new_key);
            proof {
                reveal_strlit(" ");
                assert(" "@ =~= seq![' ']);
                assert(r@ =~= with_marker(new_key@) + (seq![' '] + new_key@));
            }
        } else {
            r.append(rest);
            assert(rest@ =~= line@.skip(old_key@.len() + 2 as int));
        }
        r
    }

    /// Renames the last line of key `old` to key `new`: it is taken out and
    /// inserted again at its new place. A value that still equals the old key
    /// becomes the new key; a translated value is kept. Returns whether a line
    /// of key `old` was found.
    pub fn rename_key(&mut self, old_key: &str, new_key: &str) -> (r: bool)
        ensures
            r == (last_starting(old(self)@.lines, with_marker(old_key@)) >= 0),
            final(self)@ == old(self).with_lines(after_rename(old(self)@.lines, old_key@, new_key@)),
    {
        let p = marker_after(old_key);
        let pc = chars_of(p.as_str());
        match self.find_last_starting(&pc) {
            Some(i) => {
                proof {
                    lemma_last_starting(self@.lines, pc@, self.lines.len() as int);
                }
                let line = self.lines.remove(i);
                assert(view_lines(self.lines@) =~= view_lines(old(self).lines@).remove(i as int));
                let nl = Section::renamed(&line, old_key, new_key);
                self.insert_line_if_missing(nl.as_str());
                true
            },
            None => false,
        }
    }

    /// Inserts a copy of the last line of key `old` under key `new`, its value
    /// carried over as `rename_key` does; the old line stays. Returns whether
    /// a line of key `old` was found.
    pub fn dupe_key(&mut self, old_key: &str, new_key: &str) -> (r: bool)
        ensures
            r == (last_starting(old(self)@.lines, with_marker(old_key@)) >= 0),
            final(self)@ == old(self).with_lines(after_dupe(old(self)@.lines, old_key@, new_key@)),
    {
        let p = marker_after(old_key);
        let pc = chars_of(p.as_str());
        match self.find_last_starting(&pc) {
            Some(i) => {
                proof {
                    lemma_last_starting(self@.lines, pc@, self.lines.len() as int);
                }
                let nl = Section::renamed(&self.lines[i], old_key, new_key);
                self.insert_line_if_missing(nl.as_str());
                true
            },
            None => false,
        }
    }

    /// The value of the first line of key `key`: what follows the marker, up
    /// to a `#` comment, trimmed.
    pub fn get_value(&self, key: &str) -> (r: Option<String>)
        ensures
            ({
                let i = first_starting(self@.lines, with_marker(key@));
                if i < self.lines.len() {
                    r is Some && r->0@ == value_text(self@.lines[i], key@.len() + 2 as int)
                } else {
                    r is None
                }
            }),
    {
        let p = marker_after(key);
        let pc = chars_of(p.as_str());
        match self.find_first_starting(&pc) {
            Some(i) => {
                proof {
                    lemma_first_starting(self@.lines, pc@, 0);
                }
                let line = self.lines[i].as_str();
                let lc = chars_of(line);
                assert(starts_with(lc@, pc@));
                let ghost rest = lc@.skip(pc.len() as int);
                let mut h: usize = pc.len();
                while h < lc.len() && lc[h] != '#'
                    invariant
                        pc.len() <= h <= lc.len(),
                        rest == lc@.skip(pc.len() as int),
                        char_from(rest, '#', 0) == char_from(rest, '#', h - pc.len()),
                    decreases lc.len() - h,
                {
                    h = h + 1;
                }
                let v = chars_of(line.substring_char(pc.len(), h));
                let (a, b) = trim_bounds(&v);
                assert(v@ =~= rest.take(char_from(rest, '#', 0)));
                let t = line.substring_char(pc.len() + a, pc.len() + b);
                assert(t@ =~= v@.subrange(a as int, b as int));
                Some(t.to_owned())
            },
            None => None,
        }
    }

    /// Overwrites the first line of key `key` with `key = value`, followed by
    /// ` # comment` when a comment is given. Returns whether such a line was there.
    pub fn set_value(&mut self, key: &str, value: &str, comment: Option<&str>) -> (r: bool)
        ensures
            ({
                let i = first_starting(old(self)@.lines, with_marker(key@));
                let c = match comment {
                    Some(c) => Some(c@),
                    None => None,
                };
                if i < old(self).lines.len() {
                    &&& r
                    &&& final(self)@ == old(self).with_lines(
                        old(self)@.lines.update(i, setting_line(key@, value@, c)),
                    )
                } else {
                    !r && final(self)@ == old(self)@
                }
            }),
    {
        let p = marker_after(key);
        let pc = chars_of(p.as_str());
        match self.find_first_starting(&pc) {
            Some(i) => {
                let mut l = key.to_owned();
                l.append(" = ");
                l.append(value);
                proof {
                    reveal_strlit(" = ");
                    assert(" = "@ =~= seq![' ', '=', ' ']);
                }
                match comment {
                    Some(c) => {
                        l.append(" # ");
                        l.append(c);
                        proof {
                            reveal_strlit(" # ");
                            assert(" # "@ =~= seq![' ', '#', ' ']);
                        }
                    },
                    None => {},
                }
                let ghost prev = self@.lines;
                self.lines.set(i, l);
                assert(self@.lines =~= prev.update(
                    i as int,
                    setting_line(
                        key@,
                        value@,
                        match comment {
                            Some(c) => Some(c@),
                            None => None,
                        },
                    ),
                ));
                true
            },
            None => false,
        }
    }

    /// Replaces each literal line-break token (a backslash and an `n`) after
    /// the marker of each line of key `key` (keys compared trimmed) with a space.
    pub fn remove_linebreaks(&mut self, key: &str)
        ensures
            final(self)@ == old(self).with_lines(
                old(self)@.lines.map_values(|l: Seq<char>| unbroken(l, key@)),
            ),
    {
        let kc = chars_of(key);
        let kb = trim_bounds(&kc);
        let ghost before = old(self)@.lines;
        let mut i: usize = 0;
        while i < self.lines.len()
            invariant
                i <= self.lines.len(),
                self.lines.len() == before.len(),
                self.name == old(self).name,
                self.title_line == old(self).title_line,
                kc@ == key@,
                kb.0 <= kb.1 <= kc.len(),
                kc@.subrange(kb.0 as int, kb.1 as int) == trim(key@),
                forall|k: int| 0 <= k < i ==> (#[trigger] self@.lines[k]) == unbroken(before[k], key@),
                forall|k: int| i <= k < before.len() ==> (#[trigger] self@.lines[k]) == before[k],
            decreases self.lines.len() - i,
        {
            assert(self@.lines[i as int] == before[i as int]);
            let lc = chars_of(self.lines[i].as_str());
            proof {
                lemma_marker_index(lc@);
            }
            match find_marker(&lc) {
                Some(m) => {
                    let k = take_chars(&lc, m);
                    if equal_ranges(&k, trim_bounds(&k), &kc, kb) {
                        let l = unbreak_line(self.lines[i].as_str(), &lc, m + 2);
                        let ghost prev = self@.lines;
                        self.lines.set(i, l);
                        assert(self@.lines =~= prev.update(i as int, l@));
                    }
                },
                None => {},
            }
            i = i + 1;
        }
        assert(self@.lines =~= before.map_values(|l: Seq<char>| unbroken(l, key@)));
    }

    /// Sorts the lines by code point, as `str`'s `<` orders them.
    pub fn sort(&mut self)
        ensures
            final(self).name == old(self).name,
            final(self).title_line == old(self).title_line,
            sorted_lines(final(self)@.lines),
            final(self)@.lines.to_multiset() == old(self)@.lines.to_multiset(),
    {
        let ghost before = self@.lines;
        let mut out: Vec<String> = Vec::new();
        let mut oc: Vec<Vec<char>> = Vec::new();
        let mut i: usize = 0;
        assert(view_lines(out@) =~= before.take(0));
        while i < self.lines.len()
            invariant
                *self == *old(self),
                before == self@.lines,
                i <= self.lines.len(),
                oc.len() == out.len(),
                forall|k: int| 0 <= k < oc.len() ==> (#[trigger] oc[k])@ == out[k]@,
                sorted_lines(view_lines(out@)),
                view_lines(out@).to_multiset() == before.take(i as int).to_multiset(),
            decreases self.lines.len() - i,
        {
            let x = chars_of(self.lines[i].as_str());
            let mut j: usize = 0;
            while j < oc.len() && !less_than(&x, &oc[j], false)
                invariant
                    j <= oc.len(),
                    oc.len() == out.len(),
                    forall|k: int| 0 <= k < oc.len() ==> (#[trigger] oc[k])@ == out[k]@,
                    forall|k: int| 0 <= k < j ==> !lex_less(codes(x@), codes(#[trigger] out[k]@)),
                decreases oc.len() - j,
            {
                j = j + 1;
            }
            let ghost vo = view_lines(out@);
            proof {
                lemma_sorted_insert(vo, x@, j as int);
            }
            let l = self.lines[i].clone();
            out.insert(j, l);
            oc.insert(j, x);
            proof {
                assert(view_lines(out@) =~= vo.insert(j as int, x@));
                lemma_multiset_insert(vo, j as int, x@);
                assert(before.take(i + 1) =~= before.take(i as int).push(before[i as int]));
                before.take(i as int).to_multiset_ensures();
            }
            i = i + 1;
        }
        assert(before.take(i as int) =~= before);
        self.lines = out;
    }

    /// Removes the first line of key `key` (the line starts with the key and
    /// the marker) and returns it.
    pub fn take_line(&mut self, key: &str) -> (r: Option<String>)
        ensures
            ({
                let i = first_starting(old(self)@.lines, with_marker(key@));
                if i < old(self).lines.len() {
                    &&& r is Some
                    &&& r->0@ == old(self)@.lines[i]
                    &&& final(self)@ == old(self).with_lines(old(self)@.lines.remove(i))
                } else {
                    &&& r is None
                    &&& final(self)@ == old(self)@
                }
            }),
    {
        let p = marker_after(key);
        let pc = chars_of(p.as_str());
        match self.find_first_starting(&pc) {
            Some(i) => {
                let l = self.lines.remove(i);
                assert(view_lines(self.lines@) =~= view_lines(old(self).lines@).remove(i as int));
                Some(l)
            },
            None => None,
        }
    }

    /// A copy of the first line of key `key` (the line starts with the key
    /// and the marker).
    pub fn line_of(&self, key: &str) -> (r: Option<String>)
        ensures
            ({
                let i = first_starting(self@.lines, with_marker(key@));
                if i < self.lines.len() {
                    r is Some && r->0@ == self@.lines[i]
                } else {
                    r is None
                }
            }),
    {
        let p = marker_after(key);
        let pc = chars_of(p.as_str());
        match self.find_first_starting(&pc) {
            Some(i) => Some(self.lines[i].clone()),
            None => None,
        }
    }

    /// The index of the first line whose key is `key`, ASCII case ignored.
    fn find_folded(&self, key: &str) -> (r: Option<usize>)
        ensures
            match r {
                Some(i) => i < self.lines.len() && i == first_folded(self@.lines, key@),
                None => first_folded(self@.lines, key@) == self.lines.len(),
            },
    {
        let kc = chars_of(key);
        let mut i: usize = 0;
        while i < self.lines.len()
            invariant
                i <= self.lines.len(),
                kc@ == key@,
                first_folded(self@.lines, key@) == first_folded_from(self@.lines, key@, i as int),
            decreases self.lines.len() - i,
        {
            let lc = chars_of(self.lines[i].as_str());
            assert(lc@ == self@.lines[i as int]);
            proof {
                lemma_marker_index(lc@);
            }
            match find_marker(&lc) {
                Some(m) => {
                    let k = take_chars(&lc, m);
                    if equal_folded(&k, &kc) {
                        return Some(i);
                    }
                },
                None => {},
            }
            i = i + 1;
        }
        None
    }

    /// Removes the first line whose key is `key`, ASCII case ignored, and returns it.
    pub fn remove_line(&mut self, key: &str) -> (r: Option<String>)
        ensures
            ({
                let i = first_folded(old(self)@.lines, key@);
                if i < old(self).lines.len() {
                    &&& r is Some
                    &&& r->0@ == old(self)@.lines[i]
                    &&& final(self)@ == old(self).with_lines(old(self)@.lines.remove(i))
                } else {
                    &&& r is None
                    &&& final(self)@ == old(self)@
                }
            }),
    {
        match self.find_folded(key) {
            Some(i) => {
                let l = self.lines.remove(i);
                assert(view_lines(self.lines@) =~= view_lines(old(self).lines@).remove(i as int));
                Some(l)
            },
            None => None,
        }
    }

    /// A copy of the first line whose key is `key`, ASCII case ignored.
    pub fn get_line(&self, key: &str) -> (r: Option<String>)
        ensures
            ({
                let i = first_folded(self@.lines, key@);
                if i < self.lines.len() {
                    r is Some && r->0@ == self@.lines[i]
                } else {
                    r is None
                }
            }),
    {
        match self.find_folded(key) {
            Some(i) => Some(self.lines[i].clone()),
            None => None,
        }
    }

    /// Inserts `line` unless a line of its key is already there, before the
    /// first line that sorts after its key (ASCII case folded), or else after
    /// the last non-empty line. Comment lines, lines without a key and the
    /// line of the reserved key `translators` are never inserted. Returns
    /// whether it went in.
    pub fn insert_line_if_missing(&mut self, line: &str) -> (r: bool)
        ensures
            r == inserts(old(self)@.lines, line@),
            final(self)@ == old(self).with_lines(after_insert(old(self)@.lines, line@)),
    {
        let lc = chars_of(line);
        let m = match find_marker(&lc) {
            Some(m) => m,
            None => {
                return false;
            },
        };
        proof {
            lemma_marker_index(lc@);
        }
        let prefix = take_chars(&lc, m + 2);
        assert(prefix@ == key_prefix(line@));
        if prefix[0] == '#' {
            assert(starts_with(prefix@, seq!['#'])) by {
                assert(prefix@.take(1) =~= seq!['#']);
            }
            return false;
        }
        assert(!starts_with(prefix@, seq!['#'])) by {
            if starts_with(prefix@, seq!['#']) {
                assert(prefix@.take(1)[0] == '#');
            }
        }
        let tr = translators_chars();
        if equal_chars(&prefix, &tr) {
            return false;
        }
        let ghost lines = old(self)@.lines;
        // One pass: is the key there already, and where would the line go?
        let mut after: usize = self.lines.len();
        let mut i: usize = 0;
        while i < self.lines.len()
            invariant
                *self == *old(self),
                lines == self@.lines,
                prefix@ == key_prefix(line@),
                i <= self.lines.len(),
                after <= self.lines.len(),
                forall|k: int| 0 <= k < i ==> !starts_with(#[trigger] lines[k], prefix@),
                after == self.lines.len() ==> first_after_from(lines, prefix@, 0)
                    == first_after_from(lines, prefix@, i as int),
                after < self.lines.len() ==> after < i && after == first_after_from(
                    lines,
                    prefix@,
                    0,
                ),
            decreases self.lines.len() - i,
        {
            let ic = chars_of(self.lines[i].as_str());
            assert(ic@ == lines[i as int]);
            if has_prefix(&ic, &prefix) {
                assert(has_line_starting(lines, prefix@));
                return false;
            }
            if after == self.lines.len() && less_than(&prefix, &ic, true) {
                after = i;
            }
            i = i + 1;
        }
        assert(!has_line_starting(lines, prefix@));
        assert(after == self.lines.len() ==> first_after_from(lines, prefix@, 0) == lines.len());
        let pos = if after < self.lines.len() {
            assert(after == insert_position(lines, prefix@));
            after
        } else {
            let mut j: usize = self.lines.len();
            while j > 0 && self.lines[j - 1].as_str().is_empty()
                invariant
                    *self == *old(self),
                    lines == self@.lines,
                    j <= self.lines.len(),
                    forall|k: int| j <= k < lines.len() ==> (#[trigger] lines[k]).len() == 0,
                decreases j,
            {
                j = j - 1;
            }
            proof {
                lemma_end_of_content(lines, j as int);
            }
            assert(j == insert_position(lines, prefix@));
            j
        };
        assert(pos == insert_position(lines, prefix@));
        self.lines.insert(pos, line.to_owned());
        assert(view_lines(self.lines@) =~= lines.insert(pos as int, line@));
        true
    }
}

// ---------------------------------------------------------------------------
// Laws of insertion.
// ---------------------------------------------------------------------------

/// Inserting a line twice leaves the section as inserting it once does: the
/// second insertion finds the key already there. When the first one inserts,
/// exactly one line of the result bears the line's key prefix.
pub proof fn lemma_insert_idempotent(lines: Seq<Seq<char>>, l: Seq<char>)
    ensures
        !inserts(after_insert(lines, l), l),
        after_insert(after_insert(lines, l), l) == after_insert(lines, l),
        inserts(lines, l) ==> forall|k: int|
            0 <= k < after_insert(lines, l).len() ==> (starts_with(
                #[trigger] after_insert(lines, l)[k],
                key_prefix(l),
            ) <==> k == insert_position(lines, key_prefix(l))),
{
    let r = after_insert(lines, l);
    if inserts(lines, l) {
        lemma_marker_index(l);
        let pos = insert_position(lines, key_prefix(l));
        lemma_insert_position_bounds(lines, key_prefix(l));
        assert(l.take(key_prefix(l).len() as int) =~= key_prefix(l));
        assert(r[pos] == l);
        assert(has_line_starting(r, key_prefix(l)));
        assert forall|k: int| 0 <= k < r.len() implies (starts_with(#[trigger] r[k], key_prefix(l))
            <==> k == pos) by {
            if k < pos {
                assert(r[k] == lines[k]);
            } else if k > pos {
                assert(r[k] == lines[k - 1]);
            }
        }
    }
}

proof fn lemma_first_after_bounds(lines: Seq<Seq<char>>, p: Seq<char>, i: int)
    requires
        0 <= i <= lines.len(),
    ensures
        i <= first_after_from(lines, p, i) <= lines.len(),
    decreases lines.len() - i,
{
    if i < lines.len() && !sorts_after(lines[i], p) {
        lemma_first_after_bounds(lines, p, i + 1);
    }
}

proof fn lemma_end_of_content_bounds(lines: Seq<Seq<char>>)
    ensures
        0 <= end_of_content(lines) <= lines.len(),
    decreases lines.len(),
{
    if lines.len() > 0 && lines.last().len() == 0 {
        lemma_end_of_content_bounds(lines.drop_last());
    }
}

pub proof fn lemma_insert_position_bounds(lines: Seq<Seq<char>>, p: Seq<char>)
    ensures
        0 <= insert_position(lines, p) <= lines.len(),
{
    lemma_first_after_bounds(lines, p, 0);
    lemma_end_of_content_bounds(lines);
}

/// Lexicographic order is asymmetric.
pub proof fn lemma_lex_asym(a: Seq<u32>, b: Seq<u32>)
    ensures
        !(lex_less(a, b) && lex_less(b, a)),
{
    if lex_less(a, b) && lex_less(b, a) {
        let i = choose|i: int| lex_less_at(a, b, i);
        let j = choose|j: int| lex_less_at(b, a, j);
        if i < j {
            assert(a.take(j)[i] == b.take(j)[i]);
        } else if j < i {
            assert(a.take(i)[j] == b.take(i)[j]);
        }
    }
}

/// The folded codes of two characters agree on a space or an equals sign only
/// where the characters do.
proof fn lemma_fold_fixed(c: char, d: char)
    requires
        fold_code(c) == fold_code(d),
        d == ' ' || d == '=',
    ensures
        c == d,
{
    assert(fold_code(d) == d as u32);
    if 'A' <= c && c <= 'Z' {
        assert(fold_code(c) >= 97);
    }
    assert(c as u32 == d as u32);
}

/// A line that starts with key prefix `pa`, which sorts before key prefix
/// `p` (folded), neither starts with `p` nor sorts after it.
proof fn lemma_before_prefix(a: Seq<char>, pa: Seq<char>, x: Seq<char>)
    requires
        is_key_line(x),
        starts_with(a, pa),
        pa.len() >= 2,
        pa[pa.len() - 2] == ' ',
        pa[pa.len() - 1] == '=',
        lex_less(folded(pa), folded(key_prefix(x))),
    ensures
        !starts_with(a, key_prefix(x)),
        !sorts_after(a, key_prefix(x)),
{
    let p = key_prefix(x);
    let m = marker_index(x);
    lemma_marker_index(x);
    assert(p.take(m + 2) =~= x.take(m + 2));
    lemma_marker_of_agreeing(x, p, m);
    lemma_marker_index(p);
    let fa = folded(pa);
    let fp = folded(p);
    let i = choose|i: int| lex_less_at(fa, fp, i);
    if i == pa.len() {
        // `pa` would be a proper prefix of `p`, putting a marker before its first one
        let k = pa.len() - 2;
        assert(fa.take(i)[k] == fp.take(i)[k]);
        assert(fa.take(i)[k + 1] == fp.take(i)[k + 1]);
        lemma_fold_fixed(p[k], ' ');
        lemma_fold_fixed(p[k + 1], '=');
        assert(has_marker_at(p, k));
        assert(false);
    } else {
        assert(a.take(pa.len() as int)[i] == pa[i]);
        assert(folded(a)[i] == fa[i]);
        assert forall|t: int| 0 <= t < i implies folded(a).take(i)[t] == fp.take(i)[t] by {
            assert(fa.take(i)[t] == fp.take(i)[t]);
            assert(a.take(pa.len() as int)[t] == pa[t]);
        }
        assert(folded(a).take(i) =~= fp.take(i));
        assert(lex_less_at(folded(a), fp, i));
        lemma_lex_asym(folded(a), fp);
        if starts_with(a, p) {
            assert(a.take(p.len() as int)[i] == p[i]);
        }
    }
}

/// Inserts the lines of `ls` one after the other.
pub open spec fn insert_all(lines: Seq<Seq<char>>, ls: Seq<Seq<char>>) -> Seq<Seq<char>>
    decreases ls.len(),
{
    if ls.len() == 0 {
        lines
    } else {
        after_insert(insert_all(lines, ls.drop_last()), ls.last())
    }
}

/// The lines may be inserted, and their key prefixes ascend, ASCII case folded.
pub open spec fn ascending_keys(ls: Seq<Seq<char>>) -> bool {
    &&& forall|i: int| 0 <= i < ls.len() ==> insertable(#[trigger] ls[i])
    &&& forall|i: int, j: int|
        0 <= i < j < ls.len() ==> lex_less(
            folded(key_prefix(#[trigger] ls[i])),
            folded(key_prefix(#[trigger] ls[j])),
        )
}

/// Inserting lines whose key prefixes ascend (ASCII case folded) into an
/// empty section yields them in that same order.
pub proof fn lemma_insert_ascending(ls: Seq<Seq<char>>)
    requires
        ascending_keys(ls),
    ensures
        insert_all(Seq::empty(), ls) == ls,
    decreases ls.len(),
{
    if ls.len() > 0 {
        let init = ls.drop_last();
        let x = ls.last();
        assert(ascending_keys(init)) by {
            assert forall|i: int, j: int| 0 <= i < j < init.len() implies lex_less(
                folded(key_prefix(#[trigger] init[i])),
                folded(key_prefix(#[trigger] init[j])),
            ) by {
                assert(init[i] == ls[i] && init[j] == ls[j]);
            }
        }
        lemma_insert_ascending(init);
        let p = key_prefix(x);
        assert(insertable(ls[ls.len() - 1]));
        assert forall|k: int| 0 <= k < init.len() implies !starts_with(#[trigger] init[k], p)
            && !sorts_after(init[k], p) by {
            let a = init[k];
            assert(a == ls[k]);
            assert(insertable(ls[k]));
            lemma_marker_index(a);
            let pa = key_prefix(a);
            assert(a.take(pa.len() as int) =~= pa);
            assert(lex_less(folded(key_prefix(ls[k])), folded(key_prefix(ls[ls.len() - 1]))));
            lemma_before_prefix(a, pa, x);
        }
        assert(!has_line_starting(init, p));
        lemma_first_after_none(init, p, 0);
        lemma_marker_index(x);
        assert(init.len() > 0 ==> init.last().len() != 0) by {
            if init.len() > 0 {
                lemma_marker_index(init.last());
                assert(insertable(ls[init.len() - 1]));
            }
        }
        assert(init.insert(init.len() as int, x) =~= ls);
    }
}

proof fn lemma_first_after_none(lines: Seq<Seq<char>>, p: Seq<char>, i: int)
    requires
        0 <= i <= lines.len(),
        forall|k: int| 0 <= k < lines.len() ==> !sorts_after(#[trigger] lines[k], p),
    ensures
        first_after_from(lines, p, i) == lines.len(),
    decreases lines.len() - i,
{
    if i < lines.len() {
        lemma_first_after_none(lines, p, i + 1);
    }
}


/// Commenting out unknown lines twice leaves what doing it once leaves: a
/// commented line starts with exactly one `#`, the line it came from not being a
/// comment, and a commented line is no longer unknown. Font settings and URL
/// keys are never touched, neither commented nor removed.
pub proof fn lemma_comment_out_idempotent(l: Seq<char>, reference: Seq<Seq<char>>)
    ensures
        commented(commented(l, reference), reference) == commented(l, reference),
        is_unknown(l, reference) ==> commented(l, reference) == seq!['#'] + l && l.len() > 0
            && l[0] != '#',
        is_key_line(l) && (starts_with(key_prefix(l), font_seq()) || contains(
            key_prefix(l),
            url_seq(),
        )) ==> commented(l, reference) == l && kept(reference)(l),
{
    if is_unknown(l, reference) {
        let c = seq!['#'] + l;
        let m = marker_index(l);
        lemma_marker_index(l);
        lemma_marker_index(c);
        assert(has_marker_at(c, m + 1)) by {
            assert(c[m + 1] == l[m] && c[m + 2] == l[m + 1]);
        }
        assert(marker_index(c) >= 0);
        assert(key_prefix(c)[0] == '#');
        assert(key_prefix(c).take(1) =~= seq!['#']);
        assert(!is_unknown(c, reference));
        assert(key_prefix(l)[0] == l[0]);
        if l[0] == '#' {
            assert(key_prefix(l).take(1) =~= seq!['#']);
        }
    }
}


/// Renaming keeps a translation and replaces a placeholder. The last line
/// of key `old` is taken out, and a line of key `new` is inserted at its
/// place: when what followed the old marker, trimmed, equals `old` trimmed,
/// that line is `new = new`; otherwise it is `new`, the marker, and that text
/// unchanged, comment included. When the line goes in, the section holds it.
pub proof fn lemma_rename_alias(lines: Seq<Seq<char>>, old: Seq<char>, new: Seq<char>)
    requires
        last_starting(lines, with_marker(old)) >= 0,
    ensures
        ({
            let i = last_starting(lines, with_marker(old));
            let rest = lines[i].skip(old.len() + 2 as int);
            let nl = renamed_line(lines[i], old, new);
            &&& trim(rest) == trim(old) ==> nl == new + seq![' ', '=', ' '] + new
                && after_rename(lines, old, new) == after_insert(
                lines.remove(i),
                new + seq![' ', '=', ' '] + new,
            )
            &&& trim(rest) != trim(old) ==> nl == with_marker(new) + rest && after_rename(
                lines,
                old,
                new,
            ) == after_insert(lines.remove(i), with_marker(new) + rest)
            &&& inserts(lines.remove(i), nl) ==> after_rename(lines, old, new).contains(nl)
        }),
{
    let i = last_starting(lines, with_marker(old));
    lemma_last_starting(lines, with_marker(old), lines.len() as int);
    let nl = renamed_line(lines[i], old, new);
    assert(with_marker(new) + (seq![' '] + new) =~= new + seq![' ', '=', ' '] + new);
    if inserts(lines.remove(i), nl) {
        let rl = lines.remove(i);
        let pos = insert_position(rl, key_prefix(nl));
        lemma_insert_position_bounds(rl, key_prefix(nl));
        assert(after_rename(lines, old, new)[pos] == nl);
    }
}

/// A key without a marker, then the marker: that marker is the first.
proof fn lemma_marker_after_key(k: Seq<char>, c: Seq<char>)
    requires
        marker_index(k) == -1,
    ensures
        marker_index(with_marker(k) + c) == k.len(),
{
    let t = with_marker(k) + c;
    lemma_marker_index(k);
    lemma_marker_index(t);
    assert(t[k.len() as int] == ' ' && t[k.len() + 1 as int] == '=');
    assert(has_marker_at(t, k.len() as int));
    assert forall|j: int| 0 <= j < k.len() implies !has_marker_at(t, j) by {
        if j + 1 < k.len() {
            assert(t[j] == k[j] && t[j + 1] == k[j + 1]);
            assert(!has_marker_at(k, j));
        } else {
            assert(t[j + 1] == ' ');
        }
    }
}

/// After a rename of a key that one line bore, no line bears the old key,
/// when neither key holds a marker and they differ.
pub proof fn lemma_rename_removes_old(lines: Seq<Seq<char>>, old: Seq<char>, new: Seq<char>)
    requires
        last_starting(lines, with_marker(old)) >= 0,
        forall|k: int|
            0 <= k < lines.len() && starts_with(#[trigger] lines[k], with_marker(old)) ==> k
                == last_starting(lines, with_marker(old)),
        marker_index(old) == -1,
        marker_index(new) == -1,
        old != new,
    ensures
        forall|k: int|
            0 <= k < after_rename(lines, old, new).len() ==> !starts_with(
                #[trigger] after_rename(lines, old, new)[k],
                with_marker(old),
            ),
{
    let i = last_starting(lines, with_marker(old));
    lemma_last_starting(lines, with_marker(old), lines.len() as int);
    let rl = lines.remove(i);
    let nl = renamed_line(lines[i], old, new);
    let wo = with_marker(old);
    // the new line does not bear the old key
    if starts_with(nl, wo) {
        lemma_marker_after_key(new, carried_rest(lines[i], old, new));
        lemma_marker_after_key(old, Seq::empty());
        assert(wo + Seq::<char>::empty() =~= wo);
        let m = old.len() as int;
        assert(wo.take(m + 2) =~= wo);
        lemma_marker_of_agreeing(wo, nl, m);
        assert(new.len() == old.len());
        assert forall|t: int| 0 <= t < old.len() implies old[t] == new[t] by {
            assert(nl.take(wo.len() as int)[t] == wo[t]);
        }
        assert(old =~= new);
    }
    assert forall|k: int| 0 <= k < rl.len() implies !starts_with(#[trigger] rl[k], wo) by {
        if k < i {
            assert(rl[k] == lines[k]);
        } else {
            assert(rl[k] == lines[k + 1]);
        }
    }
    let r = after_rename(lines, old, new);
    if inserts(rl, nl) {
        let pos = insert_position(rl, key_prefix(nl));
        lemma_insert_position_bounds(rl, key_prefix(nl));
        assert forall|k: int| 0 <= k < r.len() implies !starts_with(#[trigger] r[k], wo) by {
            if k < pos {
                assert(r[k] == rl[k]);
            } else if k > pos {
                assert(r[k] == rl[k - 1]);
            }
        }
    }
}

} // verus!
