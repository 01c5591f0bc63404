use vstd::prelude::*;

use crate::section::{Section, SectionModel, view_lines};
use crate::text::{chars_of, codes, lex_less};

verus! {

/// A file of sections: the lines before the first header, the sections in
/// order, and whether the text began with a byte-order mark.
#[derive(Debug)]
pub struct IniFile {
    pub filename: String,
    pub preamble: Vec<String>,
    pub sections: Vec<Section>,
    pub has_bom: bool,
}

pub struct IniModel {
    pub filename: Seq<char>,
    pub preamble: Seq<Seq<char>>,
    pub sections: Seq<SectionModel>,
    pub has_bom: bool,
}

pub open spec fn view_sections(v: Seq<Section>) -> Seq<SectionModel> {
    v.map_values(|s: Section| s@)
}

impl View for IniFile {
    type V = IniModel;

    open spec fn view(&self) -> IniModel {
        IniModel {
            filename: self.filename@,
            preamble: view_lines(self.preamble@),
            sections: view_sections(self.sections@),
            has_bom: self.has_bom,
        }
    }
}

pub open spec fn bom() -> char {
    '\u{feff}'
}

// ---------------------------------------------------------------------------
// Text and lines.
// ---------------------------------------------------------------------------

/// The finished lines of `t` and the line still open at its end.
pub open spec fn lines_acc(t: Seq<char>) -> (Seq<Seq<char>>, Seq<char>)
    decreases t.len(),
{
    if t.len() == 0 {
        (Seq::empty(), Seq::empty())
    } else {
        let (ls, cur) = lines_acc(t.drop_last());
        if t.last() == '\n' {
            (ls.push(cur), Seq::empty())
        } else {
            (ls, cur.push(t.last()))
        }
    }
}

/// The lines of `t`, split at each newline; a last line needs no newline.
pub open spec fn split_lines(t: Seq<char>) -> Seq<Seq<char>> {
    let (ls, cur) = lines_acc(t);
    if cur.len() == 0 {
        ls
    } else {
        ls.push(cur)
    }
}

/// Each line followed by a newline.
pub open spec fn join_lines(ls: Seq<Seq<char>>) -> Seq<char>
    decreases ls.len(),
{
    if ls.len() == 0 {
        Seq::empty()
    } else {
        join_lines(ls.drop_last()) + ls.last() + seq!['\n']
    }
}

// ---------------------------------------------------------------------------
// Lines and sections.
// ---------------------------------------------------------------------------

/// The line starts with `[`.
pub open spec fn opens(l: Seq<char>) -> bool {
    l.len() > 0 && l[0] == '['
}

/// The position of the first `]`, or the length.
pub open spec fn close_from(l: Seq<char>, i: int) -> int
    decreases l.len() - i,
{
    if 0 <= i < l.len() {
        if l[i] == ']' {
            i
        } else {
            close_from(l, i + 1)
        }
    } else {
        l.len() as int
    }
}

/// A section header: `[`, and a `]` later on the line.
pub open spec fn is_header(l: Seq<char>) -> bool {
    opens(l) && close_from(l, 0) < l.len()
}

pub open spec fn header_name(l: Seq<char>) -> Seq<char> {
    l.subrange(1, close_from(l, 0))
}

/// How many lines from the start do not start with `[`.
pub open spec fn body_len(ls: Seq<Seq<char>>) -> nat
    decreases ls.len(),
{
    if ls.len() == 0 || opens(ls[0]) {
        0
    } else {
        1 + body_len(ls.drop_first())
    }
}

/// The sections that lines starting at a header make: each header with the
/// lines up to the next line that starts with `[`. A line that starts with
/// `[` but is no header ends the file.
pub open spec fn sections_of(ls: Seq<Seq<char>>) -> Seq<SectionModel>
    decreases ls.len(),
    via sections_of_decreases
{
    if ls.len() == 0 || !is_header(ls[0]) {
        Seq::empty()
    } else {
        let n = body_len(ls.drop_first());
        seq![
            SectionModel {
                name: header_name(ls[0]),
                title_line: ls[0],
                lines: ls.drop_first().take(n as int),
            },
        ] + sections_of(ls.drop_first().skip(n as int))
    }
}

pub proof fn lemma_body_len_le(ls: Seq<Seq<char>>)
    ensures
        body_len(ls) <= ls.len(),
    decreases ls.len(),
{
    if ls.len() > 0 && !opens(ls[0]) {
        lemma_body_len_le(ls.drop_first());
    }
}

#[via_fn]
proof fn sections_of_decreases(ls: Seq<Seq<char>>) {
    if ls.len() > 0 {
        lemma_body_len_le(ls.drop_first());
    }
}

/// The text without its byte-order mark.
pub open spec fn body_text(text: Seq<char>) -> Seq<char> {
    if text.len() > 0 && text[0] == bom() {
        text.drop_first()
    } else {
        text
    }
}

/// What a text parses to.
pub open spec fn parsed(filename: Seq<char>, text: Seq<char>) -> IniModel {
    let ls = split_lines(body_text(text));
    let n = body_len(ls);
    IniModel {
        filename,
        preamble: ls.take(n as int),
        sections: sections_of(ls.skip(n as int)),
        has_bom: text.len() > 0 && text[0] == bom(),
    }
}

/// Each section's header followed by its lines.
pub open spec fn section_lines(ss: Seq<SectionModel>) -> Seq<Seq<char>>
    decreases ss.len(),
{
    if ss.len() == 0 {
        Seq::empty()
    } else {
        section_lines(ss.drop_last()) + seq![ss.last().title_line] + ss.last().lines
    }
}

pub open spec fn file_lines(f: IniModel) -> Seq<Seq<char>> {
    f.preamble + section_lines(f.sections)
}

/// The text of a file: the byte-order mark if it had one, then every line
/// followed by a newline.
pub open spec fn serialized(f: IniModel) -> Seq<char> {
    (if f.has_bom {
        seq![bom()]
    } else {
        Seq::empty()
    }) + join_lines(file_lines(f))
}

/// The index of the first section named `name`, or the length.
pub open spec fn section_index_from(ss: Seq<SectionModel>, name: Seq<char>, i: int) -> int
    decreases ss.len() - i,
{
    if 0 <= i < ss.len() {
        if ss[i].name == name {
            i
        } else {
            section_index_from(ss, name, i + 1)
        }
    } else {
        ss.len() as int
    }
}

pub open spec fn section_index(ss: Seq<SectionModel>, name: Seq<char>) -> int {
    section_index_from(ss, name, 0)
}

pub open spec fn has_section(ss: Seq<SectionModel>, name: Seq<char>) -> bool {
    exists|i: int| 0 <= i < ss.len() && (#[trigger] ss[i]).name == name
}

/// The first index at or after `i` whose section's name sorts after `name`, or the length.
pub open spec fn section_after_from(ss: Seq<SectionModel>, name: Seq<char>, i: int) -> int
    decreases ss.len() - i,
{
    if 0 <= i < ss.len() {
        if lex_less(codes(name), codes(ss[i].name)) {
            i
        } else {
            section_after_from(ss, name, i + 1)
        }
    } else {
        ss.len() as int
    }
}

/// The sections once `s` is inserted, when no section bears its name: before
/// the first section whose name sorts after it, or else last.
pub open spec fn after_section_insert(ss: Seq<SectionModel>, s: SectionModel) -> Seq<SectionModel> {
    if has_section(ss, s.name) {
        ss
    } else {
        let j = section_after_from(ss, s.name, 0);
        if j < ss.len() {
            ss.insert(j, s)
        } else {
            ss.push(s)
        }
    }
}

// ---------------------------------------------------------------------------
// Executable code.
// ---------------------------------------------------------------------------

/// The lines of `text`, split at each newline.
pub fn split_text(text: &str, tc: &Vec<char>) -> (r: Vec<String>)
    requires
        tc@ == text@,
    ensures
        view_lines(r@) == split_lines(text@),
{
    let ghost t = text@;
    let mut out: Vec<String> = Vec::new();
    let mut start: usize = 0;
    let mut i: usize = 0;
    assert(t.take(0) =~= Seq::<char>::empty());
    while i < tc.len()
        invariant
            t == text@,
            tc@ == t,
            start <= i <= tc.len(),
            lines_acc(t.take(i as int)) == (view_lines(out@), t.subrange(start as int, i as int)),
        decreases tc.len() - i,
    {
        assert(t.take(i + 1).drop_last() =~= t.take(i as int));
        assert(t.take(i + 1).last() == t[i as int]);
        if tc[i] == '\n' {
            let l = text.substring_char(start, i);
            let ghost prev = view_lines(out@);
            out.push(l.to_owned());
            assert(view_lines(out@) =~= prev.push(l@));
            i = i + 1;
            start = i;
            assert(t.subrange(start as int, i as int) =~= Seq::<char>::empty());
        } else {
            assert(t.subrange(start as int, i + 1) =~= t.subrange(start as int, i as int).push(
                t[i as int],
            ));
            i = i + 1;
        }
    }
    assert(t.take(i as int) =~= t);
    if start < tc.len() {
        let l = text.substring_char(start, tc.len());
        let ghost prev = view_lines(out@);
        out.push(l.to_owned());
        assert(view_lines(out@) =~= prev.push(l@));
    }
    out
}

/// The line is a header; its `]` stands at the returned position.
fn header_close(l: &Vec<char>) -> (r: Option<usize>)
    requires
        opens(l@),
    ensures
        match r {
            Some(k) => is_header(l@) && k as int == close_from(l@, 0) && 0 < k < l.len(),
            None => !is_header(l@),
        },
{
    let mut i: usize = 0;
    while i < l.len()
        invariant
            i <= l.len(),
            opens(l@),
            close_from(l@, 0) == close_from(l@, i as int),
            i > 0 || close_from(l@, 0) > 0 || l@[0] == '[',
        decreases l.len() - i,
    {
        if l[i] == ']' {
            assert(i != 0);
            return Some(i);
        }
        i = i + 1;
    }
    None
}

fn opens_line(l: &Vec<char>) -> (r: bool)
    ensures
        r == opens(l@),
{
    l.len() > 0 && l[0] == '['
}

/// Scans from `a` to the first line that starts with `[`.
fn body_end(lc: &Vec<Vec<char>>, a: usize, ghost_ls: Ghost<Seq<Seq<char>>>) -> (r: usize)
    requires
        a <= lc.len(),
        lc.len() == ghost_ls@.len(),
        forall|k: int| 0 <= k < lc.len() ==> (#[trigger] lc[k])@ == ghost_ls@[k],
    ensures
        a <= r <= lc.len(),
        body_len(ghost_ls@.skip(a as int)) == r - a,
{
    let mut q: usize = a;
    while q < lc.len() && !opens_line(&lc[q])
        invariant
            a <= q <= lc.len(),
            lc.len() == ghost_ls@.len(),
            forall|k: int| 0 <= k < lc.len() ==> (#[trigger] lc[k])@ == ghost_ls@[k],
            forall|k: int| a <= k < q ==> !opens(#[trigger] ghost_ls@[k]),
        decreases lc.len() - q,
    {
        q = q + 1;
    }
    proof {
        lemma_body_len(ghost_ls@, a as int, q as int);
    }
    q
}

proof fn lemma_body_len(ls: Seq<Seq<char>>, a: int, q: int)
    requires
        0 <= a <= q <= ls.len(),
        forall|k: int| a <= k < q ==> !opens(#[trigger] ls[k]),
        q == ls.len() || opens(ls[q]),
    ensures
        body_len(ls.skip(a)) == q - a,
    decreases q - a,
{
    let t = ls.skip(a);
    if a < q {
        assert(t.drop_first() =~= ls.skip(a + 1));
        assert(t[0] == ls[a]);
        lemma_body_len(ls, a + 1, q);
    } else if q < ls.len() {
        assert(t[0] == ls[q]);
    }
}

impl IniFile {
    /// Parses the text of a file: a leading byte-order mark is noted and
    /// dropped; lines before the first header make the preamble; each header
    /// opens a section that holds the lines up to the next header, kept as
    /// they are. A line that starts with `[` and has no `]` ends the reading,
    /// what came before being kept.
    pub fn parse(filename: &str, text: &str) -> (r: IniFile)
        ensures
            r@ == parsed(filename@, text@),
    {
        let all = chars_of(text);
        let has_bom = all.len() > 0 && all[0] == '\u{feff}';
        let body = if has_bom {
            text.substring_char(1, all.len())
        } else {
            text
        };
        assert(body@ == body_text(text@)) by {
            if has_bom {
                assert(text@.subrange(1, all.len() as int) =~= text@.drop_first());
            }
        }
        let bc = chars_of(body);
        let lines = split_text(body, &bc);
        let ghost ls = view_lines(lines@);
        let lc = crate::section::lines_chars(&lines);
        let n = body_end(&lc, 0, Ghost(ls));
        assert(ls.skip(0) =~= ls);
        let mut preamble: Vec<String> = Vec::new();
        let mut i: usize = 0;
        while i < n
            invariant
                i <= n <= lines.len(),
                ls == view_lines(lines@),
                view_lines(preamble@) == ls.take(i as int),
            decreases n - i,
        {
            let ghost prev = view_lines(preamble@);
            let l = lines[i].clone();
            assert(l@ == ls[i as int]);
            preamble.push(l);
            assert(view_lines(preamble@) =~= prev.push(l@));
            assert(view_lines(preamble@) =~= ls.take(i + 1));
            i = i + 1;
        }
        let mut sections: Vec<Section> = Vec::new();
        let mut p: usize = n;
        assert(view_sections(sections@) + sections_of(ls.skip(p as int)) =~= sections_of(
            ls.skip(n as int),
        ));
        let mut done = false;
        while !done && p < lines.len() && opens_line(&lc[p])
            invariant
                n <= p <= lines.len(),
                done ==> p < lines.len() && !is_header(ls[p as int]),
                ls == view_lines(lines@),
                lc.len() == lines.len(),
                forall|k: int| 0 <= k < lc.len() ==> (#[trigger] lc[k])@ == ls[k],
                view_sections(sections@) + sections_of(ls.skip(p as int)) == sections_of(
                    ls.skip(n as int),
                ),
            decreases lines.len() - p, (if done {
                0int
            } else {
                1int
            }),
        {
            let close = match header_close(&lc[p]) {
                Some(k) => k,
                None => {
                    done = true;
                    continue;
                },
            };
            let q = body_end(&lc, p + 1, Ghost(ls));
            let name = lines[p].as_str().substring_char(1, close);
            let mut body_lines: Vec<String> = Vec::new();
            let mut j: usize = p + 1;
            while j < q
                invariant
                    p + 1 <= j <= q <= lines.len(),
                    ls == view_lines(lines@),
                    view_lines(body_lines@) == ls.subrange(p + 1, j as int),
                decreases q - j,
            {
                let ghost prev = view_lines(body_lines@);
                let l = lines[j].clone();
                assert(l@ == ls[j as int]);
                body_lines.push(l);
                assert(view_lines(body_lines@) =~= prev.push(l@));
                assert(view_lines(body_lines@) =~= ls.subrange(p + 1, j + 1));
                j = j + 1;
            }
            let s = Section { name: name.to_owned(), title_line: lines[p].clone(), lines: body_lines };
            proof {
                let t = ls.skip(p as int);
                assert(t[0] == ls[p as int]);
                assert(t.drop_first() =~= ls.skip(p + 1));
                assert(t.drop_first().take(q - p - 1) =~= ls.subrange(p + 1, q as int));
                assert(t.drop_first().skip(q - p - 1) =~= ls.skip(q as int));
                assert(s@ == SectionModel {
                    name: header_name(t[0]),
                    title_line: t[0],
                    lines: t.drop_first().take(q - p - 1),
                });
            }
            let ghost prev = view_sections(sections@);
            sections.push(s);
            assert(view_sections(sections@) =~= prev.push(s@));
            assert(view_sections(sections@) + sections_of(ls.skip(q as int)) =~= prev + sections_of(
                ls.skip(p as int),
            ));
            p = q;
        }
        proof {
            let t = ls.skip(p as int);
            if p < lines.len() {
                assert(t[0] == ls[p as int]);
            }
            assert(sections_of(t) =~= Seq::<SectionModel>::empty());
            assert(view_sections(sections@) =~= sections_of(ls.skip(n as int)));
        }
        IniFile { filename: filename.to_owned(), preamble, sections, has_bom }
    }

    /// The text of the file: the byte-order mark if it had one, then each
    /// line followed by a newline.
    pub fn to_text(&self) -> (r: String)
        ensures
            r@ == serialized(self@),
    {
        let mut out = String::new();
        if self.has_bom {
            out.append("\u{feff}");
            proof {
                reveal_strlit("\u{feff}");
                assert(out@ =~= seq![bom()]);
            }
        }
        let ghost head = out@;
        proof {
            assert(head =~= (if self.has_bom {
                seq![bom()]
            } else {
                Seq::<char>::empty()
            }));
            reveal_strlit("\n");
        }
        let ghost pre = self@.preamble;
        let mut i: usize = 0;
        assert(pre.take(0) =~= Seq::<Seq<char>>::empty());
        while i < self.preamble.len()
            invariant
                i <= self.preamble.len(),
                pre == self@.preamble,
                "\n"@ == seq!['\n'],
                out@ == head + join_lines(pre.take(i as int)),
            decreases self.preamble.len() - i,
        {
            out.append(self.preamble[i].as_str());
            out.append("\n");
            assert(pre.take(i + 1).drop_last() =~= pre.take(i as int));
            assert(out@ =~= head + join_lines(pre.take(i + 1)));
            i = i + 1;
        }
        assert(pre.take(i as int) =~= pre);
        let ghost ss = self@.sections;
        let mut k: usize = 0;
        assert(ss.take(0) =~= Seq::<SectionModel>::empty());
        assert(pre + section_lines(ss.take(0)) =~= pre);
        while k < self.sections.len()
            invariant
                k <= self.sections.len(),
                pre == self@.preamble,
                ss == self@.sections,
                "\n"@ == seq!['\n'],
                out@ == head + join_lines(pre + section_lines(ss.take(k as int))),
            decreases self.sections.len() - k,
        {
            let s = &self.sections[k];
            let ghost before = pre + section_lines(ss.take(k as int));
            assert(ss.take(k + 1).drop_last() =~= ss.take(k as int));
            assert(ss.take(k + 1).last() == s@);
            out.append(s.title_line.as_str());
            out.append("\n");
            proof {
                assert(before.push(s.title_line@).drop_last() =~= before);
                assert(out@ =~= head + join_lines(before.push(s.title_line@)));
            }
            let ghost mid = before.push(s.title_line@);
            let ghost sl = s@.lines;
            let mut j: usize = 0;
            assert(mid + sl.take(0) =~= mid);
            while j < s.lines.len()
                invariant
                    j <= s.lines.len(),
                    sl == s@.lines,
                    "\n"@ == seq!['\n'],
                    out@ == head + join_lines(mid + sl.take(j as int)),
                decreases s.lines.len() - j,
            {
                out.append(s.lines[j].as_str());
                out.append("\n");
                assert((mid + sl.take(j + 1)).drop_last() =~= mid + sl.take(j as int));
                assert((mid + sl.take(j + 1)).last() == sl[j as int]);
                assert(out@ =~= head + join_lines(mid + sl.take(j + 1)));
                j = j + 1;
            }
            assert(sl.take(j as int) =~= sl);
            assert(mid + sl =~= pre + section_lines(ss.take(k + 1)));
            k = k + 1;
        }
        assert(ss.take(k as int) =~= ss);
        out
    }

    /// Inserts a copy of `section` unless a section of its name is there:
    /// before the first section whose name sorts after it (sections being
    /// kept in order of name), or else at the end; the other sections stay as
    /// they were. Returns whether it went in.
    pub fn insert_section_if_missing(&mut self, section: &Section) -> (r: bool)
        ensures
            r == !has_section(old(self)@.sections, section@.name),
            final(self)@.sections == after_section_insert(old(self)@.sections, section@),
            final(self)@.preamble == old(self)@.preamble,
            final(self).filename == old(self).filename,
            final(self).has_bom == old(self).has_bom,
    {
        let ghost ss = old(self)@.sections;
        let nc = chars_of(section.name.as_str());
        let mut after: usize = self.sections.len();
        let mut i: usize = 0;
        while i < self.sections.len()
            invariant
                *self == *old(self),
                ss == self@.sections,
                nc@ == section@.name,
                i <= self.sections.len(),
                after <= self.sections.len(),
                forall|k: int| 0 <= k < i ==> (#[trigger] ss[k]).name != section@.name,
                after == self.sections.len() ==> section_after_from(ss, section@.name, 0)
                    == section_after_from(ss, section@.name, i as int),
                after < self.sections.len() ==> after < i && after == section_after_from(
                    ss,
                    section@.name,
                    0,
                ),
            decreases self.sections.len() - i,
        {
            let ic = chars_of(self.sections[i].name.as_str());
            if crate::text::equal_chars(&ic, &nc) {
                assert(has_section(ss, section@.name)) by {
                    assert(ss[i as int].name == section@.name);
                }
                return false;
            }
            if after == self.sections.len() && crate::text::less_than(&nc, &ic, false) {
                after = i;
            }
            i = i + 1;
        }
        assert(!has_section(ss, section@.name));
        let copy = section.copied();
        if after < self.sections.len() {
            self.sections.insert(after, copy);
            assert(view_sections(self.sections@) =~= ss.insert(after as int, section@));
        } else {
            self.sections.push(copy);
            assert(view_sections(self.sections@) =~= after_section_insert(ss, section@));
        }
        true
    }

    /// The first section named `section_name`, to change it in place.
    pub fn get_section_mut(&mut self, section_name: &str) -> (r: Option<&mut Section>)
        ensures
            ({
                let i = section_index(old(self)@.sections, section_name@);
                if i < old(self).sections.len() {
                    &&& r is Some
                    &&& *r->0 == old(self).sections[i]
                    &&& final(self).sections@ == old(self).sections@.update(i, *final(r->0))
                    &&& final(self).preamble == old(self).preamble
                    &&& final(self).filename == old(self).filename
                    &&& final(self).has_bom == old(self).has_bom
                } else {
                    r is None && *final(self) == *old(self)
                }
            }),
    {
        match self.find_section(section_name) {
            Some(i) => Some(&mut self.sections[i]),
            None => None,
        }
    }

    /// The first section named `section_name`.
    pub fn get_section(&self, section_name: &str) -> (r: Option<&Section>)
        ensures
            ({
                let i = section_index(self@.sections, section_name@);
                if i < self.sections.len() {
                    r is Some && *r->0 == self.sections[i]
                } else {
                    r is None
                }
            }),
    {
        match self.find_section(section_name) {
            Some(i) => Some(&self.sections[i]),
            None => None,
        }
    }

    /// The index of the first section named `section_name`.
    pub fn find_section(&self, section_name: &str) -> (r: Option<usize>)
        ensures
            match r {
                Some(i) => i < self.sections.len() && i as int == section_index(
                    self@.sections,
                    section_name@,
                ),
                None => section_index(self@.sections, section_name@) == self.sections.len(),
            },
    {
        let nc = chars_of(section_name);
        let mut i: usize = 0;
        while i < self.sections.len()
            invariant
                i <= self.sections.len(),
                nc@ == section_name@,
                section_index(self@.sections, section_name@) == section_index_from(
                    self@.sections,
                    section_name@,
                    i as int,
                ),
            decreases self.sections.len() - i,
        {
            let ic = chars_of(self.sections[i].name.as_str());
            if crate::text::equal_chars(&ic, &nc) {
                return Some(i);
            }
            i = i + 1;
        }
        None
    }
}

} // verus!
