use vstd::prelude::*;

use crate::inifile::{
    body_len, body_text, bom, file_lines, header_name, is_header, join_lines, lines_acc, opens,
    parsed, section_lines, sections_of, serialized, split_lines,
};
use crate::section::SectionModel;

verus! {

// ---------------------------------------------------------------------------
// Lines and text.
// ---------------------------------------------------------------------------

pub open spec fn no_newline(l: Seq<char>) -> bool {
    forall|i: int| 0 <= i < l.len() ==> l[i] != '\n'
}

pub open spec fn all_no_newline(ls: Seq<Seq<char>>) -> bool {
    forall|i: int| 0 <= i < ls.len() ==> no_newline(#[trigger] ls[i])
}

proof fn lemma_acc_extend(t: Seq<char>, c: Seq<char>)
    requires
        no_newline(c),
    ensures
        lines_acc(t + c) == (lines_acc(t).0, lines_acc(t).1 + c),
    decreases c.len(),
{
    if c.len() == 0 {
        assert(t + c =~= t);
        assert(lines_acc(t).1 + c =~= lines_acc(t).1);
    } else {
        let c0 = c.drop_last();
        assert((t + c).drop_last() =~= t + c0);
        assert((t + c).last() == c.last());
        assert(c.last() == c[c.len() - 1]);
        lemma_acc_extend(t, c0);
        assert(lines_acc(t).1 + c0 + seq![c.last()] =~= lines_acc(t).1 + c);
        assert((lines_acc(t).1 + c0).push(c.last()) =~= lines_acc(t).1 + c);
    }
}

proof fn lemma_acc_join(ls: Seq<Seq<char>>)
    requires
        all_no_newline(ls),
    ensures
        lines_acc(join_lines(ls)) == (ls, Seq::<char>::empty()),
    decreases ls.len(),
{
    if ls.len() == 0 {
        assert(lines_acc(join_lines(ls)).0 =~= ls);
    } else {
        let init = ls.drop_last();
        assert(all_no_newline(init)) by {
            assert forall|i: int| 0 <= i < init.len() implies no_newline(#[trigger] init[i]) by {
                assert(init[i] == ls[i]);
            }
        }
        lemma_acc_join(init);
        let j = join_lines(init) + ls.last();
        assert(no_newline(ls.last())) by {
            assert(ls.last() == ls[ls.len() - 1]);
        }
        lemma_acc_extend(join_lines(init), ls.last());
        let full = join_lines(ls);
        assert(full.drop_last() =~= j);
        assert(full.last() == '\n');
        assert(Seq::<char>::empty() + ls.last() =~= ls.last());
        assert(init.push(ls.last()) =~= ls);
    }
}

/// Splitting joined lines gives those lines back.
pub proof fn lemma_split_join(ls: Seq<Seq<char>>)
    requires
        all_no_newline(ls),
    ensures
        split_lines(join_lines(ls)) == ls,
{
    lemma_acc_join(ls);
}

proof fn lemma_join_acc(t: Seq<char>)
    ensures
        join_lines(lines_acc(t).0) + lines_acc(t).1 == t,
        all_no_newline(lines_acc(t).0),
        no_newline(lines_acc(t).1),
        t.len() > 0 && t.last() != '\n' ==> lines_acc(t).1.len() > 0,
        t.len() == 0 || t.last() == '\n' ==> lines_acc(t).1.len() == 0,
    decreases t.len(),
{
    if t.len() == 0 {
        assert(join_lines(lines_acc(t).0) + lines_acc(t).1 =~= t);
    } else {
        let t0 = t.drop_last();
        lemma_join_acc(t0);
        let (ls, cur) = lines_acc(t0);
        if t.last() == '\n' {
            let nl = ls.push(cur);
            assert(nl.drop_last() =~= ls);
            assert(join_lines(nl) + Seq::<char>::empty() =~= t);
            assert forall|i: int| 0 <= i < nl.len() implies no_newline(#[trigger] nl[i]) by {
                if i < ls.len() {
                    assert(nl[i] == ls[i]);
                }
            }
        } else {
            assert(t0.push(t.last()) =~= t);
            assert(join_lines(ls) + cur.push(t.last()) =~= (join_lines(ls) + cur).push(t.last()));
            assert forall|i: int| 0 <= i < cur.push(t.last()).len() implies cur.push(t.last())[i]
                != '\n' by {
                if i < cur.len() {
                    assert(cur.push(t.last())[i] == cur[i]);
                }
            }
        }
    }
}

/// Joining the lines of a text gives it back, with a newline added at the
/// end when it had none there; and no line holds a newline.
pub proof fn lemma_join_split(t: Seq<char>)
    ensures
        all_no_newline(split_lines(t)),
        t.len() == 0 || t.last() == '\n' ==> join_lines(split_lines(t)) == t,
        t.len() > 0 && t.last() != '\n' ==> join_lines(split_lines(t)) == t + seq!['\n'],
{
    lemma_join_acc(t);
    let (ls, cur) = lines_acc(t);
    if cur.len() == 0 {
        assert(join_lines(ls) + cur =~= join_lines(ls));
    } else {
        assert(ls.push(cur).drop_last() =~= ls);
        assert forall|i: int| 0 <= i < ls.push(cur).len() implies no_newline(
            #[trigger] ls.push(cur)[i],
        ) by {
            if i < ls.len() {
                assert(ls.push(cur)[i] == ls[i]);
            }
        }
    }
}

proof fn lemma_join_concat(a: Seq<Seq<char>>, b: Seq<Seq<char>>)
    ensures
        join_lines(a + b) == join_lines(a) + join_lines(b),
    decreases b.len(),
{
    if b.len() == 0 {
        assert(a + b =~= a);
        assert(join_lines(a) + join_lines(b) =~= join_lines(a));
    } else {
        assert((a + b).drop_last() =~= a + b.drop_last());
        assert((a + b).last() == b.last());
        lemma_join_concat(a, b.drop_last());
        assert(join_lines(a + b) =~= join_lines(a) + join_lines(b));
    }
}

// ---------------------------------------------------------------------------
// Lines and sections.
// ---------------------------------------------------------------------------

/// Each section has a header that names it, and no line of it starts with `[`.
pub open spec fn well_formed_section(s: SectionModel) -> bool {
    &&& is_header(s.title_line)
    &&& header_name(s.title_line) == s.name
    &&& forall|i: int| 0 <= i < s.lines.len() ==> !opens(#[trigger] s.lines[i])
}

pub open spec fn well_formed_sections(ss: Seq<SectionModel>) -> bool {
    forall|i: int| 0 <= i < ss.len() ==> well_formed_section(#[trigger] ss[i])
}

proof fn lemma_body_len_concat(a: Seq<Seq<char>>, b: Seq<Seq<char>>)
    requires
        forall|i: int| 0 <= i < a.len() ==> !opens(#[trigger] a[i]),
        b.len() == 0 || opens(b[0]),
    ensures
        body_len(a + b) == a.len(),
    decreases a.len(),
{
    if a.len() == 0 {
        assert(a + b =~= b);
    } else {
        assert((a + b).drop_first() =~= a.drop_first() + b);
        assert((a + b)[0] == a[0]);
        assert forall|i: int| 0 <= i < a.drop_first().len() implies !opens(
            #[trigger] a.drop_first()[i],
        ) by {
            assert(a.drop_first()[i] == a[i + 1]);
        }
        lemma_body_len_concat(a.drop_first(), b);
    }
}

proof fn lemma_section_lines_front(s: SectionModel, rest: Seq<SectionModel>)
    ensures
        section_lines(seq![s] + rest) == seq![s.title_line] + s.lines + section_lines(rest),
    decreases rest.len(),
{
    if rest.len() == 0 {
        assert(seq![s] + rest =~= seq![s]);
        assert(seq![s].drop_last() =~= Seq::<SectionModel>::empty());
        assert(section_lines(Seq::<SectionModel>::empty()) =~= Seq::<Seq<char>>::empty());
        assert(seq![s.title_line] + s.lines + section_lines(rest) =~= section_lines(
            Seq::<SectionModel>::empty(),
        ) + seq![s.title_line] + s.lines);
    } else {
        let whole = seq![s] + rest;
        assert(whole.drop_last() =~= seq![s] + rest.drop_last());
        assert(whole.last() == rest.last());
        lemma_section_lines_front(s, rest.drop_last());
        assert(section_lines(whole) =~= seq![s.title_line] + s.lines + section_lines(rest));
    }
}

/// Well-formed sections, written out as lines, read back as themselves.
proof fn lemma_sections_of_lines(ss: Seq<SectionModel>)
    requires
        well_formed_sections(ss),
    ensures
        sections_of(section_lines(ss)) == ss,
        section_lines(ss).len() == 0 || opens(section_lines(ss)[0]),
    decreases ss.len(),
{
    if ss.len() == 0 {
        assert(sections_of(section_lines(ss)) =~= ss);
    } else {
        let s = ss[0];
        let rest = ss.drop_first();
        assert(ss =~= seq![s] + rest);
        lemma_section_lines_front(s, rest);
        assert(well_formed_sections(rest)) by {
            assert forall|i: int| 0 <= i < rest.len() implies well_formed_section(#[trigger] rest[i]) by {
                assert(rest[i] == ss[i + 1]);
            }
        }
        assert(well_formed_section(ss[0]));
        lemma_sections_of_lines(rest);
        let ls = section_lines(ss);
        let tail = section_lines(rest);
        assert(ls[0] == s.title_line);
        assert(ls.drop_first() =~= s.lines + tail);
        lemma_body_len_concat(s.lines, tail);
        assert(ls.drop_first().take(s.lines.len() as int) =~= s.lines);
        assert(ls.drop_first().skip(s.lines.len() as int) =~= tail);
        assert(sections_of(ls) =~= seq![s] + sections_of(tail));
    }
}

proof fn lemma_body_len_prefix(ls: Seq<Seq<char>>)
    ensures
        body_len(ls) <= ls.len(),
        forall|k: int| 0 <= k < body_len(ls) ==> !opens(#[trigger] ls[k]),
        body_len(ls) < ls.len() ==> opens(ls[body_len(ls) as int]),
    decreases ls.len(),
{
    if ls.len() > 0 && !opens(ls[0]) {
        let t = ls.drop_first();
        lemma_body_len_prefix(t);
        assert forall|k: int| 0 <= k < body_len(ls) implies !opens(#[trigger] ls[k]) by {
            if k > 0 {
                assert(ls[k] == t[k - 1]);
            }
        }
    }
}

/// The line starts with `[` but is no header: reading stops there.
pub open spec fn stops(l: Seq<char>) -> bool {
    opens(l) && !is_header(l)
}

/// The sections read from lines are well formed, and written out they are
/// the lines read, up to any line that stops the reading.
proof fn lemma_sections_of_prefix(ls: Seq<Seq<char>>)
    requires
        ls.len() == 0 || opens(ls[0]),
    ensures
        well_formed_sections(sections_of(ls)),
        section_lines(sections_of(ls)).len() <= ls.len(),
        section_lines(sections_of(ls)) == ls.take(section_lines(sections_of(ls)).len() as int),
        (forall|k: int| 0 <= k < ls.len() ==> !stops(#[trigger] ls[k])) ==> section_lines(
            sections_of(ls),
        ) == ls,
    decreases ls.len(),
{
    if ls.len() == 0 || !is_header(ls[0]) {
        assert(sections_of(ls) =~= Seq::<SectionModel>::empty());
        assert(ls.take(0) =~= Seq::<Seq<char>>::empty());
        if ls.len() > 0 {
            assert(stops(ls[0]));
        }
    } else {
        let t = ls.drop_first();
        let n = body_len(t);
        lemma_body_len_prefix(t);
        let s = SectionModel { name: header_name(ls[0]), title_line: ls[0], lines: t.take(n as int) };
        let rest = t.skip(n as int);
        assert(rest.len() == 0 || opens(rest[0])) by {
            if rest.len() > 0 {
                assert(rest[0] == t[n as int]);
            }
        }
        lemma_sections_of_prefix(rest);
        let rs = sections_of(rest);
        assert(sections_of(ls) == seq![s] + rs);
        assert(well_formed_section(s)) by {
            assert forall|i: int| 0 <= i < s.lines.len() implies !opens(#[trigger] s.lines[i]) by {
                assert(s.lines[i] == t[i]);
            }
        }
        assert(well_formed_sections(seq![s] + rs)) by {
            assert forall|i: int| 0 <= i < (seq![s] + rs).len() implies well_formed_section(
                #[trigger] (seq![s] + rs)[i],
            ) by {
                if i > 0 {
                    assert((seq![s] + rs)[i] == rs[i - 1]);
                }
            }
        }
        lemma_section_lines_front(s, rs);
        let m = section_lines(rs).len() as int;
        assert(section_lines(sections_of(ls)) =~= ls.take(1 + n + m));
        if forall|k: int| 0 <= k < ls.len() ==> !stops(#[trigger] ls[k]) {
            assert forall|k: int| 0 <= k < rest.len() implies !stops(#[trigger] rest[k]) by {
                assert(rest[k] == ls[k + 1 + n]);
            }
            assert(section_lines(rs) == rest);
            assert(ls.take(1 + n + m) =~= ls);
        }
    }
}

/// What a text parses to is well formed, and its lines are those of the
/// text, up to a line that stops the reading.
proof fn lemma_parsed_lines(filename: Seq<char>, text: Seq<char>)
    ensures
        ({
            let f = parsed(filename, text);
            let ls = split_lines(body_text(text));
            &&& forall|i: int| 0 <= i < f.preamble.len() ==> !opens(#[trigger] f.preamble[i])
            &&& well_formed_sections(f.sections)
            &&& file_lines(f).len() <= ls.len()
            &&& file_lines(f) == ls.take(file_lines(f).len() as int)
            &&& (forall|k: int| 0 <= k < ls.len() ==> !stops(#[trigger] ls[k])) ==> file_lines(f)
                == ls
            &&& section_lines(f.sections).len() == 0 || opens(section_lines(f.sections)[0])
        }),
{
    let f = parsed(filename, text);
    let ls = split_lines(body_text(text));
    let n = body_len(ls);
    lemma_body_len_prefix(ls);
    let rest = ls.skip(n as int);
    assert(rest.len() == 0 || opens(rest[0])) by {
        if rest.len() > 0 {
            assert(rest[0] == ls[n as int]);
        }
    }
    lemma_sections_of_prefix(rest);
    assert forall|i: int| 0 <= i < f.preamble.len() implies !opens(#[trigger] f.preamble[i]) by {
        assert(f.preamble[i] == ls[i]);
    }
    let m = section_lines(f.sections).len() as int;
    assert(file_lines(f) =~= ls.take(n + m));
    if forall|k: int| 0 <= k < ls.len() ==> !stops(#[trigger] ls[k]) {
        assert forall|k: int| 0 <= k < rest.len() implies !stops(#[trigger] rest[k]) by {
            assert(rest[k] == ls[k + n]);
        }
        assert(ls.take(n + m) =~= ls);
    }
    if m > 0 {
        lemma_sections_of_lines(f.sections);
    }
}

// ---------------------------------------------------------------------------
// The round trip.
// ---------------------------------------------------------------------------

/// Parsing what an unchanged parse writes out gives the same file again: the
/// same preamble, sections and byte-order mark.
pub proof fn lemma_parse_serialize_parse(filename: Seq<char>, text: Seq<char>)
    ensures
        parsed(filename, serialized(parsed(filename, text))) == parsed(filename, text),
{
    let f = parsed(filename, text);
    let body = body_text(text);
    let ls = split_lines(body);
    lemma_parsed_lines(filename, text);
    lemma_join_split(body);
    let fl = file_lines(f);
    let k = fl.len() as int;
    assert(all_no_newline(fl)) by {
        assert forall|i: int| 0 <= i < fl.len() implies no_newline(#[trigger] fl[i]) by {
            assert(fl[i] == ls[i]);
        }
    }
    let j = join_lines(fl);
    let s = serialized(f);
    // The text written starts with the mark exactly when the file had one.
    assert(ls =~= fl + ls.skip(k));
    lemma_join_concat(fl, ls.skip(k));
    if !f.has_bom && j.len() > 0 {
        assert(body == text);
        assert(ls.len() > 0) by {
            if ls.len() == 0 {
                assert(fl.len() == 0);
                assert(j =~= Seq::<char>::empty());
            }
        }
        assert(body.len() > 0) by {
            if body.len() == 0 {
                assert(lines_acc(body).0 =~= Seq::<Seq<char>>::empty());
            }
        }
        assert(j[0] == join_lines(ls)[0]);
        if body.last() == '\n' {
            assert(join_lines(ls) == body);
        } else {
            assert(join_lines(ls) == body + seq!['\n']);
        }
        assert(j[0] == body[0]);
    }
    assert(s =~= (if f.has_bom {
        seq![bom()]
    } else {
        Seq::<char>::empty()
    }) + j);
    assert(body_text(s) =~= j);
    lemma_split_join(fl);
    lemma_body_len_concat(f.preamble, section_lines(f.sections));
    assert(fl.take(f.preamble.len() as int) =~= f.preamble);
    assert(fl.skip(f.preamble.len() as int) =~= section_lines(f.sections));
    lemma_sections_of_lines(f.sections);
}

/// A text that ends with a newline (or is empty) and has no line that
/// stops the reading is written out again exactly as it was read, byte-order
/// mark included.
pub proof fn lemma_serialize_parse(filename: Seq<char>, text: Seq<char>)
    requires
        body_text(text).len() == 0 || body_text(text).last() == '\n',
        forall|k: int|
            0 <= k < split_lines(body_text(text)).len() ==> !stops(
                #[trigger] split_lines(body_text(text))[k],
            ),
    ensures
        serialized(parsed(filename, text)) == text,
{
    lemma_parsed_lines(filename, text);
    lemma_join_split(body_text(text));
    let f = parsed(filename, text);
    if f.has_bom {
        assert(seq![bom()] + text.drop_first() =~= text);
    } else {
        assert(Seq::<char>::empty() + text =~= text);
    }
}

} // verus!
