use vstd::prelude::*;

use crate::inifile::{parsed, section_index, IniFile};
use crate::section::{char_from, first_starting, setting_line, take_chars, value_text, Section};
use crate::text::{
    chars_of, equal_chars, find_marker, is_key_line, key_of, lemma_marker_index, marker_index,
    trim, trim_bounds, with_marker,
};
use crate::translate::view_pairs;

verus! {

// ---------------------------------------------------------------------------
// Entries: the key and value of each key line, trimmed.
// ---------------------------------------------------------------------------

pub open spec fn entry_key(l: Seq<char>) -> Seq<char> {
    trim(key_of(l))
}

pub open spec fn entry_value(l: Seq<char>) -> Seq<char> {
    value_text(l, marker_index(l) + 2)
}

/// The key and value of each key line, in order.
pub open spec fn key_entries(lines: Seq<Seq<char>>) -> Seq<(Seq<char>, Seq<char>)> {
    lines.filter(|l: Seq<char>| is_key_line(l)).map_values(
        |l: Seq<char>| (entry_key(l), entry_value(l)),
    )
}

/// The value of the first entry of key `k`.
pub open spec fn lookup_first(es: Seq<(Seq<char>, Seq<char>)>, k: Seq<char>) -> Option<Seq<char>>
    decreases es.len(),
{
    if es.len() == 0 {
        None
    } else if es[0].0 == k {
        Some(es[0].1)
    } else {
        lookup_first(es.drop_first(), k)
    }
}

/// The key of the first entry whose value is `v`.
pub open spec fn key_for_value(es: Seq<(Seq<char>, Seq<char>)>, v: Seq<char>) -> Option<Seq<char>>
    decreases es.len(),
{
    if es.len() == 0 {
        None
    } else if es[0].1 == v {
        Some(es[0].0)
    } else {
        key_for_value(es.drop_first(), v)
    }
}

/// The reference's aliases: entries whose value is not their own key, a
/// legacy key name standing for its current display text.
pub open spec fn alias_entries(es: Seq<(Seq<char>, Seq<char>)>) -> Seq<(Seq<char>, Seq<char>)> {
    es.filter(|p: (Seq<char>, Seq<char>)| p.0 != p.1)
}

/// Upper-case letters only, as for an acronym: some ASCII upper-case letter
/// and no ASCII lower-case one.
pub open spec fn all_upper(v: Seq<char>) -> bool {
    &&& exists|i: int| 0 <= i < v.len() && 'A' <= #[trigger] v[i] && v[i] <= 'Z'
    &&& forall|i: int| 0 <= i < v.len() ==> !('a' <= #[trigger] v[i] && v[i] <= 'z')
}

/// A target entry whose value is still the reference's, and is not an acronym.
pub open spec fn is_untranslated(p: (Seq<char>, Seq<char>), re: Seq<(Seq<char>, Seq<char>)>) -> bool {
    lookup_first(re, p.0) == Some(p.1) && !all_upper(p.1)
}

/// A target entry of a key the reference has, whose value differs from the reference's.
pub open spec fn is_translated(p: (Seq<char>, Seq<char>), re: Seq<(Seq<char>, Seq<char>)>) -> bool {
    lookup_first(re, p.0) is Some && lookup_first(re, p.0) != Some(p.1)
}

/// How an untranslated key is shown in a request: by its alias, if it has one.
pub open spec fn shown_key(k: Seq<char>, aliases: Seq<(Seq<char>, Seq<char>)>) -> Seq<char> {
    match lookup_first(aliases, k) {
        Some(a) => a,
        None => k,
    }
}

/// The key a returned key stands for: the key whose alias it is, if any.
pub open spec fn canonical_key(k: Seq<char>, aliases: Seq<(Seq<char>, Seq<char>)>) -> Seq<char> {
    match key_for_value(aliases, k) {
        Some(c) => c,
        None => k,
    }
}

// ---------------------------------------------------------------------------
// The request.
// ---------------------------------------------------------------------------

pub const REQUEST_HEAD: &'static str = "Translate the following UI strings into the language ";

pub const REQUEST_SECTION: &'static str = ". They belong to the section '";

pub const REQUEST_POLICY: &'static str = "'. Fill in each empty value and answer in the same format, the section header first, with no other text. Keep placeholders (such as %1, %s or {0}), abbreviations and named terms (such as PSP) exactly as they are.\n";

pub const REQUEST_EXAMPLES: &'static str = "Strings of this section that are already translated, for reference:\n";

/// Each key followed by an empty value.
pub open spec fn blank_lines(keys: Seq<Seq<char>>) -> Seq<char>
    decreases keys.len(),
{
    if keys.len() == 0 {
        Seq::empty()
    } else {
        blank_lines(keys.drop_last()) + keys.last() + " = \n"@
    }
}

/// Each entry as a line `key = value`.
pub open spec fn example_lines(es: Seq<(Seq<char>, Seq<char>)>) -> Seq<char>
    decreases es.len(),
{
    if es.len() == 0 {
        Seq::empty()
    } else {
        example_lines(es.drop_last()) + es.last().0 + " = "@ + es.last().1 + "\n"@
    }
}

pub open spec fn request_text(
    lang: Seq<char>,
    section: Seq<char>,
    keys: Seq<Seq<char>>,
    examples: Seq<(Seq<char>, Seq<char>)>,
) -> Seq<char> {
    REQUEST_HEAD@ + lang + REQUEST_SECTION@ + section + REQUEST_POLICY@ + "["@ + section + "]\n"@
        + blank_lines(keys) + REQUEST_EXAMPLES@ + example_lines(examples)
}

/// The keys to ask for, each shown by its alias if it has one.
pub open spec fn requested_keys(te: Seq<(Seq<char>, Seq<char>)>, re: Seq<(Seq<char>, Seq<char>)>) -> Seq<
    Seq<char>,
> {
    te.filter(|p: (Seq<char>, Seq<char>)| is_untranslated(p, re)).map_values(
        |p: (Seq<char>, Seq<char>)| shown_key(p.0, alias_entries(re)),
    )
}

pub open spec fn translated_entries(
    te: Seq<(Seq<char>, Seq<char>)>,
    re: Seq<(Seq<char>, Seq<char>)>,
) -> Seq<(Seq<char>, Seq<char>)> {
    te.filter(|p: (Seq<char>, Seq<char>)| is_translated(p, re))
}

// ---------------------------------------------------------------------------
// Merging the reply.
// ---------------------------------------------------------------------------

pub const MACHINE_TRANSLATED: &'static str = "AI translated";

/// The lines once the first line of `key` is set to `value`, marked as
/// machine translated.
pub open spec fn after_set(lines: Seq<Seq<char>>, key: Seq<char>, value: Seq<char>) -> Seq<Seq<char>> {
    let i = first_starting(lines, with_marker(key));
    if i < lines.len() {
        lines.update(i, setting_line(key, value, Some(MACHINE_TRANSLATED@)))
    } else {
        lines
    }
}

/// The lines once each returned entry is set, under the key it stands for.
pub open spec fn after_merge(
    lines: Seq<Seq<char>>,
    returned: Seq<(Seq<char>, Seq<char>)>,
    aliases: Seq<(Seq<char>, Seq<char>)>,
) -> Seq<Seq<char>>
    decreases returned.len(),
{
    if returned.len() == 0 {
        lines
    } else {
        let p = returned.last();
        after_set(after_merge(lines, returned.drop_last(), aliases), canonical_key(p.0, aliases), p.1)
    }
}

// ---------------------------------------------------------------------------
// Executable code.
// ---------------------------------------------------------------------------

/// The key and value of a line that bears a key.
pub fn entry_of(line: &str) -> (r: Option<(String, String)>)
    ensures
        match r {
            Some(e) => is_key_line(line@) && e.0@ == entry_key(line@) && e.1@ == entry_value(
                line@,
            ),
            None => !is_key_line(line@),
        },
{
    let lc = chars_of(line);
    let m = match find_marker(&lc) {
        Some(m) => m,
        None => {
            return None;
        },
    };
    proof {
        lemma_marker_index(lc@);
    }
    let kc = take_chars(&lc, m);
    let (a, b) = trim_bounds(&kc);
    let key = line.substring_char(a, b);
    assert(key@ =~= kc@.subrange(a as int, b as int));
    let start = m + 2;
    let ghost rest = lc@.skip(start as int);
    let mut h: usize = start;
    while h < lc.len() && lc[h] != '#'
        invariant
            start <= h <= lc.len(),
            rest == lc@.skip(start as int),
            char_from(rest, '#', 0) == char_from(rest, '#', h - start),
        decreases lc.len() - h,
    {
        h = h + 1;
    }
    let v = line.substring_char(start, h);
    let vc = chars_of(v);
    assert(vc@ =~= rest.take(char_from(rest, '#', 0)));
    let (c, d) = trim_bounds(&vc);
    let value = line.substring_char(start + c, start + d);
    assert(value@ =~= vc@.subrange(c as int, d as int));
    Some((key.to_owned(), value.to_owned()))
}

/// The entries of a section's key lines, in order.
pub fn section_entries(s: &Section) -> (r: Vec<(String, String)>)
    ensures
        view_pairs(r@) == key_entries(s@.lines),
{
    let ghost lines = s@.lines;
    let ghost keyed = |l: Seq<char>| is_key_line(l);
    let ghost entry = |l: Seq<char>| (entry_key(l), entry_value(l));
    let mut out: Vec<(String, String)> = Vec::new();
    let mut i: usize = 0;
    assert(lines.take(0).filter(keyed) =~= Seq::<Seq<char>>::empty()) by {
        lines.take(0).lemma_filter_len(keyed);
    }
    while i < s.lines.len()
        invariant
            i <= s.lines.len(),
            lines == s@.lines,
            keyed == (|l: Seq<char>| is_key_line(l)),
            entry == (|l: Seq<char>| (entry_key(l), entry_value(l))),
            view_pairs(out@) == lines.take(i as int).filter(keyed).map_values(entry),
        decreases s.lines.len() - i,
    {
        let ghost f = lines.take(i as int).filter(keyed);
        proof {
            assert(lines.take(i + 1) =~= lines.take(i as int).push(lines[i as int]));
            lines.take(i as int).lemma_filter_push(lines[i as int], keyed);
        }
        match entry_of(s.lines[i].as_str()) {
            Some(e) => {
                let ghost prev = view_pairs(out@);
                out.push(e);
                assert(view_pairs(out@) =~= prev.push((e.0@, e.1@)));
                assert(f.push(lines[i as int]).map_values(entry) =~= f.map_values(entry).push(
                    entry(lines[i as int]),
                ));
            },
            None => {},
        }
        i = i + 1;
    }
    assert(lines.take(i as int) =~= lines);
    out
}

/// Where the first entry of key `k` stands.
fn find_key(es: &Vec<(String, String)>, k: &str) -> (r: Option<usize>)
    ensures
        match r {
            Some(i) => i < es@.len() && lookup_first(view_pairs(es@), k@) == Some(
                es@[i as int].1@,
            ),
            None => lookup_first(view_pairs(es@), k@) is None,
        },
{
    let kc = chars_of(k);
    let ghost v = view_pairs(es@);
    let mut i: usize = 0;
    assert(v.skip(0) =~= v);
    while i < es.len()
        invariant
            i <= es@.len(),
            kc@ == k@,
            v == view_pairs(es@),
            lookup_first(v, k@) == lookup_first(v.skip(i as int), k@),
        decreases es@.len() - i,
    {
        let ec = chars_of(es[i].0.as_str());
        assert(v.skip(i as int)[0] == v[i as int]);
        if equal_chars(&ec, &kc) {
            return Some(i);
        }
        assert(v.skip(i as int).drop_first() =~= v.skip(i + 1));
        i = i + 1;
    }
    None
}

/// Where the first entry of value `val` stands.
fn find_value(es: &Vec<(String, String)>, val: &str) -> (r: Option<usize>)
    ensures
        match r {
            Some(i) => i < es@.len() && key_for_value(view_pairs(es@), val@) == Some(
                es@[i as int].0@,
            ),
            None => key_for_value(view_pairs(es@), val@) is None,
        },
{
    let vc = chars_of(val);
    let ghost v = view_pairs(es@);
    let mut i: usize = 0;
    assert(v.skip(0) =~= v);
    while i < es.len()
        invariant
            i <= es@.len(),
            vc@ == val@,
            v == view_pairs(es@),
            key_for_value(v, val@) == key_for_value(v.skip(i as int), val@),
        decreases es@.len() - i,
    {
        let ec = chars_of(es[i].1.as_str());
        assert(v.skip(i as int)[0] == v[i as int]);
        if equal_chars(&ec, &vc) {
            return Some(i);
        }
        assert(v.skip(i as int).drop_first() =~= v.skip(i + 1));
        i = i + 1;
    }
    None
}

/// The aliases among the entries.
pub fn aliases_of(es: &Vec<(String, String)>) -> (r: Vec<(String, String)>)
    ensures
        view_pairs(r@) == alias_entries(view_pairs(es@)),
{
    let ghost v = view_pairs(es@);
    let ghost differ = |p: (Seq<char>, Seq<char>)| p.0 != p.1;
    let mut out: Vec<(String, String)> = Vec::new();
    let mut i: usize = 0;
    assert(v.take(0).filter(differ) =~= Seq::<(Seq<char>, Seq<char>)>::empty()) by {
        v.take(0).lemma_filter_len(differ);
    }
    while i < es.len()
        invariant
            i <= es@.len(),
            v == view_pairs(es@),
            differ == (|p: (Seq<char>, Seq<char>)| p.0 != p.1),
            view_pairs(out@) == v.take(i as int).filter(differ),
        decreases es@.len() - i,
    {
        proof {
            assert(v.take(i + 1) =~= v.take(i as int).push(v[i as int]));
            v.take(i as int).lemma_filter_push(v[i as int], differ);
        }
        let kc = chars_of(es[i].0.as_str());
        let vc = chars_of(es[i].1.as_str());
        if !equal_chars(&kc, &vc) {
            let ghost prev = view_pairs(out@);
            let e = (es[i].0.clone(), es[i].1.clone());
            out.push(e);
            assert(view_pairs(out@) =~= prev.push((e.0@, e.1@)));
        }
        i = i + 1;
    }
    assert(v.take(i as int) =~= v);
    out
}

fn is_all_upper(v: &str) -> (r: bool)
    ensures
        r == all_upper(v@),
{
    let vc = chars_of(v);
    let mut upper = false;
    let mut i: usize = 0;
    while i < vc.len()
        invariant
            i <= vc.len(),
            vc@ == v@,
            upper == exists|k: int| 0 <= k < i && 'A' <= #[trigger] vc@[k] && vc@[k] <= 'Z',
            forall|k: int| 0 <= k < i ==> !('a' <= #[trigger] vc@[k] && vc@[k] <= 'z'),
        decreases vc.len() - i,
    {
        let c = vc[i];
        if 'a' <= c && c <= 'z' {
            return false;
        }
        if 'A' <= c && c <= 'Z' {
            upper = true;
        }
        i = i + 1;
    }
    upper
}

/// The request that asks for the untranslated strings of `target` in
/// language `lang`, with the translated ones as examples; nothing when all
/// are translated. A key is untranslated when its value is still the
/// reference's (acronyms aside), and is shown by its alias if it has one.
pub fn translation_request(lang: &str, reference: &Section, target: &Section) -> (r: Option<String>)
    ensures
        ({
            let re = key_entries(reference@.lines);
            let te = key_entries(target@.lines);
            let keys = requested_keys(te, re);
            if keys.len() == 0 {
                r is None
            } else {
                r is Some && r->0@ == request_text(
                    lang@,
                    target@.name,
                    keys,
                    translated_entries(te, re),
                )
            }
        }),
{
    let re = section_entries(reference);
    let te = section_entries(target);
    let aliases = aliases_of(&re);
    let ghost rev = view_pairs(re@);
    let ghost tev = view_pairs(te@);
    let ghost unt = |p: (Seq<char>, Seq<char>)| is_untranslated(p, rev);
    let ghost tra = |p: (Seq<char>, Seq<char>)| is_translated(p, rev);
    let ghost shown = |p: (Seq<char>, Seq<char>)| shown_key(p.0, alias_entries(rev));
    let mut blanks = String::new();
    let mut examples = String::new();
    let mut count: usize = 0;
    let mut i: usize = 0;
    proof {
        reveal_strlit(" = \n");
        reveal_strlit(" = ");
        reveal_strlit("\n");
        tev.take(0).lemma_filter_len(unt);
        tev.take(0).lemma_filter_len(tra);
    }
    assert(tev.take(0).filter(unt).map_values(shown) =~= Seq::<Seq<char>>::empty());
    assert(tev.take(0).filter(tra) =~= Seq::<(Seq<char>, Seq<char>)>::empty());
    while i < te.len()
        invariant
            i <= te@.len(),
            rev == view_pairs(re@),
            tev == view_pairs(te@),
            view_pairs(aliases@) == alias_entries(rev),
            unt == (|p: (Seq<char>, Seq<char>)| is_untranslated(p, rev)),
            tra == (|p: (Seq<char>, Seq<char>)| is_translated(p, rev)),
            shown == (|p: (Seq<char>, Seq<char>)| shown_key(p.0, alias_entries(rev))),
            count as int == tev.take(i as int).filter(unt).len(),
            count <= i,
            blanks@ == blank_lines(tev.take(i as int).filter(unt).map_values(shown)),
            examples@ == example_lines(tev.take(i as int).filter(tra)),
        decreases te@.len() - i,
    {
        let ghost p = tev[i as int];
        let ghost fu = tev.take(i as int).filter(unt);
        let ghost ft = tev.take(i as int).filter(tra);
        proof {
            assert(tev.take(i + 1) =~= tev.take(i as int).push(p));
            tev.take(i as int).lemma_filter_push(p, unt);
            tev.take(i as int).lemma_filter_push(p, tra);
        }
        let key = te[i].0.as_str();
        let value = te[i].1.as_str();
        match find_key(&re, key) {
            Some(j) => {
                let rc = chars_of(re[j].1.as_str());
                let vc = chars_of(value);
                if equal_chars(&rc, &vc) {
                    if !is_all_upper(value) {
                        let shown_as = match find_key(&aliases, key) {
                            Some(a) => aliases[a].1.as_str(),
                            None => key,
                        };
                        blanks.append(shown_as);
                        blanks.append(" = \n");
                        count = count + 1;
                        assert(fu.push(p).map_values(shown) =~= fu.map_values(shown).push(
                            shown(p),
                        ));
                        assert(fu.push(p).map_values(shown).drop_last() =~= fu.map_values(shown));
                    }
                } else {
                    examples.append(key);
                    examples.append(" = ");
                    examples.append(value);
                    examples.append("\n");
                    assert(ft.push(p).drop_last() =~= ft);
                }
            },
            None => {},
        }
        i = i + 1;
    }
    assert(tev.take(i as int) =~= tev);
    if count == 0 {
        assert(requested_keys(tev, rev).len() == 0);
        return None;
    }
    let mut r = String::new();
    r.append(REQUEST_HEAD);
    r.append(lang);
    r.append(REQUEST_SECTION);
    r.append(target.name.as_str());
    r.append(REQUEST_POLICY);
    r.append("[");
    r.append(target.name.as_str());
    r.append("]\n");
    r.append(blanks.as_str());
    r.append(REQUEST_EXAMPLES);
    r.append(examples.as_str());
    Some(r)
}

/// Merges a reply into `target`: the reply is read as a file, and each
/// entry of its section of the target's name is set in the target, under
/// the key its alias stands for, marked as machine translated. Returns
/// whether the reply had that section; without it nothing changes.
pub fn merge_reply(target: &mut Section, reply: &str, aliases: &Vec<(String, String)>) -> (r: bool)
    ensures
        ({
            let f = parsed(""@, reply@);
            let i = section_index(f.sections, old(target)@.name);
            if i < f.sections.len() {
                &&& r
                &&& final(target)@ == old(target).with_lines(
                    after_merge(
                        old(target)@.lines,
                        key_entries(f.sections[i].lines),
                        view_pairs(aliases@),
                    ),
                )
            } else {
                !r && final(target)@ == old(target)@
            }
        }),
{
    let reply_ini = IniFile::parse("", reply);
    let name = target.name.clone();
    proof {
        crate::ops::lemma_has_section(reply_ini@.sections, name@);
    }
    let found = match reply_ini.get_section(name.as_str()) {
        Some(s) => s,
        None => {
            return false;
        },
    };
    assert(name@ == old(target)@.name);
    proof {
        crate::ops::lemma_has_section(reply_ini@.sections, name@);
        let k = section_index(reply_ini@.sections, name@);
        assert(reply_ini@.sections[k] == reply_ini.sections@[k]@);
    }
    let returned = section_entries(found);
    let ghost rv = view_pairs(returned@);
    let ghost av = view_pairs(aliases@);
    let ghost start = old(target)@;
    let mut i: usize = 0;
    assert(rv.take(0) =~= Seq::<(Seq<char>, Seq<char>)>::empty());
    while i < returned.len()
        invariant
            i <= returned@.len(),
            rv == view_pairs(returned@),
            av == view_pairs(aliases@),
            target@ == old(target).with_lines(after_merge(start.lines, rv.take(i as int), av)),
        decreases returned@.len() - i,
    {
        let key = returned[i].0.as_str();
        let canonical = match find_value(aliases, key) {
            Some(a) => aliases[a].0.as_str(),
            None => key,
        };
        assert(canonical@ == canonical_key(rv[i as int].0, av));
        target.set_value(canonical, returned[i].1.as_str(), Some(MACHINE_TRANSLATED));
        assert(rv.take(i + 1).drop_last() =~= rv.take(i as int));
        assert(rv.take(i + 1).last() == rv[i as int]);
        i = i + 1;
    }
    assert(rv.take(i as int) =~= rv);
    true
}

} // verus!
