use vstd::prelude::*;

use crate::inifile::{
    after_section_insert, has_section, section_index, view_sections, IniFile, IniModel,
};
use crate::section::{
    after_comment_out, after_dupe, after_insert, after_rename, first_folded, first_starting,
    insert_all, kept,
    setting_line, sorted_lines, unknown, Section, SectionModel,
};
use crate::text::{key_of, with_marker};

verus! {

/// How a single-key edit went.
#[derive(Debug, Clone, Copy, PartialEq, Eq, Structural)]
pub enum Outcome {
    /// The edit was made.
    Applied,
    /// The file has no section of the given name.
    MissingSection,
    /// The section has no line of the given key.
    MissingKey,
    /// The section to move or copy the line to is missing.
    MissingDestination,
}

pub open spec fn relined(m: SectionModel, lines: Seq<Seq<char>>) -> SectionModel {
    SectionModel { name: m.name, title_line: m.title_line, lines }
}

pub open spec fn with_sections(f: IniModel, ss: Seq<SectionModel>) -> IniModel {
    IniModel { filename: f.filename, preamble: f.preamble, sections: ss, has_bom: f.has_bom }
}

/// A target section once the lines of its reference section are merged in:
/// each reference line inserted in turn, then (if asked) the lines the
/// reference does not know commented out.
pub open spec fn merged(t: SectionModel, r: SectionModel, comment_missing: bool) -> SectionModel {
    let ls = insert_all(t.lines, r.lines);
    relined(t, if comment_missing { after_comment_out(ls, r.lines) } else { ls })
}

/// One reference section copied into the target's sections: inserted whole
/// when missing, else merged line by line.
pub open spec fn copy_step(ss: Seq<SectionModel>, r: SectionModel, comment_missing: bool) -> Seq<
    SectionModel,
> {
    if has_section(ss, r.name) {
        let i = section_index(ss, r.name);
        ss.update(i, merged(ss[i], r, comment_missing))
    } else {
        after_section_insert(ss, r)
    }
}

pub open spec fn copy_all(ss: Seq<SectionModel>, rs: Seq<SectionModel>, comment_missing: bool) -> Seq<
    SectionModel,
>
    decreases rs.len(),
{
    if rs.len() == 0 {
        ss
    } else {
        copy_step(copy_all(ss, rs.drop_last(), comment_missing), rs.last(), comment_missing)
    }
}

/// The lines of the target section that the reference does not know,
/// commented out or removed.
pub open spec fn unknown_step(ss: Seq<SectionModel>, r: SectionModel, remove: bool) -> Seq<
    SectionModel,
> {
    let i = section_index(ss, r.name);
    if i < ss.len() {
        ss.update(
            i,
            relined(
                ss[i],
                if remove {
                    ss[i].lines.filter(kept(r.lines))
                } else {
                    after_comment_out(ss[i].lines, r.lines)
                },
            ),
        )
    } else {
        ss
    }
}

pub open spec fn unknown_all(ss: Seq<SectionModel>, rs: Seq<SectionModel>, remove: bool) -> Seq<
    SectionModel,
>
    decreases rs.len(),
{
    if rs.len() == 0 {
        ss
    } else {
        unknown_step(unknown_all(ss, rs.drop_last(), remove), rs.last(), remove)
    }
}

/// The keys of a target section that its reference section does not know.
pub open spec fn unknown_keys(t: SectionModel, r: SectionModel) -> Seq<Seq<char>> {
    t.lines.filter(unknown(r.lines)).map_values(|l: Seq<char>| key_of(l))
}

/// For each reference section that the target has and in which the target
/// has keys the reference does not know: the section's name and those keys.
pub open spec fn unknown_report(ss: Seq<SectionModel>, rs: Seq<SectionModel>) -> Seq<
    (Seq<char>, Seq<Seq<char>>),
>
    decreases rs.len(),
{
    if rs.len() == 0 {
        Seq::empty()
    } else {
        let before = unknown_report(ss, rs.drop_last());
        let r = rs.last();
        let i = section_index(ss, r.name);
        if i < ss.len() && unknown_keys(ss[i], r).len() > 0 {
            before.push((r.name, unknown_keys(ss[i], r)))
        } else {
            before
        }
    }
}

/// The sections once the first line of `key` is moved from section `from`
/// to section `to`. When either section or the line is missing, nothing changes.
pub open spec fn after_move(ss: Seq<SectionModel>, from: Seq<char>, to: Seq<char>, key: Seq<char>) -> Seq<
    SectionModel,
> {
    let i = section_index(ss, from);
    if i >= ss.len() || first_starting(ss[i].lines, with_marker(key)) >= ss[i].lines.len()
        || section_index(ss, to) >= ss.len() {
        ss
    } else {
        let k = first_starting(ss[i].lines, with_marker(key));
        let line = ss[i].lines[k];
        let ss1 = ss.update(i, relined(ss[i], ss[i].lines.remove(k)));
        let j = section_index(ss1, to);
        if j >= ss1.len() {
            ss1
        } else {
            ss1.update(j, relined(ss1[j], after_insert(ss1[j].lines, line)))
        }
    }
}

/// The sections once the first line of `key` is copied from section `from`
/// to section `to`.
pub open spec fn after_copy(ss: Seq<SectionModel>, from: Seq<char>, to: Seq<char>, key: Seq<char>) -> Seq<
    SectionModel,
> {
    let i = section_index(ss, from);
    let j = section_index(ss, to);
    if i >= ss.len() || first_starting(ss[i].lines, with_marker(key)) >= ss[i].lines.len() || j >= ss.len() {
        ss
    } else {
        let line = ss[i].lines[first_starting(ss[i].lines, with_marker(key))];
        ss.update(j, relined(ss[j], after_insert(ss[j].lines, line)))
    }
}

/// How a move or copy from `from` to `to` goes.
pub open spec fn transfer_outcome(
    ss: Seq<SectionModel>,
    from: Seq<char>,
    to: Seq<char>,
    key: Seq<char>,
) -> Outcome {
    let i = section_index(ss, from);
    if i >= ss.len() {
        Outcome::MissingSection
    } else if first_starting(ss[i].lines, with_marker(key)) >= ss[i].lines.len() {
        Outcome::MissingKey
    } else if section_index(ss, to) >= ss.len() {
        Outcome::MissingDestination
    } else {
        Outcome::Applied
    }
}

/// The section `name` changed by `f`, when there is one.
pub open spec fn in_section(
    ss: Seq<SectionModel>,
    name: Seq<char>,
    f: spec_fn(Seq<Seq<char>>) -> Seq<Seq<char>>,
) -> Seq<SectionModel> {
    let i = section_index(ss, name);
    if i < ss.len() {
        ss.update(i, relined(ss[i], f(ss[i].lines)))
    } else {
        ss
    }
}

proof fn lemma_section_index(ss: Seq<SectionModel>, name: Seq<char>, i: int)
    requires
        0 <= i <= ss.len(),
    ensures
        i <= crate::inifile::section_index_from(ss, name, i) <= ss.len(),
        crate::inifile::section_index_from(ss, name, i) < ss.len() ==> ss[crate::inifile::section_index_from(ss, name, i)].name == name,
        forall|k: int| i <= k < crate::inifile::section_index_from(ss, name, i) ==> (#[trigger] ss[k]).name != name,
    decreases ss.len() - i,
{
    if i < ss.len() && ss[i].name != name {
        lemma_section_index(ss, name, i + 1);
    }
}

/// The target holds a section of `name` exactly when `section_index` finds one.
pub proof fn lemma_has_section(ss: Seq<SectionModel>, name: Seq<char>)
    ensures
        has_section(ss, name) <==> section_index(ss, name) < ss.len(),
        0 <= section_index(ss, name) <= ss.len(),
        section_index(ss, name) < ss.len() ==> ss[section_index(ss, name)].name == name,
{
    lemma_section_index(ss, name, 0);
    if has_section(ss, name) {
        let k = choose|k: int| 0 <= k < ss.len() && (#[trigger] ss[k]).name == name;
        assert(ss[k].name == name);
    }
}

/// Merges the lines of `r` into `t`, commenting out what `r` does not know
/// when asked.
fn merge_into(t: &mut Section, r: &Section, comment_missing: bool)
    ensures
        final(t)@ == merged(old(t)@, r@, comment_missing),
{
    let ghost start = old(t)@;
    let ghost rl = r@.lines;
    let mut j: usize = 0;
    assert(rl.take(0) =~= Seq::<Seq<char>>::empty());
    while j < r.lines.len()
        invariant
            j <= r.lines.len(),
            rl == r@.lines,
            t@ == relined(start, insert_all(start.lines, rl.take(j as int))),
        decreases r.lines.len() - j,
    {
        t.insert_line_if_missing(r.lines[j].as_str());
        assert(rl.take(j + 1).drop_last() =~= rl.take(j as int));
        j = j + 1;
    }
    assert(rl.take(j as int) =~= rl);
    if comment_missing {
        t.comment_out_lines_if_not_in(r);
    }
}

/// Brings the target in line with the reference: each reference section the
/// target lacks is inserted whole; into each one it has, the missing lines
/// are inserted, and (if asked) the lines the reference does not know are
/// commented out.
pub fn copy_missing_lines(reference_ini: &IniFile, target_ini: &mut IniFile, comment_missing: bool)
    ensures
        final(target_ini)@ == with_sections(
            old(target_ini)@,
            copy_all(old(target_ini)@.sections, reference_ini@.sections, comment_missing),
        ),
{
    let ghost rs = reference_ini@.sections;
    let ghost start = old(target_ini)@;
    let mut k: usize = 0;
    assert(rs.take(0) =~= Seq::<SectionModel>::empty());
    while k < reference_ini.sections.len()
        invariant
            k <= reference_ini.sections.len(),
            rs == reference_ini@.sections,
            target_ini@ == with_sections(
                start,
                copy_all(start.sections, rs.take(k as int), comment_missing),
            ),
        decreases reference_ini.sections.len() - k,
    {
        let r = &reference_ini.sections[k];
        assert(rs.take(k + 1).drop_last() =~= rs.take(k as int));
        assert(rs.take(k + 1).last() == r@);
        let ghost ss = target_ini@.sections;
        proof {
            lemma_has_section(ss, r@.name);
        }
        if !target_ini.insert_section_if_missing(r) {
            match target_ini.get_section_mut(r.name.as_str()) {
                Some(t) => {
                    merge_into(t, r, comment_missing);
                },
                None => {},
            }
            assert(target_ini@.sections =~= copy_step(ss, r@, comment_missing));
        }
        k = k + 1;
    }
    assert(rs.take(k as int) =~= rs);
}

/// For each reference section the target has, the target lines that the
/// reference does not know are removed, or else commented out.
pub fn deal_with_unknown_lines(reference_ini: &IniFile, target_ini: &mut IniFile, remove: bool)
    ensures
        final(target_ini)@ == with_sections(
            old(target_ini)@,
            unknown_all(old(target_ini)@.sections, reference_ini@.sections, remove),
        ),
{
    let ghost rs = reference_ini@.sections;
    let ghost start = old(target_ini)@;
    let mut k: usize = 0;
    assert(rs.take(0) =~= Seq::<SectionModel>::empty());
    while k < reference_ini.sections.len()
        invariant
            k <= reference_ini.sections.len(),
            rs == reference_ini@.sections,
            target_ini@ == with_sections(start, unknown_all(start.sections, rs.take(k as int), remove)),
        decreases reference_ini.sections.len() - k,
    {
        let r = &reference_ini.sections[k];
        assert(rs.take(k + 1).drop_last() =~= rs.take(k as int));
        assert(rs.take(k + 1).last() == r@);
        let ghost ss = target_ini@.sections;
        proof {
            lemma_has_section(ss, r@.name);
        }
        match target_ini.get_section_mut(r.name.as_str()) {
            Some(t) => {
                if remove {
                    t.remove_lines_if_not_in(r);
                } else {
                    t.comment_out_lines_if_not_in(r);
                }
            },
            None => {},
        }
        assert(target_ini@.sections =~= unknown_step(ss, r@, remove));
        k = k + 1;
    }
    assert(rs.take(k as int) =~= rs);
}

/// For each reference section the target has: the keys of the target that
/// the reference does not know, where there are any.
pub fn keys_if_not_in(reference_ini: &IniFile, target_ini: &IniFile) -> (r: Vec<(String, Vec<String>)>)
    ensures
        r@.len() == unknown_report(target_ini@.sections, reference_ini@.sections).len(),
        forall|i: int|
            0 <= i < r@.len() ==> (#[trigger] r@[i]).0@ == unknown_report(
                target_ini@.sections,
                reference_ini@.sections,
            )[i].0 && crate::section::view_lines(r@[i].1@) == unknown_report(
                target_ini@.sections,
                reference_ini@.sections,
            )[i].1,
{
    let ghost rs = reference_ini@.sections;
    let ghost ss = target_ini@.sections;
    let mut out: Vec<(String, Vec<String>)> = Vec::new();
    let mut k: usize = 0;
    assert(rs.take(0) =~= Seq::<SectionModel>::empty());
    while k < reference_ini.sections.len()
        invariant
            k <= reference_ini.sections.len(),
            rs == reference_ini@.sections,
            ss == target_ini@.sections,
            out@.len() == unknown_report(ss, rs.take(k as int)).len(),
            forall|i: int|
                0 <= i < out@.len() ==> (#[trigger] out@[i]).0@ == unknown_report(
                    ss,
                    rs.take(k as int),
                )[i].0 && crate::section::view_lines(out@[i].1@) == unknown_report(
                    ss,
                    rs.take(k as int),
                )[i].1,
        decreases reference_ini.sections.len() - k,
    {
        let r = &reference_ini.sections[k];
        assert(rs.take(k + 1).drop_last() =~= rs.take(k as int));
        assert(rs.take(k + 1).last() == r@);
        proof {
            lemma_has_section(ss, r@.name);
        }
        match target_ini.get_section(r.name.as_str()) {
            Some(t) => {
                let keys = t.get_keys_if_not_in(r);
                if keys.len() > 0 {
                    out.push((r.name.clone(), keys));
                }
            },
            None => {},
        }
        k = k + 1;
    }
    assert(rs.take(k as int) =~= rs);
    out
}

/// Moves the first line of `key` from section `old_section` to section
/// `new_section`, where it is inserted at its place. When a section or the
/// line is missing the file stays as it was.
pub fn move_key(target_ini: &mut IniFile, old_section: &str, new_section: &str, key: &str) -> (r:
    Outcome)
    ensures
        r == transfer_outcome(old(target_ini)@.sections, old_section@, new_section@, key@),
        final(target_ini)@ == with_sections(
            old(target_ini)@,
            after_move(old(target_ini)@.sections, old_section@, new_section@, key@),
        ),
{
    let ghost ss = target_ini@.sections;
    proof {
        lemma_has_section(ss, old_section@);
        lemma_has_section(ss, new_section@);
    }
    match target_ini.get_section(old_section) {
        Some(s) => {
            if s.line_of(key).is_none() {
                return Outcome::MissingKey;
            }
        },
        None => {
            return Outcome::MissingSection;
        },
    }
    if target_ini.find_section(new_section).is_none() {
        return Outcome::MissingDestination;
    }
    let line = match target_ini.get_section_mut(old_section) {
        Some(s) => match s.take_line(key) {
            Some(l) => l,
            None => {
                assert(target_ini@.sections =~= ss);
                return Outcome::MissingKey;
            },
        },
        None => {
            return Outcome::MissingSection;
        },
    };
    let ghost ss1 = target_ini@.sections;
    assert(ss1 =~= ss.update(
        section_index(ss, old_section@),
        relined(
            ss[section_index(ss, old_section@)],
            ss[section_index(ss, old_section@)].lines.remove(
                first_starting(ss[section_index(ss, old_section@)].lines, with_marker(key@)),
            ),
        ),
    ));
    proof {
        lemma_same_names(ss, ss1, new_section@);
    }
    match target_ini.get_section_mut(new_section) {
        Some(s) => {
            s.insert_line_if_missing(line.as_str());
            assert(target_ini@.sections =~= after_move(ss, old_section@, new_section@, key@));
            Outcome::Applied
        },
        None => Outcome::MissingDestination,
    }
}

proof fn lemma_same_names(a: Seq<SectionModel>, b: Seq<SectionModel>, name: Seq<char>)
    requires
        a.len() == b.len(),
        forall|k: int| 0 <= k < a.len() ==> (#[trigger] a[k]).name == b[k].name,
    ensures
        section_index(a, name) == section_index(b, name),
{
    lemma_same_names_from(a, b, name, 0);
}

proof fn lemma_same_names_from(a: Seq<SectionModel>, b: Seq<SectionModel>, name: Seq<char>, i: int)
    requires
        0 <= i <= a.len(),
        a.len() == b.len(),
        forall|k: int| 0 <= k < a.len() ==> (#[trigger] a[k]).name == b[k].name,
    ensures
        crate::inifile::section_index_from(a, name, i) == crate::inifile::section_index_from(b, name, i),
    decreases a.len() - i,
{
    if i < a.len() {
        assert(a[i].name == b[i].name);
        lemma_same_names_from(a, b, name, i + 1);
    }
}

/// Copies the first line of `key` from section `old_section` into section
/// `new_section`, where it is inserted at its place.
pub fn copy_key(target_ini: &mut IniFile, old_section: &str, new_section: &str, key: &str) -> (r:
    Outcome)
    ensures
        r == transfer_outcome(old(target_ini)@.sections, old_section@, new_section@, key@),
        final(target_ini)@ == with_sections(
            old(target_ini)@,
            after_copy(old(target_ini)@.sections, old_section@, new_section@, key@),
        ),
{
    let ghost ss = target_ini@.sections;
    proof {
        lemma_has_section(ss, old_section@);
        lemma_has_section(ss, new_section@);
    }
    let line = match target_ini.get_section(old_section) {
        Some(s) => match s.line_of(key) {
            Some(l) => l,
            None => {
                return Outcome::MissingKey;
            },
        },
        None => {
            return Outcome::MissingSection;
        },
    };
    match target_ini.get_section_mut(new_section) {
        Some(s) => {
            s.insert_line_if_missing(line.as_str());
            assert(target_ini@.sections =~= after_copy(ss, old_section@, new_section@, key@));
            Outcome::Applied
        },
        None => {
            assert(target_ini@.sections =~= ss);
            Outcome::MissingDestination
        },
    }
}

/// The outcome of an edit inside one section: the section is missing, or
/// the edit was made.
pub open spec fn section_outcome(ss: Seq<SectionModel>, name: Seq<char>) -> Outcome {
    if section_index(ss, name) < ss.len() {
        Outcome::Applied
    } else {
        Outcome::MissingSection
    }
}

/// Removes the first line of `key` (ASCII case ignored) from `section`.
pub fn remove_key(target_ini: &mut IniFile, section: &str, key: &str) -> (r: Outcome)
    ensures
        r == (if section_index(old(target_ini)@.sections, section@) >= old(target_ini)@.sections.len() {
            Outcome::MissingSection
        } else if first_folded(
            old(target_ini)@.sections[section_index(old(target_ini)@.sections, section@)].lines,
            key@,
        ) >= old(target_ini)@.sections[section_index(
            old(target_ini)@.sections,
            section@,
        )].lines.len() {
            Outcome::MissingKey
        } else {
            Outcome::Applied
        }),
        final(target_ini)@ == with_sections(
            old(target_ini)@,
            in_section(
                old(target_ini)@.sections,
                section@,
                |ls: Seq<Seq<char>>|
                    if first_folded(ls, key@) < ls.len() {
                        ls.remove(first_folded(ls, key@))
                    } else {
                        ls
                    },
            ),
        ),
{
    let ghost ss = target_ini@.sections;
    proof {
        lemma_has_section(ss, section@);
    }
    match target_ini.get_section_mut(section) {
        Some(s) => {
            let found = s.remove_line(key);
            assert(target_ini@.sections =~= in_section(
                ss,
                section@,
                |ls: Seq<Seq<char>>|
                    if first_folded(ls, key@) < ls.len() {
                        ls.remove(first_folded(ls, key@))
                    } else {
                        ls
                    },
            ));
            if found.is_some() {
                Outcome::Applied
            } else {
                Outcome::MissingKey
            }
        },
        None => Outcome::MissingSection,
    }
}

/// Inserts the line `key = value` into `section` at its place, unless the
/// key is there already.
pub fn add_new_key(target_ini: &mut IniFile, section: &str, key: &str, value: &str) -> (r: Outcome)
    ensures
        r == section_outcome(old(target_ini)@.sections, section@),
        final(target_ini)@ == with_sections(
            old(target_ini)@,
            in_section(
                old(target_ini)@.sections,
                section@,
                |ls: Seq<Seq<char>>| after_insert(ls, setting_line(key@, value@, None)),
            ),
        ),
{
    let ghost ss = target_ini@.sections;
    proof {
        lemma_has_section(ss, section@);
    }
    let mut line = key.to_owned();
    line.append(" = ");
    line.append(value);
    proof {
        reveal_strlit(" = ");
        assert(" = "@ =~= seq![' ', '=', ' ']);
        assert(line@ =~= setting_line(key@, value@, None));
    }
    match target_ini.get_section_mut(section) {
        Some(s) => {
            s.insert_line_if_missing(line.as_str());
            assert(target_ini@.sections =~= in_section(
                ss,
                section@,
                |ls: Seq<Seq<char>>| after_insert(ls, setting_line(key@, value@, None)),
            ));
            Outcome::Applied
        },
        None => Outcome::MissingSection,
    }
}

/// The outcome of an edit of the last line of key `old_key` in a section:
/// the section or the line is missing, or the edit was made.
pub open spec fn last_key_outcome(ss: Seq<SectionModel>, name: Seq<char>, old_key: Seq<char>) -> Outcome {
    let i = section_index(ss, name);
    if i >= ss.len() {
        Outcome::MissingSection
    } else if crate::section::last_starting(ss[i].lines, with_marker(old_key)) < 0 {
        Outcome::MissingKey
    } else {
        Outcome::Applied
    }
}

/// Renames key `old_key` to `new_key` in `section`, as `Section::rename_key` does.
pub fn rename_key(target_ini: &mut IniFile, section: &str, old_key: &str, new_key: &str) -> (r:
    Outcome)
    ensures
        r == last_key_outcome(old(target_ini)@.sections, section@, old_key@),
        final(target_ini)@ == with_sections(
            old(target_ini)@,
            in_section(
                old(target_ini)@.sections,
                section@,
                |ls: Seq<Seq<char>>| after_rename(ls, old_key@, new_key@),
            ),
        ),
{
    let ghost ss = target_ini@.sections;
    proof {
        lemma_has_section(ss, section@);
    }
    match target_ini.get_section_mut(section) {
        Some(s) => {
            let found = s.rename_key(old_key, new_key);
            assert(target_ini@.sections =~= in_section(
                ss,
                section@,
                |ls: Seq<Seq<char>>| after_rename(ls, old_key@, new_key@),
            ));
            if found {
                Outcome::Applied
            } else {
                Outcome::MissingKey
            }
        },
        None => Outcome::MissingSection,
    }
}

/// Copies the line of key `old_key` under key `new_key` in `section`, as
/// `Section::dupe_key` does.
pub fn dupe_key(target_ini: &mut IniFile, section: &str, old_key: &str, new_key: &str) -> (r:
    Outcome)
    ensures
        r == last_key_outcome(old(target_ini)@.sections, section@, old_key@),
        final(target_ini)@ == with_sections(
            old(target_ini)@,
            in_section(
                old(target_ini)@.sections,
                section@,
                |ls: Seq<Seq<char>>| after_dupe(ls, old_key@, new_key@),
            ),
        ),
{
    let ghost ss = target_ini@.sections;
    proof {
        lemma_has_section(ss, section@);
    }
    match target_ini.get_section_mut(section) {
        Some(s) => {
            let found = s.dupe_key(old_key, new_key);
            assert(target_ini@.sections =~= in_section(
                ss,
                section@,
                |ls: Seq<Seq<char>>| after_dupe(ls, old_key@, new_key@),
            ));
            if found {
                Outcome::Applied
            } else {
                Outcome::MissingKey
            }
        },
        None => Outcome::MissingSection,
    }
}

/// Sorts the lines of `section` by code point.
pub fn sort_section(target_ini: &mut IniFile, section: &str) -> (r: Outcome)
    ensures
        r == section_outcome(old(target_ini)@.sections, section@),
        r == Outcome::MissingSection ==> final(target_ini)@ == old(target_ini)@,
        final(target_ini)@.sections.len() == old(target_ini)@.sections.len(),
        final(target_ini)@.preamble == old(target_ini)@.preamble,
        final(target_ini)@.filename == old(target_ini)@.filename,
        final(target_ini)@.has_bom == old(target_ini)@.has_bom,
        forall|i: int|
            0 <= i < old(target_ini)@.sections.len() && i != section_index(
                old(target_ini)@.sections,
                section@,
            ) ==> final(target_ini)@.sections[i] == old(target_ini)@.sections[i],
        r == Outcome::Applied ==> ({
            let i = section_index(old(target_ini)@.sections, section@);
            let before = old(target_ini)@.sections[i];
            let after = final(target_ini)@.sections[i];
            &&& after.name == before.name
            &&& after.title_line == before.title_line
            &&& sorted_lines(after.lines)
            &&& after.lines.to_multiset() == before.lines.to_multiset()
        }),
{
    let ghost ss = target_ini@.sections;
    proof {
        lemma_has_section(ss, section@);
    }
    match target_ini.get_section_mut(section) {
        Some(s) => {
            s.sort();
            Outcome::Applied
        },
        None => Outcome::MissingSection,
    }
}

/// Sets `key` to `value` in `section`: the line is inserted at its place
/// when the key is missing, and overwritten otherwise.
pub fn insert_or_set_value(section: &mut Section, key: &str, value: &str)
    ensures
        ({
            let line = setting_line(key@, value@, None);
            if crate::section::inserts(old(section)@.lines, line) {
                final(section)@ == old(section).with_lines(after_insert(old(section)@.lines, line))
            } else {
                let i = crate::section::first_starting(old(section)@.lines, with_marker(key@));
                if i < old(section)@.lines.len() {
                    final(section)@ == old(section).with_lines(old(section)@.lines.update(i, line))
                } else {
                    final(section)@ == old(section)@
                }
            }
        }),
{
    let mut line = key.to_owned();
    line.append(" = ");
    line.append(value);
    proof {
        reveal_strlit(" = ");
        assert(" = "@ =~= seq![' ', '=', ' ']);
        assert(line@ =~= setting_line(key@, value@, None));
    }
    if !section.insert_line_if_missing(line.as_str()) {
        section.set_value(key, value, None);
    }
}


/// A section that the target lacks is, after it is copied in, there whole:
/// a section of the target equals it, and the target now has its name.
pub proof fn lemma_section_copy_complete(ss: Seq<SectionModel>, r: SectionModel)
    requires
        !has_section(ss, r.name),
    ensures
        exists|k: int|
            0 <= k < after_section_insert(ss, r).len() && #[trigger] after_section_insert(ss, r)[k]
                == r,
        has_section(after_section_insert(ss, r), r.name),
{
    let res = after_section_insert(ss, r);
    let j = crate::inifile::section_after_from(ss, r.name, 0);
    lemma_section_after_bounds(ss, r.name, 0);
    let k = if j < ss.len() {
        j
    } else {
        ss.len() as int
    };
    assert(res[k] == r);
}

proof fn lemma_section_after_bounds(ss: Seq<SectionModel>, name: Seq<char>, i: int)
    requires
        0 <= i <= ss.len(),
    ensures
        i <= crate::inifile::section_after_from(ss, name, i) <= ss.len(),
    decreases ss.len() - i,
{
    if i < ss.len() {
        lemma_section_after_bounds(ss, name, i + 1);
    }
}

/// A section that is there and whose name differs from that of `r` stays,
/// unchanged, when `r` is copied in.
proof fn lemma_copy_step_keeps(ss: Seq<SectionModel>, r: SectionModel, c: bool, k: int)
    requires
        0 <= k < ss.len(),
        ss[k].name != r.name,
    ensures
        exists|t: int| 0 <= t < copy_step(ss, r, c).len() && #[trigger] copy_step(ss, r, c)[t] == ss[k],
{
    let res = copy_step(ss, r, c);
    lemma_has_section(ss, r.name);
    if has_section(ss, r.name) {
        assert(res[k] == ss[k]);
    } else {
        let j = crate::inifile::section_after_from(ss, r.name, 0);
        lemma_section_after_bounds(ss, r.name, 0);
        if j < ss.len() && k >= j {
            assert(res[k + 1] == ss[k]);
        } else {
            assert(res[k] == ss[k]);
        }
    }
}

/// Copying only brings in sections of the names copied.
proof fn lemma_copy_all_names(ss: Seq<SectionModel>, rs: Seq<SectionModel>, c: bool, name: Seq<char>)
    requires
        !has_section(ss, name),
        forall|j: int| 0 <= j < rs.len() ==> (#[trigger] rs[j]).name != name,
    ensures
        !has_section(copy_all(ss, rs, c), name),
    decreases rs.len(),
{
    if rs.len() > 0 {
        let init = rs.drop_last();
        assert forall|j: int| 0 <= j < init.len() implies (#[trigger] init[j]).name != name by {
            assert(init[j] == rs[j]);
        }
        lemma_copy_all_names(ss, init, c, name);
        let t0 = copy_all(ss, init, c);
        let r = rs.last();
        assert(r == rs[rs.len() - 1]);
        let res = copy_step(t0, r, c);
        lemma_has_section(t0, r.name);
        if has_section(res, name) {
            let x = choose|x: int| 0 <= x < res.len() && (#[trigger] res[x]).name == name;
            if has_section(t0, r.name) {
                let i = section_index(t0, r.name);
                if x == i {
                    assert(res[x].name == t0[i].name);
                } else {
                    assert(res[x] == t0[x]);
                }
                assert(t0[x].name == name);
            } else {
                let j = crate::inifile::section_after_from(t0, r.name, 0);
                lemma_section_after_bounds(t0, r.name, 0);
                if j < t0.len() {
                    if x < j {
                        assert(res[x] == t0[x]);
                        assert(t0[x].name == name);
                    } else if x > j {
                        assert(res[x] == t0[x - 1]);
                        assert(t0[x - 1].name == name);
                    }
                } else if x < t0.len() {
                    assert(res[x] == t0[x]);
                    assert(t0[x].name == name);
                }
            }
        }
    }
}

/// Each reference section that the target lacks is, after the copy, in the
/// target whole, the reference's section names being distinct: a section of
/// the result equals it.
pub proof fn lemma_copy_missing_complete(ss: Seq<SectionModel>, rs: Seq<SectionModel>, c: bool, k: int)
    requires
        0 <= k < rs.len(),
        !has_section(ss, rs[k].name),
        forall|a: int, b: int| 0 <= a < b < rs.len() ==> (#[trigger] rs[a]).name != (#[trigger] rs[b]).name,
    ensures
        exists|t: int| 0 <= t < copy_all(ss, rs, c).len() && #[trigger] copy_all(ss, rs, c)[t] == rs[k],
    decreases rs.len(),
{
    let init = rs.drop_last();
    let n = rs.len() - 1;
    let t0 = copy_all(ss, init, c);
    let r = rs.last();
    assert(r == rs[n]);
    assert(copy_all(ss, rs, c) == copy_step(t0, r, c));
    if k == n {
        assert forall|j: int| 0 <= j < init.len() implies (#[trigger] init[j]).name != rs[k].name by {
            assert(init[j] == rs[j]);
        }
        lemma_copy_all_names(ss, init, c, rs[k].name);
        lemma_section_copy_complete(t0, r);
        lemma_has_section(t0, r.name);
        assert(copy_step(t0, r, c) == after_section_insert(t0, r));
        let w = choose|w: int|
            0 <= w < after_section_insert(t0, r).len() && #[trigger] after_section_insert(t0, r)[w] == r;
        assert(copy_all(ss, rs, c)[w] == rs[k]);
    } else {
        assert(init[k] == rs[k]);
        assert forall|a: int, b: int| 0 <= a < b < init.len() implies (#[trigger] init[a]).name
            != (#[trigger] init[b]).name by {
            assert(init[a] == rs[a] && init[b] == rs[b]);
        }
        lemma_copy_missing_complete(ss, init, c, k);
        let t = choose|t: int| 0 <= t < t0.len() && #[trigger] t0[t] == rs[k];
        assert(rs[k].name != rs[n].name);
        lemma_copy_step_keeps(t0, r, c, t);
        let w = choose|w: int|
            0 <= w < copy_step(t0, r, c).len() && #[trigger] copy_step(t0, r, c)[w] == t0[t];
        assert(copy_all(ss, rs, c)[w] == rs[k]);
    }
}

} // verus!
