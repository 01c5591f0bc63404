use langtool::answer::{letter_of_lowered, parse_letter, parse_yes_no, yes_no_of_lowered};
use langtool::chatgpt::{reply_text, ChatGPT, ChatResponse, Choice, MessageResponse};
use langtool::inifile::IniFile;
use langtool::ops::{
    add_new_key, copy_key, copy_missing_lines, deal_with_unknown_lines, dupe_key, insert_or_set_value,
    keys_if_not_in, move_key, remove_key, rename_key, sort_section, Outcome,
};
use langtool::pattern::ValuePattern;
use langtool::reconcile::{
    aliases_of, entry_of, merge_reply, section_entries, translation_request, REQUEST_EXAMPLES,
    REQUEST_HEAD, REQUEST_POLICY, REQUEST_SECTION,
};
use langtool::section::Section;
use langtool::translate::{generate_prompt, lookup_translation, parse_response};

fn section(name: &str, lines: &[&str]) -> Section {
    Section {
        name: name.to_string(),
        title_line: format!("[{name}]"),
        lines: lines.iter().map(|l| l.to_string()).collect(),
    }
}

fn lines(s: &Section) -> Vec<&str> {
    s.lines.iter().map(|l| l.as_str()).collect()
}

// ---------------------------------------------------------------------------
// Parsing and serializing.
// ---------------------------------------------------------------------------

#[test]
fn parse_splits_preamble_and_sections() {
    let text = "# header comment\n\n[General]\nA = B\n\n[Graphics] # note\nC = D\n";
    let ini = IniFile::parse("en_US.ini", text);
    assert_eq!(ini.filename, "en_US.ini");
    assert!(!ini.has_bom);
    assert_eq!(ini.preamble, vec!["# header comment".to_string(), "".to_string()]);
    assert_eq!(ini.sections.len(), 2);
    assert_eq!(ini.sections[0].name, "General");
    assert_eq!(ini.sections[0].title_line, "[General]");
    assert_eq!(lines(&ini.sections[0]), vec!["A = B", ""]);
    assert_eq!(ini.sections[1].name, "Graphics");
    assert_eq!(ini.sections[1].title_line, "[Graphics] # note");
    assert_eq!(lines(&ini.sections[1]), vec!["C = D"]);
}

#[test]
fn parse_records_and_strips_bom() {
    let text = "\u{feff}[General]\nA = B\n";
    let ini = IniFile::parse("x.ini", text);
    assert!(ini.has_bom);
    assert!(ini.preamble.is_empty());
    assert_eq!(ini.sections[0].name, "General");
    assert_eq!(ini.to_text(), text);
}

#[test]
fn parse_stops_at_unclosed_header() {
    let text = "[General]\nA = B\n[Broken\nC = D\n[Later]\nE = F\n";
    let ini = IniFile::parse("x.ini", text);
    assert_eq!(ini.sections.len(), 1);
    assert_eq!(lines(&ini.sections[0]), vec!["A = B"]);
}

#[test]
fn parse_of_empty_text() {
    let ini = IniFile::parse("x.ini", "");
    assert!(ini.preamble.is_empty());
    assert!(ini.sections.is_empty());
    assert_eq!(ini.to_text(), "");
}

#[test]
fn round_trip_is_byte_identical() {
    let text = "\u{feff}; preamble\n[A]\nKey = Value # comment\n\n[B] trailing\n#commented = x\nOther = Y\n";
    let ini = IniFile::parse("x.ini", text);
    let out = ini.to_text();
    assert_eq!(out, text);
    let again = IniFile::parse("x.ini", &out);
    assert_eq!(again.to_text(), out);
    assert_eq!(again.sections.len(), ini.sections.len());
    for (a, b) in again.sections.iter().zip(ini.sections.iter()) {
        assert_eq!(a.name, b.name);
        assert_eq!(a.title_line, b.title_line);
        assert_eq!(a.lines, b.lines);
    }
}

#[test]
fn round_trip_without_final_newline_adds_it() {
    let ini = IniFile::parse("x.ini", "[A]\nK = V");
    assert_eq!(ini.to_text(), "[A]\nK = V\n");
    let again = IniFile::parse("x.ini", &ini.to_text());
    assert_eq!(again.sections[0].lines, ini.sections[0].lines);
}

// ---------------------------------------------------------------------------
// Inserting lines.
// ---------------------------------------------------------------------------

#[test]
fn insert_goes_before_first_greater_line() {
    let mut s = section("General", &["Apple = A", "Cherry = C"]);
    assert!(s.insert_line_if_missing("banana = B"));
    assert_eq!(lines(&s), vec!["Apple = A", "banana = B", "Cherry = C"]);
}

#[test]
fn insert_at_end_keeps_trailing_blank_lines() {
    let mut s = section("General", &["Apple = A", "", ""]);
    assert!(s.insert_line_if_missing("Zebra = Z"));
    assert_eq!(lines(&s), vec!["Apple = A", "Zebra = Z", "", ""]);
}

#[test]
fn insert_into_empty_section() {
    let mut s = section("General", &[]);
    assert!(s.insert_line_if_missing("Key = Value"));
    assert_eq!(lines(&s), vec!["Key = Value"]);
}

#[test]
fn insert_skips_comments_translators_and_plain_lines() {
    let mut s = section("General", &["A = B"]);
    assert!(!s.insert_line_if_missing("# Note = x"));
    assert!(!s.insert_line_if_missing("translators = Someone"));
    assert!(!s.insert_line_if_missing("no marker here"));
    assert_eq!(lines(&s), vec!["A = B"]);
}

#[test]
fn insert_twice_gives_one_line() {
    let mut s = section("General", &["Apple = A", "Cherry = C"]);
    assert!(s.insert_line_if_missing("Banana = B"));
    assert!(!s.insert_line_if_missing("Banana = B"));
    assert!(!s.insert_line_if_missing("Banana = other"));
    assert_eq!(s.lines.iter().filter(|l| l.starts_with("Banana =")).count(), 1);
}

#[test]
fn inserting_sorted_lines_keeps_their_order() {
    let mut s = section("General", &[]);
    let input = ["alpha = 1", "Beta = 2", "gamma = 3", "Zeta = 4"];
    for l in input {
        assert!(s.insert_line_if_missing(l));
    }
    assert_eq!(lines(&s), input.to_vec());
}

// ---------------------------------------------------------------------------
// Looking up and removing.
// ---------------------------------------------------------------------------

#[test]
fn get_and_remove_ignore_ascii_case() {
    let mut s = section("General", &["First = 1", "Second = 2", "second = 3"]);
    assert_eq!(s.get_line("SECOND"), Some("Second = 2".to_string()));
    assert_eq!(s.remove_line("second"), Some("Second = 2".to_string()));
    assert_eq!(lines(&s), vec!["First = 1", "second = 3"]);
    assert_eq!(s.remove_line("missing"), None);
    assert_eq!(s.get_line("missing"), None);
}

#[test]
fn take_and_line_of_match_exactly() {
    let mut s = section("General", &["Key = 1", "key = 2", "KeyLonger = 3"]);
    assert_eq!(s.line_of("key"), Some("key = 2".to_string()));
    assert_eq!(s.take_line("Key"), Some("Key = 1".to_string()));
    assert_eq!(s.take_line("Key"), None);
    assert_eq!(lines(&s), vec!["key = 2", "KeyLonger = 3"]);
}

#[test]
fn get_value_strips_comment_and_space() {
    let s = section("General", &["Key =  Some value  # note", "Other = x"]);
    assert_eq!(s.get_value("Key"), Some("Some value".to_string()));
    assert_eq!(s.get_value("Missing"), None);
}

#[test]
fn set_value_overwrites_line() {
    let mut s = section("General", &["Key = old", "Other = x"]);
    assert!(s.set_value("Key", "new", Some("AI translated")));
    assert_eq!(lines(&s), vec!["Key = new # AI translated", "Other = x"]);
    assert!(s.set_value("Other", "y", None));
    assert_eq!(lines(&s), vec!["Key = new # AI translated", "Other = y"]);
    assert!(!s.set_value("Missing", "z", None));
}

#[test]
fn insert_or_set_value_sets_existing() {
    let mut s = section("General", &["Key = old"]);
    insert_or_set_value(&mut s, "Key", "new");
    insert_or_set_value(&mut s, "Added", "v");
    assert_eq!(lines(&s), vec!["Added = v", "Key = new"]);
}

// ---------------------------------------------------------------------------
// Rename and dupe.
// ---------------------------------------------------------------------------

#[test]
fn rename_placeholder_takes_new_key_as_value() {
    let mut s = section("General", &["Alpha = 1", "OldKey = OldKey", "Zulu = 2"]);
    assert!(s.rename_key("OldKey", "NewKey"));
    assert_eq!(lines(&s), vec!["Alpha = 1", "NewKey = NewKey", "Zulu = 2"]);
}

#[test]
fn rename_keeps_translation() {
    let mut s = section("General", &["OldKey = Vieja clave", "Zulu = 2"]);
    assert!(s.rename_key("OldKey", "Alpha"));
    assert_eq!(lines(&s), vec!["Alpha = Vieja clave", "Zulu = 2"]);
}

#[test]
fn rename_missing_key_changes_nothing() {
    let mut s = section("General", &["A = B"]);
    assert!(!s.rename_key("Nope", "New"));
    assert_eq!(lines(&s), vec!["A = B"]);
}

#[test]
fn dupe_keeps_old_line() {
    let mut s = section("General", &["Old = Old", "Zulu = Z"]);
    assert!(s.dupe_key("Old", "New"));
    assert_eq!(lines(&s), vec!["New = New", "Old = Old", "Zulu = Z"]);
    let mut t = section("General", &["Old = Viejo"]);
    assert!(t.dupe_key("Old", "Copy"));
    assert_eq!(lines(&t), vec!["Copy = Viejo", "Old = Viejo"]);
}

// ---------------------------------------------------------------------------
// Unknown lines.
// ---------------------------------------------------------------------------

#[test]
fn comment_out_unknown_once_only() {
    let reference = section("General", &["Known = Known"]);
    let mut t = section(
        "General",
        &["Known = Conocido", "Gone = Ido", "FontSize = 12", "HomeURL = x", "# note", ""],
    );
    t.comment_out_lines_if_not_in(&reference);
    assert_eq!(
        lines(&t),
        vec!["Known = Conocido", "#Gone = Ido", "FontSize = 12", "HomeURL = x", "# note", ""]
    );
    t.comment_out_lines_if_not_in(&reference);
    assert_eq!(
        lines(&t),
        vec!["Known = Conocido", "#Gone = Ido", "FontSize = 12", "HomeURL = x", "# note", ""]
    );
}

#[test]
fn remove_unknown_keeps_font_url_and_comments() {
    let reference = section("General", &["Known = Known"]);
    let mut t = section(
        "General",
        &["Known = Conocido", "Gone = Ido", "FontSize = 12", "HomeURL = x", "#Old = y", "plain"],
    );
    t.remove_lines_if_not_in(&reference);
    assert_eq!(lines(&t), vec!["Known = Conocido", "FontSize = 12", "HomeURL = x", "#Old = y", "plain"]);
}

#[test]
fn list_unknown_lines_and_keys() {
    let reference = section("General", &["Known = Known"]);
    let t = section("General", &["Known = K", "Gone = G", "Lost = L"]);
    assert_eq!(t.get_lines_if_not_in(&reference), vec!["Gone = G".to_string(), "Lost = L".to_string()]);
    assert_eq!(t.get_keys_if_not_in(&reference), vec!["Gone".to_string(), "Lost".to_string()]);
}

// ---------------------------------------------------------------------------
// Sort, line breaks, regex.
// ---------------------------------------------------------------------------

#[test]
fn sort_orders_by_code_point() {
    let mut s = section("General", &["b = 2", "B = 1", "a = 3", "A = 0"]);
    s.sort();
    assert_eq!(lines(&s), vec!["A = 0", "B = 1", "a = 3", "b = 2"]);
}

#[test]
fn remove_linebreaks_replaces_token() {
    let mut s = section("General", &["Greeting = Line1\\nLine2", "Other = a\\nb"]);
    s.remove_linebreaks(" Greeting ");
    assert_eq!(lines(&s), vec!["Greeting = Line1 Line2", "Other = a\\nb"]);
}

#[test]
fn remove_linebreaks_several_tokens() {
    let mut s = section("General", &["K = \\n a \\n\\nb\\"]);
    s.remove_linebreaks("K");
    assert_eq!(lines(&s), vec!["K =   a   b\\"]);
}

#[test]
fn apply_regex_replaces_in_value() {
    let mut s = section("General", &["Greeting = Hello there", "Hello = Hello"]);
    let p = ValuePattern::new("Hello").unwrap();
    assert!(s.apply_regex("Greeting", &p, "Hi"));
    assert_eq!(lines(&s), vec!["Greeting = Hi there", "Hello = Hello"]);
}

#[test]
fn apply_regex_with_groups_and_anchor() {
    let mut s = section("General", &["Name = John Smith"]);
    let p = ValuePattern::new("^(\\w+) (\\w+)$").unwrap();
    assert!(s.apply_regex("Name", &p, "$2, $1"));
    assert_eq!(lines(&s), vec!["Name = Smith, John"]);
    assert!(!s.apply_regex("Missing", &p, "x"));
}

#[test]
fn invalid_pattern_is_an_error() {
    let e = ValuePattern::new("foo(bar").err().unwrap();
    assert_eq!(e.pattern, "foo(bar");
}

// ---------------------------------------------------------------------------
// Whole files.
// ---------------------------------------------------------------------------

#[test]
fn copy_missing_lines_inserts_in_order() {
    let reference = IniFile::parse("en_US.ini", "[General]\nAutoSave = AutoSave\nTheme = Theme\n");
    let mut target = IniFile::parse("es_ES.ini", "[General]\nTheme = Tema\n");
    copy_missing_lines(&reference, &mut target, true);
    assert_eq!(target.to_text(), "[General]\nAutoSave = AutoSave\nTheme = Tema\n");
}

#[test]
fn copy_missing_sections_whole() {
    let reference = IniFile::parse("en_US.ini", "[A]\nX = X\n[B]\nY = Y\n[C]\nZ = Z\n");
    let mut target = IniFile::parse("es_ES.ini", "[A]\nX = Equis\nOld = Viejo\n[C]\nZ = Zeta\n");
    copy_missing_lines(&reference, &mut target, true);
    assert_eq!(
        target.to_text(),
        "[A]\nX = Equis\n#Old = Viejo\n[B]\nY = Y\n[C]\nZ = Zeta\n"
    );
    let mut appended = IniFile::parse("fr_FR.ini", "[A]\nX = X\n");
    assert!(appended.insert_section_if_missing(&reference.sections[2]));
    assert!(!appended.insert_section_if_missing(&reference.sections[2]));
    assert_eq!(appended.to_text(), "[A]\nX = X\n[C]\nZ = Z\n");
    let copied = appended.get_section("C").unwrap();
    assert_eq!(copied.title_line, reference.sections[2].title_line);
    assert_eq!(copied.lines, reference.sections[2].lines);
}

#[test]
fn deal_with_unknown_lines_both_ways() {
    let reference = IniFile::parse("en_US.ini", "[A]\nX = X\n");
    let mut commented = IniFile::parse("es_ES.ini", "[A]\nX = Equis\nOld = Viejo\n[Z]\nQ = q\n");
    deal_with_unknown_lines(&reference, &mut commented, false);
    assert_eq!(commented.to_text(), "[A]\nX = Equis\n#Old = Viejo\n[Z]\nQ = q\n");
    let mut removed = IniFile::parse("es_ES.ini", "[A]\nX = Equis\nOld = Viejo\n");
    deal_with_unknown_lines(&reference, &mut removed, true);
    assert_eq!(removed.to_text(), "[A]\nX = Equis\n");
}

#[test]
fn keys_not_in_reference_by_section() {
    let reference = IniFile::parse("en_US.ini", "[A]\nX = X\n[B]\nY = Y\n");
    let target = IniFile::parse("es_ES.ini", "[A]\nX = Equis\nOld = Viejo\n[B]\nY = Ye\n");
    let report = keys_if_not_in(&reference, &target);
    assert_eq!(report, vec![("A".to_string(), vec!["Old".to_string()])]);
}

#[test]
fn move_and_copy_between_sections() {
    let mut ini = IniFile::parse("x.ini", "[A]\nKey = V\nOther = O\n[B]\nZed = Z\n");
    assert_eq!(copy_key(&mut ini, "A", "B", "other"), Outcome::MissingKey);
    assert_eq!(copy_key(&mut ini, "A", "B", "Other"), Outcome::Applied);
    assert_eq!(move_key(&mut ini, "A", "B", "Key"), Outcome::Applied);
    assert_eq!(ini.to_text(), "[A]\nOther = O\n[B]\nKey = V\nOther = O\nZed = Z\n");
    assert_eq!(move_key(&mut ini, "Nope", "B", "Key"), Outcome::MissingSection);
    assert_eq!(move_key(&mut ini, "A", "B", "NoKey"), Outcome::MissingKey);
    assert_eq!(copy_key(&mut ini, "A", "Nope", "Other"), Outcome::MissingDestination);
    assert_eq!(move_key(&mut ini, "A", "Nope", "Other"), Outcome::MissingDestination);
    assert_eq!(ini.to_text(), "[A]\nOther = O\n[B]\nKey = V\nOther = O\nZed = Z\n");
}

#[test]
fn translators_key_alone_is_reserved() {
    let mut s = section("General", &["A = B"]);
    assert!(!s.insert_line_if_missing("translators = Someone"));
    assert!(s.insert_line_if_missing("translatorsNote = x"));
    assert!(!s.insert_line_if_missing("translatorsNote = x"));
    assert_eq!(lines(&s), vec!["A = B", "translatorsNote = x"]);
}

#[test]
fn sections_appended_at_end_stay_whole() {
    let reference = IniFile::parse("en_US.ini", "[A]\nX = X\n[B]\nY = Y\n[C]\nZ = Z\n");
    let mut target = IniFile::parse("es_ES.ini", "[A]\nX = Equis\n");
    copy_missing_lines(&reference, &mut target, false);
    assert_eq!(target.to_text(), "[A]\nX = Equis\n[B]\nY = Y\n[C]\nZ = Z\n");
    for name in ["B", "C"] {
        let copied = target.get_section(name).unwrap();
        let original = reference.get_section(name).unwrap();
        assert_eq!(copied.title_line, original.title_line);
        assert_eq!(copied.lines, original.lines);
    }
}

#[test]
fn move_into_missing_section_keeps_line() {
    let mut ini = IniFile::parse("x.ini", "[A]\nKey = V\n");
    assert_eq!(move_key(&mut ini, "A", "Missing", "Key"), Outcome::MissingDestination);
    assert_eq!(ini.to_text(), "[A]\nKey = V\n");
}

#[test]
fn rename_and_dupe_report_missing_key() {
    let mut ini = IniFile::parse("x.ini", "[A]\nK = V\n");
    assert_eq!(rename_key(&mut ini, "A", "Nope", "New"), Outcome::MissingKey);
    assert_eq!(dupe_key(&mut ini, "A", "Nope", "New"), Outcome::MissingKey);
    assert_eq!(rename_key(&mut ini, "Q", "K", "New"), Outcome::MissingSection);
    assert_eq!(ini.to_text(), "[A]\nK = V\n");
}

#[test]
fn file_level_key_edits() {
    let mut ini = IniFile::parse("x.ini", "[A]\nOld = Old\nZ = Z\n");
    assert_eq!(add_new_key(&mut ini, "A", "New", "Nuevo"), Outcome::Applied);
    assert_eq!(rename_key(&mut ini, "A", "Old", "Older"), Outcome::Applied);
    assert_eq!(dupe_key(&mut ini, "A", "Z", "Y"), Outcome::Applied);
    assert_eq!(remove_key(&mut ini, "A", "new"), Outcome::Applied);
    assert_eq!(ini.to_text(), "[A]\nOlder = Older\nY = Y\nZ = Z\n");
    assert_eq!(remove_key(&mut ini, "A", "nothing"), Outcome::MissingKey);
    assert_eq!(sort_section(&mut ini, "A"), Outcome::Applied);
    assert_eq!(sort_section(&mut ini, "Q"), Outcome::MissingSection);
    assert_eq!(add_new_key(&mut ini, "Q", "K", "V"), Outcome::MissingSection);
}

#[test]
fn get_section_mut_edits_in_place() {
    let mut ini = IniFile::parse("x.ini", "[A]\nK = V\n");
    ini.get_section_mut("A").unwrap().lines.push("L = W".to_string());
    assert!(ini.get_section_mut("B").is_none());
    assert_eq!(ini.to_text(), "[A]\nK = V\nL = W\n");
    assert_eq!(ini.get_section("A").unwrap().lines.len(), 2);
}

// ---------------------------------------------------------------------------
// The translation service.
// ---------------------------------------------------------------------------

#[test]
fn prompt_names_languages_and_section() {
    let files = vec!["sv_SE.ini".to_string(), "de_DE.ini".to_string()];
    let p = generate_prompt(&files, "Graphics", "Frame skip", "Be brief.");
    assert!(p.starts_with("Please translate 'Frame skip' from US English to all of these languages: sv_SE, de_DE.\n"));
    assert!(p.contains("translation section 'Graphics'"));
    assert!(p.ends_with("do not ask followups.\n    Be brief."));
}

#[test]
fn parse_response_finds_object() {
    let r = parse_response("Sure!\n{\"sv_SE\": \"Bildruta\", \"en_US\": \"Frame\"}\nDone.").unwrap();
    assert_eq!(
        r,
        vec![
            ("en_US".to_string(), "Frame".to_string()),
            ("sv_SE".to_string(), "Bildruta".to_string())
        ]
    );
    assert_eq!(lookup_translation(&r, "sv_SE"), Some("Bildruta".to_string()));
    assert_eq!(lookup_translation(&r, "fi_FI"), None);
}

#[test]
fn parse_response_rejects_bad_replies() {
    assert!(parse_response("no object here").is_none());
    assert!(parse_response("} backwards {").is_none());
    assert!(parse_response("{\"a\": 1}").is_none());
    assert!(parse_response("{not json}").is_none());
}

#[test]
fn chat_request_and_reply() {
    let ai = ChatGPT::new("SECRET-REDACTED".to_string(), "gpt-4o-mini".to_string());
    assert_eq!(ai.model(), "gpt-4o-mini");
    let req = ai.request("hello");
    assert_eq!(req.model, "gpt-4o-mini");
    assert_eq!(req.messages.len(), 1);
    assert_eq!(req.messages[0].role, "user");
    assert_eq!(req.messages[0].content, "hello");
    let res = ChatResponse {
        choices: vec![Choice {
            message: MessageResponse { content: "hi".to_string(), role: "assistant".to_string() },
        }],
    };
    assert_eq!(reply_text(&res), Some("hi".to_string()));
    assert_eq!(reply_text(&ChatResponse { choices: vec![] }), None);
}

// ---------------------------------------------------------------------------
// Reconciling machine translations.
// ---------------------------------------------------------------------------

#[test]
fn entry_reads_trimmed_key_and_value() {
    assert_eq!(entry_of(" Key  =  Some value # note"), Some(("Key".to_string(), "Some value".to_string())));
    assert_eq!(entry_of("Key ="), Some(("Key".to_string(), "".to_string())));
    assert_eq!(entry_of("no marker"), None);
}

fn reconcile_fixture() -> (Section, Section) {
    let reference = section(
        "General",
        &["AutoSave = AutoSave", "CPU = CPU", "OldName = New display", "Theme = Theme"],
    );
    let target = section(
        "General",
        &["AutoSave = AutoSave", "CPU = CPU", "OldName = New display", "Theme = Tema", "Extra = x"],
    );
    (reference, target)
}

#[test]
fn request_lists_untranslated_keys_by_alias() {
    let (reference, target) = reconcile_fixture();
    let r = translation_request("sv_SE", &reference, &target).unwrap();
    let expected = format!(
        "{REQUEST_HEAD}sv_SE{REQUEST_SECTION}General{REQUEST_POLICY}[General]\nAutoSave = \nNew display = \n{REQUEST_EXAMPLES}Theme = Tema\n"
    );
    assert_eq!(r, expected);
}

#[test]
fn request_skipped_when_all_translated() {
    let reference = section("General", &["A = Apple", "OK = OK"]);
    let target = section("General", &["A = Apfel", "OK = OK"]);
    assert_eq!(translation_request("de_DE", &reference, &target), None);
}

#[test]
fn merge_reply_maps_aliases_back() {
    let (reference, mut target) = reconcile_fixture();
    let aliases = aliases_of(&section_entries(&reference));
    assert_eq!(aliases, vec![("OldName".to_string(), "New display".to_string())]);
    let reply = "[General]\nAutoSave = Autospara\nNew display = Ny visning\nUnknown = z\n";
    assert!(merge_reply(&mut target, reply, &aliases));
    assert_eq!(
        lines(&target),
        vec![
            "AutoSave = Autospara # AI translated",
            "CPU = CPU",
            "OldName = Ny visning # AI translated",
            "Theme = Tema",
            "Extra = x"
        ]
    );
}

#[test]
fn merge_reply_discards_other_sections() {
    let (_, mut target) = reconcile_fixture();
    let before = target.lines.clone();
    assert!(!merge_reply(&mut target, "[Other]\nAutoSave = Autospara\n", &vec![]));
    assert!(!merge_reply(&mut target, "no sections at all", &vec![]));
    assert_eq!(target.lines, before);
}

// ---------------------------------------------------------------------------
// Answers typed on the terminal.
// ---------------------------------------------------------------------------

#[test]
fn yes_no_answers() {
    assert_eq!(parse_yes_no("  YES\n"), Some(true));
    assert_eq!(parse_yes_no("y"), Some(true));
    assert_eq!(parse_yes_no("No\n"), Some(false));
    assert_eq!(parse_yes_no("n"), Some(false));
    assert_eq!(parse_yes_no("maybe"), None);
    assert_eq!(parse_yes_no(""), None);
    assert_eq!(yes_no_of_lowered("yes"), Some(true));
    assert_eq!(yes_no_of_lowered("YES"), None);
}

#[test]
fn letter_answers() {
    assert_eq!(parse_letter("  Abort\n", "arc"), Some('a'));
    assert_eq!(parse_letter("x", "arc"), None);
    assert_eq!(parse_letter("   \n", "arc"), None);
    assert_eq!(letter_of_lowered("r", "arc"), Some('r'));
    assert_eq!(letter_of_lowered("R", "arc"), None);
}
