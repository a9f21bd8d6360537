use team_assign::names::NameSet;
use team_assign::index::{AliasTable, NameIndex};
use team_assign::text::{
    canonical_handle, chars_of, has_char, is_space, same_text, split_commas, to_lower, trim_text,
};

fn strings(items: &[&str]) -> Vec<String> {
    items.iter().map(|s| s.to_string()).collect()
}

#[test]
fn canonical_handle_trims_and_lowers() {
    assert_eq!(canonical_handle("  Alice\t\n"), "alice");
    assert_eq!(canonical_handle("bob"), "bob");
    assert_eq!(canonical_handle("MiXeD cAsE"), "mixed case");
}

#[test]
fn canonical_handle_of_blank_text_is_empty() {
    assert_eq!(canonical_handle(""), "");
    assert_eq!(canonical_handle(" \t \n"), "");
}

#[test]
fn canonical_handle_lowers_ascii_letters_only() {
    assert_eq!(canonical_handle("ÉCOLE-Z9"), "École-z9");
    assert_eq!(to_lower('A'), 'a');
    assert_eq!(to_lower('Z'), 'z');
    assert_eq!(to_lower('@'), '@');
    assert_eq!(to_lower('['), '[');
    assert_eq!(to_lower('é'), 'é');
}

#[test]
fn trim_text_removes_unicode_white_space_at_both_ends() {
    assert_eq!(trim_text("\u{a0}x y\u{2003}"), "x y");
    assert_eq!(trim_text("  Procrastinated. "), "Procrastinated.");
    assert_eq!(trim_text("inner  space"), "inner  space");
}

#[test]
fn trim_text_agrees_with_the_standard_library() {
    for s in ["", " ", " a", "a ", "\n\ta b\r\n", "\u{3000}z\u{3000}", "no-space", " \u{feff} "] {
        assert_eq!(trim_text(s), s.trim());
        assert_eq!(canonical_handle(s), s.trim().to_ascii_lowercase());
    }
}

#[test]
fn split_commas_keeps_empty_pieces() {
    assert_eq!(split_commas(""), strings(&[""]));
    assert_eq!(split_commas("a"), strings(&["a"]));
    assert_eq!(split_commas("a,b"), strings(&["a", "b"]));
    assert_eq!(split_commas("a,"), strings(&["a", ""]));
    assert_eq!(split_commas(",a"), strings(&["", "a"]));
    assert_eq!(split_commas(",,"), strings(&["", "", ""]));
    assert_eq!(split_commas("x, y"), strings(&["x", " y"]));
}

#[test]
fn split_commas_agrees_with_the_standard_library() {
    for s in ["", ",", "a,b,c", "one", ",lead", "trail,", "é,ü", "a,,b"] {
        let expected: Vec<String> = s.split(",").map(String::from).collect();
        assert_eq!(split_commas(s), expected);
    }
}

#[test]
fn has_char_finds_polarity_signs() {
    assert!(has_char("+", '+'));
    assert!(has_char("+-", '-'));
    assert!(has_char("x-", '-'));
    assert!(!has_char("+", '-'));
    assert!(!has_char("", '+'));
}

#[test]
fn same_text_compares_characters() {
    assert!(same_text("Yes", "Yes"));
    assert!(!same_text("Yes", "yes"));
    assert!(!same_text("Yes", "Yes "));
    assert!(same_text("", ""));
}

#[test]
fn chars_of_lists_characters_not_bytes() {
    assert_eq!(chars_of("aé"), vec!['a', 'é']);
    assert_eq!(chars_of(""), Vec::<char>::new());
}

#[test]
fn name_set_keeps_first_arrival_order_without_repeats() {
    let mut s = NameSet::new();
    assert_eq!(s.len(), 0);
    assert!(s.insert("b"));
    assert!(s.insert("a"));
    assert!(!s.insert("b"));
    assert_eq!(s.len(), 2);
    assert!(s.contains("a"));
    assert!(s.contains("b"));
    assert!(!s.contains("c"));
    assert_eq!(s.to_vec(), strings(&["b", "a"]));
    assert_eq!(s.get(0), "b");
    assert_eq!(s.get(1), "a");
}

#[test]
fn name_set_extend_is_a_union() {
    let mut s = NameSet::new();
    s.insert("a");
    s.insert("b");
    let mut t = NameSet::new();
    t.insert("c");
    t.insert("a");
    s.extend(&t);
    assert_eq!(s.to_vec(), strings(&["a", "b", "c"]));
    s.extend_from(&strings(&["d", "d", "b"]));
    assert_eq!(s.to_vec(), strings(&["a", "b", "c", "d"]));
}

#[test]
fn name_index_files_names_under_keys() {
    let mut m = NameIndex::new();
    assert_eq!(m.len(), 0);
    assert!(m.get("x").is_none());
    m.add("x", "a");
    m.add("y", "b");
    m.add("x", "c");
    m.add("x", "a");
    assert_eq!(m.len(), 2);
    assert_eq!(m.get("x").unwrap().to_vec(), strings(&["a", "c"]));
    assert_eq!(m.get("y").unwrap().to_vec(), strings(&["b"]));
    assert_eq!(m.key_at(0), "x");
    assert_eq!(m.set_at(1).to_vec(), strings(&["b"]));
    m.ensure("z");
    m.ensure("x");
    assert_eq!(m.len(), 3);
    assert!(m.has_key("z"));
    assert!(!m.has_key("w"));
    assert_eq!(m.get("z").unwrap().len(), 0);
    assert_eq!(m.get("x").unwrap().len(), 2);
    let mut more = NameSet::new();
    more.insert("c");
    more.insert("d");
    m.add_all("x", &more);
    assert_eq!(m.get("x").unwrap().to_vec(), strings(&["a", "c", "d"]));
}

#[test]
fn alias_table_later_entry_replaces_earlier() {
    let mut t = AliasTable::new();
    assert!(t.get("gh").is_none());
    t.set("gh", "first");
    t.set("other", "second");
    t.set("gh", "third");
    assert_eq!(t.len(), 2);
    assert_eq!(t.get("gh").unwrap(), "third");
    assert_eq!(t.get("other").unwrap(), "second");
    assert!(t.get("GH").is_none());
}

#[test]
fn is_space_agrees_with_the_standard_library_on_every_char() {
    let mut spaces = 0;
    for n in 0..=0x10ffffu32 {
        if let Some(c) = char::from_u32(n) {
            assert_eq!(is_space(c), c.is_whitespace());
            if is_space(c) {
                spaces += 1;
            }
        }
    }
    assert_eq!(spaces, 25);
}

#[test]
fn is_space_on_single_characters() {
    assert!(is_space(' '));
    assert!(is_space('\t'));
    assert!(is_space('\n'));
    assert!(is_space('\u{a0}'));
    assert!(is_space('\u{3000}'));
    assert!(!is_space('a'));
    assert!(!is_space('_'));
    assert!(!is_space('\u{200b}'));
    assert!(!is_space('\u{feff}'));
}
