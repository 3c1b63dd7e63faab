use coursework::ini::{parse, try_parse};

#[test]
fn keys_and_values_are_trimmed() {
    let ini = parse("[server]\n  host = example.org \nport=80\nverbose\n");
    assert_eq!(ini.get("server", "host"), Some("example.org".to_string()));
    assert_eq!(ini.get("server", "port"), Some("80".to_string()));
    assert_eq!(ini.get("server", "verbose"), Some("".to_string()));
    assert_eq!(ini.get("server", "missing"), None);
    assert_eq!(ini.get("client", "host"), None);
    assert!(ini.has_section("server"));
    assert!(!ini.has_section("client"));
}

#[test]
fn later_values_replace_earlier_ones() {
    let ini = parse("[a]\nk = 1\nk = 2\n");
    assert_eq!(ini.get("a", "k"), Some("2".to_string()));
}

#[test]
fn switching_sections_starts_afresh() {
    let ini = parse("[a]\nk=1\n[b]\nj=2\n[a]\nm=3\n");
    assert_eq!(ini.get("a", "k"), None);
    assert_eq!(ini.get("a", "m"), Some("3".to_string()));
    assert_eq!(ini.get("b", "j"), Some("2".to_string()));
    assert_eq!(ini.get("b", "k"), None);
}

#[test]
fn repeating_the_current_header_keeps_entries() {
    let ini = parse("[a]\nk=1\n[a]\nj=2\n");
    assert_eq!(ini.get("a", "k"), Some("1".to_string()));
    assert_eq!(ini.get("a", "j"), Some("2".to_string()));
}

#[test]
fn empty_section_is_kept() {
    let ini = parse("[a]\n[b]\n");
    assert!(ini.has_section("a"));
    assert!(ini.has_section("b"));
    assert_eq!(ini.section_entries("a"), Some(vec![]));
    let mut names = ini.section_names();
    names.sort();
    assert_eq!(names, vec!["a".to_string(), "b".to_string()]);
}

#[test]
fn blank_content_has_no_sections() {
    assert!(parse("").section_names().is_empty());
    assert!(parse("  \n\t\n  ").section_names().is_empty());
}

#[test]
fn windows_line_endings() {
    let ini = parse("[a]\r\nk = v\r\n");
    assert_eq!(ini.get("a", "k"), Some("v".to_string()));
}

#[test]
fn bare_key_before_any_header() {
    let ini = parse("lonely\n");
    assert_eq!(ini.get("-1", "lonely"), Some("".to_string()));
}

#[test]
fn empty_header_name() {
    let ini = parse("[]\nk=v");
    assert_eq!(ini.get("", "k"), Some("v".to_string()));
}

#[test]
fn entries_of_a_section() {
    let ini = parse("[s]\nx = 1\ny = 2\n");
    let mut entries = ini.section_entries("s").unwrap();
    entries.sort();
    assert_eq!(
        entries,
        vec![("x".to_string(), "1".to_string()), ("y".to_string(), "2".to_string())]
    );
    assert_eq!(ini.section_entries("t"), None);
}

#[test]
fn broken_files_are_refused() {
    assert!(try_parse("[a").is_none());
    assert!(try_parse("[").is_none());
    assert!(try_parse("[[a]]").is_none());
    assert!(try_parse("k=v\n[a]").is_none());
    assert!(try_parse("[a]\nk=v=w").is_none());
    assert!(try_parse("[-1]\nk=v").is_none());
    assert!(try_parse("[a]\nk=v").is_some());
}
