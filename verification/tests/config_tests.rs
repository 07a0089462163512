use savesearch::config::{
    add_favorite, after_failed_rename, copy_settings, favorites, is_favorite, last_query,
    load_list, load_settings, load_settings_from_disk, next_quarantine, quarantine_ext, recent,
    record_recent, remove_favorite, same_path, save_last_query, save_list, save_settings,
    settle_list, tmp_ext, toggle_favorite, RetryStep, Settings, SettingsRead,
};
use savesearch::text::{contains_text, parse_usize, to_decimal, trim};

fn list(items: &[&str]) -> Vec<String> {
    items.iter().map(|s| s.to_string()).collect()
}

#[test]
fn load_list_corrupt_is_quarantined() {
    let r = load_list(Some(b"{invalid json"));
    assert_eq!(r.list, Vec::<String>::new());
    assert!(r.quarantine);
    assert!(quarantine_ext(1752, 0).contains("corrupt-"));
}

#[test]
fn load_list_missing_and_valid() {
    let r = load_list(None);
    assert_eq!(r.list, Vec::<String>::new());
    assert!(!r.quarantine);
    let r = load_list(Some(br#"["C:\\a", "D:\\b"]"#));
    assert_eq!(r.list, vec!["C:\\a".to_string(), "D:\\b".to_string()]);
    assert!(!r.quarantine);
}

#[test]
fn other_json_is_no_list() {
    assert!(load_list(Some(b"[1, 2]")).quarantine);
    assert!(load_list(Some(b"")).quarantine);
    assert!(load_list(Some(b"[\"a\"] x")).quarantine);
    assert!(!load_list(Some(b"[]")).quarantine);
    assert_eq!(favorites(Some(b"[\"a\"]")).list, list(&["a"]));
    assert_eq!(recent(Some(b"[\"b\"]")).list, list(&["b"]));
    assert!(settle_list(None).quarantine);
    assert_eq!(settle_list(Some(list(&["x"]))).list, list(&["x"]));
}

#[test]
fn a_saved_list_is_loaded_again() {
    let l = list(&["C:\\a \"quoted\"", "D:\\文件", "", "tab\there"]);
    let bytes = save_list(&l).unwrap();
    let r = load_list(Some(&bytes));
    assert_eq!(r.list, l);
    assert!(!r.quarantine);
    assert_eq!(save_list(&list(&["x"])).unwrap(), b"[\n  \"x\"\n]".to_vec());
    assert_eq!(save_list(&list(&[])).unwrap(), b"[]".to_vec());
}

#[test]
fn paths_that_are_the_same() {
    assert!(same_path("C:\\Foo\\", "c:\\foo"));
    assert!(same_path("C:\\Foo\\\\", "C:\\Foo"));
    assert!(!same_path("C:\\Foo", "C:\\Fo"));
    assert!(same_path("\\", ""));
    assert!(!same_path("C:\\É", "C:\\é"));
}

#[test]
fn favorites_come_and_go() {
    let mut f = list(&["C:\\a"]);
    assert!(is_favorite(&f, "c:\\A\\"));
    assert!(!add_favorite(&mut f, "C:\\A"));
    assert!(add_favorite(&mut f, "D:\\b\\"));
    assert_eq!(f, list(&["C:\\a", "D:\\b\\"]));
    assert!(!remove_favorite(&mut f, "E:\\"));
    assert!(remove_favorite(&mut f, "d:\\B"));
    assert_eq!(f, list(&["C:\\a"]));
    assert!(toggle_favorite(&mut f, "X:\\"));
    assert_eq!(f, list(&["C:\\a", "X:\\"]));
    assert!(toggle_favorite(&mut f, "x:"));
    assert_eq!(f, list(&["C:\\a"]));
    let mut twice = list(&["q", "p", "Q"]);
    assert!(remove_favorite(&mut twice, "q"));
    assert_eq!(twice, list(&["p"]));
}

#[test]
fn recent_folders() {
    let mut r = list(&["A", "B", "C"]);
    record_recent(&mut r, "b\\", 5);
    assert_eq!(r, list(&["b\\", "A", "C"]));
    record_recent(&mut r, "D", 2);
    assert_eq!(r, list(&["D", "b\\"]));
    record_recent(&mut r, "E", 0);
    assert!(r.is_empty());
}

#[test]
fn settings_by_default() {
    let s = Settings::default();
    assert_eq!(s.theme, "business_light");
    assert!(s.indexed_drives.is_empty());
    assert!(s.preset_folders.is_empty());
    assert_eq!(s.result_limit, 200);
    assert_eq!(s.recent_max, 2);
    assert!(!s.autostart);
    assert!(s.popup_enabled && s.popup_show_favorites && s.popup_show_recent && s.popup_show_open);
    assert_eq!(s.last_query, "");
}

#[test]
fn settings_are_kept_in_the_process() {
    let (mut cache, damaged) = load_settings_from_disk(SettingsRead::Missing);
    assert!(!damaged);
    let mut s = load_settings(&cache);
    s.theme = "solarized".to_string();
    s.indexed_drives = vec!['C'];
    s.preset_folders = list(&["C:\\x"]);
    save_settings(&mut cache, &s);
    let again = load_settings(&cache);
    assert_eq!(again.theme, "solarized");
    assert_eq!(again.indexed_drives, vec!['C']);
    assert_eq!(again.preset_folders, list(&["C:\\x"]));
    assert_eq!(copy_settings(&again).theme, "solarized");
    assert_eq!(last_query(&cache), "");
    assert!(save_last_query(&mut cache, "foo"));
    assert!(!save_last_query(&mut cache, "foo"));
    assert_eq!(last_query(&cache), "foo");
    assert_eq!(load_settings(&cache).theme, "solarized");
}

#[test]
fn damaged_settings_give_the_defaults() {
    let (cache, damaged) = load_settings_from_disk(SettingsRead::Corrupt);
    assert!(damaged);
    assert_eq!(load_settings(&cache).result_limit, 200);
    let mut s = Settings::default();
    s.recent_max = 9;
    let (cache, damaged) = load_settings_from_disk(SettingsRead::Parsed(s));
    assert!(!damaged);
    assert_eq!(load_settings(&cache).recent_max, 9);
}

#[test]
fn names_for_damaged_files() {
    assert_eq!(quarantine_ext(1752, 0), "json.corrupt-1752");
    assert_eq!(quarantine_ext(1752, 3), "json.corrupt-1752-3");
    assert_eq!(quarantine_ext(u64::MAX, 0), "json.corrupt-18446744073709551615");
    assert_eq!(next_quarantine(0, false), None);
    assert_eq!(next_quarantine(0, true), Some(1));
    assert_eq!(next_quarantine(8, true), Some(9));
    assert_eq!(next_quarantine(9, true), None);
}

#[test]
fn names_for_files_written_first() {
    assert_eq!(tmp_ext(12, 0), "tmp.12.0");
    assert_ne!(tmp_ext(1, 23), tmp_ext(12, 3));
}

#[test]
fn failed_renames() {
    assert_eq!(after_failed_rename(0, false), RetryStep { wait_ms: 20, again: true });
    assert_eq!(after_failed_rename(1, false), RetryStep { wait_ms: 40, again: true });
    assert_eq!(after_failed_rename(2, false), RetryStep { wait_ms: 0, again: false });
    assert_eq!(after_failed_rename(2, true), RetryStep { wait_ms: 60, again: false });
}

#[test]
fn numbers_as_text() {
    for n in [0u64, 7, 10, 99, 100, 1234567890, u64::MAX] {
        assert_eq!(to_decimal(n), n.to_string());
    }
    for s in ["0", "007", "+5", "", "+", "-1", "1a", "18446744073709551616", "18446744073709551615", "٣"] {
        assert_eq!(parse_usize(s), s.parse::<usize>().ok());
    }
}

#[test]
fn white_space_is_trimmed() {
    for s in ["", "  ", " a b ", "\t\u{3000}x\u{85}\u{A0}", "x", "\u{200B}y\u{2028}", "\u{1680}\u{205F}\u{202F}z"] {
        assert_eq!(trim(s), s.trim());
    }
    let mut n: u32 = 0;
    while n < 0x11_0000 {
        if let Some(c) = char::from_u32(n) {
            assert_eq!(savesearch::text::is_space_char(c), c.is_whitespace());
        }
        n += 1;
    }
}

#[test]
fn texts_within_texts() {
    assert!(contains_text("the file name:", "file name"));
    assert!(contains_text("abc", ""));
    assert!(!contains_text("ab", "abc"));
    assert!(contains_text("aab", "ab"));
    assert!(!contains_text("文件", "件文"));
}
