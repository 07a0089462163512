use savesearch::catalog::{
    cache_file_name, is_followable, is_news, try_load, Catalog, JournalReply,
};
use savesearch::category::Category;
use savesearch::index::{Change, Index, IndexBuilder};
use savesearch::persist::{load_index, save_index};

fn volume(letter: u8, names: &[&str]) -> Index {
    let mut b = IndexBuilder::new(letter);
    b.push(100, 5, 0x10, "dir");
    for (i, n) in names.iter().enumerate() {
        b.push(200 + i as u64, 100, 0, n);
    }
    let mut idx = b.finish();
    idx.set_usn_state(1, 2, 10);
    idx
}

fn two() -> Catalog {
    Catalog::build_all(vec![
        Some(volume(b'C', &["hit1.txt", "hit2.txt"])),
        None,
        Some(volume(b'D', &["hit3.txt"])),
    ])
}

fn paths(c: &Catalog, q: &str, drive: Option<char>, folder: Option<&str>, limit: usize) -> Vec<String> {
    c.search(q, drive, folder, Category::All, limit).into_iter().map(|r| r.path).collect()
}

fn upsert(frn: u64, name: &str) -> Change {
    Change::Upsert { frn, parent_frn: 100, attrs: 0, name: name.to_string() }
}

#[test]
fn volumes_together() {
    let c = two();
    assert!(!c.is_empty());
    assert!(Catalog::new().is_empty());
    assert_eq!(c.drive_letters(), vec!['C', 'D']);
    assert_eq!(c.total_nodes(), 4 + 3);
    assert!(c.memory_bytes() >= 7 * 12);
    assert_eq!(c.usn_positions(), vec![('C', 2, 10), ('D', 2, 10)]);
}

#[test]
fn searching_all_or_one() {
    let c = two();
    assert_eq!(
        paths(&c, "hit", None, None, 10),
        vec!["C:\\dir\\hit1.txt", "C:\\dir\\hit2.txt", "D:\\dir\\hit3.txt"]
    );
    assert_eq!(paths(&c, "hit", Some('d'), None, 10), vec!["D:\\dir\\hit3.txt"]);
    assert_eq!(paths(&c, "hit", Some('C'), None, 1), vec!["C:\\dir\\hit1.txt"]);
    assert!(paths(&c, "hit", Some('E'), None, 10).is_empty());
    assert_eq!(paths(&c, "hit", None, None, 2).len(), 2);
    assert!(paths(&c, "hit", None, None, 0).is_empty());
    assert!(paths(&c, "", None, None, 10).is_empty());
}

#[test]
fn one_volume_as_its_index_alone() {
    let c = two();
    let alone = volume(b'D', &["hit3.txt"]);
    let want: Vec<String> =
        alone.search("hit", Category::All, 10).into_iter().map(|r| r.path).collect();
    assert_eq!(paths(&c, "hit", Some('D'), None, 10), want);
}

#[test]
fn a_folder_goes_before_a_letter() {
    let c = two();
    assert_eq!(paths(&c, "hit", Some('C'), Some("d:\\DIR"), 10), vec!["D:\\dir\\hit3.txt"]);
    assert!(paths(&c, "hit", None, Some("D:\\nowhere"), 10).is_empty());
    assert!(paths(&c, "hit", None, Some("X:\\dir"), 10).is_empty());
    assert!(paths(&c, "hit", None, Some(""), 10).is_empty());
    assert_eq!(paths(&c, "hit", None, Some("C:\\"), 10).len(), 2);
}

#[test]
fn catching_up() {
    let mut c = two();
    let replies: Vec<Option<JournalReply>> = vec![
        Some((vec![upsert(300, "hit9.txt"), Change::Delete { frn: 200 }], 20)),
        None,
    ];
    assert!(c.can_catch_up(&replies));
    assert!(!c.can_catch_up(&replies[..1]));
    assert_eq!(c.catch_up(&replies), 2);
    assert_eq!(
        paths(&c, "hit", Some('C'), None, 10),
        vec!["C:\\dir\\hit2.txt", "C:\\dir\\hit9.txt"]
    );
    assert_eq!(c.usn_positions(), vec![('C', 2, 20), ('D', 2, 10)]);
}

#[test]
fn changes_of_one_volume() {
    let mut c = two();
    assert!(c.apply_drive_changes('D', &[upsert(300, "hit4.txt")], 33));
    assert_eq!(paths(&c, "hit", Some('D'), None, 10).len(), 2);
    assert_eq!(c.usn_positions()[1], ('D', 2, 33));
    assert_eq!(c.usn_positions()[0], ('C', 2, 10));
    assert!(!c.apply_drive_changes('E', &[upsert(300, "hit4.txt")], 33));
}

#[test]
fn news_of_a_journal() {
    assert!(!is_news(&[], 5, 5));
    assert!(is_news(&[], 6, 5));
    assert!(is_news(&[Change::Delete { frn: 1 }], 5, 5));
}

#[test]
fn saved_and_loaded_again() {
    let c = two();
    let files = c.save_all();
    assert_eq!(files.len(), 2);
    assert_eq!(files[0].0, "index_C.ssidx");
    assert_eq!(files[1].0, "index_D.ssidx");
    let again = try_load(&files[0].1, 1, 2, 10, None).unwrap();
    assert_eq!(again.search("hit", Category::All, 10).len(), 2);
    assert_eq!(again.next_usn(), 10);

    let reply: JournalReply = (vec![upsert(300, "hit9.txt")], 44);
    let ahead = try_load(&files[0].1, 1, 2, 9, Some(&reply)).unwrap();
    assert_eq!(ahead.search("hit", Category::All, 10).len(), 3);
    assert_eq!(ahead.next_usn(), 44);
}

#[test]
fn a_cache_that_is_of_no_use() {
    let bytes = save_index(&volume(b'C', &["a"]));
    assert!(try_load(&bytes, 9, 2, 10, None).is_none());
    assert!(try_load(&bytes, 1, 9, 10, None).is_none());
    assert!(try_load(&bytes, 1, 2, 11, None).is_none());
    assert!(try_load(&bytes[..40], 1, 2, 10, None).is_none());
    assert!(try_load(&bytes, 1, 2, 10, None).is_some());
    let idx = volume(b'C', &["a"]);
    assert!(is_followable(&idx, 1, 2, 10));
    assert!(!is_followable(&idx, 1, 2, 11));
}

#[test]
fn cache_files_by_letter() {
    assert_eq!(cache_file_name('c'), "index_C.ssidx");
    assert_eq!(cache_file_name('Z'), "index_Z.ssidx");
}

#[test]
fn adding_a_volume() {
    let mut c = Catalog::new();
    c.add(volume(b'E', &["x"]));
    assert_eq!(c.drive_letters(), vec!['E']);
}

#[test]
fn start_prefers_the_cache() {
    let mut c = Catalog::new();
    let cached = volume(b'C', &["kept.txt"]);
    assert!(c.build_or_load(Some(cached), Some(volume(b'C', &["anew.txt"]))).is_none());
    assert_eq!(paths(&c, "txt", None, None, 10), vec!["C:\\dir\\kept.txt"]);

    let (name, bytes) = c.build_or_load(None, Some(volume(b'D', &["anew.txt"]))).unwrap();
    assert_eq!(name, "index_D.ssidx");
    assert_eq!(load_index(&bytes).unwrap().drive_letter(), 'D');
    assert_eq!(c.drive_letters(), vec!['C', 'D']);

    assert!(c.build_or_load(None, None).is_none());
    assert_eq!(c.drive_letters(), vec!['C', 'D']);
}
