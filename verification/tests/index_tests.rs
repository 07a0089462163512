use savesearch::category::Category;
use savesearch::index::{footprint_bytes, Change, Index, IndexBuilder, REBUILD_MIN_TOMBSTONES};
use savesearch::model::{FILE_ATTRIBUTE_DIRECTORY, IS_DELETED, IS_DIR, MAX_NAME, ROOT_ID};
use savesearch::pattern::compile_query;
use savesearch::rank::rank_hits;
use savesearch::search::cand_cap;

fn upsert(frn: u64, parent_frn: u64, attrs: u32, name: &str) -> Change {
    Change::Upsert { frn, parent_frn, attrs, name: name.to_string() }
}

fn names(idx: &Index, query: &str) -> Vec<String> {
    idx.search(query, Category::All, 100).into_iter().map(|r| r.name).collect()
}

#[test]
fn build_search_path_and_increment() {
    let mut b = IndexBuilder::new(b'C');
    b.push(100, 5, FILE_ATTRIBUTE_DIRECTORY, "Users");
    b.push(200, 100, 0, "report.txt");
    let mut idx = b.finish();

    let r = idx.search("report", Category::All, 10);
    assert_eq!(r.len(), 1);
    assert_eq!(r[0].path, "C:\\Users\\report.txt");
    assert_eq!(idx.search("USERS", Category::All, 10).len(), 1);

    assert_eq!(idx.search("report", Category::Document, 10).len(), 1);
    assert_eq!(idx.search("report", Category::Image, 10).len(), 0);
    assert_eq!(idx.search("Users", Category::Folder, 10).len(), 1);
    assert_eq!(idx.search("Users", Category::Document, 10).len(), 0);

    idx.apply(&Change::Upsert {
        frn: 300,
        parent_frn: 100,
        attrs: 0,
        name: "notes.md".into(),
    });
    assert_eq!(idx.search("notes", Category::All, 10)[0].path, "C:\\Users\\notes.md");

    idx.apply(&Change::Delete { frn: 200 });
    assert_eq!(idx.search("report", Category::All, 10).len(), 0);

    idx.apply(&Change::Upsert {
        frn: 300,
        parent_frn: 100,
        attrs: 0,
        name: "todo.md".into(),
    });
    assert_eq!(idx.search("notes", Category::All, 10).len(), 0);
    assert_eq!(idx.search("todo", Category::All, 10).len(), 1);
}

#[test]
fn tokenize_and_wildcard() {
    let mut b = IndexBuilder::new(b'C');
    b.push(100, 5, FILE_ATTRIBUTE_DIRECTORY, "Users");
    b.push(200, 100, 0, "report final.txt");
    b.push(300, 100, 0, "summary.txt");
    let idx = b.finish();

    assert_eq!(idx.search("report txt", Category::All, 10).len(), 1);
    assert_eq!(idx.search("report zzz", Category::All, 10).len(), 0);
    assert_eq!(idx.search("REPORT", Category::All, 10).len(), 1);
    assert_eq!(idx.search("*.txt", Category::All, 10).len(), 2);
    assert_eq!(idx.search("re?ort*", Category::All, 10).len(), 1);
    assert_eq!(idx.search("rep*final", Category::All, 10).len(), 1);
}

#[test]
fn relevance_sort() {
    let mut b = IndexBuilder::new(b'C');
    b.push(100, 5, FILE_ATTRIBUTE_DIRECTORY, "deep");
    b.push(101, 100, FILE_ATTRIBUTE_DIRECTORY, "sub");
    b.push(200, 5, 0, "reporting.txt");
    b.push(201, 5, 0, "report");
    b.push(202, 5, FILE_ATTRIBUTE_DIRECTORY, "report");
    b.push(203, 101, 0, "report");
    let idx = b.finish();

    let r = idx.search("report", Category::All, 10);
    assert_eq!(r[0].name, "report");
    assert!(r[0].is_dir);
    assert_eq!(r[1].path, "C:\\report");
    assert!(!r[1].is_dir);
    assert_eq!(r[2].path, "C:\\deep\\sub\\report");
    assert_eq!(r.last().unwrap().name, "reporting.txt");
}

#[test]
fn tombstone_counting() {
    let mut b = IndexBuilder::new(b'C');
    b.push(100, 5, FILE_ATTRIBUTE_DIRECTORY, "Users");
    b.push(200, 100, 0, "a.txt");
    b.push(300, 100, 0, "b.txt");
    let mut idx = b.finish();
    assert_eq!(idx.tombstones(), 0);

    idx.apply(&Change::Delete { frn: 200 });
    assert_eq!(idx.tombstones(), 1);
    idx.apply(&Change::Delete { frn: 200 });
    assert_eq!(idx.tombstones(), 1);
    idx.apply(&Change::Delete { frn: 999 });
    assert_eq!(idx.tombstones(), 1);

    idx.apply(&Change::Delete { frn: 300 });
    assert_eq!(idx.tombstones(), 2);

    idx.apply(&Change::Upsert {
        frn: 301,
        parent_frn: 100,
        attrs: 0,
        name: "b.txt".into(),
    });
    assert_eq!(idx.tombstones(), 2);
}

#[test]
fn needs_rebuild_threshold() {
    let mut b = IndexBuilder::new(b'C');
    b.push(100, 5, 0, "a");
    let mut idx = b.finish();
    idx.apply(&Change::Delete { frn: 100 });
    assert!(!idx.needs_rebuild());

    let t = REBUILD_MIN_TOMBSTONES + 1;
    let mut k: u64 = 1000;
    while (idx.tombstones() as usize) < t {
        idx.apply(&upsert(k, 5, 0, "x"));
        idx.apply(&Change::Delete { frn: k });
        k += 1;
    }
    assert_eq!(idx.tombstones() as usize, t);
    assert!(idx.needs_rebuild());

    while idx.len() < t * 5 + 1 {
        idx.apply(&upsert(k, 5, 0, "x"));
        k += 1;
    }
    assert_eq!(idx.tombstones() as usize, t);
    assert!(!idx.needs_rebuild());
}

#[test]
fn cap_truncates_candidates() {
    let mut b = IndexBuilder::new(b'C');
    for i in 0..30u64 {
        b.push(1000 + i, 5, 0, "x.txt");
    }
    let idx = b.finish();
    let terms = compile_query("x");
    let (cands, trunc) = idx.collect_scored(&terms, Category::All, None, 10);
    assert_eq!(cands.len(), 10);
    assert!(trunc);
    let (cands2, trunc2) = idx.collect_scored(&terms, Category::All, None, 100);
    assert_eq!(cands2.len(), 30);
    assert!(!trunc2);
    let (cands3, trunc3) = idx.collect_scored(&terms, Category::All, None, 0);
    assert_eq!(cands3.len(), 1);
    assert!(trunc3);
    let (cands4, trunc4) = idx.collect_scored(&terms, Category::All, None, 30);
    assert_eq!(cands4.len(), 30);
    assert!(trunc4);
}

#[test]
fn just_at_the_rebuild_minimum() {
    let mut idx = IndexBuilder::new(b'C').finish();
    let mut k: u64 = 1000;
    while (idx.tombstones() as usize) < REBUILD_MIN_TOMBSTONES {
        idx.apply(&upsert(k, 5, 0, "x"));
        idx.apply(&Change::Delete { frn: k });
        k += 1;
    }
    assert!(!idx.needs_rebuild());
}

#[test]
fn fresh_index_holds_the_root_alone() {
    let idx = IndexBuilder::new(b'D').finish();
    assert_eq!(idx.len(), 1);
    assert!(idx.is_empty());
    assert_eq!(idx.drive_letter(), 'D');
    assert_eq!(idx.path(ROOT_ID), "D:\\");
    assert_eq!(idx.path(u32::MAX), "D:\\");
    assert!(idx.is_dir(ROOT_ID));
    assert_eq!(idx.name(ROOT_ID), "");
    assert_eq!(idx.volume_serial(), 0);
    assert_eq!(idx.usn_journal_id(), 0);
    assert_eq!(idx.next_usn(), 0);
    assert!(idx.search("a", Category::All, 10).is_empty());
}

#[test]
fn usn_state_is_kept() {
    let mut idx = IndexBuilder::new(b'C').finish();
    idx.set_usn_state(7, 8, 9);
    assert_eq!((idx.volume_serial(), idx.usn_journal_id(), idx.next_usn()), (7, 8, 9));
    idx.set_next_usn(-3);
    assert_eq!((idx.volume_serial(), idx.usn_journal_id(), idx.next_usn()), (7, 8, -3));
}

#[test]
fn root_references() {
    assert!(IndexBuilder::is_root_frn(5));
    assert!(IndexBuilder::is_root_frn(0x0005_0000_0000_0005));
    assert!(!IndexBuilder::is_root_frn(6));
    assert!(!IndexBuilder::is_root_frn(0x0000_0001_0000_0005));
}

#[test]
fn builder_has_room_and_reserves() {
    let mut b = IndexBuilder::new(b'C');
    b.reserve(1000);
    assert!(b.has_room());
    b.push(10, 5, 0, "a");
    assert!(b.has_room());
    assert_eq!(b.finish().len(), 2);
}

#[test]
fn unknown_parent_is_the_root() {
    let mut b = IndexBuilder::new(b'C');
    b.push(10, 4711, 0, "orphan.txt");
    let mut idx = b.finish();
    assert_eq!(idx.path(1), "C:\\orphan.txt");
    idx.apply(&upsert(11, 4712, 0, "late.txt"));
    assert_eq!(idx.path(2), "C:\\late.txt");
    assert_eq!(idx.depth_of(2), 1);
}

#[test]
fn parents_may_come_later() {
    let mut b = IndexBuilder::new(b'C');
    b.push(20, 10, 0, "child.txt");
    b.push(10, 5, FILE_ATTRIBUTE_DIRECTORY, "dir");
    let idx = b.finish();
    assert_eq!(idx.path(1), "C:\\dir\\child.txt");
    assert_eq!(idx.depth_of(1), 2);
    assert!(idx.is_descendant(1, 2));
    assert!(idx.is_descendant(1, 1));
    assert!(idx.is_descendant(1, ROOT_ID));
    assert!(!idx.is_descendant(2, 1));
    assert!(!idx.is_descendant(u32::MAX, ROOT_ID));
}

#[test]
fn a_circle_of_parents_ends() {
    let mut b = IndexBuilder::new(b'C');
    b.push(10, 20, FILE_ATTRIBUTE_DIRECTORY, "a");
    b.push(20, 10, FILE_ATTRIBUTE_DIRECTORY, "b");
    let idx = b.finish();
    assert_eq!(idx.depth_of(1), 4096);
    assert!(!idx.is_descendant(1, ROOT_ID));
    assert!(idx.path(1).ends_with("\\b\\a"));
}

#[test]
fn long_names_are_cut() {
    let long = "n".repeat(MAX_NAME + 10);
    let mut b = IndexBuilder::new(b'C');
    b.push(10, 5, 0, &long);
    b.push(11, 5, 0, "after");
    let idx = b.finish();
    assert_eq!(idx.name_bytes(1).len(), MAX_NAME);
    assert_eq!(idx.name(2), "after");
}

#[test]
fn a_cut_character_is_replaced() {
    let mut long = "n".repeat(MAX_NAME - 1);
    long.push('é');
    let mut b = IndexBuilder::new(b'C');
    b.push(10, 5, 0, &long);
    let idx = b.finish();
    assert!(idx.name(1).ends_with('\u{FFFD}'));
    assert_eq!(idx.name(1).chars().count(), MAX_NAME);
}

#[test]
fn names_are_given_back() {
    let mut b = IndexBuilder::new(b'C');
    b.push(10, 5, 0, "Überblick 文件 😀.txt");
    let idx = b.finish();
    assert_eq!(idx.name(1), "Überblick 文件 😀.txt");
    assert_eq!(idx.path(1), "C:\\Überblick 文件 😀.txt");
    assert_eq!(names(&idx, "文件"), vec!["Überblick 文件 😀.txt".to_string()]);
}

#[test]
fn root_is_not_upserted() {
    let mut idx = IndexBuilder::new(b'C').finish();
    idx.apply(&upsert(5, 5, FILE_ATTRIBUTE_DIRECTORY, "."));
    assert_eq!(idx.len(), 1);
}

#[test]
fn upsert_again_changes_nothing() {
    let mut b = IndexBuilder::new(b'C');
    b.push(100, 5, FILE_ATTRIBUTE_DIRECTORY, "Users");
    let mut idx = b.finish();
    let c = upsert(200, 100, 0, "a.txt");
    idx.apply(&c);
    let once = (idx.len(), idx.path(2), idx.is_dir(2), idx.tombstones());
    idx.apply(&c);
    assert_eq!((idx.len(), idx.path(2), idx.is_dir(2), idx.tombstones()), once);
    assert_eq!(once.1, "C:\\Users\\a.txt");
}

#[test]
fn an_entry_that_is_its_own_parent() {
    let mut idx = IndexBuilder::new(b'C').finish();
    let c = upsert(200, 200, FILE_ATTRIBUTE_DIRECTORY, "self");
    idx.apply(&c);
    assert_eq!(idx.path(1), "C:\\self");
    assert_eq!(idx.depth_of(1), 1);
    idx.apply(&c);
    assert_eq!(idx.depth_of(1), 4096);
}

#[test]
fn upsert_moves_and_turns() {
    let mut b = IndexBuilder::new(b'C');
    b.push(100, 5, FILE_ATTRIBUTE_DIRECTORY, "a");
    b.push(101, 5, FILE_ATTRIBUTE_DIRECTORY, "b");
    b.push(200, 100, 0, "x");
    let mut idx = b.finish();
    idx.apply(&upsert(200, 101, FILE_ATTRIBUTE_DIRECTORY, "y"));
    assert_eq!(idx.path(3), "C:\\b\\y");
    assert!(idx.is_dir(3));
    assert!(!idx.is_deleted(3));
    assert_eq!(idx.path(1), "C:\\a");
    assert_eq!(idx.path(2), "C:\\b");
    assert_eq!(idx.len(), 4);
}

#[test]
fn deleted_keeps_its_place() {
    let mut b = IndexBuilder::new(b'C');
    b.push(100, 5, FILE_ATTRIBUTE_DIRECTORY, "dir");
    b.push(200, 100, 0, "x.txt");
    let mut idx = b.finish();
    idx.apply(&Change::Delete { frn: 100 });
    assert!(idx.is_deleted(1));
    assert!(idx.is_dir(1));
    assert_eq!(idx.path(2), "C:\\dir\\x.txt");
    assert_eq!(names(&idx, "dir"), Vec::<String>::new());
    assert_eq!(names(&idx, "x"), vec!["x.txt".to_string()]);
    assert_eq!(IS_DIR, 1);
    assert_eq!(IS_DELETED, 2);
}

#[test]
fn apply_all_in_order() {
    let mut idx = IndexBuilder::new(b'C').finish();
    let cs = vec![
        upsert(1, 5, FILE_ATTRIBUTE_DIRECTORY, "d"),
        upsert(2, 1, 0, "f"),
        Change::Delete { frn: 2 },
        upsert(2, 1, 0, "g"),
    ];
    assert!(idx.has_room(&cs[0]));
    assert!(idx.has_room_for_all(&cs));
    idx.apply_all(&cs);
    assert_eq!(idx.len(), 4);
    assert_eq!(idx.tombstones(), 1);
    assert_eq!(idx.path(3), "C:\\d\\g");
    assert!(idx.is_deleted(2));
}

#[test]
fn folders_by_path() {
    let mut b = IndexBuilder::new(b'D');
    b.push(10, 5, FILE_ATTRIBUTE_DIRECTORY, "AI");
    b.push(11, 10, FILE_ATTRIBUTE_DIRECTORY, "pr-re");
    b.push(12, 10, 0, "file");
    let idx = b.finish();
    assert_eq!(idx.find_dir_by_path("D:\\AI\\pr-re"), Some(2));
    assert_eq!(idx.find_dir_by_path("d:\\ai\\PR-RE\\"), Some(2));
    assert_eq!(idx.find_dir_by_path("D:\\\\AI"), Some(1));
    assert_eq!(idx.find_dir_by_path("D:\\"), Some(ROOT_ID));
    assert_eq!(idx.find_dir_by_path("D:"), Some(ROOT_ID));
    assert_eq!(idx.find_dir_by_path(""), Some(ROOT_ID));
    assert_eq!(idx.find_dir_by_path("D:\\AI\\file"), None);
    assert_eq!(idx.find_dir_by_path("D:\\nothing"), None);
}

#[test]
fn a_deleted_folder_is_still_found_by_path() {
    let mut b = IndexBuilder::new(b'D');
    b.push(10, 5, FILE_ATTRIBUTE_DIRECTORY, "gone");
    let mut idx = b.finish();
    idx.apply(&Change::Delete { frn: 10 });
    assert_eq!(idx.find_dir_by_path("D:\\gone"), Some(1));
}

#[test]
fn search_below_a_folder() {
    let mut b = IndexBuilder::new(b'C');
    b.push(10, 5, FILE_ATTRIBUTE_DIRECTORY, "in");
    b.push(11, 10, 0, "hit.txt");
    b.push(12, 5, 0, "hit.txt");
    let idx = b.finish();
    let r = idx.search_under("hit", Category::All, 1, 10);
    assert_eq!(r.len(), 1);
    assert_eq!(r[0].path, "C:\\in\\hit.txt");
    assert_eq!(idx.search("hit", Category::All, 10).len(), 2);
    assert_eq!(idx.search_under("in", Category::All, 1, 10).len(), 1);
}

#[test]
fn blank_query_finds_nothing() {
    let mut b = IndexBuilder::new(b'C');
    b.push(10, 5, 0, "a");
    let idx = b.finish();
    assert!(idx.search("", Category::All, 10).is_empty());
    assert!(idx.search(" \t\n\x0C\r", Category::All, 10).is_empty());
    assert!(idx.collect_sorted("", Category::All, None, 10).is_empty());
}

#[test]
fn limit_is_kept() {
    let mut b = IndexBuilder::new(b'C');
    for i in 0..20u64 {
        b.push(10 + i, 5, 0, "same");
    }
    let idx = b.finish();
    assert_eq!(idx.search("same", Category::All, 7).len(), 7);
    assert_eq!(idx.search("same", Category::All, 0).len(), 0);
    assert_eq!(idx.search("same", Category::All, 20).len(), 20);
    let hits = idx.collect_sorted("same", Category::All, None, 3);
    assert_eq!(hits.iter().map(|h| h.1).collect::<Vec<u32>>(), vec![1, 2, 3]);
}

#[test]
fn several_words_are_no_prefix() {
    let mut b = IndexBuilder::new(b'C');
    b.push(200, 5, 0, "a report.txt");
    b.push(201, 5, 0, "report a.txt");
    let idx = b.finish();
    let (c, _) = idx.collect_scored(&compile_query("report a"), Category::All, None, 100);
    assert_eq!(c.len(), 2);
    assert!(c.iter().all(|(k, _)| k.not_exact && k.not_prefix));
    assert_eq!(names(&idx, "report a"), vec!["a report.txt", "report a.txt"]);
    let one = idx.collect_sorted("report", Category::All, None, 10);
    assert!(one[0].0.not_exact && !one[0].0.not_prefix);
    assert_eq!(names(&idx, "report"), vec!["report a.txt", "a report.txt"]);
    let wild = idx.collect_sorted("re*", Category::All, None, 10);
    assert!(wild.iter().all(|(k, _)| k.not_exact && k.not_prefix));
}

#[test]
fn name_breaks_the_tie() {
    let mut b = IndexBuilder::new(b'C');
    b.push(10, 5, 0, "xb");
    b.push(11, 5, 0, "XA");
    b.push(12, 5, 0, "x");
    b.push(13, 5, 0, "ax");
    let idx = b.finish();
    assert_eq!(names(&idx, "x"), vec!["x", "XA", "xb", "ax"]);
}

#[test]
fn ranking_is_by_key_then_node() {
    let mut b = IndexBuilder::new(b'C');
    b.push(10, 5, 0, "b");
    b.push(11, 5, 0, "a");
    b.push(12, 5, 0, "a");
    let idx = b.finish();
    let terms = compile_query("?");
    let (c, _) = idx.collect_scored(&terms, Category::All, None, 10);
    let r = rank_hits(c);
    assert_eq!(r.iter().map(|h| h.1).collect::<Vec<u32>>(), vec![2, 3, 1]);
}

#[test]
fn candidate_cap() {
    assert_eq!(cand_cap(0), 2000);
    assert_eq!(cand_cap(100), 2000);
    assert_eq!(cand_cap(101), 2020);
    assert_eq!(cand_cap(usize::MAX), usize::MAX);
}

#[test]
fn memory_is_counted() {
    assert_eq!(footprint_bytes(2, 5, 3), 2 * 12 + 5 + 3 * 12);
    assert_eq!(footprint_bytes(usize::MAX, 1, 1), usize::MAX);
    let mut b = IndexBuilder::new(b'C');
    b.push(10, 5, 0, "abc");
    b.push(11, 5, 0, "de");
    let idx = b.finish();
    let m = idx.memory_bytes();
    assert!(m >= footprint_bytes(3, 5, 2));
    assert_eq!((m - 3 * 12 - 5) % 12, 0);
}

#[test]
fn best_are_kept() {
    let mut b = IndexBuilder::new(b'C');
    b.push(100, 5, 0, "my report");
    b.push(101, 5, 0, "report.txt");
    b.push(102, 5, 0, "report");
    let idx = b.finish();
    let names = |limit: usize| -> Vec<String> {
        idx.search("report", Category::All, limit).into_iter().map(|r| r.name).collect()
    };
    assert_eq!(names(0), Vec::<String>::new());
    assert_eq!(names(1), vec!["report"]);
    assert_eq!(names(2), vec!["report", "report.txt"]);
    assert_eq!(names(3), vec!["report", "report.txt", "my report"]);
}

#[test]
fn question_mark_takes_a_character() {
    let mut b = IndexBuilder::new(b'C');
    b.push(100, 5, 0, "a文b.txt");
    b.push(101, 5, 0, "a文件b.txt");
    let idx = b.finish();
    assert_eq!(names(&idx, "a?b"), vec!["a文b.txt"]);
    assert_eq!(names(&idx, "a??b"), vec!["a文件b.txt"]);
    assert_eq!(names(&idx, "A*B").len(), 2);
}

#[test]
fn repeated_change_is_not_seen() {
    let mut b = IndexBuilder::new(b'C');
    b.push(100, 5, FILE_ATTRIBUTE_DIRECTORY, "dir");
    let mut idx = b.finish();
    for c in [upsert(200, 100, 0, "new.txt"), upsert(200, 5, 0, "moved.txt"), Change::Delete { frn: 100 }] {
        idx.apply(&c);
        let before: Vec<(String, bool)> =
            (0..idx.len() as u32).map(|i| (idx.path(i), idx.is_deleted(i))).collect();
        let dead = idx.tombstones();
        idx.apply(&c);
        let after: Vec<(String, bool)> =
            (0..idx.len() as u32).map(|i| (idx.path(i), idx.is_deleted(i))).collect();
        assert_eq!(before, after);
        assert_eq!(dead, idx.tombstones());
    }
}

#[test]
fn lists_of_changes_join() {
    let make = || {
        let mut b = IndexBuilder::new(b'C');
        b.push(100, 5, FILE_ATTRIBUTE_DIRECTORY, "dir");
        b.finish()
    };
    let all = [
        upsert(200, 100, 0, "a.txt"),
        Change::Delete { frn: 200 },
        upsert(200, 5, 0, "b.txt"),
        Change::Delete { frn: 100 },
    ];
    let mut one = make();
    assert!(one.has_room_for_all(&all));
    one.apply_all(&all);
    for cut in 0..=all.len() {
        let mut two = make();
        two.apply_all(&all[..cut]);
        two.apply_all(&all[cut..]);
        assert_eq!(two.len(), one.len());
        assert_eq!(two.tombstones(), one.tombstones());
        for i in 0..one.len() as u32 {
            assert_eq!(two.path(i), one.path(i));
        }
    }
    let len = one.len();
    one.apply_all(&[]);
    assert_eq!(one.len(), len);
}

#[test]
fn below_the_root_is_everything() {
    let mut b = IndexBuilder::new(b'C');
    b.push(100, 5, FILE_ATTRIBUTE_DIRECTORY, "x dir");
    b.push(200, 100, 0, "x.txt");
    let idx = b.finish();
    let root = idx.find_dir_by_path("C:\\").unwrap();
    assert_eq!(root, ROOT_ID);
    assert!(idx.is_dir(root));
    let below: Vec<String> =
        idx.search_under("x", Category::All, root, 10).into_iter().map(|r| r.path).collect();
    let all: Vec<String> =
        idx.search("x", Category::All, 10).into_iter().map(|r| r.path).collect();
    assert_eq!(below, all);
    assert_eq!(all, vec!["C:\\x dir", "C:\\x dir\\x.txt"]);
}

#[test]
fn paths_lead_back() {
    let mut b = IndexBuilder::new(0xE9);
    b.push(100, 5, FILE_ATTRIBUTE_DIRECTORY, "文件");
    b.push(200, 100, FILE_ATTRIBUTE_DIRECTORY, "Sub");
    b.push(201, 100, 0, "file");
    let idx = b.finish();
    assert_eq!(idx.path(2), "\u{E9}:\\文件\\Sub");
    for id in 0..3u32 {
        assert_eq!(idx.find_dir_by_path(&idx.path(id)), Some(id));
        assert!(idx.is_dir(id));
    }
    assert_eq!(idx.find_dir_by_path(&idx.path(3)), None);
}

#[test]
fn length_grows_by_new_entries() {
    let mut b = IndexBuilder::new(b'C');
    assert_eq!(IndexBuilder::new(b'C').finish().len(), 1);
    b.push(100, 5, FILE_ATTRIBUTE_DIRECTORY, "dir");
    b.push(200, 100, 0, "a.txt");
    let mut idx = b.finish();
    assert_eq!(idx.len(), 3);
    idx.apply(&upsert(200, 5, 0, "b.txt"));
    assert_eq!(idx.len(), 3);
    idx.apply(&upsert(5, 5, FILE_ATTRIBUTE_DIRECTORY, "."));
    assert_eq!(idx.len(), 3);
    idx.apply(&Change::Delete { frn: 200 });
    assert_eq!((idx.len(), idx.tombstones()), (3, 1));
    idx.apply(&upsert(200, 5, 0, "b.txt"));
    assert_eq!((idx.len(), idx.tombstones()), (4, 1));
    assert!(!idx.is_empty());
}

#[test]
fn small_index_takes_few_bytes() {
    let mut b = IndexBuilder::new(b'C');
    b.push(100, 5, 0, "abc");
    let idx = b.finish();
    let taken = idx.memory_bytes();
    assert!(taken >= 2 * 12 + 3 + 12);
    assert!(taken < 10_000);
    assert_eq!((taken - 2 * 12 - 3) % 12, 0);
}
