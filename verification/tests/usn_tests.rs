use savesearch::category::Category;
use savesearch::drives::{has_drive, is_ntfs, ntfs_fixed_drives, wanted_drives, DriveProbe};
use savesearch::index::{Change, IndexBuilder};
use savesearch::usn::{
    build_index_for_drive, finish_scan, journal_step, parse_records, read_changes, root_path,
    scan_step, start_scan, volume_path, JournalStep, ScanStep,
};
use savesearch::wide::{decode_lossy, encode, fill_u16, wide};

fn record(frn: u64, parent: u64, reason: u32, attrs: u32, name: &str) -> Vec<u8> {
    let units: Vec<u16> = name.encode_utf16().collect();
    let len = (60 + units.len() * 2 + 7) / 8 * 8;
    let mut r = vec![0u8; len];
    r[0..4].copy_from_slice(&(len as u32).to_le_bytes());
    r[8..16].copy_from_slice(&frn.to_le_bytes());
    r[16..24].copy_from_slice(&parent.to_le_bytes());
    r[40..44].copy_from_slice(&reason.to_le_bytes());
    r[52..56].copy_from_slice(&attrs.to_le_bytes());
    r[56..58].copy_from_slice(&((units.len() * 2) as u16).to_le_bytes());
    r[58..60].copy_from_slice(&60u16.to_le_bytes());
    for (i, u) in units.iter().enumerate() {
        r[60 + 2 * i..62 + 2 * i].copy_from_slice(&u.to_le_bytes());
    }
    r
}

fn reply(next: i64, records: &[Vec<u8>]) -> Vec<u8> {
    let mut b = next.to_le_bytes().to_vec();
    for r in records {
        b.extend_from_slice(r);
    }
    b
}

fn describe(c: &Change) -> String {
    match c {
        Change::Upsert { frn, parent_frn, attrs, name } => {
            format!("+{} {} {} {}", frn, parent_frn, attrs, name)
        }
        Change::Delete { frn } => format!("-{}", frn),
    }
}

fn described(cs: &[Change]) -> Vec<String> {
    cs.iter().map(describe).collect()
}

#[test]
fn wide_is_nul_terminated() {
    let w = wide("ab");
    assert_eq!(w, vec![0x61, 0x62, 0x00]);
}

#[test]
fn wide_beyond_the_basic_plane() {
    assert_eq!(encode("a😀"), vec![0x61, 0xD83D, 0xDE00]);
    assert_eq!(decode_lossy(&[0x61, 0xD83D, 0xDE00]), "a😀");
    for s in ["", "plain", "文件 😀 \u{10FFFF}\u{10000}\u{FFFF}\u{D7FF}\u{E000}"] {
        assert_eq!(decode_lossy(&encode(s)), s);
        assert_eq!(encode(s), s.encode_utf16().collect::<Vec<u16>>());
    }
}

#[test]
fn lone_surrogates_are_replaced() {
    for u in [
        vec![0xD800u16],
        vec![0xDC00],
        vec![0xD800, 0x41],
        vec![0xD800, 0xD800, 0xDC00],
        vec![0xDC00, 0xD800],
    ] {
        assert_eq!(decode_lossy(&u), String::from_utf16_lossy(&u));
    }
    assert_eq!(decode_lossy(&[0xD800, 0x41]), "\u{FFFD}A");
}

#[test]
fn fixed_buffers_are_filled() {
    let mut b = [9u16; 4];
    fill_u16(&mut b, "ab");
    assert_eq!(b, [97, 98, 0, 9]);
    fill_u16(&mut b, "abcdef");
    assert_eq!(b, [97, 98, 99, 0]);
    fill_u16(&mut b, "");
    assert_eq!(b, [0, 98, 99, 0]);
}

#[test]
fn records_become_changes() {
    let buf = reply(
        0,
        &[
            record(10, 5, 0x100, 0x20, "a.txt"),
            record(11, 10, 0x200, 0, "b.txt"),
            record(5, 5, 0x100, 0x10, "."),
            record(12, 10, 0x8000_0200, 0x10, "gone"),
            record(13, 10, 0x2000, 0x10, "目录"),
        ],
    );
    let mut cs = Vec::new();
    parse_records(&buf, buf.len(), &mut cs);
    assert_eq!(described(&cs), vec!["+10 5 32 a.txt", "-11", "-12", "+13 10 16 目录"]);
    parse_records(&buf, 8, &mut cs);
    assert_eq!(cs.len(), 4);
    parse_records(&buf, 0, &mut cs);
    assert_eq!(cs.len(), 4);
}

#[test]
fn a_broken_record_ends_the_reply() {
    let mut short = record(10, 5, 0, 0, "a");
    short[0..4].copy_from_slice(&59u32.to_le_bytes());
    let buf = reply(0, &[record(9, 5, 0, 0, "x"), short, record(11, 5, 0, 0, "b")]);
    let mut cs = Vec::new();
    parse_records(&buf, buf.len(), &mut cs);
    assert_eq!(described(&cs), vec!["+9 5 0 x"]);

    let mut long = record(10, 5, 0, 0, "a");
    long[0..4].copy_from_slice(&1000u32.to_le_bytes());
    let buf = reply(0, &[long]);
    let mut cs = Vec::new();
    parse_records(&buf, buf.len(), &mut cs);
    assert!(cs.is_empty());
}

#[test]
fn a_name_outside_its_record_is_skipped() {
    let mut r = record(10, 5, 0, 0, "abcd");
    r[58..60].copy_from_slice(&200u16.to_le_bytes());
    let mut empty = record(11, 5, 0x200, 0, "x");
    empty[56..58].copy_from_slice(&0u16.to_le_bytes());
    let mut odd = record(12, 5, 0, 0, "xy");
    odd[56..58].copy_from_slice(&3u16.to_le_bytes());
    let buf = reply(0, &[r, empty, odd]);
    let mut cs = Vec::new();
    parse_records(&buf, buf.len(), &mut cs);
    assert_eq!(described(&cs), vec!["+12 5 0 x"]);
}

#[test]
fn the_journal_is_read_step_by_step() {
    let mut cs = Vec::new();
    let r = reply(100, &[record(10, 5, 0, 0, "a")]);
    assert_eq!(journal_step(50, &r, &mut cs), JournalStep::Again { start: 100 });
    assert_eq!(cs.len(), 1);
    assert_eq!(journal_step(100, &reply(120, &[]), &mut cs), JournalStep::Done { next: 120 });
    assert_eq!(journal_step(100, &reply(100, &[]), &mut cs), JournalStep::Done { next: 100 });
    assert_eq!(journal_step(100, &reply(-1, &[]), &mut cs), JournalStep::Done { next: 100 });
    assert_eq!(journal_step(100, &[1, 2, 3], &mut cs), JournalStep::Done { next: 100 });
    let stuck = reply(100, &[record(11, 5, 0, 0, "b")]);
    assert_eq!(journal_step(100, &stuck, &mut cs), JournalStep::Done { next: 100 });
    assert_eq!(described(&cs), vec!["+10 5 0 a", "+11 5 0 b"]);
}

#[test]
fn a_whole_read_of_the_journal() {
    let replies = vec![
        reply(100, &[record(10, 5, 0, 0, "a")]),
        reply(200, &[record(10, 5, 0x200, 0, "a"), record(11, 5, 0, 0, "b")]),
        reply(201, &[]),
        reply(300, &[record(12, 5, 0, 0, "never")]),
    ];
    let (cs, next) = read_changes(50, &replies).unwrap();
    assert_eq!(described(&cs), vec!["+10 5 0 a", "-10", "+11 5 0 b"]);
    assert_eq!(next, 201);
    assert!(read_changes(50, &replies[..2]).is_none());
    assert!(read_changes(50, &[]).is_none());
}

#[test]
fn a_volume_is_scanned() {
    let mut b = start_scan('c');
    let first = reply(77, &[record(100, 5, 0, 0x10, "Users"), record(5, 5, 0, 0x10, ".")]);
    assert_eq!(scan_step(&first, &mut b), ScanStep::Again { start: 77 });
    let second = reply(78, &[record(200, 100, 0x200, 0x20, "report.txt")]);
    assert_eq!(scan_step(&second, &mut b), ScanStep::Again { start: 78 });
    assert_eq!(scan_step(&[], &mut b), ScanStep::Done);
    let idx = finish_scan(b, 1, 2, 3);
    assert_eq!(idx.len(), 3);
    assert_eq!(idx.path(2), "C:\\Users\\report.txt");
    assert_eq!((idx.volume_serial(), idx.usn_journal_id(), idx.next_usn()), (1, 2, 3));

    let whole = build_index_for_drive('c', &[first, second], 1, 2, 3).unwrap();
    assert_eq!(whole.len(), 3);
    assert_eq!(whole.path(2), idx.path(2));
    assert_eq!(whole.search("report", Category::Document, 5).len(), 1);
    assert_eq!(whole.next_usn(), 3);
}

#[test]
fn a_scan_stops_at_a_short_reply() {
    let replies = vec![
        reply(1, &[record(100, 5, 0, 0, "a")]),
        vec![1, 2],
        reply(2, &[record(101, 5, 0, 0, "b")]),
    ];
    let idx = build_index_for_drive('D', &replies, 0, 0, 0).unwrap();
    assert_eq!(idx.len(), 2);
    assert_eq!(idx.drive_letter(), 'D');
}

#[test]
fn paths_of_a_volume() {
    assert_eq!(volume_path('c'), "\\\\.\\C:");
    assert_eq!(root_path('z'), "Z:\\");
    assert_eq!(root_path('1'), "1:\\");
}

#[test]
fn fixed_volumes_with_the_file_system() {
    assert!(is_ntfs(&wide("NTFS")));
    assert!(is_ntfs(&wide("ntfs\0\0")));
    assert!(!is_ntfs(&wide("FAT32")));
    assert!(!is_ntfs(&[]));
    let mut fs = [0u16; 16];
    fill_u16(&mut fs, "Ntfs");
    let mut probes: Vec<DriveProbe> = Vec::new();
    for _ in 0..26 {
        probes.push(DriveProbe { kind: 3, fs_name: Some(fs.to_vec()) });
    }
    probes[0].kind = 2;
    probes[4].fs_name = None;
    probes[5].fs_name = Some(wide("exFAT"));
    let mask = 0b111101;
    assert_eq!(ntfs_fixed_drives(mask, &probes), vec!['C', 'D']);
    assert_eq!(ntfs_fixed_drives(u32::MAX, &probes).len(), 23);
    assert!(ntfs_fixed_drives(0, &probes).is_empty());
    assert!(has_drive(mask, 0));
    assert!(!has_drive(mask, 1));
}

#[test]
fn volumes_that_are_asked_for() {
    assert_eq!(wanted_drives(&['C', 'D'], &[]), vec!['C', 'D']);
    assert_eq!(wanted_drives(&['C', 'D'], &['d', 'x']), vec!['D']);
    assert!(wanted_drives(&['C', 'D'], &['x']).is_empty());
}

#[test]
fn a_builder_from_a_reply() {
    let mut b = IndexBuilder::new(b'C');
    let r = reply(0, &[record(100, 5, 0, 0x10, "d"), record(101, 100, 0, 0, "f")]);
    assert!(savesearch::usn::push_records(&r, r.len(), &mut b));
    assert_eq!(b.finish().path(2), "C:\\d\\f");
}
