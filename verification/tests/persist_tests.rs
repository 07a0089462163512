use savesearch::category::Category;
use savesearch::codec::{read_vec, write_vec, ListError};
use savesearch::index::{Change, Index, IndexBuilder};
use savesearch::persist::{load_index, save_index, LoadError};

fn sample() -> Index {
    let mut b = IndexBuilder::new(b'C');
    b.push(100, 5, 0x10, "Users");
    b.push(200, 100, 0, "report.txt");
    let mut idx = b.finish();
    idx.set_usn_state(0x1122_3344, 0xAABB_CCDD_EEFF_0011, -42);
    idx
}

fn header() -> Vec<u8> {
    let mut b = b"SSIDX02\0".to_vec();
    b.push(b'C');
    b.extend_from_slice(&[0u8; 24]);
    b
}

fn list(out: &mut Vec<u8>, width: usize, values: &[u64]) {
    out.extend_from_slice(&(values.len() as u64).to_le_bytes());
    for v in values {
        out.extend_from_slice(&v.to_le_bytes()[..width]);
    }
}

fn file(off: &[u64], len: &[u64], parent: &[u64], flags: &[u64], pool: &[u64], frns: &[u64], ids: &[u64]) -> Vec<u8> {
    let mut b = header();
    list(&mut b, 4, off);
    list(&mut b, 2, len);
    list(&mut b, 4, parent);
    list(&mut b, 2, flags);
    list(&mut b, 1, pool);
    list(&mut b, 8, frns);
    list(&mut b, 4, ids);
    b
}

fn error_of(b: &[u8]) -> LoadError {
    match load_index(b) {
        Ok(_) => panic!("loaded"),
        Err(e) => e,
    }
}

#[test]
fn roundtrip_recomputes_tombstones() {
    let mut b = IndexBuilder::new(b'C');
    b.push(100, 5, 0, "a.txt");
    b.push(200, 5, 0, "b.txt");
    let mut idx = b.finish();
    idx.apply(&Change::Delete { frn: 100 });
    assert_eq!(idx.tombstones(), 1);

    let bytes = save_index(&idx);
    let loaded = load_index(&bytes).ok().unwrap();

    assert_eq!(loaded.tombstones(), 1);
    assert_eq!(loaded.len(), idx.len());
}

#[test]
fn everything_comes_back() {
    let idx = sample();
    let mut again = load_index(&save_index(&idx)).ok().unwrap();
    assert_eq!(again.drive_letter(), 'C');
    assert_eq!(again.volume_serial(), 0x1122_3344);
    assert_eq!(again.usn_journal_id(), 0xAABB_CCDD_EEFF_0011);
    assert_eq!(again.next_usn(), -42);
    assert_eq!(again.len(), 3);
    for id in 0..3 {
        assert_eq!(again.path(id), idx.path(id));
        assert_eq!(again.is_dir(id), idx.is_dir(id));
    }
    assert_eq!(again.search("report", Category::All, 10)[0].path, "C:\\Users\\report.txt");
    again.apply(&Change::Delete { frn: 200 });
    assert!(again.search("report", Category::All, 10).is_empty());
}

#[test]
fn the_bytes_are_as_laid_out() {
    let mut b = IndexBuilder::new(b'C');
    b.push(7, 5, 0x10, "ab");
    let mut idx = b.finish();
    idx.set_usn_state(1, 2, 3);
    let mut want = b"SSIDX02\0C".to_vec();
    want.extend_from_slice(&1u64.to_le_bytes());
    want.extend_from_slice(&2u64.to_le_bytes());
    want.extend_from_slice(&3u64.to_le_bytes());
    list(&mut want, 4, &[0, 0]);
    list(&mut want, 2, &[0, 2]);
    list(&mut want, 4, &[0xFFFF_FFFF, 0]);
    list(&mut want, 2, &[1, 1]);
    list(&mut want, 1, &[97, 98]);
    list(&mut want, 8, &[7]);
    list(&mut want, 4, &[1]);
    assert_eq!(save_index(&idx), want);
}

#[test]
fn every_cut_is_refused() {
    let bytes = save_index(&sample());
    for k in 0..bytes.len() {
        assert!(load_index(&bytes[..k]).is_err());
    }
    let mut more = bytes.clone();
    more.push(1);
    assert!(load_index(&more).is_ok());
}

#[test]
fn each_fault_by_its_name() {
    assert_eq!(error_of(b""), LoadError::UnexpectedEof);
    assert_eq!(error_of(b"SSIDX01\0"), LoadError::BadMagic);
    assert_eq!(error_of(b"SSIDX02\0"), LoadError::UnexpectedEof);
    let mut huge = header();
    huge.extend_from_slice(&u64::MAX.to_le_bytes());
    assert_eq!(error_of(&huge), LoadError::VecTooLarge);
    let mut short = header();
    short.extend_from_slice(&8u64.to_le_bytes());
    assert_eq!(error_of(&short), LoadError::UnexpectedEof);

    let none: [u64; 0] = [];
    assert_eq!(
        error_of(&file(&none, &none, &none, &none, &none, &none, &none)),
        LoadError::InconsistentLengths
    );
    assert_eq!(
        error_of(&file(&[0], &[0, 0], &[0], &[1], &none, &none, &none)),
        LoadError::InconsistentLengths
    );
    assert_eq!(
        error_of(&file(&[0], &[0], &[0], &[1], &none, &[9], &none)),
        LoadError::InconsistentLengths
    );
    assert_eq!(
        error_of(&file(&[1], &[1], &[7], &[1], &[65], &none, &none)),
        LoadError::NameOutOfPool
    );
    assert_eq!(
        error_of(&file(&[0], &[1], &[7], &[1], &[65], &none, &none)),
        LoadError::ParentOutOfRange
    );
    assert_eq!(
        error_of(&file(&[0], &[1], &[0xFFFF_FFFF], &[1], &[65], &[9], &[1])),
        LoadError::FrnIdOutOfRange
    );
}

#[test]
fn a_hand_made_file() {
    let b = file(&[0, 0], &[0, 1], &[0xFFFF_FFFF, 0], &[1, 2], &[65], &[9, 9], &[0, 1]);
    let mut idx = load_index(&b).ok().unwrap();
    assert_eq!(idx.tombstones(), 1);
    assert_eq!(idx.path(1), "C:\\A");
    idx.apply(&Change::Delete { frn: 9 });
    assert_eq!(idx.tombstones(), 1);
}

#[test]
fn lists_of_words() {
    let mut out = Vec::new();
    write_vec(&mut out, &[0x0102u16, 0xFFFF]);
    assert_eq!(out, vec![2, 0, 0, 0, 0, 0, 0, 0, 0x02, 0x01, 0xFF, 0xFF]);
    let (v, end) = read_vec::<u16>(&out, 0).ok().unwrap();
    assert_eq!(v, vec![0x0102, 0xFFFF]);
    assert_eq!(end, 12);
    assert_eq!(read_vec::<u16>(&out[..11], 0).err(), Some(ListError::UnexpectedEof));
    assert_eq!(read_vec::<u64>(&out, 0).err(), Some(ListError::TooLarge));
    assert_eq!(read_vec::<u8>(&[1, 2], 0).err(), Some(ListError::UnexpectedEof));
}
