//! An index as the bytes of a cache file, and back.

use std::collections::HashMap;

use vstd::prelude::*;

use crate::codec;
use crate::codec::{read_vec, write_vec, ListError, Word};
use crate::index::Index;
use crate::model;
use crate::model::{Layout, IS_DELETED};

verus! {

/// Why bytes are no index.
#[derive(Debug, Clone, Copy, PartialEq, Eq, Structural)]
pub enum LoadError {
    /// The bytes end too early.
    UnexpectedEof,
    /// They do not begin as the bytes of an index do.
    BadMagic,
    /// A list announces more than all the bytes could hold.
    VecTooLarge,
    /// The lists do not have one entry per node.
    InconsistentLengths,
    /// A name lies outside the pool of names.
    NameOutOfPool,
    /// A parent is no node.
    ParentOutOfRange,
    /// A reference leads to no node.
    FrnIdOutOfRange,
}

/// What the bytes of an index hold: its arrays, and its map of references as
/// two lists.
#[verifier::ext_equal]
pub struct Raw {
    pub drive_letter: u8,
    pub volume_serial: u64,
    pub usn_journal_id: u64,
    pub next_usn: i64,
    pub names_off: Seq<u32>,
    pub names_len: Seq<u16>,
    pub parent: Seq<u32>,
    pub flags: Seq<u16>,
    pub name_pool: Seq<u8>,
    pub frns: Seq<u64>,
    pub ids: Seq<u32>,
}

/// How the bytes of an index begin: `SSIDX02` and a zero.
pub open spec fn magic() -> Seq<u8> {
    seq![83, 83, 73, 68, 88, 48, 50, 0]
}

/// The bytes before the lists.
pub open spec fn header_bytes(raw: Raw) -> Seq<u8> {
    magic() + codec::le(raw.drive_letter as nat, 1) + codec::le(raw.volume_serial as nat, 8)
        + codec::le(raw.usn_journal_id as nat, 8) + codec::le(raw.next_usn as u64 as nat, 8)
}

/// The bytes of an index.
pub open spec fn raw_bytes(raw: Raw) -> Seq<u8> {
    header_bytes(raw) + codec::list_bytes(raw.names_off) + codec::list_bytes(raw.names_len)
        + codec::list_bytes(raw.parent) + codec::list_bytes(raw.flags) + codec::list_bytes(
        raw.name_pool,
    ) + codec::list_bytes(raw.frns) + codec::list_bytes(raw.ids)
}

/// What the fault of a list is for the index.
pub open spec fn list_error(e: ListError) -> LoadError {
    match e {
        ListError::UnexpectedEof => LoadError::UnexpectedEof,
        ListError::TooLarge => LoadError::VecTooLarge,
    }
}

/// What some bytes hold. Whatever follows the last list is not looked at.
pub open spec fn parsed(b: Seq<u8>) -> Result<Raw, LoadError> {
    if b.len() < 8 {
        Err(LoadError::UnexpectedEof)
    } else if b.take(8) != magic() {
        Err(LoadError::BadMagic)
    } else if b.len() < 33 {
        Err(LoadError::UnexpectedEof)
    } else {
        match codec::list_at::<u32>(b, 33) {
            Err(e) => Err(list_error(e)),
            Ok((names_off, p1)) => match codec::list_at::<u16>(b, p1) {
                Err(e) => Err(list_error(e)),
                Ok((names_len, p2)) => match codec::list_at::<u32>(b, p2) {
                    Err(e) => Err(list_error(e)),
                    Ok((parent, p3)) => match codec::list_at::<u16>(b, p3) {
                        Err(e) => Err(list_error(e)),
                        Ok((flags, p4)) => match codec::list_at::<u8>(b, p4) {
                            Err(e) => Err(list_error(e)),
                            Ok((name_pool, p5)) => match codec::list_at::<u64>(b, p5) {
                                Err(e) => Err(list_error(e)),
                                Ok((frns, p6)) => match codec::list_at::<u32>(b, p6) {
                                    Err(e) => Err(list_error(e)),
                                    Ok((ids, p7)) => Ok(
                                        Raw {
                                            drive_letter: b[8],
                                            volume_serial: codec::un_le(b.subrange(9, 17)) as u64,
                                            usn_journal_id: codec::un_le(b.subrange(17, 25)) as u64,
                                            next_usn: codec::un_le(
                                                b.subrange(25, 33),
                                            ) as u64 as i64,
                                            names_off,
                                            names_len,
                                            parent,
                                            flags,
                                            name_pool,
                                            frns,
                                            ids,
                                        },
                                    ),
                                },
                            },
                        },
                    },
                },
            },
        }
    }
}

impl Raw {
    /// The first fault of a node from `i` on: its name is looked at before its
    /// parent.
    pub open spec fn node_fault(self, i: int) -> Option<LoadError>
        decreases self.names_off.len() - i,
    {
        if i >= self.names_off.len() {
            None
        } else if self.names_off[i] + self.names_len[i] > self.name_pool.len() {
            Some(LoadError::NameOutOfPool)
        } else if self.parent[i] != u32::MAX && self.parent[i] >= self.names_off.len() {
            Some(LoadError::ParentOutOfRange)
        } else {
            self.node_fault(i + 1)
        }
    }

    /// The first fault of the whole.
    pub open spec fn fault(self) -> Option<LoadError> {
        let n = self.names_off.len();
        if n == 0 || n > u32::MAX || self.names_len.len() != n || self.parent.len() != n
            || self.flags.len() != n || self.frns.len() != self.ids.len() {
            Some(LoadError::InconsistentLengths)
        } else if self.node_fault(0) is Some {
            self.node_fault(0)
        } else if exists|i: int| 0 <= i < self.ids.len() && #[trigger] self.ids[i] >= n {
            Some(LoadError::FrnIdOutOfRange)
        } else {
            None
        }
    }

    /// The arrays without the tombstones counted.
    pub open spec fn uncounted(self) -> Layout {
        Layout {
            drive_letter: self.drive_letter,
            volume_serial: self.volume_serial,
            usn_journal_id: self.usn_journal_id,
            next_usn: self.next_usn,
            names_off: self.names_off,
            names_len: self.names_len,
            parent: self.parent,
            flags: self.flags,
            name_pool: self.name_pool,
            frn_to_id: pairs_map(self.frns, self.ids),
            tombstones: 0,
        }
    }

    /// The arrays of the index: the tombstones are the nodes flagged as deleted.
    pub open spec fn layout(self) -> Layout {
        Layout { tombstones: model::count_deleted(self.uncounted().view().nodes) as u32, ..self.uncounted() }
    }
}

/// The map that the pairs of the two lists make, a later pair in the place of
/// an earlier one with the same key.
pub open spec fn pairs_map(keys: Seq<u64>, values: Seq<u32>) -> Map<u64, u32>
    decreases keys.len(),
{
    if keys.len() == 0 {
        Map::empty()
    } else {
        pairs_map(keys.drop_last(), values.drop_last()).insert(keys.last(), values.last())
    }
}

/// The arrays that some bytes stand for.
pub open spec fn loaded(b: Seq<u8>) -> Result<Layout, LoadError> {
    match parsed(b) {
        Err(e) => Err(e),
        Ok(raw) => match raw.fault() {
            Some(e) => Err(e),
            None => Ok(raw.layout()),
        },
    }
}

/// The arrays of an index with its map of references as the two given lists.
pub open spec fn raw_of(l: Layout, frns: Seq<u64>, ids: Seq<u32>) -> Raw {
    Raw {
        drive_letter: l.drive_letter,
        volume_serial: l.volume_serial,
        usn_journal_id: l.usn_journal_id,
        next_usn: l.next_usn,
        names_off: l.names_off,
        names_len: l.names_len,
        parent: l.parent,
        flags: l.flags,
        name_pool: l.name_pool,
        frns,
        ids,
    }
}

/// Whether the two lists hold the map, each key once.
pub open spec fn lists(m: Map<u64, u32>, keys: Seq<u64>, values: Seq<u32>) -> bool {
    &&& keys.len() == values.len()
    &&& keys.no_duplicates()
    &&& pairs_map(keys, values) == m
}

/// Whether `b` are the bytes of the index. They are not fixed wholly: the
/// references may stand in any order. The lists are no longer than their lengths
/// can say.
pub open spec fn saved_as(l: Layout, b: Seq<u8>) -> bool {
    exists|frns: Seq<u64>, ids: Seq<u32>| #[trigger]
        lists(l.frn_to_id, frns, ids) && b == raw_bytes(raw_of(l, frns, ids)) && frns.len()
            <= u64::MAX && l.name_pool.len() <= u64::MAX
}

proof fn lemma_pairs_map(keys: Seq<u64>, values: Seq<u32>)
    requires
        keys.len() == values.len(),
    ensures
        forall|k: u64| #[trigger]
            pairs_map(keys, values).contains_key(k) ==> exists|i: int|
                0 <= i < keys.len() && #[trigger] keys[i] == k && values[i] == pairs_map(
                    keys,
                    values,
                )[k],
        forall|i: int| 0 <= i < keys.len() ==> pairs_map(keys, values).contains_key(#[trigger] keys[i]),
    decreases keys.len(),
{
    if keys.len() > 0 {
        let ks = keys.drop_last();
        let vs = values.drop_last();
        lemma_pairs_map(ks, vs);
        let m = pairs_map(keys, values);
        assert forall|k: u64| #[trigger] m.contains_key(k) implies exists|i: int|
            0 <= i < keys.len() && #[trigger] keys[i] == k && values[i] == m[k] by {
            if k == keys.last() {
                assert(keys[keys.len() - 1] == k);
            } else {
                assert(pairs_map(ks, vs).contains_key(k));
                let i = choose|i: int|
                    0 <= i < ks.len() && #[trigger] ks[i] == k && vs[i] == pairs_map(ks, vs)[k];
                assert(keys[i] == k);
            }
        }
        assert forall|i: int| 0 <= i < keys.len() implies m.contains_key(#[trigger] keys[i]) by {
            if i < ks.len() {
                assert(ks[i] == keys[i]);
            }
        }
    }
}

/// Lists of pairs of a map that hold every one of its keys make the map.
proof fn lemma_pairs_cover(m: Map<u64, u32>, keys: Seq<u64>, values: Seq<u32>)
    requires
        keys.len() == values.len(),
        forall|i: int|
            0 <= i < keys.len() ==> m.contains_key(#[trigger] keys[i]) && m[keys[i]] == values[i],
        forall|k: u64| #[trigger] m.contains_key(k) ==> keys.contains(k),
    ensures
        pairs_map(keys, values) == m,
{
    lemma_pairs_map(keys, values);
    let p = pairs_map(keys, values);
    assert forall|k: u64| p.contains_key(k) == #[trigger] m.contains_key(k) by {
        if m.contains_key(k) {
            let i = choose|i: int| 0 <= i < keys.len() && keys[i] == k;
            assert(p.contains_key(keys[i]));
        }
        if p.contains_key(k) {
            let i = choose|i: int|
                0 <= i < keys.len() && #[trigger] keys[i] == k && values[i] == p[k];
            assert(m.contains_key(keys[i]));
        }
    }
    assert forall|k: u64| #[trigger] p.contains_key(k) implies p[k] == m[k] by {
        let i = choose|i: int| 0 <= i < keys.len() && #[trigger] keys[i] == k && values[i] == p[k];
        assert(m[keys[i]] == values[i]);
    }
    assert(p =~= m);
}

/// The bytes of an index.
pub fn save_index(idx: &Index) -> (r: Vec<u8>)
    requires
        idx.wf(),
    ensures
        saved_as(idx.layout(), r@),
{
    let m = idx.frn_to_id();
    let mut frns: Vec<u64> = Vec::new();
    let mut ids: Vec<u32> = Vec::new();
    let ghost mut pairs: Seq<(&u64, &u32)> = Seq::empty();
    for kv in it: m.iter()
        invariant
            frns@.len() == it.index(),
            ids@.len() == it.index(),
            m@ == idx.layout().frn_to_id,
            pairs == it.seq().take(it.index() as int),
            it.index() == it.seq().len() ==> pairs =~= it.seq(),
            it.seq().no_duplicates(),
            forall|k: u64| #[trigger] m@.contains_key(k) ==> it.seq().contains((&k, &m@[k])),
            forall|j: int|
                0 <= j < it.seq().len() ==> m@.contains_key(*(#[trigger] it.seq()[j]).0)
                    && m@[*it.seq()[j].0] == *it.seq()[j].1,
            forall|j: int| 0 <= j < it.index() ==> #[trigger] frns@[j] == *pairs[j].0,
            forall|j: int| 0 <= j < it.index() ==> #[trigger] ids@[j] == *pairs[j].1,
    {
        frns.push(*kv.0);
        ids.push(*kv.1);
        proof {
            pairs = pairs.push(kv);
        }
    }
    proof {
        assert(frns@.no_duplicates()) by {
            assert forall|a: int, b: int| 0 <= a < frns@.len() && 0 <= b < frns@.len() && a
                != b implies frns@[a] != frns@[b] by {
                if frns@[a] == frns@[b] {
                    assert(pairs[a] == pairs[b]);
                }
            }
        }
        assert forall|k: u64| #[trigger] m@.contains_key(k) implies frns@.contains(k) by {
            assert(pairs.contains((&k, &m@[k])));
            let j = choose|j: int| 0 <= j < pairs.len() && pairs[j] == (&k, &m@[k]);
            assert(frns@[j] == k);
        }
        lemma_pairs_cover(m@, frns@, ids@);
        assert(lists(idx.layout().frn_to_id, frns@, ids@));
    }
    let ghost raw = raw_of(idx.layout(), frns@, ids@);
    let mut out: Vec<u8> = Vec::new();
    put_magic(&mut out);
    idx.drive_byte().put(&mut out);
    idx.volume_serial().put(&mut out);
    idx.usn_journal_id().put(&mut out);
    (idx.next_usn() as u64).put(&mut out);
    assert(out@ =~= header_bytes(raw));
    write_vec(&mut out, idx.names_off());
    write_vec(&mut out, idx.names_len());
    write_vec(&mut out, idx.parents());
    write_vec(&mut out, idx.flags());
    let pool = idx.name_pool();
    assert(pool@.len() == pool.len());
    write_vec(&mut out, pool);
    write_vec(&mut out, frns.as_slice());
    write_vec(&mut out, ids.as_slice());
    assert(out@ =~= raw_bytes(raw));
    out
}

/// Puts the beginning of the bytes of an index.
fn put_magic(out: &mut Vec<u8>)
    ensures
        final(out)@ == old(out)@ + magic(),
{
    out.push(83);
    out.push(83);
    out.push(73);
    out.push(68);
    out.push(88);
    out.push(48);
    out.push(50);
    out.push(0);
    assert(out@ =~= old(out)@ + magic());
}

/// Whether the bytes begin as those of an index do.
fn has_magic(b: &[u8]) -> (r: bool)
    requires
        b@.len() >= 8,
    ensures
        r == (b@.take(8) == magic()),
{
    let r: bool = b[0] == 83 && b[1] == 83 && b[2] == 73 && b[3] == 68 && b[4] == 88 && b[5] == 48
        && b[6] == 50 && b[7] == 0;
    proof {
        let t = b@.take(8);
        let g = magic();
        assert(g[0] == 83 && g[1] == 83 && g[2] == 73 && g[3] == 68 && g[4] == 88 && g[5] == 48
            && g[6] == 50 && g[7] == 0);
        assert(t[0] == b@[0] && t[1] == b@[1] && t[2] == b@[2] && t[3] == b@[3] && t[4] == b@[4]
            && t[5] == b@[5] && t[6] == b@[6] && t[7] == b@[7]);
        if r {
            assert(t =~= g);
        }
    }
    r
}

/// What the fault of a list is for the index.
fn of_list(e: ListError) -> (r: LoadError)
    ensures
        r == list_error(e),
{
    match e {
        ListError::UnexpectedEof => LoadError::UnexpectedEof,
        ListError::TooLarge => LoadError::VecTooLarge,
    }
}

/// How many of the flags are those of deleted nodes.
fn count_tombstones(flags: &[u16], Ghost(l): Ghost<Layout>) -> (r: u32)
    requires
        l.flags == flags@,
        l.names_off.len() == flags@.len(),
        flags@.len() <= u32::MAX,
    ensures
        r == model::count_deleted(l.view().nodes),
{
    let ghost nodes = l.view().nodes;
    let mut t: u32 = 0;
    let mut i: usize = 0;
    while i < flags.len()
        invariant
            i <= flags@.len() <= u32::MAX,
            nodes == l.view().nodes,
            nodes.len() == flags@.len(),
            l.flags == flags@,
            t <= i,
            t == model::count_deleted(nodes.take(i as int)),
        decreases flags@.len() - i,
    {
        proof {
            assert(nodes.take(i + 1).drop_last() =~= nodes.take(i as int));
            assert(nodes.take(i + 1).last().flags == flags@[i as int]);
        }
        if flags[i] & IS_DELETED != 0 {
            t += 1;
        }
        i += 1;
    }
    assert(nodes.take(i as int) =~= nodes);
    t
}

/// The map that the pairs of the two lists make.
fn map_of(keys: &[u64], values: &[u32]) -> (m: HashMap<u64, u32>)
    requires
        keys@.len() == values@.len(),
    ensures
        m@ == pairs_map(keys@, values@),
{
    let mut m: HashMap<u64, u32> = HashMap::new();
    let mut i: usize = 0;
    while i < keys.len()
        invariant
            i <= keys@.len(),
            keys@.len() == values@.len(),
            m@ == pairs_map(keys@.take(i as int), values@.take(i as int)),
        decreases keys@.len() - i,
    {
        proof {
            assert(keys@.take(i + 1).drop_last() =~= keys@.take(i as int));
            assert(values@.take(i + 1).drop_last() =~= values@.take(i as int));
        }
        m.insert(keys[i], values[i]);
        i += 1;
    }
    assert(keys@.take(i as int) =~= keys@);
    assert(values@.take(i as int) =~= values@);
    m
}

/// The index that some bytes stand for. Bytes that were cut short or damaged
/// are refused where an index of them could not be searched.
pub fn load_index(b: &[u8]) -> (r: Result<Index, LoadError>)
    ensures
        match r {
            Ok(idx) => idx.wf() && loaded(b@) == Ok::<Layout, LoadError>(idx.layout()),
            Err(e) => loaded(b@) == Err::<Layout, LoadError>(e),
        },
{
    if b.len() < 8 {
        return Err(LoadError::UnexpectedEof);
    }
    if !has_magic(b) {
        return Err(LoadError::BadMagic);
    }
    if b.len() < 33 {
        return Err(LoadError::UnexpectedEof);
    }
    let drive_letter: u8 = b[8];
    let volume_serial: u64 = u64::get(b, 9);
    let usn_journal_id: u64 = u64::get(b, 17);
    let next_usn: i64 = u64::get(b, 25) as i64;
    let (names_off, p1) = match read_vec::<u32>(b, 33) {
        Ok(x) => x,
        Err(e) => {
            return Err(of_list(e));
        },
    };
    let (names_len, p2) = match read_vec::<u16>(b, p1) {
        Ok(x) => x,
        Err(e) => {
            return Err(of_list(e));
        },
    };
    let (parent, p3) = match read_vec::<u32>(b, p2) {
        Ok(x) => x,
        Err(e) => {
            return Err(of_list(e));
        },
    };
    let (flags, p4) = match read_vec::<u16>(b, p3) {
        Ok(x) => x,
        Err(e) => {
            return Err(of_list(e));
        },
    };
    let (name_pool, p5) = match read_vec::<u8>(b, p4) {
        Ok(x) => x,
        Err(e) => {
            return Err(of_list(e));
        },
    };
    let (frns, p6) = match read_vec::<u64>(b, p5) {
        Ok(x) => x,
        Err(e) => {
            return Err(of_list(e));
        },
    };
    let (ids, _p7) = match read_vec::<u32>(b, p6) {
        Ok(x) => x,
        Err(e) => {
            return Err(of_list(e));
        },
    };
    let ghost raw = parsed(b@)->Ok_0;
    assert(parsed(b@) is Ok);
    let n: usize = names_off.len();
    if n == 0 || n > u32::MAX as usize || names_len.len() != n || parent.len() != n || flags.len()
        != n || frns.len() != ids.len() {
        return Err(LoadError::InconsistentLengths);
    }
    let pool: usize = name_pool.len();
    let mut i: usize = 0;
    while i < n
        invariant
            i <= n <= u32::MAX,
            raw.names_off == names_off@,
            raw.names_len == names_len@,
            raw.parent == parent@,
            raw.name_pool == name_pool@,
            pool == name_pool@.len(),
            names_off@.len() == n,
            names_len@.len() == n,
            parent@.len() == n,
            raw.node_fault(0) == raw.node_fault(i as int),
            forall|j: int|
                0 <= j < i ==> #[trigger] names_off@[j] + names_len@[j] <= name_pool@.len(),
            forall|j: int| 0 <= j < i ==> #[trigger] parent@[j] == u32::MAX || parent@[j] < n,
            loaded(b@) == (match raw.fault() {
                Some(e) => Err::<Layout, LoadError>(e),
                None => Ok::<Layout, LoadError>(raw.layout()),
            }),
            raw.node_fault(0) is Some ==> raw.fault() == raw.node_fault(0),
        decreases n - i,
    {
        if names_off[i] as u64 + names_len[i] as u64 > pool as u64 {
            return Err(LoadError::NameOutOfPool);
        }
        let p: u32 = parent[i];
        if p != u32::MAX && p as usize >= n {
            return Err(LoadError::ParentOutOfRange);
        }
        i += 1;
    }
    let mut j: usize = 0;
    while j < ids.len()
        invariant
            j <= ids@.len(),
            raw.ids == ids@,
            raw.names_off.len() == n,
            forall|k: int| 0 <= k < j ==> #[trigger] ids@[k] < n,
            loaded(b@) == (match raw.fault() {
                Some(e) => Err::<Layout, LoadError>(e),
                None => Ok::<Layout, LoadError>(raw.layout()),
            }),
            (exists|k: int| 0 <= k < raw.ids.len() && #[trigger] raw.ids[k] >= n) ==> raw.fault()
                == Some(LoadError::FrnIdOutOfRange),
        decreases ids@.len() - j,
    {
        if ids[j] as usize >= n {
            assert(raw.ids[j as int] >= n);
            return Err(LoadError::FrnIdOutOfRange);
        }
        j += 1;
    }
    let frn_to_id = map_of(frns.as_slice(), ids.as_slice());
    let tombstones: u32 = count_tombstones(flags.as_slice(), Ghost(raw.uncounted()));
    let mut idx = Index::from_arrays(
        names_off,
        names_len,
        parent,
        flags,
        name_pool,
        frn_to_id,
        drive_letter,
        tombstones,
    );
    proof {
        lemma_pairs_map(raw.frns, raw.ids);
        assert(idx.wf());
    }
    idx.set_usn_state(volume_serial, usn_journal_id, next_usn);
    assert(idx.layout() =~= raw.layout());
    Ok(idx)
}

proof fn lemma_header(raw: Raw, rest: Seq<u8>)
    ensures
        header_bytes(raw).len() == 33,
        ({
            let b = header_bytes(raw) + rest;
            &&& b.take(8) == magic()
            &&& b[8] == raw.drive_letter
            &&& codec::un_le(b.subrange(9, 17)) as u64 == raw.volume_serial
            &&& codec::un_le(b.subrange(17, 25)) as u64 == raw.usn_journal_id
            &&& codec::un_le(b.subrange(25, 33)) as u64 as i64 == raw.next_usn
        }),
{
    let b = header_bytes(raw) + rest;
    let usn = raw.next_usn;
    raw.drive_letter.lemma_word();
    raw.volume_serial.lemma_word();
    raw.usn_journal_id.lemma_word();
    (usn as u64).lemma_word();
    codec::law_le_round_trip(raw.drive_letter as nat, 1);
    codec::law_le_round_trip(raw.volume_serial as nat, 8);
    codec::law_le_round_trip(raw.usn_journal_id as nat, 8);
    codec::law_le_round_trip(usn as u64 as nat, 8);
    assert(usn as u64 as i64 == usn) by (bit_vector);
    assert(b.take(8) =~= magic());
    assert(b.subrange(9, 17) =~= codec::le(raw.volume_serial as nat, 8));
    assert(b.subrange(17, 25) =~= codec::le(raw.usn_journal_id as nat, 8));
    assert(b.subrange(25, 33) =~= codec::le(usn as u64 as nat, 8));
    let one = codec::le(raw.drive_letter as nat, 1);
    assert(codec::un_le(one) == one[0] + 256 * codec::un_le(one.skip(1)));
    assert(one.skip(1).len() == 0);
    assert(b[8] == one[0]);
}

proof fn lemma_regroup(x: Seq<u8>, y: Seq<u8>, z: Seq<u8>)
    ensures
        (x + y) + z == x + (y + z),
{
    assert((x + y) + z =~= x + (y + z));
}

proof fn lemma_list_here<T: Word>(b: Seq<u8>, before: Seq<u8>, v: Seq<T>, after: Seq<u8>)
    requires
        b == before + (codec::list_bytes(v) + after),
        v.len() <= u64::MAX,
    ensures
        b == (before + codec::list_bytes(v)) + after,
        codec::list_at::<T>(b, before.len() as int) == Ok::<(Seq<T>, int), ListError>(
            (v, (before + codec::list_bytes(v)).len() as int),
        ),
{
    lemma_regroup(before, codec::list_bytes(v), after);
    codec::law_list_round_trip(before, v, after);
}

/// Where the last list ends.
spec fn end_of(b: Seq<u8>) -> int {
    let p1 = codec::list_at::<u32>(b, 33)->Ok_0.1;
    let p2 = codec::list_at::<u16>(b, p1)->Ok_0.1;
    let p3 = codec::list_at::<u32>(b, p2)->Ok_0.1;
    let p4 = codec::list_at::<u16>(b, p3)->Ok_0.1;
    let p5 = codec::list_at::<u8>(b, p4)->Ok_0.1;
    let p6 = codec::list_at::<u64>(b, p5)->Ok_0.1;
    codec::list_at::<u32>(b, p6)->Ok_0.1
}

/// Whatever follows the last list, what was written is read.
proof fn lemma_parsed(raw: Raw, after: Seq<u8>)
    requires
        raw.names_off.len() <= u64::MAX,
        raw.names_len.len() <= u64::MAX,
        raw.parent.len() <= u64::MAX,
        raw.flags.len() <= u64::MAX,
        raw.name_pool.len() <= u64::MAX,
        raw.frns.len() <= u64::MAX,
        raw.ids.len() <= u64::MAX,
    ensures
        parsed(raw_bytes(raw) + after) == Ok::<Raw, LoadError>(raw),
        end_of(raw_bytes(raw) + after) == raw_bytes(raw).len(),
{
    let b = raw_bytes(raw) + after;
    let l1 = codec::list_bytes(raw.names_off);
    let l2 = codec::list_bytes(raw.names_len);
    let l3 = codec::list_bytes(raw.parent);
    let l4 = codec::list_bytes(raw.flags);
    let l5 = codec::list_bytes(raw.name_pool);
    let l6 = codec::list_bytes(raw.frns);
    let l7 = codec::list_bytes(raw.ids);
    let p0 = header_bytes(raw);
    let p1 = p0 + l1;
    let p2 = p1 + l2;
    let p3 = p2 + l3;
    let p4 = p3 + l4;
    let p5 = p4 + l5;
    let p6 = p5 + l6;
    let p7 = p6 + l7;
    let r6 = l7 + after;
    let r5 = l6 + r6;
    let r4 = l5 + r5;
    let r3 = l4 + r4;
    let r2 = l3 + r3;
    let r1 = l2 + r2;
    let r0 = l1 + r1;
    assert(b == p0 + r0) by {
        lemma_regroup(p6, l7, after);
        lemma_regroup(p5, l6, r6);
        lemma_regroup(p4, l5, r5);
        lemma_regroup(p3, l4, r4);
        lemma_regroup(p2, l3, r3);
        lemma_regroup(p1, l2, r2);
        lemma_regroup(p0, l1, r1);
    }
    lemma_header(raw, r0);
    lemma_list_here(b, p0, raw.names_off, r1);
    lemma_list_here(b, p1, raw.names_len, r2);
    lemma_list_here(b, p2, raw.parent, r3);
    lemma_list_here(b, p3, raw.flags, r4);
    lemma_list_here(b, p4, raw.name_pool, r5);
    lemma_list_here(b, p5, raw.frns, r6);
    lemma_list_here(b, p6, raw.ids, after);
}

proof fn lemma_no_node_fault(raw: Raw, i: int)
    requires
        0 <= i,
        raw.names_len.len() == raw.names_off.len(),
        raw.parent.len() == raw.names_off.len(),
        forall|j: int|
            0 <= j < raw.names_off.len() ==> #[trigger] raw.names_off[j] + raw.names_len[j]
                <= raw.name_pool.len(),
        forall|j: int|
            0 <= j < raw.names_off.len() ==> #[trigger] raw.parent[j] == u32::MAX || raw.parent[j]
                < raw.names_off.len(),
    ensures
        raw.node_fault(i) is None,
    decreases raw.names_off.len() - i,
{
    if i < raw.names_off.len() {
        assert(raw.names_off[i] + raw.names_len[i] <= raw.name_pool.len());
        assert(raw.parent[i] == u32::MAX || raw.parent[i] < raw.names_off.len());
        lemma_no_node_fault(raw, i + 1);
    }
}

proof fn lemma_ids_in_range(m: Map<u64, u32>, keys: Seq<u64>, values: Seq<u32>, n: int)
    requires
        keys.len() == values.len(),
        keys.no_duplicates(),
        pairs_map(keys, values) == m,
        forall|k: u64| #[trigger] m.contains_key(k) ==> m[k] < n,
    ensures
        forall|i: int| 0 <= i < values.len() ==> #[trigger] values[i] < n,
{
    lemma_pairs_map(keys, values);
    assert forall|i: int| 0 <= i < values.len() implies #[trigger] values[i] < n by {
        assert(m.contains_key(keys[i]));
        let j = choose|j: int|
            0 <= j < keys.len() && #[trigger] keys[j] == keys[i] && values[j] == m[keys[i]];
        assert(j == i);
    }
}

/// Loading what was saved gives the index back, with the tombstones counted
/// anew: the very same index where they were counted right.
pub proof fn law_load_gives_back_what_was_saved(l: Layout, b: Seq<u8>)
    requires
        l.ok(),
        saved_as(l, b),
    ensures
        loaded(b) == Ok::<Layout, LoadError>(
            Layout { tombstones: model::count_deleted(l.view().nodes) as u32, ..l },
        ),
        l.view().consistent() ==> loaded(b) == Ok::<Layout, LoadError>(l),
{
    let (frns, ids) = choose|frns: Seq<u64>, ids: Seq<u32>| #[trigger]
        lists(l.frn_to_id, frns, ids) && b == raw_bytes(raw_of(l, frns, ids)) && frns.len()
            <= u64::MAX && l.name_pool.len() <= u64::MAX;
    let raw = raw_of(l, frns, ids);
    lemma_parsed(raw, Seq::empty());
    assert(raw_bytes(raw) + Seq::<u8>::empty() =~= b);
    lemma_no_node_fault(raw, 0);
    lemma_ids_in_range(l.frn_to_id, frns, ids, l.names_off.len() as int);
    assert(raw.fault() is None);
    assert(raw.uncounted().view().nodes =~= l.view().nodes);
    assert(raw.layout() =~= Layout {
        tombstones: model::count_deleted(l.view().nodes) as u32,
        ..l
    });
    model::lemma_count_bounded(l.view().nodes);
}

proof fn lemma_list_cut<T: Word>(b: Seq<u8>, at: int, k: int)
    requires
        0 <= at,
        0 <= k <= b.len(),
    ensures
        match (codec::list_at::<T>(b, at), codec::list_at::<T>(b.take(k), at)) {
            (Ok((v, end)), Ok((w, stop))) => v == w && end == stop && at <= end <= k,
            (Ok((v, end)), Err(_)) => end > k && at <= end,
            (Err(_), _) => true,
        },
{
    let c = b.take(k);
    if at + 8 <= k {
        assert(c.subrange(at, at + 8) =~= b.subrange(at, at + 8));
        let n = codec::un_le(b.subrange(at, at + 8));
        let w = T::width();
        assert(0 <= n * w) by (nonlinear_arith);
        if at + 8 + n * w <= k {
            let x = codec::words_at::<T>(b, at + 8, n);
            let y = codec::words_at::<T>(c, at + 8, n);
            assert forall|i: int| 0 <= i < n implies #[trigger] x[i] == y[i] by {
                assert(0 <= i * w && i * w + w <= n * w) by (nonlinear_arith)
                    requires
                        0 <= i < n,
                        0 <= w,
                ;
                let s = at + 8 + i * w;
                assert(c.subrange(s, s + w) =~= b.subrange(s, s + w));
            }
            assert(x =~= y);
        }
    } else {
        let n = codec::un_le(b.subrange(at, at + 8));
        let w = T::width();
        assert(0 <= n * w) by (nonlinear_arith);
    }
}

/// Bytes that were cut short are refused.
pub proof fn law_cut_short_is_refused(l: Layout, b: Seq<u8>, k: int)
    requires
        l.ok(),
        saved_as(l, b),
        0 <= k < b.len(),
    ensures
        loaded(b.take(k)) is Err,
{
    let (frns, ids) = choose|frns: Seq<u64>, ids: Seq<u32>| #[trigger]
        lists(l.frn_to_id, frns, ids) && b == raw_bytes(raw_of(l, frns, ids)) && frns.len()
            <= u64::MAX && l.name_pool.len() <= u64::MAX;
    let raw = raw_of(l, frns, ids);
    lemma_parsed(raw, Seq::empty());
    assert(raw_bytes(raw) + Seq::<u8>::empty() =~= b);
    let p1 = codec::list_at::<u32>(b, 33)->Ok_0.1;
    let p2 = codec::list_at::<u16>(b, p1)->Ok_0.1;
    let p3 = codec::list_at::<u32>(b, p2)->Ok_0.1;
    let p4 = codec::list_at::<u16>(b, p3)->Ok_0.1;
    let p5 = codec::list_at::<u8>(b, p4)->Ok_0.1;
    let p6 = codec::list_at::<u64>(b, p5)->Ok_0.1;
    let p7 = codec::list_at::<u32>(b, p6)->Ok_0.1;
    assert(p7 == end_of(b));
    lemma_list_cut::<u32>(b, 33, k);
    lemma_list_cut::<u16>(b, p1, k);
    lemma_list_cut::<u32>(b, p2, k);
    lemma_list_cut::<u16>(b, p3, k);
    lemma_list_cut::<u8>(b, p4, k);
    lemma_list_cut::<u64>(b, p5, k);
    lemma_list_cut::<u32>(b, p6, k);
}

/// The file of an index begins with `SSIDX02` and a zero, the letter of the volume,
/// its serial number, the journal and the place in it, and then holds the lists:
/// where names begin, how long they are, the parents, the flags, the names, and
/// the references with their nodes, each reference once.
pub proof fn law_file_is_laid_out(l: Layout, b: Seq<u8>)
    requires
        saved_as(l, b),
    ensures
        b.len() >= 33,
        b.take(8) == seq![83u8, 83, 73, 68, 88, 48, 50, 0],
        b[8] == l.drive_letter,
        b.subrange(9, 17) == codec::le(l.volume_serial as nat, 8),
        b.subrange(17, 25) == codec::le(l.usn_journal_id as nat, 8),
        b.subrange(25, 33) == codec::le(l.next_usn as u64 as nat, 8),
        exists|frns: Seq<u64>, ids: Seq<u32>|
            frns.len() == ids.len() && frns.no_duplicates() && (forall|i: int|
                0 <= i < frns.len() ==> l.frn_to_id.contains_key(#[trigger] frns[i])
                    && l.frn_to_id[frns[i]] == ids[i]) && (forall|k: u64| #[trigger]
                l.frn_to_id.contains_key(k) ==> frns.contains(k)) && b.skip(33)
                == codec::list_bytes(l.names_off) + codec::list_bytes(l.names_len)
                + codec::list_bytes(l.parent) + codec::list_bytes(l.flags) + codec::list_bytes(
                l.name_pool,
            ) + #[trigger] codec::list_bytes(frns) + #[trigger] codec::list_bytes(ids),
{
    let (frns, ids) = choose|frns: Seq<u64>, ids: Seq<u32>| #[trigger]
        lists(l.frn_to_id, frns, ids) && b == raw_bytes(raw_of(l, frns, ids)) && frns.len()
            <= u64::MAX && l.name_pool.len() <= u64::MAX;
    let raw = raw_of(l, frns, ids);
    let lists_only = codec::list_bytes(l.names_off) + codec::list_bytes(l.names_len)
        + codec::list_bytes(l.parent) + codec::list_bytes(l.flags) + codec::list_bytes(l.name_pool)
        + codec::list_bytes(frns) + codec::list_bytes(ids);
    assert(b =~= header_bytes(raw) + lists_only);
    lemma_header(raw, lists_only);
    codec::lemma_le_len(raw.drive_letter as nat, 1);
    codec::lemma_le_len(raw.volume_serial as nat, 8);
    codec::lemma_le_len(raw.usn_journal_id as nat, 8);
    codec::lemma_le_len(raw.next_usn as u64 as nat, 8);
    assert(b.subrange(9, 17) =~= codec::le(l.volume_serial as nat, 8));
    assert(b.subrange(17, 25) =~= codec::le(l.usn_journal_id as nat, 8));
    assert(b.subrange(25, 33) =~= codec::le(l.next_usn as u64 as nat, 8));
    assert(b.skip(33) =~= lists_only);
    lemma_pairs_map(frns, ids);
    assert forall|i: int| 0 <= i < frns.len() implies l.frn_to_id.contains_key(#[trigger] frns[i])
        && l.frn_to_id[frns[i]] == ids[i] by {
        assert(pairs_map(frns, ids).contains_key(frns[i]));
        let j = choose|j: int|
            0 <= j < frns.len() && #[trigger] frns[j] == frns[i] && ids[j] == pairs_map(
                frns,
                ids,
            )[frns[i]];
        assert(j == i);
    }
    assert forall|k: u64| #[trigger] l.frn_to_id.contains_key(k) implies frns.contains(k) by {
        assert(pairs_map(frns, ids).contains_key(k));
        let i = choose|i: int|
            0 <= i < frns.len() && #[trigger] frns[i] == k && ids[i] == pairs_map(frns, ids)[k];
        assert(frns[i] == k);
    }
}

proof fn lemma_no_fault_from(raw: Raw, i: int, j: int)
    requires
        0 <= i <= j < raw.names_off.len(),
        raw.node_fault(i) is None,
    ensures
        raw.names_off[j] + raw.names_len[j] <= raw.name_pool.len(),
        raw.parent[j] == u32::MAX || raw.parent[j] < raw.names_off.len(),
    decreases j - i,
{
    if i < j {
        lemma_no_fault_from(raw, i + 1, j);
    }
}

/// Whatever bytes are taken for an index, they begin as those of one do, and the
/// arrays that they give fit each other: every name lies in the store of names,
/// every parent and every reference leads to a node, and the tombstones are the
/// nodes that are flagged as deleted.
pub proof fn law_what_is_loaded_can_be_searched(b: Seq<u8>)
    ensures
        loaded(b) matches Ok(l) ==> {
            &&& b.len() >= 33
            &&& b.take(8) == seq![83u8, 83, 73, 68, 88, 48, 50, 0]
            &&& l.drive_letter == b[8]
            &&& l.names_off.len() >= 1
            &&& l.ok()
            &&& l.tombstones == model::count_deleted(l.view().nodes)
        },
{
    if let Ok(l) = loaded(b) {
        let raw = parsed(b)->Ok_0;
        assert forall|j: int| 0 <= j < raw.names_off.len() implies #[trigger] l.names_off[j]
            + l.names_len[j] <= l.name_pool.len() by {
            lemma_no_fault_from(raw, 0, j);
        }
        assert forall|j: int| 0 <= j < raw.names_off.len() implies #[trigger] l.parent[j] == u32::MAX
            || l.parent[j] < raw.names_off.len() by {
            lemma_no_fault_from(raw, 0, j);
        }
        lemma_pairs_map(raw.frns, raw.ids);
        assert forall|k: u64| #[trigger] l.frn_to_id.contains_key(k) implies l.frn_to_id[k]
            < raw.names_off.len() by {
            let i = choose|i: int|
                0 <= i < raw.frns.len() && #[trigger] raw.frns[i] == k && raw.ids[i] == pairs_map(
                    raw.frns,
                    raw.ids,
                )[k];
            assert(raw.ids[i] < raw.names_off.len());
        }
        assert(raw.uncounted().view().nodes =~= l.view().nodes);
        model::lemma_count_bounded(l.view().nodes);
    }
}

/// Bytes that are too short for a beginning, or begin otherwise, are refused, each
/// for its reason.
pub proof fn law_other_files_are_refused(b: Seq<u8>)
    ensures
        b.len() < 8 ==> loaded(b) == Err::<Layout, LoadError>(LoadError::UnexpectedEof),
        b.len() >= 8 && b.take(8) != seq![83u8, 83, 73, 68, 88, 48, 50, 0] ==> loaded(b) == Err::<
            Layout,
            LoadError,
        >(LoadError::BadMagic),
        8 <= b.len() < 33 && b.take(8) == seq![83u8, 83, 73, 68, 88, 48, 50, 0] ==> loaded(b)
            == Err::<Layout, LoadError>(LoadError::UnexpectedEof),
{
}

proof fn lemma_fault_from(raw: Raw, i: int, j: int)
    requires
        0 <= i <= j <= raw.names_off.len(),
        forall|k: int|
            i <= k < j ==> #[trigger] raw.names_off[k] + raw.names_len[k] <= raw.name_pool.len() && (
            raw.parent[k] == u32::MAX || raw.parent[k] < raw.names_off.len()),
    ensures
        raw.node_fault(i) == raw.node_fault(j),
    decreases j - i,
{
    if i < j {
        assert(raw.names_off[i] + raw.names_len[i] <= raw.name_pool.len());
        lemma_fault_from(raw, i + 1, j);
    }
}

/// Arrays that do not fit each other are refused: where they are of different
/// lengths or empty, where the name of a node is not in the store of names or its
/// parent is no node, whichever is met first, and where a reference leads to no
/// node. All others are taken.
pub proof fn law_arrays_must_fit(raw: Raw, i: int)
    ensures
        ({
            let n = raw.names_off.len();
            let even = 1 <= n <= u32::MAX && raw.names_len.len() == n && raw.parent.len() == n
                && raw.flags.len() == n && raw.frns.len() == raw.ids.len();
            let name_fits = |k: int|
                raw.names_off[k] + raw.names_len[k] <= raw.name_pool.len();
            let parent_fits = |k: int| raw.parent[k] == u32::MAX || raw.parent[k] < n;
            let before = forall|k: int|
                0 <= k < i ==> #[trigger] raw.names_off[k] + raw.names_len[k]
                    <= raw.name_pool.len() && (raw.parent[k] == u32::MAX || raw.parent[k] < n);
            let led = forall|k: int| 0 <= k < raw.ids.len() ==> #[trigger] raw.ids[k] < n;
            &&& !even ==> raw.fault() == Some(LoadError::InconsistentLengths)
            &&& even && before && 0 <= i < n && !name_fits(i) ==> raw.fault() == Some(
                LoadError::NameOutOfPool,
            )
            &&& even && before && 0 <= i < n && name_fits(i) && !parent_fits(i) ==> raw.fault()
                == Some(LoadError::ParentOutOfRange)
            &&& even && before && i == n && !led ==> raw.fault() == Some(LoadError::FrnIdOutOfRange)
            &&& even && before && i == n && led ==> raw.fault() is None
        }),
{
    let n = raw.names_off.len();
    if 0 <= i <= n && (forall|k: int|
        0 <= k < i ==> #[trigger] raw.names_off[k] + raw.names_len[k] <= raw.name_pool.len() && (
        raw.parent[k] == u32::MAX || raw.parent[k] < n)) {
        lemma_fault_from(raw, 0, i);
    }
}

} // verus!
