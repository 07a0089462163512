//! The records that a volume reports, of its files and of their changes.

use vstd::prelude::*;

use crate::codec;
use crate::codec::Word;
use crate::index;
use crate::index::{BuilderView, Change, Index, IndexBuilder};
use crate::model;
use crate::model::{ChangeView, IndexView};
use crate::text;
use crate::text::to_upper_char;
use crate::wide;

verus! {

/// The reason of a record that reports a deletion.
pub const USN_REASON_FILE_DELETE: u32 = 0x200;

/// Where the records of a reply begin: behind the number that it starts with.
pub const RECORDS_START: usize = 8;

/// The bytes of a record before its name.
pub const RECORD_MIN: usize = 60;

/// The number in the `width` bytes of `b` from `at` on.
pub open spec fn number(b: Seq<u8>, at: int, width: int) -> nat {
    codec::un_le(b.subrange(at, at + width))
}

/// How long the record at `at` is.
pub open spec fn record_len(b: Seq<u8>, at: int) -> nat {
    number(b, at, 4)
}

/// Whether a whole record stands at `at`, within the first `end` bytes.
pub open spec fn record_at(b: Seq<u8>, at: int, end: int) -> bool {
    at + RECORD_MIN <= end && RECORD_MIN <= record_len(b, at) && at + record_len(b, at) <= end
}

/// The file reference of the record at `at`.
pub open spec fn record_frn(b: Seq<u8>, at: int) -> u64 {
    number(b, at + 8, 8) as u64
}

/// The parent's reference in the record at `at`.
pub open spec fn record_parent(b: Seq<u8>, at: int) -> u64 {
    number(b, at + 16, 8) as u64
}

/// The reason that the record at `at` gives.
pub open spec fn record_reason(b: Seq<u8>, at: int) -> u32 {
    number(b, at + 40, 4) as u32
}

/// The file attributes in the record at `at`.
pub open spec fn record_attrs(b: Seq<u8>, at: int) -> u32 {
    number(b, at + 52, 4) as u32
}

/// How many bytes the name in the record at `at` takes.
pub open spec fn record_name_len(b: Seq<u8>, at: int) -> nat {
    number(b, at + 56, 2)
}

/// Where in the record at `at` its name begins.
pub open spec fn record_name_off(b: Seq<u8>, at: int) -> nat {
    number(b, at + 58, 2)
}

/// Whether the record at `at` names an entry other than the root, and the name
/// lies within it.
pub open spec fn record_usable(b: Seq<u8>, at: int) -> bool {
    &&& !model::root_frn(record_frn(b, at))
    &&& record_name_len(b, at) > 0
    &&& record_name_off(b, at) + record_name_len(b, at) <= record_len(b, at)
}

/// The units in `len` bytes from `at` on. An odd byte at the end is left out.
pub open spec fn units_at(b: Seq<u8>, at: int, len: int) -> Seq<u16> {
    Seq::new((len / 2) as nat, |i: int| number(b, at + 2 * i, 2) as u16)
}

/// The name in the record at `at`.
pub open spec fn record_name(b: Seq<u8>, at: int) -> Seq<char> {
    wide::decoded(
        units_at(b, at + record_name_off(b, at), record_name_len(b, at) as int),
    )
}

/// The change that the record at `at` reports.
pub open spec fn record_change(b: Seq<u8>, at: int) -> ChangeView {
    if record_reason(b, at) & USN_REASON_FILE_DELETE != 0 {
        ChangeView::Delete { frn: record_frn(b, at) }
    } else {
        ChangeView::Upsert {
            frn: record_frn(b, at),
            parent_frn: record_parent(b, at),
            attrs: record_attrs(b, at),
            name: record_name(b, at),
        }
    }
}

/// The changes that the records from `at` on report, up to the first place
/// where no whole record stands.
pub open spec fn changes_from(b: Seq<u8>, at: int, end: int) -> Seq<ChangeView>
    decreases end - at,
{
    if !record_at(b, at, end) {
        Seq::empty()
    } else {
        let rest = changes_from(b, at + record_len(b, at), end);
        if record_usable(b, at) {
            seq![record_change(b, at)] + rest
        } else {
            rest
        }
    }
}

/// A builder after the entries that the records from `at` on name. None where
/// an entry has no room.
pub open spec fn entries_from(
    builder: BuilderView,
    b: Seq<u8>,
    at: int,
    end: int,
) -> Option<BuilderView>
    decreases end - at,
{
    if !record_at(b, at, end) {
        Some(builder)
    } else if !record_usable(b, at) {
        entries_from(builder, b, at + record_len(b, at), end)
    } else if !builder.room() {
        None
    } else {
        entries_from(
            builder.pushed(
                record_frn(b, at),
                record_parent(b, at),
                record_attrs(b, at),
                record_name(b, at),
            ),
            b,
            at + record_len(b, at),
            end,
        )
    }
}

/// A record of a reply.
struct Record {
    frn: u64,
    parent_frn: u64,
    reason: u32,
    attrs: u32,
    name_at: usize,
    name_len: usize,
    len: usize,
    usable: bool,
}

/// Reads the record at `at`.
fn read_record(b: &[u8], at: usize, end: usize) -> (r: Option<Record>)
    requires
        end <= b@.len(),
        at <= end,
    ensures
        r is Some <==> record_at(b@, at as int, end as int),
        r matches Some(x) ==> {
            &&& x.frn == record_frn(b@, at as int)
            &&& x.parent_frn == record_parent(b@, at as int)
            &&& x.reason == record_reason(b@, at as int)
            &&& x.attrs == record_attrs(b@, at as int)
            &&& x.len == record_len(b@, at as int)
            &&& x.usable == record_usable(b@, at as int)
            &&& x.usable ==> x.name_at == at + record_name_off(b@, at as int) && x.name_len
                == record_name_len(b@, at as int) && x.name_at + x.name_len <= end
        },
{
    if end - at < RECORD_MIN {
        return None;
    }
    proof {
        codec::lemma_un_le_fits(b@.subrange(at as int, at + 4));
        codec::lemma_un_le_fits(b@.subrange(at + 56, at + 58));
        codec::lemma_un_le_fits(b@.subrange(at + 58, at + 60));
        codec::lemma_ranges();
    }
    let len: usize = u32::get(b, at) as usize;
    if len < RECORD_MIN || len > end - at {
        return None;
    }
    let frn: u64 = u64::get(b, at + 8);
    let parent_frn: u64 = u64::get(b, at + 16);
    let reason: u32 = u32::get(b, at + 40);
    let attrs: u32 = u32::get(b, at + 52);
    let name_len: usize = u16::get(b, at + 56) as usize;
    let name_off: usize = u16::get(b, at + 58) as usize;
    let usable: bool = !IndexBuilder::is_root_frn(frn) && name_len > 0 && name_off + name_len
        <= len;
    let name_at: usize = if usable {
        at + name_off
    } else {
        at
    };
    Some(Record { frn, parent_frn, reason, attrs, name_at, name_len, len, usable })
}

/// The text whose units stand in `len` bytes from `at` on.
fn read_name(b: &[u8], at: usize, len: usize) -> (r: String)
    requires
        at + len <= b@.len(),
    ensures
        r@ == wide::decoded(units_at(b@, at as int, len as int)),
{
    let mut units: Vec<u16> = Vec::new();
    let n: usize = len / 2;
    let mut i: usize = 0;
    while i < n
        invariant
            i <= n,
            n == len / 2,
            at + len <= b@.len(),
            units@.len() == i,
            forall|k: int| 0 <= k < i ==> #[trigger] units@[k] == number(b@, at + 2 * k, 2) as u16,
        decreases n - i,
    {
        assert(b@.len() == b.len());
        units.push(u16::get(b, at + 2 * i));
        i += 1;
    }
    assert(units@ =~= units_at(b@, at as int, len as int));
    wide::decode_lossy(units.as_slice())
}

/// Adds the changes that a reply of `end` bytes reports to `changes`.
pub fn parse_records(buf: &[u8], end: usize, changes: &mut Vec<Change>)
    requires
        end <= buf@.len(),
    ensures
        index::change_views(final(changes)@) == index::change_views(old(changes)@) + changes_from(
            buf@,
            RECORDS_START as int,
            end as int,
        ),
{
    let ghost b = buf@;
    let ghost start = index::change_views(changes@);
    let ghost all = changes_from(b, RECORDS_START as int, end as int);
    let ghost mut seen: Seq<ChangeView> = Seq::empty();
    if end < RECORDS_START {
        assert(all =~= Seq::empty());
        assert(index::change_views(changes@) =~= start + all);
        return;
    }
    let mut at: usize = RECORDS_START;
    assert(index::change_views(changes@) =~= start + seen);
    assert(all =~= seen + changes_from(b, at as int, end as int));
    loop
        invariant
            b == buf@,
            at <= end <= b.len(),
            index::change_views(changes@) == start + seen,
            all == seen + changes_from(b, at as int, end as int),
        ensures
            index::change_views(changes@) == start + all,
        decreases end - at,
    {
        let rec = match read_record(buf, at, end) {
            Some(rec) => rec,
            None => {
                assert(all =~= seen);
                break;
            },
        };
        let ghost before = changes@;
        if rec.usable {
            if rec.reason & USN_REASON_FILE_DELETE != 0 {
                changes.push(Change::Delete { frn: rec.frn });
            } else {
                let name = read_name(buf, rec.name_at, rec.name_len);
                changes.push(
                    Change::Upsert {
                        frn: rec.frn,
                        parent_frn: rec.parent_frn,
                        attrs: rec.attrs,
                        name,
                    },
                );
            }
            proof {
                let c = record_change(b, at as int);
                assert(changes@.last()@ == c);
                assert(index::change_views(changes@) =~= index::change_views(before).push(c));
                assert(index::change_views(changes@) =~= start + seen.push(c));
                let rest = changes_from(b, at + rec.len, end as int);
                assert(seen + (seq![c] + rest) =~= seen.push(c) + rest);
                seen = seen.push(c);
            }
        }
        at += rec.len;
    }
}

/// Adds the entries that a reply of `end` bytes names to the builder. False
/// where one of them has no room.
pub fn push_records(buf: &[u8], end: usize, builder: &mut IndexBuilder) -> (ok: bool)
    requires
        end <= buf@.len(),
        old(builder).wf(),
    ensures
        final(builder).wf(),
        ok == entries_from(old(builder)@, buf@, RECORDS_START as int, end as int) is Some,
        ok ==> entries_from(old(builder)@, buf@, RECORDS_START as int, end as int) == Some(
            final(builder)@,
        ),
{
    let ghost b = buf@;
    let ghost all = entries_from(builder@, b, RECORDS_START as int, end as int);
    if end < RECORDS_START {
        return true;
    }
    let mut at: usize = RECORDS_START;
    loop
        invariant
            b == buf@,
            at <= end <= b.len(),
            builder.wf(),
            all == entries_from(old(builder)@, b, RECORDS_START as int, end as int),
            all == entries_from(builder@, b, at as int, end as int),
        decreases end - at,
    {
        let rec = match read_record(buf, at, end) {
            Some(rec) => rec,
            None => {
                return true;
            },
        };
        if rec.usable {
            if !builder.has_room() {
                return false;
            }
            let name = read_name(buf, rec.name_at, rec.name_len);
            builder.push(rec.frn, rec.parent_frn, rec.attrs, name.as_str());
        }
        at += rec.len;
    }
}

/// What to do after a reply of the journal.
#[derive(Debug, Clone, Copy, PartialEq, Eq, Structural)]
pub enum JournalStep {
    /// Ask again from the given place on.
    Again { start: i64 },
    /// All changes up to the given place were read.
    Done { next: i64 },
}

/// The place in the journal that a reply begins with.
pub open spec fn reply_next(b: Seq<u8>) -> i64 {
    number(b, 0, 8) as u64 as i64
}

/// What to do after the reply `b` to a request from `start` on. A reply without
/// a place ends the reading; so does one whose place is no further on, and one
/// without records.
pub open spec fn step_after(start: i64, b: Seq<u8>) -> JournalStep {
    if b.len() < 8 {
        JournalStep::Done { next: start }
    } else if reply_next(b) <= start {
        JournalStep::Done { next: start }
    } else if b.len() == 8 {
        JournalStep::Done { next: reply_next(b) }
    } else {
        JournalStep::Again { start: reply_next(b) }
    }
}

/// The changes that the reply `b` reports.
pub open spec fn reply_changes(b: Seq<u8>) -> Seq<ChangeView> {
    changes_from(b, RECORDS_START as int, b.len() as int)
}

/// Takes one reply of the journal: adds the changes that it reports and says
/// what to do next.
pub fn journal_step(start: i64, reply: &[u8], changes: &mut Vec<Change>) -> (r: JournalStep)
    ensures
        r == step_after(start, reply@),
        index::change_views(final(changes)@) == index::change_views(old(changes)@) + reply_changes(
            reply@,
        ),
{
    let end: usize = reply.len();
    parse_records(reply, end, changes);
    if end < 8 {
        return JournalStep::Done { next: start };
    }
    let next: i64 = u64::get(reply, 0) as i64;
    if next <= start {
        return JournalStep::Done { next: start };
    }
    if end == 8 {
        JournalStep::Done { next }
    } else {
        JournalStep::Again { start: next }
    }
}

/// Reading the journal goes forward: a further request starts further on, and
/// the place that is reached is never behind the start. So it comes to an end.
pub proof fn law_journal_goes_forward(start: i64, b: Seq<u8>)
    ensures
        match step_after(start, b) {
            JournalStep::Again { start: s } => s > start,
            JournalStep::Done { next } => next >= start,
        },
{
}

/// What the replies `bs`, one after the other from `start` on, come to: the
/// changes up to the reply that ends the reading, and the place that is
/// reached. None where the replies end first.
pub open spec fn read_through(start: i64, bs: Seq<Seq<u8>>) -> Option<(Seq<ChangeView>, i64)>
    decreases bs.len(),
{
    if bs.len() == 0 {
        None
    } else {
        match step_after(start, bs[0]) {
            JournalStep::Done { next } => Some((reply_changes(bs[0]), next)),
            JournalStep::Again { start: s } => match read_through(s, bs.skip(1)) {
                None => None,
                Some((cs, next)) => Some((reply_changes(bs[0]) + cs, next)),
            },
        }
    }
}

/// A read that comes to an end never falls behind its start.
pub proof fn law_read_never_falls_behind(start: i64, bs: Seq<Seq<u8>>)
    ensures
        read_through(start, bs) matches Some((cs, next)) ==> next >= start,
    decreases bs.len(),
{
    if bs.len() > 0 {
        if let JournalStep::Again { start: s } = step_after(start, bs[0]) {
            law_read_never_falls_behind(s, bs.skip(1));
        }
    }
}

/// Reads the replies of the journal, one after the other from `from_usn` on.
/// Returns the changes and the place that is reached; none where the replies
/// end before the reading does.
pub fn read_changes(from_usn: i64, replies: &[Vec<u8>]) -> (r: Option<(Vec<Change>, i64)>)
    ensures
        match r {
            Some((cs, next)) => read_through(
                from_usn,
                Seq::new(replies@.len(), |i: int| replies@[i]@),
            ) == Some((index::change_views(cs@), next)),
            None => read_through(from_usn, Seq::new(replies@.len(), |i: int| replies@[i]@)) is None,
        },
{
    let ghost bs = Seq::new(replies@.len(), |i: int| replies@[i]@);
    let mut changes: Vec<Change> = Vec::new();
    let mut start: i64 = from_usn;
    let mut i: usize = 0;
    assert(bs.skip(0) =~= bs);
    assert(index::change_views(changes@) =~= Seq::empty());
    proof {
        if let Some((cs, next)) = read_through(from_usn, bs) {
            assert(Seq::<ChangeView>::empty() + cs =~= cs);
        }
    }
    while i < replies.len()
        invariant
            i <= replies@.len(),
            bs == Seq::new(replies@.len(), |i: int| replies@[i]@),
            read_through(from_usn, bs) == (match read_through(start, bs.skip(i as int)) {
                None => None,
                Some((cs, next)) => Some((index::change_views(changes@) + cs, next)),
            }),
        decreases replies@.len() - i,
    {
        let ghost before = index::change_views(changes@);
        let ghost asked = start;
        assert(bs.skip(i as int)[0] == replies@[i as int]@);
        assert(bs.skip(i as int).skip(1) =~= bs.skip(i + 1));
        match journal_step(start, replies[i].as_slice(), &mut changes) {
            JournalStep::Done { next } => {
                return Some((changes, next));
            },
            JournalStep::Again { start: s } => {
                start = s;
            },
        }
        proof {
            if let Some((cs, next)) = read_through(start, bs.skip(i + 1)) {
                let here = reply_changes(replies@[i as int]@);
                assert(before + (here + cs) =~= (before + here) + cs);
            }
        }
        i += 1;
    }
    None
}

/// What to do after a reply of the table of files.
#[derive(Debug, Clone, Copy, PartialEq, Eq, Structural)]
pub enum ScanStep {
    /// Ask again from the given file on.
    Again { start: u64 },
    /// All files were named.
    Done,
    /// There are more files or longer names than an index can hold.
    Full,
}

/// The file that a reply of the table of files says to go on from.
pub open spec fn reply_start(b: Seq<u8>) -> u64 {
    number(b, 0, 8) as u64
}

/// The builder after the entries that the reply `b` names. None where one has
/// no room.
pub open spec fn reply_entries(builder: BuilderView, b: Seq<u8>) -> Option<BuilderView> {
    entries_from(builder, b, RECORDS_START as int, b.len() as int)
}

/// Takes one reply of the table of files: adds the entries that it names and
/// says what to do next. A reply without a place to go on from ends the scan.
pub fn scan_step(reply: &[u8], builder: &mut IndexBuilder) -> (r: ScanStep)
    requires
        old(builder).wf(),
    ensures
        final(builder).wf(),
        reply@.len() < 8 ==> r is Done && final(builder)@ == old(builder)@,
        reply@.len() >= 8 ==> match reply_entries(old(builder)@, reply@) {
            Some(after) => r == (ScanStep::Again { start: reply_start(reply@) })
                && final(builder)@ == after,
            None => r is Full,
        },
{
    if reply.len() < 8 {
        return ScanStep::Done;
    }
    let start: u64 = u64::get(reply, 0);
    if push_records(reply, reply.len(), builder) {
        ScanStep::Again { start }
    } else {
        ScanStep::Full
    }
}

/// The byte that stands for a volume's letter.
pub open spec fn letter_byte(letter: char) -> u8 {
    text::upper_char(letter) as u8
}

/// A builder for the volume with the given letter.
pub fn start_scan(letter: char) -> (b: IndexBuilder)
    ensures
        b.wf(),
        b@ == BuilderView::fresh(letter_byte(letter)),
{
    IndexBuilder::new(to_upper_char(letter) as u8)
}

/// The index of the entries of a scan. Changes are to be read from `next_usn`
/// on, which is where the journal stood before the scan.
pub fn finish_scan(builder: IndexBuilder, serial: u64, journal_id: u64, next_usn: i64) -> (r: Index)
    requires
        builder.wf(),
    ensures
        r.wf(),
        r@.consistent(),
        r@ == (IndexView {
            volume_serial: serial,
            usn_journal_id: journal_id,
            next_usn,
            ..builder@.finished()
        }),
{
    let mut idx = builder.finish();
    idx.set_usn_state(serial, journal_id, next_usn);
    idx
}

/// The builder after the replies `bs`, up to the first without a place to go on
/// from. None where an entry has no room.
pub open spec fn scanned(builder: BuilderView, bs: Seq<Seq<u8>>) -> Option<BuilderView>
    decreases bs.len(),
{
    if bs.len() == 0 || bs[0].len() < 8 {
        Some(builder)
    } else {
        match reply_entries(builder, bs[0]) {
            None => None,
            Some(after) => scanned(after, bs.skip(1)),
        }
    }
}

/// The index of a volume whose table of files gave the replies. None where they
/// hold more than an index can.
pub fn build_index_for_drive(
    letter: char,
    replies: &[Vec<u8>],
    serial: u64,
    journal_id: u64,
    next_usn: i64,
) -> (r: Option<Index>)
    ensures
        match (
            r,
            scanned(
                BuilderView::fresh(letter_byte(letter)),
                Seq::new(replies@.len(), |i: int| replies@[i]@),
            ),
        ) {
            (Some(idx), Some(b)) => idx.wf() && idx@.consistent() && idx@ == (IndexView {
                volume_serial: serial,
                usn_journal_id: journal_id,
                next_usn,
                ..b.finished()
            }),
            (None, None) => true,
            _ => false,
        },
{
    let ghost bs = Seq::new(replies@.len(), |i: int| replies@[i]@);
    let ghost all = scanned(BuilderView::fresh(letter_byte(letter)), bs);
    let mut builder = start_scan(letter);
    let mut i: usize = 0;
    assert(bs.skip(0) =~= bs);
    while i < replies.len()
        invariant_except_break
            all == scanned(builder@, bs.skip(i as int)),
        invariant
            i <= replies@.len(),
            bs == Seq::new(replies@.len(), |i: int| replies@[i]@),
            all == scanned(BuilderView::fresh(letter_byte(letter)), bs),
            builder.wf(),
        ensures
            all == Some(builder@),
        decreases replies@.len() - i,
    {
        assert(bs.skip(i as int)[0] == replies@[i as int]@);
        assert(bs.skip(i as int).skip(1) =~= bs.skip(i + 1));
        match scan_step(replies[i].as_slice(), &mut builder) {
            ScanStep::Again { .. } => {},
            ScanStep::Done => {
                break;
            },
            ScanStep::Full => {
                return None;
            },
        }
        i += 1;
    }
    Some(finish_scan(builder, serial, journal_id, next_usn))
}

/// The path by which the volume with the given letter is opened.
pub fn volume_path(letter: char) -> (r: String)
    ensures
        r@ == seq!['\\', '\\', '.', '\\', text::upper_char(letter), ':'],
{
    let mut s = String::new();
    s.push('\\');
    s.push('\\');
    s.push('.');
    s.push('\\');
    s.push(to_upper_char(letter));
    s.push(':');
    assert(s@ =~= seq!['\\', '\\', '.', '\\', text::upper_char(letter), ':']);
    s
}

/// The path of the root of the volume with the given letter.
pub fn root_path(letter: char) -> (r: String)
    ensures
        r@ == seq![text::upper_char(letter), ':', '\\'],
{
    let mut s = String::new();
    s.push(to_upper_char(letter));
    s.push(':');
    s.push('\\');
    assert(s@ =~= seq![text::upper_char(letter), ':', '\\']);
    s
}

/// Whether an index can be brought up to date from the journal: it is of the
/// same volume and journal, and the journal still holds what the index has not
/// seen.
pub open spec fn followable(v: IndexView, serial: u64, journal_id: u64, first_usn: i64) -> bool {
    v.volume_serial == serial && v.usn_journal_id == journal_id && v.next_usn >= first_usn
}

/// A record as a volume writes it: its length, the reference, the parent, the
/// reason, the attributes, and the name in units of two bytes behind the sixty
/// bytes before it, with the bytes that are not looked at in between.
pub open spec fn written_record(r: WrittenRecord) -> Seq<u8> {
    codec::le(r.size(), 4) + r.gap_a + codec::le(r.frn as nat, 8) + codec::le(
        r.parent_frn as nat,
        8,
    ) + r.gap_b + codec::le(r.reason as nat, 4) + r.gap_c + codec::le(r.attrs as nat, 4)
        + codec::le(2 * r.units.len(), 2) + codec::le(60, 2) + unit_bytes(r.units) + r.pad
}

/// What goes into a record.
pub struct WrittenRecord {
    pub gap_a: Seq<u8>,
    pub frn: u64,
    pub parent_frn: u64,
    pub gap_b: Seq<u8>,
    pub reason: u32,
    pub gap_c: Seq<u8>,
    pub attrs: u32,
    pub units: Seq<u16>,
    pub pad: Seq<u8>,
}

impl WrittenRecord {
    /// How long the record is.
    pub open spec fn size(self) -> nat {
        60 + 2 * self.units.len() + self.pad.len()
    }

    /// Whether the parts are as long as they are in a record, there is a name, and
    /// the lengths can be written.
    pub open spec fn ok(self) -> bool {
        &&& self.gap_a.len() == 4
        &&& self.gap_b.len() == 16
        &&& self.gap_c.len() == 8
        &&& 0 < self.units.len() <= 32767
        &&& self.size() <= u32::MAX
    }
}

/// The bytes of units, the lower byte of each first.
pub open spec fn unit_bytes(units: Seq<u16>) -> Seq<u8>
    decreases units.len(),
{
    if units.len() == 0 {
        Seq::empty()
    } else {
        unit_bytes(units.drop_last()) + codec::le(units.last() as nat, 2)
    }
}

proof fn lemma_unit_bytes(units: Seq<u16>, i: int)
    ensures
        unit_bytes(units).len() == 2 * units.len(),
        0 <= i < units.len() ==> unit_bytes(units).subrange(2 * i, 2 * i + 2) == codec::le(
            units[i] as nat,
            2,
        ),
    decreases units.len(),
{
    if units.len() > 0 {
        let most = units.drop_last();
        lemma_unit_bytes(most, i);
        codec::lemma_le_len(units.last() as nat, 2);
        if 0 <= i < most.len() {
            assert(unit_bytes(units).subrange(2 * i, 2 * i + 2) =~= unit_bytes(most).subrange(
                2 * i,
                2 * i + 2,
            ));
        } else if i == most.len() {
            assert(unit_bytes(units).subrange(2 * i, 2 * i + 2) =~= codec::le(
                units.last() as nat,
                2,
            ));
        }
    }
}

proof fn lemma_number(b: Seq<u8>, at: int, n: nat, width: nat)
    requires
        0 <= at,
        at + width <= b.len(),
        n < codec::range_of(width),
        b.subrange(at, at + width) == codec::le(n, width),
    ensures
        number(b, at, width as int) == n,
{
    codec::law_le_round_trip(n, width);
}

/// What a record says is what was written into it.
proof fn lemma_written(head: Seq<u8>, r: WrittenRecord, more: Seq<u8>)
    requires
        r.ok(),
    ensures
        ({
            let b = head + written_record(r) + more;
            let at = head.len() as int;
            &&& written_record(r).len() == r.size()
            &&& record_at(b, at, b.len() as int)
            &&& record_len(b, at) == r.size()
            &&& record_frn(b, at) == r.frn
            &&& record_parent(b, at) == r.parent_frn
            &&& record_reason(b, at) == r.reason
            &&& record_attrs(b, at) == r.attrs
            &&& record_name_len(b, at) == 2 * r.units.len()
            &&& record_name_off(b, at) == 60
            &&& units_at(b, at + 60, 2 * r.units.len() as int) == r.units
        }),
{
    let b = head + written_record(r) + more;
    let at = head.len() as int;
    codec::lemma_ranges();
    codec::lemma_le_len(r.size(), 4);
    codec::lemma_le_len(r.frn as nat, 8);
    codec::lemma_le_len(r.parent_frn as nat, 8);
    codec::lemma_le_len(r.reason as nat, 4);
    codec::lemma_le_len(r.attrs as nat, 4);
    codec::lemma_le_len(2 * r.units.len(), 2);
    codec::lemma_le_len(60, 2);
    lemma_unit_bytes(r.units, 0);
    assert(b.subrange(at, at + 4) =~= codec::le(r.size(), 4));
    assert(b.subrange(at + 8, at + 8 + 8) =~= codec::le(r.frn as nat, 8));
    assert(b.subrange(at + 16, at + 16 + 8) =~= codec::le(r.parent_frn as nat, 8));
    assert(b.subrange(at + 40, at + 40 + 4) =~= codec::le(r.reason as nat, 4));
    assert(b.subrange(at + 52, at + 52 + 4) =~= codec::le(r.attrs as nat, 4));
    assert(b.subrange(at + 56, at + 56 + 2) =~= codec::le(2 * r.units.len(), 2));
    assert(b.subrange(at + 58, at + 58 + 2) =~= codec::le(60, 2));
    lemma_number(b, at, r.size(), 4);
    lemma_number(b, at + 8, r.frn as nat, 8);
    lemma_number(b, at + 16, r.parent_frn as nat, 8);
    lemma_number(b, at + 40, r.reason as nat, 4);
    lemma_number(b, at + 52, r.attrs as nat, 4);
    lemma_number(b, at + 56, 2 * r.units.len(), 2);
    lemma_number(b, at + 58, 60, 2);
    let got = units_at(b, at + 60, 2 * r.units.len() as int);
    assert forall|i: int| 0 <= i < r.units.len() implies got[i] == r.units[i] by {
        lemma_unit_bytes(r.units, i);
        let o = at + 60 + 2 * i;
        assert(b.subrange(o, o + 2) =~= unit_bytes(r.units).subrange(2 * i, 2 * i + 2));
        lemma_number(b, o, r.units[i] as nat, 2);
    }
    assert(got =~= r.units);
}

proof fn lemma_number_moves(a: Seq<u8>, b: Seq<u8>, m: Seq<u8>, k: int, width: int)
    requires
        0 <= k,
        0 <= width,
        k + width <= m.len(),
    ensures
        number(a + m, a.len() + k, width) == number(b + m, b.len() + k, width),
{
    assert((a + m).subrange(a.len() + k, a.len() + k + width) =~= m.subrange(k, k + width));
    assert((b + m).subrange(b.len() + k, b.len() + k + width) =~= m.subrange(k, k + width));
}

/// What a record says does not depend on what stands before it.
proof fn lemma_record_moves(a: Seq<u8>, b: Seq<u8>, m: Seq<u8>, k: int)
    requires
        0 <= k,
    ensures
        ({
            let (x, y) = (a + m, b + m);
            let (i, j) = (a.len() + k, b.len() + k);
            &&& record_at(x, i, x.len() as int) == record_at(y, j, y.len() as int)
            &&& record_at(x, i, x.len() as int) ==> {
                &&& record_len(x, i) == record_len(y, j)
                &&& record_usable(x, i) == record_usable(y, j)
                &&& record_usable(x, i) ==> record_change(x, i) == record_change(y, j)
                    && record_frn(x, i) == record_frn(y, j) && record_parent(x, i) == record_parent(
                    y,
                    j,
                ) && record_attrs(x, i) == record_attrs(y, j) && record_name(x, i) == record_name(
                    y,
                    j,
                )
            }
        }),
{
    let (x, y) = (a + m, b + m);
    let (i, j) = (a.len() + k, b.len() + k);
    if k + 60 <= m.len() {
        lemma_number_moves(a, b, m, k, 4);
        lemma_number_moves(a, b, m, k + 8, 8);
        lemma_number_moves(a, b, m, k + 16, 8);
        lemma_number_moves(a, b, m, k + 40, 4);
        lemma_number_moves(a, b, m, k + 52, 4);
        lemma_number_moves(a, b, m, k + 56, 2);
        lemma_number_moves(a, b, m, k + 58, 2);
        if record_at(x, i, x.len() as int) && record_usable(x, i) {
            let off = record_name_off(x, i) as int;
            let len = record_name_len(x, i) as int;
            let p = units_at(x, i + off, len);
            let q = units_at(y, j + off, len);
            assert forall|n: int| 0 <= n < len / 2 implies p[n] == q[n] by {
                lemma_number_moves(a, b, m, k + off + 2 * n, 2);
            }
            assert(p =~= q);
        }
    }
}

proof fn lemma_changes_move(a: Seq<u8>, b: Seq<u8>, m: Seq<u8>, k: int)
    requires
        0 <= k,
    ensures
        changes_from(a + m, a.len() + k, (a + m).len() as int) == changes_from(
            b + m,
            b.len() + k,
            (b + m).len() as int,
        ),
    decreases m.len() - k,
{
    lemma_record_moves(a, b, m, k);
    let (x, y) = (a + m, b + m);
    let (i, j) = (a.len() + k, b.len() + k);
    if record_at(x, i, x.len() as int) {
        lemma_changes_move(a, b, m, k + record_len(x, i));
    }
}

proof fn lemma_entries_move(builder: BuilderView, a: Seq<u8>, b: Seq<u8>, m: Seq<u8>, k: int)
    requires
        0 <= k,
    ensures
        entries_from(builder, a + m, a.len() + k, (a + m).len() as int) == entries_from(
            builder,
            b + m,
            b.len() + k,
            (b + m).len() as int,
        ),
    decreases m.len() - k,
{
    lemma_record_moves(a, b, m, k);
    let (x, y) = (a + m, b + m);
    let (i, j) = (a.len() + k, b.len() + k);
    if record_at(x, i, x.len() as int) {
        let next = if record_usable(x, i) {
            builder.pushed(
                record_frn(x, i),
                record_parent(x, i),
                record_attrs(x, i),
                record_name(x, i),
            )
        } else {
            builder
        };
        lemma_entries_move(next, a, b, m, k + record_len(x, i));
    }
}

/// A record in a reply of the journal is reported as what was written into it: as
/// a deletion exactly where its reason has the bit for that, whatever other bits it
/// has, and else as an upsert with its reference, parent, attributes and name. One
/// of the root is not reported. The records behind it are reported behind it, as
/// they would be without it.
pub proof fn law_record_is_reported_as_written(head: Seq<u8>, r: WrittenRecord, more: Seq<u8>)
    requires
        head.len() == 8,
        r.ok(),
    ensures
        reply_changes(head + written_record(r) + more) == (if r.frn & 0xFFFF_FFFF_FFFF == 5 {
            Seq::empty()
        } else if r.reason & 0x200 != 0 {
            seq![ChangeView::Delete { frn: r.frn }]
        } else {
            seq![
                ChangeView::Upsert {
                    frn: r.frn,
                    parent_frn: r.parent_frn,
                    attrs: r.attrs,
                    name: wide::decoded(r.units),
                },
            ]
        }) + reply_changes(head + more),
        reply_changes(head) == Seq::<ChangeView>::empty(),
{
    let front = head + written_record(r);
    let b = front + more;
    lemma_written(head, r, more);
    lemma_changes_move(front, head, more, 0);
    let rest = reply_changes(head + more);
    assert(Seq::<ChangeView>::empty() + rest =~= rest);
}

/// A record in a reply of the table of files is taken as what was written into it,
/// where there is room for it: an entry with its reference, parent, attributes and
/// name. One of the root is passed over. The records behind it are taken after it,
/// as they would be without it.
pub proof fn law_record_is_taken_as_written(
    builder: BuilderView,
    head: Seq<u8>,
    r: WrittenRecord,
    more: Seq<u8>,
)
    requires
        head.len() == 8,
        r.ok(),
    ensures
        reply_entries(builder, head + written_record(r) + more) == (if r.frn & 0xFFFF_FFFF_FFFF
            == 5 {
            reply_entries(builder, head + more)
        } else if !builder.room() {
            None
        } else {
            reply_entries(
                builder.pushed(r.frn, r.parent_frn, r.attrs, wide::decoded(r.units)),
                head + more,
            )
        }),
        reply_entries(builder, head) == Some(builder),
{
    let front = head + written_record(r);
    lemma_written(head, r, more);
    lemma_entries_move(builder, front, head, more, 0);
    lemma_entries_move(
        builder.pushed(r.frn, r.parent_frn, r.attrs, wide::decoded(r.units)),
        front,
        head,
        more,
        0,
    );
}

/// Whether a record reports a deletion hangs on one bit of its reason alone.
pub proof fn law_reason_decides(b: Seq<u8>, at: int)
    ensures
        record_change(b, at) is Delete <==> number(b, at + 40, 4) as u32 & 0x200 != 0,
        record_change(b, at) is Upsert <==> number(b, at + 40, 4) as u32 & 0x200 == 0,
{
}

/// A reply begins with the place to go on from. Reading goes on from there where
/// that is further on and records came with it; it is done there where none came,
/// and done where it was where the place is no further on or none was given.
pub proof fn law_reply_says_where_to_go_on(start: i64, next: i64, records: Seq<u8>, short: Seq<u8>)
    requires
        short.len() < 8,
    ensures
        ({
            let b = codec::le(next as u64 as nat, 8) + records;
            &&& next > start && records.len() > 0 ==> step_after(start, b) == (JournalStep::Again {
                start: next,
            })
            &&& next > start && records.len() == 0 ==> step_after(start, b) == (JournalStep::Done {
                next,
            })
            &&& next <= start ==> step_after(start, b) == (JournalStep::Done { next: start })
        }),
        step_after(start, short) == (JournalStep::Done { next: start }),
{
    let b = codec::le(next as u64 as nat, 8) + records;
    codec::lemma_ranges();
    codec::lemma_le_len(next as u64 as nat, 8);
    assert(b.subrange(0, 8) =~= codec::le(next as u64 as nat, 8));
    lemma_number(b, 0, next as u64 as nat, 8);
    assert(next as u64 as i64 == next) by (bit_vector);
}

/// The replies are read one after the other: the changes of each come behind those
/// of the one before, until one ends the reading, and what comes after that one is
/// not looked at.
pub proof fn law_replies_are_read_in_turn(start: i64, b: Seq<u8>, rest: Seq<Seq<u8>>)
    ensures
        match step_after(start, b) {
            JournalStep::Done { next } => read_through(start, seq![b] + rest) == Some(
                (reply_changes(b), next),
            ),
            JournalStep::Again { start: s } => read_through(start, seq![b] + rest) == (
            match read_through(s, rest) {
                Some((cs, next)) => Some((reply_changes(b) + cs, next)),
                None => None,
            }),
        },
        read_through(start, Seq::empty()) is None,
{
    assert((seq![b] + rest)[0] == b);
    assert((seq![b] + rest).skip(1) =~= rest);
}

/// A scan takes the replies one after the other, until one has no place to go on
/// from.
pub proof fn law_scan_takes_replies_in_turn(builder: BuilderView, b: Seq<u8>, rest: Seq<Seq<u8>>)
    ensures
        b.len() < 8 ==> scanned(builder, seq![b] + rest) == Some(builder),
        b.len() >= 8 ==> scanned(builder, seq![b] + rest) == (match reply_entries(builder, b) {
            Some(after) => scanned(after, rest),
            None => None,
        }),
        scanned(builder, Seq::empty()) == Some(builder),
{
    assert((seq![b] + rest)[0] == b);
    assert((seq![b] + rest).skip(1) =~= rest);
}

/// A record without a name, or whose name does not end within it, is passed over,
/// and where no whole record stands nothing more is read.
pub proof fn law_records_without_names_are_passed_over(builder: BuilderView, b: Seq<u8>)
    requires
        b.len() >= 8,
    ensures
        ({
            let len = number(b, 8, 4) as int;
            let name_len = number(b, 64, 2);
            let name_off = number(b, 66, 2);
            let whole = b.len() >= 68 && len >= 60 && 8 + len <= b.len();
            let rest = b.take(8) + b.skip(8 + len);
            &&& !whole ==> reply_changes(b).len() == 0
            &&& !whole ==> reply_entries(builder, b) == Some(builder)
            &&& whole && (name_len == 0 || name_off + name_len > len) ==> reply_changes(b)
                == reply_changes(rest)
            &&& whole && (name_len == 0 || name_off + name_len > len) ==> reply_entries(builder, b)
                == reply_entries(builder, rest)
        }),
{
    let len = number(b, 8, 4) as int;
    if b.len() >= 68 && len >= 60 && 8 + len <= b.len() {
        let front = b.take(8 + len);
        let head = b.take(8);
        let more = b.skip(8 + len);
        assert(front + more =~= b);
        lemma_changes_move(front, head, more, 0);
        lemma_entries_move(builder, front, head, more, 0);
    }
}

} // verus!
