//! The indexes of several volumes, searched as one.

use vstd::prelude::*;

use crate::category::Category;
use crate::index;
use crate::index::{Change, Index};
use crate::model;
use crate::model::{ChangeView, IndexView, Layout};
use crate::persist;
use crate::persist::{load_index, save_index};
use crate::search;
use crate::search::{ResultView, SearchResult};
use crate::text;
use crate::text::to_upper_char;
use crate::usn;

verus! {

/// What was read of a volume's journal: the changes, and where they end.
pub type JournalReply = (Vec<Change>, i64);

/// The indexes of several volumes.
pub struct Catalog {
    indexes: Vec<Index>,
}

impl View for Catalog {
    type V = Seq<IndexView>;

    closed spec fn view(&self) -> Seq<IndexView> {
        Seq::new(self.indexes@.len(), |i: int| self.indexes@[i]@)
    }
}

/// The first index from `i` on whose volume has the given letter.
pub open spec fn first_with_letter(vs: Seq<IndexView>, letter: char, i: int) -> Option<int>
    decreases vs.len() - i,
{
    if i >= vs.len() {
        None
    } else if vs[i].drive_letter as char == letter {
        Some(i)
    } else {
        first_with_letter(vs, letter, i + 1)
    }
}

/// The results in the folder: of the first volume with the letter that the path
/// begins with, below the folder that the path leads to. None where there is no
/// such volume or no such folder.
pub open spec fn found_in_folder(
    vs: Seq<IndexView>,
    query: Seq<u8>,
    folder: Seq<char>,
    filter: Category,
    limit: usize,
) -> Seq<ResultView> {
    if folder.len() == 0 {
        Seq::empty()
    } else {
        match first_with_letter(vs, text::upper_char(folder[0]), 0) {
            None => Seq::empty(),
            Some(i) => match model::dir_at(vs[i].nodes, vstd::utf8::encode_utf8(folder)) {
                Some(id) => vs[i].found(query, filter, Some(id), limit),
                None => Seq::empty(),
            },
        }
    }
}

/// The results of the volumes from `i` on, those with the wanted letter where
/// one is wanted: of each as many as are still asked for.
pub open spec fn found_from(
    vs: Seq<IndexView>,
    i: int,
    query: Seq<u8>,
    want: Option<char>,
    filter: Category,
    limit: nat,
) -> Seq<ResultView>
    decreases vs.len() - i,
{
    if i >= vs.len() || limit == 0 {
        Seq::empty()
    } else if want is Some && want != Some(vs[i].drive_letter as char) {
        found_from(vs, i + 1, query, want, filter, limit)
    } else {
        let here = vs[i].found(query, filter, None, limit as usize);
        here + found_from(vs, i + 1, query, want, filter, (limit - here.len()) as nat)
    }
}

/// The letter that is wanted, raised to its capital.
pub open spec fn wanted_letter(drive: Option<char>) -> Option<char> {
    match drive {
        Some(d) => Some(text::upper_char(d)),
        None => None,
    }
}

/// The results of a search. A folder goes before a letter.
pub open spec fn found_in(
    vs: Seq<IndexView>,
    query: Seq<u8>,
    drive: Option<char>,
    folder: Option<Seq<char>>,
    filter: Category,
    limit: usize,
) -> Seq<ResultView> {
    match folder {
        Some(f) => found_in_folder(vs, query, f, filter, limit),
        None => found_from(vs, 0, query, wanted_letter(drive), filter, limit as nat),
    }
}

/// The text of a folder that may be given.
pub open spec fn folder_view(folder: Option<&str>) -> Option<Seq<char>> {
    match folder {
        Some(f) => Some(f@),
        None => None,
    }
}

/// How many nodes the first `n` indexes have together.
pub open spec fn node_sum(vs: Seq<IndexView>, n: int) -> nat
    decreases n,
{
    if n <= 0 {
        0
    } else {
        node_sum(vs, n - 1) + vs[n - 1].nodes.len()
    }
}

/// How many bytes the first `n` indexes take together, each with the given room
/// in its map of references, as far as a `usize` can tell.
pub open spec fn byte_sum(vs: Seq<IndexView>, capacities: Seq<usize>, n: int) -> int
    decreases n,
{
    if n <= 0 {
        0
    } else {
        let sum = byte_sum(vs, capacities, n - 1) + index::footprint(
            vs[n - 1].nodes.len() as int,
            vs[n - 1].pool.len() as int,
            capacities[n - 1] as int,
        );
        if sum <= usize::MAX {
            sum
        } else {
            usize::MAX as int
        }
    }
}

/// An index after what was read of its journal.
pub open spec fn followed(v: IndexView, changes: Seq<ChangeView>, next: i64) -> IndexView {
    IndexView { next_usn: next, ..v.applied_all(changes) }
}

/// An index after what was read of its journal, where it could be read.
pub open spec fn caught_up(v: IndexView, reply: Option<JournalReply>) -> IndexView {
    match reply {
        Some((cs, next)) => followed(v, index::change_views(cs@), next),
        None => v,
    }
}

/// How many changes the first `n` replies hold.
pub open spec fn change_sum(replies: Seq<Option<JournalReply>>, n: int) -> nat
    decreases n,
{
    if n <= 0 {
        0
    } else {
        change_sum(replies, n - 1) + (match replies[n - 1] {
            Some((cs, _)) => cs@.len(),
            None => 0,
        })
    }
}

/// Whether each index has room for the changes that were read of its journal.
pub open spec fn room_for_replies(
    vs: Seq<IndexView>,
    replies: Seq<Option<JournalReply>>,
) -> bool {
    forall|i: int|
        0 <= i < vs.len() ==> match #[trigger] replies[i] {
            Some((cs, _)) => vs[i].room_for_all(index::change_views(cs@)),
            None => true,
        }
}

/// The name of the file that the index of a volume is kept in.
pub open spec fn cache_name(letter: char) -> Seq<char> {
    seq!['i', 'n', 'd', 'e', 'x', '_', text::upper_char(letter), '.', 's', 's', 'i', 'd', 'x']
}

/// The name of the file that the index of a volume is kept in.
pub fn cache_file_name(letter: char) -> (r: String)
    ensures
        r@ == cache_name(letter),
{
    let mut s = String::new();
    s.push('i');
    s.push('n');
    s.push('d');
    s.push('e');
    s.push('x');
    s.push('_');
    s.push(to_upper_char(letter));
    s.push('.');
    s.push('s');
    s.push('s');
    s.push('i');
    s.push('d');
    s.push('x');
    assert(s@ =~= cache_name(letter));
    s
}

/// Whether what was read of a journal is news: there are changes, or the
/// journal went on.
pub fn is_news(changes: &[Change], new_next: i64, from: i64) -> (r: bool)
    ensures
        r == !(changes@.len() == 0 && new_next == from),
{
    !(changes.len() == 0 && new_next == from)
}

/// Applies what was read of the journal. False, and the index unchanged, where
/// it has no room for it.
fn follow(idx: &mut Index, changes: &[Change], next: i64) -> (ok: bool)
    requires
        old(idx).wf(),
    ensures
        final(idx).wf(),
        ok == old(idx)@.room_for_all(index::change_views(changes@)),
        final(idx)@ == (if ok {
            followed(old(idx)@, index::change_views(changes@), next)
        } else {
            old(idx)@
        }),
{
    if !idx.has_room_for_all(changes) {
        return false;
    }
    idx.apply_all(changes);
    idx.set_next_usn(next);
    true
}

/// The index that a cache file gives for a volume in the given state: the one
/// that was saved, brought up to date with what was read of the journal. None
/// where it has to be built anew: the file is damaged, it is of another volume
/// or journal, the journal no longer holds what it has not seen, or it has no
/// room for the changes.
pub fn try_load(
    bytes: &[u8],
    serial: u64,
    journal_id: u64,
    first_usn: i64,
    reply: Option<&JournalReply>,
) -> (r: Option<Index>)
    ensures
        match persist::loaded(bytes@) {
            Err(_) => r is None,
            Ok(l) => if !usn::followable(l.view(), serial, journal_id, first_usn) {
                r is None
            } else {
                match reply {
                    None => r matches Some(idx) && idx.wf() && idx@ == l.view(),
                    Some(jr) => if l.view().room_for_all(index::change_views(jr.0@)) {
                        r matches Some(idx) && idx.wf() && idx@ == followed(
                            l.view(),
                            index::change_views(jr.0@),
                            jr.1,
                        )
                    } else {
                        r is None
                    },
                }
            },
        },
{
    let mut idx = match load_index(bytes) {
        Ok(idx) => idx,
        Err(_) => {
            return None;
        },
    };
    if !is_followable(&idx, serial, journal_id, first_usn) {
        return None;
    }
    match reply {
        Some(jr) => {
            if !follow(&mut idx, jr.0.as_slice(), jr.1) {
                return None;
            }
        },
        None => {},
    }
    Some(idx)
}

/// Whether an index can be brought up to date from the journal: it is of the
/// same volume and journal, and the journal still holds what the index has not
/// seen.
pub fn is_followable(idx: &Index, serial: u64, journal_id: u64, first_usn: i64) -> (r: bool)
    ensures
        r == usn::followable(idx@, serial, journal_id, first_usn),
{
    idx.volume_serial() == serial && idx.usn_journal_id() == journal_id && idx.next_usn()
        >= first_usn
}

impl Catalog {
    /// Every index is well-formed.
    pub closed spec fn wf(&self) -> bool {
        forall|i: int| 0 <= i < self.indexes@.len() ==> (#[trigger] self.indexes@[i]).wf()
    }

    /// The indexes of a well-formed catalog are valid, and their arrays fit each
    /// other.
    pub proof fn lemma_valid(&self)
        requires
            self.wf(),
        ensures
            forall|i: int| 0 <= i < self@.len() ==> (#[trigger] self@[i]).valid(),
            self.layouts().len() == self@.len(),
            forall|i: int|
                0 <= i < self@.len() ==> (#[trigger] self.layouts()[i]).ok()
                    && self.layouts()[i].view() == self@[i],
    {
        assert forall|i: int| 0 <= i < self@.len() implies (#[trigger] self@[i]).valid() by {
            assert(self.indexes@[i].wf());
            self.indexes@[i].layout().lemma_valid();
        }
        assert forall|i: int| 0 <= i < self@.len() implies (#[trigger] self.layouts()[i]).ok()
            && self.layouts()[i].view() == self@[i] by {
            assert(self.indexes@[i].wf());
        }
    }

    /// The arrays of the indexes.
    pub closed spec fn layouts(&self) -> Seq<Layout> {
        Seq::new(self.indexes@.len(), |i: int| self.indexes@[i].layout())
    }

    /// A catalog of no volume.
    pub fn new() -> (c: Catalog)
        ensures
            c.wf(),
            c@ == Seq::<IndexView>::empty(),
    {
        let c = Catalog { indexes: Vec::new() };
        assert(c@ =~= Seq::<IndexView>::empty());
        c
    }

    /// Adds the index of one more volume.
    pub fn add(&mut self, idx: Index)
        requires
            old(self).wf(),
            idx.wf(),
        ensures
            final(self).wf(),
            final(self)@ == old(self)@.push(idx@),
    {
        let ghost v = idx@;
        self.indexes.push(idx);
        assert(self@ =~= old(self)@.push(v));
    }

    /// The catalog of the volumes whose scan succeeded.
    pub fn build_all(scans: Vec<Option<Index>>) -> (c: Catalog)
        requires
            forall|i: int|
                0 <= i < scans@.len() ==> match #[trigger] scans@[i] {
                    Some(idx) => idx.wf(),
                    None => true,
                },
        ensures
            c.wf(),
            c@ == scanned_views(scans@, scans@.len() as int),
    {
        let mut c = Catalog::new();
        let ghost all = scans@;
        for scan in it: scans
            invariant
                c.wf(),
                it.seq() == all,
                forall|i: int|
                    0 <= i < all.len() ==> match #[trigger] all[i] {
                        Some(idx) => idx.wf(),
                        None => true,
                    },
                c@ == scanned_views(all, it.index() as int),
        {
            assert(scan == all[it.index() as int]);
            if let Some(idx) = scan {
                c.add(idx);
            }
        }
        c
    }

    /// Takes up one volume at the start: with the index from its cache where
    /// that is of use, else with the one from a scan, and not at all where
    /// neither is there. Returns the file to keep an index in that was scanned.
    pub fn build_or_load(
        &mut self,
        cached: Option<Index>,
        scanned: Option<Index>,
    ) -> (r: Option<(String, Vec<u8>)>)
        requires
            old(self).wf(),
            cached matches Some(idx) ==> idx.wf(),
            scanned matches Some(idx) ==> idx.wf(),
        ensures
            final(self).wf(),
            match cached {
                Some(idx) => final(self)@ == old(self)@.push(idx@) && r is None,
                None => match scanned {
                    Some(idx) => {
                        &&& final(self)@ == old(self)@.push(idx@)
                        &&& r matches Some((name, bytes))
                        &&& name@ == cache_name(idx@.drive_letter as char)
                        &&& persist::saved_as(idx.layout(), bytes@)
                    },
                    None => final(self)@ == old(self)@ && r is None,
                },
            },
    {
        if let Some(idx) = cached {
            self.add(idx);
            return None;
        }
        match scanned {
            Some(idx) => {
                let file = (cache_file_name(idx.drive_letter()), save_index(&idx));
                self.add(idx);
                Some(file)
            },
            None => None,
        }
    }

    /// Brings each index up to date with what was read of its journal, where it
    /// could be read. Returns how many changes there were.
    pub fn catch_up(&mut self, replies: &[Option<JournalReply>]) -> (total: usize)
        requires
            old(self).wf(),
            replies@.len() == old(self)@.len(),
            room_for_replies(old(self)@, replies@),
            change_sum(replies@, replies@.len() as int) <= usize::MAX,
        ensures
            final(self).wf(),
            final(self)@ == Seq::new(
                old(self)@.len(),
                |i: int| caught_up(old(self)@[i], replies@[i]),
            ),
            total == change_sum(replies@, replies@.len() as int),
    {
        let ghost before = self@;
        let mut total: usize = 0;
        let mut i: usize = 0;
        while i < self.indexes.len()
            invariant
                self.wf(),
                before == old(self)@,
                i <= self.indexes@.len(),
                self.indexes@.len() == before.len(),
                replies@.len() == before.len(),
                room_for_replies(before, replies@),
                change_sum(replies@, replies@.len() as int) <= usize::MAX,
                total == change_sum(replies@, i as int),
                forall|k: int|
                    0 <= k < i ==> (#[trigger] self.indexes@[k])@ == caught_up(
                        before[k],
                        replies@[k],
                    ),
                forall|k: int| i <= k < before.len() ==> (#[trigger] self.indexes@[k])@ == before[k],
            decreases self.indexes@.len() - i,
        {
            assert(self.indexes@[i as int].wf());
            match &replies[i] {
                Some((changes, next)) => {
                    proof {
                        lemma_change_sum(replies@, i + 1, replies@.len() as int);
                    }
                    total = total + changes.len();
                    let idx = &mut self.indexes[i];
                    idx.apply_all(changes.as_slice());
                    idx.set_next_usn(*next);
                },
                None => {},
            }
            i += 1;
        }
        assert(self@ =~= Seq::new(
            old(self)@.len(),
            |i: int| caught_up(old(self)@[i], replies@[i]),
        ));
        total
    }
}

/// The indexes of the first `n` scans that succeeded.
pub open spec fn scanned_views(scans: Seq<Option<Index>>, n: int) -> Seq<IndexView>
    decreases n,
{
    if n <= 0 {
        Seq::empty()
    } else {
        match scans[n - 1] {
            Some(idx) => scanned_views(scans, n - 1).push(idx@),
            None => scanned_views(scans, n - 1),
        }
    }
}

proof fn lemma_change_sum(replies: Seq<Option<JournalReply>>, a: int, b: int)
    requires
        a <= b,
    ensures
        change_sum(replies, a) <= change_sum(replies, b),
    decreases b - a,
{
    if a < b {
        lemma_change_sum(replies, a, b - 1);
    }
}

/// Where each volume's journal is to be read: its letter, its journal, and the
/// place in it.
pub open spec fn positions(vs: Seq<IndexView>) -> Seq<(char, u64, i64)> {
    Seq::new(
        vs.len(),
        |i: int| (vs[i].drive_letter as char, vs[i].usn_journal_id, vs[i].next_usn),
    )
}

impl Catalog {
    /// Whether there is one reply for each index, each index has room for what was
    /// read of its journal, and the changes can be counted.
    pub fn can_catch_up(&self, replies: &[Option<JournalReply>]) -> (r: bool)
        requires
            self.wf(),
        ensures
            r == (replies@.len() == self@.len() && room_for_replies(self@, replies@) && change_sum(
                replies@,
                replies@.len() as int,
            ) <= usize::MAX),
    {
        if replies.len() != self.indexes.len() {
            return false;
        }
        let mut total: usize = 0;
        let mut i: usize = 0;
        while i < replies.len()
            invariant
                self.wf(),
                i <= replies@.len(),
                replies@.len() == self@.len(),
                self@.len() == self.indexes@.len(),
                total == change_sum(replies@, i as int),
                forall|k: int|
                    0 <= k < i ==> match #[trigger] replies@[k] {
                        Some((cs, _)) => self@[k].room_for_all(index::change_views(cs@)),
                        None => true,
                    },
            decreases replies@.len() - i,
        {
            assert(self.indexes@[i as int].wf());
            assert(self@[i as int] == self.indexes@[i as int]@);
            proof {
                lemma_change_sum(replies@, i + 1, replies@.len() as int);
            }
            if let Some((changes, _)) = &replies[i] {
                if !self.indexes[i].has_room_for_all(changes.as_slice()) {
                    assert(match replies@[i as int] {
                        Some((cs, _)) => !self@[i as int].room_for_all(index::change_views(cs@)),
                        None => false,
                    });
                    return false;
                }
                match total.checked_add(changes.len()) {
                    Some(t) => {
                        total = t;
                    },
                    None => {
                        return false;
                    },
                }
            }
            i += 1;
        }
        true
    }

    /// Where each volume's journal is to be read.
    pub fn usn_positions(&self) -> (r: Vec<(char, u64, i64)>)
        requires
            self.wf(),
        ensures
            r@ == positions(self@),
    {
        let mut out: Vec<(char, u64, i64)> = Vec::new();
        let mut i: usize = 0;
        while i < self.indexes.len()
            invariant
                i <= self.indexes@.len(),
                out@ == positions(self@).take(i as int),
            decreases self.indexes@.len() - i,
        {
            let idx = &self.indexes[i];
            out.push((idx.drive_letter(), idx.usn_journal_id(), idx.next_usn()));
            i += 1;
            assert(out@ =~= positions(self@).take(i as int));
        }
        assert(positions(self@).take(i as int) =~= positions(self@));
        out
    }

    /// Brings the index of one volume up to date with what was read of its
    /// journal. False, and nothing changed, where there is no such volume or it
    /// has no room for the changes.
    pub fn apply_drive_changes(
        &mut self,
        letter: char,
        changes: &[Change],
        new_next: i64,
    ) -> (ok: bool)
        requires
            old(self).wf(),
        ensures
            final(self).wf(),
            ok == (first_with_letter(old(self)@, letter, 0) matches Some(i)
                && old(self)@[i].room_for_all(index::change_views(changes@))),
            !ok ==> final(self)@ == old(self)@,
            ok ==> (first_with_letter(old(self)@, letter, 0) matches Some(i) && final(self)@ == old(
                self,
            )@.update(i, followed(old(self)@[i], index::change_views(changes@), new_next))),
    {
        match self.position_of(letter) {
            Some(i) => {
                assert(self.indexes@[i as int].wf());
                let ghost v = self.indexes@[i as int]@;
                assert(v == self@[i as int]);
                let ok: bool = follow(&mut self.indexes[i], changes, new_next);
                proof {
                    if ok {
                        assert(self@ =~= old(self)@.update(
                            i as int,
                            followed(v, index::change_views(changes@), new_next),
                        ));
                    } else {
                        assert(self@ =~= old(self)@);
                    }
                }
                ok
            },
            None => false,
        }
    }

    /// The first index whose volume has the given letter.
    fn position_of(&self, letter: char) -> (r: Option<usize>)
        requires
            self.wf(),
        ensures
            match r {
                Some(i) => i < self.indexes@.len() && first_with_letter(self@, letter, 0) == Some(
                    i as int,
                ),
                None => first_with_letter(self@, letter, 0) is None,
            },
    {
        let mut i: usize = 0;
        while i < self.indexes.len()
            invariant
                i <= self.indexes@.len(),
                first_with_letter(self@, letter, 0) == first_with_letter(self@, letter, i as int),
            decreases self.indexes@.len() - i,
        {
            assert(self@[i as int] == self.indexes@[i as int]@);
            if self.indexes[i].drive_letter() == letter {
                return Some(i);
            }
            i += 1;
        }
        None
    }

    /// The files to keep the indexes in: the name of each, and its bytes.
    pub fn save_all(&self) -> (r: Vec<(String, Vec<u8>)>)
        requires
            self.wf(),
        ensures
            r@.len() == self@.len(),
            forall|i: int|
                0 <= i < r@.len() ==> {
                    &&& (#[trigger] r@[i]).0@ == cache_name(self@[i].drive_letter as char)
                    &&& persist::saved_as(self.layouts()[i], r@[i].1@)
                },
            forall|i: int| 0 <= i < self@.len() ==> #[trigger] self.layouts()[i].view() == self@[i],
    {
        let mut out: Vec<(String, Vec<u8>)> = Vec::new();
        let mut i: usize = 0;
        while i < self.indexes.len()
            invariant
                self.wf(),
                i <= self.indexes@.len(),
                out@.len() == i,
                forall|k: int|
                    0 <= k < i ==> {
                        &&& (#[trigger] out@[k]).0@ == cache_name(self@[k].drive_letter as char)
                        &&& persist::saved_as(self.layouts()[k], out@[k].1@)
                    },
            decreases self.indexes@.len() - i,
        {
            assert(self.indexes@[i as int].wf());
            let idx = &self.indexes[i];
            out.push((cache_file_name(idx.drive_letter()), save_index(idx)));
            i += 1;
        }
        out
    }

    /// Whether there is no volume.
    pub fn is_empty(&self) -> (r: bool)
        ensures
            r == (self@.len() == 0),
    {
        self.indexes.len() == 0
    }

    /// The letters of the volumes.
    pub fn drive_letters(&self) -> (r: Vec<char>)
        ensures
            r@ == Seq::new(self@.len(), |i: int| self@[i].drive_letter as char),
    {
        let mut out: Vec<char> = Vec::new();
        let mut i: usize = 0;
        while i < self.indexes.len()
            invariant
                i <= self.indexes@.len(),
                out@.len() == i,
                forall|k: int| 0 <= k < i ==> #[trigger] out@[k] == self@[k].drive_letter as char,
            decreases self.indexes@.len() - i,
        {
            out.push(self.indexes[i].drive_letter());
            i += 1;
        }
        assert(out@ =~= Seq::new(self@.len(), |i: int| self@[i].drive_letter as char));
        out
    }

    /// How many nodes the indexes have together, as far as a `usize` can tell.
    pub fn total_nodes(&self) -> (r: usize)
        requires
            self.wf(),
        ensures
            r == (if node_sum(self@, self@.len() as int) <= usize::MAX {
                node_sum(self@, self@.len() as int)
            } else {
                usize::MAX as nat
            }),
    {
        let mut total: usize = 0;
        let mut i: usize = 0;
        while i < self.indexes.len()
            invariant
                self.wf(),
                i <= self.indexes@.len(),
                total == (if node_sum(self@, i as int) <= usize::MAX {
                    node_sum(self@, i as int)
                } else {
                    usize::MAX as nat
                }),
            decreases self.indexes@.len() - i,
        {
            assert(self.indexes@[i as int].wf());
            assert(self@[i as int] == self.indexes@[i as int]@);
            total = total.saturating_add(self.indexes[i].len());
            i += 1;
        }
        total
    }

    /// How many bytes the indexes take together.
    pub fn memory_bytes(&self) -> (r: usize)
        requires
            self.wf(),
        ensures
            exists|capacities: Seq<usize>|
                capacities.len() == self@.len() && (forall|i: int|
                    0 <= i < self@.len() ==> #[trigger] capacities[i] >= self@[i].by_frn.len()
                        && capacities[i] * 12 <= isize::MAX) && #[trigger] byte_sum(self@, capacities, self@.len() as int) == r,
    {
        let ghost mut capacities: Seq<usize> = Seq::empty();
        let mut total: usize = 0;
        let mut i: usize = 0;
        while i < self.indexes.len()
            invariant
                self.wf(),
                i <= self.indexes@.len(),
                capacities.len() == i,
                forall|k: int|
                    0 <= k < i ==> #[trigger] capacities[k] >= self@[k].by_frn.len()
                        && capacities[k] * 12 <= isize::MAX,
                total == byte_sum(self@, capacities, i as int),
            decreases self.indexes@.len() - i,
        {
            assert(self.indexes@[i as int].wf());
            assert(self@[i as int] == self.indexes@[i as int]@);
            let m: usize = self.indexes[i].memory_bytes();
            proof {
                let v = self@[i as int];
                let c = choose|c: usize|
                    c >= v.by_frn.len() && c * 12 <= isize::MAX && #[trigger] index::footprint(
                        v.nodes.len() as int,
                        v.pool.len() as int,
                        c as int,
                    ) == m;
                lemma_byte_sum_prefix(self@, capacities, c, i as int);
                capacities = capacities.push(c);
            }
            total = total.saturating_add(m);
            i += 1;
        }
        assert(byte_sum(self@, capacities, self@.len() as int) == total);
        total
    }

    /// Searches the volumes: the folder where one is given, else the volume with
    /// the letter where one is given, else all.
    pub fn search(
        &self,
        query: &str,
        drive: Option<char>,
        folder: Option<&str>,
        filter: Category,
        limit: usize,
    ) -> (r: Vec<SearchResult>)
        requires
            self.wf(),
        ensures
            search::result_views(r@) == found_in(
                self@,
                vstd::utf8::encode_utf8(query@),
                drive,
                folder_view(folder),
                filter,
                limit,
            ),
    {
        let ghost q = vstd::utf8::encode_utf8(query@);
        if let Some(f) = folder {
            return self.search_folder(query, f, filter, limit);
        }
        let want: Option<char> = match drive {
            Some(d) => Some(to_upper_char(d)),
            None => None,
        };
        let mut out: Vec<SearchResult> = Vec::new();
        let ghost all = found_from(self@, 0, q, want, filter, limit as nat);
        assert(search::result_views(out@) + all =~= all);
        let mut i: usize = 0;
        while i < self.indexes.len() && out.len() < limit
            invariant
                self.wf(),
                i <= self.indexes@.len(),
                self@.len() == self.indexes@.len(),
                out@.len() <= limit,
                q == vstd::utf8::encode_utf8(query@),
                all == found_from(self@, 0, q, want, filter, limit as nat),
                all == search::result_views(out@) + found_from(
                    self@,
                    i as int,
                    q,
                    want,
                    filter,
                    (limit - out@.len()) as nat,
                ),
            decreases self.indexes@.len() - i,
        {
            assert(self.indexes@[i as int].wf());
            assert(self@[i as int] == self.indexes@[i as int]@);
            let idx = &self.indexes[i];
            let skip: bool = match want {
                Some(d) => idx.drive_letter() != d,
                None => false,
            };
            if !skip {
                let remaining: usize = limit - out.len();
                let mut here = idx.search(query, filter, remaining);
                let ghost before = search::result_views(out@);
                let ghost found = search::result_views(here@);
                let ghost old_out = out@;
                let ghost old_here = here@;
                proof {
                    search::law_limit_is_kept(idx@, q, filter, None, remaining);
                    assert(found.len() == here@.len());
                }
                out.append(&mut here);
                proof {
                    assert(out@ =~= old_out + old_here);
                    assert(search::result_views(out@) =~= before + found);
                    let rest = found_from(
                        self@,
                        i + 1,
                        q,
                        want,
                        filter,
                        (limit - out@.len()) as nat,
                    );
                    assert(before + (found + rest) =~= (before + found) + rest);
                }
            }
            i += 1;
        }
        assert(search::result_views(out@) + Seq::<ResultView>::empty() =~= search::result_views(
            out@,
        ));
        out
    }

    /// Searches the folder that a full path leads to.
    fn search_folder(
        &self,
        query: &str,
        folder: &str,
        filter: Category,
        limit: usize,
    ) -> (r: Vec<SearchResult>)
        requires
            self.wf(),
        ensures
            search::result_views(r@) == found_in_folder(
                self@,
                vstd::utf8::encode_utf8(query@),
                folder@,
                filter,
                limit,
            ),
    {
        let none: Vec<SearchResult> = Vec::new();
        assert(search::result_views(none@) =~= Seq::<ResultView>::empty());
        let mut chars = folder.chars();
        let first: Option<char> = chars.next();
        match first {
            None => none,
            Some(c) => match self.position_of(to_upper_char(c)) {
                None => none,
                Some(i) => {
                    assert(self.indexes@[i as int].wf());
                    assert(self@[i as int] == self.indexes@[i as int]@);
                    let idx = &self.indexes[i];
                    match idx.find_dir_by_path(folder) {
                        Some(id) => idx.search_under(query, filter, id, limit),
                        None => none,
                    }
                },
            },
        }
    }
}

proof fn lemma_byte_sum_prefix(vs: Seq<IndexView>, capacities: Seq<usize>, c: usize, n: int)
    requires
        n <= capacities.len(),
    ensures
        byte_sum(vs, capacities.push(c), n) == byte_sum(vs, capacities, n),
    decreases n,
{
    if n > 0 {
        lemma_byte_sum_prefix(vs, capacities, c, n - 1);
    }
}

proof fn lemma_found_from_bounded(
    vs: Seq<IndexView>,
    i: int,
    query: Seq<u8>,
    want: Option<char>,
    filter: Category,
    limit: nat,
)
    requires
        0 <= i,
        limit <= usize::MAX,
    ensures
        found_from(vs, i, query, want, filter, limit).len() <= limit,
    decreases vs.len() - i,
{
    if i < vs.len() && limit > 0 {
        if want is Some && want != Some(vs[i].drive_letter as char) {
            lemma_found_from_bounded(vs, i + 1, query, want, filter, limit);
        } else {
            search::law_limit_is_kept(vs[i], query, filter, None, limit as usize);
            let here = vs[i].found(query, filter, None, limit as usize);
            lemma_found_from_bounded(
                vs,
                i + 1,
                query,
                want,
                filter,
                (limit - here.len()) as nat,
            );
        }
    }
}

/// A search returns no more results than asked for.
pub proof fn law_results_within_limit(
    vs: Seq<IndexView>,
    query: Seq<u8>,
    drive: Option<char>,
    folder: Option<Seq<char>>,
    filter: Category,
    limit: usize,
)
    ensures
        found_in(vs, query, drive, folder, filter, limit).len() <= limit,
{
    match folder {
        None => {
            lemma_found_from_bounded(vs, 0, query, wanted_letter(drive), filter, limit as nat);
        },
        Some(f) => {
            if f.len() > 0 {
                if let Some(i) = first_with_letter(vs, text::upper_char(f[0]), 0) {
                    if let Some(id) = model::dir_at(vs[i].nodes, vstd::utf8::encode_utf8(f)) {
                        search::law_limit_is_kept(vs[i], query, filter, Some(id), limit);
                    }
                }
            }
        },
    }
}

proof fn lemma_other_letters(
    vs: Seq<IndexView>,
    i: int,
    query: Seq<u8>,
    letter: char,
    filter: Category,
    limit: nat,
)
    requires
        0 <= i,
        forall|k: int| i <= k < vs.len() ==> (#[trigger] vs[k]).drive_letter as char != letter,
    ensures
        found_from(vs, i, query, Some(letter), filter, limit) == Seq::<ResultView>::empty(),
    decreases vs.len() - i,
{
    if i < vs.len() {
        lemma_other_letters(vs, i + 1, query, letter, filter, limit);
    }
}

proof fn lemma_one_letter(
    vs: Seq<IndexView>,
    i: int,
    at: int,
    query: Seq<u8>,
    filter: Category,
    limit: nat,
)
    requires
        0 <= i <= at < vs.len(),
        limit <= usize::MAX,
        forall|k: int|
            0 <= k < vs.len() && k != at ==> (#[trigger] vs[k]).drive_letter
                != vs[at].drive_letter,
    ensures
        found_from(vs, i, query, Some(vs[at].drive_letter as char), filter, limit)
            == vs[at].found(query, filter, None, limit as usize),
    decreases at - i,
{
    let letter = vs[at].drive_letter as char;
    search::law_limit_is_kept(vs[at], query, filter, None, limit as usize);
    if limit == 0 {
        assert(vs[at].found(query, filter, None, 0) =~= Seq::<ResultView>::empty());
    } else if i < at {
        assert(vs[i].drive_letter != vs[at].drive_letter);
        lemma_one_letter(vs, i + 1, at, query, filter, limit);
    } else {
        let here = vs[at].found(query, filter, None, limit as usize);
        lemma_other_letters(vs, at + 1, query, letter, filter, (limit - here.len()) as nat);
        assert(here + Seq::<ResultView>::empty() =~= here);
    }
}

/// Where no other volume has the letter, a search of the volume with that
/// letter, given as a capital or as a small letter, finds what a search of its
/// index alone finds.
pub proof fn law_one_volume_alone(
    vs: Seq<IndexView>,
    at: int,
    query: Seq<u8>,
    drive: char,
    filter: Category,
    limit: usize,
)
    requires
        0 <= at < vs.len(),
        vs[at].drive_letter as char == text::upper_char(drive),
        forall|k: int|
            0 <= k < vs.len() && k != at ==> (#[trigger] vs[k]).drive_letter
                != vs[at].drive_letter,
    ensures
        found_in(vs, query, Some(drive), None, filter, limit) == vs[at].found(
            query,
            filter,
            None,
            limit,
        ),
{
    lemma_one_letter(vs, 0, at, query, filter, limit as nat);
}

/// What was saved of a volume is there again at the next start, without a new
/// scan, as long as the volume and its journal are the same and the journal
/// holds what came since.
pub proof fn law_next_start_needs_no_scan(
    l: Layout,
    bytes: Seq<u8>,
    serial: u64,
    journal_id: u64,
    first_usn: i64,
)
    requires
        l.ok(),
        l.view().consistent(),
        persist::saved_as(l, bytes),
        usn::followable(l.view(), serial, journal_id, first_usn),
    ensures
        persist::loaded(bytes) matches Ok(again) && again.view() == l.view() && usn::followable(
            again.view(),
            serial,
            journal_id,
            first_usn,
        ),
{
    persist::law_load_gives_back_what_was_saved(l, bytes);
}

proof fn lemma_found_from_push(
    vs: Seq<IndexView>,
    v: IndexView,
    i: int,
    query: Seq<u8>,
    want: Option<char>,
    filter: Category,
    limit: nat,
)
    requires
        0 <= i <= vs.len(),
        limit <= usize::MAX,
    ensures
        ({
            let before = found_from(vs, i, query, want, filter, limit);
            let left = (limit - before.len()) as usize;
            &&& before.len() <= limit
            &&& found_from(vs.push(v), i, query, want, filter, limit) == before + (if left > 0 && (
            want is None || want == Some(v.drive_letter as char)) {
                v.found(query, filter, None, left)
            } else {
                Seq::empty()
            })
        }),
    decreases vs.len() - i,
{
    let ws = vs.push(v);
    let none = Seq::<ResultView>::empty();
    lemma_found_from_bounded(vs, i, query, want, filter, limit);
    if limit == 0 {
        assert(none + none =~= none);
    } else if i == vs.len() {
        assert(ws[i] == v);
        if want is None || want == Some(v.drive_letter as char) {
            let here = v.found(query, filter, None, limit as usize);
            search::law_limit_is_kept(v, query, filter, None, limit as usize);
            assert(found_from(ws, i + 1, query, want, filter, (limit - here.len()) as nat) == none);
            assert(here + none =~= none + here);
        } else {
            assert(found_from(ws, i + 1, query, want, filter, limit) == none);
            assert(none + none =~= none);
        }
    } else {
        assert(ws[i] == vs[i]);
        if want is Some && want != Some(vs[i].drive_letter as char) {
            lemma_found_from_push(vs, v, i + 1, query, want, filter, limit);
        } else {
            let here = vs[i].found(query, filter, None, limit as usize);
            search::law_limit_is_kept(vs[i], query, filter, None, limit as usize);
            let rest = (limit - here.len()) as nat;
            lemma_found_from_push(vs, v, i + 1, query, want, filter, rest);
            let behind = found_from(vs, i + 1, query, want, filter, rest);
            let last = if rest - behind.len() > 0 && (want is None || want == Some(
                v.drive_letter as char,
            )) {
                v.found(query, filter, None, (rest - behind.len()) as usize)
            } else {
                none
            };
            assert(here + (behind + last) =~= (here + behind) + last);
        }
    }
}

/// One more volume adds its results behind those of the others, as many as are
/// still asked for: all volumes are searched, one after the other. Where a letter
/// is asked for, as a capital or as a small letter, a volume with another letter
/// adds nothing. No volume has no result.
pub proof fn law_one_more_volume(
    vs: Seq<IndexView>,
    v: IndexView,
    query: Seq<u8>,
    drive: Option<char>,
    filter: Category,
    limit: usize,
)
    ensures
        ({
            let before = found_in(vs, query, drive, None, filter, limit);
            let left = (limit - before.len()) as usize;
            let asked = match drive {
                None => true,
                Some(d) => v.drive_letter as char == (if 'a' <= d && d <= 'z' {
                    (d as u32 - 32) as char
                } else {
                    d
                }),
            };
            &&& before.len() <= limit
            &&& found_in(vs.push(v), query, drive, None, filter, limit) == before + (if left > 0
                && asked {
                v.found(query, filter, None, left)
            } else {
                Seq::empty()
            })
        }),
        found_in(Seq::empty(), query, drive, None, filter, limit) == Seq::<ResultView>::empty(),
{
    lemma_found_from_push(vs, v, 0, query, wanted_letter(drive), filter, limit as nat);
}

proof fn lemma_all_volumes(
    vs: Seq<IndexView>,
    query: Seq<u8>,
    filter: Category,
    limit: usize,
    k: int,
    r: ResultView,
)
    requires
        0 <= k < vs.len(),
        vs[k].found(query, filter, None, limit).contains(r),
    ensures
        found_in(vs, query, None, None, filter, limit).contains(r) || found_in(
            vs,
            query,
            None,
            None,
            filter,
            limit,
        ).len() == limit,
    decreases vs.len(),
{
    let most = vs.drop_last();
    let v = vs.last();
    assert(vs =~= most.push(v));
    law_one_more_volume(most, v, query, None, filter, limit);
    law_results_within_limit(vs, query, None, None, filter, limit);
    let before = found_in(most, query, None, None, filter, limit);
    let all = found_in(vs, query, None, None, filter, limit);
    let left = (limit - before.len()) as usize;
    if k < most.len() {
        assert(most[k] == vs[k]);
        lemma_all_volumes(most, query, filter, limit, k, r);
        if before.contains(r) {
            let i = choose|i: int| 0 <= i < before.len() && before[i] == r;
            assert(all[i] == r);
        }
    } else if left > 0 {
        let here = v.found(query, filter, None, limit);
        let i = choose|i: int| 0 <= i < here.len() && here[i] == r;
        let hit = v.best(query, filter, None, limit)[i];
        let part = v.found(query, filter, None, left);
        if part.len() < left {
            search::lemma_smaller_limit(v, query, filter, None, left, limit);
            assert(part[i] == r);
            assert(all[before.len() + i] == r);
        } else {
            search::law_limit_is_kept(v, query, filter, None, left);
        }
    }
}

/// A search without a letter and without a folder covers every volume: what a
/// search of one volume alone shows is among its results, unless these are as many
/// as were asked for.
pub proof fn law_every_volume_is_covered(
    vs: Seq<IndexView>,
    query: Seq<u8>,
    filter: Category,
    limit: usize,
    k: int,
    r: ResultView,
)
    requires
        0 <= k < vs.len(),
        vs[k].found(query, filter, None, limit).contains(r),
        found_in(vs, query, None, None, filter, limit).len() < limit,
    ensures
        found_in(vs, query, None, None, filter, limit).contains(r),
{
    lemma_all_volumes(vs, query, filter, limit, k, r);
}

/// A search of a folder searches below that folder, on the first volume with the
/// letter that the path begins with, whatever letter is asked for besides. It has
/// no result where there is no such volume or no such folder.
pub proof fn law_folder_search_goes_below_the_folder(
    vs: Seq<IndexView>,
    at: int,
    query: Seq<u8>,
    drive: Option<char>,
    folder: Seq<char>,
    filter: Category,
    limit: usize,
)
    requires
        folder.len() > 0,
        0 <= at <= vs.len(),
        forall|k: int|
            0 <= k < at ==> (#[trigger] vs[k]).drive_letter as char != text::upper_char(folder[0]),
        at < vs.len() ==> vs[at].drive_letter as char == text::upper_char(folder[0]),
    ensures
        ({
            let found = found_in(vs, query, drive, Some(folder), filter, limit);
            &&& at == vs.len() ==> found.len() == 0
            &&& at < vs.len() ==> match model::dir_at(
                vs[at].nodes,
                vstd::utf8::encode_utf8(folder),
            ) {
                Some(id) => found == vs[at].found(query, filter, Some(id), limit),
                None => found.len() == 0,
            }
        }),
        found_in(vs, query, drive, Some(Seq::empty()), filter, limit).len() == 0,
{
    lemma_first_letter_at(vs, text::upper_char(folder[0]), 0, at);
}

proof fn lemma_first_letter_at(vs: Seq<IndexView>, letter: char, i: int, at: int)
    requires
        0 <= i <= at <= vs.len(),
        forall|k: int| i <= k < at ==> (#[trigger] vs[k]).drive_letter as char != letter,
        at < vs.len() ==> vs[at].drive_letter as char == letter,
    ensures
        first_with_letter(vs, letter, i) == (if at < vs.len() {
            Some(at)
        } else {
            None
        }),
    decreases at - i,
{
    if i < at {
        assert(vs[i].drive_letter as char != letter);
        lemma_first_letter_at(vs, letter, i + 1, at);
    }
}

/// An index that is brought up to date has the changes applied in their order and
/// is at the place that was reached, and is still that of its volume and journal.
pub proof fn law_following_applies_in_order(
    v: IndexView,
    cs: Seq<ChangeView>,
    c: ChangeView,
    next: i64,
)
    ensures
        followed(v, cs.push(c), next) == (IndexView {
            next_usn: next,
            ..followed(v, cs, next).applied(c)
        }),
        followed(v, Seq::empty(), next) == (IndexView { next_usn: next, ..v }),
        followed(v, cs, next).next_usn == next,
{
    assert(cs.push(c).drop_last() =~= cs);
    let w = v.applied_all(cs);
    assert((IndexView { next_usn: next, ..w }).applied(c) =~= (IndexView {
        next_usn: next,
        ..w.applied(c)
    }));
}

/// An index can be brought up to date exactly where the volume and the journal are
/// its own and the journal begins no later than the place that the index reached.
pub proof fn law_journal_must_reach_back(v: IndexView, serial: u64, journal_id: u64, first_usn: i64)
    ensures
        usn::followable(v, v.volume_serial, v.usn_journal_id, first_usn) <==> first_usn
            <= v.next_usn,
        serial != v.volume_serial || journal_id != v.usn_journal_id ==> !usn::followable(
            v,
            serial,
            journal_id,
            first_usn,
        ),
{
}

/// The file of a volume is named by its letter, as a capital, between `index_` and
/// `.ssidx`, so that volumes with other letters have other files.
pub proof fn law_file_is_named_by_the_letter(a: char, b: char)
    ensures
        cache_name(a).len() == 13,
        cache_name(a).take(6) == seq!['i', 'n', 'd', 'e', 'x', '_'],
        cache_name(a)[6] == text::upper_char(a),
        cache_name(a).skip(7) == seq!['.', 's', 's', 'i', 'd', 'x'],
        cache_name(a) == cache_name(b) <==> text::upper_char(a) == text::upper_char(b),
{
    assert(cache_name(a).take(6) =~= seq!['i', 'n', 'd', 'e', 'x', '_']);
    assert(cache_name(a).skip(7) =~= seq!['.', 's', 's', 'i', 'd', 'x']);
    assert(cache_name(b)[6] == text::upper_char(b));
}

/// One more volume adds its nodes to the number of nodes, and its place in the
/// journal to the places.
pub proof fn law_one_more_volume_counts(vs: Seq<IndexView>, v: IndexView)
    ensures
        node_sum(vs.push(v), (vs.len() + 1) as int) == node_sum(vs, vs.len() as int) + v.nodes.len(),
        node_sum(Seq::empty(), 0) == 0,
        positions(vs.push(v)) == positions(vs).push(
            (v.drive_letter as char, v.usn_journal_id, v.next_usn),
        ),
{
    lemma_node_sum_prefix(vs, v, vs.len() as int);
    assert(positions(vs.push(v)) =~= positions(vs).push(
        (v.drive_letter as char, v.usn_journal_id, v.next_usn),
    ));
}

proof fn lemma_node_sum_prefix(vs: Seq<IndexView>, v: IndexView, n: int)
    requires
        n <= vs.len(),
    ensures
        node_sum(vs.push(v), n) == node_sum(vs, n),
    decreases n,
{
    if n > 0 {
        lemma_node_sum_prefix(vs, v, n - 1);
        assert(vs.push(v)[n - 1] == vs[n - 1]);
    }
}

/// The catalog is made of the scans that succeeded, in their order.
pub proof fn law_failed_scans_are_left_out(scans: Seq<Option<Index>>, idx: Index)
    ensures
        scanned_views(scans.push(Some(idx)), (scans.len() + 1) as int) == scanned_views(
            scans,
            scans.len() as int,
        ).push(idx@),
        scanned_views(scans.push(None), (scans.len() + 1) as int) == scanned_views(
            scans,
            scans.len() as int,
        ),
        scanned_views(Seq::empty(), 0).len() == 0,
{
    lemma_scanned_prefix(scans, Some(idx), scans.len() as int);
    lemma_scanned_prefix(scans, None, scans.len() as int);
}

proof fn lemma_scanned_prefix(scans: Seq<Option<Index>>, x: Option<Index>, n: int)
    requires
        n <= scans.len(),
    ensures
        scanned_views(scans.push(x), n) == scanned_views(scans, n),
    decreases n,
{
    if n > 0 {
        lemma_scanned_prefix(scans, x, n - 1);
        assert(scans.push(x)[n - 1] == scans[n - 1]);
    }
}

/// A volume whose journal could be read has the changes applied in their order and
/// goes on from the new place; one whose journal could not be read stays as it was.
pub proof fn law_unread_journals_change_nothing(v: IndexView, cs: Vec<Change>, next: i64)
    ensures
        caught_up(v, None) == v,
        caught_up(v, Some((cs, next))).next_usn == next,
        caught_up(v, Some((cs, next))).nodes == v.applied_all(index::change_views(cs@)).nodes,
        caught_up(v, Some((cs, next))).by_frn == v.applied_all(index::change_views(cs@)).by_frn,
{
}

/// The changes in the replies are counted reply by reply, and a reply that did not
/// come counts for nothing.
pub proof fn law_changes_are_counted(
    replies: Seq<Option<JournalReply>>,
    cs: Vec<Change>,
    next: i64,
)
    ensures
        change_sum(replies.push(Some((cs, next))), (replies.len() + 1) as int) == change_sum(
            replies,
            replies.len() as int,
        ) + cs@.len(),
        change_sum(replies.push(None), (replies.len() + 1) as int) == change_sum(
            replies,
            replies.len() as int,
        ),
        change_sum(Seq::empty(), 0) == 0,
{
    lemma_change_sum_prefix(replies, Some((cs, next)), replies.len() as int);
    lemma_change_sum_prefix(replies, None, replies.len() as int);
}

proof fn lemma_change_sum_prefix(
    replies: Seq<Option<JournalReply>>,
    x: Option<JournalReply>,
    n: int,
)
    requires
        n <= replies.len(),
    ensures
        change_sum(replies.push(x), n) == change_sum(replies, n),
    decreases n,
{
    if n > 0 {
        lemma_change_sum_prefix(replies, x, n - 1);
        assert(replies.push(x)[n - 1] == replies[n - 1]);
    }
}

/// One more volume adds the bytes that it takes to the bytes of the others.
pub proof fn law_one_more_volume_takes_its_bytes(
    vs: Seq<IndexView>,
    capacities: Seq<usize>,
    v: IndexView,
    capacity: usize,
)
    requires
        capacities.len() == vs.len(),
    ensures
        ({
            let n = vs.len() as int;
            let before = byte_sum(vs, capacities, n);
            let own = 12 * v.nodes.len() + v.pool.len() + 12 * capacity;
            before + own <= usize::MAX ==> byte_sum(
                vs.push(v),
                capacities.push(capacity),
                n + 1,
            ) == before + own
        }),
        byte_sum(Seq::empty(), Seq::empty(), 0) == 0,
{
    let n = vs.len() as int;
    lemma_bytes_of_the_first(vs, capacities, v, capacity, n);
    lemma_byte_sum_positive(vs, capacities, n);
    index::law_bytes_of_an_index(v.nodes.len() as int, v.pool.len() as int, capacity as int);
}

proof fn lemma_bytes_of_the_first(
    vs: Seq<IndexView>,
    capacities: Seq<usize>,
    v: IndexView,
    capacity: usize,
    n: int,
)
    requires
        n <= vs.len(),
        capacities.len() == vs.len(),
    ensures
        byte_sum(vs.push(v), capacities.push(capacity), n) == byte_sum(vs, capacities, n),
    decreases n,
{
    if n > 0 {
        lemma_bytes_of_the_first(vs, capacities, v, capacity, n - 1);
        assert(vs.push(v)[n - 1] == vs[n - 1]);
        assert(capacities.push(capacity)[n - 1] == capacities[n - 1]);
    }
}

proof fn lemma_byte_sum_positive(vs: Seq<IndexView>, capacities: Seq<usize>, n: int)
    ensures
        0 <= byte_sum(vs, capacities, n),
    decreases n,
{
    if n > 0 {
        lemma_byte_sum_positive(vs, capacities, n - 1);
    }
}

} // verus!
