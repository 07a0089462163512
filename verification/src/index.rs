//! The index of one volume: built entry by entry, then kept up to date by
//! changes.

use std::collections::HashMap;

use vstd::prelude::*;
use vstd::slice::slice_subrange;

use crate::ascii;
use crate::locate;
use crate::model;
use crate::model::{
    ChangeView, IndexView, Layout, NodeView, BACKSLASH, FILE_ATTRIBUTE_DIRECTORY, FRN_MASK, IS_DELETED,
    IS_DIR, MAX_NAME, MAX_STEPS, NTFS_ROOT_FILE_NUMBER, ROOT_ID,
};
use crate::text;

verus! {

/// A change of the volume as the journal reports it.
#[derive(Debug, Clone)]
pub enum Change {
    /// An entry is there, new or renamed or changed.
    Upsert { frn: u64, parent_frn: u64, attrs: u32, name: String },
    /// An entry is gone.
    Delete { frn: u64 },
}

impl View for Change {
    type V = ChangeView;

    open spec fn view(&self) -> ChangeView {
        match self {
            Change::Upsert { frn, parent_frn, attrs, name } => ChangeView::Upsert {
                frn: *frn,
                parent_frn: *parent_frn,
                attrs: *attrs,
                name: name@,
            },
            Change::Delete { frn } => ChangeView::Delete { frn: *frn },
        }
    }
}

/// What a sequence of changes holds.
pub open spec fn change_views(cs: Seq<Change>) -> Seq<ChangeView> {
    Seq::new(cs.len(), |i: int| cs[i]@)
}

/// An entry that a builder was given.
#[verifier::ext_equal]
pub struct EntryView {
    pub name: Seq<u8>,
    pub parent_frn: u64,
    pub flags: u16,
}

/// What a builder was given so far: the entries, the store of their names, and
/// where in it the name of each begins.
#[verifier::ext_equal]
pub struct BuilderView {
    pub drive_letter: u8,
    pub entries: Seq<EntryView>,
    pub by_frn: Map<u64, u32>,
    pub offs: Seq<u32>,
    pub pool: Seq<u8>,
}

impl BuilderView {
    /// A builder that was given nothing: the root alone.
    pub open spec fn fresh(drive_letter: u8) -> BuilderView {
        BuilderView {
            drive_letter,
            entries: seq![EntryView { name: Seq::empty(), parent_frn: 0, flags: IS_DIR }],
            by_frn: Map::empty(),
            offs: seq![0],
            pool: Seq::empty(),
        }
    }

    /// The builder after one more entry.
    pub open spec fn pushed(
        self,
        frn: u64,
        parent_frn: u64,
        attrs: u32,
        name: Seq<char>,
    ) -> BuilderView {
        let bytes = vstd::utf8::encode_utf8(name);
        BuilderView {
            entries: self.entries.push(
                EntryView {
                    name: model::stored_name(bytes),
                    parent_frn,
                    flags: model::flags_of(attrs),
                },
            ),
            by_frn: self.by_frn.insert(frn, self.entries.len() as u32),
            offs: self.offs.push(self.pool.len() as u32),
            pool: self.pool + bytes,
            ..self
        }
    }

    /// Whether one more entry can be numbered and its name found again.
    pub open spec fn room(self) -> bool {
        self.entries.len() < u32::MAX && self.pool.len() <= u32::MAX
    }

    /// The parent of entry `i`: none of the root, and the root of an entry
    /// whose parent is unknown.
    pub open spec fn parent_of(self, i: int) -> u32 {
        if i == 0 {
            u32::MAX
        } else if self.by_frn.contains_key(self.entries[i].parent_frn) {
            self.by_frn[self.entries[i].parent_frn]
        } else {
            ROOT_ID
        }
    }

    /// The index of the entries.
    pub open spec fn finished(self) -> IndexView {
        IndexView {
            drive_letter: self.drive_letter,
            volume_serial: 0,
            usn_journal_id: 0,
            next_usn: 0,
            nodes: Seq::new(
                self.entries.len(),
                |i: int|
                    NodeView {
                        name: self.entries[i].name,
                        parent: self.parent_of(i),
                        flags: self.entries[i].flags,
                    },
            ),
            by_frn: self.by_frn,
            offs: self.offs,
            pool: self.pool,
            tombstones: 0,
        }
    }
}

/// Takes the entries of a volume one by one and makes an index of them.
pub struct IndexBuilder {
    names_off: Vec<u32>,
    names_len: Vec<u16>,
    parent_frn: Vec<u64>,
    flags: Vec<u16>,
    name_pool: Vec<u8>,
    frn_to_id: HashMap<u64, u32>,
    drive_letter: u8,
}

impl View for IndexBuilder {
    type V = BuilderView;

    closed spec fn view(&self) -> BuilderView {
        BuilderView {
            drive_letter: self.drive_letter,
            entries: Seq::new(
                self.names_off@.len(),
                |i: int|
                    EntryView {
                        name: self.name_pool@.subrange(
                            self.names_off@[i] as int,
                            self.names_off@[i] + self.names_len@[i],
                        ),
                        parent_frn: self.parent_frn@[i],
                        flags: self.flags@[i],
                    },
            ),
            by_frn: self.frn_to_id@,
            offs: self.names_off@,
            pool: self.name_pool@,
        }
    }
}

/// The bytes of a name that are kept.
fn kept_len(bytes: &[u8]) -> (n: u16)
    ensures
        n <= bytes@.len(),
        bytes@.take(n as int) == model::stored_name(bytes@),
{
    if bytes.len() <= MAX_NAME {
        assert(bytes@.take(bytes@.len() as int) =~= bytes@);
        bytes.len() as u16
    } else {
        u16::MAX
    }
}

impl IndexBuilder {
    /// The arrays have one entry each, names lie in the pool, the root is a
    /// folder, references lead to entries other than the root, no two to the
    /// same.
    pub closed spec fn wf(&self) -> bool {
        let n = self.names_off@.len();
        &&& 1 <= n <= u32::MAX
        &&& self.names_len@.len() == n
        &&& self.parent_frn@.len() == n
        &&& self.flags@.len() == n
        &&& forall|i: int|
            0 <= i < n ==> #[trigger] self.names_off@[i] + self.names_len@[i]
                <= self.name_pool@.len()
        &&& self.flags@[0] & IS_DIR != 0
        &&& forall|i: int| 0 <= i < n ==> #[trigger] self.flags@[i] & IS_DELETED == 0
        &&& forall|k: u64| #[trigger]
            self.frn_to_id@.contains_key(k) ==> 1 <= self.frn_to_id@[k] < n
        &&& forall|j: u64, k: u64| #[trigger]
            self.frn_to_id@.contains_key(j) && #[trigger] self.frn_to_id@.contains_key(k)
                && self.frn_to_id@[j] == self.frn_to_id@[k] ==> j == k
    }

    /// A builder for the volume with the given letter. It holds the root.
    pub fn new(drive_letter: u8) -> (b: IndexBuilder)
        ensures
            b.wf(),
            b@ == BuilderView::fresh(drive_letter),
    {
        let mut b = IndexBuilder {
            names_off: Vec::new(),
            names_len: Vec::new(),
            parent_frn: Vec::new(),
            flags: Vec::new(),
            name_pool: Vec::new(),
            frn_to_id: HashMap::new(),
            drive_letter,
        };
        b.names_off.push(0);
        b.names_len.push(0);
        b.parent_frn.push(0);
        b.flags.push(IS_DIR);
        proof {
            model::lemma_flag_bits(0);
            assert(b.name_pool@.subrange(0, 0) =~= Seq::<u8>::empty());
            assert(b@ =~= BuilderView::fresh(drive_letter));
        }
        b
    }

    /// Makes place for `n` more entries. What was given so far stays as it is; how
    /// much place there is then is up to the allocator and is not stated.
    pub fn reserve(&mut self, n: usize)
        requires
            old(self).wf(),
            old(self)@.entries.len() + n <= u32::MAX,
        ensures
            final(self).wf(),
            final(self)@ == old(self)@,
    {
        self.names_off.reserve(n);
        self.names_len.reserve(n);
        self.parent_frn.reserve(n);
        self.flags.reserve(n);
        self.frn_to_id.reserve(n);
    }

    /// Whether a file reference is that of the root folder.
    pub fn is_root_frn(frn: u64) -> (r: bool)
        ensures
            r == model::root_frn(frn),
    {
        (frn & FRN_MASK) == NTFS_ROOT_FILE_NUMBER
    }

    /// Whether one more entry can be numbered and its name found again.
    pub fn has_room(&self) -> (r: bool)
        requires
            self.wf(),
        ensures
            r == self@.room(),
    {
        self.names_off.len() < u32::MAX as usize && self.name_pool.len() <= u32::MAX as usize
    }

    /// Adds one entry.
    pub fn push(&mut self, frn: u64, parent_frn: u64, attrs: u32, name: &str)
        requires
            old(self).wf(),
            old(self)@.room(),
        ensures
            final(self).wf(),
            final(self)@ == old(self)@.pushed(frn, parent_frn, attrs, name@),
    {
        let id: u32 = self.names_len.len() as u32;
        let bytes = name.as_bytes();
        let off: u32 = self.name_pool.len() as u32;
        let len: u16 = kept_len(bytes);
        self.name_pool.extend_from_slice(bytes);
        self.names_off.push(off);
        self.names_len.push(len);
        let mut f: u16 = 0;
        if attrs & FILE_ATTRIBUTE_DIRECTORY != 0 {
            f = IS_DIR;
        }
        self.flags.push(f);
        self.parent_frn.push(parent_frn);
        self.frn_to_id.insert(frn, id);
        proof {
            model::lemma_flag_bits(0);
            let old_pool = old(self).name_pool@;
            assert(self.name_pool@ =~= old_pool + bytes@);
            let want = old(self)@.pushed(frn, parent_frn, attrs, name@).entries;
            assert forall|i: int| 0 <= i < want.len() implies #[trigger] self@.entries[i]
                == want[i] by {
                if i < old(self).names_off@.len() {
                    let o = self.names_off@[i] as int;
                    let e = self.names_off@[i] + self.names_len@[i];
                    assert(old(self).names_off@[i] + old(self).names_len@[i] <= old_pool.len());
                    assert(self.name_pool@.subrange(o, e) =~= old_pool.subrange(o, e));
                } else {
                    assert(self.name_pool@.subrange(off as int, off + len) =~= bytes@.take(
                        len as int,
                    ));
                }
            }
            assert(self@.entries =~= want);
            assert(self@ =~= old(self)@.pushed(frn, parent_frn, attrs, name@));
        }
    }

    /// The index of the entries given so far.
    pub fn finish(self) -> (r: Index)
        requires
            self.wf(),
        ensures
            r.wf(),
            r@ == self@.finished(),
            r@.consistent(),
    {
        let n: usize = self.names_len.len();
        let mut parent: Vec<u32> = Vec::with_capacity(n);
        let mut i: usize = 0;
        while i < n
            invariant
                self.wf(),
                n == self.names_len@.len(),
                i <= n,
                parent@.len() == i,
                forall|j: int| 0 <= j < i ==> #[trigger] parent@[j] == self@.parent_of(j),
            decreases n - i,
        {
            if i as u32 == ROOT_ID {
                parent.push(u32::MAX);
            } else {
                let p: u32 = match self.frn_to_id.get(&self.parent_frn[i]) {
                    Some(id) => *id,
                    None => ROOT_ID,
                };
                parent.push(p);
            }
            i += 1;
        }
        let ghost before = self@;
        let r = Index {
            names_off: self.names_off,
            names_len: self.names_len,
            parent,
            flags: self.flags,
            name_pool: self.name_pool,
            frn_to_id: self.frn_to_id,
            drive_letter: self.drive_letter,
            volume_serial: 0,
            usn_journal_id: 0,
            next_usn: 0,
            tombstones: 0,
        };
        proof {
            assert(r@.nodes =~= before.finished().nodes);
            lemma_none_deleted(r@.nodes);
            assert forall|i: int| 0 < i < r@.nodes.len() implies (#[trigger] r@.nodes[i]).parent
                != u32::MAX by {
                assert(before.finished().nodes[i].parent == before.parent_of(i));
            }
        }
        r
    }
}

proof fn lemma_none_deleted(nodes: Seq<NodeView>)
    requires
        forall|i: int| 0 <= i < nodes.len() ==> !(#[trigger] nodes[i]).deleted(),
    ensures
        model::count_deleted(nodes) == 0,
    decreases nodes.len(),
{
    if nodes.len() > 0 {
        assert forall|i: int| 0 <= i < nodes.len() - 1 implies !(
        #[trigger] nodes.drop_last()[i]).deleted() by {
            assert(!nodes[i].deleted());
        }
        lemma_none_deleted(nodes.drop_last());
    }
}

/// The index of one volume.
pub struct Index {
    names_off: Vec<u32>,
    names_len: Vec<u16>,
    parent: Vec<u32>,
    flags: Vec<u16>,
    name_pool: Vec<u8>,
    frn_to_id: HashMap<u64, u32>,
    drive_letter: u8,
    volume_serial: u64,
    usn_journal_id: u64,
    next_usn: i64,
    tombstones: u32,
}

impl View for Index {
    type V = IndexView;

    open spec fn view(&self) -> IndexView {
        self.layout().view()
    }
}

impl Index {
    /// The arrays of the index.
    pub closed spec fn layout(&self) -> Layout {
        Layout {
            drive_letter: self.drive_letter,
            volume_serial: self.volume_serial,
            usn_journal_id: self.usn_journal_id,
            next_usn: self.next_usn,
            names_off: self.names_off@,
            names_len: self.names_len@,
            parent: self.parent@,
            flags: self.flags@,
            name_pool: self.name_pool@,
            frn_to_id: self.frn_to_id@,
            tombstones: self.tombstones,
        }
    }

    /// The arrays fit each other.
    pub open spec fn wf(&self) -> bool {
        self.layout().ok()
    }
}

/// How many bytes an index with `nodes` nodes, `pool` bytes of names and a map
/// of references with room for `capacity` takes, as far as a `usize` can tell.
pub open spec fn footprint(nodes: int, pool: int, capacity: int) -> int {
    let sum = nodes * 12 + pool + capacity * 12;
    if sum <= usize::MAX {
        sum
    } else {
        usize::MAX as int
    }
}

/// The bytes that an index of the given extent takes.
pub fn footprint_bytes(nodes: usize, pool: usize, capacity: usize) -> (r: usize)
    ensures
        r == footprint(nodes as int, pool as int, capacity as int),
{
    let sum: u128 = nodes as u128 * 12 + pool as u128 + capacity as u128 * 12;
    if sum <= usize::MAX as u128 {
        sum as usize
    } else {
        usize::MAX
    }
}

/// `HashMap::capacity` of the standard library: how many entries the map can
/// hold without reallocating. It is no less than what the map holds, and as the
/// entries, of at least twelve bytes each, have their place in one allocation, it
/// is no more than such an allocation of `isize::MAX` bytes at most can hold. Which
/// number between the two it is depends on how the map was allocated and is not
/// stated.
#[verifier::external_body]
fn map_capacity(m: &HashMap<u64, u32>) -> (r: usize)
    ensures
        r >= m@.len(),
        r * 12 <= isize::MAX,
{
    m.capacity()
}

/// Fewer tombstones than this never call for a new index.
pub const REBUILD_MIN_TOMBSTONES: usize = 100_000;

impl IndexView {
    /// Whether so many nodes are tombstones that the index is to be built anew:
    /// more than the minimum, and more than a quarter of the live nodes.
    pub open spec fn stale(self) -> bool {
        self.tombstones > REBUILD_MIN_TOMBSTONES && 4 * self.tombstones > self.nodes.len()
            - self.tombstones
    }
}

/// An index has one node more than the entries that it was built of, the root,
/// and every entry that is added to the builder adds one.
pub proof fn law_length_counts_entries(
    b: BuilderView,
    drive_letter: u8,
    frn: u64,
    parent_frn: u64,
    attrs: u32,
    name: Seq<char>,
)
    ensures
        BuilderView::fresh(drive_letter).finished().nodes.len() == 1,
        b.pushed(frn, parent_frn, attrs, name).finished().nodes.len() == b.finished().nodes.len()
            + 1,
{
}

/// An index is to be built anew exactly where there are more tombstones than
/// the minimum and five times the tombstones outnumber the nodes.
pub proof fn law_stale_by_fifths(v: IndexView)
    ensures
        v.stale() <==> v.tombstones > REBUILD_MIN_TOMBSTONES && v.tombstones * 5 > v.nodes.len(),
{
}

impl Index {
    /// How many nodes there are, the root and the deleted ones counted.
    pub fn len(&self) -> (n: usize)
        requires
            self.wf(),
        ensures
            n == self@.nodes.len(),
    {
        self.names_len.len()
    }

    /// Whether there is nothing but the root.
    pub fn is_empty(&self) -> (r: bool)
        requires
            self.wf(),
        ensures
            r == (self@.nodes.len() <= 1),
    {
        self.len() <= 1
    }

    /// How many bytes the index takes.
    pub fn memory_bytes(&self) -> (r: usize)
        requires
            self.wf(),
        ensures
            exists|capacity: usize|
                capacity >= self@.by_frn.len() && capacity * 12 <= isize::MAX
                    && #[trigger] footprint(
                    self@.nodes.len() as int,
                    self@.pool.len() as int,
                    capacity as int,
                ) == r,
    {
        let capacity: usize = map_capacity(&self.frn_to_id);
        let r: usize = footprint_bytes(self.names_off.len(), self.name_pool.len(), capacity);
        assert(footprint(self@.nodes.len() as int, self@.pool.len() as int, capacity as int) == r);
        r
    }

    /// Whether the index is to be built anew to win memory back.
    pub fn needs_rebuild(&self) -> (r: bool)
        requires
            self.wf(),
        ensures
            r == self@.stale(),
    {
        let t: u64 = self.tombstones as u64;
        t > REBUILD_MIN_TOMBSTONES as u64 && t * 5 > self.len() as u64
    }

    /// How many nodes were deleted and still hold their place.
    pub fn tombstones(&self) -> (r: u32)
        ensures
            r == self@.tombstones,
    {
        self.tombstones
    }

    /// The letter of the volume.
    pub fn drive_letter(&self) -> (r: char)
        ensures
            r == self@.drive_letter as char,
    {
        self.drive_letter as char
    }

    /// The serial number of the volume.
    pub fn volume_serial(&self) -> (r: u64)
        ensures
            r == self@.volume_serial,
    {
        self.volume_serial
    }

    /// The journal that the index follows.
    pub fn usn_journal_id(&self) -> (r: u64)
        ensures
            r == self@.usn_journal_id,
    {
        self.usn_journal_id
    }

    /// Where in the journal the changes begin that the index has not seen.
    pub fn next_usn(&self) -> (r: i64)
        ensures
            r == self@.next_usn,
    {
        self.next_usn
    }

    /// Sets the volume, the journal and the place in the journal.
    pub fn set_usn_state(&mut self, volume_serial: u64, usn_journal_id: u64, next_usn: i64)
        requires
            old(self).wf(),
        ensures
            final(self).wf(),
            final(self)@ == (IndexView { volume_serial, usn_journal_id, next_usn, ..old(self)@ }),
            final(self).layout() == (Layout {
                volume_serial,
                usn_journal_id,
                next_usn,
                ..old(self).layout()
            }),
    {
        self.volume_serial = volume_serial;
        self.usn_journal_id = usn_journal_id;
        self.next_usn = next_usn;
        assert(self@.nodes =~= old(self)@.nodes);
    }

    /// Sets the place in the journal.
    pub fn set_next_usn(&mut self, next_usn: i64)
        requires
            old(self).wf(),
        ensures
            final(self).wf(),
            final(self)@ == (IndexView { next_usn, ..old(self)@ }),
    {
        self.next_usn = next_usn;
        assert(self@.nodes =~= old(self)@.nodes);
    }

    /// The bytes of a node's name.
    pub fn name_bytes(&self, id: u32) -> (r: &[u8])
        requires
            self.wf(),
            id < self@.nodes.len(),
        ensures
            r@ == self@.nodes[id as int].name,
    {
        let off: usize = self.names_off[id as usize] as usize;
        let len: usize = self.names_len[id as usize] as usize;
        let pool = self.name_pool.as_slice();
        assert(pool@.len() == pool.len());
        assert(self.layout().names_off[id as int] + self.layout().names_len[id as int]
            <= self.layout().name_pool.len());
        slice_subrange(pool, off, off + len)
    }

    /// The name of a node.
    pub fn name(&self, id: u32) -> (r: String)
        requires
            self.wf(),
            id < self@.nodes.len(),
        ensures
            r@ == text::utf8_lossy(self@.nodes[id as int].name),
            vstd::utf8::valid_utf8(self@.nodes[id as int].name) ==> r@
                == vstd::utf8::decode_utf8(self@.nodes[id as int].name),
    {
        text::decode_lossy(self.name_bytes(id))
    }

    /// Whether a node is a folder.
    pub fn is_dir(&self, id: u32) -> (r: bool)
        requires
            self.wf(),
            id < self@.nodes.len(),
        ensures
            r == self@.nodes[id as int].dir(),
    {
        self.flags[id as usize] & IS_DIR != 0
    }

    /// Whether a node was deleted.
    pub fn is_deleted(&self, id: u32) -> (r: bool)
        requires
            self.wf(),
            id < self@.nodes.len(),
        ensures
            r == self@.nodes[id as int].deleted(),
    {
        self.flags[id as usize] & IS_DELETED != 0
    }

    /// The parent of a node.
    fn parent_of(&self, id: u32) -> (r: u32)
        requires
            self.wf(),
            id < self@.nodes.len(),
        ensures
            r == self@.nodes[id as int].parent,
            r == u32::MAX || r < self@.nodes.len(),
    {
        proof {
            self.layout().lemma_valid();
        }
        let r: u32 = self.parent[id as usize];
        assert(self@.nodes[id as int].parent == r);
        r
    }

    /// The full path of a node.
    pub fn path(&self, id: u32) -> (r: String)
        requires
            self.wf(),
            id == u32::MAX || id < self@.nodes.len(),
        ensures
            r@ == self@.path_text(id),
            (forall|k: int|
                0 <= k < model::lineage(self@.nodes, id, MAX_STEPS as nat).len()
                    ==> vstd::utf8::valid_utf8(
                    self@.nodes[(#[trigger] model::lineage(
                        self@.nodes,
                        id,
                        MAX_STEPS as nat,
                    )[k]) as int].name,
                )) ==> r@ == locate::plain_path(self@, id),
    {
        let ghost nodes = self@.nodes;
        let ghost way = model::lineage(nodes, id, MAX_STEPS as nat);
        let mut up: Vec<u32> = Vec::new();
        let mut cur: u32 = id;
        let mut guard: u32 = 0;
        while cur != u32::MAX && cur != ROOT_ID && guard < MAX_STEPS
            invariant
                self.wf(),
                nodes == self@.nodes,
                guard <= MAX_STEPS,
                up@.len() == guard,
                cur == u32::MAX || cur < nodes.len(),
                forall|j: int| 0 <= j < up@.len() ==> #[trigger] up@[j] < nodes.len(),
                way == model::lineage(nodes, cur, (MAX_STEPS - guard) as nat) + up@.reverse(),
            decreases MAX_STEPS - guard,
        {
            let ghost rest = model::lineage(nodes, cur, (MAX_STEPS - guard) as nat);
            let ghost before = up@;
            up.push(cur);
            cur = self.parent_of(cur);
            guard += 1;
            proof {
                let shorter = model::lineage(nodes, cur, (MAX_STEPS - guard) as nat);
                assert(rest == shorter.push(up@.last()));
                assert(rest + before.reverse() =~= shorter + up@.reverse());
            }
        }
        assert(way =~= up@.reverse());
        let ghost names = Seq::new(
            way.len(),
            |i: int| text::utf8_lossy(nodes[way[i] as int].name),
        );
        let mut parts: Vec<String> = Vec::new();
        let mut i: usize = 0;
        while i < up.len()
            invariant
                self.wf(),
                nodes == self@.nodes,
                i <= up@.len(),
                way == up@.reverse(),
                forall|j: int| 0 <= j < up@.len() ==> #[trigger] up@[j] < nodes.len(),
                parts@.len() == i,
                forall|j: int|
                    0 <= j < i ==> (#[trigger] parts@[j])@ == text::utf8_lossy(
                        nodes[way[j] as int].name,
                    ),
                forall|j: int|
                    0 <= j < i && vstd::utf8::valid_utf8(nodes[way[j] as int].name)
                        ==> (#[trigger] parts@[j])@ == vstd::utf8::decode_utf8(
                        nodes[way[j] as int].name,
                    ),
            decreases up@.len() - i,
        {
            let k: usize = up.len() - 1 - i;
            assert(way[i as int] == up@[k as int]);
            parts.push(text::decode_lossy(self.name_bytes(up[k])));
            i += 1;
        }
        let mut head = String::new();
        head.push(self.drive_letter());
        head.push(':');
        head.push('\\');
        proof {
            assert(head@ =~= seq![self@.drive_letter as char, ':', '\\']);
            assert(text::string_views(parts@) =~= names);
            if forall|k: int|
                0 <= k < way.len() ==> vstd::utf8::valid_utf8(
                    nodes[(#[trigger] way[k]) as int].name,
                ) {
                assert forall|k: int| 0 <= k < way.len() implies (#[trigger] parts@[k])@
                    == vstd::utf8::decode_utf8(nodes[way[k] as int].name) by {
                    assert(vstd::utf8::valid_utf8(nodes[way[k] as int].name));
                }
                assert(text::string_views(parts@) =~= locate::plain_names(nodes, way));
            }
        }
        text::join_parts(head, parts.as_slice(), '\\')
    }

    /// How deep below the root a node stands.
    pub fn depth_of(&self, id: u32) -> (d: u16)
        requires
            self.wf(),
            id == u32::MAX || id < self@.nodes.len(),
        ensures
            d == model::depth(self@.nodes, id),
    {
        let ghost nodes = self@.nodes;
        let mut d: u16 = 0;
        let mut cur: u32 = id;
        while cur != u32::MAX && cur != ROOT_ID && (d as u32) < MAX_STEPS
            invariant
                self.wf(),
                nodes == self@.nodes,
                d <= MAX_STEPS,
                cur == u32::MAX || cur < nodes.len(),
                model::lineage(nodes, id, MAX_STEPS as nat).len() == model::lineage(
                    nodes,
                    cur,
                    (MAX_STEPS - d) as nat,
                ).len() + d,
            decreases MAX_STEPS - d,
        {
            d += 1;
            cur = self.parent_of(cur);
        }
        d
    }

    /// Whether `node` is `ancestor` or stands below it.
    pub fn is_descendant(&self, node: u32, ancestor: u32) -> (r: bool)
        requires
            self.wf(),
            node == u32::MAX || node < self@.nodes.len(),
        ensures
            r == model::under(self@.nodes, node, ancestor, MAX_STEPS as nat),
    {
        let ghost nodes = self@.nodes;
        let mut cur: u32 = node;
        let mut guard: u32 = 0;
        while cur != u32::MAX && guard < MAX_STEPS
            invariant
                self.wf(),
                nodes == self@.nodes,
                guard <= MAX_STEPS,
                cur == u32::MAX || cur < nodes.len(),
                model::under(nodes, node, ancestor, MAX_STEPS as nat) == model::under(
                    nodes,
                    cur,
                    ancestor,
                    (MAX_STEPS - guard) as nat,
                ),
            decreases MAX_STEPS - guard,
        {
            if cur == ancestor {
                return true;
            }
            cur = self.parent_of(cur);
            guard += 1;
        }
        false
    }

    /// The first folder right below `parent_id` with the given name, the case
    /// of ASCII letters aside.
    fn find_child_dir(&self, parent_id: u32, name: &[u8]) -> (r: Option<u32>)
        requires
            self.wf(),
        ensures
            r == model::first_child_dir(self@.nodes, parent_id, name@, 1),
            r matches Some(id) ==> id < self@.nodes.len(),
    {
        let n: u32 = self.names_len.len() as u32;
        let mut id: u32 = 1;
        while id < n
            invariant
                self.wf(),
                n == self@.nodes.len(),
                1 <= id,
                model::first_child_dir(self@.nodes, parent_id, name@, 1)
                    == model::first_child_dir(self@.nodes, parent_id, name@, id as int),
            decreases n - id,
        {
            if self.parent_of(id) == parent_id && self.is_dir(id) && ascii::eq_fold(
                self.name_bytes(id),
                name,
            ) {
                return Some(id);
            }
            id += 1;
        }
        None
    }

    /// The folder that a full path such as `D:\AI\pr-re` leads to.
    pub fn find_dir_by_path(&self, path: &str) -> (r: Option<u32>)
        requires
            self.wf(),
        ensures
            r == model::dir_at(self@.nodes, vstd::utf8::encode_utf8(path@)),
            r matches Some(id) ==> id < self@.nodes.len() && (self@.nodes[0].dir()
                ==> self@.nodes[id as int].dir()),
    {
        proof {
            if self@.nodes[0].dir() {
                locate::law_path_leads_to_a_folder(
                    self@.nodes,
                    vstd::utf8::encode_utf8(path@),
                );
            }
        }
        let bytes = path.as_bytes();
        let n: usize = ascii::trimmed_len(bytes, BACKSLASH);
        let trimmed = slice_subrange(bytes, 0, n);
        assert(trimmed@ =~= bytes@.take(n as int));
        let comps = ascii::split_at_byte(trimmed, BACKSLASH);
        let ghost parts = ascii::views(comps@);
        let mut cur: u32 = ROOT_ID;
        let mut i: usize = 1;
        while i < comps.len()
            invariant
                self.wf(),
                parts == ascii::views(comps@),
                1 <= i,
                cur < self@.nodes.len(),
                model::dir_at(self@.nodes, vstd::utf8::encode_utf8(path@)) == model::walk(
                    self@.nodes,
                    cur,
                    parts,
                    i as int,
                ),
            decreases comps@.len() - i,
        {
            assert(parts[i as int] == comps@[i as int]@);
            if comps[i].len() > 0 {
                match self.find_child_dir(cur, comps[i].as_slice()) {
                    Some(id) => {
                        cur = id;
                    },
                    None => {
                        return None;
                    },
                }
            }
            i += 1;
        }
        Some(cur)
    }
}

/// The node that a reference leads to in an index.
spec fn ref_in(v: IndexView, frn: u64) -> Option<u32> {
    if v.by_frn.contains_key(frn) {
        Some(v.by_frn[frn])
    } else {
        None
    }
}

/// The node that a reference leads to after changes to an index that touched the
/// given references.
spec fn ref_now(v: IndexView, refs: Map<u64, Option<u32>>, frn: u64) -> Option<u32> {
    if refs.contains_key(frn) {
        refs[frn]
    } else {
        ref_in(v, frn)
    }
}

/// Whether a node is deleted after changes to an index that touched the given
/// nodes.
spec fn dead_now(v: IndexView, dead: Map<u32, bool>, id: u32) -> bool {
    if dead.contains_key(id) {
        dead[id]
    } else {
        v.nodes[id as int].deleted()
    }
}

/// Whether the index `w` came of `v` by changes that touched the given references
/// and nodes, as far as references and deleted nodes go.
spec fn touched(
    v: IndexView,
    w: IndexView,
    refs: Map<u64, Option<u32>>,
    dead: Map<u32, bool>,
) -> bool {
    &&& v.nodes.len() <= w.nodes.len()
    &&& forall|k: u64| #[trigger] ref_now(v, refs, k) == ref_in(w, k)
    &&& forall|id: u32|
        id < w.nodes.len() ==> #[trigger] dead_now(v, dead, id) == w.nodes[id as int].deleted() && (
        dead.contains_key(id) || id < v.nodes.len())
}

/// One more change touches its reference and the node that it leads to.
proof fn lemma_touched(
    v: IndexView,
    w: IndexView,
    c: ChangeView,
    refs: Map<u64, Option<u32>>,
    dead: Map<u32, bool>,
    new_refs: Map<u64, Option<u32>>,
    new_dead: Map<u32, bool>,
)
    requires
        w.valid(),
        w.room_for(c),
        touched(v, w, refs, dead),
        match c {
            ChangeView::Delete { frn } => match ref_in(w, frn) {
                Some(id) => new_refs == refs.insert(frn, None) && new_dead == dead.insert(id, true),
                None => new_refs == refs && new_dead == dead,
            },
            ChangeView::Upsert { frn, .. } => if model::root_frn(frn) {
                new_refs == refs && new_dead == dead
            } else {
                match ref_in(w, frn) {
                    Some(id) => new_refs == refs && new_dead == dead.insert(id, false),
                    None => {
                        let id = w.nodes.len() as u32;
                        new_refs == refs.insert(frn, Some(id)) && new_dead == dead.insert(id, false)
                    },
                }
            },
        },
    ensures
        touched(v, w.applied(c), new_refs, new_dead),
{
    let x = w.applied(c);
    model::lemma_flag_bits(0);
    if let ChangeView::Delete { frn } = c {
        if w.by_frn.contains_key(frn) {
            model::lemma_flag_bits(w.nodes[w.by_frn[frn] as int].flags);
        }
    }
    assert forall|k: u64| #[trigger] ref_now(v, new_refs, k) == ref_in(x, k) by {
        assert(ref_now(v, refs, k) == ref_in(w, k));
    }
    assert forall|id: u32| id < x.nodes.len() implies #[trigger] dead_now(v, new_dead, id)
        == x.nodes[id as int].deleted() && (new_dead.contains_key(id) || id < v.nodes.len()) by {
        if id < w.nodes.len() {
            assert(dead_now(v, dead, id) == w.nodes[id as int].deleted());
        }
    }
}

impl Index {
    /// Whether there is room for all the changes, one after the other. It is tried
    /// with the references and flags that the changes touch alone; the index is
    /// left as it is.
    pub fn has_room_for_all(&self, changes: &[Change]) -> (r: bool)
        requires
            self.wf(),
        ensures
            r == self@.room_for_all(change_views(changes@)),
    {
        let ghost v = self@;
        let ghost all = change_views(changes@);
        let ghost mut w = v;
        let mut refs: HashMap<u64, Option<u32>> = HashMap::new();
        let mut dead: HashMap<u32, bool> = HashMap::new();
        let mut n: u32 = self.names_len.len() as u32;
        let mut pool: u128 = self.name_pool.len() as u128;
        let mut tombstones: u32 = self.tombstones;
        let mut i: usize = 0;
        proof {
            self.layout().lemma_valid();
            assert(all.take(0) =~= Seq::empty());
        }
        while i < changes.len()
            invariant
                i <= changes.len(),
                self.wf(),
                v == self@,
                all == change_views(changes@),
                w == v.applied_all(all.take(i as int)),
                v.room_for_all(all.take(i as int)),
                w.valid(),
                n == w.nodes.len(),
                pool == w.pool.len(),
                pool <= u32::MAX + usize::MAX,
                tombstones == w.tombstones,
                touched(v, w, refs@, dead@),
            decreases changes.len() - i,
        {
            let ghost c = all[i as int];
            let ghost before = w;
            let ghost old_refs = refs@;
            let ghost old_dead = dead@;
            proof {
                assert(all.take(i + 1).drop_last() =~= all.take(i as int));
                assert(all.take(i + 1).last() == c);
                if v.room_for_all(all) {
                    lemma_room_prefix(v, all, i + 1);
                }
            }
            match &changes[i] {
                Change::Delete { frn } => {
                    let frn: u64 = *frn;
                    assert(ref_now(v, refs@, frn) == ref_in(w, frn));
                    if let Some(id) = self.ref_after(&refs, frn) {
                        assert(w.by_frn.contains_key(frn));
                        if !self.dead_after(&dead, id, Ghost(w), Ghost(refs@)) {
                            if tombstones == u32::MAX {
                                return false;
                            }
                            tombstones += 1;
                        }
                        dead.insert(id, true);
                        refs.insert(frn, None);
                    }
                },
                Change::Upsert { frn, name, .. } => {
                    let frn: u64 = *frn;
                    if !IndexBuilder::is_root_frn(frn) {
                        assert(ref_now(v, refs@, frn) == ref_in(w, frn));
                        if pool > u32::MAX as u128 {
                            return false;
                        }
                        match self.ref_after(&refs, frn) {
                            Some(id) => {
                                dead.insert(id, false);
                            },
                            None => {
                                if n == u32::MAX {
                                    return false;
                                }
                                refs.insert(frn, Some(n));
                                dead.insert(n, false);
                                n += 1;
                            },
                        }
                        pool = pool + name.as_str().as_bytes().len() as u128;
                    }
                },
            }
            proof {
                w = before.applied(c);
                model::law_change_keeps_validity(before, c);
                lemma_touched(v, before, c, old_refs, old_dead, refs@, dead@);
            }
            i += 1;
        }
        assert(all.take(i as int) =~= all);
        true
    }

    /// The node that a reference leads to after changes that touched the given
    /// references.
    fn ref_after(&self, refs: &HashMap<u64, Option<u32>>, frn: u64) -> (r: Option<u32>)
        ensures
            r == ref_now(self@, refs@, frn),
    {
        match refs.get(&frn) {
            Some(now) => *now,
            None => match self.frn_to_id.get(&frn) {
                Some(id) => Some(*id),
                None => None,
            },
        }
    }

    /// Whether a node is deleted after changes that touched the given nodes.
    fn dead_after(
        &self,
        dead: &HashMap<u32, bool>,
        id: u32,
        Ghost(w): Ghost<IndexView>,
        Ghost(refs): Ghost<Map<u64, Option<u32>>>,
    ) -> (r: bool)
        requires
            self.wf(),
            id < w.nodes.len(),
            touched(self@, w, refs, dead@),
        ensures
            r == w.nodes[id as int].deleted(),
    {
        assert(dead_now(self@, dead@, id) == w.nodes[id as int].deleted());
        match dead.get(&id) {
            Some(now) => *now,
            None => self.is_deleted(id),
        }
    }

    /// Whether there is room for the change.
    pub fn has_room(&self, change: &Change) -> (r: bool)
        requires
            self.wf(),
        ensures
            r == self@.room_for(change@),
    {
        match change {
            Change::Delete { frn } => match self.frn_to_id.get(frn) {
                Some(id) => {
                    let id: u32 = *id;
                    assert(self.layout().frn_to_id.contains_key(*frn));
                    self.tombstones < u32::MAX || self.is_deleted(id)
                },
                None => true,
            },
            Change::Upsert { frn, .. } => {
                IndexBuilder::is_root_frn(*frn) || (self.name_pool.len() <= u32::MAX as usize && (
                self.frn_to_id.contains_key(frn) || self.names_len.len() < u32::MAX as usize))
            },
        }
    }

    /// Puts the name behind the others and returns where it stands and how many
    /// bytes of it are kept.
    fn add_name(&mut self, name: &str) -> (r: (u32, u16))
        requires
            old(self).wf(),
            old(self)@.pool.len() <= u32::MAX,
        ensures
            final(self).wf(),
            final(self).layout() == (Layout {
                name_pool: old(self).layout().name_pool + vstd::utf8::encode_utf8(name@),
                ..old(self).layout()
            }),
            r.0 == old(self).layout().name_pool.len(),
            r.0 + r.1 <= final(self).layout().name_pool.len(),
            final(self).layout().name_pool.subrange(r.0 as int, r.0 + r.1) == model::stored_name(
                vstd::utf8::encode_utf8(name@),
            ),
            final(self)@ == (IndexView {
                pool: old(self)@.pool + vstd::utf8::encode_utf8(name@),
                ..old(self)@
            }),
    {
        let bytes = name.as_bytes();
        let off: u32 = self.name_pool.len() as u32;
        let len: u16 = kept_len(bytes);
        self.name_pool.extend_from_slice(bytes);
        proof {
            let a = old(self).layout();
            let b = self.layout();
            assert(b.name_pool =~= a.name_pool + bytes@);
            assert(b.name_pool.subrange(off as int, off + len) =~= bytes@.take(len as int));
            assert forall|i: int| 0 <= i < a.names_off.len() implies #[trigger] self@.nodes[i]
                == old(self)@.nodes[i] by {
                let o = a.names_off[i] as int;
                let e = a.names_off[i] + a.names_len[i];
                assert(b.name_pool.subrange(o, e) =~= a.name_pool.subrange(o, e));
            }
            assert(self@.nodes =~= old(self)@.nodes);
        }
        (off, len)
    }

    /// The node that a reference leads to, and the root for an unknown one.
    fn resolve_parent(&self, parent_frn: u64) -> (r: u32)
        requires
            self.wf(),
        ensures
            r == self@.resolve(parent_frn),
            r < self@.nodes.len(),
    {
        match self.frn_to_id.get(&parent_frn) {
            Some(id) => {
                assert(self.layout().frn_to_id.contains_key(parent_frn));
                *id
            },
            None => ROOT_ID,
        }
    }

    /// Applies one change.
    pub fn apply(&mut self, change: &Change)
        requires
            old(self).wf(),
            old(self)@.room_for(change@),
        ensures
            final(self).wf(),
            final(self)@ == old(self)@.applied(change@),
            old(self)@.consistent() ==> final(self)@.consistent(),
    {
        proof {
            old(self).layout().lemma_valid();
            if old(self)@.consistent() {
                model::law_change_keeps_consistency(old(self)@, change@);
            }
        }
        match change {
            Change::Delete { frn } => {
                let found: Option<u32> = match self.frn_to_id.get(frn) {
                    Some(id) => Some(*id),
                    None => None,
                };
                if let Some(id) = found {
                    assert(self.layout().frn_to_id.contains_key(*frn));
                    let f: u16 = self.flags[id as usize];
                    if f & IS_DELETED == 0 {
                        self.tombstones = self.tombstones + 1;
                    }
                    self.flags.set(id as usize, f | IS_DELETED);
                    self.frn_to_id.remove(frn);
                    assert(self@.nodes =~= old(self)@.applied(change@).nodes);
                }
            },
            Change::Upsert { frn, parent_frn, attrs, name } => {
                if IndexBuilder::is_root_frn(*frn) {
                    return;
                }
                let parent_id: u32 = self.resolve_parent(*parent_frn);
                let is_dir: bool = *attrs & FILE_ATTRIBUTE_DIRECTORY != 0;
                let f: u16 = if is_dir {
                    IS_DIR
                } else {
                    0
                };
                let found: Option<u32> = match self.frn_to_id.get(frn) {
                    Some(id) => Some(*id),
                    None => None,
                };
                let (off, len) = self.add_name(name.as_str());
                let ghost mid = *self;
                if let Some(id) = found {
                    assert(self.layout().frn_to_id.contains_key(*frn));
                    self.names_off.set(id as usize, off);
                    self.names_len.set(id as usize, len);
                    self.parent.set(id as usize, parent_id);
                    self.flags.set(id as usize, f);
                    proof {
                        let want = old(self)@.applied(change@).nodes;
                        assert forall|i: int| 0 <= i < want.len() implies #[trigger] self@.nodes[i]
                            == want[i] by {
                            if i != id {
                                assert(mid@.nodes[i] == old(self)@.nodes[i]);
                                assert(self.layout().node(i) == mid.layout().node(i));
                            }
                        }
                        assert(self@.nodes =~= want);
                    }
                } else {
                    let id: u32 = self.names_len.len() as u32;
                    self.names_off.push(off);
                    self.names_len.push(len);
                    self.parent.push(parent_id);
                    self.flags.push(f);
                    self.frn_to_id.insert(*frn, id);
                    proof {
                        let want = old(self)@.applied(change@).nodes;
                        assert forall|i: int| 0 <= i < want.len() implies #[trigger] self@.nodes[i]
                            == want[i] by {
                            if i < mid@.nodes.len() {
                                assert(mid@.nodes[i] == old(self)@.nodes[i]);
                                assert(self.layout().node(i) == mid.layout().node(i));
                            }
                        }
                        assert(self@.nodes =~= want);
                    }
                }
            },
        }
    }

    /// Applies the changes, one after the other.
    pub fn apply_all(&mut self, changes: &[Change])
        requires
            old(self).wf(),
            old(self)@.room_for_all(change_views(changes@)),
        ensures
            final(self).wf(),
            final(self)@ == old(self)@.applied_all(change_views(changes@)),
            old(self)@.consistent() ==> final(self)@.consistent(),
    {
        proof {
            old(self).layout().lemma_valid();
            if old(self)@.consistent() {
                model::law_changes_keep_consistency(old(self)@, change_views(changes@));
            }
        }
        let ghost all = change_views(changes@);
        let mut i: usize = 0;
        while i < changes.len()
            invariant
                i <= changes.len(),
                all == change_views(changes@),
                old(self)@.room_for_all(all),
                self.wf(),
                self@ == old(self)@.applied_all(all.take(i as int)),
            decreases changes.len() - i,
        {
            proof {
                lemma_room_prefix(old(self)@, all, i + 1);
                assert(all.take(i + 1).drop_last() =~= all.take(i as int));
            }
            self.apply(&changes[i]);
            i += 1;
        }
        assert(all.take(i as int) =~= all);
    }
}

proof fn lemma_room_prefix(v: IndexView, cs: Seq<ChangeView>, k: int)
    requires
        v.room_for_all(cs),
        0 <= k <= cs.len(),
    ensures
        v.room_for_all(cs.take(k)),
    decreases cs.len(),
{
    if k == cs.len() {
        assert(cs.take(k) =~= cs);
    } else {
        lemma_room_prefix(v, cs.drop_last(), k);
        assert(cs.drop_last().take(k) =~= cs.take(k));
    }
}

impl Index {
    /// Where each name begins.
    pub(crate) fn names_off(&self) -> (r: &[u32])
        ensures
            r@ == self.layout().names_off,
    {
        self.names_off.as_slice()
    }

    /// How long each name is.
    pub(crate) fn names_len(&self) -> (r: &[u16])
        ensures
            r@ == self.layout().names_len,
    {
        self.names_len.as_slice()
    }

    /// The parents.
    pub(crate) fn parents(&self) -> (r: &[u32])
        ensures
            r@ == self.layout().parent,
    {
        self.parent.as_slice()
    }

    /// The flags.
    pub(crate) fn flags(&self) -> (r: &[u16])
        ensures
            r@ == self.layout().flags,
    {
        self.flags.as_slice()
    }

    /// The bytes of the names.
    pub(crate) fn name_pool(&self) -> (r: &[u8])
        ensures
            r@ == self.layout().name_pool,
    {
        self.name_pool.as_slice()
    }

    /// The nodes by reference.
    pub(crate) fn frn_to_id(&self) -> (r: &HashMap<u64, u32>)
        ensures
            r@ == self.layout().frn_to_id,
    {
        &self.frn_to_id
    }

    /// The letter of the volume as a byte.
    pub(crate) fn drive_byte(&self) -> (r: u8)
        ensures
            r == self.layout().drive_letter,
    {
        self.drive_letter
    }

    /// The index with the given arrays.
    pub(crate) fn from_arrays(
        names_off: Vec<u32>,
        names_len: Vec<u16>,
        parent: Vec<u32>,
        flags: Vec<u16>,
        name_pool: Vec<u8>,
        frn_to_id: HashMap<u64, u32>,
        drive_letter: u8,
        tombstones: u32,
    ) -> (r: Index)
        ensures
            r.layout() == (Layout {
                drive_letter,
                volume_serial: 0,
                usn_journal_id: 0,
                next_usn: 0,
                names_off: names_off@,
                names_len: names_len@,
                parent: parent@,
                flags: flags@,
                name_pool: name_pool@,
                frn_to_id: frn_to_id@,
                tombstones,
            }),
    {
        Index {
            names_off,
            names_len,
            parent,
            flags,
            name_pool,
            frn_to_id,
            drive_letter,
            volume_serial: 0,
            usn_journal_id: 0,
            next_usn: 0,
            tombstones,
        }
    }
}

/// What a builder is given becomes a node: with the name, a folder where the
/// attributes say so, and known by its reference, in the place of an earlier entry
/// with the same. The entries before it stay.
pub proof fn law_pushed_entry_is_there(
    b: BuilderView,
    frn: u64,
    parent_frn: u64,
    attrs: u32,
    name: Seq<char>,
    i: int,
)
    requires
        b.entries.len() < u32::MAX,
        0 <= i < b.entries.len(),
    ensures
        ({
            let w = b.pushed(frn, parent_frn, attrs, name);
            let v = w.finished();
            let bytes = vstd::utf8::encode_utf8(name);
            let n = b.entries.len() as int;
            &&& v.nodes.len() == n + 1
            &&& bytes.len() <= 65535 ==> v.nodes[n].name == bytes
            &&& bytes.len() > 65535 ==> v.nodes[n].name == bytes.take(65535)
            &&& v.nodes[n].flags == (if attrs & 0x10 != 0 {
                1u16
            } else {
                0u16
            })
            &&& v.by_frn == b.by_frn.insert(frn, n as u32)
            &&& v.nodes[i].name == b.finished().nodes[i].name
            &&& v.nodes[i].flags == b.finished().nodes[i].flags
            &&& v.tombstones == 0
            &&& v.drive_letter == b.drive_letter
            &&& v.pool == b.pool + bytes
        }),
{
}

/// When a builder is finished every entry stands below the node of its parent,
/// however late that was given, and below the root where it was not given at all.
/// The root comes first, is a folder without a name, and has no parent.
pub proof fn law_finished_entries_have_their_parents(b: BuilderView, i: int, drive_letter: u8)
    requires
        0 < i < b.entries.len(),
    ensures
        ({
            let node = b.finished().nodes[i];
            let parent_frn = b.entries[i].parent_frn;
            &&& b.by_frn.contains_key(parent_frn) ==> node.parent == b.by_frn[parent_frn]
            &&& !b.by_frn.contains_key(parent_frn) ==> node.parent == 0
        }),
        b.finished().nodes[0].parent == u32::MAX,
        ({
            let fresh = BuilderView::fresh(drive_letter).finished();
            &&& fresh.nodes.len() == 1
            &&& fresh.nodes[0].name.len() == 0
            &&& fresh.nodes[0].flags == 1
            &&& fresh.by_frn == Map::<u64, u32>::empty()
            &&& fresh.drive_letter == drive_letter
        }),
        forall|frn: u64, parent_frn: u64, attrs: u32, name: Seq<char>|
            (#[trigger] b.pushed(frn, parent_frn, attrs, name)).entries.last().parent_frn
                == parent_frn,
{
}

/// A builder takes entries until there are as many as can be numbered or the store
/// of names is full.
pub proof fn law_builder_has_room(b: BuilderView)
    ensures
        b.entries.len() < 0xFFFF_FFFF && b.pool.len() <= 0xFFFF_FFFF <==> b.room(),
{
}

/// An index takes twelve bytes for each node, one for each byte of names, and twelve
/// for each reference that there is room for.
pub proof fn law_bytes_of_an_index(nodes: int, pool: int, capacity: int)
    requires
        0 <= nodes,
        0 <= pool,
        0 <= capacity,
    ensures
        12 * nodes + pool + 12 * capacity <= usize::MAX ==> footprint(nodes, pool, capacity) == 12
            * nodes + pool + 12 * capacity,
        footprint(nodes, pool, capacity) <= usize::MAX,
{
}

/// An index is not to be built anew for few tombstones, nor where they are few among
/// the nodes, and it is where they are more than a hundred thousand and more than a
/// fifth of all nodes.
pub proof fn law_when_to_build_anew(v: IndexView)
    ensures
        v.tombstones <= 100_000 ==> !v.stale(),
        5 * v.tombstones <= v.nodes.len() ==> !v.stale(),
        v.tombstones > 100_000 && 5 * v.tombstones > v.nodes.len() ==> v.stale(),
{
}

/// The root that a builder begins with takes no byte of the store of names.
pub proof fn law_root_takes_no_name(drive_letter: u8)
    ensures
        BuilderView::fresh(drive_letter).pool.len() == 0,
        BuilderView::fresh(drive_letter).offs == seq![0u32],
        BuilderView::fresh(drive_letter).by_frn == Map::<u64, u32>::empty(),
{
}

} // verus!
