//! What an index is: its nodes, and how they are laid out in arrays.

use vstd::prelude::*;

use crate::ascii;
use crate::text;

verus! {

/// The flag of a folder.
pub const IS_DIR: u16 = 1;

/// The flag of a node that was deleted and still holds its place.
pub const IS_DELETED: u16 = 2;

/// The node of the volume's root.
pub const ROOT_ID: u32 = 0;

/// The file number of the root folder of an NTFS volume.
pub const NTFS_ROOT_FILE_NUMBER: u64 = 5;

/// The part of a file reference that is the file number.
pub const FRN_MASK: u64 = 0x0000_FFFF_FFFF_FFFF;

/// The file attribute of a folder.
pub const FILE_ATTRIBUTE_DIRECTORY: u32 = 0x10;

/// The separator of paths.
pub const BACKSLASH: u8 = 92;

/// The most bytes of a name that a node keeps.
pub const MAX_NAME: usize = 65535;

/// The most steps taken along a chain of parents.
pub const MAX_STEPS: u32 = 4096;

/// One file or folder.
#[verifier::ext_equal]
pub struct NodeView {
    pub name: Seq<u8>,
    pub parent: u32,
    pub flags: u16,
}

impl NodeView {
    /// Whether the node is a folder.
    pub open spec fn dir(self) -> bool {
        self.flags & IS_DIR != 0
    }

    /// Whether the node was deleted.
    pub open spec fn deleted(self) -> bool {
        self.flags & IS_DELETED != 0
    }
}

/// The index of one volume: its nodes, the nodes by reference, the store of names
/// and where in it the name of each node begins.
#[verifier::ext_equal]
pub struct IndexView {
    pub drive_letter: u8,
    pub volume_serial: u64,
    pub usn_journal_id: u64,
    pub next_usn: i64,
    pub nodes: Seq<NodeView>,
    pub by_frn: Map<u64, u32>,
    pub offs: Seq<u32>,
    pub pool: Seq<u8>,
    pub tombstones: u32,
}

/// How many of the nodes are deleted.
pub open spec fn count_deleted(nodes: Seq<NodeView>) -> nat
    decreases nodes.len(),
{
    if nodes.len() == 0 {
        0
    } else {
        count_deleted(nodes.drop_last()) + (if nodes.last().deleted() {
            1nat
        } else {
            0
        })
    }
}

/// Replacing one node changes the count of the deleted ones by that node.
pub proof fn lemma_count_update(nodes: Seq<NodeView>, i: int, node: NodeView)
    requires
        0 <= i < nodes.len(),
    ensures
        count_deleted(nodes.update(i, node)) + (if nodes[i].deleted() {
            1nat
        } else {
            0
        }) == count_deleted(nodes) + (if node.deleted() {
            1nat
        } else {
            0
        }),
    decreases nodes.len(),
{
    if i == nodes.len() - 1 {
        assert(nodes.update(i, node).drop_last() =~= nodes.drop_last());
    } else {
        lemma_count_update(nodes.drop_last(), i, node);
        assert(nodes.update(i, node).drop_last() =~= nodes.drop_last().update(i, node));
    }
}

/// There are no more deleted nodes than nodes.
pub proof fn lemma_count_bounded(nodes: Seq<NodeView>)
    ensures
        count_deleted(nodes) <= nodes.len(),
    decreases nodes.len(),
{
    if nodes.len() > 0 {
        lemma_count_bounded(nodes.drop_last());
    }
}

/// What is kept of a name given as bytes: its first [`MAX_NAME`] bytes.
pub open spec fn stored_name(bytes: Seq<u8>) -> Seq<u8> {
    if bytes.len() <= MAX_NAME {
        bytes
    } else {
        bytes.take(MAX_NAME as int)
    }
}

/// Whether a file reference is that of the root folder.
pub open spec fn root_frn(frn: u64) -> bool {
    frn & FRN_MASK == NTFS_ROOT_FILE_NUMBER
}

/// The flags of an entry with the given file attributes.
pub open spec fn flags_of(attrs: u32) -> u16 {
    if attrs & FILE_ATTRIBUTE_DIRECTORY != 0 {
        IS_DIR
    } else {
        0
    }
}

/// A change of the volume as the journal reports it.
pub enum ChangeView {
    Upsert { frn: u64, parent_frn: u64, attrs: u32, name: Seq<char> },
    Delete { frn: u64 },
}

/// The bytes that a change adds to the store of names.
pub open spec fn added_bytes(c: ChangeView) -> nat {
    match c {
        ChangeView::Upsert { frn, name, .. } => if root_frn(frn) {
            0
        } else {
            vstd::utf8::encode_utf8(name).len()
        },
        ChangeView::Delete { .. } => 0,
    }
}

impl IndexView {
    /// Every parent and every known reference leads to a node; the nodes can be
    /// numbered, and the name of each begins somewhere.
    pub open spec fn valid(self) -> bool {
        &&& 1 <= self.nodes.len() <= u32::MAX
        &&& self.offs.len() == self.nodes.len()
        &&& forall|i: int|
            0 <= i < self.nodes.len() ==> {
                let p = (#[trigger] self.nodes[i]).parent;
                p == u32::MAX || p < self.nodes.len()
            }
        &&& forall|k: u64| #[trigger]
            self.by_frn.contains_key(k) ==> self.by_frn[k] < self.nodes.len()
    }

    /// The count of tombstones is that of the deleted nodes; the root is a folder
    /// that is not deleted, and alone has no parent; and references lead to nodes
    /// other than the root that are not deleted, no two to the same.
    pub open spec fn consistent(self) -> bool {
        &&& self.tombstones == count_deleted(self.nodes)
        &&& self.nodes[0].dir()
        &&& !self.nodes[0].deleted()
        &&& self.nodes[0].parent == u32::MAX
        &&& forall|i: int| 0 < i < self.nodes.len() ==> (#[trigger] self.nodes[i]).parent != u32::MAX
        &&& forall|k: u64| #[trigger]
            self.by_frn.contains_key(k) ==> 1 <= self.by_frn[k]
                && !self.nodes[self.by_frn[k] as int].deleted()
        &&& forall|j: u64, k: u64| #[trigger]
            self.by_frn.contains_key(j) && #[trigger] self.by_frn.contains_key(k)
                && self.by_frn[j] == self.by_frn[k] ==> j == k
    }

    /// The node that a reference leads to, and the root for an unknown one.
    pub open spec fn resolve(self, frn: u64) -> u32 {
        if self.by_frn.contains_key(frn) {
            self.by_frn[frn]
        } else {
            ROOT_ID
        }
    }

    /// The index after one change.
    pub open spec fn applied(self, c: ChangeView) -> IndexView {
        match c {
            ChangeView::Delete { frn } => if self.by_frn.contains_key(frn) {
                let id = self.by_frn[frn] as int;
                let node = self.nodes[id];
                IndexView {
                    nodes: self.nodes.update(
                        id,
                        NodeView { flags: node.flags | IS_DELETED, ..node },
                    ),
                    by_frn: self.by_frn.remove(frn),
                    tombstones: if node.deleted() {
                        self.tombstones
                    } else {
                        (self.tombstones + 1) as u32
                    },
                    ..self
                }
            } else {
                self
            },
            ChangeView::Upsert { frn, parent_frn, attrs, name } => if root_frn(frn) {
                self
            } else {
                let bytes = vstd::utf8::encode_utf8(name);
                let node = NodeView {
                    name: stored_name(bytes),
                    parent: self.resolve(parent_frn),
                    flags: flags_of(attrs),
                };
                if self.by_frn.contains_key(frn) {
                    IndexView {
                        nodes: self.nodes.update(self.by_frn[frn] as int, node),
                        offs: self.offs.update(self.by_frn[frn] as int, self.pool.len() as u32),
                        pool: self.pool + bytes,
                        ..self
                    }
                } else {
                    IndexView {
                        nodes: self.nodes.push(node),
                        by_frn: self.by_frn.insert(frn, self.nodes.len() as u32),
                        offs: self.offs.push(self.pool.len() as u32),
                        pool: self.pool + bytes,
                        ..self
                    }
                }
            },
        }
    }

    /// Whether the numbers of nodes, name bytes and tombstones leave room for
    /// the change.
    pub open spec fn room_for(self, c: ChangeView) -> bool {
        match c {
            ChangeView::Delete { frn } => {
                self.by_frn.contains_key(frn) && !self.nodes[self.by_frn[frn] as int].deleted()
                    ==> self.tombstones < u32::MAX
            },
            ChangeView::Upsert { frn, .. } => root_frn(frn) || {
                &&& self.pool.len() <= u32::MAX
                &&& !self.by_frn.contains_key(frn) ==> self.nodes.len() < u32::MAX
            },
        }
    }

    /// The index after the changes, one after the other.
    pub open spec fn applied_all(self, cs: Seq<ChangeView>) -> IndexView
        decreases cs.len(),
    {
        if cs.len() == 0 {
            self
        } else {
            self.applied_all(cs.drop_last()).applied(cs.last())
        }
    }

    /// Whether there is room for every one of the changes in turn.
    pub open spec fn room_for_all(self, cs: Seq<ChangeView>) -> bool
        decreases cs.len(),
    {
        cs.len() == 0 || {
            &&& self.room_for_all(cs.drop_last())
            &&& self.applied_all(cs.drop_last()).room_for(cs.last())
        }
    }
}

/// What the flags say after a change of one of them.
pub proof fn lemma_flag_bits(f: u16)
    by (bit_vector)
    ensures
        (f | 2) & 2 != 0,
        (f | 2) & 1 == f & 1,
        1u16 & 2 == 0,
        1u16 & 1 == 1,
        0u16 & 2 == 0,
        0u16 & 1 == 0,
{
}

/// The nodes on the way from the root's child down to `id`, at most `steps` of
/// them, counted from `id`.
pub open spec fn lineage(nodes: Seq<NodeView>, id: u32, steps: nat) -> Seq<u32>
    decreases steps,
{
    if id == u32::MAX || id == ROOT_ID || steps == 0 {
        Seq::empty()
    } else {
        lineage(nodes, nodes[id as int].parent, (steps - 1) as nat).push(id)
    }
}

/// How deep below the root the node stands.
pub open spec fn depth(nodes: Seq<NodeView>, id: u32) -> u16 {
    lineage(nodes, id, MAX_STEPS as nat).len() as u16
}

/// Whether `node` is `ancestor` or stands below it, at most `steps - 1` levels.
pub open spec fn under(nodes: Seq<NodeView>, node: u32, ancestor: u32, steps: nat) -> bool
    decreases steps,
{
    if node == u32::MAX || steps == 0 {
        false
    } else {
        node == ancestor || under(nodes, nodes[node as int].parent, ancestor, (steps - 1) as nat)
    }
}

impl IndexView {
    /// The full path of the node.
    pub open spec fn path_text(self, id: u32) -> Seq<char> {
        let way = lineage(self.nodes, id, MAX_STEPS as nat);
        seq![self.drive_letter as char, ':', '\\'] + text::joined(
            Seq::new(way.len(), |i: int| text::utf8_lossy(self.nodes[way[i] as int].name)),
            '\\',
        )
    }
}

/// Whether node `id` is a folder right below `parent` with the given name, the
/// case of ASCII letters aside.
pub open spec fn is_child_dir(nodes: Seq<NodeView>, parent: u32, name: Seq<u8>, id: int) -> bool {
    &&& nodes[id].parent == parent
    &&& nodes[id].dir()
    &&& ascii::lower_all(nodes[id].name) == ascii::lower_all(name)
}

/// The first such folder among the nodes from `from` on.
pub open spec fn first_child_dir(
    nodes: Seq<NodeView>,
    parent: u32,
    name: Seq<u8>,
    from: int,
) -> Option<u32>
    decreases nodes.len() - from,
{
    if from >= nodes.len() {
        None
    } else if is_child_dir(nodes, parent, name, from) {
        Some(from as u32)
    } else {
        first_child_dir(nodes, parent, name, from + 1)
    }
}

/// Where the way from `cur` along the components from `i` on ends. Empty
/// components are passed over.
pub open spec fn walk(nodes: Seq<NodeView>, cur: u32, comps: Seq<Seq<u8>>, i: int) -> Option<u32>
    decreases comps.len() - i,
{
    if i >= comps.len() {
        Some(cur)
    } else if comps[i].len() == 0 {
        walk(nodes, cur, comps, i + 1)
    } else {
        match first_child_dir(nodes, cur, comps[i], 1) {
            Some(id) => walk(nodes, id, comps, i + 1),
            None => None,
        }
    }
}

/// The folder that a full path leads to. What stands before the first
/// backslash names the volume and is not looked at.
pub open spec fn dir_at(nodes: Seq<NodeView>, path: Seq<u8>) -> Option<u32> {
    walk(nodes, ROOT_ID, ascii::split(ascii::trim_end(path, BACKSLASH), BACKSLASH), 1)
}

/// The arrays of an index. Node `i` has its name in the pool from
/// `names_off[i]` on, `names_len[i]` bytes of it.
#[verifier::ext_equal]
pub struct Layout {
    pub drive_letter: u8,
    pub volume_serial: u64,
    pub usn_journal_id: u64,
    pub next_usn: i64,
    pub names_off: Seq<u32>,
    pub names_len: Seq<u16>,
    pub parent: Seq<u32>,
    pub flags: Seq<u16>,
    pub name_pool: Seq<u8>,
    pub frn_to_id: Map<u64, u32>,
    pub tombstones: u32,
}

impl Layout {
    /// The arrays have one entry per node, names lie in the pool, and every
    /// number of a node is in range.
    pub open spec fn ok(self) -> bool {
        let n = self.names_off.len();
        &&& 1 <= n <= u32::MAX
        &&& self.names_len.len() == n
        &&& self.parent.len() == n
        &&& self.flags.len() == n
        &&& forall|i: int|
            0 <= i < n ==> #[trigger] self.names_off[i] + self.names_len[i] <= self.name_pool.len()
        &&& forall|i: int|
            0 <= i < n ==> #[trigger] self.parent[i] == u32::MAX || self.parent[i] < n
        &&& forall|k: u64| #[trigger] self.frn_to_id.contains_key(k) ==> self.frn_to_id[k] < n
    }

    /// Node `i`.
    pub open spec fn node(self, i: int) -> NodeView {
        NodeView {
            name: self.name_pool.subrange(
                self.names_off[i] as int,
                self.names_off[i] + self.names_len[i],
            ),
            parent: self.parent[i],
            flags: self.flags[i],
        }
    }

    /// Arrays that fit each other stand for a valid index.
    pub proof fn lemma_valid(self)
        requires
            self.ok(),
        ensures
            self.view().valid(),
    {
        assert forall|i: int| 0 <= i < self.view().nodes.len() implies {
            let p = (#[trigger] self.view().nodes[i]).parent;
            p == u32::MAX || p < self.view().nodes.len()
        } by {
            assert(self.parent[i] == u32::MAX || self.parent[i] < self.names_off.len());
        }
    }

    /// An index stands for one set of arrays only: nothing of them is left out.
    pub proof fn law_view_fixes_arrays(self, other: Layout)
        requires
            self.ok(),
            other.ok(),
            self.view() == other.view(),
        ensures
            self == other,
    {
        assert forall|i: int| 0 <= i < self.names_off.len() implies self.names_len[i]
            == other.names_len[i] && self.parent[i] == other.parent[i] && self.flags[i]
            == other.flags[i] by {
            assert(self.names_off[i] + self.names_len[i] <= self.name_pool.len());
            assert(other.names_off[i] + other.names_len[i] <= other.name_pool.len());
            assert(self.view().nodes[i] == self.node(i));
            assert(other.view().nodes[i] == other.node(i));
            assert(self.node(i).name.len() == self.names_len[i]);
            assert(other.node(i).name.len() == other.names_len[i]);
        }
        assert(self =~= other);
    }

    /// The index that the arrays stand for.
    pub open spec fn view(self) -> IndexView {
        IndexView {
            drive_letter: self.drive_letter,
            volume_serial: self.volume_serial,
            usn_journal_id: self.usn_journal_id,
            next_usn: self.next_usn,
            nodes: Seq::new(self.names_off.len(), |i: int| self.node(i)),
            by_frn: self.frn_to_id,
            offs: self.names_off,
            pool: self.name_pool,
            tombstones: self.tombstones,
        }
    }
}

/// A change keeps an index valid.
pub proof fn law_change_keeps_validity(v: IndexView, c: ChangeView)
    requires
        v.valid(),
        v.room_for(c),
    ensures
        v.applied(c).valid(),
{
}

/// A change keeps an index valid and its count of tombstones right, and every
/// reference still leads to a node of its own that is not deleted.
pub proof fn law_change_keeps_consistency(v: IndexView, c: ChangeView)
    requires
        v.valid(),
        v.consistent(),
        v.room_for(c),
    ensures
        v.applied(c).valid(),
        v.applied(c).consistent(),
{
    let w = v.applied(c);
    match c {
        ChangeView::Delete { frn } => {
            if v.by_frn.contains_key(frn) {
                let id = v.by_frn[frn] as int;
                lemma_flag_bits(v.nodes[id].flags);
                lemma_count_update(v.nodes, id, w.nodes[id]);
                assert forall|k: u64| #[trigger] w.by_frn.contains_key(k) implies 1 <= w.by_frn[k]
                    && !w.nodes[w.by_frn[k] as int].deleted() by {
                    assert(v.by_frn.contains_key(k));
                    assert(v.by_frn[k] != v.by_frn[frn]);
                }
                assert(w.nodes[0] == v.nodes[0]);
                assert forall|i: int| 0 < i < w.nodes.len() implies (#[trigger] w.nodes[i]).parent
                    != u32::MAX by {
                    assert(v.nodes[i].parent != u32::MAX);
                }
            }
        },
        ChangeView::Upsert { frn, parent_frn, attrs, name } => {
            if !root_frn(frn) {
                lemma_flag_bits(0);
                if v.by_frn.contains_key(frn) {
                    let id = v.by_frn[frn] as int;
                    lemma_count_update(v.nodes, id, w.nodes[id]);
                } else {
                    assert(w.nodes.drop_last() =~= v.nodes);
                }
            }
        },
    }
}

/// Changes one after the other keep an index valid and consistent too.
pub proof fn law_changes_keep_consistency(v: IndexView, cs: Seq<ChangeView>)
    requires
        v.valid(),
        v.consistent(),
        v.room_for_all(cs),
    ensures
        v.applied_all(cs).valid(),
        v.applied_all(cs).consistent(),
    decreases cs.len(),
{
    if cs.len() > 0 {
        law_changes_keep_consistency(v, cs.drop_last());
        law_change_keeps_consistency(v.applied_all(cs.drop_last()), cs.last());
    }
}

/// After the deletion of a known reference its node is deleted and the
/// reference is unknown, and deleting it again changes nothing.
pub proof fn law_deleted_once(v: IndexView, frn: u64)
    requires
        v.valid(),
        v.by_frn.contains_key(frn),
    ensures
        v.applied(ChangeView::Delete { frn }).nodes[v.by_frn[frn] as int].deleted(),
        !v.applied(ChangeView::Delete { frn }).by_frn.contains_key(frn),
        v.applied(ChangeView::Delete { frn }).applied(ChangeView::Delete { frn }) == v.applied(
            ChangeView::Delete { frn },
        ),
{
    lemma_flag_bits(v.nodes[v.by_frn[frn] as int].flags);
}

/// After an upsert the reference leads to a live node with the given name,
/// folder or not as given, below the node that the parent reference led to.
pub proof fn law_upserted_is_there(
    v: IndexView,
    frn: u64,
    parent_frn: u64,
    attrs: u32,
    name: Seq<char>,
)
    requires
        v.valid(),
        v.room_for(ChangeView::Upsert { frn, parent_frn, attrs, name }),
        !root_frn(frn),
    ensures
        ({
            let w = v.applied(ChangeView::Upsert { frn, parent_frn, attrs, name });
            let node = w.nodes[w.by_frn[frn] as int];
            &&& w.by_frn.contains_key(frn)
            &&& w.by_frn[frn] < w.nodes.len()
            &&& !node.deleted()
            &&& node.dir() == (attrs & FILE_ATTRIBUTE_DIRECTORY != 0)
            &&& node.name == stored_name(vstd::utf8::encode_utf8(name))
            &&& node.parent == v.resolve(parent_frn)
        }),
{
    lemma_flag_bits(0);
}

/// A change that comes again changes nothing but the store of names and where in
/// it the name begins: changes that a scan has seen already may be read once more
/// from the journal. The one exception is an unknown entry that is its own
/// parent, which stands below the root the first time.
pub proof fn law_change_is_idempotent(v: IndexView, c: ChangeView)
    requires
        v.valid(),
        c matches ChangeView::Upsert { frn, parent_frn, .. } ==> parent_frn != frn
            || v.by_frn.contains_key(frn),
    ensures
        ({
            let once = v.applied(c);
            let twice = once.applied(c);
            &&& twice == IndexView { offs: twice.offs, pool: twice.pool, ..once }
            &&& c is Delete ==> twice == once
        }),
{
    let once = v.applied(c);
    let twice = once.applied(c);
    assert(twice.nodes =~= once.nodes);
}

/// Changes in two lists, one list after the other, come to the same as the lists
/// joined, and there is room for the joined list exactly where there is room for
/// the one and then for the other. One change alone is that change, and no change
/// changes nothing.
pub proof fn law_changes_join(v: IndexView, a: Seq<ChangeView>, b: Seq<ChangeView>, c: ChangeView)
    ensures
        v.applied_all(a + b) == v.applied_all(a).applied_all(b),
        v.room_for_all(a + b) <==> v.room_for_all(a) && v.applied_all(a).room_for_all(b),
        v.applied_all(seq![c]) == v.applied(c),
        v.room_for_all(seq![c]) <==> v.room_for(c),
        v.applied_all(Seq::empty()) == v,
        v.room_for_all(Seq::empty()),
    decreases b.len(),
{
    if b.len() == 0 {
        assert(a + b =~= a);
    } else {
        law_changes_join(v, a, b.drop_last(), c);
        assert((a + b).drop_last() =~= a + b.drop_last());
        assert((a + b).last() == b.last());
    }
    assert(seq![c].drop_last() =~= Seq::empty());
    assert(v.applied_all(seq![c].drop_last()) == v);
    assert(v.room_for_all(seq![c].drop_last()));
}

/// A change adds one node exactly where it puts an entry other than the root whose
/// reference is unknown, never seen or deleted since; it takes none away.
pub proof fn law_length_grows_by_new_entries(v: IndexView, c: ChangeView)
    requires
        v.valid(),
    ensures
        v.applied(c).nodes.len() == v.nodes.len() + (if c matches ChangeView::Upsert { frn, .. }
            && !root_frn(frn) && !v.by_frn.contains_key(frn) {
            1int
        } else {
            0
        }),
{
}

/// Tombstones are never taken back.
pub proof fn law_tombstones_never_fall(v: IndexView, cs: Seq<ChangeView>)
    requires
        v.room_for_all(cs),
    ensures
        v.applied_all(cs).tombstones >= v.tombstones,
    decreases cs.len(),
{
    if cs.len() > 0 {
        law_tombstones_never_fall(v, cs.drop_last());
    }
}

/// A change touches no node but the one that its reference leads to, forgets no
/// node, and loses no tombstone.
pub proof fn law_change_is_local(v: IndexView, c: ChangeView, frn: u64, i: int)
    requires
        v.valid(),
        v.room_for(c),
        c matches ChangeView::Delete { frn: f } ==> f == frn,
        c matches ChangeView::Upsert { frn: f, .. } ==> f == frn,
        0 <= i < v.nodes.len(),
        !(v.by_frn.contains_key(frn) && v.by_frn[frn] == i),
    ensures
        v.applied(c).nodes.len() >= v.nodes.len(),
        v.applied(c).nodes[i] == v.nodes[i],
        v.applied(c).tombstones >= v.tombstones,
        forall|k: u64|
            k != frn ==> (#[trigger] v.applied(c).by_frn.contains_key(k) <==> v.by_frn.contains_key(
                k,
            )),
        forall|k: u64|
            k != frn && v.by_frn.contains_key(k) ==> #[trigger] v.applied(c).by_frn[k]
                == v.by_frn[k],
{
}

/// The bytes that the changes add to the store of names.
pub open spec fn added_bytes_all(cs: Seq<ChangeView>) -> nat
    decreases cs.len(),
{
    if cs.len() == 0 {
        0
    } else {
        added_bytes_all(cs.drop_last()) + added_bytes(cs.last())
    }
}

/// There is room for the changes where the numbers of nodes, name bytes and
/// tombstones stay in range even if each change adds to all of them.
pub proof fn law_room_by_sums(v: IndexView, cs: Seq<ChangeView>)
    requires
        v.valid(),
        v.nodes.len() + cs.len() <= u32::MAX,
        v.pool.len() + added_bytes_all(cs) <= u32::MAX,
        v.tombstones + cs.len() <= u32::MAX,
    ensures
        v.room_for_all(cs),
        v.applied_all(cs).valid(),
        v.applied_all(cs).nodes.len() <= v.nodes.len() + cs.len(),
        v.applied_all(cs).pool.len() <= v.pool.len() + added_bytes_all(cs),
        v.applied_all(cs).tombstones <= v.tombstones + cs.len(),
    decreases cs.len(),
{
    if cs.len() > 0 {
        law_room_by_sums(v, cs.drop_last());
        law_change_keeps_validity(v.applied_all(cs.drop_last()), cs.last());
    }
}

/// A name of no more than [`MAX_NAME`] bytes is kept whole: what is stored of it
/// decodes to it.
pub proof fn law_name_is_kept(name: Seq<char>)
    requires
        vstd::utf8::encode_utf8(name).len() <= MAX_NAME,
    ensures
        vstd::utf8::valid_utf8(stored_name(vstd::utf8::encode_utf8(name))),
        vstd::utf8::decode_utf8(stored_name(vstd::utf8::encode_utf8(name))) == name,
{
    vstd::utf8::encode_utf8_valid_utf8(name);
    vstd::utf8::encode_utf8_decode_utf8(name);
}

/// A node stands below each node on the way to it.
pub proof fn law_lineage_is_under(nodes: Seq<NodeView>, id: u32, steps: nat, k: int)
    requires
        0 <= k < lineage(nodes, id, steps).len(),
    ensures
        under(nodes, id, lineage(nodes, id, steps)[k], steps),
    decreases steps,
{
    if k < lineage(nodes, id, steps).len() - 1 {
        law_lineage_is_under(nodes, nodes[id as int].parent, (steps - 1) as nat, k);
    }
}

proof fn lemma_more_steps(nodes: Seq<NodeView>, id: u32, steps: nat)
    requires
        lineage(nodes, id, steps).len() < steps,
    ensures
        lineage(nodes, id, steps + 1) == lineage(nodes, id, steps),
    decreases steps,
{
    if id != u32::MAX && id != ROOT_ID {
        lemma_more_steps(nodes, nodes[id as int].parent, (steps - 1) as nat);
    }
}

/// The way to an entry is the way to its parent and the entry, so that it is one
/// level deeper, and its path is that of its parent, a backslash where the parent
/// is not the root, and its name. The root is no level deep, and its path is the
/// letter of the volume, a colon and a backslash.
pub proof fn law_path_extends_that_of_the_parent(v: IndexView, id: u32)
    requires
        1 <= id < v.nodes.len(),
        id != u32::MAX,
        v.nodes[id as int].parent != u32::MAX,
        lineage(v.nodes, id, 4096).len() < 4096,
    ensures
        ({
            let parent = v.nodes[id as int].parent;
            let name = text::utf8_lossy(v.nodes[id as int].name);
            &&& lineage(v.nodes, id, 4096) == lineage(v.nodes, parent, 4096).push(id)
            &&& depth(v.nodes, id) == depth(v.nodes, parent) + 1
            &&& parent == 0 ==> v.path_text(id) == seq![v.drive_letter as char, ':', '\\'] + name
            &&& parent != 0 ==> v.path_text(id) == v.path_text(parent) + seq!['\\'] + name
        }),
        depth(v.nodes, 0) == 0,
        v.path_text(0) == seq![v.drive_letter as char, ':', '\\'],
{
    let parent = v.nodes[id as int].parent;
    let rest = lineage(v.nodes, parent, 4095);
    lemma_more_steps(v.nodes, parent, 4095);
    let way = lineage(v.nodes, id, 4096);
    assert(way == rest.push(id));
    let names = Seq::new(way.len(), |i: int| text::utf8_lossy(v.nodes[way[i] as int].name));
    let before = Seq::new(rest.len(), |i: int| text::utf8_lossy(v.nodes[rest[i] as int].name));
    assert(names =~= before.push(text::utf8_lossy(v.nodes[id as int].name)));
    assert(names.drop_last() =~= before);
    let head = seq![v.drive_letter as char, ':', '\\'];
    let none = lineage(v.nodes, 0, 4096);
    assert(Seq::new(none.len(), |i: int| text::utf8_lossy(v.nodes[none[i] as int].name))
        =~= Seq::empty());
    assert(v.path_text(0) =~= head);
    if parent == 0 {
        assert(before =~= Seq::empty());
        assert(v.path_text(id) =~= head + names[0]);
    } else {
        assert(rest.len() > 0);
        assert(v.path_text(id) =~= v.path_text(parent) + seq!['\\'] + names.last());
    }
}

/// An entry is below itself and below whatever its parent is below, and below
/// nothing else.
pub proof fn law_below_goes_by_the_parent(nodes: Seq<NodeView>, id: u32, ancestor: u32, steps: nat)
    requires
        id != u32::MAX,
    ensures
        under(nodes, id, id, steps + 1),
        under(nodes, id, ancestor, steps + 1) <==> id == ancestor || under(
            nodes,
            nodes[id as int].parent,
            ancestor,
            steps,
        ),
        !under(nodes, id, ancestor, 0),
        !under(nodes, u32::MAX, ancestor, steps),
{
}

/// Deleting a known entry that is not deleted marks its node, which keeps its
/// name, its parent and whether it is a folder, and adds one tombstone; deleting
/// an unknown one, and putting the root, changes nothing.
pub proof fn law_deletion_marks_one_node(v: IndexView, frn: u64)
    requires
        v.valid(),
    ensures
        ({
            let w = v.applied(ChangeView::Delete { frn });
            let id = v.by_frn[frn] as int;
            &&& !v.by_frn.contains_key(frn) ==> w == v
            &&& v.by_frn.contains_key(frn) ==> {
                &&& w.nodes.len() == v.nodes.len()
                &&& w.nodes[id].name == v.nodes[id].name
                &&& w.nodes[id].parent == v.nodes[id].parent
                &&& w.nodes[id].flags & 1 == v.nodes[id].flags & 1
                &&& w.nodes[id].flags & 2 != 0
                &&& !w.by_frn.contains_key(frn)
                &&& v.nodes[id].flags & 2 == 0 && v.tombstones < u32::MAX ==> w.tombstones
                    == v.tombstones + 1
                &&& v.nodes[id].flags & 2 != 0 ==> w.tombstones == v.tombstones
            }
        }),
        forall|parent_frn: u64, attrs: u32, name: Seq<char>|
            frn & 0xFFFF_FFFF_FFFF == 5 ==> #[trigger] v.applied(
                ChangeView::Upsert { frn, parent_frn, attrs, name },
            ) == v,
{
    lemma_flag_bits(v.nodes[v.by_frn[frn] as int].flags);
}

/// Putting an entry other than the root gives a node to its reference, its own
/// where it has one and a new one else. The node is live, has the name, is a folder
/// where the attributes say so, and stands below the node of the parent, or below
/// the root where that is unknown. Nothing is counted as deleted by it, and the
/// name stands at the end of the store.
pub proof fn law_upsert_gives_a_node(
    v: IndexView,
    frn: u64,
    parent_frn: u64,
    attrs: u32,
    name: Seq<char>,
)
    requires
        v.valid(),
        v.nodes.len() < u32::MAX,
        v.pool.len() <= u32::MAX,
        frn & 0xFFFF_FFFF_FFFF != 5,
    ensures
        ({
            let w = v.applied(ChangeView::Upsert { frn, parent_frn, attrs, name });
            let bytes = vstd::utf8::encode_utf8(name);
            let id = w.by_frn[frn] as int;
            &&& w.by_frn.contains_key(frn)
            &&& v.by_frn.contains_key(frn) ==> id == v.by_frn[frn] && w.nodes.len() == v.nodes.len()
            &&& !v.by_frn.contains_key(frn) ==> id == v.nodes.len() && w.nodes.len() == v.nodes.len()
                + 1
            &&& bytes.len() <= 65535 ==> w.nodes[id].name == bytes
            &&& bytes.len() > 65535 ==> w.nodes[id].name == bytes.take(65535)
            &&& w.nodes[id].flags == (if attrs & 0x10 != 0 {
                1u16
            } else {
                0u16
            })
            &&& v.by_frn.contains_key(parent_frn) ==> w.nodes[id].parent == v.by_frn[parent_frn]
            &&& !v.by_frn.contains_key(parent_frn) ==> w.nodes[id].parent == 0
            &&& w.tombstones == v.tombstones
            &&& w.offs[id] == v.pool.len()
            &&& w.pool == v.pool + bytes
            &&& w.drive_letter == v.drive_letter
            &&& w.volume_serial == v.volume_serial
            &&& w.usn_journal_id == v.usn_journal_id
            &&& w.next_usn == v.next_usn
        }),
{
}

/// A change leaves every node but that of its reference as it was, and every other
/// reference with its node.
pub proof fn law_other_nodes_stay(v: IndexView, c: ChangeView, frn: u64, i: int, k: u64)
    requires
        v.valid(),
        v.nodes.len() < u32::MAX,
        c matches ChangeView::Delete { frn: f } ==> f == frn,
        c matches ChangeView::Upsert { frn: f, .. } ==> f == frn,
        0 <= i < v.nodes.len(),
        !v.by_frn.contains_key(frn) || v.by_frn[frn] != i,
        k != frn,
    ensures
        v.applied(c).nodes[i] == v.nodes[i],
        v.applied(c).offs[i] == v.offs[i],
        v.applied(c).by_frn.contains_key(k) == v.by_frn.contains_key(k),
        v.by_frn.contains_key(k) ==> v.applied(c).by_frn[k] == v.by_frn[k],
{
}

} // verus!
