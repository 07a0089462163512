//! Full paths lead back to the folders that they are the paths of.

use vstd::prelude::*;

use crate::ascii;
use crate::characters;
use crate::model;
use crate::model::{IndexView, NodeView, BACKSLASH, MAX_STEPS, ROOT_ID};
use crate::pattern;
use crate::text;

verus! {

/// The names on the way to a node, as text.
pub open spec fn plain_names(nodes: Seq<NodeView>, way: Seq<u32>) -> Seq<Seq<char>> {
    Seq::new(way.len(), |i: int| vstd::utf8::decode_utf8(nodes[way[i] as int].name))
}

/// The full path of a node whose name, and those above it, are UTF-8.
pub open spec fn plain_path(v: IndexView, id: u32) -> Seq<char> {
    let way = model::lineage(v.nodes, id, MAX_STEPS as nat);
    seq![v.drive_letter as char, ':', '\\'] + text::joined(plain_names(v.nodes, way), '\\')
}

/// Whether a name is UTF-8, not empty, and without a backslash.
pub open spec fn good_name(name: Seq<u8>) -> bool {
    &&& vstd::utf8::valid_utf8(name)
    &&& name.len() > 0
    &&& forall|i: int| 0 <= i < name.len() ==> #[trigger] name[i] != BACKSLASH
}

/// Where the way stands before its step `k`.
pub open spec fn stand(way: Seq<u32>, k: int) -> u32 {
    if k == 0 {
        ROOT_ID
    } else {
        way[k - 1]
    }
}

/// Whether each step of the way leads from the root, or the folder before, to a
/// folder with a good name that no earlier folder there has too.
pub open spec fn clear_way(nodes: Seq<NodeView>, way: Seq<u32>) -> bool {
    forall|k: int|
        0 <= k < way.len() ==> good_name(nodes[(#[trigger] way[k]) as int].name)
            && model::first_child_dir(nodes, stand(way, k), nodes[way[k] as int].name, 1) == Some(
            way[k],
        )
}

proof fn lemma_encode_ascii(c: char)
    requires
        (c as u32) < 128,
    ensures
        vstd::utf8::encode_utf8(seq![c]) == seq![c as u8],
{
    let n = c as u32;
    let one = seq![c];
    assert(n < 128 ==> (n & 0x7F) as u8 == n as u8) by (bit_vector);
    assert(one.drop_first() =~= Seq::empty());
    assert(vstd::utf8::encode_utf8(one.drop_first()) =~= Seq::<u8>::empty());
    assert(vstd::utf8::encode_scalar(n) =~= seq![n as u8]);
    assert(vstd::utf8::encode_utf8(one) =~= seq![c as u8]);
}

/// Names with a backslash before each, as bytes.
spec fn steps(nodes: Seq<NodeView>, way: Seq<u32>) -> Seq<u8>
    decreases way.len(),
{
    if way.len() == 0 {
        Seq::empty()
    } else {
        steps(nodes, way.drop_last()) + seq![BACKSLASH] + nodes[way.last() as int].name
    }
}

/// The names on the way, as bytes.
spec fn step_names(nodes: Seq<NodeView>, way: Seq<u32>) -> Seq<Seq<u8>> {
    Seq::new(way.len(), |i: int| nodes[way[i] as int].name)
}

proof fn lemma_joined_bytes(nodes: Seq<NodeView>, way: Seq<u32>)
    requires
        way.len() > 0,
        forall|k: int| 0 <= k < way.len() ==> good_name(nodes[(#[trigger] way[k]) as int].name),
    ensures
        seq![BACKSLASH] + vstd::utf8::encode_utf8(text::joined(plain_names(nodes, way), '\\'))
            == steps(nodes, way),
    decreases way.len(),
{
    let names = plain_names(nodes, way);
    let last = nodes[way.last() as int].name;
    assert(good_name(nodes[way[way.len() - 1] as int].name));
    vstd::utf8::decode_utf8_encode_utf8(last);
    let most = way.drop_last();
    assert(names.drop_last() =~= plain_names(nodes, most));
    assert(names.last() == vstd::utf8::decode_utf8(last));
    if way.len() == 1 {
        assert(steps(nodes, most) =~= Seq::empty());
        assert(names[0] == names.last());
        assert(seq![BACKSLASH] + last =~= steps(nodes, way));
    } else {
        assert forall|k: int| 0 <= k < most.len() implies good_name(
            nodes[(#[trigger] most[k]) as int].name,
        ) by {
            assert(good_name(nodes[way[k] as int].name));
        }
        lemma_joined_bytes(nodes, most);
        let before = text::joined(names.drop_last(), '\\');
        characters::lemma_encode_concat(before + seq!['\\'], names.last());
        characters::lemma_encode_concat(before, seq!['\\']);
        lemma_encode_ascii('\\');
        assert(text::joined(names, '\\') == before + seq!['\\'] + names.last());
        assert(seq![BACKSLASH] + (vstd::utf8::encode_utf8(before) + seq![BACKSLASH] + last) =~= (seq![
            BACKSLASH,
        ] + vstd::utf8::encode_utf8(before)) + seq![BACKSLASH] + last);
    }
}

proof fn lemma_split_extend(t: Seq<u8>, n: Seq<u8>)
    requires
        forall|i: int| 0 <= i < n.len() ==> #[trigger] n[i] != BACKSLASH,
    ensures
        ascii::split(t, BACKSLASH).len() > 0,
        ascii::split(t + n, BACKSLASH) == ascii::split(t, BACKSLASH).drop_last().push(
            ascii::split(t, BACKSLASH).last() + n,
        ),
    decreases n.len(),
{
    lemma_split_some(t);
    if n.len() == 0 {
        assert(t + n =~= t);
        assert(ascii::split(t, BACKSLASH).last() + n =~= ascii::split(t, BACKSLASH).last());
        assert(ascii::split(t, BACKSLASH) =~= ascii::split(t, BACKSLASH).drop_last().push(
            ascii::split(t, BACKSLASH).last(),
        ));
    } else {
        let m = n.drop_last();
        assert forall|i: int| 0 <= i < m.len() implies #[trigger] m[i] != BACKSLASH by {
            assert(n[i] != BACKSLASH);
        }
        lemma_split_extend(t, m);
        assert((t + n).drop_last() =~= t + m);
        assert((t + n).last() == n[n.len() - 1]);
        let head = ascii::split(t, BACKSLASH).drop_last();
        let tail = ascii::split(t, BACKSLASH).last();
        let before = ascii::split(t + m, BACKSLASH);
        assert(before.drop_last() =~= head);
        assert((tail + m).push(n.last()) =~= tail + n);
    }
}

proof fn lemma_split_some(t: Seq<u8>)
    ensures
        ascii::split(t, BACKSLASH).len() > 0,
    decreases t.len(),
{
    if t.len() > 0 {
        lemma_split_some(t.drop_last());
    }
}

proof fn lemma_split_steps(nodes: Seq<NodeView>, way: Seq<u32>, head: Seq<u8>)
    requires
        forall|k: int| 0 <= k < way.len() ==> good_name(nodes[(#[trigger] way[k]) as int].name),
        forall|i: int| 0 <= i < head.len() ==> #[trigger] head[i] != BACKSLASH,
    ensures
        ascii::split(head + steps(nodes, way), BACKSLASH) == seq![head] + step_names(nodes, way),
    decreases way.len(),
{
    if way.len() == 0 {
        let none = Seq::<u8>::empty();
        lemma_split_extend(none, head);
        assert(none + head =~= head);
        assert(head + steps(nodes, way) =~= head);
        assert(ascii::split(none, BACKSLASH) =~= seq![none]);
        assert(ascii::split(head, BACKSLASH) =~= seq![head] + step_names(nodes, way));
    } else {
        let most = way.drop_last();
        let last = nodes[way.last() as int].name;
        assert(good_name(nodes[way[way.len() - 1] as int].name));
        assert forall|k: int| 0 <= k < most.len() implies good_name(
            nodes[(#[trigger] most[k]) as int].name,
        ) by {
            assert(good_name(nodes[way[k] as int].name));
        }
        lemma_split_steps(nodes, most, head);
        let before = head + steps(nodes, most);
        let cut = before.push(BACKSLASH);
        assert(cut.drop_last() =~= before);
        assert(ascii::split(cut, BACKSLASH) == ascii::split(before, BACKSLASH).push(Seq::empty()));
        lemma_split_extend(cut, last);
        assert(head + steps(nodes, way) =~= cut + last);
        assert(ascii::split(cut, BACKSLASH).drop_last() =~= ascii::split(before, BACKSLASH));
        assert(Seq::<u8>::empty() + last =~= last);
        assert(seq![head] + step_names(nodes, way) =~= (seq![head] + step_names(nodes, most)).push(
            last,
        ));
    }
}

proof fn lemma_walk(nodes: Seq<NodeView>, way: Seq<u32>, head: Seq<u8>, k: int)
    requires
        clear_way(nodes, way),
        0 <= k <= way.len(),
    ensures
        model::walk(nodes, stand(way, k), seq![head] + step_names(nodes, way), k + 1) == Some(
            stand(way, way.len() as int),
        ),
    decreases way.len() - k,
{
    let comps = seq![head] + step_names(nodes, way);
    if k < way.len() {
        assert(good_name(nodes[way[k] as int].name));
        assert(comps[k + 1] == nodes[way[k] as int].name);
        lemma_walk(nodes, way, head, k + 1);
    }
}

proof fn lemma_lineage_ends(nodes: Seq<NodeView>, id: u32, steps: nat)
    ensures
        model::lineage(nodes, id, steps).len() > 0 ==> model::lineage(nodes, id, steps).last() == id,
        steps > 0 && id != ROOT_ID && id != u32::MAX ==> model::lineage(nodes, id, steps).len() > 0,
{
}

/// The path of a folder leads back to the folder, where the way to it is clear:
/// it begins at the root, and each name on it is UTF-8, not empty, without a
/// backslash, and that of no earlier folder beside it. The letter of the volume
/// is any but a backslash.
pub proof fn law_path_leads_back(v: IndexView, id: u32)
    requires
        v.valid(),
        id < v.nodes.len(),
        v.drive_letter != BACKSLASH,
        clear_way(v.nodes, model::lineage(v.nodes, id, MAX_STEPS as nat)),
    ensures
        model::dir_at(v.nodes, vstd::utf8::encode_utf8(plain_path(v, id))) == Some(id),
{
    let nodes = v.nodes;
    let way = model::lineage(nodes, id, MAX_STEPS as nat);
    let d = v.drive_letter as char;
    let colon = 58u8;
    let head = characters::bytes_of(d).push(colon);
    let names = plain_names(nodes, way);
    let bytes = vstd::utf8::encode_utf8(plain_path(v, id));
    assert forall|k: int| 0 <= k < way.len() implies good_name(
        nodes[(#[trigger] way[k]) as int].name,
    ) by {}
    characters::lemma_encode_one(d);
    characters::lemma_bytes_of(d);
    assert forall|i: int| 0 <= i < head.len() implies #[trigger] head[i] != BACKSLASH by {
        if 0 < i < head.len() - 1 {
            assert(pattern::continues(characters::bytes_of(d)[i]));
        }
    }
    lemma_encode_ascii(':');
    lemma_encode_ascii('\\');
    characters::lemma_encode_concat(seq![d], seq![':']);
    characters::lemma_encode_concat(seq![d] + seq![':'], seq!['\\']);
    characters::lemma_encode_concat(seq![d, ':', '\\'], text::joined(names, '\\'));
    assert(seq![d, ':', '\\'] =~= seq![d] + seq![':'] + seq!['\\']);
    assert(vstd::utf8::encode_utf8(seq![d, ':', '\\']) =~= head.push(BACKSLASH));
    lemma_lineage_ends(nodes, id, MAX_STEPS as nat);
    if way.len() == 0 {
        assert(text::joined(names, '\\') =~= Seq::empty());
        assert(bytes =~= head.push(BACKSLASH));
        assert(bytes.drop_last() =~= head);
        assert(ascii::trim_end(head, BACKSLASH) == head);
        assert(ascii::trim_end(bytes, BACKSLASH) == head);
        assert(head + steps(nodes, way) =~= head);
    } else {
        lemma_joined_bytes(nodes, way);
        let tail = vstd::utf8::encode_utf8(text::joined(names, '\\'));
        assert(head.push(BACKSLASH) + tail =~= head + (seq![BACKSLASH] + tail));
        assert(bytes == head + steps(nodes, way));
        let last = nodes[way.last() as int].name;
        assert(good_name(nodes[way[way.len() - 1] as int].name));
        assert(bytes.last() == last[last.len() - 1]);
        assert(ascii::trim_end(bytes, BACKSLASH) == bytes);
    }
    lemma_split_steps(nodes, way, head);
    lemma_walk(nodes, way, head, 0);
}

/// Each node on the way to a node has the one before it for its parent, and the
/// first the root.
proof fn lemma_lineage_steps(v: IndexView, id: u32, steps: nat, k: int)
    requires
        v.valid(),
        v.consistent(),
        id < v.nodes.len(),
        model::lineage(v.nodes, id, steps).len() < steps,
        0 <= k < model::lineage(v.nodes, id, steps).len(),
    ensures
        1 <= model::lineage(v.nodes, id, steps)[k] < v.nodes.len(),
        v.nodes[model::lineage(v.nodes, id, steps)[k] as int].parent == stand(
            model::lineage(v.nodes, id, steps),
            k,
        ),
    decreases steps,
{
    let way = model::lineage(v.nodes, id, steps);
    let parent = v.nodes[id as int].parent;
    let rest = model::lineage(v.nodes, parent, (steps - 1) as nat);
    assert(way == rest.push(id));
    assert(parent != u32::MAX);
    lemma_lineage_ends(v.nodes, parent, (steps - 1) as nat);
    if k < rest.len() {
        lemma_lineage_steps(v, parent, (steps - 1) as nat, k);
        assert(stand(way, k) == stand(rest, k));
    }
}

proof fn lemma_first_child(nodes: Seq<NodeView>, parent: u32, name: Seq<u8>, from: int, at: int)
    requires
        0 <= from <= at < nodes.len() <= u32::MAX,
        model::is_child_dir(nodes, parent, name, at),
        forall|x: int| from <= x < at ==> !#[trigger] model::is_child_dir(nodes, parent, name, x),
    ensures
        model::first_child_dir(nodes, parent, name, from) == Some(at as u32),
    decreases at - from,
{
    if from < at {
        assert(!model::is_child_dir(nodes, parent, name, from));
        lemma_first_child(nodes, parent, name, from + 1, at);
    }
}

/// Whether a node is a folder with a good name that no other folder with the same
/// parent has too, the case of ASCII letters aside.
pub open spec fn lone_folder(nodes: Seq<NodeView>, id: u32) -> bool {
    let node = nodes[id as int];
    &&& node.dir()
    &&& good_name(node.name)
    &&& forall|x: int|
        1 <= x < nodes.len() && x != id ==> !(nodes[x].parent == node.parent && (
        #[trigger] nodes[x]).dir() && ascii::lower_all(nodes[x].name) == ascii::lower_all(node.name))
}

/// A folder is found by its path, where every node on the way to it is a folder
/// with a name that is UTF-8, not empty and without a backslash, no other folder
/// with the same parent has the same name, the case of ASCII letters aside, and
/// the folder is not so deep that the way to the root is not followed to its end.
pub proof fn law_folder_is_found_by_its_path(v: IndexView, id: u32)
    requires
        v.valid(),
        v.consistent(),
        id < v.nodes.len(),
        v.drive_letter != BACKSLASH,
        model::lineage(v.nodes, id, MAX_STEPS as nat).len() < MAX_STEPS,
        forall|k: int|
            0 <= k < model::lineage(v.nodes, id, MAX_STEPS as nat).len() ==> lone_folder(
                v.nodes,
                #[trigger] model::lineage(v.nodes, id, MAX_STEPS as nat)[k],
            ),
    ensures
        model::dir_at(v.nodes, vstd::utf8::encode_utf8(plain_path(v, id))) == Some(id),
{
    let way = model::lineage(v.nodes, id, MAX_STEPS as nat);
    assert forall|k: int| 0 <= k < way.len() implies good_name(
        v.nodes[(#[trigger] way[k]) as int].name,
    ) && model::first_child_dir(v.nodes, stand(way, k), v.nodes[way[k] as int].name, 1) == Some(
        way[k],
    ) by {
        lemma_lineage_steps(v, id, MAX_STEPS as nat, k);
        let node = v.nodes[way[k] as int];
        assert(lone_folder(v.nodes, way[k]));
        assert forall|x: int| 1 <= x < way[k] implies !#[trigger] model::is_child_dir(
            v.nodes,
            stand(way, k),
            node.name,
            x,
        ) by {
            assert(v.nodes[x].dir() ==> v.nodes[x].parent != node.parent || ascii::lower_all(
                v.nodes[x].name,
            ) != ascii::lower_all(node.name));
        }
        lemma_first_child(v.nodes, stand(way, k), node.name, 1, way[k] as int);
    }
    law_path_leads_back(v, id);
}

/// What a path leads to is a folder.
pub proof fn law_path_leads_to_a_folder(nodes: Seq<NodeView>, path: Seq<u8>)
    requires
        1 <= nodes.len() <= u32::MAX,
        nodes[0].dir(),
    ensures
        model::dir_at(nodes, path) matches Some(id) ==> id < nodes.len() && nodes[id as int].dir(),
{
    lemma_walk_to_folder(
        nodes,
        ROOT_ID,
        ascii::split(ascii::trim_end(path, BACKSLASH), BACKSLASH),
        1,
    );
}

proof fn lemma_walk_to_folder(nodes: Seq<NodeView>, cur: u32, comps: Seq<Seq<u8>>, i: int)
    requires
        nodes.len() <= u32::MAX,
        cur < nodes.len(),
        nodes[cur as int].dir(),
    ensures
        model::walk(nodes, cur, comps, i) matches Some(id) ==> id < nodes.len()
            && nodes[id as int].dir(),
    decreases comps.len() - i,
{
    if i < comps.len() {
        if comps[i].len() == 0 {
            lemma_walk_to_folder(nodes, cur, comps, i + 1);
        } else {
            lemma_child_is_folder(nodes, cur, comps[i], 1);
            if let Some(id) = model::first_child_dir(nodes, cur, comps[i], 1) {
                lemma_walk_to_folder(nodes, id, comps, i + 1);
            }
        }
    }
}

proof fn lemma_child_is_folder(nodes: Seq<NodeView>, parent: u32, name: Seq<u8>, from: int)
    requires
        nodes.len() <= u32::MAX,
        0 <= from,
    ensures
        model::first_child_dir(nodes, parent, name, from) matches Some(id) ==> id < nodes.len()
            && nodes[id as int].dir(),
    decreases nodes.len() - from,
{
    if from < nodes.len() && !model::is_child_dir(nodes, parent, name, from) {
        lemma_child_is_folder(nodes, parent, name, from + 1);
    }
}

proof fn lemma_walk_on(nodes: Seq<NodeView>, cur: u32, comps: Seq<Seq<u8>>, n: Seq<u8>, i: int)
    requires
        0 <= i <= comps.len(),
        n.len() > 0,
    ensures
        model::walk(nodes, cur, comps.push(n), i) == (match model::walk(nodes, cur, comps, i) {
            Some(d) => model::first_child_dir(nodes, d, n, 1),
            None => None,
        }),
    decreases comps.len() - i,
{
    let all = comps.push(n);
    if i == comps.len() {
        assert(all[i] == n);
        if let Some(id) = model::first_child_dir(nodes, cur, n, 1) {
            assert(model::walk(nodes, id, all, i + 1) == Some(id));
        }
    } else {
        assert(all[i] == comps[i]);
        if comps[i].len() == 0 {
            lemma_walk_on(nodes, cur, comps, n, i + 1);
        } else if let Some(id) = model::first_child_dir(nodes, cur, comps[i], 1) {
            lemma_walk_on(nodes, id, comps, n, i + 1);
        }
    }
}

proof fn lemma_child_found(nodes: Seq<NodeView>, parent: u32, name: Seq<u8>, from: int, x: int)
    requires
        nodes.len() <= u32::MAX,
        0 <= from,
    ensures
        match model::first_child_dir(nodes, parent, name, from) {
            Some(id) => from <= id < nodes.len() && model::is_child_dir(
                nodes,
                parent,
                name,
                id as int,
            ) && (from <= x < id ==> !model::is_child_dir(nodes, parent, name, x)),
            None => from <= x < nodes.len() ==> !model::is_child_dir(nodes, parent, name, x),
        },
    decreases nodes.len() - from,
{
    if from < nodes.len() && !model::is_child_dir(nodes, parent, name, from) {
        lemma_child_found(nodes, parent, name, from + 1, x);
    }
}

/// One name more at the end of a path leads from the folder that the path leads to
/// to the first folder right below it with that name, the case of ASCII letters
/// aside, and nowhere where there is none. What stands before the first backslash
/// leads to the root.
pub proof fn law_path_goes_one_name_further(
    nodes: Seq<NodeView>,
    p: Seq<u8>,
    n: Seq<u8>,
    x: int,
)
    requires
        1 <= nodes.len() <= u32::MAX,
        p.len() > 0,
        p.last() != 92,
        n.len() > 0,
        forall|i: int| 0 <= i < n.len() ==> #[trigger] n[i] != 92,
    ensures
        match (model::dir_at(nodes, p), model::dir_at(nodes, p + seq![92u8] + n)) {
            (Some(d), Some(id)) => {
                &&& 1 <= id < nodes.len()
                &&& nodes[id as int].parent == d
                &&& nodes[id as int].flags & 1 != 0
                &&& ascii::lower_all(nodes[id as int].name) == ascii::lower_all(n)
                &&& 1 <= x < id ==> !(nodes[x].parent == d && nodes[x].flags & 1 != 0
                    && ascii::lower_all(nodes[x].name) == ascii::lower_all(n))
            },
            (Some(d), None) => 1 <= x < nodes.len() ==> !(nodes[x].parent == d && nodes[x].flags & 1
                != 0 && ascii::lower_all(nodes[x].name) == ascii::lower_all(n)),
            (None, r) => r is None,
        },
        (forall|i: int| 0 <= i < p.len() ==> #[trigger] p[i] != 92) ==> model::dir_at(nodes, p)
            == Some(0u32),
        model::dir_at(nodes, p.push(92)) == model::dir_at(nodes, p),
{
    let all = p + seq![92u8] + n;
    assert(all.last() == n[n.len() - 1]);
    assert(ascii::trim_end(all, BACKSLASH) == all);
    assert(ascii::trim_end(p, BACKSLASH) == p);
    ascii::law_separator_parts_pieces(p, BACKSLASH, n);
    ascii::law_separator_parts_pieces(n, BACKSLASH, n);
    let comps = ascii::split(p, BACKSLASH);
    assert(ascii::split(all, BACKSLASH) =~= comps.push(n));
    lemma_split_some(p);
    lemma_walk_on(nodes, ROOT_ID, comps, n, 1);
    if let Some(d) = model::dir_at(nodes, p) {
        lemma_child_found(nodes, d, n, 1, x);
    }
    if forall|i: int| 0 <= i < p.len() ==> #[trigger] p[i] != 92 {
        ascii::law_separator_parts_pieces(p, BACKSLASH, p);
    }
    assert(p.push(92).drop_last() =~= p);
}

} // verus!
