//! The folders that are open in the file manager.

use vstd::prelude::*;

use crate::ascii;
use crate::text;
use crate::wide;

verus! {

/// The units before the first zero.
pub open spec fn before_zero(units: Seq<u16>) -> Seq<u16>
    decreases units.len(),
{
    if units.len() == 0 || units[0] == 0 {
        Seq::empty()
    } else {
        seq![units[0]] + before_zero(units.skip(1))
    }
}

/// The text that the system wrote into a buffer, with a zero behind it where the
/// buffer is not full.
pub open spec fn buffer_text(units: Seq<u16>) -> Seq<char> {
    wide::decoded(before_zero(units))
}

/// Whether two texts are the same but for the case of ASCII letters.
pub open spec fn same_folded(a: Seq<char>, b: Seq<char>) -> bool {
    ascii::lower_all(vstd::utf8::encode_utf8(a)) == ascii::lower_all(vstd::utf8::encode_utf8(b))
}

/// Whether a path is listed.
pub open spec fn listed(paths: Seq<Seq<char>>, path: Seq<char>) -> bool {
    exists|i: int| 0 <= i < paths.len() && same_folded(#[trigger] paths[i], path)
}

/// The paths in the buffers, each once, those without a character left out.
pub open spec fn folders_of(buffers: Seq<Vec<u16>>) -> Seq<Seq<char>>
    decreases buffers.len(),
{
    if buffers.len() == 0 {
        Seq::empty()
    } else {
        let before = folders_of(buffers.drop_last());
        let path = buffer_text(buffers.last()@);
        if path.len() == 0 || listed(before, path) {
            before
        } else {
            before.push(path)
        }
    }
}

proof fn lemma_before_zero(units: Seq<u16>, n: int)
    requires
        0 <= n <= units.len(),
        forall|i: int| 0 <= i < n ==> #[trigger] units[i] != 0,
        n == units.len() || units[n] == 0,
    ensures
        before_zero(units) == units.take(n),
    decreases n,
{
    if n == 0 {
        assert(units.take(0) =~= Seq::empty());
    } else {
        let rest = units.skip(1);
        assert forall|i: int| 0 <= i < n - 1 implies #[trigger] rest[i] != 0 by {
            assert(units[i + 1] != 0);
        }
        lemma_before_zero(rest, n - 1);
        assert(units.take(n) =~= seq![units[0]] + rest.take(n - 1));
    }
}

/// The text that the system wrote into a buffer.
pub fn folder_text(units: &[u16]) -> (r: String)
    ensures
        r@ == buffer_text(units@),
{
    let mut n: usize = 0;
    while n < units.len() && units[n] != 0
        invariant
            n <= units@.len(),
            forall|i: int| 0 <= i < n ==> #[trigger] units@[i] != 0,
        decreases units@.len() - n,
    {
        n += 1;
    }
    proof {
        lemma_before_zero(units@, n as int);
    }
    let part = vstd::slice::slice_subrange(units, 0, n);
    assert(part@ =~= units@.take(n as int));
    wide::decode_lossy(part)
}

/// Whether a path is listed.
fn is_listed(paths: &Vec<String>, path: &str) -> (r: bool)
    ensures
        r == listed(text::string_views(paths@), path@),
{
    let mut i: usize = 0;
    while i < paths.len()
        invariant
            i <= paths@.len(),
            forall|k: int| 0 <= k < i ==> !same_folded((#[trigger] paths@[k])@, path@),
        decreases paths@.len() - i,
    {
        if ascii::eq_fold(paths[i].as_str().as_bytes(), path.as_bytes()) {
            assert(same_folded(text::string_views(paths@)[i as int], path@));
            return true;
        }
        i += 1;
    }
    proof {
        let v = text::string_views(paths@);
        assert forall|k: int| 0 <= k < v.len() implies !same_folded(#[trigger] v[k], path@) by {
            assert(!same_folded(paths@[k]@, path@));
        }
    }
    false
}

/// The folders whose paths the system wrote into the buffers, each once.
pub fn enumerate_open_folders(buffers: &[Vec<u16>]) -> (r: Vec<String>)
    ensures
        text::string_views(r@) == folders_of(buffers@),
{
    let mut out: Vec<String> = Vec::new();
    let mut i: usize = 0;
    assert(buffers@.take(0) =~= Seq::empty());
    assert(text::string_views(out@) =~= Seq::empty());
    while i < buffers.len()
        invariant
            i <= buffers@.len(),
            text::string_views(out@) == folders_of(buffers@.take(i as int)),
        decreases buffers@.len() - i,
    {
        let ghost before = out@;
        assert(buffers@.take(i + 1).drop_last() =~= buffers@.take(i as int));
        assert(buffers@.take(i + 1).last() == buffers@[i as int]);
        let s = folder_text(buffers[i].as_slice());
        if !s.as_str().is_empty() && !is_listed(&out, s.as_str()) {
            let ghost path = s@;
            out.push(s);
            assert(text::string_views(out@) =~= text::string_views(before).push(path));
        }
        i += 1;
    }
    assert(buffers@.take(i as int) =~= buffers@);
    out
}

/// No folder is listed twice, and none without a path; every path in a buffer is
/// listed.
pub proof fn law_open_folders_once(buffers: Seq<Vec<u16>>)
    ensures
        forall|i: int|
            0 <= i < folders_of(buffers).len() ==> (#[trigger] folders_of(buffers)[i]).len() > 0,
        forall|i: int, j: int|
            0 <= i < j < folders_of(buffers).len() ==> !same_folded(
                #[trigger] folders_of(buffers)[i],
                #[trigger] folders_of(buffers)[j],
            ),
        forall|k: int|
            0 <= k < buffers.len() && buffer_text((#[trigger] buffers[k])@).len() > 0 ==> listed(
                folders_of(buffers),
                buffer_text(buffers[k]@),
            ),
    decreases buffers.len(),
{
    if buffers.len() > 0 {
        let most = buffers.drop_last();
        law_open_folders_once(most);
        let before = folders_of(most);
        let all = folders_of(buffers);
        let path = buffer_text(buffers.last()@);
        assert forall|i: int, j: int| 0 <= i < j < all.len() implies !same_folded(
            #[trigger] all[i],
            #[trigger] all[j],
        ) by {
            assert(all[i] == before[i]);
            if j < before.len() {
                assert(all[j] == before[j]);
            } else {
                assert(!same_folded(before[i], path));
            }
        }
        assert forall|i: int| 0 <= i < all.len() implies (#[trigger] all[i]).len() > 0 by {
            if i < before.len() {
                assert(all[i] == before[i]);
            }
        }
        assert forall|k: int| 0 <= k < buffers.len() && buffer_text((#[trigger] buffers[k])@).len()
            > 0 implies listed(all, buffer_text(buffers[k]@)) by {
            if k < most.len() {
                assert(most[k] == buffers[k]);
                let i = choose|i: int|
                    0 <= i < before.len() && same_folded(
                        #[trigger] before[i],
                        buffer_text(buffers[k]@),
                    );
                assert(all[i] == before[i]);
            } else if listed(before, path) {
                assert(all == before);
            } else {
                assert(same_folded(all[all.len() - 1], path));
            }
        }
    }
}

/// A text in a buffer ends at the first zero, and at the end of the buffer where
/// there is none.
pub proof fn law_text_ends_at_the_zero(units: Seq<u16>, rest: Seq<u16>)
    requires
        forall|i: int| 0 <= i < units.len() ==> #[trigger] units[i] != 0,
    ensures
        buffer_text(units) == wide::decoded(units),
        buffer_text(units + seq![0u16] + rest) == wide::decoded(units),
{
    let all = units + seq![0u16] + rest;
    let n = units.len() as int;
    lemma_before_zero(units, n);
    assert(units.take(n) =~= units);
    assert forall|i: int| 0 <= i < n implies #[trigger] all[i] != 0 by {
        assert(units[i] != 0);
    }
    assert(all[n] == 0);
    lemma_before_zero(all, n);
    assert(all.take(n) =~= units);
}

/// One more window adds its folder at the end, unless it has none or the folder is
/// listed already, the case of ASCII letters aside.
pub proof fn law_one_more_window(buffers: Seq<Vec<u16>>, b: Vec<u16>)
    ensures
        ({
            let path = buffer_text(b@);
            let before = folders_of(buffers);
            folders_of(buffers.push(b)) == (if path.len() == 0 || exists|i: int|
                0 <= i < before.len() && ascii::lower_all(
                    vstd::utf8::encode_utf8(#[trigger] before[i]),
                ) == ascii::lower_all(vstd::utf8::encode_utf8(path)) {
                before
            } else {
                before.push(path)
            })
        }),
        folders_of(Seq::empty()).len() == 0,
{
    assert(buffers.push(b).drop_last() =~= buffers);
    let path = buffer_text(b@);
    let before = folders_of(buffers);
    if listed(before, path) {
        let i = choose|i: int| 0 <= i < before.len() && same_folded(#[trigger] before[i], path);
        assert(ascii::lower_all(vstd::utf8::encode_utf8(before[i])) == ascii::lower_all(
            vstd::utf8::encode_utf8(path),
        ));
    }
    if exists|i: int|
        0 <= i < before.len() && ascii::lower_all(vstd::utf8::encode_utf8(#[trigger] before[i]))
            == ascii::lower_all(vstd::utf8::encode_utf8(path)) {
        let i = choose|i: int|
            0 <= i < before.len() && ascii::lower_all(vstd::utf8::encode_utf8(#[trigger] before[i]))
                == ascii::lower_all(vstd::utf8::encode_utf8(path));
        assert(same_folded(before[i], path));
    }
}

} // verus!
