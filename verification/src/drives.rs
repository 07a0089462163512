//! Which volumes are indexed.

use vstd::prelude::*;

use crate::ascii;
use crate::text;
use crate::text::to_upper_char;
use crate::wide;

verus! {

/// The kind of a drive that is fixed.
pub const DRIVE_FIXED: u32 = 3;

/// How many letters there are.
pub const LETTERS: usize = 26;

/// What was found out of one drive: its kind, and the name of its file system
/// as the system wrote it into a buffer, where it could be asked for.
#[derive(Debug, Clone)]
pub struct DriveProbe {
    pub kind: u32,
    pub fs_name: Option<Vec<u16>>,
}

/// The letter of drive `i`.
pub open spec fn letter(i: int) -> char {
    (65 + i) as char
}

/// Whether the mask of the logical drives holds drive `i`.
pub open spec fn in_mask(mask: u32, i: int) -> bool {
    mask & (1u32 << (i as u32)) != 0
}

/// Whether the units name the file system `NTFS`, the case of letters and zeros
/// at the end aside.
pub open spec fn names_ntfs(units: Seq<u16>) -> bool {
    ascii::lower_all(
        ascii::trim_end(vstd::utf8::encode_utf8(wide::decoded(units)), 0),
    ) == seq![110u8, 116, 102, 115]
}

/// Whether a drive is fixed and has the file system that can be indexed.
pub open spec fn probe_fits(kind: u32, fs_name: Option<Seq<u16>>) -> bool {
    kind == DRIVE_FIXED && match fs_name {
        Some(units) => names_ntfs(units),
        None => false,
    }
}

/// The name of the file system that was found.
pub open spec fn fs_view(p: DriveProbe) -> Option<Seq<u16>> {
    match p.fs_name {
        Some(units) => Some(units@),
        None => None,
    }
}

/// The letters of the drives before `n` that can be indexed, in their order.
pub open spec fn fitting(mask: u32, probes: Seq<DriveProbe>, n: int) -> Seq<char>
    decreases n,
{
    if n <= 0 {
        Seq::empty()
    } else {
        let before = fitting(mask, probes, n - 1);
        if in_mask(mask, n - 1) && probe_fits(probes[n - 1].kind, fs_view(probes[n - 1])) {
            before.push(letter(n - 1))
        } else {
            before
        }
    }
}

/// Whether the units name the file system `NTFS`.
pub fn is_ntfs(units: &[u16]) -> (r: bool)
    ensures
        r == names_ntfs(units@),
{
    let name = wide::decode_lossy(units);
    let bytes = name.as_str().as_bytes();
    let n: usize = ascii::trimmed_len(bytes, 0);
    let trimmed = vstd::slice::slice_subrange(bytes, 0, n);
    let ntfs: [u8; 4] = [78, 84, 70, 83];
    proof {
        assert(trimmed@ =~= bytes@.take(n as int));
        let low = ascii::lower_all(ntfs@);
        assert(low[0] == 110 && low[1] == 116 && low[2] == 102 && low[3] == 115);
        assert(low =~= seq![110u8, 116, 102, 115]);
    }
    ascii::eq_fold(trimmed, ntfs.as_slice())
}

/// Whether the mask of the logical drives holds drive `i`.
pub fn has_drive(mask: u32, i: u32) -> (r: bool)
    requires
        i < LETTERS,
    ensures
        r == in_mask(mask, i as int),
{
    mask & (1u32 << i) != 0
}

/// The letters of the fixed drives with the file system `NTFS`.
pub fn ntfs_fixed_drives(mask: u32, probes: &[DriveProbe]) -> (r: Vec<char>)
    requires
        probes@.len() == LETTERS,
    ensures
        r@ == fitting(mask, probes@, LETTERS as int),
{
    let mut out: Vec<char> = Vec::new();
    let mut i: u32 = 0;
    while i < LETTERS as u32
        invariant
            i <= LETTERS,
            probes@.len() == LETTERS,
            out@ == fitting(mask, probes@, i as int),
        decreases LETTERS - i,
    {
        if has_drive(mask, i) {
            let p = &probes[i as usize];
            if p.kind == DRIVE_FIXED {
                if let Some(units) = &p.fs_name {
                    if is_ntfs(units.as_slice()) {
                        out.push(wide::char_at(65 + i));
                    }
                }
            }
        }
        i += 1;
    }
    out
}

/// The letters that are to be indexed: all, or those asked for.
pub open spec fn wanted(letters: Seq<char>, only: Seq<char>, n: int) -> Seq<char>
    decreases n,
{
    if n <= 0 {
        Seq::empty()
    } else {
        let before = wanted(letters, only, n - 1);
        if only.len() == 0 || exists|k: int|
            0 <= k < only.len() && text::upper_char(#[trigger] only[k]) == letters[n - 1] {
            before.push(letters[n - 1])
        } else {
            before
        }
    }
}

/// Keeps the letters that are asked for. Where none is asked for, all are kept.
pub fn wanted_drives(letters: &[char], only: &[char]) -> (r: Vec<char>)
    ensures
        r@ == wanted(letters@, only@, letters@.len() as int),
{
    let mut out: Vec<char> = Vec::new();
    let mut i: usize = 0;
    while i < letters.len()
        invariant
            i <= letters@.len(),
            out@ == wanted(letters@, only@, i as int),
        decreases letters@.len() - i,
    {
        let c: char = letters[i];
        let mut found: bool = only.len() == 0;
        let mut k: usize = 0;
        while !found && k < only.len()
            invariant
                k <= only@.len(),
                found ==> only@.len() == 0 || exists|j: int|
                    0 <= j < only@.len() && text::upper_char(#[trigger] only@[j]) == c,
                !found ==> only@.len() > 0 && forall|j: int|
                    0 <= j < k ==> text::upper_char(#[trigger] only@[j]) != c,
            decreases only@.len() - k,
        {
            if to_upper_char(only[k]) == c {
                found = true;
            }
            k += 1;
        }
        if found {
            out.push(c);
        }
        i += 1;
    }
    out
}

proof fn lemma_fitting(mask: u32, probes: Seq<DriveProbe>, n: int)
    requires
        0 <= n <= LETTERS,
    ensures
        forall|k: int|
            0 <= k < fitting(mask, probes, n).len() ==> 'A' <= #[trigger] fitting(
                mask,
                probes,
                n,
            )[k] && (fitting(mask, probes, n)[k] as int) < 65 + n,
        forall|j: int, k: int|
            0 <= j < k < fitting(mask, probes, n).len() ==> #[trigger] fitting(mask, probes, n)[j]
                < #[trigger] fitting(mask, probes, n)[k],
    decreases n,
{
    if n > 0 {
        lemma_fitting(mask, probes, n - 1);
        let before = fitting(mask, probes, n - 1);
        let all = fitting(mask, probes, n);
        assert forall|k: int| 0 <= k < all.len() implies 'A' <= #[trigger] all[k] && (all[k] as int)
            < 65 + n by {
            if k < before.len() {
                assert(all[k] == before[k]);
            }
        }
        assert forall|j: int, k: int| 0 <= j < k < all.len() implies #[trigger] all[j]
            < #[trigger] all[k] by {
            assert(all[j] == before[j]);
            if k < before.len() {
                assert(all[k] == before[k]);
            }
        }
    }
}

/// The letters are capital, and each comes once, in alphabetical order.
pub proof fn law_letters_are_capital_and_ascending(mask: u32, probes: Seq<DriveProbe>)
    ensures
        ({
            let all = fitting(mask, probes, LETTERS as int);
            &&& forall|k: int| 0 <= k < all.len() ==> 'A' <= #[trigger] all[k] && all[k] <= 'Z'
            &&& forall|j: int, k: int|
                0 <= j < k < all.len() ==> #[trigger] all[j] < #[trigger] all[k]
        }),
{
    lemma_fitting(mask, probes, LETTERS as int);
}

proof fn lemma_fitting_holds(mask: u32, probes: Seq<DriveProbe>, n: int, i: int)
    requires
        0 <= i < LETTERS,
        0 <= n <= LETTERS,
    ensures
        fitting(mask, probes, n).contains(letter(i)) <==> i < n && in_mask(mask, i) && probe_fits(
            probes[i].kind,
            fs_view(probes[i]),
        ),
    decreases n,
{
    if n > 0 {
        lemma_fitting_holds(mask, probes, n - 1, i);
        let before = fitting(mask, probes, n - 1);
        let all = fitting(mask, probes, n);
        if before.contains(letter(i)) {
            let k = choose|k: int| 0 <= k < before.len() && before[k] == letter(i);
            assert(all[k] == letter(i));
        }
        if all.len() > before.len() {
            assert(all[all.len() - 1] == letter(n - 1));
        }
        if all.contains(letter(i)) {
            let k = choose|k: int| 0 <= k < all.len() && all[k] == letter(i);
            if k < before.len() {
                assert(before[k] == letter(i));
            } else {
                assert(letter(n - 1) == letter(i));
                assert((65 + (n - 1)) as char as u32 == 65 + (n - 1));
                assert((65 + i) as char as u32 == 65 + i);
            }
        }
    }
}

/// A drive is indexed exactly where its bit is set among the logical drives, it is a
/// fixed one, and its file system is named as NTFS.
pub proof fn law_fixed_drives_are_indexed(mask: u32, probes: Seq<DriveProbe>, i: int)
    requires
        0 <= i < 26,
    ensures
        fitting(mask, probes, 26).contains((65 + i) as char) <==> mask & (1u32 << (i as u32)) != 0
            && probes[i].kind == 3 && (probes[i].fs_name matches Some(units) && names_ntfs(units@)),
{
    lemma_fitting_holds(mask, probes, 26, i);
}

/// `NTFS`, in any case and with zeros behind it, names the file system, and nothing
/// else does.
pub proof fn law_name_of_the_file_system(units: Seq<u16>, t: Seq<u8>, n: nat)
    requires
        t.len() > 0 ==> t.last() != 0,
        vstd::utf8::encode_utf8(wide::decoded(units)) == t + Seq::new(n, |i: int| 0u8),
    ensures
        names_ntfs(units) <==> ascii::lower_all(t) == seq![110u8, 116, 102, 115],
{
    ascii::law_trimming_takes_all_at_the_end(t, 0, n);
}

/// All letters are wanted where none is asked for, and else those that are asked
/// for, as capitals or as small letters, in their order.
pub proof fn law_wanted_letters(letters: Seq<char>, only: Seq<char>, c: char, k: int)
    ensures
        only.len() == 0 ==> wanted(letters, only, letters.len() as int) == letters,
        0 <= k < only.len() && text::upper_char(only[k]) == c ==> wanted(
            letters.push(c),
            only,
            (letters.len() + 1) as int,
        ) == wanted(letters, only, letters.len() as int).push(c),
        only.len() > 0 && (forall|j: int|
            0 <= j < only.len() ==> text::upper_char(#[trigger] only[j]) != c) ==> wanted(
            letters.push(c),
            only,
            (letters.len() + 1) as int,
        ) == wanted(letters, only, letters.len() as int),
{
    lemma_wanted_prefix(letters, only, c, letters.len() as int);
    if only.len() == 0 {
        lemma_all_wanted(letters, only, letters.len() as int);
        assert(letters.take(letters.len() as int) =~= letters);
    }
}

proof fn lemma_wanted_prefix(letters: Seq<char>, only: Seq<char>, c: char, n: int)
    requires
        n <= letters.len(),
    ensures
        wanted(letters.push(c), only, n) == wanted(letters, only, n),
    decreases n,
{
    if n > 0 {
        lemma_wanted_prefix(letters, only, c, n - 1);
        assert(letters.push(c)[n - 1] == letters[n - 1]);
    }
}

proof fn lemma_all_wanted(letters: Seq<char>, only: Seq<char>, n: int)
    requires
        only.len() == 0,
        0 <= n <= letters.len(),
    ensures
        wanted(letters, only, n) == letters.take(n),
    decreases n,
{
    if n > 0 {
        lemma_all_wanted(letters, only, n - 1);
        assert(letters.take(n) =~= letters.take(n - 1).push(letters[n - 1]));
    } else {
        assert(letters.take(0) =~= Seq::empty());
    }
}

} // verus!
