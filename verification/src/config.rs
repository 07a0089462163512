//! Favorite folders, recent folders and settings.

use vstd::prelude::*;

use crate::ascii;
use crate::characters;
use crate::model::BACKSLASH;
use crate::pattern;
use crate::text;
use crate::text::{copy_strings, eq_str, to_decimal};

verus! {

/// The list of texts that `serde_json::from_slice` reads from JSON bytes, and
/// none where the bytes are no such list.
pub uninterp spec fn json_list(bytes: Seq<u8>) -> Option<Seq<Seq<char>>>;

/// The bytes that `serde_json::to_vec_pretty` makes of a list of texts.
pub uninterp spec fn pretty_json(list: Seq<Seq<char>>) -> Seq<u8>;

/// `serde_json::from_slice` for a list of texts. What it reads goes by the name
/// [`json_list`]; the error that says what is wrong with other bytes is dropped.
#[verifier::external_body]
fn parse_list(bytes: &[u8]) -> (r: Option<Vec<String>>)
    ensures
        json_list(bytes@) == (match r {
            Some(v) => Some(text::string_views(v@)),
            None => None,
        }),
{
    serde_json::from_slice::<Vec<String>>(bytes).ok()
}

/// `serde_json::to_vec_pretty` for a list of texts. Its result goes by the name
/// [`pretty_json`] and is read back as the same list. It fails only for maps
/// and for types that refuse to be written, so never for such a list.
#[verifier::external_body]
fn write_list(list: &Vec<String>) -> (r: Option<Vec<u8>>)
    ensures
        r is Some,
        r->0@ == pretty_json(text::string_views(list@)),
        json_list(r->0@) == Some(text::string_views(list@)),
{
    serde_json::to_vec_pretty(list).ok()
}

/// A list as it was found in its file, and whether the file is damaged and to
/// be put aside.
#[derive(Debug, Clone)]
pub struct ListFile {
    pub list: Vec<String>,
    pub quarantine: bool,
}

/// The list in a file with the given bytes, where there is one. A missing file
/// and a damaged one hold no entry.
pub open spec fn list_in(file: Option<Seq<u8>>) -> Seq<Seq<char>> {
    match file {
        Some(bytes) => match json_list(bytes) {
            Some(list) => list,
            None => Seq::empty(),
        },
        None => Seq::empty(),
    }
}

/// Whether a file with the given bytes is damaged. A missing one is not.
pub open spec fn damaged(file: Option<Seq<u8>>) -> bool {
    file matches Some(bytes) && json_list(bytes) is None
}

/// The bytes of a file that may be there.
pub open spec fn file_view(file: Option<&[u8]>) -> Option<Seq<u8>> {
    match file {
        Some(bytes) => Some(bytes@),
        None => None,
    }
}

/// The list that was read from a file, or no entry, and the file put aside,
/// where it could not be read.
pub fn settle_list(parsed: Option<Vec<String>>) -> (r: ListFile)
    ensures
        match parsed {
            Some(v) => r.list@ == v@ && !r.quarantine,
            None => r.list@.len() == 0 && r.quarantine,
        },
{
    match parsed {
        Some(list) => ListFile { list, quarantine: false },
        None => ListFile { list: Vec::new(), quarantine: true },
    }
}

/// The list in a file with the given bytes, where there is one.
pub fn load_list(file: Option<&[u8]>) -> (r: ListFile)
    ensures
        text::string_views(r.list@) == list_in(file_view(file)),
        r.quarantine == damaged(file_view(file)),
{
    let r = match file {
        Some(bytes) => settle_list(parse_list(bytes)),
        None => ListFile { list: Vec::new(), quarantine: false },
    };
    assert(text::string_views(r.list@) =~= list_in(file_view(file)));
    r
}

/// The bytes of the file that a list is kept in.
pub fn save_list(list: &Vec<String>) -> (r: Option<Vec<u8>>)
    ensures
        r matches Some(b) && b@ == pretty_json(text::string_views(list@)) && list_in(Some(b@))
            == text::string_views(list@) && !damaged(Some(b@)),
{
    write_list(list)
}

/// The bytes of a path without backslashes at its end, ASCII letters lowered.
pub open spec fn path_key(path: Seq<char>) -> Seq<u8> {
    ascii::lower_all(ascii::trim_end(vstd::utf8::encode_utf8(path), BACKSLASH))
}

/// Whether two paths are the same but for backslashes at the end and the case
/// of ASCII letters.
pub open spec fn same(a: Seq<char>, b: Seq<char>) -> bool {
    path_key(a) == path_key(b)
}

/// Being the same path is an equivalence.
pub proof fn law_same_path_is_equivalence(a: Seq<char>, b: Seq<char>, c: Seq<char>)
    ensures
        same(a, a),
        same(a, b) ==> same(b, a),
        same(a, b) && same(b, c) ==> same(a, c),
{
}

/// Whether two paths are the same but for backslashes at the end and the case
/// of ASCII letters.
pub fn same_path(a: &str, b: &str) -> (r: bool)
    ensures
        r == same(a@, b@),
{
    let x = a.as_bytes();
    let y = b.as_bytes();
    let n: usize = ascii::trimmed_len(x, BACKSLASH);
    let m: usize = ascii::trimmed_len(y, BACKSLASH);
    let p = vstd::slice::slice_subrange(x, 0, n);
    let q = vstd::slice::slice_subrange(y, 0, m);
    assert(p@ =~= x@.take(n as int));
    assert(q@ =~= y@.take(m as int));
    ascii::eq_fold(p, q)
}

/// Whether the path is in the list.
pub open spec fn listed(list: Seq<Seq<char>>, path: Seq<char>) -> bool {
    exists|i: int| 0 <= i < list.len() && same(#[trigger] list[i], path)
}

/// The list without the path.
pub open spec fn without(list: Seq<Seq<char>>, path: Seq<char>) -> Seq<Seq<char>>
    decreases list.len(),
{
    if list.len() == 0 {
        Seq::empty()
    } else {
        let before = without(list.drop_last(), path);
        if same(list.last(), path) {
            before
        } else {
            before.push(list.last())
        }
    }
}

/// The favorites in the file with the given bytes, where there is one.
pub fn favorites(file: Option<&[u8]>) -> (r: ListFile)
    ensures
        text::string_views(r.list@) == list_in(file_view(file)),
        r.quarantine == damaged(file_view(file)),
{
    load_list(file)
}

/// The recent folders, the latest first, in the file with the given bytes, where
/// there is one.
pub fn recent(file: Option<&[u8]>) -> (r: ListFile)
    ensures
        text::string_views(r.list@) == list_in(file_view(file)),
        r.quarantine == damaged(file_view(file)),
{
    load_list(file)
}

/// Whether the path is among the favorites.
pub fn is_favorite(list: &[String], path: &str) -> (r: bool)
    ensures
        r == listed(text::string_views(list@), path@),
{
    let mut i: usize = 0;
    while i < list.len()
        invariant
            i <= list@.len(),
            forall|k: int| 0 <= k < i ==> !same((#[trigger] list@[k])@, path@),
        decreases list@.len() - i,
    {
        if same_path(list[i].as_str(), path) {
            assert(same(text::string_views(list@)[i as int], path@));
            return true;
        }
        i += 1;
    }
    proof {
        let v = text::string_views(list@);
        assert forall|k: int| 0 <= k < v.len() implies !same(#[trigger] v[k], path@) by {
            assert(!same(list@[k]@, path@));
        }
    }
    false
}

/// Adds a favorite. Returns whether the list changed and is to be saved: a path
/// that is there already is not added.
pub fn add_favorite(list: &mut Vec<String>, path: &str) -> (changed: bool)
    ensures
        changed == !listed(text::string_views(old(list)@), path@),
        text::string_views(final(list)@) == (if changed {
            text::string_views(old(list)@).push(path@)
        } else {
            text::string_views(old(list)@)
        }),
{
    if is_favorite(list.as_slice(), path) {
        return false;
    }
    list.push(path.to_owned());
    assert(text::string_views(list@) =~= text::string_views(old(list)@).push(path@));
    true
}

/// Takes the path out of the list.
fn drop_path(list: &Vec<String>, path: &str) -> (r: Vec<String>)
    ensures
        text::string_views(r@) == without(text::string_views(list@), path@),
        r@.len() <= list@.len(),
{
    let ghost all = text::string_views(list@);
    let mut out: Vec<String> = Vec::new();
    let mut i: usize = 0;
    assert(text::string_views(out@) =~= without(all.take(0), path@));
    while i < list.len()
        invariant
            i <= list@.len(),
            all == text::string_views(list@),
            text::string_views(out@) == without(all.take(i as int), path@),
            out@.len() <= i,
        decreases list@.len() - i,
    {
        let ghost before = out@;
        proof {
            assert(all.take(i + 1).drop_last() =~= all.take(i as int));
            assert(all.take(i + 1).last() == list@[i as int]@);
        }
        if !same_path(list[i].as_str(), path) {
            out.push(list[i].clone());
            assert(text::string_views(out@) =~= text::string_views(before).push(
                list@[i as int]@,
            ));
        }
        i += 1;
    }
    assert(all.take(i as int) =~= all);
    out
}

proof fn lemma_without(list: Seq<Seq<char>>, path: Seq<char>)
    ensures
        without(list, path).len() <= list.len(),
        without(list, path).len() == list.len() <==> !listed(list, path),
        !listed(list, path) ==> without(list, path) == list,
        !listed(without(list, path), path),
        forall|q: Seq<char>| #[trigger]
            listed(without(list, path), q) <==> listed(list, q) && !same(q, path),
    decreases list.len(),
{
    if list.len() > 0 {
        let most = list.drop_last();
        let rest = without(most, path);
        let all = without(list, path);
        lemma_without(most, path);
        assert(list =~= most.push(list.last()));
        assert forall|q: Seq<char>| #[trigger] listed(list, q) == (listed(most, q) || same(
            list.last(),
            q,
        )) by {
            if listed(list, q) {
                let i = choose|i: int| 0 <= i < list.len() && same(#[trigger] list[i], q);
                if i < most.len() {
                    assert(same(most[i], q));
                }
            }
            if listed(most, q) {
                let i = choose|i: int| 0 <= i < most.len() && same(#[trigger] most[i], q);
                assert(same(list[i], q));
            }
            if same(list.last(), q) {
                assert(same(list[list.len() - 1], q));
            }
        }
        if !same(list.last(), path) {
            assert forall|q: Seq<char>| #[trigger] listed(all, q) == (listed(rest, q) || same(
                list.last(),
                q,
            )) by {
                if listed(all, q) {
                    let i = choose|i: int| 0 <= i < all.len() && same(#[trigger] all[i], q);
                    if i < rest.len() {
                        assert(same(rest[i], q));
                    }
                }
                if listed(rest, q) {
                    let i = choose|i: int| 0 <= i < rest.len() && same(#[trigger] rest[i], q);
                    assert(same(all[i], q));
                }
                if same(list.last(), q) {
                    assert(same(all[all.len() - 1], q));
                }
            }
            if !listed(list, path) {
                assert(all =~= list);
            }
        }
    }
}

/// Removes a favorite. Returns whether the list changed and is to be saved.
pub fn remove_favorite(list: &mut Vec<String>, path: &str) -> (changed: bool)
    ensures
        changed == listed(text::string_views(old(list)@), path@),
        text::string_views(final(list)@) == without(text::string_views(old(list)@), path@),
{
    let kept = drop_path(list, path);
    proof {
        lemma_without(text::string_views(list@), path@);
        assert(text::string_views(kept@).len() == kept@.len());
        assert(text::string_views(list@).len() == list@.len());
    }
    let changed: bool = kept.len() != list.len();
    *list = kept;
    changed
}

/// The favorites after one was switched.
pub open spec fn toggled(list: Seq<Seq<char>>, path: Seq<char>) -> Seq<Seq<char>> {
    if listed(list, path) {
        without(list, path)
    } else {
        list.push(path)
    }
}

/// Adds a favorite, or removes it where it is there already. Returns whether the
/// list changed and is to be saved, which is always so.
pub fn toggle_favorite(list: &mut Vec<String>, path: &str) -> (changed: bool)
    ensures
        changed,
        text::string_views(final(list)@) == toggled(text::string_views(old(list)@), path@),
{
    if is_favorite(list.as_slice(), path) {
        remove_favorite(list, path)
    } else {
        add_favorite(list, path)
    }
}

/// Switching a favorite changes whether it is there and nothing else; where it
/// was not there, switching it twice changes nothing.
pub proof fn law_toggle_switches(list: Seq<Seq<char>>, path: Seq<char>, other: Seq<char>)
    requires
        !same(other, path),
    ensures
        listed(toggled(list, path), path) == !listed(list, path),
        listed(toggled(list, path), other) == listed(list, other),
        !listed(list, path) ==> toggled(toggled(list, path), path) == list,
{
    lemma_without(list, path);
    let more = list.push(path);
    if !listed(list, path) {
        assert(same(more[list.len() as int], path));
        lemma_without(more, path);
        assert(more.drop_last() =~= list);
        assert(without(more, path) == without(list, path));
        if listed(more, other) {
            let i = choose|i: int| 0 <= i < more.len() && same(#[trigger] more[i], other);
            assert(same(list[i], other));
        }
        if listed(list, other) {
            let i = choose|i: int| 0 <= i < list.len() && same(#[trigger] list[i], other);
            assert(same(more[i], other));
        }
    }
}

/// The recent folders after one more: it comes first and only once, and no more
/// than `max` are kept.
pub open spec fn recorded(list: Seq<Seq<char>>, path: Seq<char>, max: int) -> Seq<Seq<char>> {
    let all = seq![path] + without(list, path);
    if all.len() <= max {
        all
    } else {
        all.take(max)
    }
}

/// Records a recent folder.
pub fn record_recent(list: &mut Vec<String>, path: &str, recent_max: usize)
    ensures
        text::string_views(final(list)@) == recorded(
            text::string_views(old(list)@),
            path@,
            recent_max as int,
        ),
{
    let ghost before = text::string_views(list@);
    let mut kept = drop_path(list, path);
    let ghost rest = kept@;
    kept.insert(0, path.to_owned());
    assert(text::string_views(kept@) =~= seq![path@] + text::string_views(rest));
    let ghost all = kept@;
    kept.truncate(recent_max);
    proof {
        assert(text::string_views(all).len() == all.len());
        if recent_max < all.len() {
            assert(text::string_views(kept@) =~= text::string_views(all).take(recent_max as int));
        } else {
            assert(kept@ =~= all);
        }
    }
    *list = kept;
}

/// The folder that was recorded comes first, no folder comes twice where none
/// did before, and there are never more than the maximum.
pub proof fn law_recent_is_recent(list: Seq<Seq<char>>, path: Seq<char>, max: int)
    requires
        0 <= max,
        forall|i: int, j: int|
            0 <= i < j < list.len() ==> !same(#[trigger] list[i], #[trigger] list[j]),
    ensures
        recorded(list, path, max).len() <= max,
        max > 0 ==> recorded(list, path, max)[0] == path,
        forall|i: int, j: int|
            0 <= i < j < recorded(list, path, max).len() ==> !same(
                #[trigger] recorded(list, path, max)[i],
                #[trigger] recorded(list, path, max)[j],
            ),
{
    let rest = without(list, path);
    let r = recorded(list, path, max);
    lemma_without(list, path);
    lemma_without_distinct(list, path);
    assert forall|i: int, j: int| 0 <= i < j < r.len() implies !same(
        #[trigger] r[i],
        #[trigger] r[j],
    ) by {
        assert(r[j] == rest[j - 1]);
        if i == 0 {
            if same(r[0], r[j]) {
                assert(same(rest[j - 1], path));
                assert(listed(rest, path));
            }
        } else {
            assert(r[i] == rest[i - 1]);
        }
    }
}

proof fn lemma_without_distinct(list: Seq<Seq<char>>, path: Seq<char>)
    requires
        forall|i: int, j: int|
            0 <= i < j < list.len() ==> !same(#[trigger] list[i], #[trigger] list[j]),
    ensures
        forall|i: int, j: int|
            0 <= i < j < without(list, path).len() ==> !same(
                #[trigger] without(list, path)[i],
                #[trigger] without(list, path)[j],
            ),
    decreases list.len(),
{
    if list.len() > 0 {
        let most = list.drop_last();
        assert forall|i: int, j: int| 0 <= i < j < most.len() implies !same(
            #[trigger] most[i],
            #[trigger] most[j],
        ) by {
            assert(!same(list[i], list[j]));
        }
        lemma_without_distinct(most, path);
        lemma_without(most, path);
        let rest = without(most, path);
        let all = without(list, path);
        assert forall|i: int, j: int| 0 <= i < j < all.len() implies !same(
            #[trigger] all[i],
            #[trigger] all[j],
        ) by {
            assert(all[i] == rest[i]);
            if j < rest.len() {
                assert(all[j] == rest[j]);
            } else {
                if same(rest[i], list.last()) {
                    assert(listed(rest, list.last()));
                    assert(listed(most, list.last()));
                    let k = choose|k: int|
                        0 <= k < most.len() && same(#[trigger] most[k], list.last());
                    assert(same(list[k], list[list.len() - 1]));
                }
            }
        }
    }
}

/// The settings.
#[derive(Debug, Clone)]
pub struct Settings {
    /// The name of the theme.
    pub theme: String,
    /// The letters of the volumes to index; none stands for all.
    pub indexed_drives: Vec<char>,
    /// Folders that a search can be narrowed to.
    pub preset_folders: Vec<String>,
    /// How many results a search returns at most.
    pub result_limit: usize,
    /// How many recent folders are kept.
    pub recent_max: usize,
    /// Whether the program starts with the session.
    pub autostart: bool,
    /// Whether file dialogs get a popup.
    pub popup_enabled: bool,
    pub popup_show_favorites: bool,
    pub popup_show_recent: bool,
    pub popup_show_open: bool,
    /// What was searched for last.
    pub last_query: String,
}

/// What [`Settings`] hold.
#[verifier::ext_equal]
pub struct SettingsView {
    pub theme: Seq<char>,
    pub indexed_drives: Seq<char>,
    pub preset_folders: Seq<Seq<char>>,
    pub result_limit: usize,
    pub recent_max: usize,
    pub autostart: bool,
    pub popup_enabled: bool,
    pub popup_show_favorites: bool,
    pub popup_show_recent: bool,
    pub popup_show_open: bool,
    pub last_query: Seq<char>,
}

impl View for Settings {
    type V = SettingsView;

    open spec fn view(&self) -> SettingsView {
        SettingsView {
            theme: self.theme@,
            indexed_drives: self.indexed_drives@,
            preset_folders: text::string_views(self.preset_folders@),
            result_limit: self.result_limit,
            recent_max: self.recent_max,
            autostart: self.autostart,
            popup_enabled: self.popup_enabled,
            popup_show_favorites: self.popup_show_favorites,
            popup_show_recent: self.popup_show_recent,
            popup_show_open: self.popup_show_open,
            last_query: self.last_query@,
        }
    }
}

/// How many results a search returns where nothing else is set.
pub const DEFAULT_RESULT_LIMIT: usize = 200;

/// How many recent folders are kept where nothing else is set.
pub const DEFAULT_RECENT_MAX: usize = 2;

/// The settings where nothing is set.
pub open spec fn default_settings() -> SettingsView {
    SettingsView {
        theme: "business_light"@,
        indexed_drives: Seq::empty(),
        preset_folders: Seq::empty(),
        result_limit: DEFAULT_RESULT_LIMIT,
        recent_max: DEFAULT_RECENT_MAX,
        autostart: false,
        popup_enabled: true,
        popup_show_favorites: true,
        popup_show_recent: true,
        popup_show_open: true,
        last_query: Seq::empty(),
    }
}

impl Default for Settings {
    fn default() -> (r: Settings)
        ensures
            r@ == default_settings(),
    {
        let r = Settings {
            theme: "business_light".to_owned(),
            indexed_drives: Vec::new(),
            preset_folders: Vec::new(),
            result_limit: DEFAULT_RESULT_LIMIT,
            recent_max: DEFAULT_RECENT_MAX,
            autostart: false,
            popup_enabled: true,
            popup_show_favorites: true,
            popup_show_recent: true,
            popup_show_open: true,
            last_query: String::new(),
        };
        assert(r@ =~~= default_settings());
        r
    }
}

/// A copy of a list of characters.
pub fn copy_chars(v: &[char]) -> (r: Vec<char>)
    ensures
        r@ == v@,
{
    let mut out: Vec<char> = Vec::new();
    let mut i: usize = 0;
    while i < v.len()
        invariant
            i <= v@.len(),
            out@ == v@.take(i as int),
        decreases v@.len() - i,
    {
        out.push(v[i]);
        i += 1;
        assert(out@ =~= v@.take(i as int));
    }
    assert(v@.take(i as int) =~= v@);
    out
}

/// A copy of the settings.
pub fn copy_settings(s: &Settings) -> (r: Settings)
    ensures
        r@ == s@,
{
    Settings {
        theme: s.theme.clone(),
        indexed_drives: copy_chars(s.indexed_drives.as_slice()),
        preset_folders: copy_strings(s.preset_folders.as_slice()),
        result_limit: s.result_limit,
        recent_max: s.recent_max,
        autostart: s.autostart,
        popup_enabled: s.popup_enabled,
        popup_show_favorites: s.popup_show_favorites,
        popup_show_recent: s.popup_show_recent,
        popup_show_open: s.popup_show_open,
        last_query: s.last_query.clone(),
    }
}

/// What reading the file of the settings came to.
pub enum SettingsRead {
    /// There is none, or it could not be read.
    Missing,
    /// It is damaged.
    Corrupt,
    /// It holds these settings.
    Parsed(Settings),
}

/// The settings as a process holds them: read once, then kept.
pub struct SettingsCache {
    value: Settings,
}

impl View for SettingsCache {
    type V = SettingsView;

    closed spec fn view(&self) -> SettingsView {
        self.value@
    }
}

/// The settings to begin with, and whether their file is damaged and to be put
/// aside: the defaults where there are none to read.
pub fn load_settings_from_disk(read: SettingsRead) -> (r: (SettingsCache, bool))
    ensures
        r.0@ == (match read {
            SettingsRead::Parsed(s) => s@,
            _ => default_settings(),
        }),
        r.1 == (read is Corrupt),
{
    match read {
        SettingsRead::Parsed(s) => (SettingsCache { value: s }, false),
        SettingsRead::Corrupt => (SettingsCache { value: Settings::default() }, true),
        SettingsRead::Missing => (SettingsCache { value: Settings::default() }, false),
    }
}

/// The settings.
pub fn load_settings(cache: &SettingsCache) -> (r: Settings)
    ensures
        r@ == cache@,
{
    copy_settings(&cache.value)
}

/// Changes the settings. From now on they are what [`load_settings`] gives,
/// whether or not they can be written to their file.
pub fn save_settings(cache: &mut SettingsCache, s: &Settings)
    ensures
        final(cache)@ == s@,
{
    cache.value = copy_settings(s);
}

/// What was searched for last.
pub fn last_query(cache: &SettingsCache) -> (r: String)
    ensures
        r@ == cache@.last_query,
{
    cache.value.last_query.clone()
}

/// Keeps what was searched for. Returns whether that is news and the settings
/// are to be written to their file.
pub fn save_last_query(cache: &mut SettingsCache, q: &str) -> (changed: bool)
    ensures
        changed == (old(cache)@.last_query != q@),
        final(cache)@ == (SettingsView { last_query: q@, ..old(cache)@ }),
{
    if eq_str(cache.value.last_query.as_str(), q) {
        return false;
    }
    cache.value.last_query = q.to_owned();
    true
}

/// How many names are tried for a damaged file before the last is taken as it
/// is.
pub const QUARANTINE_TRIES: u32 = 9;

/// The extension under which a damaged file is put aside at second `ts`, at the
/// given attempt.
pub open spec fn quarantine_name(ts: nat, attempt: nat) -> Seq<char> {
    let first = "json.corrupt-"@ + text::decimal(ts);
    if attempt == 0 {
        first
    } else {
        first + "-"@ + text::decimal(attempt)
    }
}

/// The extension under which a damaged file is put aside.
pub fn quarantine_ext(ts: u64, attempt: u32) -> (r: String)
    ensures
        r@ == quarantine_name(ts as nat, attempt as nat),
{
    let mut s = "json.corrupt-".to_owned();
    text::push_text(&mut s, to_decimal(ts).as_str());
    if attempt > 0 {
        text::push_text(&mut s, "-");
        text::push_text(&mut s, to_decimal(attempt as u64).as_str());
    }
    s
}

/// The attempt after one whose name is taken or not. None where the name is to
/// be used: it is free, or it is the last.
pub fn next_quarantine(attempt: u32, taken: bool) -> (r: Option<u32>)
    ensures
        r == (if taken && attempt < QUARANTINE_TRIES {
            Some((attempt + 1) as u32)
        } else {
            None
        }),
{
    if taken && attempt < QUARANTINE_TRIES {
        Some(attempt + 1)
    } else {
        None
    }
}

/// The extension of the file that is written before it takes the place of
/// another: it names the process and how many such files it wrote before.
pub fn tmp_ext(pid: u32, seq: u32) -> (r: String)
    ensures
        r@ == tmp_name(pid as nat, seq as nat),
{
    let mut s = "tmp.".to_owned();
    text::push_text(&mut s, to_decimal(pid as u64).as_str());
    text::push_text(&mut s, ".");
    text::push_text(&mut s, to_decimal(seq as u64).as_str());
    s
}

/// How often a file is renamed before that is given up.
pub const RENAME_TRIES: u32 = 3;

/// What to do after a rename failed.
#[derive(Debug, Clone, Copy, PartialEq, Eq, Structural)]
pub struct RetryStep {
    /// How long to wait, in milliseconds.
    pub wait_ms: u64,
    /// Whether to try again.
    pub again: bool,
}

/// What to do after the rename of attempt `attempt`, counted from zero, failed:
/// wait longer each time and try again, three times in all. With `wait_last` it
/// is waited after the last attempt too.
pub fn after_failed_rename(attempt: u32, wait_last: bool) -> (r: RetryStep)
    requires
        attempt < RENAME_TRIES,
    ensures
        r.again == (attempt + 1 < RENAME_TRIES),
        r.wait_ms == (if r.again || wait_last {
            20 * (attempt + 1)
        } else {
            0
        }),
{
    let again: bool = attempt + 1 < RENAME_TRIES;
    let wait_ms: u64 = if again || wait_last {
        20 * (attempt as u64 + 1)
    } else {
        0
    };
    RetryStep { wait_ms, again }
}

/// Every attempt to put a damaged file aside has a name of its own.
pub proof fn law_quarantine_names_differ(ts: nat, a: nat, b: nat)
    requires
        a != b,
    ensures
        quarantine_name(ts, a) != quarantine_name(ts, b),
{
    let first = "json.corrupt-"@ + text::decimal(ts);
    let n = first.len() as int;
    reveal_strlit("-");
    text::law_decimal_round_trip(a);
    text::law_decimal_round_trip(b);
    let x = quarantine_name(ts, a);
    let y = quarantine_name(ts, b);
    if x == y && a > 0 && b > 0 {
        assert(x.skip(n + 1) =~= text::decimal(a));
        assert(y.skip(n + 1) =~= text::decimal(b));
    }
}

/// The extension of a file that is written first.
pub open spec fn tmp_name(pid: nat, seq: nat) -> Seq<char> {
    "tmp."@ + text::decimal(pid) + "."@ + text::decimal(seq)
}

/// Another number of the process, or another count of its files, gives another
/// file.
pub proof fn law_tmp_names_differ(p: nat, s: nat, q: nat, t: nat)
    requires
        p != q || s != t,
    ensures
        tmp_name(p, s) != tmp_name(q, t),
{
    reveal_strlit("tmp.");
    reveal_strlit(".");
    text::law_decimal_round_trip(p);
    text::law_decimal_round_trip(q);
    text::law_decimal_round_trip(s);
    text::law_decimal_round_trip(t);
    let x = tmp_name(p, s);
    let y = tmp_name(q, t);
    let n = text::decimal(p).len() as int;
    let m = text::decimal(q).len() as int;
    assert(x[4 + n] == '.');
    assert(y[4 + m] == '.');
    if x == y {
        if n < m {
            assert(y[4 + n] == text::decimal(q)[n]);
            assert(text::is_digit(text::decimal(q)[n]));
        }
        if m < n {
            assert(x[4 + m] == text::decimal(p)[m]);
            assert(text::is_digit(text::decimal(p)[m]));
        }
        assert(x.subrange(4, 4 + n) =~= text::decimal(p));
        assert(y.subrange(4, 4 + m) =~= text::decimal(q));
        assert(x.skip(5 + n) =~= text::decimal(s));
        assert(y.skip(5 + m) =~= text::decimal(t));
    }
}

/// A path stays the same with a backslash at its end and in another case of ASCII
/// letters, and without a backslash at the end only in that.
pub proof fn law_same_path_up_to_case_and_end(a: Seq<char>, b: Seq<char>)
    ensures
        same(a, a.push('\\')),
        ascii::lower_all(vstd::utf8::encode_utf8(a)) == ascii::lower_all(
            vstd::utf8::encode_utf8(b),
        ) ==> same(a, b),
        a.len() > 0 && a.last() != '\\' && b.len() > 0 && b.last() != '\\' ==> (same(a, b)
            <==> ascii::lower_all(vstd::utf8::encode_utf8(a)) == ascii::lower_all(
            vstd::utf8::encode_utf8(b),
        )),
{
    let x = vstd::utf8::encode_utf8(a);
    let y = vstd::utf8::encode_utf8(b);
    lemma_last_byte(a.push('\\'));
    assert(a.push('\\').drop_last() =~= a);
    let z = vstd::utf8::encode_utf8(a.push('\\'));
    assert(z.drop_last() =~= x);
    if ascii::lower_all(x) == ascii::lower_all(y) {
        lemma_trim_folds(x, y);
    }
    if a.len() > 0 && a.last() != '\\' && b.len() > 0 && b.last() != '\\' {
        lemma_last_byte(a);
        lemma_last_byte(b);
    }
}

/// The last byte of a text is a backslash exactly where its last character is.
proof fn lemma_last_byte(a: Seq<char>)
    requires
        a.len() > 0,
    ensures
        vstd::utf8::encode_utf8(a).len() > 0,
        vstd::utf8::encode_utf8(a).last() == BACKSLASH <==> a.last() == '\\',
        a.last() == '\\' ==> vstd::utf8::encode_utf8(a) == vstd::utf8::encode_utf8(
            a.drop_last(),
        ).push(BACKSLASH),
{
    let c = a.last();
    assert(a =~= a.drop_last() + seq![c]);
    characters::lemma_encode_concat(a.drop_last(), seq![c]);
    characters::lemma_encode_one(c);
    characters::lemma_bytes_of(c);
    vstd::utf8::char_u32_cast(c, c as u32);
    let bs = characters::bytes_of(c);
    if bs.len() > 1 {
        assert(pattern::continues(bs[bs.len() - 1]));
    }
    if c == '\\' {
        assert(bs =~= seq![BACKSLASH]);
        assert(vstd::utf8::encode_utf8(a) =~= vstd::utf8::encode_utf8(a.drop_last()).push(
            BACKSLASH,
        ));
    }
}

proof fn lemma_trim_folds(x: Seq<u8>, y: Seq<u8>)
    requires
        ascii::lower_all(x) == ascii::lower_all(y),
    ensures
        ascii::lower_all(ascii::trim_end(x, BACKSLASH)) == ascii::lower_all(
            ascii::trim_end(y, BACKSLASH),
        ),
    decreases x.len(),
{
    ascii::lemma_fold_eq(x, y);
    if x.len() > 0 {
        assert(ascii::lower(x[x.len() - 1]) == ascii::lower(y[y.len() - 1]));
        if x.last() == BACKSLASH {
            assert(ascii::lower_all(x.drop_last()) =~= ascii::lower_all(x).drop_last());
            assert(ascii::lower_all(y.drop_last()) =~= ascii::lower_all(y).drop_last());
            lemma_trim_folds(x.drop_last(), y.drop_last());
        }
    }
}

/// A list holds a path exactly where one of its entries is the same path, and
/// without a path it is the list with that path's entries left out, the others in
/// their order.
pub proof fn law_lists_of_paths(
    a: Seq<Seq<char>>,
    b: Seq<Seq<char>>,
    x: Seq<char>,
    path: Seq<char>,
)
    ensures
        listed(a.push(x), path) <==> listed(a, path) || same(x, path),
        !listed(Seq::empty(), path),
        without(a + b, path) == without(a, path) + without(b, path),
        same(x, path) ==> without(seq![x], path) == Seq::<Seq<char>>::empty(),
        !same(x, path) ==> without(seq![x], path) == seq![x],
        listed(without(a, path), x) <==> listed(a, x) && !same(x, path),
    decreases b.len(),
{
    let more = a.push(x);
    if listed(a, path) {
        let i = choose|i: int| 0 <= i < a.len() && same(#[trigger] a[i], path);
        assert(same(more[i], path));
    }
    if same(x, path) {
        assert(same(more[a.len() as int], path));
    }
    if listed(more, path) {
        let i = choose|i: int| 0 <= i < more.len() && same(#[trigger] more[i], path);
        if i < a.len() {
            assert(same(a[i], path));
        }
    }
    lemma_without(a, path);
    assert(seq![x].drop_last() =~= Seq::empty());
    assert(without(seq![x].drop_last(), path) =~= Seq::empty());
    assert(Seq::<Seq<char>>::empty().push(x) =~= seq![x]);
    if b.len() == 0 {
        assert(a + b =~= a);
        assert(without(a, path) + without(b, path) =~= without(a, path));
    } else {
        law_lists_of_paths(a, b.drop_last(), x, path);
        assert((a + b).drop_last() =~= a + b.drop_last());
        assert((a + b).last() == b.last());
        assert(without(a + b, path) =~= without(a, path) + without(b, path));
    }
}

/// Recording a folder puts it first, and behind it the others in their order, as
/// many as are kept.
pub proof fn law_recorded_folder_comes_first(list: Seq<Seq<char>>, path: Seq<char>, max: int, i: int)
    requires
        0 <= max,
    ensures
        recorded(list, path, max).len() == (if max < without(list, path).len() + 1 {
            max
        } else {
            (without(list, path).len() + 1) as int
        }),
        max > 0 ==> recorded(list, path, max)[0] == path,
        1 <= i < recorded(list, path, max).len() ==> recorded(list, path, max)[i] == without(
            list,
            path,
        )[i - 1],
{
}

/// Where nothing is set the theme is the light one, all volumes are indexed, and
/// the popup is on and shows everything.
pub proof fn law_defaults()
    ensures
        default_settings().theme == "business_light"@,
        default_settings().indexed_drives.len() == 0,
        default_settings().preset_folders.len() == 0,
        default_settings().result_limit == 200,
        default_settings().recent_max == 2,
        !default_settings().autostart,
        default_settings().popup_enabled,
        default_settings().popup_show_favorites,
        default_settings().popup_show_recent,
        default_settings().popup_show_open,
        default_settings().last_query.len() == 0,
{
}

/// A list that is not there is empty and not damaged; one that cannot be read is
/// empty and damaged; any other is what was read of it.
pub proof fn law_lists_that_cannot_be_read(bytes: Seq<u8>)
    ensures
        list_in(None).len() == 0 && !damaged(None),
        json_list(bytes) is None ==> list_in(Some(bytes)).len() == 0 && damaged(Some(bytes)),
        json_list(bytes) matches Some(list) ==> list_in(Some(bytes)) == list && !damaged(
            Some(bytes),
        ),
{
}

} // verus!
