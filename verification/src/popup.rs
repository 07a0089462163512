//! The popup below a file dialog: which folders it lists, where it stands, and
//! what a row of it looks like.

use vstd::prelude::*;

use crate::config;
use crate::config::{same_path, Settings, SettingsView};
use crate::geometry;
use crate::geometry::{clamp, divide, scale, Place, PlaceView, Rect, RectView};
use crate::messages;
use crate::messages::{hi_word, lo_word, signed_hi, signed_lo};
use crate::text;
use crate::theme::Theme;

verus! {

/// Where an entry comes from.
#[derive(Debug, Clone, Copy, PartialEq, Eq, Structural)]
pub enum EntryKind {
    Favorite,
    Open,
    Recent,
}

/// An entry: where it comes from, and its path.
pub type Entry = (EntryKind, String);

/// What an [`Entry`] holds.
pub type EntryView = (EntryKind, Seq<char>);

/// What a list of entries holds.
pub open spec fn entry_views(es: Seq<Entry>) -> Seq<EntryView> {
    Seq::new(es.len(), |i: int| (es[i].0, es[i].1@))
}

/// Whether the path is among the entries.
pub open spec fn has_path(es: Seq<EntryView>, path: Seq<char>) -> bool {
    exists|i: int| 0 <= i < es.len() && config::same((#[trigger] es[i]).1, path)
}

/// The entries with one more, unless its path is empty or there already.
pub open spec fn with_entry(es: Seq<EntryView>, kind: EntryKind, path: Seq<char>) -> Seq<
    EntryView,
> {
    if path.len() == 0 || has_path(es, path) {
        es
    } else {
        es.push((kind, path))
    }
}

/// The entries with the paths of the list, one after the other.
pub open spec fn with_all(es: Seq<EntryView>, kind: EntryKind, paths: Seq<Seq<char>>) -> Seq<
    EntryView,
>
    decreases paths.len(),
{
    if paths.len() == 0 {
        es
    } else {
        with_entry(with_all(es, kind, paths.drop_last()), kind, paths.last())
    }
}

/// The list where it is shown, else no path.
pub open spec fn shown(show: bool, paths: Seq<Seq<char>>) -> Seq<Seq<char>> {
    if show {
        paths
    } else {
        Seq::empty()
    }
}

/// The entries of the popup: favorites, then open folders, then recent ones, as
/// far as the settings show them, each path once.
pub open spec fn popup_entries(
    s: SettingsView,
    favorites: Seq<Seq<char>>,
    open: Seq<Seq<char>>,
    recent: Seq<Seq<char>>,
) -> Seq<EntryView> {
    let a = with_all(Seq::empty(), EntryKind::Favorite, shown(s.popup_show_favorites, favorites));
    let b = with_all(a, EntryKind::Open, shown(s.popup_show_open, open));
    with_all(b, EntryKind::Recent, shown(s.popup_show_recent, recent))
}

/// Whether the path is among the entries.
fn contains_path(es: &Vec<Entry>, path: &str) -> (r: bool)
    ensures
        r == has_path(entry_views(es@), path@),
{
    let mut i: usize = 0;
    while i < es.len()
        invariant
            i <= es@.len(),
            forall|k: int| 0 <= k < i ==> !config::same((#[trigger] es@[k]).1@, path@),
        decreases es@.len() - i,
    {
        if same_path(es[i].1.as_str(), path) {
            assert(config::same(entry_views(es@)[i as int].1, path@));
            return true;
        }
        i += 1;
    }
    proof {
        let v = entry_views(es@);
        assert forall|k: int| 0 <= k < v.len() implies !config::same(
            (#[trigger] v[k]).1,
            path@,
        ) by {
            assert(!config::same(es@[k].1@, path@));
        }
    }
    false
}

/// Adds the paths of a list.
fn add_paths(es: &mut Vec<Entry>, kind: EntryKind, paths: &[String])
    ensures
        entry_views(final(es)@) == with_all(
            entry_views(old(es)@),
            kind,
            text::string_views(paths@),
        ),
{
    let ghost all = text::string_views(paths@);
    let mut i: usize = 0;
    assert(all.take(0) =~= Seq::empty());
    while i < paths.len()
        invariant
            i <= paths@.len(),
            all == text::string_views(paths@),
            entry_views(es@) == with_all(entry_views(old(es)@), kind, all.take(i as int)),
        decreases paths@.len() - i,
    {
        let ghost before = es@;
        proof {
            assert(all.take(i + 1).drop_last() =~= all.take(i as int));
            assert(all.take(i + 1).last() == paths@[i as int]@);
        }
        let path = paths[i].as_str();
        if !path.is_empty() && !contains_path(es, path) {
            es.push((kind, path.to_owned()));
            assert(entry_views(es@) =~= entry_views(before).push((kind, path@)));
        }
        i += 1;
    }
    assert(all.take(i as int) =~= all);
}

/// The entries of the popup.
pub fn build_popup_entries(
    s: &Settings,
    favorites: &[String],
    open: &[String],
    recent: &[String],
) -> (r: Vec<Entry>)
    ensures
        entry_views(r@) == popup_entries(
            s@,
            text::string_views(favorites@),
            text::string_views(open@),
            text::string_views(recent@),
        ),
{
    let mut out: Vec<Entry> = Vec::new();
    assert(entry_views(out@) =~= Seq::empty());
    if s.popup_show_favorites {
        add_paths(&mut out, EntryKind::Favorite, favorites);
    }
    if s.popup_show_open {
        add_paths(&mut out, EntryKind::Open, open);
    }
    if s.popup_show_recent {
        add_paths(&mut out, EntryKind::Recent, recent);
    }
    out
}

/// Whether no path is empty and none comes twice.
pub open spec fn distinct(es: Seq<EntryView>) -> bool {
    &&& forall|i: int| 0 <= i < es.len() ==> (#[trigger] es[i]).1.len() > 0
    &&& forall|i: int, j: int|
        0 <= i < j < es.len() ==> !config::same((#[trigger] es[i]).1, (#[trigger] es[j]).1)
}

proof fn lemma_with_all(es: Seq<EntryView>, kind: EntryKind, paths: Seq<Seq<char>>)
    requires
        distinct(es),
    ensures
        distinct(with_all(es, kind, paths)),
        es.len() <= with_all(es, kind, paths).len(),
        with_all(es, kind, paths).take(es.len() as int) == es,
        forall|i: int|
            es.len() <= i < with_all(es, kind, paths).len() ==> (#[trigger] with_all(
                es,
                kind,
                paths,
            )[i]).0 == kind,
        forall|k: int|
            0 <= k < paths.len() && (#[trigger] paths[k]).len() > 0 ==> has_path(
                with_all(es, kind, paths),
                paths[k],
            ),
    decreases paths.len(),
{
    if paths.len() == 0 {
        assert(es.take(es.len() as int) =~= es);
    } else {
        let most = paths.drop_last();
        let p = paths.last();
        lemma_with_all(es, kind, most);
        let before = with_all(es, kind, most);
        let all = with_all(es, kind, paths);
        assert(all.take(es.len() as int) =~= before.take(es.len() as int));
        assert forall|i: int, j: int| 0 <= i < j < all.len() implies !config::same(
            (#[trigger] all[i]).1,
            (#[trigger] all[j]).1,
        ) by {
            assert(all[i] == before[i]);
            if j < before.len() {
                assert(all[j] == before[j]);
            } else {
                assert(!has_path(before, p));
                assert(!config::same(before[i].1, p));
            }
        }
        assert forall|i: int| es.len() <= i < all.len() implies (#[trigger] all[i]).0 == kind by {
            if i < before.len() {
                assert(all[i] == before[i]);
            }
        }
        assert forall|k: int| 0 <= k < paths.len() && (#[trigger] paths[k]).len()
            > 0 implies has_path(all, paths[k]) by {
            if k < most.len() {
                assert(most[k] == paths[k]);
                let i = choose|i: int|
                    0 <= i < before.len() && config::same((#[trigger] before[i]).1, paths[k]);
                assert(all[i] == before[i]);
            } else if has_path(before, p) {
                let i = choose|i: int|
                    0 <= i < before.len() && config::same((#[trigger] before[i]).1, p);
                assert(all[i] == before[i]);
            } else {
                assert(config::same(all[all.len() - 1].1, p));
            }
        }
        assert forall|i: int| 0 <= i < all.len() implies (#[trigger] all[i]).1.len() > 0 by {
            if i < before.len() {
                assert(all[i] == before[i]);
            }
        }
    }
}

/// No folder is listed twice, and none is lost: a favorite that is shown is
/// listed as a favorite, an open folder as a favorite or as open.
pub proof fn law_each_folder_once(
    s: SettingsView,
    favorites: Seq<Seq<char>>,
    open: Seq<Seq<char>>,
    recent: Seq<Seq<char>>,
)
    ensures
        distinct(popup_entries(s, favorites, open, recent)),
        s.popup_show_favorites ==> forall|k: int|
            0 <= k < favorites.len() && (#[trigger] favorites[k]).len() > 0 ==> listed_as(
                popup_entries(s, favorites, open, recent),
                favorites[k],
                seq![EntryKind::Favorite],
            ),
        s.popup_show_open ==> forall|k: int|
            0 <= k < open.len() && (#[trigger] open[k]).len() > 0 ==> listed_as(
                popup_entries(s, favorites, open, recent),
                open[k],
                seq![EntryKind::Favorite, EntryKind::Open],
            ),
        s.popup_show_recent ==> forall|k: int|
            0 <= k < recent.len() && (#[trigger] recent[k]).len() > 0 ==> has_path(
                popup_entries(s, favorites, open, recent),
                recent[k],
            ),
{
    let fs = shown(s.popup_show_favorites, favorites);
    let os = shown(s.popup_show_open, open);
    let rs = shown(s.popup_show_recent, recent);
    let none = Seq::<EntryView>::empty();
    let a = with_all(none, EntryKind::Favorite, fs);
    let b = with_all(a, EntryKind::Open, os);
    let c = with_all(b, EntryKind::Recent, rs);
    lemma_with_all(none, EntryKind::Favorite, fs);
    lemma_with_all(a, EntryKind::Open, os);
    lemma_with_all(b, EntryKind::Recent, rs);
    if s.popup_show_favorites {
        assert forall|k: int| 0 <= k < favorites.len() && (#[trigger] favorites[k]).len()
            > 0 implies listed_as(c, favorites[k], seq![EntryKind::Favorite]) by {
            assert(fs[k] == favorites[k]);
            let i = choose|i: int|
                0 <= i < a.len() && config::same((#[trigger] a[i]).1, favorites[k]);
            assert(b.take(a.len() as int)[i] == b[i]);
            assert(c.take(b.len() as int)[i] == c[i]);
            assert(c[i] == a[i]);
            assert(seq![EntryKind::Favorite][0] == c[i].0);
        }
    }
    if s.popup_show_open {
        assert forall|k: int| 0 <= k < open.len() && (#[trigger] open[k]).len()
            > 0 implies listed_as(
            c,
            open[k],
            seq![EntryKind::Favorite, EntryKind::Open],
        ) by {
            assert(os[k] == open[k]);
            let i = choose|i: int| 0 <= i < b.len() && config::same((#[trigger] b[i]).1, open[k]);
            assert(c.take(b.len() as int)[i] == c[i]);
            let kinds = seq![EntryKind::Favorite, EntryKind::Open];
            if i < a.len() {
                assert(b.take(a.len() as int)[i] == b[i]);
                assert(kinds[0] == c[i].0);
            } else {
                assert(kinds[1] == c[i].0);
            }
        }
    }
    if s.popup_show_recent {
        assert forall|k: int| 0 <= k < recent.len() && (#[trigger] recent[k]).len()
            > 0 implies has_path(c, recent[k]) by {
            assert(rs[k] == recent[k]);
        }
    }
}

/// Whether the path is listed, and as one of the kinds.
pub open spec fn listed_as(es: Seq<EntryView>, path: Seq<char>, kinds: Seq<EntryKind>) -> bool {
    exists|i: int|
        0 <= i < es.len() && config::same((#[trigger] es[i]).1, path) && kinds.contains(es[i].0)
}

/// What a [`Popup`] holds.
#[verifier::ext_equal]
pub struct PopupView {
    pub dialog: usize,
    pub entries: Seq<EntryView>,
}

/// The popup: the dialog that it belongs to, by its handle, zero where there is
/// none, and what it lists.
pub struct Popup {
    dialog: usize,
    entries: Vec<Entry>,
}

impl View for Popup {
    type V = PopupView;

    closed spec fn view(&self) -> PopupView {
        PopupView { dialog: self.dialog, entries: entry_views(self.entries@) }
    }
}

/// What to do with the popup after another window came to the front.
#[derive(Debug, Clone, Copy, PartialEq, Eq, Structural)]
pub enum ForegroundAction {
    Nothing,
    /// Put it below its dialog and show it.
    Show,
    Hide,
}

/// The entry at the place that a list box gives for its selection, where there
/// is one.
pub open spec fn entry_selected(es: Seq<EntryView>, sel: int) -> Option<EntryView> {
    if 0 <= sel < es.len() {
        Some(es[sel])
    } else {
        None
    }
}

impl Popup {
    /// A popup without a dialog.
    pub fn new() -> (p: Popup)
        ensures
            p@ == (PopupView { dialog: 0, entries: Seq::empty() }),
    {
        let p = Popup { dialog: 0, entries: Vec::new() };
        assert(p@.entries =~= Seq::empty());
        p
    }

    /// Lists the entries for the dialog. Returns whether the popup is to be
    /// shown: without an entry it is hidden.
    pub fn show_for(&mut self, dialog: usize, entries: Vec<Entry>) -> (show: bool)
        ensures
            show == (entries@.len() > 0),
            final(self)@ == (if show {
                PopupView { dialog, entries: entry_views(entries@) }
            } else {
                PopupView { dialog: 0, ..old(self)@ }
            }),
    {
        if entries.len() == 0 {
            self.dismiss();
            return false;
        }
        self.dialog = dialog;
        self.entries = entries;
        true
    }

    /// Parts the popup from its dialog.
    pub fn dismiss(&mut self)
        ensures
            final(self)@ == (PopupView { dialog: 0, ..old(self)@ }),
    {
        self.dialog = 0;
    }

    /// The dialog that the popup belongs to.
    pub fn current_dialog(&self) -> (r: Option<usize>)
        ensures
            r == (if self@.dialog == 0 {
                None
            } else {
                Some(self@.dialog)
            }),
    {
        if self.dialog == 0 {
            None
        } else {
            Some(self.dialog)
        }
    }

    /// Whether the popup is to follow a window that moved.
    pub fn on_dialog_moved(&self, dialog: usize) -> (r: bool)
        ensures
            r == (self@.dialog == dialog),
    {
        self.dialog == dialog
    }

    /// What to do after the window `front` came to the front, where `own` is
    /// the window of the popup itself: the popup is seen only while its dialog
    /// is in front.
    pub fn on_foreground(&self, front: usize, own: usize) -> (r: ForegroundAction)
        ensures
            r == (if self@.dialog == 0 {
                ForegroundAction::Nothing
            } else if front == self@.dialog {
                ForegroundAction::Show
            } else if front != own {
                ForegroundAction::Hide
            } else {
                ForegroundAction::Nothing
            }),
    {
        if self.dialog == 0 {
            ForegroundAction::Nothing
        } else if front == self.dialog {
            ForegroundAction::Show
        } else if front != own {
            ForegroundAction::Hide
        } else {
            ForegroundAction::Nothing
        }
    }

    /// The entry at the given place.
    pub fn entry_at(&self, sel: isize) -> (r: Option<Entry>)
        ensures
            match r {
                Some(e) => entry_selected(self@.entries, sel as int) == Some((e.0, e.1@)),
                None => entry_selected(self@.entries, sel as int) is None,
            },
    {
        if sel < 0 || sel as usize >= self.entries.len() {
            return None;
        }
        let e = &self.entries[sel as usize];
        assert(self@.entries[sel as int] == (e.0, e.1@));
        Some((e.0, e.1.clone()))
    }

    /// The dialog to lead to a folder, and the folder, for the selection that a
    /// list box gives. None where nothing is selected or there is no dialog.
    pub fn navigate_selected(&self, sel: isize) -> (r: Option<(usize, String)>)
        ensures
            match r {
                Some((dialog, path)) => dialog == self@.dialog && dialog != 0 && (entry_selected(
                    self@.entries,
                    sel as int,
                ) matches Some(e) && e.1 == path@),
                None => self@.dialog == 0 || entry_selected(self@.entries, sel as int) is None,
            },
    {
        match self.entry_at(sel) {
            Some((_, path)) => if self.dialog == 0 {
                None
            } else {
                Some((self.dialog, path))
            },
            None => None,
        }
    }
}

/// Where the popup stands: below the dialog and centered, as wide as it within
/// bounds, and high enough for its rows within bounds.
pub open spec fn popup_place(dialog: RectView, count: int, item_h: int, dpi: int) -> PlaceView {
    let w = geometry::within(
        dialog.width(),
        geometry::scaled(300, dpi),
        geometry::scaled(640, dpi),
    );
    PlaceView {
        x: dialog.left + geometry::quotient(dialog.width() - w, 2),
        y: dialog.bottom + geometry::scaled(2, dpi),
        w,
        h: geometry::within(
            geometry::smaller(geometry::larger(count, 1), 12) * item_h + geometry::scaled(6, dpi),
            geometry::scaled(44, dpi),
            geometry::scaled(420, dpi),
        ),
    }
}

/// Where the popup stands.
pub fn reposition(dialog: &Rect, count: i32, item_h: i32, dpi: i32) -> (r: Place)
    requires
        0 <= dpi,
        geometry::fits(geometry::scaled(640, dpi as int)),
        popup_place(dialog@, count as int, item_h as int, dpi as int).fits(),
    ensures
        r@ == popup_place(dialog@, count as int, item_h as int, dpi as int),
{
    proof {
        geometry::lemma_scaled_grows(2, 640, dpi as int);
        geometry::lemma_scaled_grows(6, 640, dpi as int);
        geometry::lemma_scaled_grows(44, 640, dpi as int);
        geometry::lemma_scaled_grows(300, 640, dpi as int);
        geometry::lemma_scaled_grows(420, 640, dpi as int);
    }
    let width: i64 = dialog.right as i64 - dialog.left as i64;
    let w: i64 = clamp(width, scale(300, dpi) as i64, scale(640, dpi) as i64);
    let rows: i64 = clamp(count as i64, 1, 12);
    assert(rows * item_h <= 12 * 0x7fff_ffff && rows * item_h >= -12 * 0x8000_0000)
        by (nonlinear_arith)
        requires
            1 <= rows <= 12,
            -0x8000_0000 <= item_h <= 0x7fff_ffff,
    ;
    let h: i64 = clamp(
        rows * item_h as i64 + scale(6, dpi) as i64,
        scale(44, dpi) as i64,
        scale(420, dpi) as i64,
    );
    let x: i64 = dialog.left as i64 + divide(width - w, 2);
    let y: i64 = dialog.bottom as i64 + scale(2, dpi) as i64;
    Place { x: x as i32, y: y as i32, w: w as i32, h: h as i32 }
}

/// What follows the last backslash of a text.
pub open spec fn after_backslash(s: Seq<char>) -> Seq<char>
    decreases s.len(),
{
    if s.len() == 0 || s.last() == '\\' {
        Seq::empty()
    } else {
        after_backslash(s.drop_last()).push(s.last())
    }
}

/// The last name in a path: what follows the last backslash, those at the end
/// aside.
pub open spec fn leaf(path: Seq<char>) -> Seq<char>
    decreases path.len(),
{
    if path.len() > 0 && path.last() == '\\' {
        leaf(path.drop_last())
    } else {
        after_backslash(path)
    }
}

/// The last name in a path.
pub fn leaf_of(path: &str) -> (r: String)
    ensures
        r@ == leaf(path@),
{
    let mut out = String::new();
    let mut pending: bool = false;
    let ghost mut seen: Seq<char> = Seq::empty();
    for c in it: path.chars()
        invariant
            it.seq() == path@,
            seen == path@.take(it.index() as int),
            it.index() == path@.len() ==> seen =~= path@,
            pending == (seen.len() > 0 && seen.last() == '\\'),
            out@ == leaf(seen),
    {
        let ghost before = seen;
        proof {
            assert(seen.push(c).drop_last() =~= seen);
            seen = seen.push(c);
        }
        if c == '\\' {
            pending = true;
        } else {
            if pending {
                out = String::new();
                pending = false;
                assert(after_backslash(before) =~= Seq::empty());
            }
            assert(out@ == after_backslash(before));
            out.push(c);
        }
    }
    out
}

/// How big the rows and the fonts of the popup are.
#[derive(Debug, Clone, Copy, PartialEq, Eq, Structural)]
pub struct PopupMetrics {
    pub dpi: i32,
    pub font_name: i32,
    pub font_path: i32,
    pub item_h: i32,
}

/// How big the rows and the fonts of the popup are at the resolution that the
/// system gives, which counts for no less than 96.
pub fn popup_metrics(system_dpi: u32) -> (r: PopupMetrics)
    requires
        geometry::fits(geometry::scaled(40, system_dpi as int)),
        system_dpi <= i32::MAX,
    ensures
        r.dpi == geometry::larger(system_dpi as int, 96),
        r.font_name == geometry::scaled(14, r.dpi as int),
        r.font_path == geometry::scaled(11, r.dpi as int),
        r.item_h == geometry::scaled(40, r.dpi as int),
{
    let dpi: i32 = if system_dpi < 96 {
        96
    } else {
        system_dpi as i32
    };
    proof {
        geometry::lemma_scaled_grows(14, 40, dpi as int);
        geometry::lemma_scaled_grows(11, 40, dpi as int);
    }
    PopupMetrics {
        dpi,
        font_name: scale(14, dpi),
        font_path: scale(11, dpi),
        item_h: scale(40, dpi),
    }
}

/// The colors of a row.
#[derive(Debug, Clone, Copy, PartialEq, Eq, Structural)]
pub struct RowColors {
    pub bg: u32,
    pub fg: u32,
    pub path_fg: u32,
}

/// The colors of a row: those of the selection where it is selected, and another
/// ground where the mouse is over it.
pub fn row_colors(t: &Theme, selected: bool, hover: bool) -> (r: RowColors)
    ensures
        r.bg == (if selected {
            t.sel_bg
        } else if hover {
            t.alt_bg
        } else {
            t.bg
        }),
        r.fg == (if selected {
            t.sel_fg
        } else {
            t.fg
        }),
        r.path_fg == (if selected {
            t.sel_fg
        } else {
            t.path_fg
        }),
{
    RowColors {
        bg: if selected {
            t.sel_bg
        } else if hover {
            t.alt_bg
        } else {
            t.bg
        },
        fg: if selected {
            t.sel_fg
        } else {
            t.fg
        },
        path_fg: if selected {
            t.sel_fg
        } else {
            t.path_fg
        },
    }
}

/// Where the parts of a row stand.
pub struct RowPlan {
    pub icon: Place,
    pub name: Rect,
    pub path: Rect,
}

/// Where the icon of a row stands: `icon` wide, in the middle of its height.
pub open spec fn icon_place(rc: RectView, icon: int, dpi: int) -> PlaceView {
    PlaceView {
        x: rc.left + geometry::scaled(8, dpi),
        y: rc.top + geometry::quotient(rc.height() - geometry::scaled(icon, dpi), 2),
        w: geometry::scaled(icon, dpi),
        h: geometry::scaled(icon, dpi),
    }
}

/// Where the text of a row begins.
pub open spec fn text_left(rc: RectView, icon: int, dpi: int) -> int {
    rc.left + geometry::scaled(8, dpi) + geometry::scaled(icon, dpi) + geometry::scaled(8, dpi)
}

/// Where the name in a row stands: in its upper half, `top` below its edge, and
/// `margin` before its right edge.
pub open spec fn name_rect(rc: RectView, icon: int, top: int, margin: int, dpi: int) -> RectView {
    RectView {
        left: text_left(rc, icon, dpi),
        top: rc.top + geometry::scaled(top, dpi),
        right: rc.right - geometry::scaled(margin, dpi),
        bottom: rc.top + geometry::quotient(rc.height(), 2) + geometry::scaled(2, dpi),
    }
}

/// Where the path in a row stands: in its lower half.
pub open spec fn path_rect(rc: RectView, icon: int, dpi: int) -> RectView {
    RectView {
        left: text_left(rc, icon, dpi),
        top: rc.top + geometry::quotient(rc.height(), 2) - geometry::scaled(2, dpi),
        right: rc.right - geometry::scaled(8, dpi),
        bottom: rc.bottom - geometry::scaled(2, dpi),
    }
}

/// Where the parts of a row stand.
pub fn row_plan(rc: &Rect, icon: i32, top: i32, margin: i32, dpi: i32) -> (r: RowPlan)
    requires
        0 <= dpi,
        0 <= icon,
        0 <= top,
        0 <= margin,
        geometry::fits(geometry::scaled(8, dpi as int)),
        geometry::fits(geometry::scaled(icon as int, dpi as int)),
        geometry::fits(geometry::scaled(top as int, dpi as int)),
        geometry::fits(geometry::scaled(margin as int, dpi as int)),
        icon_place(rc@, icon as int, dpi as int).fits(),
        name_rect(rc@, icon as int, top as int, margin as int, dpi as int).fits(),
        path_rect(rc@, icon as int, dpi as int).fits(),
    ensures
        r.icon@ == icon_place(rc@, icon as int, dpi as int),
        r.name@ == name_rect(rc@, icon as int, top as int, margin as int, dpi as int),
        r.path@ == path_rect(rc@, icon as int, dpi as int),
{
    proof {
        geometry::lemma_scaled_grows(2, 8, dpi as int);
    }
    let pad: i64 = scale(8, dpi) as i64;
    let size: i64 = scale(icon, dpi) as i64;
    let two: i64 = scale(2, dpi) as i64;
    let height: i64 = rc.bottom as i64 - rc.top as i64;
    let half: i64 = divide(height, 2);
    let left: i64 = rc.left as i64 + pad + size + pad;
    let icon_y: i64 = rc.top as i64 + divide(height - size, 2);
    RowPlan {
        icon: Place {
            x: (rc.left as i64 + pad) as i32,
            y: icon_y as i32,
            w: size as i32,
            h: size as i32,
        },
        name: Rect {
            left: left as i32,
            top: (rc.top as i64 + scale(top, dpi) as i64) as i32,
            right: (rc.right as i64 - scale(margin, dpi) as i64) as i32,
            bottom: (rc.top as i64 + half + two) as i32,
        },
        path: Rect {
            left: left as i32,
            top: (rc.top as i64 + half - two) as i32,
            right: (rc.right as i64 - pad) as i32,
            bottom: (rc.bottom as i64 - two) as i32,
        },
    }
}

/// What marks an entry at the right of its row.
pub open spec fn tag_view(kind: EntryKind) -> Seq<char> {
    match kind {
        EntryKind::Favorite => "★ 收藏"@,
        EntryKind::Recent => "最近"@,
        EntryKind::Open => ""@,
    }
}

/// What marks an entry at the right of its row.
pub fn tag_of(kind: EntryKind) -> (r: String)
    ensures
        r@ == tag_view(kind),
{
    match kind {
        EntryKind::Favorite => "★ 收藏".to_owned(),
        EntryKind::Recent => "最近".to_owned(),
        EntryKind::Open => "".to_owned(),
    }
}

/// The color of the mark: a favorite's stands out unless the row is selected.
pub fn tag_color(t: &Theme, kind: EntryKind, selected: bool) -> (r: u32)
    ensures
        r == (if selected {
            t.sel_fg
        } else if kind == EntryKind::Favorite {
            t.accent
        } else {
            t.path_fg
        }),
{
    if selected {
        t.sel_fg
    } else if kind == EntryKind::Favorite {
        t.accent
    } else {
        t.path_fg
    }
}

/// Where the mark of a row stands.
pub open spec fn tag_rect_view(rc: RectView, dpi: int) -> RectView {
    RectView {
        left: rc.right - geometry::scaled(56, dpi),
        top: rc.top,
        right: rc.right - geometry::scaled(6, dpi),
        bottom: rc.bottom,
    }
}

/// Where the mark of a row stands.
pub fn tag_rect(rc: &Rect, dpi: i32) -> (r: Rect)
    requires
        0 <= dpi,
        geometry::fits(geometry::scaled(56, dpi as int)),
        tag_rect_view(rc@, dpi as int).fits(),
    ensures
        r@ == tag_rect_view(rc@, dpi as int),
{
    proof {
        geometry::lemma_scaled_grows(6, 56, dpi as int);
    }
    Rect {
        left: (rc.right as i64 - scale(56, dpi) as i64) as i32,
        top: rc.top,
        right: (rc.right as i64 - scale(6, dpi) as i64) as i32,
        bottom: rc.bottom,
    }
}

/// What the menu of an entry offers.
pub open spec fn menu_label_view(favorite: bool) -> Seq<char> {
    if favorite {
        "移出收藏"@
    } else {
        "添加到收藏 ★"@
    }
}

/// What the menu of an entry offers: to take it out of the favorites, or to add
/// it.
pub fn menu_label(favorite: bool) -> (r: String)
    ensures
        r@ == menu_label_view(favorite),
{
    if favorite {
        "移出收藏".to_owned()
    } else {
        "添加到收藏 ★".to_owned()
    }
}

/// Where the menu opens: at the point of the message, and near the corner of the
/// popup where the message was sent by the keyboard, which gives -1 twice.
pub fn menu_anchor(point: u32, left: i32, top: i32) -> (r: (i32, i32))
    requires
        left <= i32::MAX - 20,
        top <= i32::MAX - 20,
    ensures
        point == 0xFFFF_FFFF ==> r == ((left + 20) as i32, (top + 20) as i32),
        point != 0xFFFF_FFFF ==> r.0 == messages::signed(point as int % 0x1_0000) && r.1
            == messages::signed(point as int / 0x1_0000),
{
    let x: i32 = signed_lo(point);
    let y: i32 = signed_hi(point);
    if x == -1 && y == -1 {
        (left + 20, top + 20)
    } else {
        (x, y)
    }
}

/// The list of the popup.
pub const LIST_ID: u32 = 201;

/// The notice that another entry was selected.
pub const LBN_SELCHANGE: u32 = 1;

/// Whether a command says that an entry was selected.
pub fn selects_entry(param: u32) -> (r: bool)
    ensures
        r == (param as int % 0x1_0000 == LIST_ID && param as int / 0x1_0000 == LBN_SELCHANGE),
{
    lo_word(param) == LIST_ID && hi_word(param) == LBN_SELCHANGE
}

/// The popup stands right below its dialog, with its middle under that of the
/// dialog, but for a rounded pixel.
pub proof fn law_popup_is_centered(dialog: RectView, count: int, item_h: int, dpi: int)
    requires
        0 <= dpi,
    ensures
        ({
            let p = popup_place(dialog, count, item_h, dpi);
            &&& p.y >= dialog.bottom
            &&& -1 <= (dialog.left + dialog.right) - (2 * p.x + p.w) <= 1
            &&& geometry::scaled(300, dpi) <= p.w <= geometry::scaled(640, dpi)
        }),
{
    geometry::lemma_scaled_grows(0, 2, dpi);
    geometry::lemma_scaled_grows(300, 640, dpi);
}

/// A path at the end of a list that is shown comes at the end of the popup, as what
/// the list is of, unless it is empty or the popup has the same path already; one of
/// a list that is not shown changes nothing. Favorites come before open folders, and
/// these before recent ones.
pub proof fn law_one_more_path(
    s: SettingsView,
    favorites: Seq<Seq<char>>,
    open: Seq<Seq<char>>,
    recent: Seq<Seq<char>>,
    path: Seq<char>,
)
    ensures
        ({
            let none = Seq::<Seq<char>>::empty();
            let a = popup_entries(s, favorites, none, none);
            let b = popup_entries(s, favorites, open, none);
            let c = popup_entries(s, favorites, open, recent);
            &&& popup_entries(s, favorites.push(path), none, none) == (if s.popup_show_favorites
                && path.len() > 0 && !has_path(a, path) {
                a.push((EntryKind::Favorite, path))
            } else {
                a
            })
            &&& popup_entries(s, favorites, open.push(path), none) == (if s.popup_show_open
                && path.len() > 0 && !has_path(b, path) {
                b.push((EntryKind::Open, path))
            } else {
                b
            })
            &&& popup_entries(s, favorites, open, recent.push(path)) == (if s.popup_show_recent
                && path.len() > 0 && !has_path(c, path) {
                c.push((EntryKind::Recent, path))
            } else {
                c
            })
            &&& popup_entries(s, none, none, none).len() == 0
        }),
{
    assert(favorites.push(path).drop_last() =~= favorites);
    assert(open.push(path).drop_last() =~= open);
    assert(recent.push(path).drop_last() =~= recent);
}

/// The popup has a path exactly where one of its entries has it.
pub proof fn law_popup_has_its_paths(es: Seq<EntryView>, e: EntryView, path: Seq<char>)
    ensures
        has_path(es.push(e), path) <==> has_path(es, path) || config::same(e.1, path),
        !has_path(Seq::empty(), path),
{
    let all = es.push(e);
    if has_path(es, path) {
        let i = choose|i: int| 0 <= i < es.len() && config::same((#[trigger] es[i]).1, path);
        assert(config::same(all[i].1, path));
    }
    if config::same(e.1, path) {
        assert(config::same(all[es.len() as int].1, path));
    }
    if has_path(all, path) {
        let i = choose|i: int| 0 <= i < all.len() && config::same((#[trigger] all[i]).1, path);
        if i < es.len() {
            assert(config::same(es[i].1, path));
        }
    }
}

/// The last name of a path is what follows its last backslash; backslashes at the
/// end do not count.
pub proof fn law_leaf_is_the_last_name(dir: Seq<char>, name: Seq<char>, n: nat)
    requires
        name.len() > 0,
        forall|i: int| 0 <= i < name.len() ==> #[trigger] name[i] != '\\',
    ensures
        leaf(name + Seq::new(n, |i: int| '\\')) == name,
        leaf(dir + seq!['\\'] + name + Seq::new(n, |i: int| '\\')) == name,
{
    let none = Seq::<char>::empty();
    lemma_after_backslash(none, name);
    assert(none + name =~= name);
    lemma_after_backslash(dir + seq!['\\'], name);
    lemma_leaf_end(name, n);
    lemma_leaf_end(dir + seq!['\\'] + name, n);
}

proof fn lemma_after_backslash(front: Seq<char>, name: Seq<char>)
    requires
        front.len() == 0 || front.last() == '\\',
        forall|i: int| 0 <= i < name.len() ==> #[trigger] name[i] != '\\',
    ensures
        after_backslash(front + name) == name,
    decreases name.len(),
{
    let all = front + name;
    if name.len() == 0 {
        assert(all =~= front);
        assert(name =~= Seq::empty());
    } else {
        let most = name.drop_last();
        assert(name[name.len() - 1] != '\\');
        assert forall|i: int| 0 <= i < most.len() implies #[trigger] most[i] != '\\' by {
            assert(name[i] != '\\');
        }
        lemma_after_backslash(front, most);
        assert(all.drop_last() =~= front + most);
        assert(most.push(name.last()) =~= name);
    }
}

proof fn lemma_leaf_end(s: Seq<char>, n: nat)
    requires
        s.len() > 0,
        s.last() != '\\',
    ensures
        leaf(s + Seq::new(n, |i: int| '\\')) == after_backslash(s),
    decreases n,
{
    let all = s + Seq::new(n, |i: int| '\\');
    if n == 0 {
        assert(all =~= s);
    } else {
        assert(all.last() == '\\');
        assert(all.drop_last() =~= s + Seq::new((n - 1) as nat, |i: int| '\\'));
        lemma_leaf_end(s, (n - 1) as nat);
    }
}

/// The popup stands two points below its dialog, is as wide as the dialog between
/// 300 and 640 points, and as high as its rows, twelve at most, and six points,
/// between 44 and 420 points.
pub proof fn law_popup_has_the_size_of_its_dialog(
    dialog: RectView,
    count: int,
    item_h: int,
    dpi: int,
)
    requires
        0 <= dpi,
    ensures
        ({
            let p = popup_place(dialog, count, item_h, dpi);
            let width = dialog.right - dialog.left;
            let rows = if count < 1 {
                1
            } else if count > 12 {
                12
            } else {
                count
            };
            let high = rows * item_h + geometry::scaled(6, dpi);
            &&& p.y == dialog.bottom + geometry::scaled(2, dpi)
            &&& geometry::scaled(300, dpi) <= width <= geometry::scaled(640, dpi) ==> p.w == width
                && p.x == dialog.left
            &&& width < geometry::scaled(300, dpi) ==> p.w == geometry::scaled(300, dpi)
            &&& width > geometry::scaled(640, dpi) ==> p.w == geometry::scaled(640, dpi)
            &&& geometry::scaled(44, dpi) <= high <= geometry::scaled(420, dpi) ==> p.h == high
            &&& high < geometry::scaled(44, dpi) ==> p.h == geometry::scaled(44, dpi)
            &&& high > geometry::scaled(420, dpi) ==> p.h == geometry::scaled(420, dpi)
        }),
{
    geometry::lemma_scaled_grows(300, 640, dpi);
    geometry::lemma_scaled_grows(44, 420, dpi);
}

/// The parts of a row lie side by side: the icon eight points from the left edge
/// and in the middle of the height, the text eight points behind it, the name above
/// the middle and the path below it.
pub proof fn law_parts_of_a_row(rc: RectView, icon: int, top: int, margin: int, dpi: int)
    requires
        0 <= dpi,
        0 <= icon,
        0 <= top,
        0 <= margin,
    ensures
        ({
            let i = icon_place(rc, icon, dpi);
            let n = name_rect(rc, icon, top, margin, dpi);
            let p = path_rect(rc, icon, dpi);
            &&& i.x == rc.left + geometry::scaled(8, dpi)
            &&& i.w == geometry::scaled(icon, dpi) && i.h == i.w
            &&& -1 <= (rc.top + rc.bottom) - (2 * i.y + i.h) <= 1
            &&& n.left == i.x + i.w + geometry::scaled(8, dpi) && p.left == n.left
            &&& n.top == rc.top + geometry::scaled(top, dpi)
            &&& n.right == rc.right - geometry::scaled(margin, dpi)
            &&& p.right == rc.right - geometry::scaled(8, dpi)
            &&& p.bottom == rc.bottom - geometry::scaled(2, dpi)
            &&& n.bottom - p.top == 2 * geometry::scaled(2, dpi)
            &&& -1 <= (rc.top + rc.bottom) - (n.bottom + p.top) <= 1
        }),
{
}

/// What a list box says is selected is the entry at that place, and nothing where
/// it says a negative number or one behind the last.
pub proof fn law_selected_entry(es: Seq<EntryView>, sel: int)
    ensures
        0 <= sel < es.len() ==> entry_selected(es, sel) == Some(es[sel]),
        sel < 0 || sel >= es.len() ==> entry_selected(es, sel) is None,
{
}

/// Favorites and recent folders are tagged, each in its own way, and open folders
/// are not; the menu offers to take a favorite out and to put any other folder in.
pub proof fn law_tags_tell_the_kinds()
    ensures
        tag_view(EntryKind::Favorite) == "★ 收藏"@,
        tag_view(EntryKind::Recent) == "最近"@,
        tag_view(EntryKind::Open).len() == 0,
        menu_label_view(true) == "移出收藏"@,
        menu_label_view(false) == "添加到收藏 ★"@,
{
    reveal_strlit("");
}

/// The tag stands at the right edge of a row, as high as the row, six points from
/// the edge and from fifty-six points before it on.
pub proof fn law_tag_stands_at_the_right(rc: RectView, dpi: int)
    requires
        0 <= dpi,
    ensures
        ({
            let t = tag_rect_view(rc, dpi);
            &&& t.top == rc.top && t.bottom == rc.bottom
            &&& rc.right - t.right == geometry::scaled(6, dpi)
            &&& rc.right - t.left == geometry::scaled(56, dpi)
            &&& t.left <= t.right <= rc.right
        }),
{
    geometry::lemma_scaled_grows(0, 6, dpi);
    geometry::lemma_scaled_grows(6, 56, dpi);
}

} // verus!
