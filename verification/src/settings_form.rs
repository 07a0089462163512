//! The settings window: its form, and the settings that a filled form stands
//! for.

use vstd::prelude::*;

use crate::config::{Settings, SettingsView, DEFAULT_RECENT_MAX, DEFAULT_RESULT_LIMIT};
use crate::geometry;
use crate::geometry::{scale, Place, PlaceView};
use crate::text;
use crate::text::{copy_strings, eq_str, parse_usize, to_decimal, trim};
use crate::wide;

verus! {

/// The choice of the theme.
pub const ID_THEME: u32 = 1001;

/// Whether the program starts with the session.
pub const ID_AUTOSTART: u32 = 1002;

/// How many results there are at most.
pub const ID_LIMIT: u32 = 1003;

/// How many recent folders are kept.
pub const ID_RECENT: u32 = 1004;

/// Whether there is a popup.
pub const ID_POPUP: u32 = 1005;

/// Whether the popup shows favorites.
pub const ID_FAV: u32 = 1006;

/// Whether the popup shows recent folders.
pub const ID_RECENTSHOW: u32 = 1007;

/// Whether the popup shows open folders.
pub const ID_OPEN: u32 = 1008;

/// The preset folders.
pub const ID_PRESET_LIST: u32 = 1009;

/// Adds a preset folder.
pub const ID_PRESET_ADD: u32 = 1010;

/// Removes a preset folder.
pub const ID_PRESET_DEL: u32 = 1011;

/// The first of the volumes.
pub const ID_DRIVE_BASE: u32 = 1100;

/// Saves the settings.
pub const IDOK: u32 = 1;

/// Leaves the settings as they were.
pub const IDCANCEL: u32 = 2;

/// The most results that can be set.
pub const MAX_RESULT_LIMIT: usize = 100_000;

/// The most recent folders that can be set.
pub const MAX_RECENT: usize = 100;

/// No part of the form reaches further than this, at 96 dots per inch.
pub const FORM_EXTENT: i32 = 1700;

/// The name of theme `i` of the choice, and that of the first for any other
/// number.
pub open spec fn theme_at(i: int) -> Seq<char> {
    if i == 1 {
        "business_dark"@
    } else if i == 2 {
        "solarized"@
    } else {
        "business_light"@
    }
}

/// The place of a theme in the choice, and that of the first for any other name.
pub open spec fn theme_index(name: Seq<char>) -> int {
    if name == "business_dark"@ {
        1
    } else if name == "solarized"@ {
        2
    } else {
        0
    }
}

/// What stands in the choice of the theme.
pub open spec fn theme_items() -> Seq<Seq<char>> {
    seq!["商务浅色"@, "商务深色"@, "暖阳浅色"@]
}

/// What stands in the choice of the theme.
fn theme_labels() -> (r: Vec<String>)
    ensures
        text::string_views(r@) == theme_items(),
{
    let mut out: Vec<String> = Vec::new();
    out.push("商务浅色".to_owned());
    out.push("商务深色".to_owned());
    out.push("暖阳浅色".to_owned());
    assert(text::string_views(out@) =~= theme_items());
    out
}

/// The place of a theme in the choice.
fn index_of_theme(name: &str) -> (r: i32)
    ensures
        r == theme_index(name@),
{
    if eq_str(name, "business_dark") {
        1
    } else if eq_str(name, "solarized") {
        2
    } else {
        0
    }
}

/// The name of the theme at the place that a choice gives, which is negative
/// where nothing is chosen.
pub fn theme_name(sel: isize) -> (r: String)
    ensures
        r@ == theme_at(sel as int),
{
    if sel == 1 {
        "business_dark".to_owned()
    } else if sel == 2 {
        "solarized".to_owned()
    } else {
        "business_light".to_owned()
    }
}

/// What a part of the form is.
#[derive(Debug, Clone, Copy, PartialEq, Eq, Structural)]
pub enum ControlKind {
    Label,
    Check,
    Combo,
    Edit,
    List,
    Button,
    DefaultButton,
}

/// A part of the form: what it is, its number, what stands on it, where it is,
/// whether it is checked, which of its items is chosen, and its items.
pub struct Control {
    pub kind: ControlKind,
    pub id: u32,
    pub text: String,
    pub place: Place,
    pub checked: bool,
    pub sel: i32,
    pub items: Vec<String>,
}

/// What a [`Control`] holds.
#[verifier::ext_equal]
pub struct ControlView {
    pub kind: ControlKind,
    pub id: u32,
    pub text: Seq<char>,
    pub place: PlaceView,
    pub checked: bool,
    pub sel: int,
    pub items: Seq<Seq<char>>,
}

impl View for Control {
    type V = ControlView;

    open spec fn view(&self) -> ControlView {
        ControlView {
            kind: self.kind,
            id: self.id,
            text: self.text@,
            place: self.place@,
            checked: self.checked,
            sel: self.sel as int,
            items: text::string_views(self.items@),
        }
    }
}

/// What some parts of the form hold.
pub open spec fn control_views(cs: Seq<Control>) -> Seq<ControlView> {
    Seq::new(cs.len(), |i: int| cs[i]@)
}

/// A place that is given for 96 dots per inch.
pub open spec fn scaled_place(x: int, y: int, w: int, h: int, dpi: int) -> PlaceView {
    PlaceView {
        x: geometry::scaled(x, dpi),
        y: geometry::scaled(y, dpi),
        w: geometry::scaled(w, dpi),
        h: geometry::scaled(h, dpi),
    }
}

/// A part without items.
pub open spec fn plain_view(
    kind: ControlKind,
    id: u32,
    text: Seq<char>,
    x: int,
    y: int,
    w: int,
    h: int,
    dpi: int,
) -> ControlView {
    ControlView {
        kind,
        id,
        text,
        place: scaled_place(x, y, w, h, dpi),
        checked: false,
        sel: -1,
        items: Seq::empty(),
    }
}

/// A part that is checked or not.
pub open spec fn check_view(
    id: u32,
    text: Seq<char>,
    x: int,
    y: int,
    w: int,
    checked: bool,
    dpi: int,
) -> ControlView {
    ControlView { checked, ..plain_view(ControlKind::Check, id, text, x, y, w, 22, dpi) }
}

/// A part with items.
pub open spec fn choice_view(
    kind: ControlKind,
    id: u32,
    x: int,
    y: int,
    w: int,
    h: int,
    items: Seq<Seq<char>>,
    sel: int,
    dpi: int,
) -> ControlView {
    ControlView { items, sel, ..plain_view(kind, id, ""@, x, y, w, h, dpi) }
}

/// A place that is given for 96 dots per inch.
fn place_at(x: i32, y: i32, w: i32, h: i32, dpi: i32) -> (r: Place)
    requires
        0 <= dpi,
        0 <= x <= FORM_EXTENT,
        0 <= y <= FORM_EXTENT,
        0 <= w <= FORM_EXTENT,
        0 <= h <= FORM_EXTENT,
        geometry::fits(geometry::scaled(FORM_EXTENT as int, dpi as int)),
    ensures
        r@ == scaled_place(x as int, y as int, w as int, h as int, dpi as int),
{
    proof {
        geometry::lemma_scaled_grows(x as int, FORM_EXTENT as int, dpi as int);
        geometry::lemma_scaled_grows(y as int, FORM_EXTENT as int, dpi as int);
        geometry::lemma_scaled_grows(w as int, FORM_EXTENT as int, dpi as int);
        geometry::lemma_scaled_grows(h as int, FORM_EXTENT as int, dpi as int);
    }
    Place { x: scale(x, dpi), y: scale(y, dpi), w: scale(w, dpi), h: scale(h, dpi) }
}

/// A part without items.
fn plain(
    kind: ControlKind,
    id: u32,
    label: String,
    x: i32,
    y: i32,
    w: i32,
    h: i32,
    dpi: i32,
) -> (r: Control)
    requires
        0 <= dpi,
        0 <= x <= FORM_EXTENT,
        0 <= y <= FORM_EXTENT,
        0 <= w <= FORM_EXTENT,
        0 <= h <= FORM_EXTENT,
        geometry::fits(geometry::scaled(FORM_EXTENT as int, dpi as int)),
    ensures
        r@ == plain_view(
            kind,
            id,
            label@,
            x as int,
            y as int,
            w as int,
            h as int,
            dpi as int,
        ),
{
    let items: Vec<String> = Vec::new();
    assert(text::string_views(items@) =~= Seq::empty());
    Control { kind, id, text: label, place: place_at(x, y, w, h, dpi), checked: false, sel: -1, items }
}

/// A part that is checked or not.
fn check(id: u32, label: String, x: i32, y: i32, w: i32, checked: bool, dpi: i32) -> (r: Control)
    requires
        0 <= dpi,
        0 <= x <= FORM_EXTENT,
        0 <= y <= FORM_EXTENT,
        0 <= w <= FORM_EXTENT,
        geometry::fits(geometry::scaled(FORM_EXTENT as int, dpi as int)),
    ensures
        r@ == check_view(id, label@, x as int, y as int, w as int, checked, dpi as int),
{
    let mut c = plain(ControlKind::Check, id, label, x, y, w, 22, dpi);
    c.checked = checked;
    c
}

/// A part with items.
fn choice(
    kind: ControlKind,
    id: u32,
    x: i32,
    y: i32,
    w: i32,
    h: i32,
    items: Vec<String>,
    sel: i32,
    dpi: i32,
) -> (r: Control)
    requires
        0 <= dpi,
        0 <= x <= FORM_EXTENT,
        0 <= y <= FORM_EXTENT,
        0 <= w <= FORM_EXTENT,
        0 <= h <= FORM_EXTENT,
        geometry::fits(geometry::scaled(FORM_EXTENT as int, dpi as int)),
    ensures
        r@ == choice_view(
            kind,
            id,
            x as int,
            y as int,
            w as int,
            h as int,
            text::string_views(items@),
            sel as int,
            dpi as int,
        ),
{
    let mut c = plain(kind, id, "".to_owned(), x, y, w, h, dpi);
    c.items = items;
    c.sel = sel;
    c
}

/// What is said of the program's version.
fn version_label(version: &str) -> (r: String)
    ensures
        r@ == "SaveSearch v"@ + version@,
{
    let mut s = "SaveSearch v".to_owned();
    text::push_text(&mut s, version);
    s
}

/// Whether the volume is indexed: all are where none is named.
pub open spec fn drive_checked(s: SettingsView, letter: char) -> bool {
    s.indexed_drives.len() == 0 || s.indexed_drives.contains(letter)
}

/// The parts of the form for the volumes, side by side.
pub open spec fn form_drives_view(s: SettingsView, letters: Seq<char>, dpi: int) -> Seq<
    ControlView,
> {
    Seq::new(
        letters.len(),
        |i: int|
            check_view(
                (ID_DRIVE_BASE + i) as u32,
                seq![letters[i], ':'],
                16 + 64 * i,
                78,
                56,
                drive_checked(s, letters[i]),
                dpi,
            ),
    )
}

/// Whether a character is among others.
fn has_char(cs: &[char], c: char) -> (r: bool)
    ensures
        r == cs@.contains(c),
{
    let mut i: usize = 0;
    while i < cs.len()
        invariant
            i <= cs@.len(),
            forall|k: int| 0 <= k < i ==> #[trigger] cs@[k] != c,
        decreases cs@.len() - i,
    {
        if cs[i] == c {
            assert(cs@[i as int] == c);
            return true;
        }
        i += 1;
    }
    false
}

/// The parts of the form for the volumes.
fn form_drives(s: &Settings, letters: &[char], dpi: i32) -> (r: Vec<Control>)
    requires
        0 <= dpi,
        letters@.len() <= 26,
        geometry::fits(geometry::scaled(FORM_EXTENT as int, dpi as int)),
    ensures
        control_views(r@) == form_drives_view(s@, letters@, dpi as int),
{
    let mut out: Vec<Control> = Vec::new();
    let mut i: usize = 0;
    while i < letters.len()
        invariant
            i <= letters@.len() <= 26,
            0 <= dpi,
            geometry::fits(geometry::scaled(FORM_EXTENT as int, dpi as int)),
            out@.len() == i,
            forall|k: int|
                0 <= k < i ==> (#[trigger] out@[k])@ == form_drives_view(
                    s@,
                    letters@,
                    dpi as int,
                )[k],
        decreases letters@.len() - i,
    {
        let d: char = letters[i];
        let mut label = String::new();
        label.push(d);
        label.push(':');
        assert(label@ =~= seq![d, ':']);
        let checked: bool = s.indexed_drives.len() == 0 || has_char(s.indexed_drives.as_slice(), d);
        out.push(
            check(ID_DRIVE_BASE + i as u32, label, 16 + 64 * i as i32, 78, 56, checked, dpi),
        );
        i += 1;
    }
    assert(control_views(out@) =~= form_drives_view(s@, letters@, dpi as int));
    out
}

/// The parts of the form above the volumes.
pub open spec fn form_head_view(s: SettingsView, dpi: int) -> Seq<ControlView> {
    seq![
        plain_view(ControlKind::Label, 0, "主题"@, 16, 17, 60, 20, dpi),
        choice_view(ControlKind::Combo, ID_THEME, 90, 14, 330, 200, theme_items(), theme_index(s.theme), dpi),
        plain_view(ControlKind::Label, 0, "索引盘符（不勾=全部 NTFS，改动重启生效）"@, 16, 54, 400, 20, dpi),
    ]
}

/// The parts of the form above the volumes.
fn form_head(s: &Settings, dpi: i32) -> (r: Vec<Control>)
    requires
        0 <= dpi,
        geometry::fits(geometry::scaled(FORM_EXTENT as int, dpi as int)),
    ensures
        control_views(r@) == form_head_view(s@, dpi as int),
{
    let mut out: Vec<Control> = Vec::new();
    out.push(plain(ControlKind::Label, 0, "主题".to_owned(), 16, 17, 60, 20, dpi));
    out.push(choice(ControlKind::Combo, ID_THEME, 90, 14, 330, 200, theme_labels(), index_of_theme(s.theme.as_str()), dpi));
    out.push(plain(ControlKind::Label, 0, "索引盘符（不勾=全部 NTFS，改动重启生效）".to_owned(), 16, 54, 400, 20, dpi));
    assert(control_views(out@) =~= form_head_view(s@, dpi as int));
    out
}

/// The parts of the form below the volumes.
pub open spec fn form_tail_view(s: SettingsView, version: Seq<char>, dpi: int) -> Seq<ControlView> {
    seq![
        check_view(ID_AUTOSTART, "开机自启（计划任务，免 UAC）"@, 16, 112, 400, s.autostart, dpi),
        plain_view(ControlKind::Label, 0, "结果上限"@, 16, 145, 70, 20, dpi),
        plain_view(ControlKind::Edit, ID_LIMIT, text::decimal(s.result_limit as nat), 90, 142, 80, 24, dpi),
        plain_view(ControlKind::Label, 0, "最近条数"@, 220, 145, 70, 20, dpi),
        plain_view(ControlKind::Edit, ID_RECENT, text::decimal(s.recent_max as nat), 300, 142, 80, 24, dpi),
        check_view(ID_POPUP, "启用保存对话框浮窗"@, 16, 178, 400, s.popup_enabled, dpi),
        check_view(ID_FAV, "显示 收藏"@, 36, 204, 110, s.popup_show_favorites, dpi),
        check_view(ID_RECENTSHOW, "显示 最近"@, 156, 204, 110, s.popup_show_recent, dpi),
        check_view(ID_OPEN, "显示 已打开"@, 276, 204, 130, s.popup_show_open, dpi),
        plain_view(ControlKind::Label, 0, "预设文件夹（搜索范围下拉可选，仅搜该文件夹）"@, 16, 240, 420, 20, dpi),
        choice_view(ControlKind::List, ID_PRESET_LIST, 16, 262, 296, 96, s.preset_folders, -1, dpi),
        plain_view(ControlKind::Button, ID_PRESET_ADD, "添加文件夹…"@, 320, 262, 118, 28, dpi),
        plain_view(ControlKind::Button, ID_PRESET_DEL, "删除"@, 320, 296, 118, 28, dpi),
        plain_view(ControlKind::Label, 0, "SaveSearch v"@ + version, 16, 424, 200, 20, dpi),
        plain_view(ControlKind::DefaultButton, IDOK, "保存"@, 230, 416, 90, 30, dpi),
        plain_view(ControlKind::Button, IDCANCEL, "取消"@, 330, 416, 90, 30, dpi),
    ]
}

/// The parts of the form below the volumes.
fn form_tail(s: &Settings, version: &str, dpi: i32) -> (r: Vec<Control>)
    requires
        0 <= dpi,
        geometry::fits(geometry::scaled(FORM_EXTENT as int, dpi as int)),
    ensures
        control_views(r@) == form_tail_view(s@, version@, dpi as int),
{
    let mut out: Vec<Control> = Vec::new();
    out.push(check(ID_AUTOSTART, "开机自启（计划任务，免 UAC）".to_owned(), 16, 112, 400, s.autostart, dpi));
    out.push(plain(ControlKind::Label, 0, "结果上限".to_owned(), 16, 145, 70, 20, dpi));
    out.push(plain(ControlKind::Edit, ID_LIMIT, to_decimal(s.result_limit as u64), 90, 142, 80, 24, dpi));
    out.push(plain(ControlKind::Label, 0, "最近条数".to_owned(), 220, 145, 70, 20, dpi));
    out.push(plain(ControlKind::Edit, ID_RECENT, to_decimal(s.recent_max as u64), 300, 142, 80, 24, dpi));
    out.push(check(ID_POPUP, "启用保存对话框浮窗".to_owned(), 16, 178, 400, s.popup_enabled, dpi));
    out.push(check(ID_FAV, "显示 收藏".to_owned(), 36, 204, 110, s.popup_show_favorites, dpi));
    out.push(check(ID_RECENTSHOW, "显示 最近".to_owned(), 156, 204, 110, s.popup_show_recent, dpi));
    out.push(check(ID_OPEN, "显示 已打开".to_owned(), 276, 204, 130, s.popup_show_open, dpi));
    out.push(plain(ControlKind::Label, 0, "预设文件夹（搜索范围下拉可选，仅搜该文件夹）".to_owned(), 16, 240, 420, 20, dpi));
    out.push(choice(ControlKind::List, ID_PRESET_LIST, 16, 262, 296, 96, copy_strings(s.preset_folders.as_slice()), -1, dpi));
    out.push(plain(ControlKind::Button, ID_PRESET_ADD, "添加文件夹…".to_owned(), 320, 262, 118, 28, dpi));
    out.push(plain(ControlKind::Button, ID_PRESET_DEL, "删除".to_owned(), 320, 296, 118, 28, dpi));
    out.push(plain(ControlKind::Label, 0, version_label(version), 16, 424, 200, 20, dpi));
    out.push(plain(ControlKind::DefaultButton, IDOK, "保存".to_owned(), 230, 416, 90, 30, dpi));
    out.push(plain(ControlKind::Button, IDCANCEL, "取消".to_owned(), 330, 416, 90, 30, dpi));
    assert(control_views(out@) =~= form_tail_view(s@, version@, dpi as int));
    out
}

/// The form for the settings, with a part for each volume that can be indexed.
pub open spec fn form_view(
    s: SettingsView,
    letters: Seq<char>,
    version: Seq<char>,
    dpi: int,
) -> Seq<ControlView> {
    form_head_view(s, dpi) + form_drives_view(s, letters, dpi) + form_tail_view(s, version, dpi)
}

/// The form for the settings.
pub fn create(s: &Settings, letters: &[char], version: &str, dpi: i32) -> (r: Vec<Control>)
    requires
        0 <= dpi,
        letters@.len() <= 26,
        geometry::fits(geometry::scaled(FORM_EXTENT as int, dpi as int)),
    ensures
        control_views(r@) == form_view(s@, letters@, version@, dpi as int),
{
    let mut out = form_head(s, dpi);
    let mut drives = form_drives(s, letters, dpi);
    let mut tail = form_tail(s, version, dpi);
    let ghost a = out@;
    let ghost b = drives@;
    let ghost c = tail@;
    out.append(&mut drives);
    out.append(&mut tail);
    assert(out@ =~= a + b + c);
    assert(control_views(out@) =~= control_views(a) + control_views(b) + control_views(c));
    out
}

/// What a form was filled with.
pub struct FormInput {
    /// Which theme is chosen, negative where none is.
    pub theme_sel: isize,
    /// The volumes, and whether each is checked.
    pub drives: Vec<(char, bool)>,
    pub limit: String,
    pub recent: String,
    pub preset_folders: Vec<String>,
    pub autostart: bool,
    pub popup: bool,
    pub fav: bool,
    pub recent_show: bool,
    pub open: bool,
}

/// The letters of the volumes that are checked.
pub open spec fn checked_letters(drives: Seq<(char, bool)>) -> Seq<char>
    decreases drives.len(),
{
    if drives.len() == 0 {
        Seq::empty()
    } else {
        let before = checked_letters(drives.drop_last());
        if drives.last().1 {
            before.push(drives.last().0)
        } else {
            before
        }
    }
}

/// The volumes to index: none is named where all are checked.
pub open spec fn chosen_drives(drives: Seq<(char, bool)>) -> Seq<char> {
    if checked_letters(drives).len() == drives.len() {
        Seq::empty()
    } else {
        checked_letters(drives)
    }
}

/// The number in a field, and the default where there is none.
pub open spec fn field_number(typed: Seq<char>, default: int) -> int {
    match text::parsed_usize(text::trimmed(typed)) {
        Some(n) => n as int,
        None => default,
    }
}

/// The settings that a filled form stands for. What was searched for last is not
/// part of the form.
pub open spec fn form_settings(f: FormInput, last_query: Seq<char>) -> SettingsView {
    SettingsView {
        theme: theme_at(f.theme_sel as int),
        indexed_drives: chosen_drives(f.drives@),
        preset_folders: text::string_views(f.preset_folders@),
        result_limit: geometry::within(
            field_number(f.limit@, DEFAULT_RESULT_LIMIT as int),
            1,
            MAX_RESULT_LIMIT as int,
        ) as usize,
        recent_max: geometry::smaller(
            field_number(f.recent@, DEFAULT_RECENT_MAX as int),
            MAX_RECENT as int,
        ) as usize,
        autostart: f.autostart,
        popup_enabled: f.popup,
        popup_show_favorites: f.fav,
        popup_show_recent: f.recent_show,
        popup_show_open: f.open,
        last_query,
    }
}

/// The number in a field, and the default where there is none.
fn number_or(typed: &str, default: usize) -> (r: usize)
    ensures
        r == field_number(typed@, default as int),
{
    match parse_usize(trim(typed).as_str()) {
        Some(n) => n,
        None => default,
    }
}

/// The volumes to index.
fn pick_drives(drives: &Vec<(char, bool)>) -> (r: Vec<char>)
    ensures
        r@ == chosen_drives(drives@),
{
    let mut out: Vec<char> = Vec::new();
    let mut i: usize = 0;
    assert(drives@.take(0) =~= Seq::empty());
    while i < drives.len()
        invariant
            i <= drives@.len(),
            out@ == checked_letters(drives@.take(i as int)),
        decreases drives@.len() - i,
    {
        assert(drives@.take(i + 1).drop_last() =~= drives@.take(i as int));
        assert(drives@.take(i + 1).last() == drives@[i as int]);
        if drives[i].1 {
            out.push(drives[i].0);
        }
        i += 1;
    }
    assert(drives@.take(i as int) =~= drives@);
    if out.len() == drives.len() {
        Vec::new()
    } else {
        out
    }
}

/// The settings that a filled form stands for.
pub fn apply_form(f: &FormInput, last_query: &str) -> (r: Settings)
    ensures
        r@ == form_settings(*f, last_query@),
{
    let limit: usize = number_or(f.limit.as_str(), DEFAULT_RESULT_LIMIT);
    let recent: usize = number_or(f.recent.as_str(), DEFAULT_RECENT_MAX);
    Settings {
        theme: theme_name(f.theme_sel),
        indexed_drives: pick_drives(&f.drives),
        preset_folders: copy_strings(f.preset_folders.as_slice()),
        result_limit: if limit < 1 {
            1
        } else if limit > MAX_RESULT_LIMIT {
            MAX_RESULT_LIMIT
        } else {
            limit
        },
        recent_max: if recent > MAX_RECENT {
            MAX_RECENT
        } else {
            recent
        },
        autostart: f.autostart,
        popup_enabled: f.popup,
        popup_show_favorites: f.fav,
        popup_show_recent: f.recent_show,
        popup_show_open: f.open,
        last_query: last_query.to_owned(),
    }
}

/// The texts of a list whose items were read as units, those without a
/// character left out.
pub open spec fn item_views(raw: Seq<Vec<u16>>) -> Seq<Seq<char>>
    decreases raw.len(),
{
    if raw.len() == 0 {
        Seq::empty()
    } else {
        let before = item_views(raw.drop_last());
        if raw.last()@.len() == 0 {
            before
        } else {
            before.push(wide::decoded(raw.last()@))
        }
    }
}

/// The texts of a list whose items were read as units.
pub fn listbox_items(raw: &[Vec<u16>]) -> (r: Vec<String>)
    ensures
        text::string_views(r@) == item_views(raw@),
{
    let mut out: Vec<String> = Vec::new();
    let mut i: usize = 0;
    assert(raw@.take(0) =~= Seq::empty());
    assert(text::string_views(out@) =~= Seq::empty());
    while i < raw.len()
        invariant
            i <= raw@.len(),
            text::string_views(out@) == item_views(raw@.take(i as int)),
        decreases raw@.len() - i,
    {
        let ghost before = out@;
        assert(raw@.take(i + 1).drop_last() =~= raw@.take(i as int));
        assert(raw@.take(i + 1).last() == raw@[i as int]);
        if raw[i].len() > 0 {
            out.push(wide::decode_lossy(raw[i].as_slice()));
            assert(text::string_views(out@) =~= text::string_views(before).push(
                wide::decoded(raw@[i as int]@),
            ));
        }
        i += 1;
    }
    assert(raw@.take(i as int) =~= raw@);
    out
}

/// Whether a form holds what it was opened with.
pub open spec fn untouched(f: FormInput, s: SettingsView, letters: Seq<char>) -> bool {
    &&& f.theme_sel == theme_index(s.theme)
    &&& f.drives@ == Seq::new(
        letters.len(),
        |i: int| (letters[i], drive_checked(s, letters[i])),
    )
    &&& f.limit@ == text::decimal(s.result_limit as nat)
    &&& f.recent@ == text::decimal(s.recent_max as nat)
    &&& text::string_views(f.preset_folders@) == s.preset_folders
    &&& f.autostart == s.autostart
    &&& f.popup == s.popup_enabled
    &&& f.fav == s.popup_show_favorites
    &&& f.recent_show == s.popup_show_recent
    &&& f.open == s.popup_show_open
}

/// The letters among `letters` that are named, in their order.
pub open spec fn named_letters(letters: Seq<char>, named: Seq<char>) -> Seq<char>
    decreases letters.len(),
{
    if letters.len() == 0 {
        Seq::empty()
    } else {
        let before = named_letters(letters.drop_last(), named);
        if named.contains(letters.last()) {
            before.push(letters.last())
        } else {
            before
        }
    }
}

proof fn lemma_checked_letters(drives: Seq<(char, bool)>, letters: Seq<char>, s: SettingsView)
    requires
        drives == Seq::new(letters.len(), |i: int| (letters[i], drive_checked(s, letters[i]))),
    ensures
        s.indexed_drives.len() == 0 ==> checked_letters(drives).len() == drives.len(),
        s.indexed_drives.len() > 0 ==> checked_letters(drives) == named_letters(
            letters,
            s.indexed_drives,
        ),
    decreases letters.len(),
{
    if letters.len() > 0 {
        let most = letters.drop_last();
        assert(drives.drop_last() =~= Seq::new(
            most.len(),
            |i: int| (most[i], drive_checked(s, most[i])),
        ));
        lemma_checked_letters(drives.drop_last(), most, s);
    }
}

proof fn lemma_number_field(n: nat, default: int)
    requires
        n <= usize::MAX,
    ensures
        field_number(text::decimal(n), default) == n,
{
    let d = text::decimal(n);
    text::law_decimal_round_trip(n);
    assert(text::is_digit(d[0]));
    assert(text::is_digit(d.last()));
    assert(text::without_lead(d) == d);
    assert(text::without_tail(d) == d);
}

/// Saving a form that was not touched changes nothing, where the settings are
/// such as the form can hold: a theme to choose, numbers within bounds, and all
/// volumes or some of those there are, in their order.
pub proof fn law_untouched_form_changes_nothing(f: FormInput, s: SettingsView, letters: Seq<char>)
    requires
        untouched(f, s, letters),
        s.theme == theme_at(theme_index(s.theme)),
        1 <= s.result_limit <= MAX_RESULT_LIMIT,
        s.recent_max <= MAX_RECENT,
        s.indexed_drives.len() > 0 ==> s.indexed_drives == named_letters(letters, s.indexed_drives)
            && s.indexed_drives.len() < letters.len(),
    ensures
        form_settings(f, s.last_query) == s,
{
    lemma_number_field(s.result_limit as nat, DEFAULT_RESULT_LIMIT as int);
    lemma_number_field(s.recent_max as nat, DEFAULT_RECENT_MAX as int);
    lemma_checked_letters(f.drives@, letters, s);
    assert(form_settings(f, s.last_query) =~= s);
}

/// Whatever a form is filled with, the numbers that it stands for are within
/// bounds, its theme is one that there is, and what was searched for last stays.
pub proof fn law_form_gives_valid_settings(f: FormInput, last_query: Seq<char>)
    ensures
        1 <= form_settings(f, last_query).result_limit <= MAX_RESULT_LIMIT,
        form_settings(f, last_query).recent_max <= MAX_RECENT,
        theme_at(theme_index(form_settings(f, last_query).theme)) == form_settings(
            f,
            last_query,
        ).theme,
        form_settings(f, last_query).last_query == last_query,
{
    reveal_strlit("business_light");
    reveal_strlit("business_dark");
    reveal_strlit("solarized");
    assert("business_light"@.len() != "business_dark"@.len());
    assert("business_light"@.len() != "solarized"@.len());
    assert("business_dark"@.len() != "solarized"@.len());
}

/// What the settings window does after one of its parts was used.
#[derive(Debug, Clone, Copy, PartialEq, Eq, Structural)]
pub enum FormCommand {
    Nothing,
    /// Save the settings and close.
    Save,
    /// Close.
    Close,
    /// Ask for a folder and add it to the preset ones.
    AddFolder,
    /// Remove the selected preset folder.
    RemoveFolder,
}

/// What the settings window does after one of its parts was used.
pub fn form_command(id: u32) -> (r: FormCommand)
    ensures
        r == (if id == IDOK {
            FormCommand::Save
        } else if id == IDCANCEL {
            FormCommand::Close
        } else if id == ID_PRESET_ADD {
            FormCommand::AddFolder
        } else if id == ID_PRESET_DEL {
            FormCommand::RemoveFolder
        } else {
            FormCommand::Nothing
        }),
{
    if id == IDOK {
        FormCommand::Save
    } else if id == IDCANCEL {
        FormCommand::Close
    } else if id == ID_PRESET_ADD {
        FormCommand::AddFolder
    } else if id == ID_PRESET_DEL {
        FormCommand::RemoveFolder
    } else {
        FormCommand::Nothing
    }
}

/// A number that is typed into the form is taken, the limit of the results between
/// one and a hundred thousand and the recent folders up to a hundred; where no
/// number is typed there are two hundred results and two recent folders.
pub proof fn law_numbers_of_the_form(f: FormInput, last_query: Seq<char>, n: nat)
    requires
        n <= usize::MAX,
    ensures
        f.limit@ == text::decimal(n) && 1 <= n <= 100_000 ==> form_settings(
            f,
            last_query,
        ).result_limit == n,
        f.limit@ == text::decimal(n) && n > 100_000 ==> form_settings(f, last_query).result_limit
            == 100_000,
        f.limit@ == text::decimal(0) ==> form_settings(f, last_query).result_limit == 1,
        f.limit@.len() == 0 ==> form_settings(f, last_query).result_limit == 200,
        f.recent@ == text::decimal(n) && n <= 100 ==> form_settings(f, last_query).recent_max == n,
        f.recent@ == text::decimal(n) && n > 100 ==> form_settings(f, last_query).recent_max == 100,
        f.recent@.len() == 0 ==> form_settings(f, last_query).recent_max == 2,
{
    lemma_decimal_stays(n);
    lemma_decimal_stays(0);
    text::law_number_is_read_back(n, f.limit@, 0);
    text::law_number_is_read_back(0, f.recent@, 0);
    if f.limit@.len() == 0 {
        assert(text::trimmed(f.limit@) =~= f.limit@);
    }
    if f.recent@.len() == 0 {
        assert(text::trimmed(f.recent@) =~= f.recent@);
    }
    text::law_number_is_read_back(n, f.recent@, 0);
    text::law_number_is_read_back(0, f.limit@, 0);
}

proof fn lemma_decimal_stays(n: nat)
    ensures
        text::trimmed(text::decimal(n)) == text::decimal(n),
{
    let none = Seq::<char>::empty();
    let d = text::decimal(n);
    text::law_decimal_round_trip(n);
    assert(text::is_digit(d[0]));
    assert(text::is_digit(d[d.len() - 1]));
    text::law_trimming_takes_white_space_only(none, d, none);
    assert(none + d + none =~= d);
}

/// The volumes that are checked are indexed, in their order, and no others, and all
/// volumes, which stands for none being named, where every one is checked.
pub proof fn law_checked_volumes_are_indexed(drives: Seq<(char, bool)>, c: char)
    ensures
        (forall|i: int| 0 <= i < drives.len() ==> (#[trigger] drives[i]).1) ==> chosen_drives(
            drives,
        ).len() == 0,
        (exists|i: int| 0 <= i < drives.len() && !(#[trigger] drives[i]).1) ==> (chosen_drives(
            drives,
        ).contains(c) <==> exists|i: int|
            0 <= i < drives.len() && (#[trigger] drives[i]) == (c, true)),
        checked_letters(drives.push((c, true))) == checked_letters(drives).push(c),
        checked_letters(drives.push((c, false))) == checked_letters(drives),
{
    lemma_checked(drives, c);
    assert(drives.push((c, true)).drop_last() =~= drives);
    assert(drives.push((c, false)).drop_last() =~= drives);
}

proof fn lemma_checked(drives: Seq<(char, bool)>, c: char)
    ensures
        checked_letters(drives).len() <= drives.len(),
        checked_letters(drives).len() == drives.len() <==> forall|i: int|
            0 <= i < drives.len() ==> (#[trigger] drives[i]).1,
        checked_letters(drives).contains(c) <==> exists|i: int|
            0 <= i < drives.len() && (#[trigger] drives[i]) == (c, true),
    decreases drives.len(),
{
    if drives.len() > 0 {
        let most = drives.drop_last();
        let n = most.len() as int;
        lemma_checked(most, c);
        let before = checked_letters(most);
        let all = checked_letters(drives);
        if forall|i: int| 0 <= i < most.len() ==> (#[trigger] most[i]).1 {
            assert forall|i: int| 0 <= i < n implies (#[trigger] drives[i]).1 by {
                assert(most[i].1);
            }
        }
        if forall|i: int| 0 <= i < drives.len() ==> (#[trigger] drives[i]).1 {
            assert forall|i: int| 0 <= i < most.len() implies (#[trigger] most[i]).1 by {
                assert(drives[i].1);
            }
            assert(drives[n].1);
        }
        if before.contains(c) {
            let k = choose|k: int| 0 <= k < before.len() && before[k] == c;
            assert(all[k] == c);
            let i = choose|i: int| 0 <= i < most.len() && (#[trigger] most[i]) == (c, true);
            assert(drives[i] == (c, true));
        }
        if drives.last() == (c, true) {
            assert(drives[n] == (c, true));
            assert(all[all.len() - 1] == c);
        }
        if all.contains(c) {
            let k = choose|k: int| 0 <= k < all.len() && all[k] == c;
            if k < before.len() {
                assert(before[k] == c);
            } else {
                assert(drives[n] == (c, true));
            }
        }
        if exists|i: int| 0 <= i < drives.len() && (#[trigger] drives[i]) == (c, true) {
            let i = choose|i: int| 0 <= i < drives.len() && (#[trigger] drives[i]) == (c, true);
            if i < n {
                assert(most[i] == (c, true));
            }
        }
    }
}

/// The form keeps what was checked and chosen: each choice becomes the setting that
/// it is for.
pub proof fn law_choices_become_settings(f: FormInput, last_query: Seq<char>)
    ensures
        ({
            let s = form_settings(f, last_query);
            &&& s.autostart == f.autostart
            &&& s.popup_enabled == f.popup
            &&& s.popup_show_favorites == f.fav
            &&& s.popup_show_recent == f.recent_show
            &&& s.popup_show_open == f.open
            &&& s.preset_folders == text::string_views(f.preset_folders@)
            &&& s.last_query == last_query
            &&& f.theme_sel == 0 ==> s.theme == "business_light"@
            &&& f.theme_sel == 1 ==> s.theme == "business_dark"@
            &&& f.theme_sel == 2 ==> s.theme == "solarized"@
        }),
{
}

/// The form shows the settings: each part that stands for one shows it.
pub proof fn law_form_shows_the_settings(
    s: SettingsView,
    letters: Seq<char>,
    version: Seq<char>,
    dpi: int,
    i: int,
)
    requires
        0 <= i < letters.len() <= 26,
    ensures
        ({
            let form = form_view(s, letters, version, dpi);
            let n = 3 + letters.len() as int;
            &&& form.len() == n + 16
            &&& form[1].id == 1001 && form[1].sel == (if s.theme == "business_dark"@ {
                1int
            } else if s.theme == "solarized"@ {
                2
            } else {
                0
            })
            &&& form[3 + i].id == 1100 + i && form[3 + i].text == seq![letters[i], ':'] && form[3
                + i].checked == (s.indexed_drives.len() == 0 || s.indexed_drives.contains(
                letters[i],
            ))
            &&& form[n].id == 1002 && form[n].checked == s.autostart
            &&& form[n + 2].id == 1003 && form[n + 2].text == text::decimal(s.result_limit as nat)
            &&& form[n + 4].id == 1004 && form[n + 4].text == text::decimal(s.recent_max as nat)
            &&& form[n + 5].id == 1005 && form[n + 5].checked == s.popup_enabled
            &&& form[n + 6].id == 1006 && form[n + 6].checked == s.popup_show_favorites
            &&& form[n + 7].id == 1007 && form[n + 7].checked == s.popup_show_recent
            &&& form[n + 8].id == 1008 && form[n + 8].checked == s.popup_show_open
            &&& form[n + 10].id == 1009 && form[n + 10].items == s.preset_folders
            &&& form[n + 13].text == "SaveSearch v"@ + version
            &&& form[n + 14].id == 1 && form[n + 15].id == 2
        }),
{
}

/// The items of a list are read one by one, those without a unit left out.
pub proof fn law_items_are_read(raw: Seq<Vec<u16>>, item: Vec<u16>)
    ensures
        item@.len() == 0 ==> item_views(raw.push(item)) == item_views(raw),
        item@.len() > 0 ==> item_views(raw.push(item)) == item_views(raw).push(
            wide::decoded(item@),
        ),
        item_views(Seq::empty()).len() == 0,
{
    assert(raw.push(item).drop_last() =~= raw);
}

/// Where the parts of the form stand, in points from its corner, at any number of
/// dots per inch: the volumes in a row, each sixty-four points behind the one before,
/// and the others below one another in fixed places.
pub proof fn law_places_of_the_form(
    s: SettingsView,
    letters: Seq<char>,
    version: Seq<char>,
    dpi: int,
    i: int,
)
    requires
        0 <= i < letters.len(),
    ensures
        ({
            let form = form_view(s, letters, version, dpi);
            let n = 3 + letters.len() as int;
            let at = |x: int, y: int, w: int, h: int|
                PlaceView {
                    x: geometry::scaled(x, dpi),
                    y: geometry::scaled(y, dpi),
                    w: geometry::scaled(w, dpi),
                    h: geometry::scaled(h, dpi),
                };
            &&& form[0].place == at(16, 17, 60, 20)
            &&& form[1].place == at(90, 14, 330, 200)
            &&& form[2].place == at(16, 54, 400, 20)
            &&& form[3 + i].place == at(16 + 64 * i, 78, 56, 22)
            &&& form[n].place == at(16, 112, 400, 22)
            &&& form[n + 1].place == at(16, 145, 70, 20)
            &&& form[n + 2].place == at(90, 142, 80, 24)
            &&& form[n + 3].place == at(220, 145, 70, 20)
            &&& form[n + 4].place == at(300, 142, 80, 24)
            &&& form[n + 5].place == at(16, 178, 400, 22)
            &&& form[n + 6].place == at(36, 204, 110, 22)
            &&& form[n + 7].place == at(156, 204, 110, 22)
            &&& form[n + 8].place == at(276, 204, 130, 22)
            &&& form[n + 9].place == at(16, 240, 420, 20)
            &&& form[n + 10].place == at(16, 262, 296, 96)
            &&& form[n + 11].place == at(320, 262, 118, 28)
            &&& form[n + 12].place == at(320, 296, 118, 28)
            &&& form[n + 13].place == at(16, 424, 200, 20)
            &&& form[n + 14].place == at(230, 416, 90, 30)
            &&& form[n + 15].place == at(330, 416, 90, 30)
        }),
{
}

} // verus!
