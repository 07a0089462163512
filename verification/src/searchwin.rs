//! The search window: what it looks for, what it says, and where its parts
//! stand.

use vstd::prelude::*;

use crate::catalog;
use crate::catalog::Catalog;
use crate::category::Category;
use crate::geometry;
use crate::geometry::{divide, scale, Place, PlaceView};
use crate::messages::{hi_word, lo_word};
use crate::model::IndexView;
use crate::search;
use crate::search::{ResultView, SearchResult};
use crate::text;
use crate::text::{to_decimal, trim};
use crate::theme::Theme;

verus! {

/// The control in which the query is typed.
pub const EDIT_ID: u32 = 101;

/// The control in which the scope is chosen.
pub const COMBO_ID: u32 = 103;

/// The control that says how many results there are.
pub const COUNT_ID: u32 = 104;

/// The first of the buttons for the categories.
pub const CAT_BASE: u32 = 300;

/// How many categories there are.
pub const CATS: usize = 7;

/// The notice that the query changed.
pub const EN_CHANGE: u32 = 0x300;

/// The notice that another scope was chosen.
pub const CBN_SELCHANGE: u32 = 1;

/// The category of button `i`, and all for any other number.
pub open spec fn category_of_button(i: int) -> Category {
    if i == 1 {
        Category::Folder
    } else if i == 2 {
        Category::Document
    } else if i == 3 {
        Category::Image
    } else if i == 4 {
        Category::Video
    } else if i == 5 {
        Category::Audio
    } else if i == 6 {
        Category::Other
    } else {
        Category::All
    }
}

/// The category of button `i`, and all for any other number.
pub fn category_at(i: usize) -> (r: Category)
    ensures
        r == category_of_button(i as int),
{
    if i == 1 {
        Category::Folder
    } else if i == 2 {
        Category::Document
    } else if i == 3 {
        Category::Image
    } else if i == 4 {
        Category::Video
    } else if i == 5 {
        Category::Audio
    } else if i == 6 {
        Category::Other
    } else {
        Category::All
    }
}

/// What stands on button `i`.
pub open spec fn label_of_button(i: int) -> Seq<char> {
    if i == 0 {
        "全部"@
    } else if i == 1 {
        "文件夹"@
    } else if i == 2 {
        "文档"@
    } else if i == 3 {
        "图片"@
    } else if i == 4 {
        "视频"@
    } else if i == 5 {
        "音频"@
    } else if i == 6 {
        "其他"@
    } else {
        ""@
    }
}

/// What stands on button `i`.
pub fn category_label(i: usize) -> (r: String)
    ensures
        r@ == label_of_button(i as int),
{
    if i == 0 {
        "全部".to_owned()
    } else if i == 1 {
        "文件夹".to_owned()
    } else if i == 2 {
        "文档".to_owned()
    } else if i == 3 {
        "图片".to_owned()
    } else if i == 4 {
        "视频".to_owned()
    } else if i == 5 {
        "音频".to_owned()
    } else if i == 6 {
        "其他".to_owned()
    } else {
        "".to_owned()
    }
}

/// Every category has its button, and no two buttons the same.
pub proof fn law_one_button_per_category(i: int, j: int, c: Category)
    requires
        0 <= i < CATS,
        0 <= j < CATS,
    ensures
        category_of_button(i) == category_of_button(j) ==> i == j,
        exists|k: int| 0 <= k < CATS && #[trigger] category_of_button(k) == c,
{
    assert(category_of_button(0) == Category::All);
    assert(category_of_button(1) == Category::Folder);
    assert(category_of_button(2) == Category::Document);
    assert(category_of_button(3) == Category::Image);
    assert(category_of_button(4) == Category::Video);
    assert(category_of_button(5) == Category::Audio);
    assert(category_of_button(6) == Category::Other);
}

/// The colors of a button.
#[derive(Debug, Clone, Copy, PartialEq, Eq, Structural)]
pub struct ButtonColors {
    pub bg: u32,
    pub fg: u32,
}

/// The colors of a category's button: it stands out while its category is the
/// chosen one, and less while it is pressed.
pub fn button_colors(t: &Theme, active: bool, pressed: bool) -> (r: ButtonColors)
    ensures
        r.bg == (if active {
            t.accent
        } else if pressed {
            t.sel_bg
        } else {
            t.alt_bg
        }),
        r.fg == (if active {
            0xFF_FFFF
        } else {
            t.fg
        }),
{
    ButtonColors {
        bg: if active {
            t.accent
        } else if pressed {
            t.sel_bg
        } else {
            t.alt_bg
        },
        fg: if active {
            0xFF_FFFF
        } else {
            t.fg
        },
    }
}

/// What a command of the search window asks for.
#[derive(Debug, Clone, Copy, PartialEq, Eq, Structural)]
pub enum WindowCommand {
    Nothing,
    /// Search anew.
    Search,
    /// Choose a category, then search anew.
    Choose { category: Category },
}

/// What a command with the given control and notice asks for.
pub open spec fn command_of(id: int, code: int) -> WindowCommand {
    if (id == EDIT_ID && code == EN_CHANGE) || (id == COMBO_ID && code == CBN_SELCHANGE) {
        WindowCommand::Search
    } else if CAT_BASE <= id < CAT_BASE + CATS {
        WindowCommand::Choose { category: category_of_button(id - CAT_BASE) }
    } else {
        WindowCommand::Nothing
    }
}

/// What a command of the search window asks for.
pub fn window_command(param: u32) -> (r: WindowCommand)
    ensures
        r == command_of(param as int % 0x1_0000, param as int / 0x1_0000),
{
    let id: u32 = lo_word(param);
    let code: u32 = hi_word(param);
    if (id == EDIT_ID && code == EN_CHANGE) || (id == COMBO_ID && code == CBN_SELCHANGE) {
        WindowCommand::Search
    } else if id >= CAT_BASE && id < CAT_BASE + CATS as u32 {
        WindowCommand::Choose { category: category_at((id - CAT_BASE) as usize) }
    } else {
        WindowCommand::Nothing
    }
}

/// Where to search.
#[derive(Debug, Clone)]
pub enum Scope {
    /// On all volumes.
    All,
    /// On the volume with the letter.
    Drive(char),
    /// In the folder.
    Folder(String),
}

/// Where to search.
pub enum ScopeView {
    All,
    Drive(char),
    Folder(Seq<char>),
}

impl View for Scope {
    type V = ScopeView;

    open spec fn view(&self) -> ScopeView {
        match self {
            Scope::All => ScopeView::All,
            Scope::Drive(c) => ScopeView::Drive(*c),
            Scope::Folder(f) => ScopeView::Folder(f@),
        }
    }
}

/// The scope at place `sel` of the list: first all volumes, then each volume,
/// then each preset folder. All volumes where nothing is selected.
pub open spec fn scope_at(sel: int, drives: Seq<char>, folders: Seq<Seq<char>>) -> ScopeView {
    if 0 < sel <= drives.len() {
        ScopeView::Drive(drives[sel - 1])
    } else if drives.len() < sel <= drives.len() + folders.len() {
        ScopeView::Folder(folders[sel - 1 - drives.len()])
    } else {
        ScopeView::All
    }
}

/// The scope at place `sel` of the list.
pub fn selected_scope(sel: isize, drives: &[char], folders: &[String]) -> (r: Scope)
    ensures
        r@ == scope_at(sel as int, drives@, text::string_views(folders@)),
{
    if sel <= 0 {
        return Scope::All;
    }
    let k: usize = sel as usize - 1;
    if k < drives.len() {
        return Scope::Drive(drives[k]);
    }
    let j: usize = k - drives.len();
    if j < folders.len() {
        assert(text::string_views(folders@)[j as int] == folders@[j as int]@);
        Scope::Folder(folders[j].clone())
    } else {
        Scope::All
    }
}

/// What stands in the list of scopes.
pub open spec fn scope_label_views(drives: Seq<char>, folders: Seq<Seq<char>>) -> Seq<Seq<char>> {
    seq!["全部盘"@] + Seq::new(drives.len(), |i: int| seq![drives[i], ':']) + folders
}

/// What stands in the list of scopes.
pub fn scope_labels(drives: &[char], folders: &[String]) -> (r: Vec<String>)
    ensures
        text::string_views(r@) == scope_label_views(drives@, text::string_views(folders@)),
{
    let mut out: Vec<String> = Vec::new();
    out.push("全部盘".to_owned());
    let mut i: usize = 0;
    while i < drives.len()
        invariant
            i <= drives@.len(),
            out@.len() == i + 1,
            out@[0]@ == "全部盘"@,
            forall|k: int| 0 <= k < i ==> (#[trigger] out@[k + 1])@ == seq![drives@[k], ':'],
        decreases drives@.len() - i,
    {
        let mut s = String::new();
        s.push(drives[i]);
        s.push(':');
        assert(s@ =~= seq![drives@[i as int], ':']);
        out.push(s);
        i += 1;
    }
    let ghost n = drives@.len() as int;
    let ghost head = out@;
    let mut j: usize = 0;
    while j < folders.len()
        invariant
            j <= folders@.len(),
            head.len() == n + 1,
            out@.len() == n + 1 + j,
            out@.take(n + 1) == head,
            forall|k: int| 0 <= k < j ==> (#[trigger] out@[n + 1 + k])@ == folders@[k]@,
        decreases folders@.len() - j,
    {
        let ghost before = out@;
        out.push(folders[j].clone());
        assert(out@.take(n + 1) =~= before.take(n + 1));
        j += 1;
    }
    proof {
        let got = text::string_views(out@);
        let want = scope_label_views(drives@, text::string_views(folders@));
        assert(got.len() == want.len());
        assert forall|k: int| 0 <= k < got.len() implies #[trigger] got[k] == want[k] by {
            if k <= n {
                assert(out@.take(n + 1)[k] == out@[k]);
                if k > 0 {
                    assert(head[(k - 1) + 1]@ == seq![drives@[k - 1], ':']);
                }
            } else {
                assert(out@[n + 1 + (k - n - 1)]@ == folders@[k - n - 1]@);
            }
        }
        assert(got =~= want);
    }
    out
}

/// What a search comes to: its results, and what is said of them.
pub struct Outcome {
    pub results: Vec<SearchResult>,
    pub label: String,
}

/// The results of a search for a text in a scope, at least one of them asked
/// for.
pub open spec fn outcome_results(
    vs: Seq<IndexView>,
    typed: Seq<char>,
    scope: ScopeView,
    filter: Category,
    limit: usize,
) -> Seq<ResultView> {
    let q = text::trimmed(typed);
    if q.len() == 0 {
        Seq::empty()
    } else {
        catalog::found_in(
            vs,
            vstd::utf8::encode_utf8(q),
            match scope {
                ScopeView::Drive(c) => Some(c),
                _ => None,
            },
            match scope {
                ScopeView::Folder(f) => Some(f),
                _ => None,
            },
            filter,
            geometry::larger(limit as int, 1) as usize,
        )
    }
}

/// What is said of a search: nothing without a query, that the index is being
/// built while there is none, else how many results there are.
pub open spec fn outcome_label(typed: Seq<char>, ready: bool, count: nat) -> Seq<char> {
    if text::trimmed(typed).len() == 0 {
        ""@
    } else if !ready {
        "索引构建中…"@
    } else {
        text::decimal(count) + " 个结果"@
    }
}

/// Searches for what was typed. There is no catalog while the indexes are being
/// built.
pub fn do_search(
    cat: Option<&Catalog>,
    typed: &str,
    scope: &Scope,
    filter: Category,
    result_limit: usize,
) -> (r: Outcome)
    requires
        cat matches Some(c) ==> c.wf(),
    ensures
        search::result_views(r.results@) == (match cat {
            Some(c) => outcome_results(c@, typed@, scope@, filter, result_limit),
            None => Seq::empty(),
        }),
        r.label@ == outcome_label(typed@, cat is Some, r.results@.len()),
{
    let q = trim(typed);
    let none: Vec<SearchResult> = Vec::new();
    assert(search::result_views(none@) =~= Seq::<ResultView>::empty());
    if q.as_str().is_empty() {
        return Outcome { results: none, label: "".to_owned() };
    }
    let limit: usize = if result_limit < 1 {
        1
    } else {
        result_limit
    };
    match cat {
        None => Outcome { results: none, label: "索引构建中…".to_owned() },
        Some(c) => {
            let results = match scope {
                Scope::All => c.search(q.as_str(), None, None, filter, limit),
                Scope::Drive(d) => c.search(q.as_str(), Some(*d), None, filter, limit),
                Scope::Folder(f) => c.search(q.as_str(), None, Some(f.as_str()), filter, limit),
            };
            let mut label = to_decimal(results.len() as u64);
            text::push_text(&mut label, " 个结果");
            Outcome { results, label }
        },
    }
}

/// How the system opens something: what is opened, and with which parameters.
pub struct OpenCommand {
    pub file: String,
    pub params: Option<String>,
}

/// How a result is opened: a folder itself, and a file by showing it selected in
/// its folder.
pub fn open_command(path: &str, is_dir: bool) -> (r: OpenCommand)
    ensures
        is_dir ==> r.file@ == path@ && r.params is None,
        !is_dir ==> r.file@ == "explorer.exe"@ && r.params is Some && r.params->0@ == "/select,\""@
            + path@ + "\""@,
{
    if is_dir {
        OpenCommand { file: path.to_owned(), params: None }
    } else {
        let mut s = "/select,\"".to_owned();
        text::push_text(&mut s, path);
        text::push_text(&mut s, "\"");
        OpenCommand { file: "explorer.exe".to_owned(), params: Some(s) }
    }
}

/// Where the window opens: in the middle, and a third down, of the screen.
pub open spec fn window_place(sw: int, sh: int, w: int, h: int) -> PlaceView {
    PlaceView { x: geometry::quotient(sw - w, 2), y: geometry::quotient(sh - h, 3), w, h }
}

/// Where a window of the given size opens.
pub fn center(sw: i32, sh: i32, w: i32, h: i32) -> (r: Place)
    requires
        window_place(sw as int, sh as int, w as int, h as int).fits(),
    ensures
        r@ == window_place(sw as int, sh as int, w as int, h as int),
{
    Place {
        x: divide(sw as i64 - w as i64, 2) as i32,
        y: divide(sh as i64 - h as i64, 3) as i32,
        w,
        h,
    }
}

/// Where the parts of the window stand.
#[verifier::ext_equal]
pub struct LayoutView {
    pub edit: PlaceView,
    pub combo: PlaceView,
    pub cats: Seq<PlaceView>,
    pub list: PlaceView,
    pub count: PlaceView,
}

/// Where the parts of a window of the given size stand: the query and the scope
/// in a row, below it the buttons of the categories, all of one width, then the
/// list, and what is said of the results at the foot.
pub open spec fn window_layout_view(w: int, h: int, dpi: int, n: nat) -> LayoutView {
    let m = geometry::scaled(10, dpi);
    let eh = geometry::scaled(30, dpi);
    let cw = geometry::scaled(92, dpi);
    let cath = geometry::scaled(30, dpi);
    let counth = geometry::scaled(20, dpi);
    let gap = geometry::scaled(4, dpi);
    let edit_w = w - 2 * m - cw - geometry::scaled(6, dpi);
    let row_y = m + eh + geometry::scaled(8, dpi);
    let bw = geometry::quotient(w - 2 * m - gap * (n - 1), n as int);
    let list_y = row_y + cath + geometry::scaled(8, dpi);
    LayoutView {
        edit: PlaceView { x: m, y: m, w: edit_w, h: eh },
        combo: PlaceView { x: m + edit_w + geometry::scaled(6, dpi), y: m, w: cw, h: 260 },
        cats: Seq::new(n, |i: int| PlaceView { x: m + (bw + gap) * i, y: row_y, w: bw, h: cath }),
        list: PlaceView {
            x: m,
            y: list_y,
            w: w - 2 * m,
            h: geometry::larger(h - list_y - counth - m, geometry::scaled(40, dpi)),
        },
        count: PlaceView {
            x: m,
            y: h - counth,
            w: w - 2 * m,
            h: counth - geometry::scaled(2, dpi),
        },
    }
}

impl LayoutView {
    /// Whether every number can be a coordinate. The buttons stand in a row: the
    /// first and the last speak for all.
    pub open spec fn fits(self) -> bool {
        &&& self.edit.fits()
        &&& self.combo.fits()
        &&& self.cats.len() > 0 ==> self.cats[0].fits() && self.cats.last().fits()
        &&& self.list.fits()
        &&& self.count.fits()
    }
}

/// Where the parts of the window stand.
pub struct WindowLayout {
    pub edit: Place,
    pub combo: Place,
    pub cats: Vec<Place>,
    pub list: Place,
    pub count: Place,
}

impl View for WindowLayout {
    type V = LayoutView;

    open spec fn view(&self) -> LayoutView {
        LayoutView {
            edit: self.edit@,
            combo: self.combo@,
            cats: Seq::new(self.cats@.len(), |i: int| self.cats@[i]@),
            list: self.list@,
            count: self.count@,
        }
    }
}

/// Where the parts of a window of the given size stand, with a button for each
/// category.
pub fn layout(w: i32, h: i32, dpi: i32) -> (r: WindowLayout)
    requires
        0 <= dpi,
        geometry::fits(geometry::scaled(92, dpi as int)),
        window_layout_view(w as int, h as int, dpi as int, CATS as nat).fits(),
    ensures
        r@ == window_layout_view(w as int, h as int, dpi as int, CATS as nat),
{
    proof {
        geometry::lemma_scaled_grows(2, 92, dpi as int);
        geometry::lemma_scaled_grows(4, 92, dpi as int);
        geometry::lemma_scaled_grows(6, 92, dpi as int);
        geometry::lemma_scaled_grows(8, 92, dpi as int);
        geometry::lemma_scaled_grows(10, 92, dpi as int);
        geometry::lemma_scaled_grows(20, 92, dpi as int);
        geometry::lemma_scaled_grows(30, 92, dpi as int);
        geometry::lemma_scaled_grows(40, 92, dpi as int);
    }
    let ghost plan = window_layout_view(w as int, h as int, dpi as int, CATS as nat);
    let w: i64 = w as i64;
    let h: i64 = h as i64;
    let m: i64 = scale(10, dpi) as i64;
    let eh: i64 = scale(30, dpi) as i64;
    let cw: i64 = scale(92, dpi) as i64;
    let cath: i64 = eh;
    let counth: i64 = scale(20, dpi) as i64;
    let gap: i64 = scale(4, dpi) as i64;
    let six: i64 = scale(6, dpi) as i64;
    let eight: i64 = scale(8, dpi) as i64;
    let edit_w: i64 = w - 2 * m - cw - six;
    let row_y: i64 = m + eh + eight;
    let bw: i64 = divide(w - 2 * m - gap * 6, 7);
    let list_y: i64 = row_y + cath + eight;
    let mut cats: Vec<Place> = Vec::new();
    let mut i: usize = 0;
    while i < CATS
        invariant
            i <= CATS,
            plan == window_layout_view(w as int, h as int, dpi as int, CATS as nat),
            plan.fits(),
            m == geometry::scaled(10, dpi as int),
            cath == geometry::scaled(30, dpi as int),
            gap == geometry::scaled(4, dpi as int),
            row_y == m + cath + geometry::scaled(8, dpi as int),
            bw == geometry::quotient(w - 2 * m - gap * 6, 7),
            0 <= gap <= i32::MAX,
            0 <= m <= i32::MAX,
            -0x10_0000_0000 <= bw <= 0x10_0000_0000,
            cats@.len() == i,
            forall|k: int| 0 <= k < i ==> (#[trigger] cats@[k])@ == plan.cats[k],
        decreases CATS - i,
    {
        let k: i64 = i as i64;
        assert((bw + gap) * k <= 0x100_0000_0000 && (bw + gap) * k >= -0x100_0000_0000)
            by (nonlinear_arith)
            requires
                0 <= k <= 7,
                -0x10_0000_0000 <= bw <= 0x10_0000_0000,
                0 <= gap <= 0x7fff_ffff,
        ;
        let x: i64 = m + (bw + gap) * k;
        proof {
            let step = bw + gap;
            assert((0 <= step * k <= step * 6) || (step * 6 <= step * k <= 0)) by (nonlinear_arith)
                requires
                    0 <= k <= 6,
            ;
            assert(plan.cats[0].x == m) by {
                assert(step * 0 == 0);
            }
            assert(plan.cats.last().x == m + step * 6);
            assert(plan.cats[0].w == bw);
            assert(plan.cats[i as int] == PlaceView {
                x: x as int,
                y: row_y as int,
                w: bw as int,
                h: cath as int,
            });
        }
        cats.push(Place { x: x as i32, y: row_y as i32, w: bw as i32, h: cath as i32 });
        i += 1;
    }
    let free: i64 = h - list_y - counth - m;
    let least: i64 = scale(40, dpi) as i64;
    let list_h: i64 = if free >= least {
        free
    } else {
        least
    };
    let r = WindowLayout {
        edit: Place { x: m as i32, y: m as i32, w: edit_w as i32, h: eh as i32 },
        combo: Place { x: (m + edit_w + six) as i32, y: m as i32, w: cw as i32, h: 260 },
        cats,
        list: Place { x: m as i32, y: list_y as i32, w: (w - 2 * m) as i32, h: list_h as i32 },
        count: Place {
            x: m as i32,
            y: (h - counth) as i32,
            w: (w - 2 * m) as i32,
            h: (counth - scale(2, dpi) as i64) as i32,
        },
    };
    assert(r@.cats =~= plan.cats);
    r
}

/// The scopes to choose from go with what stands in the list: first all volumes,
/// then each volume by its letter and a colon, then each folder by its path. What
/// is behind the last, and no choice at all, is all volumes.
pub proof fn law_scopes_go_with_their_labels(
    drives: Seq<char>,
    folders: Seq<Seq<char>>,
    i: int,
    sel: int,
)
    ensures
        scope_label_views(drives, folders).len() == 1 + drives.len() + folders.len(),
        scope_at(0, drives, folders) == ScopeView::All,
        0 <= i < drives.len() ==> scope_at(i + 1, drives, folders) == ScopeView::Drive(drives[i])
            && scope_label_views(drives, folders)[i + 1] == seq![drives[i], ':'],
        0 <= i < folders.len() ==> scope_at(i + 1 + drives.len(), drives, folders)
            == ScopeView::Folder(folders[i]) && scope_label_views(drives, folders)[i + 1
            + drives.len()] == folders[i],
        sel < 0 || sel > drives.len() + folders.len() ==> scope_at(sel, drives, folders)
            == ScopeView::All,
{
}

/// What is typed is searched for without the white space around it, in the scope
/// that is chosen; nothing is found where nothing but white space is typed, and one
/// result is asked for where none is.
pub proof fn law_typed_text_is_searched_for(
    vs: Seq<IndexView>,
    lead: Seq<char>,
    q: Seq<char>,
    tail: Seq<char>,
    filter: Category,
    limit: usize,
    letter: char,
    folder: Seq<char>,
)
    requires
        forall|i: int| 0 <= i < lead.len() ==> text::is_space(#[trigger] lead[i]),
        forall|i: int| 0 <= i < tail.len() ==> text::is_space(#[trigger] tail[i]),
        q.len() > 0,
        !text::is_space(q[0]),
        !text::is_space(q.last()),
        limit > 0,
    ensures
        ({
            let typed = lead + q + tail;
            let bytes = vstd::utf8::encode_utf8(q);
            &&& outcome_results(vs, typed, ScopeView::All, filter, limit) == catalog::found_in(
                vs,
                bytes,
                None,
                None,
                filter,
                limit,
            )
            &&& outcome_results(vs, typed, ScopeView::Drive(letter), filter, limit)
                == catalog::found_in(vs, bytes, Some(letter), None, filter, limit)
            &&& outcome_results(vs, typed, ScopeView::Folder(folder), filter, limit)
                == catalog::found_in(vs, bytes, None, Some(folder), filter, limit)
            &&& outcome_results(vs, typed, ScopeView::All, filter, 0) == outcome_results(
                vs,
                typed,
                ScopeView::All,
                filter,
                1,
            )
            &&& outcome_results(vs, lead, ScopeView::All, filter, limit).len() == 0
        }),
{
    text::law_trimming_takes_white_space_only(lead, q, tail);
}

/// It is said how many results there are, that the index is being built where there
/// is none yet, and nothing where nothing is searched for.
pub proof fn law_what_is_said_of_a_search(typed: Seq<char>, count: nat)
    ensures
        text::trimmed(typed).len() == 0 ==> outcome_label(typed, true, count).len() == 0
            && outcome_label(typed, false, count).len() == 0,
        text::trimmed(typed).len() > 0 ==> outcome_label(typed, false, count)
            == "索引构建中…"@ && outcome_label(typed, true, count) == text::decimal(count)
            + " 个结果"@,
{
    reveal_strlit("");
}

/// A changed query and a chosen scope ask for a search, a button for its category,
/// and nothing else asks for anything.
pub proof fn law_commands_of_the_window(id: int, code: int)
    ensures
        command_of(101, 0x300) == WindowCommand::Search,
        command_of(103, 1) == WindowCommand::Search,
        command_of(id, code) == WindowCommand::Search ==> (id == 101 && code == 0x300) || (id == 103
            && code == 1),
        command_of(300, code) == (WindowCommand::Choose { category: Category::All }),
        command_of(301, code) == (WindowCommand::Choose { category: Category::Folder }),
        command_of(302, code) == (WindowCommand::Choose { category: Category::Document }),
        command_of(303, code) == (WindowCommand::Choose { category: Category::Image }),
        command_of(304, code) == (WindowCommand::Choose { category: Category::Video }),
        command_of(305, code) == (WindowCommand::Choose { category: Category::Audio }),
        command_of(306, code) == (WindowCommand::Choose { category: Category::Other }),
        id != 101 && id != 103 && !(300 <= id <= 306) ==> command_of(id, code)
            == WindowCommand::Nothing,
{
}

/// The window opens in the middle of the screen and a third down, whatever their
/// sizes.
pub proof fn law_window_opens_in_the_middle(sw: int, sh: int, w: int, h: int)
    ensures
        ({
            let p = window_place(sw, sh, w, h);
            &&& p.w == w && p.h == h
            &&& -1 <= sw - (2 * p.x + p.w) <= 1
            &&& -2 <= (sh - h) - 3 * p.y <= 2
        }),
{
}

/// The parts of the window keep to their places: the query and the scope side by
/// side at the top, the buttons in a row below, all of one width and apart, then the
/// list, and what is said of the results at the foot, all within the margins.
pub proof fn law_parts_of_the_window(w: int, h: int, dpi: int, i: int)
    requires
        0 <= dpi,
        0 <= i < 6,
    ensures
        ({
            let l = window_layout_view(w, h, dpi, 7);
            let m = geometry::scaled(10, dpi);
            &&& l.edit.x == m && l.edit.y == m && l.edit.h == geometry::scaled(30, dpi)
            &&& l.combo.x == l.edit.x + l.edit.w + geometry::scaled(6, dpi) && l.combo.y == m
            &&& l.combo.w == geometry::scaled(92, dpi) && l.combo.x + l.combo.w == w - m
            &&& l.cats.len() == 7 && l.cats[0].x == m
            &&& l.cats[i + 1].x == l.cats[i].x + l.cats[i].w + geometry::scaled(4, dpi)
            &&& l.cats[i + 1].w == l.cats[i].w && l.cats[i + 1].y == l.cats[i].y
            &&& l.cats[0].y == l.edit.y + l.edit.h + geometry::scaled(8, dpi)
            &&& l.cats[i].h == geometry::scaled(30, dpi)
            &&& w >= 2 * m + 6 * geometry::scaled(4, dpi) ==> l.cats[6].x + l.cats[6].w <= w - m
                < l.cats[6].x + l.cats[6].w + 7
            &&& l.list.x == m && l.list.w == w - 2 * m
            &&& l.list.y == l.cats[0].y + l.cats[0].h + geometry::scaled(8, dpi)
            &&& l.list.h >= geometry::scaled(40, dpi)
            &&& h - l.list.y - geometry::scaled(20, dpi) - m >= geometry::scaled(40, dpi)
                ==> l.list.y + l.list.h == l.count.y - m
            &&& l.count.x == m && l.count.w == w - 2 * m && l.count.y == h - geometry::scaled(
                20,
                dpi,
            )
        }),
{
    let l = window_layout_view(w, h, dpi, 7);
    let m = geometry::scaled(10, dpi);
    let gap = geometry::scaled(4, dpi);
    let bw = geometry::quotient(w - 2 * m - gap * 6, 7);
    assert((bw + gap) * (i + 1) == (bw + gap) * i + (bw + gap)) by (nonlinear_arith);
    assert((bw + gap) * 0 == 0) by (nonlinear_arith);
    assert(gap * 6 == 6 * gap) by (nonlinear_arith);
    assert((bw + gap) * 6 == 6 * bw + 6 * gap) by (nonlinear_arith);
    assert(gap * (7nat - 1) == gap * 6);
}

/// Each button has the label of its category.
pub proof fn law_buttons_say_their_categories(i: int)
    requires
        0 <= i < 7,
    ensures
        label_of_button(i) == (match category_of_button(i) {
            Category::All => "全部"@,
            Category::Folder => "文件夹"@,
            Category::Document => "文档"@,
            Category::Image => "图片"@,
            Category::Video => "视频"@,
            Category::Audio => "音频"@,
            Category::Other => "其他"@,
        }),
{
}

} // verus!
