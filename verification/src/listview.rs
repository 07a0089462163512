//! The list of search results: which row is selected, which is under the mouse,
//! and which rows are seen.

use vstd::prelude::*;

use crate::geometry;

verus! {

/// The key `Enter`.
pub const VK_RETURN: u16 = 0x0D;

/// The key `Esc`.
pub const VK_ESCAPE: u16 = 0x1B;

/// The key `Page Up`.
pub const VK_PRIOR: u16 = 0x21;

/// The key `Page Down`.
pub const VK_NEXT: u16 = 0x22;

/// The key `End`.
pub const VK_END: u16 = 0x23;

/// The key `Home`.
pub const VK_HOME: u16 = 0x24;

/// The key `Up`.
pub const VK_UP: u16 = 0x26;

/// The key `Down`.
pub const VK_DOWN: u16 = 0x28;

/// The message that a key was pressed.
pub const WM_KEYDOWN: u32 = 0x0100;

/// The message that the wheel of the mouse was turned.
pub const WM_MOUSEWHEEL: u32 = 0x020A;

/// How many pixels the rows are high together.
pub open spec fn total_height(count: int, item_h: int) -> int {
    count * item_h
}

/// How far the list can be scrolled: not at all where all rows are seen.
pub open spec fn max_scroll(count: int, item_h: int, client_h: int) -> int {
    geometry::larger(total_height(count, item_h) - client_h, 0)
}

/// What the scroll bar shows.
#[derive(Debug, Clone, Copy, PartialEq, Eq, Structural)]
pub struct ScrollRange {
    pub max: i32,
    pub page: u32,
    pub max_scroll: i32,
}

/// What the scroll bar shows, and how far the list can be scrolled.
pub fn scroll_range(count: i32, item_h: i32, client_h: i32) -> (r: ScrollRange)
    requires
        0 <= count,
        geometry::fits(total_height(count as int, item_h as int)),
        geometry::fits(total_height(count as int, item_h as int) - client_h),
    ensures
        r.max == geometry::larger(
            geometry::larger(total_height(count as int, item_h as int), 0) - 1,
            0,
        ),
        r.page == geometry::larger(client_h as int, 0),
        r.max_scroll == max_scroll(count as int, item_h as int, client_h as int),
{
    assert(-0x8000_0000 * 0x7fff_ffff <= count * item_h <= 0x7fff_ffff * 0x7fff_ffff)
        by (nonlinear_arith)
        requires
            0 <= count <= 0x7fff_ffff,
            -0x8000_0000 <= item_h <= 0x7fff_ffff,
    ;
    let total: i64 = count as i64 * item_h as i64;
    let max: i64 = if total > 0 {
        total - 1
    } else {
        0
    };
    let rest: i64 = total - client_h as i64;
    ScrollRange {
        max: max as i32,
        page: if client_h > 0 {
            client_h as u32
        } else {
            0
        },
        max_scroll: if rest > 0 {
            rest as i32
        } else {
            0
        },
    }
}

/// The row at height `y` of a list that is scrolled by `scroll`, and -1 where
/// there is none.
pub open spec fn row_at(y: int, scroll: int, item_h: int, count: int) -> int {
    if item_h <= 0 {
        -1
    } else {
        let row = geometry::quotient(y + scroll, item_h);
        if 0 <= row < count {
            row
        } else {
            -1
        }
    }
}

/// The row at height `y` of a list that is scrolled by `scroll`, and -1 where
/// there is none.
pub fn y_to_index(y: i32, scroll: i32, item_h: i32, count: i32) -> (r: i32)
    ensures
        r == row_at(y as int, scroll as int, item_h as int, count as int),
        -1 <= r,
        r < count || r == -1,
{
    if item_h <= 0 {
        return -1;
    }
    let row: i64 = geometry::divide(y as i64 + scroll as i64, item_h as i64);
    if row >= 0 && row < count as i64 {
        row as i32
    } else {
        -1
    }
}

/// The rows that are seen: from the first to the last, and none where the first
/// is behind the last.
pub open spec fn first_seen(scroll: int, item_h: int) -> int {
    geometry::larger(geometry::quotient(scroll, item_h), 0)
}

/// The last row that is seen.
pub open spec fn last_seen(scroll: int, item_h: int, bottom: int, count: int) -> int {
    geometry::smaller(geometry::quotient(scroll + bottom, item_h), count - 1)
}

/// The first and the last row that are seen in a list that is scrolled by
/// `scroll` and whose lower edge is at `bottom`. None where there is no row.
pub fn seen_rows(scroll: i32, item_h: i32, bottom: i32, count: i32) -> (r: Option<(i32, i32)>)
    requires
        geometry::fits(scroll + bottom),
    ensures
        match r {
            Some((first, last)) => count > 0 && item_h > 0 && first == first_seen(
                scroll as int,
                item_h as int,
            ) && last == last_seen(scroll as int, item_h as int, bottom as int, count as int),
            None => count <= 0 || item_h <= 0,
        },
{
    if count <= 0 || item_h <= 0 {
        return None;
    }
    let first: i64 = geometry::divide(scroll as i64, item_h as i64);
    let last: i64 = geometry::divide(scroll as i64 + bottom as i64, item_h as i64);
    let first: i32 = if first > 0 {
        first as i32
    } else {
        0
    };
    let last: i32 = if last > count as i64 - 1 {
        count - 1
    } else {
        last as i32
    };
    Some((first, last))
}

/// Every row that lies at some height of the list is among the rows that are
/// seen.
pub proof fn law_seen_rows_cover(y: int, scroll: int, item_h: int, bottom: int, count: int)
    requires
        0 <= y <= bottom,
        0 <= scroll,
        row_at(y, scroll, item_h, count) >= 0,
    ensures
        first_seen(scroll, item_h) <= row_at(y, scroll, item_h, count) <= last_seen(
            scroll,
            item_h,
            bottom,
            count,
        ),
{
    vstd::arithmetic::div_mod::lemma_div_is_ordered(scroll, y + scroll, item_h);
    vstd::arithmetic::div_mod::lemma_div_is_ordered(y + scroll, scroll + bottom, item_h);
}

/// Where row `row` stands in a list that is scrolled by `scroll`: its upper
/// edge.
pub fn row_top(row: i32, item_h: i32, scroll: i32) -> (r: i32)
    requires
        geometry::fits(row * item_h - scroll),
    ensures
        r == row * item_h - scroll,
{
    assert(-0x8000_0000 * 0x8000_0000 <= row * item_h <= 0x8000_0000 * 0x8000_0000)
        by (nonlinear_arith)
        requires
            -0x8000_0000 <= row <= 0x7fff_ffff,
            -0x8000_0000 <= item_h <= 0x7fff_ffff,
    ;
    (row as i64 * item_h as i64 - scroll as i64) as i32
}

/// What a [`ListState`] holds.
#[verifier::ext_equal]
pub struct ListView {
    pub count: int,
    pub sel: int,
    pub hover: int,
}

/// The state of the list: how many rows there are, which is selected and which
/// is under the mouse, -1 where none is.
pub struct ListState {
    count: i32,
    sel: i32,
    hover: i32,
}

impl View for ListState {
    type V = ListView;

    closed spec fn view(&self) -> ListView {
        ListView { count: self.count as int, sel: self.sel as int, hover: self.hover as int }
    }
}

/// What a key does.
#[derive(Debug, Clone, Copy, PartialEq, Eq, Structural)]
pub enum KeyAction {
    /// The key is not for the list.
    Ignore,
    /// The window is hidden.
    Dismiss,
    /// The row is opened.
    Open { row: usize },
    /// The row is selected.
    Select { row: i32 },
}

/// The row that a key leads to from row `cur`, with `page` rows to a page.
pub open spec fn key_row(vk: u16, cur: int, count: int, page: int) -> Option<int> {
    if vk == VK_DOWN {
        Some(cur + 1)
    } else if vk == VK_UP {
        Some(cur - 1)
    } else if vk == VK_NEXT {
        Some(cur + page)
    } else if vk == VK_PRIOR {
        Some(cur - page)
    } else if vk == VK_HOME {
        Some(0)
    } else if vk == VK_END {
        Some(count - 1)
    } else {
        None
    }
}

/// How many rows a page has: those that are seen, one at least.
pub open spec fn page_rows(client_h: int, item_h: int) -> int {
    geometry::larger(geometry::quotient(client_h, geometry::larger(item_h, 1)), 1)
}

/// The row that is opened: the selected one, and the first where none is.
pub open spec fn row_to_open(v: ListView) -> int {
    if v.sel < 0 {
        0
    } else {
        v.sel
    }
}

/// What a key does to the list.
pub open spec fn key_action(v: ListView, vk: u16, client_h: int, item_h: int) -> KeyAction {
    if vk == VK_ESCAPE {
        KeyAction::Dismiss
    } else if vk == VK_RETURN {
        KeyAction::Open { row: row_to_open(v) as usize }
    } else if v.count == 0 {
        KeyAction::Ignore
    } else {
        match key_row(vk, v.sel, v.count, page_rows(client_h, item_h)) {
            None => KeyAction::Ignore,
            Some(row) => KeyAction::Select { row: geometry::within(row, 0, v.count - 1) as i32 },
        }
    }
}

impl ListState {
    /// The rows are counted, and what is selected or under the mouse is one of
    /// them, or none.
    pub closed spec fn wf(&self) -> bool {
        &&& 0 <= self.count
        &&& -1 <= self.sel < self.count
        &&& -1 <= self.hover < self.count
    }

    /// A list without a row.
    pub fn new() -> (s: ListState)
        ensures
            s.wf(),
            s@ == (ListView { count: 0, sel: -1, hover: -1 }),
    {
        ListState { count: 0, sel: -1, hover: -1 }
    }

    /// The selected row, or -1.
    pub fn selected(&self) -> (r: i32)
        requires
            self.wf(),
        ensures
            r == self@.sel,
            -1 <= r < self@.count || r == -1,
    {
        self.sel
    }

    /// The row under the mouse, or -1.
    pub fn hovered(&self) -> (r: i32)
        requires
            self.wf(),
        ensures
            r == self@.hover,
            -1 <= r < self@.count || r == -1,
    {
        self.hover
    }

    /// How many rows there are.
    pub fn rows(&self) -> (r: i32)
        requires
            self.wf(),
        ensures
            r == self@.count,
            0 <= r,
    {
        self.count
    }

    /// Takes new results: the first is selected, and none is under the mouse.
    pub fn set_results(&mut self, n: usize)
        requires
            n <= i32::MAX,
        ensures
            final(self).wf(),
            final(self)@ == (ListView {
                count: n as int,
                sel: if n == 0 {
                    -1
                } else {
                    0
                },
                hover: -1,
            }),
    {
        self.count = n as i32;
        self.sel = if n == 0 {
            -1
        } else {
            0
        };
        self.hover = -1;
    }

    /// Selects the row that is nearest to `row`. Returns whether there is one.
    pub fn set_sel(&mut self, row: i32) -> (r: bool)
        requires
            old(self).wf(),
        ensures
            final(self).wf(),
            r == (old(self)@.count > 0),
            final(self)@ == (if r {
                ListView {
                    sel: geometry::within(row as int, 0, old(self)@.count - 1),
                    ..old(self)@
                }
            } else {
                old(self)@
            }),
    {
        if self.count == 0 {
            return false;
        }
        self.sel = if row < 0 {
            0
        } else if row > self.count - 1 {
            self.count - 1
        } else {
            row
        };
        true
    }

    /// A click at height `y`: the row there is selected. Returns whether there is
    /// one.
    pub fn click(&mut self, y: i32, scroll: i32, item_h: i32) -> (r: bool)
        requires
            old(self).wf(),
        ensures
            final(self).wf(),
            r == (row_at(y as int, scroll as int, item_h as int, old(self)@.count) >= 0),
            final(self)@ == (if r {
                ListView {
                    sel: row_at(y as int, scroll as int, item_h as int, old(self)@.count),
                    ..old(self)@
                }
            } else {
                old(self)@
            }),
    {
        let row: i32 = y_to_index(y, scroll, item_h, self.count);
        if row >= 0 {
            self.sel = row;
            true
        } else {
            false
        }
    }

    /// The mouse is at height `y`. Returns whether another row, or none, is under
    /// it now.
    pub fn mouse_move(&mut self, y: i32, scroll: i32, item_h: i32) -> (changed: bool)
        requires
            old(self).wf(),
        ensures
            final(self).wf(),
            final(self)@ == (ListView {
                hover: row_at(y as int, scroll as int, item_h as int, old(self)@.count),
                ..old(self)@
            }),
            changed == (final(self)@.hover != old(self)@.hover),
    {
        let row: i32 = y_to_index(y, scroll, item_h, self.count);
        let changed: bool = self.hover != row;
        self.hover = row;
        changed
    }

    /// The mouse left the list.
    pub fn mouse_leave(&mut self)
        requires
            old(self).wf(),
        ensures
            final(self).wf(),
            final(self)@ == (ListView { hover: -1, ..old(self)@ }),
    {
        self.hover = -1;
    }

    /// The row that is opened: the selected one, and the first where none is.
    pub fn open_row(&self) -> (r: usize)
        requires
            self.wf(),
        ensures
            r == row_to_open(self@),
    {
        if self.sel < 0 {
            0
        } else {
            self.sel as usize
        }
    }

    /// What a key does.
    pub fn on_key(&self, vk: u16, client_h: i32, item_h: i32) -> (r: KeyAction)
        requires
            self.wf(),
        ensures
            r == key_action(self@, vk, client_h as int, item_h as int),
    {
        if vk == VK_ESCAPE {
            return KeyAction::Dismiss;
        }
        if vk == VK_RETURN {
            return KeyAction::Open { row: self.open_row() };
        }
        if self.count == 0 {
            return KeyAction::Ignore;
        }
        let unit: i64 = if item_h < 1 {
            1
        } else {
            item_h as i64
        };
        let fit: i64 = geometry::divide(client_h as i64, unit);
        let page: i64 = if fit < 1 {
            1
        } else {
            fit
        };
        let cur: i64 = self.sel as i64;
        let row: i64 = if vk == VK_DOWN {
            cur + 1
        } else if vk == VK_UP {
            cur - 1
        } else if vk == VK_NEXT {
            cur + page
        } else if vk == VK_PRIOR {
            cur - page
        } else if vk == VK_HOME {
            0
        } else if vk == VK_END {
            self.count as i64 - 1
        } else {
            return KeyAction::Ignore;
        };
        KeyAction::Select { row: geometry::clamp(row, 0, self.count as i64 - 1) as i32 }
    }
}

/// A key that selects leads to a row that is there, the first and the last
/// included, and one step back after one step on leads to where it began.
pub proof fn law_keys_stay_in_the_list(v: ListView, vk: u16, client_h: int, item_h: int)
    requires
        0 < v.count <= i32::MAX,
        -1 <= v.sel < v.count,
    ensures
        key_action(v, vk, client_h, item_h) matches KeyAction::Select { row } ==> 0 <= row < v.count,
        key_action(v, VK_HOME, client_h, item_h) == (KeyAction::Select { row: 0 }),
        key_action(v, VK_END, client_h, item_h) == (KeyAction::Select {
            row: (v.count - 1) as i32,
        }),
        0 <= v.sel < v.count - 1 ==> key_action(
            ListView { sel: v.sel + 1, ..v },
            VK_UP,
            client_h,
            item_h,
        ) == (KeyAction::Select { row: v.sel as i32 }),
{
}

/// What to do with a message before its window gets it.
#[derive(Debug, Clone, Copy, PartialEq, Eq, Structural)]
pub enum Pretranslation {
    /// Let its window have it.
    Pass,
    /// Send it to the list instead.
    ToList,
    /// Do what the key does, and let no window have it.
    Key { action: KeyAction },
}

/// What to do with a message before its window gets it. The wheel turns the list
/// where the mouse is over it, whoever has the focus. Keys count where they were
/// pressed in the query or in the list.
pub open spec fn pretranslated(
    v: ListView,
    message: u32,
    over_list: bool,
    in_window: bool,
    vk: u16,
    client_h: int,
    item_h: int,
) -> Pretranslation {
    if message == WM_MOUSEWHEEL {
        if over_list {
            Pretranslation::ToList
        } else {
            Pretranslation::Pass
        }
    } else if message != WM_KEYDOWN || !in_window || key_action(v, vk, client_h, item_h)
        == KeyAction::Ignore {
        Pretranslation::Pass
    } else {
        Pretranslation::Key { action: key_action(v, vk, client_h, item_h) }
    }
}

/// What to do with a message before its window gets it.
pub fn pretranslate(
    state: &ListState,
    message: u32,
    over_list: bool,
    in_window: bool,
    vk: u16,
    client_h: i32,
    item_h: i32,
) -> (r: Pretranslation)
    requires
        state.wf(),
    ensures
        r == pretranslated(
            state@,
            message,
            over_list,
            in_window,
            vk,
            client_h as int,
            item_h as int,
        ),
{
    if message == WM_MOUSEWHEEL {
        return if over_list {
            Pretranslation::ToList
        } else {
            Pretranslation::Pass
        };
    }
    if message != WM_KEYDOWN || !in_window {
        return Pretranslation::Pass;
    }
    match state.on_key(vk, client_h, item_h) {
        KeyAction::Ignore => Pretranslation::Pass,
        action => Pretranslation::Key { action },
    }
}

/// A row is where the pointer is exactly where its pixels are there.
pub proof fn law_row_at_its_pixels(y: int, scroll: int, item_h: int, count: int, row: int)
    requires
        0 <= y + scroll,
        0 < item_h,
        0 <= row,
    ensures
        row_at(y, scroll, item_h, count) == row <==> row < count && row * item_h <= y + scroll
            < (row + 1) * item_h,
{
    let q = (y + scroll) / item_h;
    vstd::arithmetic::div_mod::lemma_fundamental_div_mod(y + scroll, item_h);
    assert(item_h * q == q * item_h) by (nonlinear_arith);
    assert((q + 1) * item_h == q * item_h + item_h) by (nonlinear_arith);
    if row < q {
        assert((row + 1) * item_h <= q * item_h) by (nonlinear_arith)
            requires
                row + 1 <= q,
                0 < item_h,
        ;
    }
    if row > q {
        assert((q + 1) * item_h <= row * item_h) by (nonlinear_arith)
            requires
                q + 1 <= row,
                0 < item_h,
        ;
    }
    assert(q >= 0) by (nonlinear_arith)
        requires
            q == (y + scroll) / item_h,
            0 <= y + scroll,
            0 < item_h,
    ;
}

/// The rows that are painted are exactly those of which some pixel, from the first
/// line of the list to the one at its lower edge, is seen.
pub proof fn law_painted_rows_are_seen(
    scroll: int,
    item_h: int,
    bottom: int,
    count: int,
    row: int,
)
    requires
        0 <= scroll,
        0 <= bottom,
        0 < item_h,
        0 <= row < count,
    ensures
        first_seen(scroll, item_h) <= row <= last_seen(scroll, item_h, bottom, count) <==> (row + 1)
            * item_h > scroll && row * item_h <= scroll + bottom,
{
    let a = scroll / item_h;
    let b = (scroll + bottom) / item_h;
    vstd::arithmetic::div_mod::lemma_fundamental_div_mod(scroll, item_h);
    vstd::arithmetic::div_mod::lemma_fundamental_div_mod(scroll + bottom, item_h);
    assert(item_h * a == a * item_h && item_h * b == b * item_h) by (nonlinear_arith);
    assert((a + 1) * item_h == a * item_h + item_h) by (nonlinear_arith);
    assert((b + 1) * item_h == b * item_h + item_h) by (nonlinear_arith);
    assert(a >= 0) by (nonlinear_arith)
        requires
            a == scroll / item_h,
            0 <= scroll,
            0 < item_h,
    ;
    if row < a {
        assert((row + 1) * item_h <= a * item_h) by (nonlinear_arith)
            requires
                row + 1 <= a,
                0 < item_h,
        ;
    } else {
        assert((a + 1) * item_h <= (row + 1) * item_h) by (nonlinear_arith)
            requires
                a <= row,
                0 < item_h,
        ;
    }
    if row > b {
        assert((b + 1) * item_h <= row * item_h) by (nonlinear_arith)
            requires
                b + 1 <= row,
                0 < item_h,
        ;
    } else {
        assert(row * item_h <= b * item_h) by (nonlinear_arith)
            requires
                row <= b,
                0 < item_h,
        ;
    }
}

/// A list can be scrolled until its last row is at the lower edge, and not at all
/// where all rows are seen.
pub proof fn law_scrolling_ends_with_the_last_row(count: int, item_h: int, client_h: int)
    ensures
        count * item_h > client_h ==> max_scroll(count, item_h, client_h) + client_h == count
            * item_h,
        count * item_h <= client_h ==> max_scroll(count, item_h, client_h) == 0,
{
}

/// The arrow keys go one row, the page keys as many rows as are seen, one at least,
/// and Home and End to the first and the last; no key leads out of the list. Escape
/// dismisses the window, Enter opens the selected row or the first, and other keys
/// are not for the list, nor is any of these where it is empty.
pub proof fn law_keys_go_where_they_should(v: ListView, vk: u16, client_h: int, item_h: int)
    requires
        0 <= v.count <= i32::MAX,
        -1 <= v.sel < v.count || v.sel == -1,
        0 < item_h,
        0 <= client_h,
    ensures
        ({
            let act = |k: u16| key_action(v, k, client_h, item_h);
            let page = if client_h < item_h {
                1
            } else {
                client_h / item_h
            };
            let held = |row: int|
                KeyAction::Select {
                    row: (if row < 0 {
                        0
                    } else if row >= v.count {
                        v.count - 1
                    } else {
                        row
                    }) as i32,
                };
            &&& act(0x1B) == KeyAction::Dismiss
            &&& act(0x0D) == (KeyAction::Open {
                row: (if v.sel < 0 {
                    0
                } else {
                    v.sel
                }) as usize,
            })
            &&& v.count > 0 ==> act(0x28) == held(v.sel + 1) && act(0x26) == held(v.sel - 1) && act(
                0x22,
            ) == held(v.sel + page) && act(0x21) == held(v.sel - page) && act(0x24) == held(0)
                && act(0x23) == held(v.count - 1)
            &&& vk != 0x1B && vk != 0x0D && (v.count == 0 || (vk != 0x28 && vk != 0x26 && vk != 0x22
                && vk != 0x21 && vk != 0x24 && vk != 0x23)) ==> act(vk) == KeyAction::Ignore
        }),
{
    let q = client_h / item_h;
    vstd::arithmetic::div_mod::lemma_fundamental_div_mod(client_h, item_h);
    if client_h < item_h {
        assert(q == 0) by (nonlinear_arith)
            requires
                q == client_h / item_h,
                0 <= client_h < item_h,
        ;
    } else {
        assert(q >= 1) by (nonlinear_arith)
            requires
                q == client_h / item_h,
                0 < item_h <= client_h,
        ;
    }
}

/// The wheel turns the list exactly where the pointer is over it, and a key is for
/// the list exactly where it is pressed in the window and does something there. All
/// other messages pass.
pub proof fn law_messages_for_the_list(
    v: ListView,
    message: u32,
    over_list: bool,
    in_window: bool,
    vk: u16,
    client_h: int,
    item_h: int,
)
    ensures
        ({
            let r = pretranslated(v, message, over_list, in_window, vk, client_h, item_h);
            let action = key_action(v, vk, client_h, item_h);
            &&& r == Pretranslation::ToList <==> message == 0x020A && over_list
            &&& r == (Pretranslation::Key { action }) <==> message == 0x0100 && in_window && action
                != KeyAction::Ignore
            &&& message != 0x020A && message != 0x0100 ==> r == Pretranslation::Pass
        }),
{
}

/// What is opened is the row that is selected, and the first where none is.
pub proof fn law_opened_row(v: ListView)
    ensures
        v.sel >= 0 ==> row_to_open(v) == v.sel,
        v.sel < 0 ==> row_to_open(v) == 0,
{
}

} // verus!
