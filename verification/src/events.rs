//! What is done when something happens: to a window elsewhere, to the icon in
//! the tray, or in a menu.

use vstd::prelude::*;

use crate::text;

verus! {

/// A window came to the front.
pub const EVENT_SYSTEM_FOREGROUND: u32 = 0x0003;

/// A window is gone.
pub const EVENT_OBJECT_DESTROY: u32 = 0x8001;

/// A window is shown.
pub const EVENT_OBJECT_SHOW: u32 = 0x8002;

/// A window is no longer shown.
pub const EVENT_OBJECT_HIDE: u32 = 0x8003;

/// A window moved.
pub const EVENT_OBJECT_LOCATIONCHANGE: u32 = 0x800B;

/// What happened to a window: the event, the part of the window that it is
/// about, and the window.
#[derive(Debug, Clone, Copy, PartialEq, Eq, Structural)]
pub struct WinEvent {
    pub event: u32,
    pub id_object: i32,
    pub id_child: i32,
    pub window: usize,
}

/// What is done about it.
#[derive(Debug, Clone, Copy, PartialEq, Eq, Structural)]
pub enum EventAction {
    Nothing,
    /// List the folders anew and show the popup for the window.
    Show,
    /// Let the popup follow the window.
    Follow,
    /// The popup is seen or not by which window came to the front.
    Front,
    /// Hide the popup.
    Dismiss,
}

/// Whether an event is about a window as a whole.
pub open spec fn about_window(e: WinEvent) -> bool {
    e.id_object == 0 && e.id_child == 0 && e.window != 0
}

/// What is done about an event, where `current` is the dialog that the popup
/// belongs to.
pub open spec fn event_action(
    e: WinEvent,
    current: Option<usize>,
    is_dialog: bool,
    popup_enabled: bool,
) -> EventAction {
    if !about_window(e) {
        EventAction::Nothing
    } else if e.event == EVENT_OBJECT_SHOW {
        if is_dialog && popup_enabled {
            EventAction::Show
        } else {
            EventAction::Nothing
        }
    } else if e.event == EVENT_OBJECT_LOCATIONCHANGE {
        EventAction::Follow
    } else if e.event == EVENT_SYSTEM_FOREGROUND {
        if current != Some(e.window) {
            EventAction::Front
        } else if is_dialog {
            EventAction::Show
        } else {
            EventAction::Dismiss
        }
    } else if (e.event == EVENT_OBJECT_HIDE || e.event == EVENT_OBJECT_DESTROY) && current == Some(
        e.window,
    ) {
        EventAction::Dismiss
    } else {
        EventAction::Nothing
    }
}

/// Whether it matters for an event if its window is a file dialog.
pub fn asks_for_dialog(e: &WinEvent, current: Option<usize>) -> (r: bool)
    ensures
        !r ==> forall|p: bool| #[trigger]
            event_action(*e, current, true, p) == event_action(*e, current, false, p),
        r ==> event_action(*e, current, true, true) != event_action(*e, current, false, true),
{
    let about: bool = e.id_object == 0 && e.id_child == 0 && e.window != 0;
    let ours: bool = match current {
        Some(w) => w == e.window,
        None => false,
    };
    about && (e.event == EVENT_OBJECT_SHOW || (e.event == EVENT_SYSTEM_FOREGROUND && ours))
}

/// What is done about an event.
pub fn on_event(
    e: &WinEvent,
    current: Option<usize>,
    is_dialog: bool,
    popup_enabled: bool,
) -> (r: EventAction)
    ensures
        r == event_action(*e, current, is_dialog, popup_enabled),
{
    if e.id_object != 0 || e.id_child != 0 || e.window == 0 {
        return EventAction::Nothing;
    }
    let ours: bool = match current {
        Some(w) => w == e.window,
        None => false,
    };
    if e.event == EVENT_OBJECT_SHOW {
        if is_dialog && popup_enabled {
            EventAction::Show
        } else {
            EventAction::Nothing
        }
    } else if e.event == EVENT_OBJECT_LOCATIONCHANGE {
        EventAction::Follow
    } else if e.event == EVENT_SYSTEM_FOREGROUND {
        if !ours {
            EventAction::Front
        } else if is_dialog {
            EventAction::Show
        } else {
            EventAction::Dismiss
        }
    } else if (e.event == EVENT_OBJECT_HIDE || e.event == EVENT_OBJECT_DESTROY) && ours {
        EventAction::Dismiss
    } else {
        EventAction::Nothing
    }
}

/// The popup goes with its dialog: when the dialog is hidden or gone, so is the
/// popup, and events about other windows' going do nothing.
pub proof fn law_popup_goes_with_its_dialog(
    e: WinEvent,
    current: Option<usize>,
    is_dialog: bool,
    popup_enabled: bool,
)
    requires
        about_window(e),
        e.event == EVENT_OBJECT_HIDE || e.event == EVENT_OBJECT_DESTROY,
    ensures
        event_action(e, current, is_dialog, popup_enabled) == EventAction::Dismiss <==> current
            == Some(e.window),
        event_action(e, current, is_dialog, popup_enabled) == EventAction::Nothing <==> current
            != Some(e.window),
{
}

/// The left button of the mouse was released.
pub const WM_LBUTTONUP: u32 = 0x0202;

/// The right button of the mouse was released.
pub const WM_RBUTTONUP: u32 = 0x0205;

/// A menu is asked for.
pub const WM_CONTEXTMENU: u32 = 0x007B;

/// The menu item that opens the search.
pub const IDM_OPEN: u32 = 40002;

/// The menu item that opens the settings.
pub const IDM_SETTINGS: u32 = 40003;

/// The menu item that ends the program.
pub const IDM_EXIT: u32 = 40001;

/// What the program does.
#[derive(Debug, Clone, Copy, PartialEq, Eq, Structural)]
pub enum AppAction {
    Nothing,
    /// Show the search window, or hide it.
    ToggleSearch,
    /// Show the menu of the tray icon.
    ShowMenu,
    /// Open the settings.
    OpenSettings,
    /// End.
    Exit,
}

/// What a click on the tray icon does.
pub fn on_tray(event: u32) -> (r: AppAction)
    ensures
        r == (if event == WM_LBUTTONUP {
            AppAction::ToggleSearch
        } else if event == WM_RBUTTONUP || event == WM_CONTEXTMENU {
            AppAction::ShowMenu
        } else {
            AppAction::Nothing
        }),
{
    if event == WM_LBUTTONUP {
        AppAction::ToggleSearch
    } else if event == WM_RBUTTONUP || event == WM_CONTEXTMENU {
        AppAction::ShowMenu
    } else {
        AppAction::Nothing
    }
}

/// What a menu item does.
pub fn on_menu(id: u32) -> (r: AppAction)
    ensures
        r == (if id == IDM_OPEN {
            AppAction::ToggleSearch
        } else if id == IDM_SETTINGS {
            AppAction::OpenSettings
        } else if id == IDM_EXIT {
            AppAction::Exit
        } else {
            AppAction::Nothing
        }),
{
    if id == IDM_OPEN {
        AppAction::ToggleSearch
    } else if id == IDM_SETTINGS {
        AppAction::OpenSettings
    } else if id == IDM_EXIT {
        AppAction::Exit
    } else {
        AppAction::Nothing
    }
}

/// Whether a message says that the task bar was made anew, so that the icon is
/// to be put there again. The message's number is zero where it could not be
/// registered.
pub fn is_taskbar_created(message: u32, registered: u32) -> (r: bool)
    ensures
        r == (registered != 0 && message == registered),
{
    registered != 0 && message == registered
}

/// The arguments for the task scheduler that make the program start with the
/// session or no longer. The program's path is quoted: it may hold blanks.
pub open spec fn autostart_view(enable: bool, exe: Seq<char>) -> Seq<Seq<char>> {
    if enable {
        seq![
            "/Create"@,
            "/F"@,
            "/RL"@,
            "HIGHEST"@,
            "/SC"@,
            "ONLOGON"@,
            "/TN"@,
            "SaveSearch"@,
            "/TR"@,
            "\""@ + exe + "\""@,
        ]
    } else {
        seq!["/Delete"@, "/F"@, "/TN"@, "SaveSearch"@]
    }
}

/// The arguments for the task scheduler that make the program start with the
/// session or no longer.
pub fn autostart_args(enable: bool, exe: &str) -> (r: Vec<String>)
    ensures
        text::string_views(r@) == autostart_view(enable, exe@),
{
    let mut out: Vec<String> = Vec::new();
    if enable {
        out.push("/Create".to_owned());
        out.push("/F".to_owned());
        out.push("/RL".to_owned());
        out.push("HIGHEST".to_owned());
        out.push("/SC".to_owned());
        out.push("ONLOGON".to_owned());
        out.push("/TN".to_owned());
        out.push("SaveSearch".to_owned());
        out.push("/TR".to_owned());
        let mut quoted = "\"".to_owned();
        text::push_text(&mut quoted, exe);
        text::push_text(&mut quoted, "\"");
        out.push(quoted);
    } else {
        out.push("/Delete".to_owned());
        out.push("/F".to_owned());
        out.push("/TN".to_owned());
        out.push("SaveSearch".to_owned());
    }
    assert(text::string_views(out@) =~= autostart_view(enable, exe@));
    out
}

/// A file dialog that appears gets a popup where the popup is on; a window that
/// moves is followed; where another window comes to the front the popup is told, and
/// where its dialog comes back it is shown anew, as long as that is still a file
/// dialog. Events of parts of windows, and other events, change nothing.
pub proof fn law_events_of_windows(
    window: usize,
    object: i32,
    child: i32,
    current: Option<usize>,
    is_dialog: bool,
    enabled: bool,
    event: u32,
)
    ensures
        ({
            let act = |code: u32|
                event_action(
                    WinEvent { event: code, id_object: object, id_child: child, window },
                    current,
                    is_dialog,
                    enabled,
                );
            let whole = object == 0 && child == 0 && window != 0;
            &&& !whole ==> act(event) == EventAction::Nothing
            &&& whole ==> act(0x8002) == (if is_dialog && enabled {
                EventAction::Show
            } else {
                EventAction::Nothing
            })
            &&& whole ==> act(0x800B) == EventAction::Follow
            &&& whole && current != Some(window) ==> act(3) == EventAction::Front
            &&& whole && current == Some(window) ==> act(3) == (if is_dialog {
                EventAction::Show
            } else {
                EventAction::Dismiss
            })
            &&& whole ==> act(0x8001) == act(0x8003) && act(0x8001) == (if current == Some(window) {
                EventAction::Dismiss
            } else {
                EventAction::Nothing
            })
            &&& event != 3 && event != 0x8001 && event != 0x8002 && event != 0x8003 && event != 0x800B
                ==> act(event) == EventAction::Nothing
        }),
{
}

/// The task that starts the program is made with its path in quotes, or deleted, by
/// the same name.
pub proof fn law_task_has_one_name(exe: Seq<char>)
    ensures
        autostart_view(true, exe).len() == 10,
        autostart_view(true, exe)[0] == "/Create"@,
        autostart_view(true, exe)[6] == "/TN"@ && autostart_view(true, exe)[7] == "SaveSearch"@,
        autostart_view(true, exe)[8] == "/TR"@ && autostart_view(true, exe)[9] == "\""@ + exe
            + "\""@,
        autostart_view(true, exe)[2] == "/RL"@ && autostart_view(true, exe)[3] == "HIGHEST"@,
        autostart_view(true, exe)[4] == "/SC"@ && autostart_view(true, exe)[5] == "ONLOGON"@,
        autostart_view(false, exe).len() == 4,
        autostart_view(false, exe)[0] == "/Delete"@,
        autostart_view(false, exe)[2] == "/TN"@ && autostart_view(false, exe)[3] == "SaveSearch"@,
{
}

} // verus!
