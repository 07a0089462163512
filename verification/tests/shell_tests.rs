use savesearch::config::Settings;
use savesearch::dialog::{
    find_filename_edit, is_file_dialog, may_restore, navigation_keys, pick_edit, text_of_reply,
    text_to_restore, Element, KeyMessage, CT_EDIT,
};
use savesearch::events::{
    asks_for_dialog, autostart_args, is_taskbar_created, on_event, on_menu, on_tray, AppAction,
    EventAction, WinEvent, EVENT_OBJECT_DESTROY, EVENT_OBJECT_HIDE, EVENT_OBJECT_LOCATIONCHANGE,
    EVENT_OBJECT_SHOW, EVENT_SYSTEM_FOREGROUND,
};
use savesearch::explorer::{enumerate_open_folders, folder_text};
use savesearch::geometry::{Place, Rect};
use savesearch::popup::{
    build_popup_entries, leaf_of, menu_anchor, menu_label, popup_metrics, reposition, row_colors,
    row_plan, selects_entry, tag_color, tag_of, tag_rect, EntryKind, ForegroundAction, Popup,
};
use savesearch::theme::business_light;

fn list(items: &[&str]) -> Vec<String> {
    items.iter().map(|s| s.to_string()).collect()
}

fn field(name: &str, id: &str) -> Element {
    Element {
        control_type: CT_EDIT,
        has_window: true,
        name: name.to_string(),
        automation_id: id.to_string(),
    }
}

#[test]
fn entries_of_the_popup() {
    let s = Settings::default();
    let e = build_popup_entries(
        &s,
        &list(&["C:\\fav", "", "C:\\FAV\\"]),
        &list(&["c:\\fav", "D:\\open"]),
        &list(&["D:\\OPEN", "E:\\recent"]),
    );
    assert_eq!(
        e,
        vec![
            (EntryKind::Favorite, "C:\\fav".to_string()),
            (EntryKind::Open, "D:\\open".to_string()),
            (EntryKind::Recent, "E:\\recent".to_string()),
        ]
    );
}

#[test]
fn entries_that_are_not_shown() {
    let mut s = Settings::default();
    s.popup_show_favorites = false;
    let e = build_popup_entries(&s, &list(&["A"]), &list(&["a", "B"]), &list(&["b", "C"]));
    assert_eq!(
        e,
        vec![
            (EntryKind::Open, "a".to_string()),
            (EntryKind::Open, "B".to_string()),
            (EntryKind::Recent, "C".to_string()),
        ]
    );
    s.popup_show_open = false;
    s.popup_show_recent = false;
    assert!(build_popup_entries(&s, &list(&["A"]), &list(&["B"]), &list(&["C"])).is_empty());
}

#[test]
fn the_popup_and_its_dialog() {
    let mut p = Popup::new();
    assert_eq!(p.current_dialog(), None);
    assert_eq!(p.on_foreground(9, 1), ForegroundAction::Nothing);
    assert!(p.show_for(7, vec![(EntryKind::Open, "C:\\x".to_string())]));
    assert_eq!(p.current_dialog(), Some(7));
    assert!(p.on_dialog_moved(7));
    assert!(!p.on_dialog_moved(8));
    assert_eq!(p.on_foreground(7, 1), ForegroundAction::Show);
    assert_eq!(p.on_foreground(1, 1), ForegroundAction::Nothing);
    assert_eq!(p.on_foreground(9, 1), ForegroundAction::Hide);
    assert_eq!(p.entry_at(0), Some((EntryKind::Open, "C:\\x".to_string())));
    assert_eq!(p.entry_at(1), None);
    assert_eq!(p.entry_at(-1), None);
    assert_eq!(p.navigate_selected(0), Some((7, "C:\\x".to_string())));
    assert_eq!(p.navigate_selected(-1), None);
    p.dismiss();
    assert_eq!(p.current_dialog(), None);
    assert_eq!(p.navigate_selected(0), None);
    assert_eq!(p.entry_at(0), Some((EntryKind::Open, "C:\\x".to_string())));
    assert!(p.show_for(8, vec![(EntryKind::Open, "y".to_string())]));
    assert!(!p.show_for(9, Vec::new()));
    assert_eq!(p.current_dialog(), None);
}

#[test]
fn where_the_popup_stands() {
    let d = Rect { left: 100, top: 50, right: 1100, bottom: 600 };
    assert_eq!(reposition(&d, 3, 40, 96), Place { x: 280, y: 602, w: 640, h: 126 });
    assert_eq!(reposition(&d, 50, 40, 96), Place { x: 280, y: 602, w: 640, h: 420 });
    let narrow = Rect { left: 100, top: 50, right: 301, bottom: 600 };
    assert_eq!(reposition(&narrow, 0, 40, 96), Place { x: 51, y: 602, w: 300, h: 46 });
    let m = popup_metrics(144);
    assert_eq!((m.dpi, m.font_name, m.font_path, m.item_h), (144, 21, 16, 60));
    assert_eq!(popup_metrics(0).dpi, 96);
}

#[test]
fn leaves_of_paths() {
    assert_eq!(leaf_of("C:\\a\\b"), "b");
    assert_eq!(leaf_of("C:\\a\\b\\\\"), "b");
    assert_eq!(leaf_of("C:\\"), "C:");
    assert_eq!(leaf_of("plain"), "plain");
    assert_eq!(leaf_of(""), "");
    assert_eq!(leaf_of("\\\\"), "");
    assert_eq!(leaf_of("\\\\srv\\共享"), "共享");
}

#[test]
fn rows_of_the_popup() {
    let t = business_light();
    let c = row_colors(&t, true, true);
    assert_eq!((c.bg, c.fg, c.path_fg), (t.sel_bg, t.sel_fg, t.sel_fg));
    let c = row_colors(&t, false, true);
    assert_eq!((c.bg, c.fg, c.path_fg), (t.alt_bg, t.fg, t.path_fg));
    assert_eq!(row_colors(&t, false, false).bg, t.bg);
    let rc = Rect { left: 0, top: 0, right: 300, bottom: 40 };
    let p = row_plan(&rc, 18, 3, 56, 96);
    assert_eq!(p.icon, Place { x: 8, y: 11, w: 18, h: 18 });
    assert_eq!(p.name, Rect { left: 34, top: 3, right: 244, bottom: 22 });
    assert_eq!(p.path, Rect { left: 34, top: 18, right: 292, bottom: 38 });
    assert_eq!(tag_rect(&rc, 96), Rect { left: 244, top: 0, right: 294, bottom: 40 });
    assert_eq!(tag_of(EntryKind::Favorite), "★ 收藏");
    assert_eq!(tag_of(EntryKind::Recent), "最近");
    assert_eq!(tag_of(EntryKind::Open), "");
    assert_eq!(tag_color(&t, EntryKind::Favorite, false), t.accent);
    assert_eq!(tag_color(&t, EntryKind::Favorite, true), t.sel_fg);
    assert_eq!(tag_color(&t, EntryKind::Recent, false), t.path_fg);
}

#[test]
fn the_menu_of_an_entry() {
    assert_eq!(menu_label(true), "移出收藏");
    assert_eq!(menu_label(false), "添加到收藏 ★");
    assert_eq!(menu_anchor(0xFFFF_FFFF, 100, 200), (120, 220));
    assert_eq!(menu_anchor(0x0010_FFFF, 100, 200), (-1, 16));
    assert_eq!(menu_anchor(0x0002_0001, 100, 200), (1, 2));
    assert!(selects_entry(201 + (1 << 16)));
    assert!(!selects_entry(201));
    assert!(!selects_entry(202 + (1 << 16)));
}

#[test]
fn file_dialogs() {
    assert!(is_file_dialog("#32770", &list(&["Static", "ComboBoxEx32"])));
    assert!(is_file_dialog("#32770", &list(&["DUIViewWndClassName"])));
    assert!(!is_file_dialog("#32770", &list(&["Static"])));
    assert!(!is_file_dialog("Notepad", &list(&["ComboBoxEx32"])));
    assert!(!is_file_dialog("#32770", &[]));
}

#[test]
fn the_field_for_the_file_name() {
    let mut button = field("File name:", "1001");
    button.control_type = 50000;
    let mut bare = field("File name:", "1001");
    bare.has_window = false;
    let es = vec![button.clone(), bare.clone(), field("Search", "x"), field("a", "1148"), field("FILE NAME:", "y")];
    assert_eq!(find_filename_edit(&es), Some(4));
    assert_eq!(find_filename_edit(&es[..4]), Some(3));
    assert_eq!(find_filename_edit(&es[..3]), Some(2));
    assert_eq!(find_filename_edit(&es[..2]), None);
    assert_eq!(find_filename_edit(&[field("z", "q"), field("文件名(N):", "q")]), Some(1));
    assert_eq!(find_filename_edit(&[field("z", "1001"), field("FİLE NAME", "q")]), Some(0));
    let lower: Vec<String> = list(&["", "", "", "", "the file name"]);
    assert_eq!(pick_edit(&es, &lower), Some(4));
    let lower: Vec<String> = list(&["", "", "", "", "FILE NAME"]);
    assert_eq!(pick_edit(&es, &lower), Some(3));
}

#[test]
fn texts_of_windows() {
    let buf = [0x61u16, 0x62, 0, 0];
    assert_eq!(text_of_reply(&buf, 2), "ab");
    assert_eq!(text_of_reply(&buf, 0), "");
    assert_eq!(text_of_reply(&buf, 99), "ab\0\0");
}

#[test]
fn leading_a_dialog() {
    let keys = navigation_keys("C:", true).unwrap();
    assert_eq!(
        keys,
        vec![
            KeyMessage { message: 0x102, param: 0x43 },
            KeyMessage { message: 0x102, param: 0x3A },
            KeyMessage { message: 0x100, param: 0x0D },
            KeyMessage { message: 0x101, param: 0x0D },
        ]
    );
    assert!(navigation_keys("C:", false).is_none());
    assert_eq!(text_to_restore(None), (false, None));
    assert_eq!(text_to_restore(Some("")), (true, None));
    assert_eq!(text_to_restore(Some("a")), (true, Some(vec![0x61, 0])));
}

#[test]
fn putting_a_text_back() {
    assert!(may_restore(true, "Edit", Some(""), "C:\\x"));
    assert!(may_restore(true, "Edit", Some("  "), "C:\\x"));
    assert!(may_restore(true, "Edit", Some(" c:\\X\\ "), "C:\\x"));
    assert!(!may_restore(true, "Edit", Some("typed.txt"), "C:\\x"));
    assert!(!may_restore(true, "Edit", None, "C:\\x"));
    assert!(!may_restore(false, "Edit", Some(""), "C:\\x"));
    assert!(!may_restore(true, "Button", Some(""), "C:\\x"));
}

#[test]
fn open_folders() {
    let w = |s: &str| s.encode_utf16().collect::<Vec<u16>>();
    let mut padded = w("C:\\a");
    padded.extend_from_slice(&[0, 0x78]);
    assert_eq!(folder_text(&padded), "C:\\a");
    let bufs = vec![padded, w(""), w("c:\\A"), w("D:\\b"), vec![0, 0x41], w("D:\\b\\")];
    assert_eq!(enumerate_open_folders(&bufs), list(&["C:\\a", "D:\\b", "D:\\b\\"]));
}

#[test]
fn events_of_windows() {
    let ev = |event: u32, window: usize| WinEvent { event, id_object: 0, id_child: 0, window };
    assert_eq!(on_event(&ev(EVENT_OBJECT_SHOW, 7), None, true, true), EventAction::Show);
    assert_eq!(on_event(&ev(EVENT_OBJECT_SHOW, 7), None, true, false), EventAction::Nothing);
    assert_eq!(on_event(&ev(EVENT_OBJECT_SHOW, 7), None, false, true), EventAction::Nothing);
    assert_eq!(on_event(&ev(EVENT_OBJECT_SHOW, 0), None, true, true), EventAction::Nothing);
    let mut part = ev(EVENT_OBJECT_SHOW, 7);
    part.id_object = -4;
    assert_eq!(on_event(&part, None, true, true), EventAction::Nothing);
    let moved = ev(EVENT_OBJECT_LOCATIONCHANGE, 7);
    assert_eq!(on_event(&moved, None, false, false), EventAction::Follow);
    let front = ev(EVENT_SYSTEM_FOREGROUND, 7);
    assert_eq!(on_event(&front, None, true, true), EventAction::Front);
    assert_eq!(on_event(&front, Some(7), true, false), EventAction::Show);
    assert_eq!(on_event(&front, Some(7), false, true), EventAction::Dismiss);
    for gone in [EVENT_OBJECT_HIDE, EVENT_OBJECT_DESTROY] {
        assert_eq!(on_event(&ev(gone, 7), Some(7), true, true), EventAction::Dismiss);
        assert_eq!(on_event(&ev(gone, 8), Some(7), true, true), EventAction::Nothing);
        assert_eq!(on_event(&ev(gone, 8), None, true, true), EventAction::Nothing);
    }
    assert_eq!(on_event(&ev(0x8005, 7), Some(7), true, true), EventAction::Nothing);
    assert!(asks_for_dialog(&ev(EVENT_OBJECT_SHOW, 7), None));
    assert!(asks_for_dialog(&front, Some(7)));
    assert!(!asks_for_dialog(&front, Some(8)));
    assert!(!asks_for_dialog(&moved, Some(7)));
}

#[test]
fn the_tray_and_the_menu() {
    assert_eq!(on_tray(0x202), AppAction::ToggleSearch);
    assert_eq!(on_tray(0x205), AppAction::ShowMenu);
    assert_eq!(on_tray(0x7B), AppAction::ShowMenu);
    assert_eq!(on_tray(0x200), AppAction::Nothing);
    assert_eq!(on_menu(40002), AppAction::ToggleSearch);
    assert_eq!(on_menu(40003), AppAction::OpenSettings);
    assert_eq!(on_menu(40001), AppAction::Exit);
    assert_eq!(on_menu(1), AppAction::Nothing);
    assert!(is_taskbar_created(5, 5));
    assert!(!is_taskbar_created(0, 0));
    assert!(!is_taskbar_created(4, 5));
}

#[test]
fn starting_with_the_session() {
    let on = autostart_args(true, "C:\\Program Files\\s.exe");
    assert_eq!(on.join(" "), "/Create /F /RL HIGHEST /SC ONLOGON /TN SaveSearch /TR \"C:\\Program Files\\s.exe\"");
    assert_eq!(on.len(), 10);
    assert_eq!(autostart_args(false, "x"), list(&["/Delete", "/F", "/TN", "SaveSearch"]));
}
