use savesearch::catalog::Catalog;
use savesearch::category::Category;
use savesearch::config::Settings;
use savesearch::geometry::{clamp, divide, local_rect, scale, Place, Rect};
use savesearch::icons::{ext_of, icon_key, icon_sample};
use savesearch::index::IndexBuilder;
use savesearch::listview::{
    pretranslate, row_top, scroll_range, seen_rows, y_to_index, KeyAction, ListState,
    Pretranslation, VK_DOWN, VK_END, VK_ESCAPE, VK_HOME, VK_NEXT, VK_PRIOR, VK_RETURN, VK_UP,
    WM_KEYDOWN, WM_MOUSEWHEEL,
};
use savesearch::messages::{hi_word, lo_word, signed_hi, signed_lo};
use savesearch::searchwin::{
    button_colors, category_at, category_label, center, do_search, layout, open_command,
    scope_labels, selected_scope, window_command, Scope, WindowCommand,
};
use savesearch::settings_form::{
    apply_form, create, form_command, listbox_items, theme_name, ControlKind, FormCommand,
    FormInput,
};
use savesearch::theme::{
    business_dark, business_light, control_bg, current, keep_brush, known_brush, rgb, set_current,
    solarized_light, theme_by_name, window_look, ThemeState,
};

fn place(x: i32, y: i32, w: i32, h: i32) -> Place {
    Place { x, y, w, h }
}

#[test]
fn colors() {
    assert_eq!(rgb(0x12, 0x34, 0x56), 0x563412);
    assert_eq!(business_light().bg, 0xFAF8F7);
    assert_eq!(business_dark().accent, 0xFF9A4C);
    assert_eq!(solarized_light().sel_fg, 0x423607);
    assert_eq!(business_light().alt_bg, 0xFFFFFF);
}

#[test]
fn themes_by_their_names() {
    assert_eq!(theme_by_name("business_light"), business_light());
    assert_eq!(theme_by_name("business_dark"), business_dark());
    assert_eq!(theme_by_name("solarized"), solarized_light());
    assert_eq!(theme_by_name("acrylic"), business_light());
    assert_eq!(theme_by_name(""), business_light());
}

#[test]
fn the_theme_in_use() {
    let mut s = ThemeState::new();
    assert_eq!(current(&s), business_light());
    set_current(&mut s, business_dark());
    assert_eq!(current(&s), business_dark());
    assert_eq!(known_brush(&s, 5), None);
    keep_brush(&mut s, 5, 77);
    assert_eq!(known_brush(&s, 5), Some(77));
    assert_eq!(known_brush(&s, 6), None);
    assert_eq!(current(&s), business_dark());
}

#[test]
fn the_look_of_a_window() {
    let l = window_look(&business_dark());
    assert_eq!((l.dark, l.backdrop), (1, 0));
    assert_eq!((l.caption, l.text), (business_dark().bg, business_dark().fg));
    let mut t = business_light();
    t.acrylic = true;
    assert_eq!((window_look(&t).dark, window_look(&t).backdrop), (0, 3));
}

#[test]
fn icons_by_extension() {
    assert_eq!(ext_of("a.TXT"), "txt");
    assert_eq!(ext_of("a."), "");
    assert_eq!(ext_of("noext"), "");
    assert_eq!(ext_of("a.b.Cé"), "cé");
    assert_eq!(icon_key("x.txt", true), "\u{1}dir");
    assert_eq!(icon_key("x", false), "\u{1}none");
    assert_eq!(icon_key("x.TXT", false), "txt");
    assert_eq!(icon_sample("x.txt", true), (0x10, "folder".to_string()));
    assert_eq!(icon_sample("x", false), (0x80, "file".to_string()));
    assert_eq!(icon_sample("x.PDF", false), (0x80, "a.pdf".to_string()));
    assert_eq!(icon_key("one.Md", false), icon_key("two.md", false));
    assert_eq!(icon_sample("one.Md", false), icon_sample("two.md", false));
}

#[test]
fn halves_of_numbers() {
    assert_eq!(lo_word(0x1234_5678), 0x5678);
    assert_eq!(hi_word(0x1234_5678), 0x1234);
    assert_eq!(signed_lo(0xFFFF_FFFE), -2);
    assert_eq!(signed_hi(0xFF88_0000), -120);
    assert_eq!(signed_hi(0x0078_FFFF), 120);
}

#[test]
fn lengths() {
    assert_eq!(scale(10, 96), 10);
    assert_eq!(scale(10, 144), 15);
    assert_eq!(scale(3, 100), 3);
    assert_eq!(divide(-7, 2), -3);
    assert_eq!(divide(7, 2), 3);
    assert_eq!(clamp(5, 1, 3), 3);
    assert_eq!(clamp(-5, 1, 3), 1);
}

#[test]
fn scrolling() {
    let r = scroll_range(10, 46, 200);
    assert_eq!((r.max, r.page, r.max_scroll), (459, 200, 260));
    let r = scroll_range(0, 46, 200);
    assert_eq!((r.max, r.page, r.max_scroll), (0, 200, 0));
    let r = scroll_range(1, 46, -5);
    assert_eq!((r.max, r.page, r.max_scroll), (45, 0, 51));
}

#[test]
fn rows_by_height() {
    assert_eq!(y_to_index(0, 0, 46, 3), 0);
    assert_eq!(y_to_index(46, 0, 46, 3), 1);
    assert_eq!(y_to_index(45, 46, 46, 3), 1);
    assert_eq!(y_to_index(200, 0, 46, 3), -1);
    assert_eq!(y_to_index(-100, 0, 46, 3), -1);
    assert_eq!(y_to_index(-10, 0, 46, 3), 0);
    assert_eq!(y_to_index(10, 0, 0, 3), -1);
    assert_eq!(seen_rows(50, 46, 100, 10), Some((1, 3)));
    assert_eq!(seen_rows(0, 46, 1000, 3), Some((0, 2)));
    assert_eq!(seen_rows(0, 46, 1000, 0), None);
    assert_eq!(row_top(3, 46, 50), 88);
    for y in 0..=100 {
        let row = y_to_index(y, 50, 46, 10);
        assert!(1 <= row && row <= 3);
    }
}

#[test]
fn selecting_rows() {
    let mut s = ListState::new();
    assert_eq!((s.rows(), s.selected(), s.hovered()), (0, -1, -1));
    assert!(!s.set_sel(3));
    s.set_results(5);
    assert_eq!((s.rows(), s.selected(), s.hovered()), (5, 0, -1));
    assert!(s.set_sel(99));
    assert_eq!(s.selected(), 4);
    assert!(s.set_sel(-7));
    assert_eq!(s.selected(), 0);
    assert!(s.click(100, 0, 46));
    assert_eq!(s.selected(), 2);
    assert!(!s.click(1000, 0, 46));
    assert_eq!(s.selected(), 2);
    assert!(s.mouse_move(50, 0, 46));
    assert!(!s.mouse_move(51, 0, 46));
    assert_eq!(s.hovered(), 1);
    s.mouse_leave();
    assert_eq!(s.hovered(), -1);
    assert_eq!(s.open_row(), 2);
    s.set_results(0);
    assert_eq!(s.selected(), -1);
    assert_eq!(s.open_row(), 0);
}

#[test]
fn keys_in_the_list() {
    let mut s = ListState::new();
    assert_eq!(s.on_key(VK_DOWN, 100, 20), KeyAction::Ignore);
    assert_eq!(s.on_key(VK_ESCAPE, 100, 20), KeyAction::Dismiss);
    assert_eq!(s.on_key(VK_RETURN, 100, 20), KeyAction::Open { row: 0 });
    s.set_results(20);
    s.set_sel(10);
    assert_eq!(s.on_key(VK_DOWN, 100, 20), KeyAction::Select { row: 11 });
    assert_eq!(s.on_key(VK_UP, 100, 20), KeyAction::Select { row: 9 });
    assert_eq!(s.on_key(VK_NEXT, 100, 20), KeyAction::Select { row: 15 });
    assert_eq!(s.on_key(VK_PRIOR, 100, 20), KeyAction::Select { row: 5 });
    assert_eq!(s.on_key(VK_NEXT, 0, 0), KeyAction::Select { row: 11 });
    assert_eq!(s.on_key(VK_HOME, 100, 20), KeyAction::Select { row: 0 });
    assert_eq!(s.on_key(VK_END, 100, 20), KeyAction::Select { row: 19 });
    assert_eq!(s.on_key(0x41, 100, 20), KeyAction::Ignore);
    assert_eq!(s.on_key(VK_RETURN, 100, 20), KeyAction::Open { row: 10 });
    s.set_sel(19);
    assert_eq!(s.on_key(VK_DOWN, 100, 20), KeyAction::Select { row: 19 });
}

#[test]
fn messages_before_their_window() {
    let mut s = ListState::new();
    s.set_results(3);
    let wheel = pretranslate(&s, WM_MOUSEWHEEL, true, false, 0, 100, 20);
    assert_eq!(wheel, Pretranslation::ToList);
    assert_eq!(pretranslate(&s, WM_MOUSEWHEEL, false, true, 0, 100, 20), Pretranslation::Pass);
    assert_eq!(pretranslate(&s, WM_KEYDOWN, false, false, VK_DOWN, 100, 20), Pretranslation::Pass);
    assert_eq!(pretranslate(&s, 0x0101, false, true, VK_DOWN, 100, 20), Pretranslation::Pass);
    assert_eq!(pretranslate(&s, WM_KEYDOWN, false, true, 0x41, 100, 20), Pretranslation::Pass);
    assert_eq!(
        pretranslate(&s, WM_KEYDOWN, false, true, VK_DOWN, 100, 20),
        Pretranslation::Key { action: KeyAction::Select { row: 1 } }
    );
}

#[test]
fn buttons_of_the_categories() {
    let all = [
        (Category::All, "全部"),
        (Category::Folder, "文件夹"),
        (Category::Document, "文档"),
        (Category::Image, "图片"),
        (Category::Video, "视频"),
        (Category::Audio, "音频"),
        (Category::Other, "其他"),
    ];
    for (i, (c, l)) in all.iter().enumerate() {
        assert_eq!(category_at(i), *c);
        assert_eq!(category_label(i), *l);
        assert_eq!(window_command(300 + i as u32), WindowCommand::Choose { category: *c });
    }
    assert_eq!(category_at(7), Category::All);
    assert_eq!(category_label(7), "");
    assert_eq!(window_command(307), WindowCommand::Nothing);
    assert_eq!(window_command(101 + (0x300 << 16)), WindowCommand::Search);
    assert_eq!(window_command(103 + (1 << 16)), WindowCommand::Search);
    assert_eq!(window_command(101), WindowCommand::Nothing);
    let t = business_light();
    assert_eq!(button_colors(&t, true, true).bg, t.accent);
    assert_eq!(button_colors(&t, true, false).fg, 0xFFFFFF);
    assert_eq!(button_colors(&t, false, true).bg, t.sel_bg);
    assert_eq!(button_colors(&t, false, false).bg, t.alt_bg);
    assert_eq!(button_colors(&t, false, false).fg, t.fg);
}

#[test]
fn scopes() {
    let folders = vec!["D:\\x".to_string()];
    assert_eq!(scope_labels(&['C', 'D'], &folders), vec!["全部盘", "C:", "D:", "D:\\x"]);
    let at = |i: isize| match selected_scope(i, &['C', 'D'], &folders) {
        Scope::All => "all".to_string(),
        Scope::Drive(c) => format!("drive {}", c),
        Scope::Folder(f) => format!("folder {}", f),
    };
    assert_eq!(at(-1), "all");
    assert_eq!(at(0), "all");
    assert_eq!(at(1), "drive C");
    assert_eq!(at(2), "drive D");
    assert_eq!(at(3), "folder D:\\x");
    assert_eq!(at(4), "all");
}

#[test]
fn what_a_search_says() {
    let mut b = IndexBuilder::new(b'C');
    b.push(100, 5, 0x10, "dir");
    b.push(101, 100, 0, "hit.txt");
    b.push(102, 5, 0, "hit.png");
    let mut c = Catalog::new();
    c.add(b.finish());
    let o = do_search(Some(&c), "  hit ", &Scope::All, Category::All, 200);
    assert_eq!(o.results.len(), 2);
    assert_eq!(o.label, "2 个结果");
    let o = do_search(Some(&c), "hit", &Scope::All, Category::All, 0);
    assert_eq!(o.label, "1 个结果");
    let o = do_search(Some(&c), "hit", &Scope::Folder("C:\\dir".to_string()), Category::All, 9);
    assert_eq!(o.results[0].path, "C:\\dir\\hit.txt");
    assert_eq!(o.results.len(), 1);
    let o = do_search(Some(&c), "hit", &Scope::Drive('D'), Category::All, 9);
    assert_eq!(o.label, "0 个结果");
    let o = do_search(Some(&c), "hit", &Scope::Drive('c'), Category::Image, 9);
    assert_eq!(o.label, "1 个结果");
    let o = do_search(None, "hit", &Scope::All, Category::All, 9);
    assert_eq!(o.label, "索引构建中…");
    assert!(o.results.is_empty());
    assert_eq!(do_search(None, " \u{3000}", &Scope::All, Category::All, 9).label, "");
    assert_eq!(do_search(Some(&c), "", &Scope::All, Category::All, 9).label, "");
}

#[test]
fn opening_results() {
    let c = open_command("C:\\dir", true);
    assert_eq!(c.file, "C:\\dir");
    assert!(c.params.is_none());
    let c = open_command("C:\\a b.txt", false);
    assert_eq!(c.file, "explorer.exe");
    assert_eq!(c.params.unwrap(), "/select,\"C:\\a b.txt\"");
}

#[test]
fn the_search_window_is_laid_out() {
    let l = layout(820, 560, 96);
    assert_eq!(l.edit, place(10, 10, 702, 30));
    assert_eq!(l.combo, place(718, 10, 92, 260));
    assert_eq!(l.cats.len(), 7);
    assert_eq!(l.cats[0], place(10, 48, 110, 30));
    assert_eq!(l.cats[6], place(10 + 114 * 6, 48, 110, 30));
    assert_eq!(l.list, place(10, 86, 800, 444));
    assert_eq!(l.count, place(10, 540, 800, 18));
    let tiny = layout(100, 50, 96);
    assert_eq!(tiny.edit.w, -18);
    assert_eq!(tiny.list.h, 40);
    assert_eq!(center(1920, 1080, 820, 560), place(550, 173, 820, 560));
    assert_eq!(center(800, 500, 820, 560), place(-10, -20, 820, 560));
}

#[test]
fn the_settings_form() {
    let mut s = Settings::default();
    s.theme = "solarized".to_string();
    s.indexed_drives = vec!['D'];
    s.preset_folders = vec!["C:\\p".to_string()];
    let f = create(&s, &['C', 'D'], "1.2.3", 96);
    assert_eq!(f.len(), 3 + 2 + 16);
    assert_eq!(f[0].text, "主题");
    assert_eq!(f[1].kind, ControlKind::Combo);
    assert_eq!(f[1].sel, 2);
    assert_eq!(f[1].items.len(), 3);
    assert_eq!((f[3].text.as_str(), f[3].checked, f[3].id), ("C:", false, 1100));
    assert_eq!((f[4].text.as_str(), f[4].checked, f[4].id), ("D:", true, 1101));
    assert_eq!(f[4].place, place(80, 78, 56, 22));
    assert_eq!(f[5].id, 1002);
    assert_eq!(f[7].text, "200");
    assert_eq!(f[9].text, "2");
    assert_eq!(f[15].items, vec!["C:\\p".to_string()]);
    assert_eq!(f[15].place, place(16, 262, 296, 96));
    assert_eq!(f[18].text, "SaveSearch v1.2.3");
    assert_eq!(f[19].kind, ControlKind::DefaultButton);
    assert_eq!(f[20].place, place(330, 416, 90, 30));
    let all = create(&Settings::default(), &['C', 'D'], "", 192);
    assert!(all[3].checked && all[4].checked);
    assert_eq!(all[4].place, place(160, 156, 112, 44));
}

fn filled() -> FormInput {
    FormInput {
        theme_sel: 1,
        drives: vec![('C', true), ('D', false)],
        limit: " 500 ".to_string(),
        recent: "7".to_string(),
        preset_folders: vec!["X:\\y".to_string()],
        autostart: true,
        popup: false,
        fav: true,
        recent_show: false,
        open: true,
    }
}

#[test]
fn a_filled_form() {
    let s = apply_form(&filled(), "last");
    assert_eq!(s.theme, "business_dark");
    assert_eq!(s.indexed_drives, vec!['C']);
    assert_eq!(s.preset_folders, vec!["X:\\y".to_string()]);
    assert_eq!((s.result_limit, s.recent_max), (500, 7));
    assert!(s.autostart && !s.popup_enabled);
    assert!(s.popup_show_favorites && !s.popup_show_recent && s.popup_show_open);
    assert_eq!(s.last_query, "last");
}

#[test]
fn numbers_of_a_form_are_bounded() {
    let mut f = filled();
    f.limit = "0".to_string();
    f.recent = "1000".to_string();
    assert_eq!(apply_form(&f, "").result_limit, 1);
    assert_eq!(apply_form(&f, "").recent_max, 100);
    f.limit = "999999999999999999999999".to_string();
    f.recent = "x".to_string();
    assert_eq!(apply_form(&f, "").result_limit, 200);
    assert_eq!(apply_form(&f, "").recent_max, 2);
    f.limit = "100001".to_string();
    f.recent = "0".to_string();
    assert_eq!(apply_form(&f, "").result_limit, 100_000);
    assert_eq!(apply_form(&f, "").recent_max, 0);
}

#[test]
fn all_volumes_are_named_by_none() {
    let mut f = filled();
    f.drives = vec![('C', true), ('D', true)];
    assert!(apply_form(&f, "").indexed_drives.is_empty());
    f.drives = vec![('C', false), ('D', false)];
    assert!(apply_form(&f, "").indexed_drives.is_empty());
    f.theme_sel = -1;
    assert_eq!(apply_form(&f, "").theme, "business_light");
    assert_eq!(theme_name(2), "solarized");
    assert_eq!(theme_name(3), "business_light");
}

#[test]
fn a_form_that_was_not_touched() {
    let mut s = Settings::default();
    s.theme = "business_dark".to_string();
    s.indexed_drives = vec!['D'];
    s.result_limit = 123;
    let f = create(&s, &['C', 'D'], "1", 96);
    let input = FormInput {
        theme_sel: f[1].sel as isize,
        drives: vec![('C', f[3].checked), ('D', f[4].checked)],
        limit: f[7].text.clone(),
        recent: f[9].text.clone(),
        preset_folders: f[15].items.clone(),
        autostart: f[5].checked,
        popup: f[10].checked,
        fav: f[11].checked,
        recent_show: f[12].checked,
        open: f[13].checked,
    };
    let again = apply_form(&input, &s.last_query);
    assert_eq!(again.theme, s.theme);
    assert_eq!(again.indexed_drives, s.indexed_drives);
    assert_eq!(again.result_limit, s.result_limit);
    assert_eq!(again.recent_max, s.recent_max);
    assert_eq!(again.popup_enabled, s.popup_enabled);
    assert_eq!(again.popup_show_open, s.popup_show_open);
}

#[test]
fn parts_of_the_form_in_use() {
    assert_eq!(form_command(1), FormCommand::Save);
    assert_eq!(form_command(2), FormCommand::Close);
    assert_eq!(form_command(1010), FormCommand::AddFolder);
    assert_eq!(form_command(1011), FormCommand::RemoveFolder);
    assert_eq!(form_command(1009), FormCommand::Nothing);
    let raw = vec![vec![0x43u16, 0x3A], vec![], vec![0x44]];
    assert_eq!(listbox_items(&raw), vec!["C:".to_string(), "D".to_string()]);
}

#[test]
fn rectangles_at_zero() {
    let r = Rect { left: 10, top: 20, right: 13, bottom: 24 };
    assert_eq!(local_rect(&r), Some(Rect { left: 0, top: 0, right: 3, bottom: 4 }));
    assert_eq!(local_rect(&Rect { left: 1, top: 0, right: 1, bottom: 4 }), None);
    assert_eq!(local_rect(&Rect { left: 0, top: 5, right: 1, bottom: 4 }), None);
}

#[test]
fn grounds_of_controls() {
    let t = business_light();
    assert_eq!(control_bg(&t, 0x133), t.alt_bg);
    assert_eq!(control_bg(&t, 0x134), t.alt_bg);
    assert_eq!(control_bg(&t, 0x138), t.bg);
}
