use cluttercutter::commands::{
    accelerator, action_target, column_click, file_menu, on_command, on_recycle_done, refresh,
    theme_menu, theme_menu_id, view_menu, view_menu_id, Command, CtxTarget, Rescan,
};
use cluttercutter::format::Units;
use cluttercutter::geometry::{
    banner_hit, banner_layout, card_bar, card_rect, crumb_hit, crumb_spans, delete_button_rect,
    dragged_width, home_button_rect, is_on_box, knob_rect, layout, marquee_segment, pill_rect,
    point_of, sidebar_hit, topbar_hit, Around, BannerHit, Place, Rect, Span, TopbarHit,
};
use cluttercutter::history::History;
use cluttercutter::palette::{button_colours, is_dark, palette};
use cluttercutter::panel::{
    column_widths, fixed_columns_width, float_title, header_buttons_left_x, list_marks, main_columns, panel_layout, panel_view_buttons, path_column,
    side_columns, temp_done_text, temp_scan_text, title_rect, view_hit, Panel, SideView,
};
use cluttercutter::recycle::ScanTree;
use cluttercutter::rows::{cell_content, populate_children, CellText, SortBy};
use cluttercutter::scan_all::ScanRequest;
use cluttercutter::settings::{DefaultPanel, Settings, ThemeMode};
use cluttercutter::settings_page::{
    apply_action, column_description, info_hit, page_hit, settings_page, tooltip_rect, SettingsAction,
};
use cluttercutter::temp::{TempPlace, TempSource};
use cluttercutter::toolbar::{drive_button_x, ready_text, status_parts, usage_text, DriveCard};
use cluttercutter::types::FolderNode;
use cluttercutter::utf16::wide_list;

fn client(w: i32, h: i32) -> Rect {
    Rect { left: 0, top: 0, right: w, bottom: h }
}

#[test]
fn top_bar_buttons_are_where_they_are_drawn() {
    let bar = client(1000, 50);
    assert_eq!(pill_rect(&bar), Rect { left: 892, top: 11, right: 984, bottom: 39 });
    assert_eq!(home_button_rect(&bar), Rect { left: 14, top: 9, right: 48, bottom: 41 });
    assert_eq!(delete_button_rect(&bar), Rect { left: 54, top: 9, right: 88, bottom: 41 });
    // Rounding is towards zero where the bar is lower than the button.
    assert_eq!(home_button_rect(&client(1000, 31)).top, 0);
    assert_eq!(topbar_hit(&bar, 20, 20), TopbarHit::Home);
    assert_eq!(topbar_hit(&bar, 60, 20), TopbarHit::Delete);
    assert_eq!(topbar_hit(&bar, 900, 20), TopbarHit::Theme(ThemeMode::Light));
    assert_eq!(topbar_hit(&bar, 938, 20), TopbarHit::Theme(ThemeMode::Dark));
    assert_eq!(topbar_hit(&bar, 500, 20), TopbarHit::Nothing);
    assert_eq!(topbar_hit(&bar, 20, 45), TopbarHit::Nothing);
    let pill = pill_rect(&bar);
    assert_eq!(knob_rect(&pill, false), Rect { left: 895, top: 14, right: 937, bottom: 36 });
    assert_eq!(knob_rect(&pill, true), Rect { left: 939, top: 14, right: 981, bottom: 36 });
}

#[test]
fn mouse_messages_carry_signed_points() {
    assert_eq!(point_of(0x0005_0003), (3, 5));
    assert_eq!(point_of(0xFFFF_FFFE), (-2, -1));
    assert_eq!(point_of(0x7_0008_8000), (-32768, 8));
}

#[test]
fn cards_are_clickable() {
    assert_eq!(card_rect(0, 244), Rect { left: 12, top: 36, right: 232, bottom: 102 });
    assert_eq!(card_rect(2, 244).top, 184);
    assert_eq!(card_bar(&card_rect(0, 244)), Rect { left: 26, top: 68, right: 218, bottom: 76 });
    assert_eq!(sidebar_hit(40, 3, false), Some(0));
    assert_eq!(sidebar_hit(100, 3, false), Some(0));
    assert_eq!(sidebar_hit(101, 3, false), Some(0));
    assert_eq!(sidebar_hit(102, 3, false), None);
    assert_eq!(sidebar_hit(109, 3, false), None);
    assert_eq!(sidebar_hit(110, 3, false), Some(1));
    assert_eq!(sidebar_hit(35, 3, false), None);
    assert_eq!(sidebar_hit(36, 3, false), Some(0));
    assert_eq!(sidebar_hit(40, 3, true), None);
    assert_eq!(sidebar_hit(40, 0, false), None);
}

#[test]
fn crumbs_stand_side_by_side() {
    let spans = crumb_spans(&vec![40, 3, 25], 10);
    assert_eq!(
        spans,
        vec![
            Span { left: 14, right: 54 },
            Span { left: 64, right: 72 },
            Span { left: 82, right: 107 },
        ]
    );
    assert_eq!(crumb_hit(&spans, 53), Some(0));
    assert_eq!(crumb_hit(&spans, 54), None);
    assert_eq!(crumb_hit(&spans, 82), Some(2));
}

#[test]
fn the_banner_is_laid_out_from_the_right() {
    let b = banner_layout(&client(800, 34), 70, 10);
    assert_eq!((b.dismiss_x, b.get_x, b.message_w), (776, 688, 652));
    assert_eq!(banner_hit(&b, 690, 5), BannerHit::Get);
    assert_eq!(banner_hit(&b, 780, 5), BannerHit::Dismiss);
    assert_eq!(banner_hit(&b, 100, 5), BannerHit::Nothing);
    assert_eq!(banner_layout(&client(100, 34), 70, 10).message_w, 40);
}

#[test]
fn boxes_and_marquees() {
    assert!(is_on_box(4, 0, true, true) && is_on_box(19, 0, true, true));
    assert!(!is_on_box(20, 0, true, true) && !is_on_box(4, 0, true, false));
    assert!(is_on_box(36, 2, true, true) && !is_on_box(35, 2, true, true));
    // 90 wide: a piece of 30 that starts outside on the left.
    assert_eq!(marquee_segment(0, 90, 0), None);
    assert_eq!(marquee_segment(0, 90, 1), Some(Span { left: 0, right: 6 }));
    assert_eq!(marquee_segment(0, 90, 10), Some(Span { left: 30, right: 60 }));
    assert_eq!(marquee_segment(0, 90, -1), Some(Span { left: 84, right: 90 }));
    assert_eq!(marquee_segment(0, 90, 20), None);
    assert_eq!(marquee_segment(0, 20, 5), None);
}

#[test]
fn panes_share_the_window() {
    let around = Around {
        sidebar: true,
        banner: false,
        panel: Some(500),
        columns_w: fixed_columns_width(&vec![true; 8]),
        vscroll: 17,
    };
    let l = layout(1700, 900, &around);
    assert_eq!(l.list, Place { x: 244, y: 80, w: 950, h: 796 });
    let s = l.split.expect("a panel");
    assert_eq!(s.splitter, Place { x: 1194, y: 80, w: 6, h: 796 });
    assert_eq!(s.panel, Place { x: 1200, y: 80, w: 500, h: 796 });
    assert_eq!(l.name_w, 950 - 588 - 17 - 4);
    assert_eq!(l.status, Place { x: 0, y: 876, w: 1700, h: 24 });
    assert!(l.banner.is_none());
    let l = layout(1700, 900, &Around { panel: None, ..around });
    assert!(l.split.is_none());
    assert_eq!(l.list.w, 1456);
    let l = layout(100, 50, &Around { panel: Some(10), ..around });
    assert_eq!((l.list.w, l.list.h, l.name_w), (0, 0, 120));
    assert_eq!(dragged_width(1700, true, 1200), (494, 1456));
    assert_eq!(dragged_width(1700, true, 1690), (180, 1456));
    assert_eq!(dragged_width(1700, false, 1200), (494, 1700));
    assert_eq!(dragged_width(0, true, 0), (180, 1));
}

#[test]
fn strips_and_columns_come_and_go() {
    let mut shown = vec![true; 8];
    shown[1] = false;
    shown[6] = false;
    assert_eq!(column_widths(&shown), vec![320, 0, 90, 90, 80, 80, 0]);
    assert_eq!(fixed_columns_width(&shown), 340);
    let around = Around {
        sidebar: false,
        banner: true,
        panel: Some(500),
        columns_w: 340,
        vscroll: 17,
    };
    let l = layout(1700, 900, &around);
    assert_eq!(l.banner, Some(Place { x: 0, y: 50, w: 1700, h: 34 }));
    assert_eq!(l.sidebar, Place { x: 0, y: 84, w: 0, h: 792 });
    assert_eq!(l.crumb, Place { x: 0, y: 84, w: 1700, h: 30 });
    assert_eq!(l.list, Place { x: 0, y: 114, w: 1194, h: 762 });
    assert_eq!(l.name_w, 1194 - 340 - 17 - 4);
}

#[test]
fn settings_hide_the_columns_that_they_name() {
    let mut s = Settings::default();
    let widths = |s: &Settings| column_widths(&list_marks(&s.col_visible));
    let all = vec![320, 128, 90, 90, 80, 80, 120];
    assert_eq!(widths(&s), all);
    // Share of the parent, own size, files, folders, time of modification.
    for (mark, column) in [(1, 1), (4, 3), (5, 4), (6, 5), (7, 6)] {
        assert!(apply_action(&mut s, SettingsAction::ToggleColumn(mark)));
        let mut expected = all.clone();
        expected[column] = 0;
        assert_eq!(widths(&s), expected);
        assert!(apply_action(&mut s, SettingsAction::ToggleColumn(mark)));
    }
    // The free space is no column of the list; the name and the size stay.
    assert!(apply_action(&mut s, SettingsAction::ToggleColumn(2)));
    assert_eq!(widths(&s), all);
    assert!(!apply_action(&mut s, SettingsAction::ToggleColumn(0)));
    assert!(!apply_action(&mut s, SettingsAction::ToggleColumn(3)));
    assert_eq!(widths(&s), all);
    assert_eq!(list_marks(&vec![true, false]), vec![true, false, true, true, true, true, true]);
}

#[test]
fn coordinates_stay_in_range() {
    let l = layout(i32::MAX, i32::MIN, &Around {
        sidebar: true,
        banner: false,
        panel: Some(i32::MAX),
        columns_w: 588,
        vscroll: i32::MAX,
    });
    assert_eq!(l.status, Place { x: 0, y: i32::MIN, w: i32::MAX, h: 24 });
    assert_eq!((l.list.w, l.list.h, l.name_w), (180, 0, 120));
    assert_eq!(card_rect(usize::MAX, 244).top, i32::MAX);
    let spans = crumb_spans(&vec![i32::MAX, i32::MAX], i32::MAX);
    assert_eq!((spans[0].left, spans[0].right, spans[1].left), (14, i32::MAX, i32::MAX));
    assert_eq!(marquee_segment(90, 0, 10), None);
    assert_eq!(marquee_segment(i32::MIN, i32::MAX, 0), None);
}

#[test]
fn the_panel_header_is_laid_out() {
    let b = panel_view_buttons();
    assert_eq!((b[0].left, b[1].left, b[2].right), (10, 53, 134));
    assert_eq!(view_hit(60, 10, SideView::TopFiles), Some(SideView::OldestFiles));
    assert_eq!(view_hit(60, 10, SideView::OldestFiles), None);
    assert_eq!(view_hit(50, 10, SideView::Hidden), None);
    assert_eq!(header_buttons_left_x(SideView::TopFiles, 420), 340);
    assert_eq!(header_buttons_left_x(SideView::TempFiles, 420), 234);
    assert_eq!(title_rect(SideView::TempFiles, 420).right, 228);
    assert_eq!(title_rect(SideView::TempFiles, 100).right, 148);
    let l = panel_layout(420, 600, SideView::TempFiles);
    assert_eq!(l.detach, Place { x: 340, y: 8, w: 74, h: 24 });
    assert_eq!(l.recycle, Some(Place { x: 234, y: 8, w: 100, h: 24 }));
    assert_eq!(l.list, Place { x: 0, y: 40, w: 420, h: 560 });
    assert!(panel_layout(420, 10, SideView::TopFiles).recycle.is_none());
    assert_eq!(path_column(SideView::TempFiles), 4);
    assert_eq!(path_column(SideView::TopFiles), 3);
    assert_eq!(side_columns(SideView::TempFiles).len(), 5);
    assert!(side_columns(SideView::Hidden).is_empty());
    assert_eq!(main_columns()[1].title, "% OF PARENT");
}

#[test]
fn the_panel_moves_and_changes() {
    let mut p = Panel { view: SideView::Hidden, detached: false };
    assert!(!p.is_in_window());
    assert!(p.apply_side_view(SideView::TopFiles));
    assert!(!p.apply_side_view(SideView::TopFiles));
    assert!(p.is_in_window());
    assert_eq!(p.toggle_detach(), "Attach");
    assert!(!p.is_in_window());
    assert_eq!(p.toggle_detach(), "Detach");
    assert_eq!(SideView::OldestFiles.title(), "Oldest files");
    assert_eq!(float_title(SideView::TopFiles), "ClutterCutter \u{2014} Top largest files");
}

#[test]
fn temp_texts() {
    let place = |s: TempSource| TempPlace { source: s, path: "x".into() };
    assert_eq!(
        temp_scan_text(&vec![place(TempSource::UserTemp), place(TempSource::EdgeCache)]),
        "Scanning temp locations: User Temp, Edge cache..."
    );
    assert_eq!(temp_scan_text(&vec![]), "No known temp locations found on this system.");
    let u = Units::default();
    assert_eq!(temp_done_text(None, &u), "Temp scan cancelled.");
    assert_eq!(
        temp_done_text(Some((1234, 2048)), &u),
        "1,234 temp files \u{2014} 2.00 KB reclaimable. Ctrl/Shift-click to multi-select, then Del to recycle."
    );
}

#[test]
fn commands_wait_for_the_scan() {
    assert_eq!(on_command(201, false, 0), Command::ScanAll);
    assert_eq!(on_command(201, true, 0), Command::Nothing);
    assert_eq!(on_command(200, true, 0), Command::Stop);
    assert_eq!(on_command(3002, false, 0), Command::Nothing);
    assert_eq!(on_command(1002, false, 3), Command::ScanDrive(2));
    assert_eq!(on_command(1003, false, 3), Command::Nothing);
    assert_eq!(on_command(1002, true, 3), Command::Nothing);
    assert_eq!(on_command(5102, true, 0), Command::Theme(ThemeMode::Light));
    assert_eq!(on_command(5304, true, 0), Command::Show(SideView::TempFiles));
    assert_eq!(on_command(4004, false, 0), Command::RecycleClicked);
    assert_eq!(on_command(7, false, 9), Command::Nothing);
    assert_eq!(accelerator(0x74), Some(3001));
    assert_eq!(accelerator(0x41), None);
    assert_eq!(view_menu_id(SideView::OldestFiles), 5303);
    assert_eq!(theme_menu_id(ThemeMode::Dark), 5103);
    assert_eq!(file_menu(true).len(), 3);
    assert_eq!(file_menu(false)[1].text, "Restart as &Administrator...");
    assert_eq!(view_menu().len(), 6);
    assert_eq!(theme_menu()[0].id, 5101);
}

#[test]
fn rescans_repeat_the_last_one() {
    let single = Some(ScanRequest::Single("C:\\".into(), true));
    assert_eq!(refresh(&single, SideView::TempFiles), Rescan::Single);
    assert_eq!(refresh(&Some(ScanRequest::AllDrives), SideView::Hidden), Rescan::AllDrives);
    assert_eq!(refresh(&None, SideView::TempFiles), Rescan::TempFiles);
    assert_eq!(refresh(&None, SideView::TopFiles), Rescan::Nothing);
    assert_eq!(on_recycle_done(Some(false), false, &single), Rescan::Single);
    assert_eq!(on_recycle_done(Some(true), false, &single), Rescan::Nothing);
    assert_eq!(on_recycle_done(Some(false), true, &single), Rescan::Nothing);
    assert_eq!(on_recycle_done(None, false, &single), Rescan::Nothing);
}

#[test]
fn columns_toggle_their_order() {
    let by = SortBy { col: 2, desc: true };
    assert_eq!(column_click(by, 2), Some(SortBy { col: 2, desc: false }));
    assert_eq!(column_click(by, 0), Some(SortBy { col: 0, desc: false }));
    assert_eq!(column_click(by, 6), Some(SortBy { col: 6, desc: true }));
    assert_eq!(column_click(by, 7), None);
    assert_eq!(column_click(by, -1), None);
    assert_eq!(action_target(true, true, CtxTarget::MainList), CtxTarget::SideList);
    assert_eq!(action_target(true, false, CtxTarget::SideList), CtxTarget::MainList);
    assert_eq!(action_target(false, true, CtxTarget::MainList), CtxTarget::MainList);
}

#[test]
fn cells_of_pending_drives_are_blank() {
    assert_eq!(cell_content(0, true), CellText::Name);
    assert_eq!(cell_content(1, true), CellText::Marquee);
    assert_eq!(cell_content(1, false), CellText::Share);
    assert_eq!(cell_content(2, true), CellText::Scanning);
    assert_eq!(cell_content(4, true), CellText::Blank);
    assert_eq!(cell_content(4, false), CellText::Files);
    assert_eq!(cell_content(6, false), CellText::Modified);
}

#[test]
fn folders_are_listed_by_name() {
    let child = |n: &str| FolderNode { name: n.into(), ..Default::default() };
    let root = FolderNode {
        children: vec![child("beta"), child("Alpha"), child("gamma")],
        ..Default::default()
    };
    let mut t = ScanTree::new(root);
    let got: Vec<(usize, usize)> =
        populate_children(&t.marks, &t.root, 0).iter().map(|c| (c.index, c.id)).collect();
    assert_eq!(got, vec![(1, 2), (0, 1), (2, 3)]);
    t.delete_folder_node(1);
    let got: Vec<usize> = populate_children(&t.marks, &t.root, 0).iter().map(|c| c.index).collect();
    assert_eq!(got, vec![1, 2]);
}

#[test]
fn visits_can_be_retraced() {
    let mut h = History::new();
    assert_eq!(h.nav_back(), None);
    assert_eq!(h.nav_forward(), None);
    h.visit(1);
    h.visit(2);
    h.visit(2);
    h.visit(3);
    assert_eq!(h.nav_back(), Some(2));
    assert_eq!(h.nav_back(), Some(1));
    assert_eq!(h.nav_back(), None);
    assert_eq!(h.nav_forward(), Some(2));
    h.visit(9);
    assert_eq!(h.nav_forward(), None);
    assert_eq!(h.items, vec![1, 2, 9]);
}

#[test]
fn settings_are_clicked() {
    let mut s: Settings = Settings::default();
    let page = settings_page(&s);
    assert_eq!(page.len(), 20);
    assert_eq!(page_hit(&page, 200, 90), Some(SettingsAction::Theme(ThemeMode::Auto)));
    assert_eq!(page_hit(&page, 435, 90), Some(SettingsAction::Theme(ThemeMode::Dark)));
    assert_eq!(page_hit(&page, 300, 130), Some(SettingsAction::Units(true)));
    assert_eq!(page_hit(&page, 380, 210), Some(SettingsAction::Side(DefaultPanel::Nothing)));
    assert_eq!(page_hit(&page, 30, 245), Some(SettingsAction::ToggleScan));
    assert_eq!(page_hit(&page, 30, 660), Some(SettingsAction::ToggleColumn(7)));
    assert_eq!(page_hit(&page, 30, 300), Some(SettingsAction::ToggleUpdates));
    assert_eq!(page_hit(&page, 30, 10), None);
    assert!(page[0].active && !page[1].active);
    assert!(apply_action(&mut s, SettingsAction::Theme(ThemeMode::Dark)));
    assert!(settings_page(&s)[2].active);
    assert!(apply_action(&mut s, SettingsAction::ToggleColumn(5)));
    assert!(!s.col_visible[5]);
    assert!(apply_action(&mut s, SettingsAction::ToggleColumn(5)));
    assert!(s.col_visible[5]);
    assert!(!apply_action(&mut s, SettingsAction::ToggleColumn(0)));
    assert!(!apply_action(&mut s, SettingsAction::ToggleColumn(3)));
    assert!(!apply_action(&mut s, SettingsAction::ToggleColumn(8)));
    assert!(apply_action(&mut s, SettingsAction::ToggleColumn(7)));
    assert!(!s.col_visible[7]);
    assert!(apply_action(&mut s, SettingsAction::Units(false)) && !s.units_binary);
    assert!(apply_action(&mut s, SettingsAction::ToggleConfirm) && !s.confirm_recycle);
}

#[test]
fn tooltips_stay_in_the_window() {
    assert_eq!(info_hit(180, 495), Some(0));
    assert_eq!(info_hit(180, 655), Some(5));
    assert_eq!(info_hit(180, 521), None);
    assert_eq!(info_hit(300, 495), None);
    assert!(column_description(2).starts_with("Size of the files directly"));
    let r = tooltip_rect(&Rect { left: 176, top: 492, right: 200, bottom: 520 }, 200, 40);
    assert_eq!(r, Rect { left: 206, top: 488, right: 422, bottom: 544 });
    let r = tooltip_rect(&Rect { left: 176, top: 740, right: 200, bottom: 768 }, 200, 40);
    assert_eq!(r.bottom, 738);
    let r = tooltip_rect(&Rect { left: 0, top: 0, right: 0, bottom: 0 }, 10, 10);
    assert_eq!(r.top, 8);
}

#[test]
fn colours_follow_the_theme() {
    assert_eq!(palette(true).blue, 0x00F5_824C);
    assert_eq!(palette(false).card_bg, 0x00FF_FFFF);
    assert!(is_dark(ThemeMode::Auto, false) && !is_dark(ThemeMode::Auto, true));
    assert!(is_dark(ThemeMode::Dark, true) && !is_dark(ThemeMode::Light, false));
    let p = palette(false);
    assert_eq!(button_colours(&p, 7, true, true, false).fill, 0x00C0_5A24);
    assert_eq!(button_colours(&p, 7, true, false, true).fill, 7);
    assert_eq!(button_colours(&p, 7, false, true, false).border, p.blue);
    assert_eq!(button_colours(&p, 7, false, false, false).fill, p.card_bg);
}

#[test]
fn drives_are_labelled() {
    let u = Units::default();
    let mut d = DriveCard {
        letter: 'C',
        root: "C:\\".into(),
        label: String::new(),
        total_bytes: 4096,
        free_bytes: 1024,
        is_ntfs: true,
    };
    assert_eq!(d.button_label(&u), "C:\\  (no label)\n3.00 KB / 4.00 KB");
    assert_eq!(d.card_title(), "C:");
    assert_eq!(d.usage(), (3072, 4096));
    assert!(d.uses_mft(true) && !d.uses_mft(false));
    d.label = "Data".into();
    d.total_bytes = 0;
    assert_eq!(d.card_title(), "C: \u{2014} Data");
    assert_eq!(d.usage(), (0, 1));
    assert_eq!(usage_text(3072, 4096, "75", &u), "3.00 KB / 4.00 KB  \u{b7}  75%");
    assert_eq!(drive_button_x(2), 470);
    assert!(ready_text(true).contains("Administrator"));
}

#[test]
fn status_texts_have_two_parts() {
    assert_eq!(status_parts("done\tSize: 1"), ("done".into(), "Size: 1".into()));
    assert_eq!(status_parts("only"), ("only".into(), String::new()));
    assert_eq!(status_parts("\tx\ty"), (String::new(), "x\ty".into()));
}

#[test]
fn recycled_paths_are_listed() {
    assert_eq!(
        wide_list(&vec!["a".into(), "bc".into()]),
        vec![97, 0, 98, 99, 0, 0]
    );
    assert_eq!(wide_list(&vec![]), vec![0]);
}
