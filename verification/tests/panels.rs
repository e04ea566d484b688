use cluttercutter::commands::{accelerator, on_command, Command};
use cluttercutter::format::{format_local, Units};
use cluttercutter::panel::{is_current, temp_rows, SideView};
use cluttercutter::path::{join_as, join_path, split_path, PathStyle};
use cluttercutter::temp::{TempFileEntry, TempSource};
use cluttercutter::toolbar::usage_text;
use cluttercutter::treemap::drawn_order;
use cluttercutter::update::{banner_text, startup_offer};
use cluttercutter::walk::WalkScanner;
use cluttercutter::wrap::wrapped;

#[test]
fn only_positive_sizes_are_drawn_the_largest_first() {
    assert_eq!(drawn_order(&vec![1, 0, 9, -5, 4]), vec![2, 4, 0]);
    assert_eq!(drawn_order(&vec![7, 9, 7]), vec![1, 0, 2]);
    assert_eq!(drawn_order(&vec![0, -5, 0]), Vec::<usize>::new());
    assert_eq!(drawn_order(&vec![]), Vec::<usize>::new());
}

#[test]
fn paths_come_apart_where_they_were_joined() {
    for (dir, leaf) in [
        (r"C:\Users\me", "a.txt"),
        (r"C:\", "pagefile.sys"),
        (r"\\srv\share\", "f"),
        (r"\\srv\share\deep", "f"),
        (r"\\?\C:\", "f"),
    ] {
        let parts = split_path(&join_path(dir, leaf));
        assert_eq!(parts, (dir.to_string(), leaf.to_string()));
    }
    let split = |p: &str| {
        let (folder, name) = split_path(p);
        format!("{folder}|{name}")
    };
    assert_eq!(split("alone"), "|alone");
    assert_eq!(split(r"C:\a\b\"), r"C:\a|b");
    assert_eq!(split(r"C:\a/b"), r"C:\a|b");
    assert_eq!(split("C:x"), "C:|x");
    assert_eq!(split(r"\x"), r"\|x");
    assert_eq!(split(r"C:\"), r"|C:\");
}

#[test]
fn windows_paths_are_joined_by_one_separator() {
    let join = |dir: &str, leaf: &str| join_as(PathStyle::WindowsPath, dir, leaf);
    assert_eq!(join(r"C:\Temp", "x"), r"C:\Temp\x");
    assert_eq!(join(r"C:\", "x"), r"C:\x");
    assert_eq!(join("C:/t/", "x"), "C:/t/x");
    assert_eq!(join("C:", "x"), "C:x");
    assert_eq!(join("", "x"), "x");
    assert_eq!(join(r"\\srv\d", "x"), r"\\srv\d\x");
}

#[test]
fn temp_rows_show_name_and_folder() {
    let files = vec![TempFileEntry {
        full_path: r"C:\Temp\old\cache.bin".to_string(),
        size: 1536,
        last_modified_ft: 7,
        source: TempSource::EdgeCache,
    }];
    let rows = temp_rows(&files, &Units::default());
    assert_eq!(rows.len(), 1);
    assert_eq!(rows[0].name, "cache.bin");
    assert_eq!(rows[0].folder, r"C:\Temp\old");
    assert_eq!(rows[0].size_text, "1.50 KB");
    assert_eq!(rows[0].modified_ft, 7);
    assert_eq!(rows[0].source.label(), "Edge cache");
}

#[test]
fn a_newer_release_is_offered_once() {
    let offer = |tag, seen| startup_offer(tag, "1.2.0", seen);
    assert_eq!(offer(Some("v1.3.0"), ""), Some("1.3.0".to_string()));
    assert_eq!(offer(Some("v1.3.0"), "1.3.0"), None);
    assert_eq!(offer(Some("v1.4.0"), "1.3.0"), Some("1.4.0".to_string()));
    assert_eq!(offer(Some("v1.2.0"), ""), None);
    assert_eq!(offer(None, ""), None);
}

#[test]
fn side_rows_are_made_once_for_a_tree() {
    assert!(is_current(Some((SideView::TopFiles, 4)), SideView::TopFiles, 4));
    assert!(!is_current(Some((SideView::TopFiles, 4)), SideView::OldestFiles, 4));
    assert!(!is_current(Some((SideView::TopFiles, 3)), SideView::TopFiles, 4));
    assert!(!is_current(None, SideView::TopFiles, 4));
}

#[test]
fn unknown_times_are_not_shown() {
    let noon = Some((2026, 1, 2, 12, 0));
    assert_eq!(format_local(5, noon), "2026-01-02 12:00");
    assert_eq!(format_local(0, noon), "");
    assert_eq!(format_local(5, None), "");
}

#[test]
fn the_banner_names_the_release() {
    assert_eq!(
        banner_text("1.2.3"),
        "ClutterCutter 1.2.3 is available  \u{2014}  winget upgrade StruisICT.ClutterCutter"
    );
}

#[test]
fn unsigned_sizes_wrap() {
    assert_eq!(wrapped(0), 0);
    assert_eq!(wrapped(i64::MAX as u64), i64::MAX);
    assert_eq!(wrapped(1 << 63), i64::MIN);
    assert_eq!(wrapped(u64::MAX), -1);
    assert_eq!(usage_text(0, 0, "0", &Units::default()), "0 B / 0 B  \u{b7}  0%");
}

#[test]
fn keys_do_what_they_are_for() {
    let done = |key: u16, scanning: bool| accelerator(key).map(|id| on_command(id, scanning, 2));
    assert_eq!(done(0x74, false), Some(Command::Refresh));
    assert_eq!(done(0x74, true), Some(Command::Nothing));
    assert_eq!(done(0x1B, true), Some(Command::Stop));
    assert_eq!(done(0x1B, false), Some(Command::Nothing));
    assert_eq!(done(0x08, false), Some(Command::Parent));
    assert_eq!(done(0x0D, false), Some(Command::Drill));
    assert_eq!(done(0x2E, false), Some(Command::RecycleFocused));
    assert_eq!(done(0x41, false), None);
}

#[test]
fn a_walk_goes_by_the_style_that_was_set() {
    assert_eq!(WalkScanner::new().rules().style, PathStyle::Unix);
    let w = WalkScanner::new().with_style(PathStyle::Windows).with_track_files(true);
    assert_eq!(w.rules().style, PathStyle::Windows);
    assert!(w.rules().track_files);
}
