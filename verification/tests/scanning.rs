use cluttercutter::fanout::{adopt_all, fan_out, is_shared_out, worker_count};
use cluttercutter::format::Units;
use cluttercutter::listing::{
    item_from_find, kind_from_file_type, open_folder, DirItem, ItemKind, Listing, Subfolder,
};
use cluttercutter::path::PathStyle;
use cluttercutter::progress::Percent;
use cluttercutter::scan_all::{
    first_attempt, progress_text, scan_done_text, scan_one, scanning_drives_text, scanning_text,
    sort_targets, Attempt, DriveResult, ScanAll, ScanTarget,
};
use cluttercutter::scanner::Scanner;
use cluttercutter::settings::{load, save, DefaultPanel, Settings, ThemeMode};
use cluttercutter::types::FolderNode;
use cluttercutter::utf16::wide;
use cluttercutter::walk::{Walk, WalkScanner};
use cluttercutter::window_state::{load_sort, load_window_size, save_sort, save_window_size};
use std::collections::HashMap;
use std::sync::atomic::{AtomicBool, Ordering};
use std::sync::Arc;

fn item(name: &str, kind: ItemKind, size: i64) -> DirItem {
    DirItem { name: name.into(), kind, size, last_modified_ft: 1 }
}

// A disk held in memory: the listing of every folder that is there.
fn run(walk: Walk, disk: &HashMap<&str, Vec<(&str, ItemKind, i64)>>) -> FolderNode {
    let mut walk = walk;
    loop {
        let listing = match walk.wanted() {
            None => break,
            Some(path) => match disk.get(path) {
                None => Listing::Missing,
                Some(items) => {
                    Listing::Items(items.iter().map(|(n, k, s)| item(n, *k, *s)).collect())
                }
            },
        };
        walk.listed(&listing);
    }
    walk.finish(false).expect("a finished walk")
}

#[test]
fn scan_of_missing_path_is_empty_not_error() {
    let disk: HashMap<&str, Vec<(&str, ItemKind, i64)>> = HashMap::new();
    let walk = Scanner::new().scan(r"Z:\definitely\not\here\cc_missing");
    assert_eq!(walk.wanted(), Some(r"Z:\definitely\not\here\cc_missing"));
    let root = run(walk, &disk);
    assert_eq!(root.size, 0);
    assert_eq!(root.file_count, 0);
}

#[test]
fn scan_counts_sizes_files_and_folders() {
    let mut disk = HashMap::new();
    disk.insert(
        r"C:\base",
        vec![
            ("a.txt", ItemKind::File, 5),
            ("sub", ItemKind::Folder, 0),
            ("b.txt", ItemKind::File, 10),
            ("link", ItemKind::Other, 1000),
        ],
    );
    disk.insert(r"C:\base\sub", vec![("c.bin", ItemKind::File, 3)]);
    let root = run(Scanner::new().with_track_files(true).scan(r"C:\base\"), &disk);
    assert_eq!(root.size, 18, "total bytes across the tree");
    assert_eq!(root.file_count, 3, "all files counted recursively");
    assert_eq!(root.direct_file_count, 2, "only the 2 files in the root");
    assert_eq!(root.folder_count, 1, "one subdirectory");
    let mut names: Vec<&str> = root.files.iter().map(|f| f.name.as_str()).collect();
    names.sort();
    assert_eq!(names, vec!["a.txt", "b.txt"]);
    assert_eq!(root.children[0].name, "sub");
    assert_eq!(root.children[0].full_path, r"C:\base\sub");
}

#[test]
fn scans_a_temp_tree() {
    let mut disk = HashMap::new();
    disk.insert("/t", vec![("a.bin", ItemKind::File, 100), ("sub", ItemKind::Folder, 0)]);
    disk.insert("/t/sub", vec![("b.bin", ItemKind::File, 250)]);
    let root = run(WalkScanner::new().with_track_files(true).scan(" /t "), &disk);
    assert_eq!(root.size, 350);
    assert_eq!(root.own_size, 100);
    assert_eq!(root.file_count, 2);
    assert_eq!(root.direct_file_count, 1);
    assert_eq!(root.folder_count, 1);
    assert_eq!(root.children.len(), 1);
    assert_eq!(root.children[0].size, 250);
}

#[test]
fn deep_and_wide_trees_keep_their_order() {
    let mut disk = HashMap::new();
    disk.insert("/", vec![("b", ItemKind::Folder, 0), ("a", ItemKind::Folder, 0)]);
    disk.insert("/b", vec![("x", ItemKind::Folder, 0), ("y", ItemKind::Folder, 0)]);
    disk.insert("/b/x", vec![("f", ItemKind::File, 1)]);
    disk.insert("/b/y", vec![("g", ItemKind::File, 2)]);
    disk.insert("/a", vec![("h", ItemKind::File, 4)]);
    let root = run(WalkScanner::new().scan("/"), &disk);
    let names: Vec<&str> = root.children.iter().map(|c| c.name.as_str()).collect();
    assert_eq!(names, vec!["b", "a"]);
    assert_eq!((root.size, root.file_count, root.folder_count), (7, 3, 4));
    assert_eq!(root.children[0].children[1].full_path, "/b/y");
    assert!(root.files.is_empty());
}

#[test]
fn scan_parallel_fanout_aggregates_all_children() {
    let subs: Vec<Subfolder> = ["one", "two", "three", "four"]
        .iter()
        .map(|d| Subfolder { path: format!(r"C:\p\{d}"), name: d.to_string() })
        .collect();
    assert!(is_shared_out(2, subs.len()) && !is_shared_out(0, 4) && !is_shared_out(2, 1));
    assert_eq!(worker_count(3, subs.len()), 3);
    assert_eq!(worker_count(0, 4), 1);
    assert_eq!(worker_count(64, 4), 4);
    let buckets = fan_out(subs, 3);
    let dealt: Vec<Vec<&str>> = buckets
        .iter()
        .map(|b| b.iter().map(|s| s.name.as_str()).collect())
        .collect();
    assert_eq!(dealt, vec![vec!["one", "four"], vec!["two"], vec!["three"]]);
    let mut root = FolderNode { full_path: r"C:\p".into(), ..Default::default() };
    for bucket in buckets {
        let mut done = Vec::new();
        for s in bucket {
            let rules = Scanner::new().with_parallelism(2).rules();
            let mut w = Walk::start(rules, s);
            w.listed(&Listing::Items(vec![item("f.bin", ItemKind::File, 100)]));
            done.push(w.finish(false).expect("done"));
        }
        adopt_all(&mut root, done);
    }
    assert_eq!(root.size, 400, "4 dirs of 100 bytes");
    assert_eq!(root.file_count, 4);
    assert_eq!(root.folder_count, 4);
    assert_eq!(root.children.len(), 4);
}

#[test]
fn scan_reports_progress() {
    let s = Scanner::new().with_progress();
    let mut disk = HashMap::new();
    disk.insert(r"C:\prog", vec![("a", ItemKind::File, 5)]);
    let root = run(s.scan(r"C:\prog"), &disk);
    assert_eq!(root.size, 5);
    let p = s.report_progress(r"C:\x", 100, 20, 50, 3).expect("a report is due");
    assert_eq!((p.total_size, p.files_scanned, p.current_path.as_str()), (50, 3, r"C:\x"));
    assert_eq!(p.percent, Percent::Unknown);
    assert!(s.report_progress("", 99, 20, 50, 3).is_none());
    assert!(Scanner::new().report_progress("", 1000, 20, 50, 3).is_none());
    let w = WalkScanner::new().with_progress().with_size_hint(200);
    let p = w.report_progress("", 80, 0, 50, 3).expect("a report is due");
    assert_eq!(p.percent, Percent::Of { num: 5000, den: 200 });
    let p = w.report_progress("", 80, 0, 500, 3).expect("a report is due");
    assert_eq!(p.percent, Percent::Of { num: 199, den: 2 });
    let p = w.report_progress("", 80, 0, -5, 3).expect("a report is due");
    assert_eq!(p.percent, Percent::Of { num: 0, den: 1 });
}

#[test]
fn the_expected_size_is_what_was_set() {
    assert_eq!(WalkScanner::new().total_size_hint, 0);
    assert_eq!(WalkScanner::new().with_size_hint(200).with_progress().total_size_hint, 200);
    assert_eq!(Scanner::default().with_track_files(true).total_size_hint, 0);
}

#[test]
fn drives_wait_by_their_number() {
    let drive = |p: &str| ScanTarget { path: p.into(), use_mft: false };
    let targets = vec![drive(r"C:\"), drive(r"D:\"), drive(r"E:\")];
    let mut all = ScanAll::start_scan_all(&targets).expect("drives to scan");
    let waiting = |a: &ScanAll| (0..8).filter(|&n| a.is_drive_pending(n)).collect::<Vec<usize>>();
    assert_eq!(waiting(&all), vec![1, 2, 3]);
    // The first drive brings two folders of its own, so the others move on.
    let folder = |name: &str| FolderNode { name: name.into(), ..Default::default() };
    let done = FolderNode {
        name: r"C:\".into(),
        full_path: r"C:\".into(),
        children: vec![folder("D:"), folder(r"D:\")],
        ..Default::default()
    };
    all.on_drive_done(vec![DriveResult { path: r"C:\".into(), result: Ok(done) }]);
    assert_eq!(waiting(&all), vec![4, 5]);
    all.on_drive_done(vec![DriveResult { path: r"E:\".into(), result: Err("gone".into()) }]);
    assert_eq!(waiting(&all), vec![4]);
    assert!(!all.is_drive_pending(usize::MAX));
}

#[test]
fn cancelling_gives_an_error() {
    let flag = Arc::new(AtomicBool::new(false));
    let s = WalkScanner::new().with_cancel(flag.clone());
    let mut w = s.scan("/x");
    w.listed(&Listing::Missing);
    flag.store(true, Ordering::Relaxed);
    assert!(s.is_cancelled());
    assert_eq!(w.finish(s.is_cancelled()).err(), Some("cancelled"));
    // A walk that is not at its end gives no tree either.
    assert!(s.scan("/x").finish(false).is_err());
}

#[test]
fn denied_folders_are_marked() {
    let spot = Subfolder { path: "/secret".into(), name: "secret".into() };
    let (node, subs) = open_folder(PathStyle::Unix, spot, &Listing::Denied, true);
    assert!(node.is_access_denied && subs.is_empty());
    let spot = Subfolder { path: "/gone".into(), name: "gone".into() };
    let (node, _) = open_folder(PathStyle::Unix, spot, &Listing::Missing, true);
    assert!(!node.is_access_denied);
    assert_eq!(node.name, "gone");
}

#[test]
fn windows_entries_are_classified() {
    assert!(item_from_find(&wide("."), 0x10, 0, 0, 0, 0).is_none());
    assert!(item_from_find(&wide(".."), 0x10, 0, 0, 0, 0).is_none());
    let f = item_from_find(&wide("f"), 0x420, 1, 2, 3, 4).expect("a file");
    assert_eq!((f.kind, f.size), (ItemKind::File, (1i64 << 32) | 2));
    assert_eq!(f.last_modified_ft, (3i64 << 32) | 4);
    let d = item_from_find(&wide("d"), 0x10, 0, 0, 0, 0).expect("a folder");
    assert_eq!(d.kind, ItemKind::Folder);
    let j = item_from_find(&wide("j"), 0x410, 0, 0, 0, 0).expect("a junction");
    assert_eq!(j.kind, ItemKind::Other);
    let n = item_from_find(&wide("n"), 0, u32::MAX, u32::MAX, 0, 0).expect("a file");
    assert_eq!(n.size, -1);
    assert_eq!(kind_from_file_type(true, true, false), ItemKind::Other);
    assert_eq!(kind_from_file_type(false, true, false), ItemKind::Folder);
    assert_eq!(kind_from_file_type(false, false, true), ItemKind::File);
    assert_eq!(kind_from_file_type(false, false, false), ItemKind::Other);
}

#[test]
fn the_walker_takes_over_from_the_table() {
    assert_eq!(first_attempt(true), Attempt::Mft);
    assert_eq!(first_attempt(false), Attempt::Walker);
    assert_eq!(scan_one(Attempt::Mft, false), Some(Attempt::Walker));
    assert_eq!(scan_one(Attempt::Mft, true), None);
    assert_eq!(scan_one(Attempt::Walker, false), None);
}

fn drive(path: &str, size: i64) -> FolderNode {
    FolderNode {
        full_path: path.into(),
        name: path.into(),
        size,
        file_count: 2,
        folder_count: 3,
        ..Default::default()
    }
}

#[test]
fn all_drives_fill_in_one_by_one() {
    let target = |p: &str| ScanTarget { path: p.into(), use_mft: false };
    let targets = sort_targets(vec![target(r"D:\"), target(r"C:\")]);
    assert_eq!(targets[0].path, r"C:\");
    let u = Units::default();
    let mut all = ScanAll::start_scan_all(&targets).expect("two drives");
    assert_eq!(all.root.name, "All drives");
    let failed = DriveResult { path: r"C:\".into(), result: Err(r"C:\: cancelled".into()) };
    assert!(!all.on_drive_done(vec![failed]));
    assert_eq!(all.pending, vec![false, true]);
    assert_eq!(all.root.folder_count, 2);
    assert_eq!(all.so_far(&u), "Scanned 1/2 drives \u{2014} 0 B (0 files) so far...");
    let done = DriveResult { path: r"D:\".into(), result: Ok(drive(r"D:\", 50)) };
    assert!(all.on_drive_done(vec![done]));
    assert_eq!((all.root.size, all.root.file_count, all.root.folder_count), (50, 2, 5));
    assert_eq!(
        all.finish_scan_all("  \u{b7}  1.0s", &u),
        "All drives scanned  [some skipped: C:\\: cancelled]\tSize: 50 B  \u{b7}  Files: 2  \u{b7}  Folders: 5  \u{b7}  1.0s"
    );
    assert!(ScanAll::start_scan_all(&vec![]).is_none());
}

#[test]
fn scan_texts() {
    let u = Units::default();
    assert_eq!(scanning_text(r"C:\", true), r"Scanning C:\ (MFT)...");
    assert_eq!(scanning_drives_text(3), "Scanning 3 drives...");
    assert_eq!(scan_done_text(&Err("x".into()), "", &u), "Scan failed: x");
    assert_eq!(
        scan_done_text(&Ok(drive(r"D:\", 2048)), "  \u{b7}  2.5s", &u),
        "D:\\ scanned\tSize: 2.00 KB  \u{b7}  Files: 2  \u{b7}  Folders: 3  \u{b7}  2.5s"
    );
    assert_eq!(
        progress_text(1234, 1024, Some("12.5"), "p", &u),
        "Scanning... 1,234 files, 1.00 KB (12.5%)"
    );
    assert_eq!(progress_text(1, 1, None, "p", &u), "Scanning... 1 files, 1 B  p");
}

#[test]
fn settings_survive_a_restart() {
    let mut s: Settings = load(None);
    assert_eq!(s.theme, ThemeMode::Auto);
    assert!(s.units_binary && s.confirm_recycle && !s.show_system_files);
    s.theme = ThemeMode::Dark;
    s.units_binary = false;
    s.default_side = DefaultPanel::SystemCleanup;
    s.scan_on_launch = false;
    s.show_system_files = true;
    s.col_visible[5] = false;
    s.last_update_seen = "1.2=3".into();
    let text = save(&s);
    assert_eq!(
        text,
        "theme=dark\nunits=decimal\nside=system\nscan_on_launch=0\ncheck_updates_on_launch=1\nconfirm_recycle=1\nshow_sidebar=1\nshow_system=1\ncols=11111011\nlast_update_seen=1.2=3\n"
    );
    let r = load(Some(&text));
    assert_eq!(save(&r), text);
    assert_eq!(r.default_side, DefaultPanel::SystemCleanup);
    assert_eq!(r.last_update_seen, "1.2=3");
}

#[test]
fn garbled_settings_fall_back() {
    let s = load(Some("theme = light \r\nside=what\ncols=00000000\nnonsense\nshow_system=yes\nunits=\n"));
    assert_eq!(s.theme, ThemeMode::Light);
    assert_eq!(s.default_side, DefaultPanel::TopFiles);
    assert_eq!(load(Some("side=none\n")).default_side, DefaultPanel::Nothing);
    assert_eq!(save(&load(Some("side=bogus\n"))), save(&Settings::default()));
    assert_eq!(s.col_visible, vec![true, false, false, true, false, false, false, false]);
    assert!(!s.show_system_files && s.units_binary);
    let s = load(Some("cols=000\ntheme=blue"));
    assert_eq!(s.col_visible, vec![true; 8]);
    assert_eq!(s.theme, ThemeMode::Auto);
}

#[test]
fn window_and_order_survive_a_restart() {
    assert_eq!(load_window_size(None), (1700, 900));
    assert_eq!(load_window_size(Some("1000 800")), (1000, 800));
    assert_eq!(load_window_size(Some("x 30000")), (1700, 20000));
    assert_eq!(load_window_size(Some("-5")), (700, 900));
    assert_eq!(save_window_size(1000, 800).as_deref(), Some("1000 800"));
    assert_eq!(save_window_size(199, 800), None);
    assert_eq!(load_sort(None), (0, false));
    assert_eq!(load_sort(Some("3 1")), (3, true));
    assert_eq!(load_sort(Some("9 yes")), (6, false));
    assert_eq!(load_sort(Some(&save_sort(5, true))), (5, true));
    assert_eq!(save_sort(2, false), "2 0");
}

#[test]
fn sharing_a_scan_out_changes_no_total() {
    let mut disk = HashMap::new();
    disk.insert(
        "/r",
        vec![
            ("a", ItemKind::Folder, 0),
            ("b", ItemKind::Folder, 0),
            ("c", ItemKind::Folder, 0),
            ("f", ItemKind::File, 7),
        ],
    );
    disk.insert("/r/a", vec![("x", ItemKind::File, 1), ("d", ItemKind::Folder, 0)]);
    disk.insert("/r/a/d", vec![("y", ItemKind::File, 2)]);
    disk.insert("/r/b", vec![("z", ItemKind::File, 4)]);
    let scanner = WalkScanner::new();
    let alone = run(scanner.scan("/r"), &disk);
    for workers in 1..=3 {
        let top = Subfolder { path: "/r".into(), name: "/r".into() };
        let items = disk["/r"].iter().map(|(n, k, s)| item(n, *k, *s)).collect();
        let rules = scanner.rules();
        let (mut root, subs) = open_folder(rules.style, top, &Listing::Items(items), false);
        let mut trees = Vec::new();
        for share in fan_out(subs, workers) {
            for s in share {
                trees.push(run(Walk::start(rules, s), &disk));
            }
        }
        adopt_all(&mut root, trees);
        assert_eq!(root.size, alone.size);
        assert_eq!(root.own_size, alone.own_size);
        assert_eq!(root.file_count, alone.file_count);
        assert_eq!(root.folder_count, alone.folder_count);
        assert_eq!((root.size, root.file_count, root.folder_count), (14, 4, 4));
    }
}

#[test]
fn a_walk_lists_every_folder_once_and_ends() {
    let mut disk = HashMap::new();
    disk.insert("/r", vec![("a", ItemKind::Folder, 0), ("b", ItemKind::Folder, 0)]);
    disk.insert("/r/a", vec![("d", ItemKind::Folder, 0), ("x", ItemKind::File, 1)]);
    disk.insert("/r/a/d", vec![("y", ItemKind::File, 2)]);
    disk.insert("/r/b", vec![("z", ItemKind::File, 4)]);
    let mut walk = WalkScanner::new().scan("/r");
    let mut seen = Vec::new();
    while let Some(path) = walk.wanted().map(str::to_string) {
        let items = disk[path.as_str()].iter().map(|(n, k, s)| item(n, *k, *s)).collect();
        walk.listed(&Listing::Items(items));
        seen.push(path);
    }
    assert_eq!(seen, vec!["/r", "/r/a", "/r/a/d", "/r/b"]);
    let root = walk.finish(false).expect("a finished walk");
    assert_eq!((root.size, root.folder_count as usize + 1), (7, seen.len()));
}
