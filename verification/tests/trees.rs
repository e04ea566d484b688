use cluttercutter::analysis::{oldest_n_files, top_n_files};
use cluttercutter::browse::{
    children_by_size, crumbs, files_by_size, heading, node_at, shot_step, status_line, typed_path,
    Browser, NavAction, Navigator, Pane, ShotStep,
};
use cluttercutter::cli::{
    dated_line, full_path, parse_args, progress_line, reclaimable, size_line, summary_line, usage,
};
use cluttercutter::drives::{
    drives_of_mask, is_scannable_type, list_drives, mount_points, volume_space, DriveInfo, MountPoint,
};
use cluttercutter::format::Units;
use cluttercutter::numbering::{
    checked_count, collect_folder_ids, count_folders, find_node_path, node_numbered, subtract_along_ancestors,
};
use cluttercutter::path::PathStyle;
use cluttercutter::recycle::{delete_prompt, folder_summary, plan_deletion, side_rows, ScanTree};
use cluttercutter::rows::{build_list_rows, BuiltRow, FileRef, Marks, RowTarget, SortBy};
use cluttercutter::search::{collect_search, name_matches, search, search_terms};
use cluttercutter::sort::{order_by_number, sorted_order, SortKey};
use cluttercutter::temp::{
    candidate_places, collect, discover_locations, scan_locations, LocationScan, TempEnv, TempPlace,
    TempSource,
};
use cluttercutter::tempscan::{candidate_roots, temp_locations, CacheEnv, Platform};
use cluttercutter::types::{FileEntry, FolderNode};
use cluttercutter::update::{check_now, is_newer, tag_from_location};

// Builds root{ a{ a1{} }, b{} } with known sizes/counts.
fn sample_tree() -> FolderNode {
    let file = |sz: i64| FileEntry {
        name: "f".into(),
        size: sz,
        last_modified_ft: 0,
    };
    let mut a1 = FolderNode {
        name: "a1".into(),
        full_path: r"C:\a\a1".into(),
        size: 30,
        file_count: 3,
        folder_count: 0,
        files: vec![file(10), file(10), file(10)],
        ..Default::default()
    };
    a1.direct_file_count = 3;
    let a = FolderNode {
        name: "a".into(),
        full_path: r"C:\a".into(),
        size: 30,
        file_count: 3,
        folder_count: 1, // a1
        children: vec![a1],
        ..Default::default()
    };
    let b = FolderNode {
        name: "b".into(),
        full_path: r"C:\b".into(),
        size: 5,
        file_count: 1,
        folder_count: 0,
        files: vec![file(5)],
        direct_file_count: 1,
        ..Default::default()
    };
    FolderNode {
        name: r"C:\".into(),
        full_path: r"C:\".into(),
        size: 35,
        file_count: 4,
        folder_count: 2, // a, b (a1 is under a)
        children: vec![a, b],
        ..Default::default()
    }
}

// Deleting folder `a` (size 30, 3 files, 2 folders incl. itself) must
// subtract exactly that from the root, leaving b's contribution.
#[test]
fn delete_folder_updates_ancestor_totals() {
    let mut root = sample_tree();
    // a contributes: size 30, files 3, folders (a.folder_count + 1) = 2.
    subtract_along_ancestors(&mut root, 1, (30, 3, 2), false);
    assert_eq!(root.size, 5, "root size after deleting a");
    assert_eq!(root.file_count, 1, "root files after deleting a");
    assert_eq!(root.folder_count, 0, "root folders after deleting a");
    // a itself is untouched (it's tombstoned, not mutated).
    assert_eq!(root.children[0].size, 30);
}

// Deleting a file decrements the containing folder and every ancestor.
#[test]
fn delete_file_updates_folder_and_ancestors() {
    let mut root = sample_tree();
    // Remove one 10-byte file from a1: size 10, 1 file, 0 folders, self too.
    subtract_along_ancestors(&mut root, 2, (10, 1, 0), true);
    assert_eq!(root.children[0].children[0].size, 20); // a1
    assert_eq!(root.children[0].children[0].file_count, 2);
    assert_eq!(root.children[0].size, 20); // a
    assert_eq!(root.size, 25); // root
    assert_eq!(root.file_count, 3);
}

// Tombstoning a subtree must collect the folder itself and all descendants.
#[test]
fn collect_folder_ptrs_covers_whole_subtree() {
    let root = sample_tree();
    let a = &root.children[0];
    let mut ids = Vec::new();
    collect_folder_ids(a, 1, &mut ids);
    // a + a1 = 2 folders.
    assert_eq!(ids.len(), 2);
    assert!(ids.contains(&1));
    assert!(ids.contains(&2));
}

// find_node_path returns root..=target; a missing target returns false.
#[test]
fn find_node_path_locates_and_rejects() {
    let root = sample_tree();
    let a1 = 2;
    let mut path = Vec::new();
    assert!(find_node_path(&root, a1, &mut path));
    assert_eq!(path.len(), 3); // root, a, a1
    let mut none = Vec::new();
    assert!(!find_node_path(&root, usize::MAX, &mut none));
    assert_eq!(path, vec![0, 1, 2]);
    assert!(none.is_empty());
}

#[test]
fn folders_are_numbered_from_the_top() {
    let root = sample_tree();
    assert_eq!(count_folders(&root), 4);
    assert_eq!(checked_count(&root), Some(4));
    let names: Vec<&str> = (0..4)
        .map(|i| node_numbered(&root, i).map(|n| n.name.as_str()).unwrap_or("?"))
        .collect();
    assert_eq!(names, vec![r"C:\", "a", "a1", "b"]);
    assert!(node_numbered(&root, 4).is_none());
}

fn file(name: &str, size: i64, ft: i64) -> FileEntry {
    FileEntry { name: name.into(), size, last_modified_ft: ft }
}

fn forest() -> FolderNode {
    let inner = FolderNode {
        full_path: "/r/x".into(),
        name: "x".into(),
        size: 9,
        files: vec![file("old", 2, 10), file("big", 7, 0)],
        ..Default::default()
    };
    FolderNode {
        full_path: "/r".into(),
        name: "/r".into(),
        size: 14,
        files: vec![file("new", 4, 99), file("tiny", 1, 50)],
        children: vec![inner],
        ..Default::default()
    }
}

#[test]
fn largest_files_first() {
    let root = forest();
    let names = |n: usize| -> Vec<String> {
        top_n_files(&root, n).iter().map(|h| h.file.name.clone()).collect()
    };
    assert_eq!(names(2), vec!["big", "new"]);
    assert_eq!(names(10), vec!["big", "new", "old", "tiny"]);
    assert!(names(0).is_empty());
    let hit = top_n_files(&root, 1)[0];
    assert_eq!((hit.folder_id, hit.file_index), (1, 1));
    assert_eq!(hit.folder.name, "x");
}

#[test]
fn oldest_files_need_a_time() {
    let root = forest();
    let names: Vec<String> =
        oldest_n_files(&root, 10).iter().map(|h| h.file.name.clone()).collect();
    assert_eq!(names, vec!["old", "tiny", "new"]);
    assert_eq!(oldest_n_files(&root, 1)[0].file.name, "old");
}

#[test]
fn ranking_ignores_how_ties_fall() {
    let mut root = forest();
    root.files.push(file("same", 4, 50));
    let sizes: Vec<i64> = top_n_files(&root, 3).iter().map(|h| h.file.size).collect();
    assert_eq!(sizes, vec![7, 4, 4]);
}

#[test]
fn extracts_tag_from_github_redirect() {
    assert_eq!(
        tag_from_location("https://github.com/StruisICT/ClutterCutter/releases/tag/v0.8.0"),
        Some("v0.8.0".to_string())
    );
    assert_eq!(
        tag_from_location("https://github.com/StruisICT/ClutterCutter/releases/tag/v1.0.0/"),
        Some("v1.0.0".to_string())
    );
}

#[test]
fn rejects_unexpected_locations() {
    assert_eq!(tag_from_location("https://github.com/login"), None);
    assert_eq!(tag_from_location(""), None);
    assert_eq!(
        tag_from_location("https://github.com/StruisICT/ClutterCutter/releases"),
        None
    );
}

#[test]
fn version_comparison() {
    assert!(is_newer("v0.8.0", "0.7.0"));
    assert!(is_newer("v0.7.1", "0.7.0"));
    assert!(is_newer("v1.0.0", "0.9.9"));
    assert!(!is_newer("v0.7.0", "0.7.0"));
    assert!(!is_newer("v0.6.9", "0.7.0"));
    // Garbled parts count as zero, never panic.
    assert!(!is_newer("vnope", "0.7.0"));
}

#[test]
fn versions_have_three_parts() {
    assert!(is_newer("1.2.3-rc1", "1.2"));
    assert!(!is_newer("1.2.3.4", "1.2.3"));
    assert!(!is_newer("99999999999.0.0", "0.0.1"));
    assert!(is_newer("vv2", "v1.9.9+build"));
}

#[test]
fn update_notices() {
    let n = check_now(Some("v2.0.0"), "1.0.0");
    assert!(n.offers_page && !n.is_warning);
    assert!(n.message.starts_with("ClutterCutter 2.0.0 is available (you have 1.0.0)."));
    let n = check_now(Some("v1.0.0"), "1.0.0");
    assert_eq!(n.message, "You're on the latest version (ClutterCutter 1.0.0).");
    assert!(!n.offers_page);
    let n = check_now(None, "1.0.0");
    assert!(n.offers_page && n.is_warning);
}

fn fe(name: &str, size: i64) -> FileEntry {
    FileEntry {
        name: name.into(),
        size,
        last_modified_ft: 0,
    }
}

#[test]
fn source_labels_are_stable() {
    assert_eq!(TempSource::UserTemp.label(), "User Temp");
    assert_eq!(TempSource::WindowsOld.label(), "Windows.old");
    assert_eq!(TempSource::FirefoxCache.label(), "Firefox cache");
}

#[test]
fn collect_flattens_tree_with_full_paths() {
    let child = FolderNode {
        full_path: r"C:\Temp\sub".into(),
        files: vec![fe("deep.dat", 20)],
        ..Default::default()
    };
    let root = FolderNode {
        full_path: r"C:\Temp".into(),
        files: vec![fe("a.tmp", 10)],
        children: vec![child],
        ..Default::default()
    };
    let mut out = Vec::new();
    collect(&root, TempSource::UserTemp, &mut out);
    let paths: Vec<&str> = out.iter().map(|e| e.full_path.as_str()).collect();
    assert!(paths.contains(&r"C:\Temp\a.tmp"));
    assert!(paths.contains(&r"C:\Temp\sub\deep.dat"));
    assert!(out.iter().all(|e| e.source == TempSource::UserTemp));
}

#[test]
fn collect_handles_root_with_trailing_separator() {
    let root = FolderNode {
        full_path: r"C:\".into(),
        files: vec![fe("x.tmp", 1)],
        ..Default::default()
    };
    let mut out = Vec::new();
    collect(&root, TempSource::WindowsTemp, &mut out);
    assert_eq!(out[0].full_path, r"C:\x.tmp");
}

#[test]
fn temp_files_are_listed_by_size() {
    let scans = vec![
        LocationScan {
            source: TempSource::UserTemp,
            root: Some(FolderNode {
                full_path: r"C:\T".into(),
                files: vec![fe("one", 1), fe("nine", 9), fe("five", 5)],
                ..Default::default()
            }),
        },
        LocationScan { source: TempSource::WindowsOld, root: None },
        LocationScan {
            source: TempSource::EdgeCache,
            root: Some(FolderNode {
                full_path: r"C:\E\".into(),
                files: vec![fe("nine2", 9)],
                ..Default::default()
            }),
        },
    ];
    let all = scan_locations(&scans);
    let got: Vec<&str> = all.iter().map(|e| e.full_path.as_str()).collect();
    assert_eq!(got, vec![r"C:\T\nine", r"C:\E\nine2", r"C:\T\five", r"C:\T\one"]);
    assert_eq!(reclaimable(&all), 24);
}

#[test]
fn discover_locations_returns_only_existing_deduped_dirs() {
    let env = TempEnv {
        temp: Some(r"C:\Users\ME~1\Temp".into()),
        local_app_data: Some(r"C:\Users\Me".into()),
        windir: None,
        firefox_caches: vec![r"C:\ff\cache2".into()],
        system_drive: Some("C:".into()),
    };
    let places: Vec<TempPlace> = candidate_places(&env);
    let names: Vec<&str> = places.iter().map(|p| p.path.as_str()).collect();
    assert_eq!(
        names,
        vec![
            r"C:\Users\ME~1\Temp",
            r"C:\Users\Me\Temp",
            r"C:\Users\Me\Google\Chrome\User Data\Default\Cache",
            r"C:\Users\Me\Microsoft\Edge\User Data\Default\Cache",
            r"C:\ff\cache2",
            r"C:\Windows.old",
        ]
    );
    let resolved: Vec<Option<String>> = vec![
        Some(r"\\?\C:\Users\Me\Temp".into()),
        Some(r"\\?\c:\users\me\temp\".into()),
        None,
        Some(r"C:\Edge".into()),
        Some(r"\\?\C:\ff\cache2".into()),
        None,
    ];
    let locs = discover_locations(&places, &resolved);
    let shown: Vec<&str> = locs.iter().map(|p| p.path.as_str()).collect();
    assert_eq!(shown, vec![r"C:\Users\Me\Temp", r"C:\Edge", r"C:\ff\cache2"]);
    let mut lower: Vec<String> = locs.iter().map(|p| p.path.to_ascii_lowercase()).collect();
    let before = lower.len();
    lower.sort();
    lower.dedup();
    assert_eq!(before, lower.len(), "paths must be deduped");
}

#[test]
fn network_places_are_shown_as_network_paths() {
    let place = |p: &str| TempPlace { source: TempSource::UserTemp, path: p.into() };
    let places = vec![place("a"), place("b"), place("c"), place("d")];
    let resolved = vec![
        Some(r"\\?\UNC\srv\d\Temp".to_string()),
        Some(r"\\SRV\D\temp\".to_string()),
        Some(r"\\?\Volume{7}\Temp".to_string()),
        Some(r"\\?\D:\Temp".to_string()),
    ];
    let locs = discover_locations(&places, &resolved);
    let shown: Vec<&str> = locs.iter().map(|p| p.path.as_str()).collect();
    assert_eq!(shown, vec![r"\\srv\d\Temp", r"\\?\Volume{7}\Temp", r"D:\Temp"]);
}

#[test]
fn cache_roots_by_platform() {
    let env = CacheEnv {
        temp: None,
        local_app_data: None,
        system_drive: None,
        xdg_cache_home: None,
        home: Some("/home/me".into()),
        tmpdir: Some("/tmp".into()),
    };
    let roots = candidate_roots(Platform::Linux, &env);
    let paths: Vec<&str> = roots.iter().map(|r| r.path.as_str()).collect();
    assert_eq!(paths, vec!["/tmp", "/var/tmp", "/home/me/.cache"]);
    let kept = temp_locations(roots, &vec![true, false, true]);
    assert_eq!(kept.len(), 2);
    assert_eq!(kept[1].label, "~/.cache");
    let mac = candidate_roots(Platform::MacOs, &env);
    assert_eq!(mac[1].path, "/home/me/Library/Caches");
}

#[test]
fn mount_tables_are_read() {
    let table = "/dev/sda1 / ext4 rw 0 0\nproc /proc proc rw 0 0\n/dev/sdb1 /mnt/my\\040disk ext4 rw\n/dev/sda1 / ext4 rw\n/dev/sdc\n";
    let m = mount_points(Some(table));
    let paths: Vec<&str> = m.iter().map(|p| p.path.as_str()).collect();
    assert_eq!(paths, vec!["/", "/mnt/my disk"]);
    assert_eq!(mount_points(None).len(), 1);
    assert_eq!(mount_points(Some("")).len(), 1);
    let drives = list_drives(m, &vec![Some((100, 40)), Some((0, 0))]);
    assert_eq!(drives.len(), 1);
    assert_eq!(drives[0].used(), 60);
    assert_eq!(volume_space(10, 4, 512, 4096), (5120, 2048));
    assert_eq!(volume_space(10, 4, 0, 4096), (40960, 16384));
    assert_eq!(volume_space(1 << 60, 2, 32, 0), (u64::MAX, 64));
    let odd = DriveInfo { path: "/".into(), label: "/".into(), total: 1, free: 2 };
    assert_eq!(odd.used(), 0);
}

#[test]
fn drive_letters_come_from_the_mask() {
    let d: Vec<MountPoint> = drives_of_mask(0b1000_0000_0000_0000_0000_0001_00 | 1 << 25);
    let paths: Vec<&str> = d.iter().map(|p| p.path.as_str()).collect();
    assert_eq!(paths, vec![r"C:\", r"Z:\"]);
    assert_eq!(d[0].label, "C:");
    assert!(is_scannable_type(2) && is_scannable_type(3) && !is_scannable_type(4));
}

#[test]
fn searches_need_every_word() {
    let root = forest();
    let terms = search_terms("  BI g ");
    assert_eq!(terms, vec!["bi", "g"]);
    assert!(name_matches("Big", &terms));
    assert!(!name_matches("bit", &terms));
    let hits = search(&root, &terms, PathStyle::Unix);
    assert_eq!(hits.len(), 1);
    assert_eq!(hits[0].path, "/r/x/big");
    let all = search(&root, &search_terms(""), PathStyle::Unix);
    let sizes: Vec<i64> = all.iter().map(|h| h.size).collect();
    assert_eq!(sizes, vec![9, 7, 4, 2, 1]);
    assert!(all[0].is_dir);
    let mut few = Vec::new();
    collect_search(&root, &search_terms(""), PathStyle::Unix, &mut few, 3);
    let paths: Vec<&str> = few.iter().map(|h| h.path.as_str()).collect();
    assert_eq!(paths, vec!["/r/new", "/r/tiny", "/r/x"]);
    // Lower-casing follows Unicode.
    assert!(name_matches("\u{c9}T\u{c9}", &search_terms("\u{e9}t\u{e9}")));
}

#[test]
fn rows_keep_their_order_when_equal() {
    assert_eq!(order_by_number(&vec![5, 9, 5, 1], true), vec![1, 0, 2, 3]);
    assert_eq!(order_by_number(&vec![5, 9, 5, 1], false), vec![3, 0, 2, 1]);
    let key = |n: i64, t: &str| SortKey { num: n, text: t.chars().collect() };
    let keys = vec![key(1, "b"), key(1, "a"), key(0, "z"), key(1, "ab")];
    assert_eq!(sorted_order(&keys, false), vec![2, 1, 3, 0]);
    assert_eq!(sorted_order(&keys, true), vec![0, 3, 1, 2]);
}

#[test]
fn navigation_goes_back_and_forth() {
    let mut nav = Navigator::new();
    nav.apply_nav(Some(NavAction::Drill(0)));
    nav.apply_nav(Some(NavAction::Drill(3)));
    assert_eq!(nav.cur, vec![0, 3]);
    nav.apply_nav(Some(NavAction::Back));
    assert_eq!(nav.cur, vec![0]);
    nav.apply_nav(Some(NavAction::Fwd));
    assert_eq!(nav.cur, vec![0, 3]);
    nav.apply_nav(Some(NavAction::Crumb(0)));
    assert!(nav.cur.is_empty());
    nav.apply_nav(Some(NavAction::Up));
    assert!(nav.cur.is_empty());
    nav.apply_nav(Some(NavAction::Back));
    assert_eq!(nav.cur, vec![0, 3]);
    nav.apply_nav(Some(NavAction::Crumb(9)));
    nav.apply_nav(None);
    assert_eq!(nav.cur, vec![0, 3]);
    nav.apply_nav(Some(NavAction::Up));
    assert_eq!(nav.cur, vec![0]);
    assert!(nav.fwd.is_empty());
}

#[test]
fn the_window_follows_the_scan() {
    let mut b = Browser::new(Some("iso".into()));
    b.scan_begun(Some(1));
    assert!(b.scanning);
    b.pane = Pane::Oldest;
    b.nav.apply_nav(Some(NavAction::Drill(2)));
    b.scan_done();
    assert!(!b.scanning && b.nav.cur.is_empty() && b.pane == Pane::Browse);
    assert_eq!(b.search, "iso");
    assert_eq!(b.selected, Some(1));
    b.scan_done();
    assert_eq!(b.search, "");
}

#[test]
fn browsing_texts() {
    let root = sample_tree();
    let u = Units::default();
    assert_eq!(node_at(&root, &vec![0, 0]).name, "a1");
    assert_eq!(node_at(&root, &vec![0, 7, 0]).name, "a");
    let cs = crumbs(&root, &vec![0, 0]);
    assert_eq!(cs.len(), 2);
    assert_eq!((cs[0].name.as_str(), cs[0].level, cs[0].is_last), ("a", 1, false));
    assert_eq!((cs[1].name.as_str(), cs[1].level, cs[1].is_last), ("a1", 2, true));
    assert_eq!(
        status_line(false, Some(&root), &vec![1], &u),
        "C:\\b    \u{b7}    5 B    \u{b7}    1 files    \u{b7}    0 folders"
    );
    assert_eq!(status_line(false, None, &vec![], &u), "Ready");
    assert_eq!(status_line(true, None, &vec![], &u), "Scanning\u{2026}");
    assert_eq!(heading(&root, &u), "C:\\  \u{b7}  35 B  \u{b7}  4 files");
    assert_eq!(typed_path("  /tmp "), Some("/tmp".to_string()));
    assert_eq!(typed_path("   "), None);
    assert_eq!(children_by_size(&root), vec![0, 1]);
    assert_eq!(files_by_size(&root.children[0].children[0]), vec![0, 1, 2]);
}

#[test]
fn screenshots_are_asked_for_once() {
    assert_eq!(shot_step(true, true, true, 0), ShotStep::Save);
    assert_eq!(shot_step(false, false, false, 4), ShotStep::Request);
    assert_eq!(shot_step(false, false, false, 3), ShotStep::Wait);
    assert_eq!(shot_step(false, false, true, 5), ShotStep::Wait);
    assert_eq!(shot_step(false, true, false, 301), ShotStep::GiveUp);
}

#[test]
fn arguments_are_read() {
    let args = |a: &[&str]| -> Vec<String> { a.iter().map(|s| s.to_string()).collect() };
    let p = parse_args(&args(&["--mft", "--top-n", "5", "C:\\", "--oldest-n", "+7"]));
    assert!(p.use_mft && !p.temp_mode && p.track_files());
    assert_eq!((p.top_n, p.oldest_n), (5, 7));
    assert_eq!(p.rest, vec!["C:\\"]);
    let p = parse_args(&args(&["--temp", "--top-n"]));
    assert!(p.temp_mode && p.rest.is_empty() && !p.track_files());
    assert_eq!(parse_args(&args(&["--top-n", "x"])).top_n, 0);
    assert_eq!(parse_args(&args(&["--top-n", "99999999999999999999999"])).top_n, 0);
    assert!(usage().starts_with("usage: cluttercutter-cli.exe"));
}

#[test]
fn printed_lines() {
    let root = sample_tree();
    assert_eq!(
        summary_line(&root, "0.12", false),
        "\nC:\\ \u{2014} 35.0 B (4 files, 2 folders) in 0.12s [walker]"
    );
    assert_eq!(size_line(1536, "x"), "      1.5 KB  x");
    assert_eq!(
        dated_line(116_444_736_000_000_000, 1, "f"),
        "  1970-01-01       1.0 B  f"
    );
    assert_eq!(
        progress_line(12, 2048, "  ?  ", "C:\\a"),
        "\r        12 files      2.0 KB    ?    C:\\a"
    );
    let hits = top_n_files(&root, 1);
    assert_eq!(full_path(&hits[0]), r"C:\a\a1\f");
}

fn names(rows: &[BuiltRow]) -> Vec<(String, usize)> {
    rows.iter().map(|r| (r.name.clone(), r.row.depth)).collect()
}

#[test]
fn rows_open_sort_and_hide() {
    let mut t = ScanTree::new(sample_tree());
    let u = Units::default();
    let mut rows = Vec::new();
    build_list_rows(&t.marks, &t.root, 0, 0, SortBy { col: 2, desc: true }, &u, &mut rows);
    assert_eq!(names(&rows), vec![("a".into(), 0), ("b".into(), 0)]);
    assert_eq!(rows[0].size_text, "30 B");
    assert_eq!((rows[0].row.size, rows[0].row.parent_size), (30, 35));
    t.toggle_expand(1);
    t.toggle_expand(2);
    let mut rows = Vec::new();
    build_list_rows(&t.marks, &t.root, 0, 0, SortBy { col: 0, desc: true }, &u, &mut rows);
    let got: Vec<String> = rows.iter().map(|r| r.name.clone()).collect();
    assert_eq!(got, vec!["b", "a", "a1", "f", "f", "f"]);
    assert_eq!(rows[5].target, RowTarget::File(FileRef { folder: 2, index: 2 }));
    t.toggle_expand(1);
    assert!(!t.marks.expanded.contains(&1));
    let mut marks = Marks::new();
    marks.toggle(4);
    assert!(marks.expanded.contains(&4) && marks.deleted_nodes.is_empty());
    marks.toggle(4);
    assert!(marks.expanded.is_empty());
    t.delete_folder_node(1);
    let mut rows = Vec::new();
    build_list_rows(&t.marks, &t.root, 0, 0, SortBy { col: 0, desc: false }, &u, &mut rows);
    assert_eq!(names(&rows), vec![("b".into(), 0)]);
    assert_eq!((t.root.size, t.root.file_count, t.root.folder_count), (5, 1, 0));
    assert_eq!(t.version, 1);
    t.delete_folder_node(77);
    assert_eq!(t.version, 1);
}

#[test]
fn selections_are_counted_before_they_go() {
    let mut t = ScanTree::new(sample_tree());
    let u = Units::default();
    t.toggle_expand(3);
    let mut rows = Vec::new();
    build_list_rows(&t.marks, &t.root, 0, 0, SortBy { col: 0, desc: false }, &u, &mut rows);
    // a, b, then b's only file.
    let plan = plan_deletion(&rows, &vec![0, 2, 50], &t.root);
    assert_eq!(plan.paths, vec![r"C:\a", r"C:\b\f"]);
    assert_eq!((plan.n_folders, plan.n_files, plan.bytes), (2, 4, 35));
    assert_eq!(
        delete_prompt(&plan, &u).as_deref(),
        Some("Move the selected items to the Recycle Bin?\n\n\u{2022} 2 folders\n\u{2022} 4 files\n\u{2022} 35 B freed")
    );
    t.delete_selected(&plan);
    assert_eq!((t.root.size, t.root.file_count, t.root.folder_count), (0, 0, 0));
    let hits = top_n_files(&t.root, 10);
    assert!(side_rows(&hits, &t.marks, &u).is_empty());
    assert_eq!(folder_summary(&t.root, &u), "C:\\ \u{2014} 0 B (0 files, 0 folders)");
    let empty = plan_deletion(&rows, &vec![], &t.root);
    assert!(delete_prompt(&empty, &u).is_none());
}

#[test]
fn what_lies_in_a_selected_folder_is_not_counted_again() {
    let mut t = ScanTree::new(sample_tree());
    let u = Units::default();
    t.toggle_expand(1);
    t.toggle_expand(2);
    let mut rows = Vec::new();
    build_list_rows(&t.marks, &t.root, 0, 0, SortBy { col: 0, desc: false }, &u, &mut rows);
    let got: Vec<&str> = rows.iter().map(|r| r.name.as_str()).collect();
    assert_eq!(got, vec!["a", "a1", "f", "f", "f", "b"]);
    // a with all that lies in it, given in any order and twice.
    for selected in [vec![0, 1, 2, 3], vec![3, 1, 0, 0, 2], vec![0]] {
        let plan = plan_deletion(&rows, &selected, &t.root);
        assert_eq!(plan.paths, vec![r"C:\a"]);
        assert_eq!((plan.n_folders, plan.n_files, plan.bytes), (2, 3, 30));
    }
    let plan = plan_deletion(&rows, &vec![2, 1, 3], &t.root);
    assert_eq!(plan.paths, vec![r"C:\a\a1"]);
    assert_eq!((plan.n_folders, plan.n_files, plan.bytes), (1, 3, 30));
    t.delete_selected(&plan);
    assert_eq!((t.root.size, t.root.file_count, t.root.folder_count), (5, 1, 1));
    assert_eq!((t.root.children[0].size, t.root.children[0].file_count), (0, 0));
    let before = t.version;
    let mut rows = Vec::new();
    build_list_rows(&t.marks, &t.root, 0, 0, SortBy { col: 0, desc: false }, &u, &mut rows);
    let plan = plan_deletion(&rows, &vec![0], &t.root);
    assert_eq!((plan.n_folders, plan.n_files, plan.bytes), (1, 0, 0));
    t.delete_selected(&plan);
    assert!(t.version > before);
    assert_eq!((t.root.size, t.root.file_count, t.root.folder_count), (5, 1, 0));
}

#[test]
fn drive_roots_are_never_deleted() {
    let top = FolderNode {
        name: "All drives".into(),
        children: vec![sample_tree()],
        ..Default::default()
    };
    let t = ScanTree::new(top);
    let u = Units::default();
    let mut rows = Vec::new();
    build_list_rows(&t.marks, &t.root, 0, 0, SortBy { col: 0, desc: false }, &u, &mut rows);
    assert!(plan_deletion(&rows, &vec![0], &t.root).paths.is_empty());
    assert_eq!(folder_summary(&t.root, &u), "All drives \u{2014} 0 B (0 files, 0 folders)");
}

#[test]
fn side_rows_show_what_is_left() {
    let mut t = ScanTree::new(forest());
    let u = Units::default();
    t.delete_file(FileRef { folder: 0, index: 0 }, 4);
    assert_eq!((t.root.size, t.root.file_count), (10, -1));
    let hits = top_n_files(&t.root, 10);
    let rows = side_rows(&hits, &t.marks, &u);
    let got: Vec<&str> = rows.iter().map(|r| r.path.as_str()).collect();
    assert_eq!(got, vec![r"/r/x\big", r"/r/x\old", r"/r\tiny"]);
    assert_eq!(rows[0].size_text, "7 B");
}
