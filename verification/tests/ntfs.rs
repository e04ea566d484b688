use cluttercutter::bytes::{i64_le, read_signed_le, u16_le, u32_le};
use cluttercutter::mft::chunk::{parse_chunk, records_per_worker, try_chunk};
use cluttercutter::mft::fixups::{apply_fixups, first_tails_inside};
use cluttercutter::mft::reader::{check_geometry, ReadRequest, TableReader};
use cluttercutter::mft::record::{name_priority, parse_record, MftEntry};
use cluttercutter::mft::runs::{extract_mft_data_runs, parse_data_runs};
use cluttercutter::mft::scanner::{drive_root, is_ntfs_drive_root, MftScanner};
use cluttercutter::mft::tree::{build_subtree, build_tree};
use cluttercutter::progress::Percent;
use cluttercutter::types::FolderNode;
use cluttercutter::utf16::{utf16le_to_string, wide, wstr_to_string};
use std::collections::HashMap;

#[test]
fn little_endian_readers() {
    let b = [0x01, 0x02, 0x03, 0x04, 0x05, 0x06, 0x07, 0x08];
    assert_eq!(u16_le(&b, 0), 0x0201);
    assert_eq!(u32_le(&b, 0), 0x0403_0201);
    assert_eq!(i64_le(&b, 0), 0x0807_0605_0403_0201);
    // Reading at an offset.
    assert_eq!(u16_le(&b, 6), 0x0807);
}

#[test]
fn signed_fields_keep_their_sign() {
    assert_eq!(read_signed_le(&[0xFF], 0, 1), -1);
    assert_eq!(read_signed_le(&[0x00, 0x80], 0, 2), -32768);
    assert_eq!(read_signed_le(&[0x7F], 0, 1), 127);
    assert_eq!(read_signed_le(&[0xFF; 8], 0, 8), -1);
    assert_eq!(read_signed_le(&[0, 0, 0, 0, 0, 0, 0, 0x80], 0, 8), i64::MIN);
    assert_eq!(i64_le(&[0xFE, 0xFF, 0xFF, 0xFF, 0xFF, 0xFF, 0xFF, 0xFF], 0), -2);
}

#[test]
fn name_priority_orders_namespaces() {
    // Win32&DOS (3) > Win32 (1) > POSIX (0) > DOS (2) > unknown.
    assert!(name_priority(3) > name_priority(1));
    assert!(name_priority(1) > name_priority(0));
    assert!(name_priority(0) > name_priority(2));
    assert!(name_priority(2) > name_priority(99));
}

#[test]
fn utf16le_decodes_and_is_lossy_on_odd_bytes() {
    // "Hi" in UTF-16LE.
    let bytes = [b'H', 0, b'i', 0];
    assert_eq!(utf16le_to_string(&bytes), "Hi");
    // A trailing odd byte is ignored (no panic).
    let odd = [b'A', 0, 0xFF];
    assert_eq!(utf16le_to_string(&odd), "A");
}

#[test]
fn utf16_agrees_with_std() {
    let samples: Vec<Vec<u16>> = vec![
        vec![0xD83D, 0xDE00],
        vec![0xD83D],
        vec![0xDE00, 0x41],
        vec![0xD83D, 0x41, 0xDE00],
        vec![0xD83D, 0xD83D, 0xDE00],
        vec![0xFFFF, 0xE000, 0xD7FF],
        vec![],
    ];
    for u in samples {
        let expected = String::from_utf16_lossy(&u);
        assert_eq!(wstr_to_string(&u), expected);
        let bytes: Vec<u8> = u.iter().flat_map(|x| x.to_le_bytes()).collect();
        assert_eq!(utf16le_to_string(&bytes), expected);
    }
    let text = "a\u{e9}\u{20ac}\u{1F600}";
    let mut w: Vec<u16> = text.encode_utf16().collect();
    w.push(0);
    assert_eq!(wide(text), w);
    assert_eq!(wstr_to_string(&wide(text)), text);
}

#[test]
fn wide_is_nul_terminated() {
    let w = wide("AB");
    assert_eq!(w, vec![b'A' as u16, b'B' as u16, 0]);
}

#[test]
fn wstr_to_string_stops_at_first_nul() {
    let buf = [b'H' as u16, b'i' as u16, 0, b'X' as u16];
    assert_eq!(wstr_to_string(&buf), "Hi");
    // No NUL: whole buffer is used.
    let buf2 = [b'O' as u16, b'k' as u16];
    assert_eq!(wstr_to_string(&buf2), "Ok");
}

#[test]
fn parse_data_runs_decodes_one_run() {
    // header 0x21: length field 1 byte, offset field 2 bytes.
    // length = 5 clusters, offset = 0x1000 (relative to prev LCN 0).
    let buf = [0x21u8, 0x05, 0x00, 0x10, 0x00];
    let runs = parse_data_runs(&buf, 0, buf.len());
    assert_eq!(runs.len(), 1);
    assert_eq!(runs[0].length, 5);
    assert_eq!(runs[0].lcn, 0x1000);
}

#[test]
fn parse_data_runs_stops_on_terminator() {
    // A single run then an explicit 0x00 terminator, then junk that must be
    // ignored.
    let buf = [0x11u8, 0x02, 0x04, 0x00, 0xFF, 0xFF];
    let runs = parse_data_runs(&buf, 0, buf.len());
    assert_eq!(runs.len(), 1);
    assert_eq!(runs[0].length, 2);
}

#[test]
fn parse_data_runs_rejects_oversized_run_fields() {
    // A header nibble > 8 (here len=0x0A) is corrupt; the decoder must bail
    // rather than shift by >= 64.
    let buf = [0x2Au8, 1, 2, 3, 4, 5, 6, 7, 8, 9, 10];
    let runs = parse_data_runs(&buf, 0, buf.len());
    assert!(runs.is_empty());
}

#[test]
fn data_runs_are_relative_and_skip_sparse_ones() {
    // 4 clusters at 16; 3 sparse clusters; 2 clusters 6 before the first.
    let buf = [0x11u8, 4, 16, 0x01, 3, 0x11, 2, 0xFA, 0x00];
    let runs = parse_data_runs(&buf, 0, buf.len());
    let got: Vec<(i64, i64)> = runs.iter().map(|r| (r.lcn, r.length)).collect();
    assert_eq!(got, vec![(16, 4), (10, 2)]);
}

#[test]
fn parse_record_never_panics_on_truncated_resident_attr() {
    // A valid FILE header with a resident $STANDARD_INFORMATION attribute whose
    // value-offset points near the record end. Parsing at every truncation
    // length must never read past the record.
    let mut rec = vec![0u8; 96];
    rec[0..4].copy_from_slice(b"FILE");
    rec[20..22].copy_from_slice(&56u16.to_le_bytes()); // first attribute at 56
    rec[22] = 0x01; // in-use
    let a = 56;
    rec[a..a + 4].copy_from_slice(&0x10u32.to_le_bytes()); // $STANDARD_INFORMATION
    rec[a + 4..a + 8].copy_from_slice(&8u32.to_le_bytes()); // deliberately tiny alen
    rec[a + 20..a + 22].copy_from_slice(&24u16.to_le_bytes()); // value offset
    for n in 42..=96 {
        let _ = parse_record(&rec[..n], 0, n); // must not panic for any n
    }
}

#[test]
fn extract_mft_data_runs_never_panics_on_truncated_data_attr() {
    // A non-resident $DATA attribute header near the record end; every
    // truncation must be handled without reading past the record.
    let mut rec = vec![0u8; 96];
    rec[20..22].copy_from_slice(&40u16.to_le_bytes()); // first attribute at 40
    let a = 40;
    rec[a..a + 4].copy_from_slice(&0x80u32.to_le_bytes()); // $DATA
    rec[a + 4..a + 8].copy_from_slice(&8u32.to_le_bytes()); // deliberately tiny alen
    rec[a + 8] = 1; // non-resident
    rec[a + 9] = 0; // unnamed
    rec[a + 32..a + 34].copy_from_slice(&48u16.to_le_bytes()); // run-list offset
    for n in 42..=96 {
        let _ = extract_mft_data_runs(&rec[..n]); // must not panic
    }
}

#[test]
fn apply_fixups_restores_sector_tail_bytes() {
    // One 512-byte sector record. USA at offset 48; the per-sector fixup
    // value (bytes 50..52) must be written back to the last 2 bytes of the
    // sector (510..512).
    let mut buf = vec![0u8; 512];
    buf[0..4].copy_from_slice(b"FILE");
    buf[4..6].copy_from_slice(&48u16.to_le_bytes()); // usa_offset
    buf[6..8].copy_from_slice(&2u16.to_le_bytes()); // usa_count (seq + 1 sector)
    buf[50] = 0xAA;
    buf[51] = 0xBB;
    apply_fixups(&mut buf, 0, 512, 512);
    assert_eq!(buf[510], 0xAA);
    assert_eq!(buf[511], 0xBB);
}

#[test]
fn apply_fixups_ignores_non_file_records() {
    let mut buf = vec![0u8; 64];
    buf[0..4].copy_from_slice(b"BAAD");
    let before = buf.clone();
    apply_fixups(&mut buf, 0, 64, 64);
    assert_eq!(buf, before, "non-FILE record must be left untouched");
}

#[test]
fn fixups_repair_once() {
    let mut buf = vec![0u8; 1024];
    buf[0..4].copy_from_slice(b"FILE");
    buf[4..6].copy_from_slice(&48u16.to_le_bytes());
    buf[6..8].copy_from_slice(&3u16.to_le_bytes());
    buf[48..54].copy_from_slice(&[7, 7, 1, 2, 3, 4]);
    apply_fixups(&mut buf, 0, 1024, 512);
    assert_eq!((buf[510], buf[511], buf[1022], buf[1023]), (1, 2, 3, 4));
    let once = buf.clone();
    apply_fixups(&mut buf, 0, 1024, 512);
    assert_eq!(buf, once);
    apply_fixups(&mut buf, usize::MAX, 1024, 512);
    assert_eq!(buf, once);
}

fn put_name(rec: &mut Vec<u8>, at: usize, ns: u8, parent: u64, name: &str) -> usize {
    let units: Vec<u16> = name.encode_utf16().collect();
    let value = 66 + units.len() * 2;
    let alen = (24 + value + 7) / 8 * 8;
    rec[at..at + 4].copy_from_slice(&0x30u32.to_le_bytes());
    rec[at + 4..at + 8].copy_from_slice(&(alen as u32).to_le_bytes());
    rec[at + 16..at + 20].copy_from_slice(&(value as u32).to_le_bytes());
    rec[at + 20..at + 22].copy_from_slice(&24u16.to_le_bytes());
    let v = at + 24;
    rec[v..v + 8].copy_from_slice(&(parent | (7u64 << 48)).to_le_bytes());
    rec[v + 16..v + 24].copy_from_slice(&77i64.to_le_bytes());
    rec[v + 64] = units.len() as u8;
    rec[v + 65] = ns;
    for (i, u) in units.iter().enumerate() {
        rec[v + 66 + 2 * i..v + 68 + 2 * i].copy_from_slice(&u.to_le_bytes());
    }
    at + alen
}

fn file_record(flags: u16) -> Vec<u8> {
    let mut rec = vec![0u8; 1024];
    rec[0..4].copy_from_slice(b"FILE");
    rec[20..22].copy_from_slice(&56u16.to_le_bytes());
    rec[22..24].copy_from_slice(&flags.to_le_bytes());
    rec
}

fn put_data(rec: &mut [u8], at: usize, size: u32) -> usize {
    rec[at..at + 4].copy_from_slice(&0x80u32.to_le_bytes());
    rec[at + 4..at + 8].copy_from_slice(&24u32.to_le_bytes());
    rec[at + 16..at + 20].copy_from_slice(&size.to_le_bytes());
    at + 24
}

#[test]
fn parse_record_takes_best_name_and_first_data() {
    let mut rec = file_record(1);
    let p = put_name(&mut rec, 56, 2, 5, "LONGNA~1.TXT");
    let p = put_name(&mut rec, p, 1, 9, "long name.txt");
    let p = put_name(&mut rec, p, 0, 4, "posix");
    let p = put_data(&mut rec, p, 123);
    let p = put_data(&mut rec, p, 999);
    rec[p..p + 4].copy_from_slice(&0xFFFF_FFFFu32.to_le_bytes());
    let e = parse_record(&rec, 0, 1024).expect("a named record in use");
    assert_eq!(e.name, "long name.txt");
    assert_eq!(e.parent_frn, 9);
    assert_eq!(e.size, 123);
    assert_eq!(e.last_write_ft, 77);
    assert!(!e.is_dir);
    assert!(!e.is_reparse);
    // Free records and records without a name describe nothing.
    assert!(parse_record(&file_record(0), 0, 1024).is_none());
    assert!(parse_record(&file_record(1), 0, 1024).is_none());
    assert!(parse_record(&rec, 1, 1024).is_none());
    // A directory has no size of its own.
    rec[22] = 3;
    let d = parse_record(&rec, 0, 1024).expect("a directory");
    assert!(d.is_dir);
    assert_eq!(d.size, 0);
}

#[test]
fn parse_record_reads_standard_information() {
    let mut rec = file_record(3);
    rec[56..60].copy_from_slice(&0x10u32.to_le_bytes());
    rec[60..64].copy_from_slice(&72u32.to_le_bytes());
    rec[76..78].copy_from_slice(&24u16.to_le_bytes());
    rec[88..96].copy_from_slice(&4242i64.to_le_bytes());
    rec[112..116].copy_from_slice(&0x410u32.to_le_bytes());
    put_name(&mut rec, 128, 3, 5, "link");
    let e = parse_record(&rec, 0, 1024).expect("a junction");
    assert_eq!(e.last_write_ft, 4242);
    assert!(e.is_reparse && e.is_dir);
}

#[test]
fn chunks_count_files() {
    let mut buf = Vec::new();
    let mut a = file_record(1);
    let p = put_name(&mut a, 56, 3, 5, "a");
    put_data(&mut a, p, 10);
    let mut b = file_record(3);
    put_name(&mut b, 56, 3, 5, "b");
    buf.extend_from_slice(&a);
    buf.extend_from_slice(&b);
    buf.extend_from_slice(&vec![0u8; 1024]);
    buf.extend_from_slice(&a);
    let (es, files, bytes) = parse_chunk(&mut buf, 1024, 512);
    assert_eq!(es.len(), 4);
    assert_eq!((files, bytes), (2, 20));
    assert!(es[2].is_none());
    assert!(es[1].as_ref().map(|e| e.is_dir) == Some(true));
    assert_eq!(records_per_worker(10, 4), 3);
    assert_eq!(records_per_worker(8, 4), 2);
    assert_eq!(records_per_worker(2, 8), 1);
}

#[test]
fn a_stretch_can_be_cut_at_any_record() {
    let mut buf = Vec::new();
    for (i, name) in ["a", "bb", "ccc", "dddd"].iter().enumerate() {
        let mut r = file_record(1);
        let p = put_name(&mut r, 56, 1, 5, name);
        let p = put_data(&mut r, p, 10 + i as u32);
        r[p..p + 4].copy_from_slice(&[0xFF; 4]);
        buf.extend_from_slice(&r);
    }
    let seen = |mut part: Vec<u8>| -> Vec<(String, i64)> {
        let (es, _, _) = parse_chunk(&mut part, 1024, 512);
        es.into_iter().flatten().map(|e| (e.name, e.size)).collect()
    };
    let whole = seen(buf.clone());
    assert_eq!(whole.len(), 4);
    assert_eq!(whole[3], ("dddd".to_string(), 13));
    for m in 0..=4 {
        let mut parts = seen(buf[..m * 1024].to_vec());
        parts.extend(seen(buf[m * 1024..].to_vec()));
        assert_eq!(parts, whole);
    }
}

fn entry(name: &str, size: i64, is_dir: bool, is_reparse: bool, parent: i64) -> MftEntry {
    MftEntry {
        parent_frn: parent,
        name: name.into(),
        size,
        is_dir,
        is_reparse,
        last_write_ft: 0,
    }
}

#[test]
fn build_subtree_aggregates_and_skips_reparse_dirs() {
    // FRN 5 = root, children: dir "sub"(6), file "f.txt"(7, 100B),
    // junction "link"(8, reparse). Under sub: file "inner.dat"(9, 50B).
    // The junction must be skipped so its (would-be) subtree isn't counted.
    let mut entries: Vec<Option<MftEntry>> = (0..10).map(|_| None).collect();
    entries[5] = Some(entry("root", 0, true, false, 5));
    entries[6] = Some(entry("sub", 0, true, false, 5));
    entries[7] = Some(entry("f.txt", 100, false, false, 5));
    entries[8] = Some(entry("link", 0, true, true, 5));
    entries[9] = Some(entry("inner.dat", 50, false, false, 6));
    // A phantom child under the junction that must NOT be reached.
    // (parent 8 -> would double-count if we recursed into the reparse dir)

    let mut kids: HashMap<i64, Vec<i64>> = HashMap::new();
    kids.insert(5, vec![6, 7, 8]);
    kids.insert(6, vec![9]);

    let mut root = FolderNode {
        full_path: r"C:\".into(),
        name: "C:\\".into(),
        ..Default::default()
    };
    build_subtree(5, &mut root, r"C:\", &entries, &kids, true);

    assert_eq!(
        root.size, 150,
        "100 (f.txt) + 50 (inner.dat); junction excluded"
    );
    assert_eq!(root.file_count, 2);
    assert_eq!(
        root.folder_count, 1,
        "only 'sub'; the reparse dir is skipped"
    );
    // 'sub' is kept, 'link' (reparse) is not.
    let child_names: Vec<&str> = root.children.iter().map(|c| c.name.as_str()).collect();
    assert_eq!(child_names, vec!["sub"]);
    assert_eq!(root.files.len(), 1, "f.txt tracked at the root");
}

#[test]
fn cyclic_parents_do_not_hang() {
    let mut entries: Vec<Option<MftEntry>> = (0..10).map(|_| None).collect();
    entries[5] = Some(entry(".", 0, true, false, 5));
    entries[6] = Some(entry("a", 0, true, false, 7));
    entries[7] = Some(entry("b", 0, true, false, 6));
    entries[8] = Some(entry("kept.bin", 11, false, false, 5));
    entries[9] = Some(entry("lost.bin", 99, false, false, 3));
    let root = build_tree(entries, 'C', true).expect("a root");
    assert_eq!(root.size, 11);
    assert_eq!(root.full_path, r"C:\");
    assert_eq!(root.folder_count, 0);
    assert_eq!(root.files.len(), 1);
}

#[test]
fn a_table_without_root_is_an_error() {
    let none: Vec<Option<MftEntry>> = Vec::new();
    assert_eq!(
        MftScanner::new().build_tree(none, 'D').err().as_deref(),
        Some("MFT root entry (FRN 5) not found.")
    );
}

#[test]
fn totals_wrap_instead_of_failing() {
    let mut entries: Vec<Option<MftEntry>> = (0..8).map(|_| None).collect();
    entries[5] = Some(entry(".", 0, true, false, 5));
    entries[6] = Some(entry("x", i64::MAX, false, false, 5));
    entries[7] = Some(entry("y", 1, false, false, 5));
    let root = build_tree(entries, 'C', false).expect("a root");
    assert_eq!(root.size, i64::MIN);
    assert_eq!(root.file_count, 2);
}

#[test]
fn geometry_is_checked() {
    assert!(check_geometry(1024, 512).is_ok());
    assert_eq!(
        check_geometry(0, 512).err().as_deref(),
        Some("Unexpected NTFS geometry (record=0, sector=512)")
    );
    assert!(check_geometry(1024, 0).is_err());
    assert!(check_geometry(1024, 1).is_ok());
    assert!(check_geometry(65536, 65536).is_ok());
    assert!(TableReader::open(&mut [], 512, 4096, 1024).is_err());
    assert!(check_geometry(1000, 512).is_err());
    assert!(check_geometry(128 * 1024, 512).is_err());
}

fn record_zero(runs: &[u8]) -> Vec<u8> {
    let mut rec = file_record(1);
    let a = 56;
    rec[a..a + 4].copy_from_slice(&0x80u32.to_le_bytes());
    rec[a + 4..a + 8].copy_from_slice(&128u32.to_le_bytes());
    rec[a + 8] = 1;
    rec[a + 32..a + 34].copy_from_slice(&64u16.to_le_bytes());
    rec[a + 64..a + 64 + runs.len()].copy_from_slice(runs);
    rec
}

#[test]
fn sectors_of_one_byte_have_no_room_for_a_first_tail() {
    // With no tail to put back, the table opens as in any other geometry.
    let mut rec0 = record_zero(&[0x11, 1, 2, 0]);
    let mut t = TableReader::open(&mut rec0, 1, 4096, 4096).expect("a table");
    assert_eq!(t.next(), Some(ReadRequest { pos: 8192, len: 4096 }));
    let mut plain = file_record(1);
    put_name(&mut plain, 56, 3, 5, "a");
    let (es, files, _) = parse_chunk(&mut plain.clone(), 1024, 1);
    assert_eq!((es.len(), files), (1, 1));

    let refused = Some("Unexpected NTFS geometry (record=1024, sector=1)");
    let mut rec0 = record_zero(&[0x11, 1, 2, 0]);
    rec0[4..8].copy_from_slice(&[48, 0, 2, 0]);
    assert_eq!(TableReader::open(&mut rec0, 1, 4096, 4096).err().as_deref(), refused);
    let mut first = plain.clone();
    first[4..8].copy_from_slice(&[48, 0, 2, 0]);
    assert!(!first_tails_inside(&first, 1024, 1) && first_tails_inside(&first, 1024, 2));
    let before = first.clone();
    assert_eq!(try_chunk(&mut first, 1024, 1).err().as_deref(), refused);
    assert_eq!(first, before);

    // Behind the first record there is room: the tail's first byte ends the record
    // in front, which was parsed by then.
    let mut two = plain.clone();
    let mut second = plain.clone();
    second[4..8].copy_from_slice(&[48, 0, 2, 0]);
    second[50..52].copy_from_slice(&[9, b'F']);
    two.extend_from_slice(&second);
    let (es, files, _) = try_chunk(&mut two, 1024, 1).expect("two records");
    assert!(es.iter().all(|e| e.as_ref().is_some_and(|e| e.name == "a")));
    assert_eq!((files, two[1023], two[1024]), (2, 9, b'F'));
    assert!(try_chunk(&mut two, 1024, 0).is_err());
    assert!(try_chunk(&mut two, 0, 512).is_err());
    assert_eq!(try_chunk(&mut two, 1024, 512).map(|r| r.0.len()).ok(), Some(2));
}

#[test]
fn a_table_is_read_run_by_run() {
    // Two runs of one cluster of 4096 bytes: at cluster 2, and at cluster 7.
    let mut rec0 = record_zero(&[0x11, 1, 2, 0x11, 1, 5, 0]);
    let mut t = TableReader::open(&mut rec0, 512, 4096, 6144).expect("a table");
    assert_eq!(t.next(), Some(ReadRequest { pos: 8192, len: 4096 }));
    assert_eq!(t.usable(4096), 4);
    let parsed: Vec<Option<MftEntry>> = (0..4).map(|_| None).collect();
    t.take(parsed, 0, 0, 4096);
    assert_eq!(t.next(), Some(ReadRequest { pos: 7 * 4096, len: 2048 }));
    assert_eq!(t.usable(2048), 2);
    let parsed = vec![None, Some(entry("e", 5, false, false, 5))];
    t.take(parsed, 1, 5, 2048);
    assert_eq!(t.next(), None);
    assert_eq!((t.files(), t.bytes(), t.bytes_read()), (1, 5, 6144));
    let all = t.into_entries();
    assert_eq!(all.len(), 6);
    assert!(all[5].is_some() && all[4].is_none());
}

#[test]
fn a_short_read_ends_the_run() {
    let mut rec0 = record_zero(&[0x11, 1, 2, 0x11, 1, 5, 0]);
    let mut t = TableReader::open(&mut rec0, 512, 4096, 8192).expect("a table");
    assert_eq!(t.next(), Some(ReadRequest { pos: 8192, len: 4096 }));
    t.take(Vec::new(), 0, 0, 0);
    assert_eq!(t.next(), Some(ReadRequest { pos: 28672, len: 4096 }));
}

#[test]
fn unreadable_tables_are_errors() {
    let mut none = record_zero(&[0]);
    assert_eq!(
        TableReader::open(&mut none, 512, 4096, 8192).err().as_deref(),
        Some("Could not parse MFT data runs from record 0.")
    );
    let mut rec0 = record_zero(&[0x11, 1, 2, 0]);
    let e = TableReader::open(&mut rec0, 512, 4096, i64::MAX).err().unwrap_or_default();
    assert_eq!(
        e,
        "MFT reports 9007199254740991 records \u{2014} implausibly large, using walker instead"
    );
}

#[test]
fn volumes_are_named_by_drive_letter() {
    let v = MftScanner::new().scan("c:\\").expect("a drive");
    assert_eq!(v.drive, 'C');
    assert_eq!(v.path, r"\\.\C:");
    assert!(MftScanner::new().scan(" d: ").is_ok());
    assert_eq!(
        MftScanner::new().scan("/home").err().as_deref(),
        Some("MFT scan requires a drive-letter root (e.g. C:)")
    );
    assert!(MftScanner::new().scan("\u{e9}:").is_err());
}

#[test]
fn only_ntfs_roots_qualify() {
    assert_eq!(drive_root(" C: ").as_deref(), Some(r"C:\"));
    assert_eq!(drive_root(r"C:\").as_deref(), Some(r"C:\"));
    assert_eq!(drive_root(r"C:\a"), None);
    assert_eq!(drive_root(""), None);
    let fs = wide("nTfS");
    assert!(is_ntfs_drive_root("C:", Some(&fs)));
    assert!(!is_ntfs_drive_root(r"C:\x", Some(&fs)));
    assert!(!is_ntfs_drive_root("C:", Some(&wide("FAT32"))));
    assert!(!is_ntfs_drive_root("C:", None));
}

#[test]
fn table_progress_stops_at_95() {
    let s = MftScanner::new().with_progress();
    let p = s.report_progress(80, 0, 7, 3, 500, 1000).expect("a report");
    assert_eq!(p.percent, Percent::Of { num: 47_500, den: 1000 });
    assert_eq!(p.current_path, "MFT scan in progress...");
    let p = s.report_progress(80, 0, 7, 3, 2000, 1000).expect("a report");
    assert_eq!(p.percent, Percent::Of { num: 95, den: 1 });
    let p = s.report_progress(80, 0, 7, 3, 0, 0).expect("a report");
    assert_eq!(p.percent, Percent::Unknown);
    assert!(s.report_progress(79, 0, 7, 3, 1, 2).is_none());
    assert!(MftScanner::new().report_progress(80, 0, 7, 3, 1, 2).is_none());
}
