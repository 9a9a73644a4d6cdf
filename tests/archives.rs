use std::io::{Cursor, Read, Write};

use epub_optimizer::archive::{pack_plan, read_members, unzip, zip as repack, ArchiveError, WorkspaceItem};
use epub_optimizer::dispatch::{settle_sizes, FileSizes};

fn build(entries: &[(&str, Vec<u8>, bool)]) -> Vec<u8> {
    let mut w = zip::ZipWriter::new(Cursor::new(Vec::new()));
    for (name, data, stored) in entries {
        let method = if *stored {
            zip::CompressionMethod::Stored
        } else {
            zip::CompressionMethod::Deflated
        };
        let opts = zip::write::FileOptions::default().compression_method(method);
        if name.ends_with('/') {
            w.add_directory(*name, opts).unwrap();
        } else {
            w.start_file(*name, opts).unwrap();
            w.write_all(data).unwrap();
        }
    }
    w.finish().unwrap().into_inner()
}

fn listing(bytes: &[u8]) -> Vec<(String, Vec<u8>)> {
    let mut a = zip::ZipArchive::new(Cursor::new(bytes.to_vec())).unwrap();
    let mut out = Vec::new();
    for i in 0..a.len() {
        let mut f = a.by_index(i).unwrap();
        let mut d = Vec::new();
        f.read_to_end(&mut d).unwrap();
        out.push((f.name().to_string(), d));
    }
    out
}

fn file_item(path: &str, data: Vec<u8>) -> WorkspaceItem {
    WorkspaceItem { path: path.to_string(), is_dir: false, data }
}

fn dir_item(path: &str) -> WorkspaceItem {
    WorkspaceItem { path: path.to_string(), is_dir: true, data: Vec::new() }
}

fn verbose_xml(n: usize) -> Vec<u8> {
    let mut s = String::from("<?xml version=\"1.0\"?>\n<package>\n");
    while s.len() + 20 < n {
        s.push_str("  <item   id=\"x\" />\n");
    }
    while s.len() < n {
        s.push(' ');
    }
    s.into_bytes()
}

fn pseudo_random(n: usize) -> Vec<u8> {
    let mut x: u32 = 12345;
    (0..n)
        .map(|_| {
            x = x.wrapping_mul(1103515245).wrapping_add(12345);
            (x >> 16) as u8
        })
        .collect()
}

#[test]
fn extraction_decompresses_entries() {
    let text = b"hello hello hello hello hello hello hello".to_vec();
    let bytes = build(&[("OEBPS/a.txt", text.clone(), false)]);
    let x = unzip(bytes.clone()).unwrap();
    assert_eq!(x.files.len(), 1);
    assert_eq!(x.files[0].path, "OEBPS/a.txt");
    assert_eq!(x.files[0].data, text);
    let ms = read_members(bytes).unwrap();
    assert_eq!(ms[0].name, "OEBPS/a.txt");
    assert_eq!(ms[0].data, text);
}

#[test]
fn unsafe_entries_are_skipped_and_reported() {
    let bytes = build(&[
        ("../escape.txt", b"x".to_vec(), false),
        ("/abs.txt", b"y".to_vec(), false),
        ("ok/file.txt", b"z".to_vec(), false),
        ("dir/", Vec::new(), false),
    ]);
    let x = unzip(bytes).unwrap();
    assert_eq!(x.files.len(), 1);
    assert_eq!(x.files[0].path, "ok/file.txt");
    assert_eq!(x.unsafe_names, vec!["../escape.txt".to_string(), "/abs.txt".to_string()]);
    for f in &x.files {
        assert!(!f.path.starts_with('/'));
        assert!(!f.path.split('/').any(|c| c == ".."));
    }
}

#[test]
fn truncated_central_directory_is_corrupt() {
    let bytes = build(&[("mimetype", b"application/epub+zip".to_vec(), true), ("a.xhtml", verbose_xml(300), false)]);
    let original = bytes.clone();
    let truncated = bytes[..bytes.len() - 10].to_vec();
    assert!(matches!(unzip(truncated), Err(ArchiveError::Corrupt)));
    assert!(matches!(unzip(Vec::new()), Err(ArchiveError::Corrupt)));
    assert_eq!(bytes, original);
}

#[test]
fn round_trip_without_optimization() {
    let entries = vec![
        ("mimetype", b"application/epub+zip".to_vec(), true),
        ("META-INF/container.xml", verbose_xml(200), false),
        ("OEBPS/content.opf", verbose_xml(500), false),
        ("OEBPS/img/cover.jpg", pseudo_random(3000), false),
    ];
    let bytes = build(&entries);
    let x = unzip(bytes).unwrap();
    assert!(x.unsafe_names.is_empty());
    let items: Vec<WorkspaceItem> = x.files.iter().map(|f| file_item(&f.path, f.data.clone())).collect();
    let out = repack(&items).unwrap();
    let back = listing(&out);
    let mut expected: Vec<(String, Vec<u8>)> = entries.iter().map(|(n, d, _)| (n.to_string(), d.clone())).collect();
    expected.sort();
    assert_eq!(back, expected);
    let names: Vec<&str> = back.iter().map(|(n, _)| n.as_str()).collect();
    assert_eq!(names, vec!["META-INF/container.xml", "OEBPS/content.opf", "OEBPS/img/cover.jpg", "mimetype"]);
}

#[test]
fn repack_emits_only_empty_directories() {
    let items = vec![
        dir_item(""),
        dir_item("OEBPS"),
        file_item("OEBPS/a.xhtml", b"<p/>".to_vec()),
        dir_item("empty"),
        file_item("mimetype", b"application/epub+zip".to_vec()),
    ];
    let plan = pack_plan(&items);
    let names: Vec<&str> = plan.iter().map(|e| e.name.as_str()).collect();
    assert_eq!(names, vec!["OEBPS/a.xhtml", "empty/", "mimetype"]);
    assert!(plan[1].is_dir);
    let out = repack(&items).unwrap();
    let back = listing(&out);
    assert_eq!(back.len(), 3);
    assert_eq!(back[1].0, "empty/");
    assert_eq!(back[2].1, b"application/epub+zip".to_vec());
}

#[test]
fn repack_is_deterministic() {
    let items = vec![file_item("a.txt", verbose_xml(400)), file_item("b/c.css", b"p { }".to_vec())];
    assert_eq!(repack(&items).unwrap(), repack(&items).unwrap());
}

#[test]
fn repacked_files_are_deflated() {
    let items = vec![file_item("big.xml", verbose_xml(20000))];
    let out = repack(&items).unwrap();
    assert!(out.len() < 20000);
    let a = zip::ZipArchive::new(Cursor::new(out)).unwrap();
    let mut a = a;
    let f = a.by_index(0).unwrap();
    assert_eq!(f.compression(), zip::CompressionMethod::Deflated);
}

#[test]
fn epub_scenario_keeps_every_entry() {
    let opf = verbose_xml(500);
    let cover = pseudo_random(200 * 1024);
    let chapter = verbose_xml(10 * 1024);
    let entries = vec![
        ("mimetype", b"application/epub+zip".to_vec(), true),
        ("content.opf", opf.clone(), false),
        ("cover.jpg", cover.clone(), false),
        ("chapter1.xhtml", chapter.clone(), false),
    ];
    let bytes = build(&entries);
    let x = unzip(bytes).unwrap();
    assert_eq!(x.files.len(), 4);
    assert_eq!(x.files[0].data.len(), 20);
    // stand-in optimizer outputs: markup shrinks, the image grows and is guarded
    let shrunk_opf = opf[..400].to_vec();
    let shrunk_chapter = chapter[..9000].to_vec();
    let mut grown_cover = cover.clone();
    grown_cover.extend_from_slice(&[0u8; 100]);
    let report = settle_sizes(&vec![
        FileSizes { path: "content.opf".to_string(), before: opf.len() as u64, after: shrunk_opf.len() as u64 },
        FileSizes { path: "cover.jpg".to_string(), before: cover.len() as u64, after: grown_cover.len() as u64 },
        FileSizes { path: "chapter1.xhtml".to_string(), before: chapter.len() as u64, after: shrunk_chapter.len() as u64 },
    ]);
    assert_eq!(report.restore, vec!["cover.jpg".to_string()]);
    assert_eq!(report.saved, 100 + (10 * 1024 - 9000) as u128);
    let items = vec![
        file_item("mimetype", x.files[0].data.clone()),
        file_item("content.opf", shrunk_opf.clone()),
        file_item("cover.jpg", cover.clone()),
        file_item("chapter1.xhtml", shrunk_chapter.clone()),
    ];
    let out = repack(&items).unwrap();
    let back = listing(&out);
    let names: Vec<&str> = back.iter().map(|(n, _)| n.as_str()).collect();
    assert_eq!(names, vec!["chapter1.xhtml", "content.opf", "cover.jpg", "mimetype"]);
    assert!(back[2].1.len() <= 200 * 1024);
    assert_eq!(back[2].1, cover);
    assert!(back[1].1.len() <= opf.len());
    assert!(back[0].1.len() <= chapter.len());
    assert_eq!(back[3].1, b"application/epub+zip".to_vec());
    let sum: u128 = report.files.iter().map(|f| (f.before - f.after) as u128).sum();
    assert_eq!(report.saved, sum);
}

#[test]
fn repack_orders_by_name_whatever_the_walk() {
    let a = vec![file_item("b.txt", b"b".to_vec()), file_item("a/z.txt", b"z".to_vec()), file_item("A.txt", b"A".to_vec())];
    let b = vec![file_item("A.txt", b"A".to_vec()), file_item("b.txt", b"b".to_vec()), file_item("a/z.txt", b"z".to_vec())];
    let plan = pack_plan(&a);
    let names: Vec<&str> = plan.iter().map(|e| e.name.as_str()).collect();
    assert_eq!(names, vec!["A.txt", "a/z.txt", "b.txt"]);
    assert_eq!(repack(&a).unwrap(), repack(&b).unwrap());
}

#[test]
fn entry_marked_aes_without_encryption_is_corrupt_not_a_panic() {
    // a stored entry whose extra field is a well-formed AES record (id 0x9901)
    // while the entry itself is not flagged as encrypted
    let mut w = zip::ZipWriter::new(Cursor::new(Vec::new()));
    let opts = zip::write::FileOptions::default().compression_method(zip::CompressionMethod::Stored);
    w.start_file_with_extra_data("x.txt", opts).unwrap();
    w.write_all(&[0x6e, 0x6e, 7, 0, 2, 0, 0x41, 0x45, 3, 0, 0]).unwrap();
    w.end_extra_data().unwrap();
    w.write_all(b"data").unwrap();
    let mut bytes = w.finish().unwrap().into_inner();
    let mut patched = 0;
    for i in 0..bytes.len() - 4 {
        if bytes[i..i + 4] == [0x6e, 0x6e, 7, 0] {
            bytes[i] = 0x01;
            bytes[i + 1] = 0x99;
            patched += 1;
        }
    }
    assert!(patched >= 1);
    assert!(matches!(read_members(bytes.clone()), Err(ArchiveError::Corrupt)));
    assert!(matches!(unzip(bytes), Err(ArchiveError::Corrupt)));
}

#[test]
fn short_input_is_corrupt() {
    assert!(matches!(unzip(vec![0u8; 21]), Err(ArchiveError::Corrupt)));
    assert!(matches!(unzip(b"PK\x05\x06".to_vec()), Err(ArchiveError::Corrupt)));
}

#[test]
fn empty_workspace_packs_to_an_empty_archive() {
    let out = repack(&Vec::new()).unwrap();
    assert!(listing(&out).is_empty());
}
