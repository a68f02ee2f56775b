use std::io::{Cursor, Read, Write};

use zip2dmg::estimate::{
    calc_catalog_node_counts, estimate_catalog_nodes, estimate_image_size, hfs_date,
    try_estimate_image_size, ALIGN_SIZE, BLOCK_SIZE, MIN_IMAGE_SIZE,
};
use zip2dmg::zip_reader::{
    find_app_root, list_entries, list_member, Listing, ZipError, ZipRecord,
};
use zip2dmg::{ZipEntries, ZipEntry};

/// Helper: create a minimal .app bundle as a ZIP archive in memory.
fn create_minimal_app_zip() -> Vec<u8> {
    let mut buf = Cursor::new(Vec::new());
    {
        let mut writer = zip::ZipWriter::new(&mut buf);
        let dir_opts = zip::write::SimpleFileOptions::default()
            .unix_permissions(0o755)
            .compression_method(zip::CompressionMethod::Stored);
        let file_opts = zip::write::SimpleFileOptions::default()
            .unix_permissions(0o644)
            .compression_method(zip::CompressionMethod::Deflated);

        // Directories
        writer.add_directory("TestApp.app/", dir_opts.clone()).unwrap();
        writer.add_directory("TestApp.app/Contents/", dir_opts.clone()).unwrap();
        writer.add_directory("TestApp.app/Contents/MacOS/", dir_opts.clone()).unwrap();
        writer.add_directory("TestApp.app/Contents/Resources/", dir_opts.clone()).unwrap();
        writer.add_directory("TestApp.app/Frameworks/", dir_opts.clone()).unwrap();
        writer.add_directory("TestApp.app/Frameworks/Helper.framework/", dir_opts.clone()).unwrap();
        writer
            .add_directory("TestApp.app/Frameworks/Helper.framework/Versions/", dir_opts.clone())
            .unwrap();
        writer
            .add_directory("TestApp.app/Frameworks/Helper.framework/Versions/A/", dir_opts.clone())
            .unwrap();

        // Info.plist
        let info_plist = r#"<?xml version="1.0" encoding="UTF-8"?>
<!DOCTYPE plist PUBLIC "-//Apple//DTD PLIST 1.0//EN" "http://www.apple.com/DTDs/PropertyList-1.0.dtd">
<plist version="1.0">
<dict>
    <key>CFBundleIdentifier</key>
    <string>com.example.testapp</string>
    <key>CFBundleName</key>
    <string>TestApp</string>
    <key>CFBundleExecutable</key>
    <string>TestApp</string>
    <key>CFBundleVersion</key>
    <string>1.0</string>
</dict>
</plist>"#;
        writer.start_file("TestApp.app/Contents/Info.plist", file_opts.clone()).unwrap();
        writer.write_all(info_plist.as_bytes()).unwrap();

        // Main executable (tiny stub — not a real Mach-O, just placeholder bytes)
        let exe_data = b"\xfe\xed\xfa\xce\x00\x00\x00\x01";
        let exe_opts = zip::write::SimpleFileOptions::default()
            .unix_permissions(0o755)
            .compression_method(zip::CompressionMethod::Deflated);
        writer.start_file("TestApp.app/Contents/MacOS/TestApp", exe_opts).unwrap();
        writer.write_all(exe_data).unwrap();

        // Framework helper file
        let helper_data = b"helper-content-placeholder";
        writer
            .start_file(
                "TestApp.app/Frameworks/Helper.framework/Versions/A/Helper",
                file_opts.clone(),
            )
            .unwrap();
        writer.write_all(helper_data).unwrap();

        // Symlinks (framework convention)
        writer
            .add_symlink(
                "TestApp.app/Frameworks/Helper.framework/Versions/Current",
                "A",
                zip::write::SimpleFileOptions::default(),
            )
            .unwrap();
        writer
            .add_symlink(
                "TestApp.app/Frameworks/Helper.framework/Helper",
                "Versions/Current/Helper",
                zip::write::SimpleFileOptions::default(),
            )
            .unwrap();

        writer.finish().unwrap();
    }
    buf.into_inner()
}

/// Build a minimal ZIP containing a `.app` bundle (single file), used
/// for pure-function tests.
fn minimal_app_zip() -> Vec<u8> {
    let mut buf = Cursor::new(Vec::new());
    {
        let mut w = zip::ZipWriter::new(&mut buf);
        let dir_opts = zip::write::SimpleFileOptions::default()
            .unix_permissions(0o755)
            .compression_method(zip::CompressionMethod::Stored);
        let file_opts = zip::write::SimpleFileOptions::default()
            .unix_permissions(0o644)
            .compression_method(zip::CompressionMethod::Deflated);
        w.add_directory("T.app/", dir_opts).unwrap();
        w.add_directory("T.app/Contents/", dir_opts).unwrap();
        w.add_directory("T.app/Contents/MacOS/", dir_opts).unwrap();
        w.start_file("T.app/Contents/MacOS/T", file_opts).unwrap();
        w.write_all(b"hello").unwrap();
        w.finish().unwrap();
    }
    buf.into_inner()
}

/// An archive with empty files of the given names.
fn zip_of(names: &[&str]) -> Vec<u8> {
    let mut buf = Cursor::new(Vec::new());
    {
        let mut w = zip::ZipWriter::new(&mut buf);
        for name in names {
            w.start_file(*name, zip::write::SimpleFileOptions::default()).unwrap();
        }
        w.finish().unwrap();
    }
    buf.into_inner()
}

fn record(name: &str) -> ZipRecord {
    ZipRecord {
        name: name.to_string(),
        is_dir: false,
        is_symlink: false,
        unix_mode: None,
        size: 0,
    }
}

fn file(size: u64) -> ZipEntry {
    ZipEntry::File { relative_path: "f".to_string(), zip_index: 0, size, mode: 0o644 }
}

#[test]
fn test_zip_entries_parse() {
    let zip_data = create_minimal_app_zip();
    let entries = ZipEntries::from_zip_data(&zip_data).expect("failed to parse ZIP entries");

    assert_eq!(entries.root_name, "TestApp.app");
    // Should have: Info.plist, TestApp, Helper, Current (symlink), Helper (symlink)
    // + directories that were explicit entries
    assert!(!entries.items.is_empty(), "should have some entries");
}

#[test]
fn test_zip_entries_with_symlinks() {
    let zip_data = create_minimal_app_zip();
    let entries = ZipEntries::from_zip_data(&zip_data).expect("failed to parse ZIP entries");

    // Should find symlink entries.
    let symlinks: Vec<_> = entries
        .items
        .iter()
        .filter_map(|e| match e {
            ZipEntry::Symlink { relative_path, target, .. } => Some((relative_path, target)),
            _ => None,
        })
        .collect();

    assert!(!symlinks.is_empty(), "should have at least one symlink");

    // Verify the Helper symlink exists.
    let helper_sym = symlinks.iter().find(|(p, _)| p.contains("Helper.framework/Helper"));
    assert!(helper_sym.is_some(), "Helper symlink not found");

    let (_, target) = helper_sym.unwrap();
    assert_eq!(*target, "Versions/Current/Helper", "Helper symlink target mismatch");
}

#[test]
fn test_estimate_image_size_aligned_and_above_min() {
    let zip_data = minimal_app_zip();
    let entries = ZipEntries::from_zip_data(&zip_data).expect("parse zip");
    let size = estimate_image_size(&entries.items);

    // Must not fall below the minimum image size
    assert!(size >= MIN_IMAGE_SIZE, "size {size} < MIN_IMAGE_SIZE {MIN_IMAGE_SIZE}");
    // Must be aligned to ALIGN_SIZE
    assert_eq!(size % ALIGN_SIZE, 0, "size {size} is not aligned to ALIGN_SIZE {ALIGN_SIZE}");
    // Must be a multiple of the block size
    assert_eq!(size % BLOCK_SIZE as u64, 0, "size {size} is not a multiple of BLOCK_SIZE");
}

#[test]
fn test_estimate_image_size_grows_with_file_size() {
    // The estimate should grow monotonically with file size
    let small = minimal_app_zip();
    let entries_small = ZipEntries::from_zip_data(&small).unwrap();
    let size_small = estimate_image_size(&entries_small.items);

    // Build a ZIP containing a large file
    let mut buf = Cursor::new(Vec::new());
    {
        let mut w = zip::ZipWriter::new(&mut buf);
        let dir_opts = zip::write::SimpleFileOptions::default()
            .compression_method(zip::CompressionMethod::Stored);
        let file_opts = zip::write::SimpleFileOptions::default()
            .compression_method(zip::CompressionMethod::Stored);
        w.add_directory("T.app/", dir_opts.clone()).unwrap();
        w.add_directory("T.app/Contents/", dir_opts.clone()).unwrap();
        w.add_directory("T.app/Contents/MacOS/", dir_opts).unwrap();
        w.start_file("T.app/Contents/MacOS/T", file_opts).unwrap();
        // Write 1 MiB of data to ensure it spans multiple blocks
        w.write_all(&vec![0u8; 1024 * 1024]).unwrap();
        w.finish().unwrap();
    }
    let entries_big = ZipEntries::from_zip_data(&buf.into_inner()).unwrap();
    let size_big = estimate_image_size(&entries_big.items);

    assert!(
        size_big >= size_small,
        "large-file estimate {size_big} < small-file estimate {size_small}"
    );
}

#[test]
fn entries_are_listed_in_archive_order() {
    let entries = ZipEntries::from_zip_data(&create_minimal_app_zip()).unwrap();
    let paths: Vec<&str> = entries.items.iter().map(|e| e.relative_path().as_str()).collect();
    assert_eq!(
        paths,
        vec![
            "Contents",
            "Contents/MacOS",
            "Contents/Resources",
            "Frameworks",
            "Frameworks/Helper.framework",
            "Frameworks/Helper.framework/Versions",
            "Frameworks/Helper.framework/Versions/A",
            "Contents/Info.plist",
            "Contents/MacOS/TestApp",
            "Frameworks/Helper.framework/Versions/A/Helper",
            "Frameworks/Helper.framework/Versions/Current",
            "Frameworks/Helper.framework/Helper",
        ]
    );
    match &entries.items[0] {
        ZipEntry::Directory { mode, .. } => assert_eq!(mode & 0o777, 0o755),
        other => panic!("not a directory: {:?}", other),
    }
    match &entries.items[8] {
        ZipEntry::File { zip_index, size, mode, .. } => {
            assert_eq!((*zip_index, *size, mode & 0o777), (9, 8, 0o755));
        }
        other => panic!("not a file: {:?}", other),
    }
}

#[test]
fn file_contents_are_read_by_index() {
    let mut entries = ZipEntries::from_zip_data(&create_minimal_app_zip()).unwrap();
    let mut content = Vec::new();
    entries.read_file(10).unwrap().read_to_end(&mut content).unwrap();
    assert_eq!(content, b"helper-content-placeholder".to_vec());
    content.clear();
    entries.read_file(9).unwrap().read_to_end(&mut content).unwrap();
    assert_eq!(content, b"\xfe\xed\xfa\xce\x00\x00\x00\x01".to_vec());
    assert_eq!(entries.read_file(99).err(), Some(ZipError::Unreadable));
}

#[test]
fn file_contents_are_read_piece_by_piece() {
    let mut entries = ZipEntries::from_zip_data(&minimal_app_zip()).unwrap();
    let mut reader = entries.read_file(3).unwrap();
    let mut piece = [0u8; 3];
    assert_eq!(reader.read(&mut []).unwrap(), 0);
    assert_eq!((reader.read(&mut piece).unwrap(), piece), (3, *b"hel"));
    assert_eq!((reader.read(&mut piece).unwrap(), piece), (2, *b"lol"));
    assert_eq!((reader.read(&mut piece).unwrap(), piece), (0, *b"lol"));
}

#[test]
fn a_corrupt_file_opens_and_fails_when_it_is_read() {
    let mut buf = Cursor::new(Vec::new());
    {
        let mut w = zip::ZipWriter::new(&mut buf);
        let options = zip::write::SimpleFileOptions::default()
            .compression_method(zip::CompressionMethod::Stored);
        w.start_file("A.app/file", options).unwrap();
        w.write_all(b"content!").unwrap();
        w.finish().unwrap();
    }
    let mut data = buf.into_inner();
    let at = data.windows(8).position(|w| w == b"content!").unwrap();
    data[at] = b'C';
    let mut entries = ZipEntries::from_zip_data(&data).unwrap();
    let mut direct = zip::ZipArchive::new(Cursor::new(data.clone())).unwrap();
    let expected = direct.by_index(0).unwrap().read_to_end(&mut Vec::new()).unwrap_err();
    let mut reader = entries.read_file(0).unwrap();
    let found = reader.read_to_end(&mut Vec::new()).unwrap_err();
    assert_eq!((found.kind(), found.to_string()), (expected.kind(), expected.to_string()));
    assert!(reader.read(&mut []).is_ok());
    assert!(reader.read(&mut [0]).is_err());
}

#[test]
fn entries_need_the_targets_of_their_links() {
    let mut link = record("A.app/link");
    link.is_symlink = true;
    let mut outside = record("B.app/link");
    outside.is_symlink = true;
    let records = vec![outside, record("A.app/f"), link];
    let target = Some("f".to_string());
    let items = list_entries("A.app", &records, &vec![None, None, target.clone()]).unwrap();
    assert_eq!(items.len(), 2);
    assert!(matches!(&items[0], ZipEntry::File { relative_path, zip_index: 1, mode: 0o644, .. }
        if relative_path == "f"));
    assert!(matches!(&items[1], ZipEntry::Symlink { relative_path, target, mode: 0o777 }
        if relative_path == "link" && target == "f"));
    assert_eq!(
        list_entries("A.app", &records, &vec![target.clone(), target.clone(), None]).err(),
        Some(ZipError::SymlinkTarget)
    );
    assert_eq!(list_entries("A.app", &records, &vec![]).err(), Some(ZipError::SymlinkTarget));
    assert_eq!(list_entries("C.app", &records, &vec![]).err(), Some(ZipError::NoEntries));
}

#[test]
fn unusable_archives_are_refused() {
    assert_eq!(ZipEntries::from_zip_data(b"no archive").err(), Some(ZipError::Malformed));
    assert_eq!(
        ZipEntries::from_zip_data(&zip_of(&["readme.txt", "dir/a.app"])).err(),
        Some(ZipError::NoAppRoot)
    );
    assert_eq!(
        ZipEntries::from_zip_data(&zip_of(&["a.app"])).err(),
        Some(ZipError::NoEntries)
    );
}

#[test]
fn unreadable_members_and_targets_are_refused() {
    let mut buf = Cursor::new(Vec::new());
    {
        let mut w = zip::ZipWriter::new(&mut buf);
        let options = zip::write::SimpleFileOptions::default()
            .compression_method(zip::CompressionMethod::Stored);
        w.add_symlink("A.app/link", "target!", options).unwrap();
        w.finish().unwrap();
    }
    let good = buf.into_inner();
    assert!(ZipEntries::from_zip_data(&good).is_ok());
    // A changed target no longer has the checksum that the archive gives.
    let at = good.windows(7).position(|w| w == b"target!").unwrap();
    let mut changed = good.clone();
    changed[at] = b'T';
    assert_eq!(ZipEntries::from_zip_data(&changed).err(), Some(ZipError::SymlinkTarget));
    // A member whose compression method is not known cannot be opened.
    let directory = good.windows(4).position(|w| w == b"PK\x01\x02").unwrap();
    let mut unknown = good.clone();
    unknown[directory + 10] = 77;
    assert_eq!(ZipEntries::from_zip_data(&unknown).err(), Some(ZipError::Unreadable));
}

#[test]
fn root_is_the_shortest_and_then_the_first() {
    let root = |names: &[&str]| {
        find_app_root(&names.iter().map(|n| record(n)).collect())
    };
    assert_eq!(root(&["Long.app/x", "B.app/x", "A.app/x"]), Some("A.app".to_string()));
    assert_eq!(root(&["A.app/x", "B.app/x", "Long.app/x"]), Some("A.app".to_string()));
    assert_eq!(root(&["x/A.app/y", "readme"]), None);
    assert_eq!(root(&["C.app"]), Some("C.app".to_string()));
    // Length counts in bytes.
    assert_eq!(root(&["\u{e9}.app/x", "zz.app/x", "z.app/x"]), Some("z.app".to_string()));
    assert_eq!(root(&["\u{e9}.app/x", "zz.app/x"]), Some("zz.app".to_string()));
}

#[test]
fn members_outside_the_root_are_skipped() {
    let skipped = |name: &str| matches!(list_member("A.app", 0, &record(name)), Listing::Skipped);
    assert!(skipped("A.app"));
    assert!(skipped("A.app/"));
    assert!(skipped("A.appx/file"));
    assert!(skipped("other/file"));
    assert!(!skipped("A.app/file"));
}

#[test]
fn members_without_a_mode_get_a_default_one() {
    let mut dir = record("A.app/d//");
    dir.is_dir = true;
    match list_member("A.app", 1, &dir) {
        Listing::Entry(ZipEntry::Directory { relative_path, mode }) => {
            assert_eq!((relative_path.as_str(), mode), ("d", 0o755));
        }
        _ => panic!("not a directory"),
    }
    let mut link = record("A.app/l");
    link.is_symlink = true;
    match list_member("A.app", 1, &link) {
        Listing::Link { relative_path, mode } => {
            assert_eq!((relative_path.as_str(), mode), ("l", 0o777));
        }
        _ => panic!("not a link"),
    }
    let mut plain = record("A.app/f");
    plain.size = 12;
    match list_member("A.app", 7, &plain) {
        Listing::Entry(ZipEntry::File { relative_path, zip_index, size, mode }) => {
            assert_eq!((relative_path.as_str(), zip_index, size, mode), ("f", 7, 12, 0o644));
        }
        _ => panic!("not a file"),
    }
    plain.unix_mode = Some(0x7_0000 + 0o100600);
    match list_member("A.app", 7, &plain) {
        Listing::Entry(ZipEntry::File { mode, .. }) => assert_eq!(mode, 0o100600),
        _ => panic!("not a file"),
    }
}

#[test]
fn catalog_nodes_follow_the_entry_count() {
    assert_eq!(calc_catalog_node_counts(0), (1, 0, 2));
    assert_eq!(calc_catalog_node_counts(9), (1, 0, 2));
    assert_eq!(calc_catalog_node_counts(10), (2, 1, 4));
    assert_eq!(calc_catalog_node_counts(2559), (256, 1, 258));
    assert_eq!(calc_catalog_node_counts(2560), (257, 2, 260));
    assert_eq!(estimate_catalog_nodes(&vec![]), 32);
    let many: Vec<ZipEntry> = (0..2560).map(|_| file(0)).collect();
    assert_eq!(estimate_catalog_nodes(&many), 268);
}

#[test]
fn estimates_have_exact_values() {
    let mib = 1024 * 1024;
    assert_eq!(estimate_image_size(&vec![]), 16 * mib);
    assert_eq!(estimate_image_size(&vec![file(1)]), 16 * mib);
    // 25600 blocks of data, 12 of metadata, a header: 25613. One block of
    // bitmap and the second header: 25615. With a tenth more: 28176 blocks,
    // which is a little over 110 MiB.
    assert_eq!(estimate_image_size(&vec![file(100 * mib)]), 112 * mib);
    assert_eq!(estimate_image_size(&vec![file(1024 * mib)]), 1128 * mib);
}

#[test]
fn images_that_cannot_be_sized_are_refused() {
    assert_eq!(try_estimate_image_size(&vec![file(u64::MAX)]), None);
    assert_eq!(try_estimate_image_size(&vec![file(1)]), Some(16 * 1024 * 1024));
}

#[test]
fn images_have_room_for_their_files() {
    for size in [0u64, 1, 4095, 4096, 4097, 10_000_000, 123_456_789] {
        let items = vec![file(size), file(size / 2)];
        let estimate = estimate_image_size(&items);
        assert!(estimate >= size + size / 2);
        assert!(estimate_image_size(&vec![file(size), file(size / 2), file(0)]) >= estimate);
        assert!(estimate_image_size(&vec![file(size + 1), file(size / 2)]) >= estimate);
    }
}

#[test]
fn dates_count_from_1904() {
    assert_eq!(hfs_date(0), 2082844800);
    assert_eq!(hfs_date(1), 2082844801);
    assert_eq!(hfs_date(2212122495), u32::MAX);
    assert_eq!(hfs_date(2212122496), u32::MAX);
    assert_eq!(hfs_date(1 << 32), 2082844800);
}
