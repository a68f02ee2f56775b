use zip2dmg::apfs::{
    finder_info, split_parent_and_name, volume_blocks, DirTable, Placement, ROOT_INODE,
};
use zip2dmg::ds_store::{layout_file, DsStoreBuilder, DsStoreError};
use zip2dmg::gpt::FilesystemKind;
use zip2dmg::tree::{categorize_and_sort_entries, path_components, volume_path};
use zip2dmg::volume::{
    creation_plan, failure_message, find_app_icon, first_attempt, is_already_there,
    is_out_of_space, next_attempt, parent_dirs, Attempt, VolumeStep,
};
use zip2dmg::{DmgDecorations, ZipEntry};

fn dir(path: &str, mode: u16) -> ZipEntry {
    ZipEntry::Directory { relative_path: path.to_string(), mode }
}

fn file(path: &str, zip_index: usize) -> ZipEntry {
    ZipEntry::File { relative_path: path.to_string(), zip_index, size: 10, mode: 0o100644 }
}

fn link(path: &str, target: &str) -> ZipEntry {
    ZipEntry::Symlink {
        relative_path: path.to_string(),
        target: target.to_string(),
        mode: 0o120777,
    }
}

#[test]
fn directories_come_shallowest_first() {
    let items = vec![
        dir("b/c", 0o40700),
        file("b/c/x", 3),
        dir("b", 0o40755),
        dir("a", 0o40755),
    ];
    let sorted = categorize_and_sort_entries("T.app", &items);
    let dirs: Vec<(&str, u16)> = sorted.dirs.iter().map(|d| (d.path.as_str(), d.mode)).collect();
    assert_eq!(
        dirs,
        vec![
            ("/T.app", 0o755),
            ("/T.app/a", 0o755),
            ("/T.app/b", 0o755),
            ("/T.app/b/c", 0o700),
        ]
    );
    assert_eq!(sorted.files.len(), 1);
    assert_eq!(sorted.files[0].path, "/T.app/b/c/x");
    assert_eq!((sorted.files[0].zip_index, sorted.files[0].size), (3, 10));
    assert_eq!(sorted.files[0].mode, 0o644);
}

#[test]
fn missing_directories_are_added() {
    let items = vec![file("x/y/z", 0), file("x\\w\\v", 1)];
    let sorted = categorize_and_sort_entries("T.app", &items);
    let dirs: Vec<&str> = sorted.dirs.iter().map(|d| d.path.as_str()).collect();
    assert_eq!(dirs, vec!["/T.app", "/T.app/x", "/T.app/x/w", "/T.app/x/y"]);
    assert!(sorted.dirs.iter().all(|d| d.mode == 0o755));
    assert_eq!(sorted.files[1].path, "/T.app/x/w/v");
}

#[test]
fn the_first_entry_at_a_path_counts() {
    let items = vec![
        file("a", 0),
        dir("a", 0o755),
        link("a", "b"),
        file("a", 9),
        link("l", "x\\y"),
        file("l", 5),
    ];
    let sorted = categorize_and_sort_entries("T.app", &items);
    assert_eq!(sorted.files.len(), 1);
    assert_eq!(sorted.files[0].zip_index, 0);
    assert_eq!(sorted.symlinks.len(), 1);
    assert_eq!(sorted.symlinks[0].path, "/T.app/l");
    assert_eq!(sorted.symlinks[0].target, "x/y");
    assert_eq!(sorted.symlinks[0].mode, 0o777);
    assert_eq!(sorted.dirs.len(), 1);
}

#[test]
fn a_listed_bundle_keeps_its_mode() {
    let sorted = categorize_and_sort_entries("T.app", &vec![dir("", 0o700), dir("z", 0o755)]);
    let dirs: Vec<(&str, u16)> = sorted.dirs.iter().map(|d| (d.path.as_str(), d.mode)).collect();
    assert_eq!(dirs, vec![("/T.app", 0o700), ("/T.app/z", 0o755)]);
}

#[test]
fn every_parent_comes_before_its_contents() {
    let items = vec![file("p/q/r/s", 0), dir("p/q", 0o755), link("p/q/t", "r"), file("p/u", 1)];
    let sorted = categorize_and_sort_entries("T.app", &items);
    let mut table = DirTable::new();
    for (i, d) in sorted.dirs.iter().enumerate() {
        assert!(table.resolve_parent(&d.path).is_ok(), "no parent for {}", d.path);
        table.insert(d.path.clone(), 100 + i as u64);
    }
    for f in &sorted.files {
        assert!(table.resolve_parent(&f.path).is_ok());
    }
    for l in &sorted.symlinks {
        assert!(table.resolve_parent(&l.path).is_ok());
    }
}

#[test]
fn paths_are_joined_and_taken_apart() {
    assert_eq!(volume_path("T.app", ""), "/T.app");
    assert_eq!(volume_path("T.app", "a\\b"), "/T.app/a/b");
    assert_eq!(path_components("/a//b/"), vec!["a".to_string(), "b".to_string()]);
    assert!(path_components("//").is_empty());
    assert_eq!(parent_dirs("/a/b/c"), vec!["/a".to_string(), "/a/b".to_string()]);
    assert_eq!(parent_dirs("a/c"), vec!["/a".to_string()]);
    assert!(parent_dirs("/c").is_empty());
    assert!(parent_dirs("c").is_empty());
}

#[test]
fn the_app_icon_is_preferred() {
    let icon = |items: &Vec<ZipEntry>| find_app_icon(items).map(|(i, p, s)| (i, p.clone(), s));
    let first = file("Contents/Resources/doc.icns", 1);
    let app = file("Contents/Resources/MyApp.ICNS", 2);
    let other = file("Contents/Resources/icon2.icns", 3);
    let elsewhere = file("Contents/AppIcon.icns", 4);
    let picture = file("Contents/Resources/appicon.png", 5);
    assert_eq!(
        icon(&vec![elsewhere.clone(), picture.clone(), first.clone(), app.clone(), other]),
        Some((2, "Contents/Resources/MyApp.ICNS".to_string(), 10))
    );
    assert_eq!(
        icon(&vec![picture.clone(), first.clone(), file("Contents/Resources/b.icns", 7)]),
        Some((1, "Contents/Resources/doc.icns".to_string(), 10))
    );
    assert_eq!(icon(&vec![elsewhere, picture]), None);
    assert_eq!(icon(&vec![dir("Contents/Resources/app.icns", 0)]), None);
    // Only the file name says whose icon it is.
    assert_eq!(
        icon(&vec![file("Contents/Resources/app/x.icns", 1), file("Contents/Resources/y.icns", 2)])
            .unwrap()
            .0,
        1
    );
}

fn describe(step: &VolumeStep) -> String {
    match step {
        VolumeStep::Dir { path, mode } => format!("dir {} {:o}", path, mode),
        VolumeStep::File { path, zip_index, size, mode } => {
            format!("file {} {} {} {:o}", path, zip_index, size, mode)
        }
        VolumeStep::Symlink { path, target, mode } => {
            format!("link {} {} {:o}", path, target, mode)
        }
        VolumeStep::PrivateData => "private".to_string(),
        VolumeStep::Background { source, dir, dir_mode, filename, path, mode } => {
            let source = source.display();
            format!("background {} {} {:o} {} {} {:o}", source, dir, dir_mode, filename, path, mode)
        }
        VolumeStep::HostIcon { source, path, mode } => {
            format!("icon {} {} {:o}", source.display(), path, mode)
        }
        VolumeStep::BundleIcon { path, zip_index, size, mode } => {
            format!("bundle-icon {} {} {} {:o}", path, zip_index, size, mode)
        }
        VolumeStep::CustomIcon => "custom-icon".to_string(),
        VolumeStep::ExtraFile { source, path, parents, dir_mode, mode } => {
            let source = source.display();
            format!("extra {} {} {:?} {:o} {:o}", source, path, parents, dir_mode, mode)
        }
        VolumeStep::DsStore { path, mode, .. } => format!("store {} {:o}", path, mode),
    }
}

fn plan(kind: FilesystemKind, items: &Vec<ZipEntry>, decorations: &DmgDecorations) -> Vec<String> {
    let sorted = categorize_and_sort_entries("T.app", items);
    let steps = creation_plan(kind, &sorted, decorations, "T.app", items).unwrap();
    steps.iter().map(describe).collect()
}

#[test]
fn a_plain_volume_has_only_the_bundle() {
    let items = vec![file("a/b", 2), link("l", "a")];
    assert_eq!(
        plan(FilesystemKind::HfsPlus, &items, &DmgDecorations::default()),
        vec![
            "dir /T.app 755",
            "dir /T.app/a 755",
            "file /T.app/a/b 2 10 644",
            "link /T.app/l a 777",
            "private",
            "dir /.HFS+ Private Directory Data 700",
        ]
    );
    assert_eq!(plan(FilesystemKind::Apfs, &items, &DmgDecorations::default()).len(), 4);
}

#[test]
fn decorations_follow_in_order() {
    let decorations = DmgDecorations::builder()
        .app_drop_link((1, 2))
        .ql_drop_link((3, 4))
        .background("/host/bg.png".into(), "bg.png".to_string())
        .extra_file("/host/one".into(), "/docs/en/one.txt".to_string())
        .extra_file("/host/two".into(), "two.txt".to_string())
        .build();
    let items = vec![file("Contents/Resources/app.icns", 5)];
    let steps = plan(FilesystemKind::Apfs, &items, &decorations);
    assert_eq!(
        steps[4..],
        [
            "link /Applications /Applications 755",
            "link /QuickLook /Library/QuickLook 755",
            "background /host/bg.png /.background 755 bg.png /.background/bg.png 644",
            "bundle-icon /.VolumeIcon.icns 5 10 644",
            "custom-icon",
            "extra /host/one /docs/en/one.txt [\"/docs\", \"/docs/en\"] 755 644",
            "extra /host/two two.txt [] 755 644",
            "store /.DS_Store 644",
        ]
    );
}

#[test]
fn the_finder_layout_is_the_one_of_the_decorations() {
    let decorations = DmgDecorations::builder()
        .app_drop_link((1, 2))
        .icon_position("readme.txt".to_string(), 3, 4)
        .build();
    let items = vec![file("a", 0)];
    let sorted = categorize_and_sort_entries("T.app", &items);
    for kind in [FilesystemKind::HfsPlus, FilesystemKind::Apfs] {
        let steps = creation_plan(kind, &sorted, &decorations, "T.app", &items).unwrap();
        let expected =
            DsStoreBuilder::new().apply_decorations(&decorations, "T.app").build().unwrap();
        assert!(matches!(steps.last(), Some(VolumeStep::DsStore { content, .. })
            if *content == expected));
        assert_eq!(layout_file(&decorations, "T.app").unwrap(), expected);
        assert_ne!(layout_file(&decorations, "U.app").unwrap(), expected);
    }
    let large = DmgDecorations::builder().hide_extension("x".repeat(40_000)).build();
    assert!(matches!(layout_file(&large, "T.app"), Err(DsStoreError::TooLarge)));
    let refused = creation_plan(FilesystemKind::Apfs, &sorted, &large, "T.app", &items);
    assert!(matches!(refused, Err(DsStoreError::TooLarge)));
}

#[test]
fn a_volume_icon_wins_over_the_bundle() {
    let decorations = DmgDecorations::builder().volicon("/host/v.icns".into()).build();
    let items = vec![file("Contents/Resources/app.icns", 5)];
    let steps = plan(FilesystemKind::Apfs, &items, &decorations);
    assert_eq!(steps[4..], ["icon /host/v.icns /.VolumeIcon.icns 644", "custom-icon"]);
}

#[test]
fn running_out_of_space_is_told_by_the_message() {
    for message in ["no free blocks", "x out of blocks y", "allocation failed", "block allocation"] {
        assert!(is_out_of_space(FilesystemKind::HfsPlus, message));
        assert!(is_out_of_space(FilesystemKind::Apfs, message));
    }
    assert!(is_out_of_space(FilesystemKind::HfsPlus, "HFS+ format failed: x"));
    assert!(!is_out_of_space(FilesystemKind::Apfs, "HFS+ format failed: x"));
    assert!(is_out_of_space(FilesystemKind::Apfs, "not enough space"));
    assert!(!is_out_of_space(FilesystemKind::HfsPlus, "not enough space"));
    assert!(!is_out_of_space(FilesystemKind::HfsPlus, "permission denied"));
    assert!(is_already_there("hfs+: '/a' already exists"));
    assert!(!is_already_there("hfs+: '/a' exists"));
}

#[test]
fn failed_builds_are_tried_again_at_twice_the_size() {
    let kind = FilesystemKind::HfsPlus;
    let mut attempt = first_attempt(100);
    let mut sizes = vec![attempt.image_size];
    while let Some(next) = next_attempt(kind, attempt, "no free blocks") {
        attempt = next;
        sizes.push(attempt.image_size);
    }
    assert_eq!(sizes, vec![100, 200, 400, 800]);
    assert_eq!(next_attempt(kind, first_attempt(100), "broken"), None);
    assert_eq!(
        failure_message(kind, Attempt { number: 3, image_size: 8 << 24 }, 1 << 24),
        "HFS+ build failed after 4 attempts (image size 128 MB, estimated 16 MB)"
    );
    assert_eq!(
        failure_message(FilesystemKind::Apfs, first_attempt(0), 0),
        "APFS build failed after 1 attempts (image size 0 MB, estimated 0 MB)"
    );
}

#[test]
fn paths_split_into_parent_and_name() {
    let split = |path: &str| split_parent_and_name(path);
    assert_eq!(split("/a"), ("/".to_string(), "a".to_string()));
    assert_eq!(split("/a/b/c"), ("/a/b".to_string(), "c".to_string()));
    assert_eq!(split("a"), ("/".to_string(), "a".to_string()));
    assert_eq!(split("a/b"), ("a".to_string(), "b".to_string()));
    assert_eq!(split("//b"), ("/".to_string(), "b".to_string()));
    assert_eq!(split("/a/"), ("/a".to_string(), "".to_string()));
}

#[test]
fn parents_are_looked_up() {
    let mut table = DirTable::new();
    table.insert("/T.app".to_string(), 17);
    assert_eq!(table.resolve_parent("/x").unwrap(), (ROOT_INODE, "x".to_string()));
    assert_eq!(table.resolve_parent("/T.app/x").unwrap(), (17, "x".to_string()));
    assert_eq!(table.resolve_parent("/T.app/y/x").unwrap_err().parent, "/T.app/y");
}

/// Adds directories until the target is ready; says which, and where the
/// target goes.
fn settle(table: &mut DirTable, target: &str) -> (Vec<(u64, String)>, u64, String) {
    let mut added = Vec::new();
    let mut next = 50;
    loop {
        match table.place(target) {
            Placement::Ready { parent_oid, name } => return (added, parent_oid, name),
            Placement::AddDir { parent_oid, name, path } => {
                table.insert(path, next);
                next += 1;
                added.push((parent_oid, name));
            }
        }
    }
}

#[test]
fn directories_above_a_target_are_added() {
    let mut table = DirTable::new();
    assert_eq!(settle(&mut table, "/x"), (vec![], ROOT_INODE, "x".to_string()));
    assert_eq!(
        settle(&mut table, "/a/b/x"),
        (vec![(ROOT_INODE, "a".to_string()), (50, "b".to_string())], 51, "x".to_string())
    );
    assert_eq!(settle(&mut table, "/a/b/x"), (vec![], 51, "x".to_string()));
    assert_eq!(table.resolve_parent("/a/x").unwrap().0, 50);
    assert_eq!(table.resolve_parent("/x").unwrap().0, ROOT_INODE);
    // What is there already is not added again.
    assert_eq!(
        settle(&mut table, "a//c/y"),
        (vec![(50, "c".to_string())], 50, "y".to_string())
    );
    assert_eq!(settle(&mut table, "/a/b/z"), (vec![], 51, "z".to_string()));
    assert_eq!(settle(&mut table, "///z"), (vec![], ROOT_INODE, "z".to_string()));
}

#[test]
fn volumes_have_a_minimum_of_blocks() {
    assert_eq!(volume_blocks(0), 64);
    assert_eq!(volume_blocks(4096 * 64 + 4095), 64);
    assert_eq!(volume_blocks(4096 * 65), 65);
}

#[test]
fn finder_info_marks_a_custom_icon() {
    let mut expected = [0u8; 32];
    expected[8] = 4;
    assert_eq!(finder_info(), expected);
}
