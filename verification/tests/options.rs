use std::path::PathBuf;

use zip2dmg::eula::{build_eula_resources, license_resource_list, FixedResources};
use zip2dmg::gpt::FilesystemKind;
use zip2dmg::options::{
    build_decorations, parse_add_file, parse_compression, parse_drop_link, parse_filesystem,
    parse_icon, parse_xy, BackgroundFile, CompressionMethod, DecorationArgs, ExtraFile, HostFile,
    OptionError,
};
use zip2dmg::text;
use zip2dmg::DmgDecorations;

#[test]
fn formats_have_several_names() {
    let cases = [
        ("raw", CompressionMethod::Raw),
        ("none", CompressionMethod::Raw),
        ("UDZO", CompressionMethod::Zlib),
        ("zlib", CompressionMethod::Zlib),
        ("Deflate", CompressionMethod::Zlib),
        ("UDBZ", CompressionMethod::Bzip2),
        ("bzip2", CompressionMethod::Bzip2),
        ("bz2", CompressionMethod::Bzip2),
        ("ULFO", CompressionMethod::Lzfse),
        ("lzfse", CompressionMethod::Lzfse),
        ("ulmo", CompressionMethod::Xz),
        ("XZ", CompressionMethod::Xz),
        ("lzma", CompressionMethod::Xz),
        ("lzma2", CompressionMethod::Xz),
    ];
    for (name, method) in cases {
        assert_eq!(parse_compression(name).unwrap(), method, "{}", name);
        assert_eq!(parse_compression(&name.to_ascii_uppercase()).unwrap(), method, "{}", name);
    }
    match parse_compression("Zip") {
        Err(OptionError::UnknownFormat(s)) => assert_eq!(s, "Zip"),
        other => panic!("{:?}", other),
    }
}

#[test]
fn filesystems_have_names() {
    assert_eq!(parse_filesystem("HFS+").unwrap(), FilesystemKind::HfsPlus);
    assert_eq!(parse_filesystem("hfs").unwrap(), FilesystemKind::HfsPlus);
    assert_eq!(parse_filesystem("Apfs").unwrap(), FilesystemKind::Apfs);
    match parse_filesystem("EXT4") {
        Err(OptionError::UnknownFilesystem(s)) => assert_eq!(s, "ext4"),
        other => panic!("{:?}", other),
    }
}

#[test]
fn pairs_are_read() {
    assert_eq!(parse_xy("480,190").unwrap(), (480, 190));
    assert_eq!(parse_xy(" -3 ,\t+4\n").unwrap(), (-3, 4));
    assert_eq!(parse_xy("-2147483648,2147483647").unwrap(), (i32::MIN, i32::MAX));
    assert!(matches!(parse_xy("1"), Err(OptionError::NotAPair(s)) if s == "1"));
    assert!(matches!(parse_xy("1,2,3"), Err(OptionError::NotAPair(s)) if s == "1,2,3"));
    assert!(matches!(parse_xy(" a ,2"), Err(OptionError::InvalidX(s)) if s == "a"));
    assert!(matches!(parse_xy("1,"), Err(OptionError::InvalidY(s)) if s.is_empty()));
    assert!(matches!(parse_xy("2147483648,1"), Err(OptionError::InvalidX(_))));
    assert!(matches!(parse_xy("1,-2147483649"), Err(OptionError::InvalidY(_))));
    assert!(matches!(parse_xy("1,-"), Err(OptionError::InvalidY(_))));
    assert!(matches!(parse_xy("1,+-2"), Err(OptionError::InvalidY(_))));
}

#[test]
fn numbers_read_back_from_their_text() {
    for n in [0, 1, -1, 9, 10, -10, 12345, i32::MAX, i32::MIN] {
        assert_eq!(text::decimal_text(n), n.to_string());
        assert_eq!(text::parse_number(&n.to_string()), Some(n));
        assert_eq!(parse_xy(&format!("{},{}", n, -5)).unwrap(), (n, -5));
    }
    assert_eq!(text::parse_number("99999999999999999999999"), None);
    assert_eq!(text::parse_number("007"), Some(7));
    assert_eq!(text::parse_number("1 "), None);
    assert_eq!(text::unsigned_text(u64::MAX), u64::MAX.to_string());
}

#[test]
fn text_is_taken_apart_as_by_std() {
    for s in ["", "a", "a,b", ",a,,b,", "\u{a0} x \u{3000}", "Ünïcode,\u{1F600}"] {
        let split: Vec<&str> = s.split(',').collect();
        assert_eq!(text::split(s, ',', None), split);
        let split: Vec<&str> = s.splitn(2, ',').collect();
        assert_eq!(text::split(s, ',', Some(2)), split);
        assert_eq!(text::trim(s), s.trim());
        assert_eq!(text::to_lower(s), s.to_ascii_lowercase());
        assert_eq!(text::replace(s, 'a', 'z'), s.replace('a', "z"));
        assert_eq!(text::trim_end_matches(s, ','), s.trim_end_matches(','));
        assert_eq!(text::count(s, ','), s.matches(',').count());
        for t in ["", "a", "b", ",b", "a,b", "zz"] {
            assert_eq!(text::has(s, t), s.contains(t));
            assert_eq!(text::has_prefix(s, t), s.starts_with(t));
            assert_eq!(text::has_suffix(s, t), s.ends_with(t));
            assert_eq!(text::before(s, t), s < t);
            assert_eq!(text::same(s, t), s == t);
        }
    }
}

#[test]
fn drop_links_have_a_default() {
    for yes in ["yes", "YES", "true", "1"] {
        assert_eq!(parse_drop_link(yes, (7, 8)).unwrap(), (7, 8));
    }
    assert_eq!(parse_drop_link("1,2", (7, 8)).unwrap(), (1, 2));
    assert!(matches!(parse_drop_link("no", (7, 8)), Err(OptionError::NotAPair(_))));
}

#[test]
fn icons_have_a_name_and_a_place() {
    assert_eq!(parse_icon(" My App.app , 1 , 2 ").unwrap(), ("My App.app".to_string(), 1, 2));
    assert!(matches!(parse_icon("a,1"), Err(OptionError::IconFormat(_))));
    assert!(matches!(parse_icon("a,x,1"), Err(OptionError::InvalidX(_))));
    assert!(matches!(parse_icon("a,1,y"), Err(OptionError::InvalidY(_))));
}

#[test]
fn extra_files_have_a_target() {
    let file = parse_add_file(" src , /target ").unwrap();
    assert_eq!((file.source.as_str(), file.target.as_str(), file.position), ("src", "/target", None));
    let file = parse_add_file("src,dst, 5, -6").unwrap();
    assert_eq!(file.position, Some((5, -6)));
    assert!(matches!(parse_add_file("src"), Err(OptionError::AddFileFormat(_))));
    assert!(matches!(parse_add_file("src,dst,5"), Err(OptionError::AddFileFormat(_))));
    assert!(matches!(parse_add_file("src,dst,x,5"), Err(OptionError::InvalidFileX(_))));
    // The fourth part takes all that is left.
    assert!(matches!(parse_add_file("src,dst,5,6,7"), Err(OptionError::InvalidFileY(s)) if s == "6,7"));
}

fn no_options() -> DecorationArgs {
    DecorationArgs {
        app_drop_link: None,
        ql_drop_link: None,
        background: None,
        volume_icon: None,
        window_pos: None,
        window_size: None,
        icon_size: None,
        text_size: None,
        icons: vec![],
        hide_extensions: vec![],
        eula: None,
        add_files: vec![],
    }
}

#[test]
fn options_become_decorations() {
    let d = build_decorations(DecorationArgs {
        app_drop_link: Some("yes".to_string()),
        ql_drop_link: Some("yes".to_string()),
        background: Some(BackgroundFile {
            path: PathBuf::from("/bg.png"),
            exists: true,
            file_name: Some("bg.png".to_string()),
        }),
        volume_icon: Some(HostFile { path: PathBuf::from("/v.icns"), exists: true }),
        window_pos: Some("1,2".to_string()),
        window_size: Some("3,4".to_string()),
        icon_size: Some(5),
        text_size: Some(12),
        icons: vec!["a,7,8".to_string()],
        hide_extensions: vec!["h.txt".to_string()],
        eula: Some(HostFile { path: PathBuf::from("/eula"), exists: true }),
        add_files: vec![
            ExtraFile { spec_text: " s ,t,9,10".to_string(), exists: true },
            ExtraFile { spec_text: "u,v".to_string(), exists: true },
        ],
    })
    .unwrap();
    assert_eq!(d.app_drop_link(), Some((490, 190)));
    assert_eq!(d.ql_drop_link(), Some((490, 390)));
    assert_eq!(d.background(), Some(&(PathBuf::from("/bg.png"), "bg.png".to_string())));
    assert_eq!(d.volicon(), Some(&PathBuf::from("/v.icns")));
    assert_eq!(d.window_pos(), Some((1, 2)));
    assert_eq!(d.window_size(), Some((3, 4)));
    assert_eq!((d.icon_size(), d.text_size()), (Some(5), Some(12)));
    assert_eq!(d.icon_positions(), &[("a".to_string(), 7, 8), ("t".to_string(), 9, 10)]);
    assert_eq!(d.hide_extensions(), &["h.txt".to_string()]);
    assert_eq!(d.eula(), Some(&PathBuf::from("/eula")));
    assert_eq!(
        d.extra_files(),
        &[(PathBuf::from("s"), "t".to_string()), (PathBuf::from("u"), "v".to_string())]
    );
    assert!(d.needs_ds_store());
}

#[test]
fn no_options_are_no_decorations() {
    let d = build_decorations(no_options()).unwrap();
    assert!(!d.needs_ds_store());
    assert_eq!(d.app_drop_link(), None);
    assert_eq!(d.eula(), None);
    assert!(d.extra_files().is_empty());
    assert!(!DmgDecorations::default().needs_ds_store());
    assert!(!DmgDecorations::builder().volicon("/v".into()).eula("/e".into()).build().needs_ds_store());
    assert!(DmgDecorations::builder().text_size(1).build().needs_ds_store());
}

#[test]
fn text_size_has_a_range() {
    let sized = |size: u32| {
        build_decorations(DecorationArgs { text_size: Some(size), ..no_options() })
    };
    for size in 10..=16 {
        assert_eq!(sized(size).unwrap().text_size(), Some(size));
    }
    for size in [0, 9, 17, 20, u32::MAX] {
        assert!(matches!(sized(size), Err(OptionError::TextSize(n)) if n == size));
    }
    // The window is looked at before the text size, the icons after it.
    assert!(matches!(
        build_decorations(DecorationArgs {
            window_size: Some("3".to_string()),
            text_size: Some(9),
            ..no_options()
        }),
        Err(OptionError::NotAPair(_))
    ));
    assert!(matches!(
        build_decorations(DecorationArgs {
            text_size: Some(9),
            icons: vec!["a".to_string()],
            ..no_options()
        }),
        Err(OptionError::TextSize(9))
    ));
}

#[test]
fn bad_options_are_refused() {
    let missing = || Some(HostFile { path: PathBuf::from("x"), exists: false });
    let refused = |args: DecorationArgs| build_decorations(args).unwrap_err();
    assert!(matches!(
        refused(DecorationArgs { app_drop_link: Some("x".to_string()), ..no_options() }),
        OptionError::NotAPair(_)
    ));
    assert!(matches!(
        refused(DecorationArgs {
            background: Some(BackgroundFile {
                path: PathBuf::from("x"),
                exists: false,
                file_name: Some("x".to_string())
            }),
            ..no_options()
        }),
        OptionError::BackgroundNotFound
    ));
    assert!(matches!(
        refused(DecorationArgs {
            background: Some(BackgroundFile {
                path: PathBuf::from("/"),
                exists: true,
                file_name: None
            }),
            ..no_options()
        }),
        OptionError::BackgroundWithoutName
    ));
    assert!(matches!(
        refused(DecorationArgs { volume_icon: missing(), ..no_options() }),
        OptionError::VolumeIconNotFound
    ));
    assert!(matches!(
        refused(DecorationArgs { eula: missing(), ..no_options() }),
        OptionError::EulaNotFound
    ));
    assert!(matches!(
        refused(DecorationArgs { icons: vec!["a,1,2".to_string(), "b".to_string()], ..no_options() }),
        OptionError::IconFormat(s) if s == "b"
    ));
    assert!(matches!(
        refused(DecorationArgs {
            add_files: vec![ExtraFile {
                spec_text: " s ,t".to_string(),
                exists: false
            }],
            ..no_options()
        }),
        OptionError::ExtraFileNotFound(s) if s == "s"
    ));
    // The first problem is the one that is told.
    assert!(matches!(
        refused(DecorationArgs {
            window_pos: Some("x".to_string()),
            eula: missing(),
            ..no_options()
        }),
        OptionError::NotAPair(_)
    ));
}

#[test]
fn licenses_have_six_resources() {
    let list = build_eula_resources(b"agree".to_vec(), Some("RTF")).unwrap();
    let heads: Vec<(&str, &str, &str)> = list
        .iter()
        .map(|(kind, e)| (kind.as_str(), e.id.as_str(), e.name.as_str()))
        .collect();
    assert_eq!(
        heads,
        vec![
            ("LPic", "5000", ""),
            ("STR#", "5000", "English buttons"),
            ("STR#", "5002", "English"),
            ("RTF ", "5000", "English"),
            ("TMPL", "128", "LPic"),
            ("styl", "5000", "English"),
        ]
    );
    assert!(list.iter().all(|(_, e)| e.attributes == 0));
    assert_eq!(list[0].1.data, vec![0, 0, 0, 2, 0, 0, 0, 0, 0, 0, 0, 0, 0, 4, 0, 0]);
    assert_eq!(&list[1].1.data[..16], b"\x00\x06\x0dEnglish test1");
    assert_eq!(list[3].1.data, b"agree".to_vec());
    assert_eq!(&list[4].1.data[..20], b"\x13Default Language ID");
    assert_eq!(list[5].1.data.len(), 62);
}

#[test]
fn license_type_goes_by_the_extension() {
    let kind = |extension: Option<&str>| {
        build_eula_resources(vec![], extension).unwrap()[3].0.clone()
    };
    assert_eq!(kind(Some("rtf")), "RTF ");
    assert_eq!(kind(Some("txt")), "TEXT");
    assert_eq!(kind(Some("rtfd")), "TEXT");
    assert_eq!(kind(None), "TEXT");
}

#[test]
fn fixed_resources_are_laid_out_around_the_license() {
    let fixed = FixedResources {
        lpic: vec![1],
        buttons: vec![2],
        prompt: vec![3],
        template: vec![4],
        style: vec![5],
    };
    let list = license_resource_list(fixed, vec![9], None);
    let data: Vec<u8> = list.iter().map(|(_, e)| e.data[0]).collect();
    assert_eq!(data, vec![1, 2, 3, 9, 4, 5]);
}
