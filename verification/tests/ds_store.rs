use std::path::PathBuf;

use zip2dmg::bud1::{leaf_content, serialize_bud1, Bud1Record};
use zip2dmg::ds_store::{
    build_bwsp_blob, build_icvp_blob, build_iloc_blob, window_bounds, DsStoreBuilder, DsStoreError,
};
use zip2dmg::DmgDecorations;

fn be32(data: &[u8], at: usize) -> u32 {
    u32::from_be_bytes(data[at..at + 4].try_into().unwrap())
}

/// The names, type codes, sub types and data in a file's leaf.
fn records_of(data: &[u8]) -> Vec<(String, String, String, Vec<u8>)> {
    let info = be32(data, 8) as usize + 4;
    let root_block = be32(data, info + 8 + 4 * 256 + 9) as usize;
    let root = (be32(data, info + 8 + 4 * root_block) & !0x1f) as usize + 4;
    let leaf_block = be32(data, root) as usize;
    let leaf = (be32(data, info + 8 + 4 * leaf_block) & !0x1f) as usize + 4;
    let count = be32(data, leaf + 4);
    let mut pos = leaf + 8;
    let mut records = Vec::new();
    for _ in 0..count {
        let units = be32(data, pos) as usize;
        pos += 4;
        let name: Vec<u16> = data[pos..pos + units * 2]
            .chunks(2)
            .map(|c| u16::from_be_bytes([c[0], c[1]]))
            .collect();
        pos += units * 2;
        let type_code = String::from_utf8(data[pos..pos + 4].to_vec()).unwrap();
        let sub_type = String::from_utf8(data[pos + 4..pos + 8].to_vec()).unwrap();
        pos += 8;
        let len = match sub_type.as_str() {
            "blob" => {
                pos += 4;
                be32(data, pos - 4) as usize
            }
            "long" => 4,
            "bool" => 1,
            other => panic!("unknown sub type {}", other),
        };
        records.push((
            String::from_utf16(&name).unwrap(),
            type_code,
            sub_type,
            data[pos..pos + len].to_vec(),
        ));
        pos += len;
    }
    records
}

#[test]
fn test_ds_store_basic() {
    let data = DsStoreBuilder::new()
        .apply_decorations(&DmgDecorations::default(), "MyApp")
        .build()
        .unwrap();

    // First 4 bytes must be 0x00000001 (Bud1 format magic)
    assert_eq!(&data[0..4], &[0, 0, 0, 1]);
    // "Bud1" at offset 4 (prelude block content)
    assert_eq!(&data[4..8], b"Bud1");
}

#[test]
fn test_ds_store_with_applications() {
    let decorations = DmgDecorations::builder().app_drop_link((490, 190)).build();

    let data = DsStoreBuilder::new()
        .apply_decorations(&decorations, "TestApp")
        .build()
        .unwrap();

    assert_eq!(&data[0..4], &[0, 0, 0, 1]);
    assert_eq!(&data[4..8], b"Bud1");
}

#[test]
fn test_ds_store_with_background() {
    let decorations = DmgDecorations::builder()
        .background(PathBuf::from("/tmp/bg.png"), "bg.png".to_string())
        .window_size((800, 600))
        .icon_size(128)
        .build();

    let data = DsStoreBuilder::new()
        .apply_decorations(&decorations, "BgApp")
        .build()
        .unwrap();

    assert_eq!(&data[0..4], &[0, 0, 0, 1]);
    assert_eq!(&data[4..8], b"Bud1");
}

/// Comprehensive test: verify the Bud1 structure can be parsed back
/// using the same logic as the ds_store crate.
#[test]
fn test_ds_store_roundtrip_parse() {
    let decorations = DmgDecorations::builder()
        .app_drop_link((450, 190))
        .window_pos((200, 560))
        .window_size((600, 400))
        .build();

    let data = DsStoreBuilder::new()
        .apply_decorations(&decorations, "XClaw DIY.app")
        .build()
        .unwrap();

    // Parse using the same logic as ds_store crate
    // 1. Magic
    assert_eq!(&data[0..4], &[0, 0, 0, 1], "Magic must be 0x00000001");

    // 2. Prelude block (Block 0 at offset 0, size 32)
    // Content at data[4..36]: "Bud1" + info_offset + info_size + info_offset
    assert_eq!(&data[4..8], b"Bud1", "Prelude must start with Bud1");
    let info_offset = u32::from_be_bytes(data[8..12].try_into().unwrap());
    let _info_size = u32::from_be_bytes(data[12..16].try_into().unwrap());
    let info_offset_check = u32::from_be_bytes(data[16..20].try_into().unwrap());
    assert_eq!(info_offset, info_offset_check, "Info offset check must match");

    // 3. Info block content at info_offset + 4
    let info_start = (info_offset + 4) as usize;
    let num_offsets = u32::from_be_bytes(data[info_start..info_start + 4].try_into().unwrap());
    assert_eq!(num_offsets, 3, "Must have 3 block offsets");

    // Read offsets
    let mut off_pos = info_start + 8; // skip num_offsets + 4 unknown bytes
    let mut offsets = Vec::new();
    for _ in 0..num_offsets {
        offsets.push(u32::from_be_bytes(data[off_pos..off_pos + 4].try_into().unwrap()));
        off_pos += 4;
    }

    // Verify block addresses
    for (i, &raw_off) in offsets.iter().enumerate() {
        let addr = raw_off & !0x1fu32;
        let shift = raw_off & 0x1f;
        let block_size = 1u32 << shift;
        let content_start = (addr + 4) as usize;
        assert!(
            content_start + block_size as usize <= data.len(),
            "Block {} content must fit in buffer (start={}, size={}, buf_len={})",
            i,
            content_start,
            block_size,
            data.len()
        );
    }

    // 4. Parse DSDB block (Block 1)
    let dsdb_raw = offsets[1];
    let dsdb_addr = (dsdb_raw & !0x1f) as usize;
    let dsdb_content_start = dsdb_addr + 4;
    let root_node = u32::from_be_bytes(
        data[dsdb_content_start..dsdb_content_start + 4].try_into().unwrap(),
    );
    assert_eq!(root_node, 2, "Root node must be block 2");

    // 5. Parse Leaf block (Block 2) and verify records
    let leaf_raw = offsets[2];
    let leaf_addr = (leaf_raw & !0x1f) as usize;
    let leaf_content_start = leaf_addr + 4;
    let pair_count = u32::from_be_bytes(
        data[leaf_content_start..leaf_content_start + 4].try_into().unwrap(),
    );
    assert_eq!(pair_count, 0, "Leaf must have pair_count=0");

    let record_count = u32::from_be_bytes(
        data[leaf_content_start + 4..leaf_content_start + 8].try_into().unwrap(),
    );
    assert_eq!(record_count, 5, "Must have 5 records (bwsp, icvp, vSrn, 2xIloc)");

    // Parse leaf records
    let mut pos = leaf_content_start + 8;
    let mut parsed_records: Vec<(String, String, String)> = Vec::new();
    for _ in 0..record_count {
        let name_len = u32::from_be_bytes(data[pos..pos + 4].try_into().unwrap()) as usize;
        pos += 4;
        let name_bytes = &data[pos..pos + name_len * 2];
        let name_u16: Vec<u16> = name_bytes
            .chunks(2)
            .map(|c| u16::from_be_bytes([c[0], c[1]]))
            .collect();
        let name = String::from_utf16(&name_u16).unwrap();
        pos += name_len * 2;
        let type_code = std::str::from_utf8(&data[pos..pos + 4]).unwrap().to_string();
        pos += 4;
        let sub_type = std::str::from_utf8(&data[pos..pos + 4])
            .unwrap()
            .trim_end_matches('\0')
            .to_string();
        pos += 4;

        if sub_type == "blob" {
            let blob_len = u32::from_be_bytes(data[pos..pos + 4].try_into().unwrap()) as usize;
            pos += 4 + blob_len;
        } else if sub_type == "long" {
            pos += 4;
        }

        parsed_records.push((name, type_code, sub_type));
    }

    // Verify expected records
    assert_eq!(parsed_records[0], (".".to_string(), "bwsp".to_string(), "blob".to_string()));
    assert_eq!(parsed_records[1], (".".to_string(), "icvp".to_string(), "blob".to_string()));
    assert_eq!(parsed_records[2], (".".to_string(), "vSrn".to_string(), "long".to_string()));
    assert_eq!(parsed_records[3].1, "Iloc");
    assert_eq!(parsed_records[3].2, "blob");
    assert_eq!(parsed_records[4].1, "Iloc");
    assert_eq!(parsed_records[4].2, "blob");

    // Verify Iloc names
    let iloc_names: Vec<&str> = parsed_records[3..5].iter().map(|r| r.0.as_str()).collect();
    assert!(iloc_names.contains(&"XClaw DIY.app"), "Must have XClaw DIY.app Iloc");
    assert!(iloc_names.contains(&"Applications"), "Must have Applications Iloc");
}

/// Test that ds_store crate (third-party parser) can parse our output.
#[test]
fn test_ds_store_parseable_by_ds_store_crate() {
    let decorations = DmgDecorations::builder()
        .app_drop_link((450, 190))
        .window_pos((200, 560))
        .window_size((600, 400))
        .build();

    let data = DsStoreBuilder::new()
        .apply_decorations(&decorations, "XClaw DIY.app")
        .build()
        .unwrap();

    // Parse with ds_store crate
    let store = ds_store::DsStore::new(&data)
        .expect("ds_store crate should parse our generated .DS_Store");

    let contents = store.contents();

    // Verify "." directory has bwsp, icvp, vSrn
    let dot = contents.get(".").expect("Must have '.' entry");
    assert!(dot.contains_key("bwsp"), "Must have bwsp");
    assert!(dot.contains_key("icvp"), "Must have icvp");
    assert!(dot.contains_key("vSrn"), "Must have vSrn");

    // Verify Iloc entries
    let app = contents.get("XClaw DIY.app").expect("Must have XClaw DIY.app entry");
    assert!(app.contains_key("Iloc"), "Must have Iloc for XClaw DIY.app");

    let apps = contents.get("Applications").expect("Must have Applications entry");
    assert!(apps.contains_key("Iloc"), "Must have Iloc for Applications");
}

#[test]
fn file_has_a_fixed_size_and_layout() {
    let data = DsStoreBuilder::default().build().unwrap();
    assert_eq!(data.len(), 6148);
    assert_eq!(be32(&data, 8), 0x1000);
    assert_eq!(be32(&data, 12), 2048);
    assert_eq!(be32(&data, 4100), 3);
    assert_eq!(be32(&data, 4108), 0x05);
    assert_eq!(be32(&data, 4112), 0x45);
    assert_eq!(be32(&data, 4100 + 1032), 1);
    assert_eq!(data[4100 + 1036], 4);
    assert_eq!(&data[4100 + 1037..4100 + 1041], b"DSDB");
    // The free list: two blocks at the level of 32 bytes, none elsewhere.
    let free = 4100 + 1045;
    assert_eq!(be32(&data, free + 16), 0);
    assert_eq!(be32(&data, free + 20), 2);
    assert_eq!(be32(&data, free + 24), 0x20);
    assert_eq!(be32(&data, free + 28), 0x60);
    assert_eq!(be32(&data, free + 32), 0);
    assert!(data[4100 + 1181..].iter().all(|b| *b == 0));
}

#[test]
fn leaf_block_is_the_smallest_that_fits() {
    let record = |len: usize| Bud1Record {
        name: "a".to_string(),
        type_code: *b"test",
        sub_type: *b"blob",
        data: vec![7u8; len],
    };
    // 8 bytes of leaf header, 4 + 2 of name, 8 of codes and 4 of length.
    let shift = |len: usize| {
        let records = vec![record(len)];
        assert_eq!(leaf_content(&records).len(), 26 + len);
        be32(&serialize_bud1(&records), 4116) - 0x80
    };
    assert_eq!(shift(0), 5);
    assert_eq!(shift(2), 5);
    assert_eq!(shift(3), 6);
    assert_eq!(shift(34), 6);
    assert_eq!(shift(35), 7);
    assert_eq!(shift(3900), 12);
}

#[test]
fn records_carry_settings() {
    let decorations = DmgDecorations::builder()
        .icon_position("First.app".to_string(), 1, -2)
        .icon_position("Applications".to_string(), 30, 40)
        .app_drop_link((490, 190))
        .ql_drop_link((490, 390))
        .hide_extension("First.app".to_string())
        .build();
    let data = DsStoreBuilder::new()
        .apply_decorations(&decorations, "First.app")
        .build()
        .unwrap();
    let records = records_of(&data);
    let names: Vec<(&str, &str)> = records.iter().map(|r| (r.0.as_str(), r.1.as_str())).collect();
    assert_eq!(
        names,
        vec![
            (".", "bwsp"),
            (".", "icvp"),
            (".", "vSrn"),
            ("First.app", "Iloc"),
            ("Applications", "Iloc"),
            ("QuickLook", "Iloc"),
            ("First.app", "extn"),
        ]
    );
    assert_eq!(records[2].3, vec![0, 0, 0, 1]);
    assert_eq!(
        records[3].3,
        vec![0, 0, 0, 1, 255, 255, 255, 254, 255, 255, 255, 255, 255, 255, 0, 0]
    );
    // A position that was given wins over the one of the link.
    assert_eq!(records[4].3, build_iloc_blob(30, 40));
    assert_eq!(records[5].3, build_iloc_blob(490, 390));
    assert_eq!(records[6].2, "bool");
    assert_eq!(records[6].3, vec![1]);
}

#[test]
fn app_gets_a_default_position_unless_some_app_has_one() {
    let plain = DsStoreBuilder::new()
        .apply_decorations(&DmgDecorations::default(), "My.app")
        .build()
        .unwrap();
    let records = records_of(&plain);
    assert_eq!(records[3].0, "My.app");
    assert_eq!(records[3].3, build_iloc_blob(150, 190));

    let other = DmgDecorations::builder().icon_position("Other.app".to_string(), 5, 6).build();
    let data = DsStoreBuilder::new().apply_decorations(&other, "My.app").build().unwrap();
    let records = records_of(&data);
    assert_eq!(records.len(), 4);
    assert_eq!(records[3].0, "Other.app");
}

#[test]
fn names_outside_the_basic_plane_read_back() {
    let decorations = DmgDecorations::builder()
        .icon_position("\u{1F600}é.app".to_string(), 0, 0)
        .build();
    let data = DsStoreBuilder::new().apply_decorations(&decorations, "x").build().unwrap();
    assert_eq!(records_of(&data)[3].0, "\u{1F600}é.app");
}

#[test]
fn window_settings_are_a_property_list() {
    assert_eq!(window_bounds(100, -100, 640, 480), "{{100, -100}, {640, 480}}");
    let blob = build_bwsp_blob(100, -100, 640, 480).unwrap();
    assert_eq!(&blob[0..8], b"bplist00");
    let value: plist::Value = plist::from_bytes(&blob).unwrap();
    let dict = value.into_dictionary().unwrap();
    let keys: Vec<&str> = dict.keys().map(|k| k.as_str()).collect();
    assert_eq!(
        keys,
        vec![
            "ShowStatusBar",
            "ShowToolbar",
            "ShowTabView",
            "ContainerShowSidebar",
            "WindowBounds",
            "ShowSidebar"
        ]
    );
    assert_eq!(
        dict.get("WindowBounds").unwrap().as_string(),
        Some("{{100, -100}, {640, 480}}")
    );
    assert_eq!(dict.get("ShowToolbar").unwrap().as_boolean(), Some(false));
    assert_eq!(dict.get("ShowSidebar").unwrap().as_boolean(), Some(true));
}

#[test]
fn icon_settings_are_a_property_list() {
    let with = build_icvp_blob(128, 12, Some(".background:bg.png")).unwrap();
    let value: plist::Value = plist::from_bytes(&with).unwrap();
    let dict = value.into_dictionary().unwrap();
    assert_eq!(dict.len(), 14);
    assert_eq!(dict.get("iconSize").unwrap().as_real(), Some(128.0));
    assert_eq!(dict.get("textSize").unwrap().as_real(), Some(12.0));
    assert_eq!(dict.get("gridSpacing").unwrap().as_real(), Some(100.0));
    assert_eq!(dict.get("backgroundType").unwrap().as_signed_integer(), Some(2));
    assert_eq!(dict.get("arrangeBy").unwrap().as_string(), Some("none"));

    let without = build_icvp_blob(128, 12, None).unwrap();
    let value: plist::Value = plist::from_bytes(&without).unwrap();
    let dict = value.into_dictionary().unwrap();
    assert_eq!(dict.get("backgroundType").unwrap().as_signed_integer(), Some(0));
}

/// Checks that every block of a file lies within it, and that the block of the
/// leaf ends before the info block.
fn check_blocks(data: &[u8]) {
    let info = be32(data, 8) as usize;
    assert_eq!(be32(data, 16) as usize, info);
    assert_eq!(info + 4 + be32(data, 12) as usize, data.len());
    for block in 0..3 {
        let entry = be32(data, info + 4 + 8 + 4 * block) as usize;
        let end = (entry & !0x1f) + 4 + (1 << (entry & 0x1f));
        assert!(end <= data.len());
        if block == 2 {
            assert!(end <= info + 4);
        }
    }
}

#[test]
fn long_leaf_moves_the_info_block() {
    let record = |len: usize| Bud1Record {
        name: "a".to_string(),
        type_code: *b"test",
        sub_type: *b"blob",
        data: (0..len).map(|i| (i % 251) as u8).collect(),
    };
    // The content of the leaf is 26 bytes longer than the data.
    let file = |leaf_size: usize| {
        let records = vec![record(leaf_size - 26)];
        assert_eq!(leaf_content(&records).len(), leaf_size);
        let data = serialize_bud1(&records);
        assert_eq!(records_of(&data)[0].3, records[0].data);
        data
    };
    let short = file(3968);
    assert_eq!((be32(&short, 8), short.len()), (0x1000, 6148));
    let long = file(3969);
    assert_eq!((be32(&long, 8), long.len()), (0x2000, 10244));
    check_blocks(&long);
    let full = file(4092);
    assert_eq!((be32(&full, 8), full.len()), (0x2000, 10244));
    check_blocks(&full);
    let longer = file(4093);
    assert_eq!((be32(&longer, 8), longer.len()), (0x3000, 14340));
    check_blocks(&longer);
    let longest = file(65532);
    assert_eq!((be32(&longest, 8), longest.len()), (0x11000, 71684));
    check_blocks(&longest);
}

#[test]
fn many_icons_read_back() {
    for count in [60, 80, 100, 400] {
        let mut builder = DmgDecorations::builder();
        for i in 0..count {
            builder = builder.icon_position(format!("{:0>16}.app", i), i, -i);
        }
        let data = DsStoreBuilder::new()
            .apply_decorations(&builder.build(), "My.app")
            .try_build()
            .unwrap();
        let records = records_of(&data);
        assert_eq!(records.len(), 3 + count as usize);
        for i in 0..count {
            let found = &records[3 + i as usize];
            assert_eq!(found.0, format!("{:0>16}.app", i));
            assert_eq!(found.1, "Iloc");
            assert_eq!(found.3, build_iloc_blob(i, -i));
        }
        check_blocks(&data);
        let store = ds_store::DsStore::new(&data).unwrap();
        assert_eq!(store.contents().len(), 1 + count as usize);
    }
}

#[test]
fn too_many_records_are_refused() {
    let built = |name_len: usize| {
        let decorations = DmgDecorations::builder().hide_extension("x".repeat(name_len)).build();
        DsStoreBuilder::new().apply_decorations(&decorations, "My.app").try_build()
    };
    let data = built(30_000).unwrap();
    assert_eq!(records_of(&data)[4].0, "x".repeat(30_000));
    assert!(matches!(built(33_000), Err(DsStoreError::TooLarge)));

    let mut builder = DmgDecorations::builder();
    for i in 0..2000 {
        builder = builder.hide_extension(format!("file-{}.txt", i));
    }
    let result = DsStoreBuilder::new()
        .apply_decorations(&builder.build(), "My.app")
        .try_build();
    assert!(matches!(result, Err(DsStoreError::TooLarge)));
}

#[test]
fn what_fits_is_built_by_either_way() {
    let make = || {
        DsStoreBuilder::new().apply_decorations(
            &DmgDecorations::builder().text_size(14).build(),
            "My.app",
        )
    };
    assert_eq!(make().build().unwrap(), make().try_build().unwrap());
}
