use std::io::{Read, Seek, SeekFrom, Write};

use fstool::block::BlockDevice;
use zip2dmg::build_gpt_layout;
use zip2dmg::dmg::{partition_plan, PartitionContent};
use zip2dmg::gpt::{
    build_gpt_layout_with_fs, dmg_partition_name, read_lba_range, FilesystemKind, GptError,
};
use zip2dmg::sparse::SparseGptBackend;

#[test]
fn test_gpt_layout_sizes() {
    // 100 MB HFS+ image
    let hfs_size = 100 * 1024 * 1024u64;
    let layout = build_gpt_layout(hfs_size).unwrap();

    assert_eq!(layout.mbr.len(), 512);
    assert_eq!(layout.primary_gpt_header.len(), 512);
    assert_eq!(layout.primary_gpt_entries.len(), 16384);
    assert_eq!(layout.free_gap.len(), 3072);
    assert_eq!(layout.free_tail.len(), 1024);
    assert_eq!(layout.backup_gpt_entries.len(), 16384);
    assert_eq!(layout.backup_gpt_header.len(), 512);

    assert_eq!(layout.hfs_start_lba, 40);
    // 100 MB = 204800 sectors (at 512 bytes/sector)
    assert_eq!(layout.hfs_sector_count, 204800);
}

#[test]
fn test_gpt_layout_names() {
    let layout = build_gpt_layout(1024 * 1024).unwrap();
    assert_eq!(layout.name_mbr, "Protective Master Boot Record(MBR:0)");
    assert_eq!(layout.name_primary_gpt_header, "GPT Header(Primary GPT Header:1)");
    assert_eq!(layout.name_primary_gpt_entries, "GPT Partition Data(Primary GPT Table:2)");
    assert_eq!(layout.name_free_gap, "(Apple_Free:3)");
    assert_eq!(layout.name_hfs, "disk image(Apple_HFS:4)");
    assert_eq!(layout.name_free_tail, "(Apple_Free:5)");
    assert_eq!(layout.name_backup_gpt_entries, "GPT Partition Data(Backup GPT Table:6)");
    assert_eq!(layout.name_backup_gpt_header, "GPT Header(Backup GPT Header:7)");
}

#[test]
fn test_gpt_mbr_signature() {
    let layout = build_gpt_layout(1024 * 1024).unwrap();
    // MBR must end with 0x55AA
    assert_eq!(layout.mbr[510], 0x55);
    assert_eq!(layout.mbr[511], 0xAA);
    // MBR partition type 0xEE (protective)
    assert_eq!(layout.mbr[446 + 4], 0xEE);
}

#[test]
fn test_gpt_header_signature() {
    let layout = build_gpt_layout(1024 * 1024).unwrap();
    // Primary GPT header must start with "EFI PART"
    assert_eq!(&layout.primary_gpt_header[0..8], b"EFI PART");
    // Backup GPT header must also start with "EFI PART"
    assert_eq!(&layout.backup_gpt_header[0..8], b"EFI PART");
}

fn le64(data: &[u8], at: usize) -> u64 {
    u64::from_le_bytes(data[at..at + 8].try_into().unwrap())
}

fn le32(data: &[u8], at: usize) -> u32 {
    u32::from_le_bytes(data[at..at + 4].try_into().unwrap())
}

#[test]
fn sectors_add_up() {
    // One byte more than a whole number of sectors takes one sector more.
    let layout = build_gpt_layout(512 * 100 + 1).unwrap();
    assert_eq!(layout.hfs_sector_count, 101);
    assert_eq!(layout.total_sectors, 40 + 101 + 35);
}

#[test]
fn boot_record_covers_the_disk() {
    let layout = build_gpt_layout(512 * 100).unwrap();
    let mut expected = vec![0u8; 512];
    expected[446..462].copy_from_slice(&[
        0x00, 0x00, 0x02, 0x00, 0xEE, 0xFF, 0xFF, 0xFF, 1, 0, 0, 0, 174, 0, 0, 0,
    ]);
    expected[510] = 0x55;
    expected[511] = 0xAA;
    assert_eq!(layout.mbr, expected);
}

/// CRC-32, bit by bit.
fn crc32(data: &[u8]) -> u32 {
    let mut state = u32::MAX;
    for byte in data {
        state ^= *byte as u32;
        for _ in 0..8 {
            state = if state % 2 == 1 { (state >> 1) ^ 0xedb8_8320 } else { state >> 1 };
        }
    }
    state ^ u32::MAX
}

#[test]
fn headers_mirror_each_other() {
    let layout = build_gpt_layout(512 * 100).unwrap();
    let primary = &layout.primary_gpt_header;
    let backup = &layout.backup_gpt_header;
    assert_eq!(layout.primary_gpt_entries, layout.backup_gpt_entries);
    assert_eq!(le32(primary, 8), 0x10000);
    assert_eq!(le32(primary, 12), 92);
    assert_eq!((le64(primary, 24), le64(primary, 32)), (1, 174));
    assert_eq!((le64(backup, 24), le64(backup, 32)), (174, 1));
    assert_eq!((le64(primary, 40), le64(primary, 48)), (34, 141));
    assert_eq!((le64(backup, 40), le64(backup, 48)), (34, 141));
    assert_eq!(&primary[56..72], &backup[56..72]);
    assert_eq!((le64(primary, 72), le64(backup, 72)), (2, 142));
    assert_eq!((le32(primary, 80), le32(primary, 84)), (128, 128));
    assert_eq!(crc32(b"123456789"), 0xcbf4_3926);
    let crc = crc32(&layout.primary_gpt_entries);
    assert_eq!((le32(primary, 88), le32(backup, 88)), (crc, crc));
    let mut unchecked = primary[..92].to_vec();
    unchecked[16..20].fill(0);
    assert_eq!(le32(primary, 16), crc32(&unchecked));
    assert!(primary[92..].iter().all(|b| *b == 0));
}

#[test]
fn entry_describes_the_filesystem() {
    let layout = build_gpt_layout(512 * 100).unwrap();
    let entry = &layout.primary_gpt_entries[..128];
    assert_eq!(
        &entry[0..16],
        &[
            0x00, 0x53, 0x46, 0x48, 0x00, 0x00, 0xAA, 0x11, 0xAA, 0x11, 0x00, 0x30, 0x65, 0x43,
            0xEC, 0xAC
        ]
    );
    assert_eq!((le64(entry, 32), le64(entry, 40), le64(entry, 48)), (40, 139, 0));
    let name: Vec<u16> = entry[56..76]
        .chunks(2)
        .map(|c| u16::from_le_bytes([c[0], c[1]]))
        .collect();
    assert_eq!(String::from_utf16(&name).unwrap(), "disk image");
    assert!(entry[76..].iter().all(|b| *b == 0));
    assert!(layout.primary_gpt_entries[128..].iter().all(|b| *b == 0));
}

#[test]
fn apfs_has_its_own_type_and_label() {
    let layout = build_gpt_layout_with_fs(1024 * 1024, FilesystemKind::Apfs).unwrap();
    assert_eq!(layout.name_hfs, "disk image(Apple_APFS:4)");
    assert_eq!(
        &layout.primary_gpt_entries[0..16],
        &[
            0xEF, 0x57, 0x34, 0x7C, 0x00, 0x00, 0xAA, 0x11, 0xAA, 0x11, 0x00, 0x30, 0x65, 0x43,
            0xEC, 0xAC
        ]
    );
    assert_eq!(FilesystemKind::Apfs.type_uuid(), "7C3457EF-0000-11AA-AA11-00306543ECAC");
    assert_eq!(FilesystemKind::HfsPlus.type_label(), "Apple_HFS");
}

#[test]
fn empty_filesystem_is_refused() {
    assert!(matches!(build_gpt_layout(0), Err(GptError::Build(_))));
}

#[test]
fn table_is_readable_by_fstool() {
    let layout = build_gpt_layout(512 * 100).unwrap();
    let mut disk = layout.mbr.clone();
    disk.extend_from_slice(&layout.primary_gpt_header);
    disk.extend_from_slice(&layout.primary_gpt_entries);
    disk.extend_from_slice(&layout.free_gap);
    disk.extend_from_slice(&vec![0u8; 512 * 100]);
    disk.extend_from_slice(&layout.free_tail);
    disk.extend_from_slice(&layout.backup_gpt_entries);
    disk.extend_from_slice(&layout.backup_gpt_header);
    assert_eq!(disk.len() as u64, layout.total_sectors * 512);
    let mut dev = SparseGptBackend::new(disk.len() as u64);
    dev.write_at(0, &disk).unwrap();
    let gpt = fstool::part::Gpt::read(&mut dev).unwrap();
    assert_eq!(gpt.partitions.len(), 1);
    assert_eq!(gpt.partitions[0].start_lba, 40);
    assert_eq!(gpt.partitions[0].size_lba, 100);
    assert_eq!(gpt.partitions[0].name.as_deref(), Some("disk image"));
}

#[test]
fn partition_names_have_a_type_a_name_and_a_number() {
    assert_eq!(dmg_partition_name("", "Apple_Free", 3), "(Apple_Free:3)");
    assert_eq!(dmg_partition_name("a", "b", -12), "a(b:-12)");
}

#[test]
fn partitions_are_listed_in_disk_order() {
    let layout = build_gpt_layout(512 * 100).unwrap();
    let plan = partition_plan(&layout);
    let ids: Vec<i32> = plan.iter().map(|p| p.id).collect();
    assert_eq!(ids, vec![-1, 0, 1, 2, 3, 4, 5, 6]);
    assert_eq!(plan[0].name, layout.name_mbr);
    assert!(matches!(&plan[2].content, PartitionContent::Data(d) if *d == layout.primary_gpt_entries));
    assert!(matches!(plan[3].content, PartitionContent::Ignored(6)));
    assert!(matches!(plan[4].content, PartitionContent::Filesystem));
    assert!(matches!(plan[5].content, PartitionContent::Ignored(2)));
    assert!(matches!(&plan[7].content, PartitionContent::Data(d) if *d == layout.backup_gpt_header));
}

#[test]
fn unwritten_bytes_read_as_zero_and_later_writes_win() {
    let mut dev = SparseGptBackend::new(100);
    assert_eq!(dev.total_size(), 100);
    assert_eq!(dev.block_size(), 512);
    dev.write_at(10, &[1, 2, 3, 4]).unwrap();
    dev.write_at(12, &[9, 9]).unwrap();
    dev.write_at(8, &[7, 7, 7]).unwrap();
    let mut buf = [255u8; 10];
    dev.read_at(6, &mut buf).unwrap();
    assert_eq!(buf, [0, 0, 7, 7, 7, 2, 9, 9, 0, 0]);
}

#[test]
fn a_short_later_write_wins_over_a_long_one() {
    let mut dev = SparseGptBackend::new(8);
    dev.write_at(1, &[1, 2, 3, 4, 5]).unwrap();
    dev.write_at(3, &[9]).unwrap();
    let mut buf = [0u8; 8];
    dev.read_at(0, &mut buf).unwrap();
    assert_eq!(buf, [0, 1, 2, 9, 4, 5, 0, 0]);
}

#[test]
fn access_past_the_end_is_refused() {
    let mut dev = SparseGptBackend::new(100);
    assert!(dev.write_at(97, &[0, 0, 0]).is_ok());
    assert!(matches!(
        dev.write_at(98, &[1, 1, 1]),
        Err(fstool::Error::OutOfBounds { offset: 98, len: 3, size: 100 })
    ));
    assert!(dev.write_at(u64::MAX, &[1]).is_err());
    let mut buf = [0u8; 3];
    assert!(dev.read_at(97, &mut buf).is_ok());
    assert!(matches!(
        dev.read_at(98, &mut buf),
        Err(fstool::Error::OutOfBounds { offset: 98, len: 3, size: 100 })
    ));
    assert!(dev.read_at(u64::MAX, &mut buf).is_err());
}

#[test]
fn stream_access_stops_at_the_end() {
    let mut dev = SparseGptBackend::new(8);
    assert_eq!(dev.seek(SeekFrom::End(-3)).unwrap(), 5);
    assert_eq!(dev.write(&[1, 2, 3, 4, 5]).unwrap(), 3);
    let refused = dev.write(&[1]).unwrap_err();
    assert_eq!(refused.kind(), std::io::ErrorKind::WriteZero);
    assert_eq!(refused.to_string(), "write past end of SparseGptBackend");
    assert_eq!(dev.stream_position().unwrap(), 8);
    assert_eq!(dev.seek(SeekFrom::Current(-5)).unwrap(), 3);
    let mut buf = [9u8; 8];
    assert_eq!(dev.read(&mut buf).unwrap(), 5);
    assert_eq!(buf, [0, 0, 1, 2, 3, 9, 9, 9]);
    assert_eq!(dev.read(&mut buf).unwrap(), 0);
    dev.seek(SeekFrom::Start(0)).unwrap();
    let refused = dev.seek(SeekFrom::Current(-1)).unwrap_err();
    assert_eq!(refused.kind(), std::io::ErrorKind::InvalidInput);
    assert_eq!(refused.to_string(), "seek before start");
    assert!(dev.flush().is_ok());
    assert!(dev.sync().is_ok());
}

#[test]
fn sector_ranges_are_checked() {
    let mut dev = SparseGptBackend::new(2048);
    dev.write_at(512, &[5; 512]).unwrap();
    assert_eq!(read_lba_range(&dev, 1, 1, 512).unwrap(), vec![5u8; 512]);
    assert_eq!(read_lba_range(&dev, 2, 2, 512).unwrap(), vec![0u8; 1024]);
    assert!(matches!(read_lba_range(&dev, u64::MAX, 1, 512), Err(GptError::OffsetOverflow)));
    assert!(matches!(read_lba_range(&dev, 1, u64::MAX, 512), Err(GptError::LengthOverflow)));
}
