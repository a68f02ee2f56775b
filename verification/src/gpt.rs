//! Build a GPT-wrapped disk image layout for macOS DMG.
//!
//! A disk image has 8 regions, one behind the other:
//!
//! | ID  | Name                                   | Sectors |
//! |-----|----------------------------------------|---------|
//! | -1  | Protective Master Boot Record(MBR:0)   | 1       |
//! | 0   | GPT Header(Primary GPT Header:1)       | 1       |
//! | 1   | GPT Partition Data(Primary GPT Table:2)| 32      |
//! | 2   | (Apple_Free:3)                         | 6       |
//! | 3   | disk image(Apple_HFS:4)                | N       |
//! | 4   | (Apple_Free:5)                         | 2       |
//! | 5   | GPT Partition Data(Backup GPT Table:6) | 32      |
//! | 6   | GPT Header(Backup GPT Header:7)        | 1       |
//!
//! The partition table comes from the `fstool` crate, which writes it to a
//! device in memory; the regions are read back from there.
use crate::bytes;
use crate::sparse::SparseGptBackend;
use crate::text;
use vstd::prelude::*;

verus! {

broadcast use vstd::string::group_string_axioms;

/// Filesystem kind for GPT partition type/name selection.
#[derive(Clone, Copy, Debug, PartialEq, Eq, Structural)]
pub enum FilesystemKind {
    HfsPlus,
    Apfs,
}

impl FilesystemKind {
    /// GPT partition type UUID.
    pub open spec fn uuid(self) -> Seq<char> {
        match self {
            FilesystemKind::HfsPlus => "48465300-0000-11AA-AA11-00306543ECAC"@,
            FilesystemKind::Apfs => "7C3457EF-0000-11AA-AA11-00306543ECAC"@,
        }
    }

    /// The bytes of the partition type UUID.
    pub open spec fn guid(self) -> Seq<u8> {
        match self {
            FilesystemKind::HfsPlus => seq![
                0x48u8, 0x46, 0x53, 0x00, 0x00, 0x00, 0x11, 0xaa,
                0xaa, 0x11, 0x00, 0x30, 0x65, 0x43, 0xec, 0xac,
            ],
            FilesystemKind::Apfs => seq![
                0x7cu8, 0x34, 0x57, 0xef, 0x00, 0x00, 0x11, 0xaa,
                0xaa, 0x11, 0x00, 0x30, 0x65, 0x43, 0xec, 0xac,
            ],
        }
    }

    /// GPT partition type label.
    pub open spec fn label(self) -> Seq<char> {
        match self {
            FilesystemKind::HfsPlus => "Apple_HFS"@,
            FilesystemKind::Apfs => "Apple_APFS"@,
        }
    }

    /// GPT partition type UUID.
    pub fn type_uuid(&self) -> (r: &'static str)
        ensures
            r@ == self.uuid(),
    {
        match self {
            FilesystemKind::HfsPlus => "48465300-0000-11AA-AA11-00306543ECAC",
            FilesystemKind::Apfs => "7C3457EF-0000-11AA-AA11-00306543ECAC",
        }
    }

    /// GPT partition type label (e.g. `Apple_HFS` / `Apple_APFS`).
    pub fn type_label(&self) -> (r: &'static str)
        ensures
            r@ == self.label(),
    {
        match self {
            FilesystemKind::HfsPlus => "Apple_HFS",
            FilesystemKind::Apfs => "Apple_APFS",
        }
    }
}

// ---------------------------------------------------------------------------
// UUIDs
// ---------------------------------------------------------------------------

/// The value of a hexadecimal digit.
pub open spec fn hex_digit(c: char) -> Option<u8> {
    if '0' <= c <= '9' {
        Some((c as u8 - '0' as u8) as u8)
    } else if 'a' <= c <= 'f' {
        Some((c as u8 - 'a' as u8 + 10) as u8)
    } else if 'A' <= c <= 'F' {
        Some((c as u8 - 'A' as u8 + 10) as u8)
    } else {
        None
    }
}

/// The bytes that pairs of hexadecimal digits write.
pub open spec fn hex_bytes(digits: Seq<char>) -> Option<Seq<u8>>
    decreases digits.len(),
{
    if digits.len() == 0 {
        Some(Seq::empty())
    } else if digits.len() == 1 {
        None
    } else {
        match (hex_digit(digits[0]), hex_digit(digits[1]), hex_bytes(digits.skip(2))) {
            (Some(high), Some(low), Some(rest)) => Some(seq![(high * 16 + low) as u8] + rest),
            _ => None,
        }
    }
}

/// Whether `text` has the length of a hyphenated UUID, and hyphens where one
/// has them.
pub open spec fn is_hyphenated(text: Seq<char>) -> bool {
    text.len() == 36 && text[8] == '-' && text[13] == '-' && text[18] == '-' && text[23] == '-'
}

/// A hyphenated UUID without the hyphens.
pub open spec fn without_hyphens(text: Seq<char>) -> Seq<char> {
    text.subrange(0, 8) + text.subrange(9, 13) + text.subrange(14, 18) + text.subrange(19, 23)
        + text.subrange(24, 36)
}

/// `uuid::Uuid::parse_str` takes a text in the hyphenated form and gives the
/// bytes that its digits write, or an error where one of them is no
/// hexadecimal digit.
#[verifier::external_body]
fn parse_uuid(text: &str) -> (r: Option<[u8; 16]>)
    requires
        is_hyphenated(text@),
    ensures
        r is Some <==> hex_bytes(without_hyphens(text@)) is Some,
        r is Some ==> hex_bytes(without_hyphens(text@)) == Some(r->0@),
{
    match uuid::Uuid::parse_str(text) {
        Ok(uuid) => Some(uuid.into_bytes()),
        Err(_) => None,
    }
}

/// The UUIDs of the two filesystems, as bytes.
#[verifier::rlimit(40)]
proof fn lemma_type_uuids(kind: FilesystemKind)
    ensures
        is_hyphenated(kind.uuid()),
        hex_bytes(without_hyphens(kind.uuid())) == Some(kind.guid()),
{
    reveal_strlit("48465300-0000-11AA-AA11-00306543ECAC");
    reveal_strlit("7C3457EF-0000-11AA-AA11-00306543ECAC");
    let digits = without_hyphens(kind.uuid());
    if kind == FilesystemKind::HfsPlus {
        assert(digits =~= seq![
            '4', '8', '4', '6', '5', '3', '0', '0', '0', '0', '0', '0', '1', '1', 'A', 'A',
            'A', 'A', '1', '1', '0', '0', '3', '0', '6', '5', '4', '3', 'E', 'C', 'A', 'C',
        ]);
    } else {
        assert(digits =~= seq![
            '7', 'C', '3', '4', '5', '7', 'E', 'F', '0', '0', '0', '0', '1', '1', 'A', 'A',
            'A', 'A', '1', '1', '0', '0', '3', '0', '6', '5', '4', '3', 'E', 'C', 'A', 'C',
        ]);
    }
    reveal_with_fuel(hex_bytes, 17);
    assert(hex_bytes(digits)->0 =~= kind.guid());
}

// ---------------------------------------------------------------------------
// The partition table
// ---------------------------------------------------------------------------

/// The partition table type of the `fstool` crate.
#[verifier::external_type_specification]
#[verifier::external_body]
pub struct ExGpt(fstool::part::Gpt);

/// The one partition of a table.
pub struct TableEntry {
    pub start_lba: u64,
    pub size_lba: u64,
    pub type_guid: Seq<u8>,
    pub unique_guid: Seq<u8>,
    pub name: Seq<char>,
}

/// The partition that a table holds, where it holds exactly one, given by its
/// type UUID, with a name, not bootable and without any attribute.
pub uninterp spec fn table_entry(gpt: fstool::part::Gpt) -> Option<TableEntry>;

/// The disk GUID that a table holds.
pub uninterp spec fn disk_guid(gpt: fstool::part::Gpt) -> Seq<u8>;

/// The state of a CRC-32 after `bits` more bits: each is shifted out at the
/// low end, and the reflected polynomial is taken off where it was set.
pub open spec fn crc_shifted(state: u32, bits: nat) -> u32
    decreases bits,
{
    if bits == 0 {
        state
    } else {
        let before = crc_shifted(state, (bits - 1) as nat);
        if before % 2 == 1 {
            (before >> 1) ^ 0xedb8_8320
        } else {
            before >> 1
        }
    }
}

/// The state of a CRC-32 after `data`; it starts with all bits set.
pub open spec fn crc_state(data: Seq<u8>) -> u32
    decreases data.len(),
{
    if data.len() == 0 {
        0xffff_ffff
    } else {
        crc_shifted(crc_state(data.drop_last()) ^ (data.last() as u32), 8)
    }
}

/// The CRC-32 checksum of IEEE 802.3: the state with all bits flipped.
#[verifier::opaque]
pub open spec fn crc32(data: Seq<u8>) -> u32 {
    crc_state(data) ^ 0xffff_ffff
}

/// A GUID on disk: its first three fields have their bytes reversed.
pub open spec fn guid_on_disk(guid: Seq<u8>) -> Seq<u8> {
    seq![guid[3], guid[2], guid[1], guid[0], guid[5], guid[4], guid[7], guid[6]] + guid.subrange(
        8,
        16,
    )
}

/// The protective boot record of a disk of `sectors` sectors: one entry of
/// type EE for all sectors behind the first, as far as 32 bits count.
#[verifier::opaque]
pub open spec fn protective_mbr(sectors: int) -> Seq<u8> {
    let covered = if sectors - 1 <= u32::MAX {
        (sectors - 1) as u32
    } else {
        u32::MAX
    };
    bytes::zeros(446) + seq![0x00u8, 0x00, 0x02, 0x00, 0xee, 0xff, 0xff, 0xff] + bytes::le32(1)
        + bytes::le32(covered) + bytes::zeros(48) + seq![0x55u8, 0xaa]
}

/// The partition array: one entry and 127 empty ones.
#[verifier::opaque]
pub open spec fn partition_array(entry: TableEntry) -> Seq<u8> {
    let name = bytes::utf16le(entry.name);
    guid_on_disk(entry.type_guid) + guid_on_disk(entry.unique_guid) + bytes::le64(entry.start_lba)
        + bytes::le64((entry.start_lba + entry.size_lba - 1) as u64) + bytes::zeros(8) + name
        + bytes::zeros((72 - name.len()) as nat) + bytes::zeros(127 * 128)
}

/// A header sector: "EFI PART", revision 1, its size of 92 bytes, its checksum,
/// its sector and the other header's, the first and last usable sectors, the
/// disk GUID, where the array starts, 128 entries of 128 bytes, and the array's
/// checksum.
#[verifier::opaque]
pub open spec fn header_sector(
    primary: bool,
    sectors: int,
    disk: Seq<u8>,
    array_crc: u32,
    own_crc: u32,
) -> Seq<u8> {
    let last = (sectors - 1) as u64;
    seq![0x45u8, 0x46, 0x49, 0x20, 0x50, 0x41, 0x52, 0x54] + bytes::le32(0x1_0000) + bytes::le32(92)
        + bytes::le32(own_crc) + bytes::zeros(4) + (if primary {
        bytes::le64(1) + bytes::le64(last)
    } else {
        bytes::le64(last) + bytes::le64(1)
    }) + bytes::le64(34) + bytes::le64((sectors - 34) as u64) + guid_on_disk(disk) + (if primary {
        bytes::le64(2)
    } else {
        bytes::le64((sectors - 33) as u64)
    }) + bytes::le32(128) + bytes::le32(128) + bytes::le32(array_crc) + bytes::zeros(420)
}

/// What the header's own checksum covers: its 92 bytes with that field zero.
pub open spec fn checked_part(
    primary: bool,
    sectors: int,
    disk: Seq<u8>,
    array_crc: u32,
) -> Seq<u8> {
    header_sector(primary, sectors, disk, array_crc, 0).take(92)
}

/// `before` with a boot record in the first sector, the array behind the
/// second and in the 32 sectors before the last, and the headers in the second
/// and the last.
#[verifier::opaque]
pub open spec fn with_table(
    before: Seq<u8>,
    sectors: int,
    array: Seq<u8>,
    primary: Seq<u8>,
    backup: Seq<u8>,
) -> Seq<u8> {
    let a = bytes::overwritten(before, 0, protective_mbr(sectors));
    let b = bytes::overwritten(a, 1024, array);
    let c = bytes::overwritten(b, (sectors - 33) * 512, array);
    let d = bytes::overwritten(c, 512, primary);
    bytes::overwritten(d, (sectors - 1) * 512, backup)
}

/// Whether a partition lies within the usable sectors of a disk.
pub open spec fn fits(entry: TableEntry, sectors: int) -> bool {
    67 <= sectors && 0 < entry.size_lba && 34 <= entry.start_lba && entry.start_lba + entry.size_lba
        - 1 <= sectors - 34
}

/// Whether a partition has sectors and a name that fits: at most 36 UTF-16 units.
pub open spec fn buildable(size_lba: u64, name: Seq<char>) -> bool {
    0 < size_lba && bytes::utf16be(name).len() <= 72
}

/// `fstool::part::Gpt::build` makes a table with one partition unless that has
/// no sectors or its name takes more than 36 UTF-16 units. It makes up the GUID
/// of the disk and that of the partition.
#[verifier::external_body]
fn build_table(
    start_lba: u64,
    size_lba: u64,
    type_guid: [u8; 16],
    name: &str,
) -> (r: Result<fstool::part::Gpt, fstool::Error>)
    ensures
        r is Ok <==> buildable(size_lba, name@),
        r is Ok ==> table_entry(r->Ok_0) is Some,
        r is Ok ==> table_entry(r->Ok_0)->0.start_lba == start_lba,
        r is Ok ==> table_entry(r->Ok_0)->0.size_lba == size_lba,
        r is Ok ==> table_entry(r->Ok_0)->0.type_guid == type_guid@,
        r is Ok ==> table_entry(r->Ok_0)->0.name == name@,
        r is Ok ==> table_entry(r->Ok_0)->0.unique_guid.len() == 16,
        r is Ok ==> disk_guid(r->Ok_0).len() == 16,
{
    fstool::part::Gpt::build(vec![fstool::part::Partition {
        start_lba,
        size_lba,
        kind: fstool::part::PartitionKind::Gpt(uuid::Uuid::from_bytes(type_guid)),
        uuid: None,
        name: Some(name.to_string()),
        bootable: false,
        attributes: 0,
    }])
}

/// `fstool::part::PartitionTable::write` for a table of one partition writes
/// the boot record, the array and the headers to their places, twice where
/// there is a backup, or nothing where the partition lies outside the usable
/// sectors.
#[verifier::external_body]
fn write_table(
    gpt: &fstool::part::Gpt,
    dev: &mut SparseGptBackend,
) -> (r: Result<(), fstool::Error>)
    requires
        table_entry(*gpt) is Some,
        bytes::utf16be(table_entry(*gpt)->0.name).len() <= 72,
    ensures
        r is Ok <==> fits(table_entry(*gpt)->0, old(dev)@.len() as int / 512),
        r is Ok ==> final(dev)@ == ({
            let sectors = old(dev)@.len() as int / 512;
            let disk = disk_guid(*gpt);
            let array = partition_array(table_entry(*gpt)->0);
            let crc = crc32(array);
            with_table(
                old(dev)@,
                sectors,
                array,
                header_sector(true, sectors, disk, crc, crc32(checked_part(true, sectors, disk, crc))),
                header_sector(
                    false,
                    sectors,
                    disk,
                    crc,
                    crc32(checked_part(false, sectors, disk, crc)),
                ),
            )
        }),
        r is Err ==> final(dev)@ == old(dev)@,
        final(dev).capacity() == old(dev).capacity(),
{
    fstool::part::PartitionTable::write(gpt, dev)
}

// ---------------------------------------------------------------------------
// The layout
// ---------------------------------------------------------------------------

/// Why a layout could not be built.
#[derive(Debug)]
pub enum GptError {
    /// The partition type UUID is not one.
    InvalidUuid,
    /// The partition table could not be built.
    Build(fstool::Error),
    /// The partition table could not be written.
    Write(fstool::Error),
    /// The offset of a sector does not fit in 64 bits.
    OffsetOverflow,
    /// The length of a range of sectors does not fit in 64 bits.
    LengthOverflow,
    /// The length of a range of sectors does not fit in memory.
    LengthTooLarge,
}

/// The raw bytes and sector layout for each non-HFS+ partition in the DMG.
#[derive(Debug)]
pub struct GptLayout {
    /// MBR sector (512 bytes)
    pub mbr: Vec<u8>,
    /// Primary GPT header sector (512 bytes)
    pub primary_gpt_header: Vec<u8>,
    /// Primary GPT entries (32 sectors = 16384 bytes)
    pub primary_gpt_entries: Vec<u8>,
    /// Apple_Free gap between GPT and HFS+ (6 sectors = 3072 bytes of zeros)
    pub free_gap: Vec<u8>,
    /// Apple_Free gap between HFS+ and backup GPT (2 sectors = 1024 bytes of zeros)
    pub free_tail: Vec<u8>,
    /// Backup GPT entries (32 sectors = 16384 bytes)
    pub backup_gpt_entries: Vec<u8>,
    /// Backup GPT header sector (512 bytes)
    pub backup_gpt_header: Vec<u8>,
    /// LBA where the HFS+ partition starts (40)
    pub hfs_start_lba: u64,
    /// Number of sectors for the HFS+ partition
    pub hfs_sector_count: u64,
    /// Total number of sectors in the disk image
    pub total_sectors: u64,
    /// Partition names for the DMG plist
    pub name_mbr: String,
    pub name_primary_gpt_header: String,
    pub name_primary_gpt_entries: String,
    pub name_free_gap: String,
    pub name_hfs: String,
    pub name_free_tail: String,
    pub name_backup_gpt_entries: String,
    pub name_backup_gpt_header: String,
}

/// `type(name:id)`, the way the regions of an image are named.
pub open spec fn region_name(ptype: Seq<char>, pname: Seq<char>, id: int) -> Seq<char> {
    ptype + "("@ + pname + ":"@ + text::decimal(id) + ")"@
}

/// How many sectors hold `size` bytes.
pub open spec fn sectors_for(size: int) -> int {
    (size + 511) / 512
}

/// How many sectors an image has: 40 before the filesystem, the filesystem,
/// 2 free ones, 32 for the backup array and 1 for the backup header.
pub open spec fn image_sectors(fs_size: int) -> int {
    40 + sectors_for(fs_size) + 2 + 32 + 1
}

/// The partition for a filesystem.
pub open spec fn fs_entry(fs_size: int, kind: FilesystemKind, unique: Seq<u8>) -> TableEntry {
    TableEntry {
        start_lba: 40,
        size_lba: sectors_for(fs_size) as u64,
        type_guid: kind.guid(),
        unique_guid: unique,
        name: "disk image"@,
    }
}

/// A header sector with its checksums.
pub open spec fn checked_header(
    primary: bool,
    sectors: int,
    disk: Seq<u8>,
    entry: TableEntry,
) -> Seq<u8> {
    let crc = crc32(partition_array(entry));
    header_sector(primary, sectors, disk, crc, crc32(checked_part(primary, sectors, disk, crc)))
}

/// Whether `layout` is the one for a filesystem of `fs_size` bytes, given the
/// GUIDs of the disk and the partition.
pub open spec fn is_layout(
    layout: GptLayout,
    fs_size: int,
    kind: FilesystemKind,
    disk: Seq<u8>,
    unique: Seq<u8>,
) -> bool {
    let entry = fs_entry(fs_size, kind, unique);
    let sectors = image_sectors(fs_size);
    &&& disk.len() == 16
    &&& unique.len() == 16
    &&& layout.mbr@ == protective_mbr(sectors)
    &&& layout.primary_gpt_header@ == checked_header(true, sectors, disk, entry)
    &&& layout.primary_gpt_entries@ == partition_array(entry)
    &&& layout.free_gap@ == bytes::zeros(3072)
    &&& layout.free_tail@ == bytes::zeros(1024)
    &&& layout.backup_gpt_entries@ == partition_array(entry)
    &&& layout.backup_gpt_header@ == checked_header(false, sectors, disk, entry)
    &&& layout.hfs_start_lba == 40
    &&& layout.hfs_sector_count == sectors_for(fs_size)
    &&& layout.total_sectors == sectors
    &&& layout.name_mbr@ == region_name("Protective Master Boot Record"@, "MBR"@, 0)
    &&& layout.name_primary_gpt_header@ == region_name("GPT Header"@, "Primary GPT Header"@, 1)
    &&& layout.name_primary_gpt_entries@ == region_name(
        "GPT Partition Data"@,
        "Primary GPT Table"@,
        2,
    )
    &&& layout.name_free_gap@ == region_name(""@, "Apple_Free"@, 3)
    &&& layout.name_hfs@ == region_name("disk image"@, kind.label(), 4)
    &&& layout.name_free_tail@ == region_name(""@, "Apple_Free"@, 5)
    &&& layout.name_backup_gpt_entries@ == region_name(
        "GPT Partition Data"@,
        "Backup GPT Table"@,
        6,
    )
    &&& layout.name_backup_gpt_header@ == region_name("GPT Header"@, "Backup GPT Header"@, 7)
}

/// The name of a region of an image.
pub fn dmg_partition_name(ptype: &str, pname: &str, id: i32) -> (r: String)
    ensures
        r@ == region_name(ptype@, pname@, id as int),
{
    let mut r: String = ptype.to_owned();
    r.append("(");
    r.append(pname);
    r.append(":");
    r.append(text::decimal_text(id).as_str());
    r.append(")");
    r
}

/// Reads `num_lbas` sectors from `start_lba` on.
pub fn read_lba_range(
    dev: &SparseGptBackend,
    start_lba: u64,
    num_lbas: u64,
    sector_size: u64,
) -> (r: Result<Vec<u8>, GptError>)
    requires
        start_lba * sector_size <= u64::MAX && num_lbas * sector_size <= usize::MAX ==> start_lba
            * sector_size + num_lbas * sector_size <= dev@.len(),
    ensures
        match r {
            Ok(out) => start_lba * sector_size <= u64::MAX && num_lbas * sector_size <= usize::MAX
                && out@ == dev@.subrange(
                start_lba * sector_size,
                start_lba * sector_size + num_lbas * sector_size,
            ),
            Err(GptError::OffsetOverflow) => start_lba * sector_size > u64::MAX,
            Err(GptError::LengthOverflow) => start_lba * sector_size <= u64::MAX && num_lbas
                * sector_size > u64::MAX,
            Err(GptError::LengthTooLarge) => start_lba * sector_size <= u64::MAX && num_lbas
                * sector_size <= u64::MAX && num_lbas * sector_size > usize::MAX,
            Err(_) => false,
        },
{
    let offset: u64 = match start_lba.checked_mul(sector_size) {
        Some(offset) => offset,
        None => {
            return Err(GptError::OffsetOverflow);
        },
    };
    let len: u64 = match num_lbas.checked_mul(sector_size) {
        Some(len) => len,
        None => {
            return Err(GptError::LengthOverflow);
        },
    };
    if len > usize::MAX as u64 {
        return Err(GptError::LengthTooLarge);
    }
    match dev.read_range(offset, len as usize) {
        Some(out) => Ok(out),
        None => Err(GptError::OffsetOverflow),
    }
}

/// The regions of a device that holds nothing but a table.
proof fn lemma_regions(
    before: Seq<u8>,
    sectors: int,
    array: Seq<u8>,
    primary: Seq<u8>,
    backup: Seq<u8>,
)
    requires
        before.len() == sectors * 512,
        67 <= sectors,
        array.len() == 16384,
        primary.len() == 512,
        backup.len() == 512,
    ensures
        protective_mbr(sectors).len() == 512,
        ({
            let after = with_table(before, sectors, array, primary, backup);
            &&& after.len() == sectors * 512
            &&& after.subrange(0, 512) == protective_mbr(sectors)
            &&& after.subrange(512, 1024) == primary
            &&& after.subrange(1024, 17408) == array
            &&& after.subrange((sectors - 33) * 512, (sectors - 33) * 512 + 16384) == array
            &&& after.subrange((sectors - 1) * 512, (sectors - 1) * 512 + 512) == backup
        }),
{
    reveal(with_table);
    reveal(protective_mbr);
    let after = with_table(before, sectors, array, primary, backup);
    assert(after.subrange(0, 512) =~= protective_mbr(sectors));
    assert(after.subrange(512, 1024) =~= primary);
    assert(after.subrange(1024, 17408) =~= array);
    assert(after.subrange((sectors - 33) * 512, (sectors - 33) * 512 + 16384) =~= array);
    assert(after.subrange((sectors - 1) * 512, (sectors - 1) * 512 + 512) =~= backup);
}

#[verifier::rlimit(40)]
proof fn lemma_part_sizes(entry: TableEntry, disk: Seq<u8>, sectors: int, primary: bool)
    requires
        entry.type_guid.len() == 16,
        entry.unique_guid.len() == 16,
        disk.len() == 16,
        bytes::utf16be(entry.name).len() <= 72,
    ensures
        partition_array(entry).len() == 16384,
        checked_header(primary, sectors, disk, entry).len() == 512,
{
    reveal(partition_array);
    reveal(header_sector);
}

proof fn lemma_volume_name()
    ensures
        bytes::utf16be("disk image"@).len() == 20,
{
    reveal_strlit("disk image");
    reveal_with_fuel(bytes::utf16be, 11);
    assert("disk image"@ =~= seq!['d', 'i', 's', 'k', ' ', 'i', 'm', 'a', 'g', 'e']);
}

/// The regions of a device where the table lies.
struct Regions {
    mbr: Vec<u8>,
    primary_header: Vec<u8>,
    primary_entries: Vec<u8>,
    backup_entries: Vec<u8>,
    backup_header: Vec<u8>,
}

/// Reads the regions where the table of a device lies.
fn read_regions(dev: &SparseGptBackend, total_sectors: u64) -> (r: Result<Regions, GptError>)
    requires
        dev@.len() == total_sectors * 512,
        67 <= total_sectors,
        total_sectors * 512 <= u64::MAX,
    ensures
        r is Ok,
        r->Ok_0.mbr@ == dev@.subrange(0, 512),
        r->Ok_0.primary_header@ == dev@.subrange(512, 1024),
        r->Ok_0.primary_entries@ == dev@.subrange(1024, 17408),
        r->Ok_0.backup_entries@ == dev@.subrange(
            (total_sectors - 33) * 512,
            (total_sectors - 33) * 512 + 16384,
        ),
        r->Ok_0.backup_header@ == dev@.subrange(
            (total_sectors - 1) * 512,
            (total_sectors - 1) * 512 + 512,
        ),
{
    let mbr = match read_lba_range(dev, 0, 1, 512) {
        Ok(data) => data,
        Err(e) => {
            return Err(e);
        },
    };
    let primary_header = match read_lba_range(dev, 1, 1, 512) {
        Ok(data) => data,
        Err(e) => {
            return Err(e);
        },
    };
    let primary_entries = match read_lba_range(dev, 2, 32, 512) {
        Ok(data) => data,
        Err(e) => {
            return Err(e);
        },
    };
    let backup_entries = match read_lba_range(dev, total_sectors - 33, 32, 512) {
        Ok(data) => data,
        Err(e) => {
            return Err(e);
        },
    };
    let backup_header = match read_lba_range(dev, total_sectors - 1, 1, 512) {
        Ok(data) => data,
        Err(e) => {
            return Err(e);
        },
    };
    Ok(Regions { mbr, primary_header, primary_entries, backup_entries, backup_header })
}

/// Whether a device holds the table for a filesystem in its regions.
spec fn holds_table(
    device: Seq<u8>,
    fs_size: int,
    kind: FilesystemKind,
    disk: Seq<u8>,
    unique: Seq<u8>,
) -> bool {
    let entry = fs_entry(fs_size, kind, unique);
    let sectors = image_sectors(fs_size);
    &&& disk.len() == 16
    &&& unique.len() == 16
    &&& device.len() == sectors * 512
    &&& device.subrange(0, 512) == protective_mbr(sectors)
    &&& device.subrange(512, 1024) == checked_header(true, sectors, disk, entry)
    &&& device.subrange(1024, 17408) == partition_array(entry)
    &&& device.subrange((sectors - 33) * 512, (sectors - 33) * 512 + 16384) == partition_array(
        entry,
    )
    &&& device.subrange((sectors - 1) * 512, (sectors - 1) * 512 + 512) == checked_header(
        false,
        sectors,
        disk,
        entry,
    )
}

/// Writes the table for a filesystem to a device.
fn table_device(fs_size: u64, fs_kind: FilesystemKind) -> (r: Result<SparseGptBackend, GptError>)
    requires
        image_sectors(fs_size as int) * 512 <= u64::MAX,
    ensures
        r is Ok <==> fs_size > 0,
        r is Err ==> r->Err_0 is Build,
        r is Ok ==> exists|disk: Seq<u8>, unique: Seq<u8>| #[trigger]
            holds_table(r->Ok_0@, fs_size as int, fs_kind, disk, unique),
{
    let fs_sector_count: u64 = (fs_size + 511) / 512;
    let total_sectors: u64 = 40 + fs_sector_count + 2 + 32 + 1;
    proof {
        lemma_type_uuids(fs_kind);
        lemma_volume_name();
    }
    let type_guid: [u8; 16] = match parse_uuid(fs_kind.type_uuid()) {
        Some(guid) => guid,
        None => {
            return Err(GptError::InvalidUuid);
        },
    };
    let gpt = match build_table(40, fs_sector_count, type_guid, "disk image") {
        Ok(gpt) => gpt,
        Err(e) => {
            return Err(GptError::Build(e));
        },
    };
    let ghost disk = disk_guid(gpt);
    let ghost entry = table_entry(gpt)->0;
    let ghost sectors = total_sectors as int;
    let mut dev = SparseGptBackend::new(total_sectors * 512);
    match write_table(&gpt, &mut dev) {
        Ok(_) => {},
        Err(e) => {
            return Err(GptError::Write(e));
        },
    }
    proof {
        assert(entry == fs_entry(fs_size as int, fs_kind, entry.unique_guid));
        lemma_part_sizes(entry, disk, sectors, true);
        lemma_part_sizes(entry, disk, sectors, false);
        lemma_regions(
            bytes::zeros((sectors * 512) as nat),
            sectors,
            partition_array(entry),
            checked_header(true, sectors, disk, entry),
            checked_header(false, sectors, disk, entry),
        );
    }
    let r: Result<SparseGptBackend, GptError> = Ok(dev);
    assert(holds_table(r->Ok_0@, fs_size as int, fs_kind, disk, entry.unique_guid));
    r
}

/// Build a GPT layout for a DMG containing an HFS+ partition of the given size.
pub fn build_gpt_layout(fs_size_bytes: u64) -> (r: Result<GptLayout, GptError>)
    requires
        image_sectors(fs_size_bytes as int) * 512 <= u64::MAX,
    ensures
        r is Ok <==> fs_size_bytes > 0,
        r is Err ==> r->Err_0 is Build,
        r is Ok ==> exists|disk: Seq<u8>, unique: Seq<u8>| #[trigger]
            is_layout(r->Ok_0, fs_size_bytes as int, FilesystemKind::HfsPlus, disk, unique),
{
    build_gpt_layout_with_fs(fs_size_bytes, FilesystemKind::HfsPlus)
}

/// Build the GPT layout with an explicit filesystem kind.
///
/// `fs_kind` selects the GPT partition type UUID and label
/// (`Apple_HFS` vs `Apple_APFS`) for the data partition.
pub fn build_gpt_layout_with_fs(
    fs_size_bytes: u64,
    fs_kind: FilesystemKind,
) -> (r: Result<GptLayout, GptError>)
    requires
        image_sectors(fs_size_bytes as int) * 512 <= u64::MAX,
    ensures
        r is Ok <==> fs_size_bytes > 0,
        r is Err ==> r->Err_0 is Build,
        r is Ok ==> exists|disk: Seq<u8>, unique: Seq<u8>| #[trigger]
            is_layout(r->Ok_0, fs_size_bytes as int, fs_kind, disk, unique),
{
    let dev = match table_device(fs_size_bytes, fs_kind) {
        Ok(dev) => dev,
        Err(e) => {
            return Err(e);
        },
    };
    let ghost (disk, unique) = choose|disk: Seq<u8>, unique: Seq<u8>| #[trigger]
        holds_table(dev@, fs_size_bytes as int, fs_kind, disk, unique);
    let fs_sector_count: u64 = (fs_size_bytes + 511) / 512;
    let total_sectors: u64 = 40 + fs_sector_count + 2 + 32 + 1;
    let regions = match read_regions(&dev, total_sectors) {
        Ok(regions) => regions,
        Err(e) => {
            return Err(e);
        },
    };
    let mut free_gap: Vec<u8> = Vec::new();
    bytes::push_zeros(&mut free_gap, 3072);
    assert(free_gap@ =~= bytes::zeros(3072));
    let mut free_tail: Vec<u8> = Vec::new();
    bytes::push_zeros(&mut free_tail, 1024);
    assert(free_tail@ =~= bytes::zeros(1024));
    let layout = GptLayout {
        mbr: regions.mbr,
        primary_gpt_header: regions.primary_header,
        primary_gpt_entries: regions.primary_entries,
        free_gap,
        free_tail,
        backup_gpt_entries: regions.backup_entries,
        backup_gpt_header: regions.backup_header,
        hfs_start_lba: 40,
        hfs_sector_count: fs_sector_count,
        total_sectors,
        name_mbr: dmg_partition_name("Protective Master Boot Record", "MBR", 0),
        name_primary_gpt_header: dmg_partition_name("GPT Header", "Primary GPT Header", 1),
        name_primary_gpt_entries: dmg_partition_name(
            "GPT Partition Data",
            "Primary GPT Table",
            2,
        ),
        name_free_gap: dmg_partition_name("", "Apple_Free", 3),
        name_hfs: dmg_partition_name("disk image", fs_kind.type_label(), 4),
        name_free_tail: dmg_partition_name("", "Apple_Free", 5),
        name_backup_gpt_entries: dmg_partition_name(
            "GPT Partition Data",
            "Backup GPT Table",
            6,
        ),
        name_backup_gpt_header: dmg_partition_name("GPT Header", "Backup GPT Header", 7),
    };
    let r: Result<GptLayout, GptError> = Ok(layout);
    assert(is_layout(r->Ok_0, fs_size_bytes as int, fs_kind, disk, unique));
    r
}

// ---------------------------------------------------------------------------
// Laws
// ---------------------------------------------------------------------------

/// The regions have the sizes of the table above, and with the filesystem
/// between them they fill the image without a gap.
pub proof fn law_regions_fill_the_image(
    layout: GptLayout,
    fs_size: int,
    kind: FilesystemKind,
    disk: Seq<u8>,
    unique: Seq<u8>,
)
    requires
        is_layout(layout, fs_size, kind, disk, unique),
    ensures
        layout.mbr@.len() == 512,
        layout.primary_gpt_header@.len() == 512,
        layout.primary_gpt_entries@.len() == 32 * 512,
        layout.free_gap@.len() == 6 * 512,
        layout.free_tail@.len() == 2 * 512,
        layout.backup_gpt_entries@.len() == 32 * 512,
        layout.backup_gpt_header@.len() == 512,
        layout.mbr@.len() + layout.primary_gpt_header@.len() + layout.primary_gpt_entries@.len()
            + layout.free_gap@.len() == layout.hfs_start_lba * 512,
        layout.hfs_start_lba * 512 + layout.hfs_sector_count * 512 + layout.free_tail@.len()
            + layout.backup_gpt_entries@.len() + layout.backup_gpt_header@.len()
            == layout.total_sectors * 512,
{
    lemma_volume_name();
    lemma_part_sizes(fs_entry(fs_size, kind, unique), disk, image_sectors(fs_size), true);
    lemma_part_sizes(fs_entry(fs_size, kind, unique), disk, image_sectors(fs_size), false);
    assert(protective_mbr(image_sectors(fs_size)).len() == 512) by {
        reveal(protective_mbr);
    }
}

/// The partition holds the filesystem, with less than a sector to spare.
pub proof fn law_partition_holds_the_filesystem(
    layout: GptLayout,
    fs_size: int,
    kind: FilesystemKind,
    disk: Seq<u8>,
    unique: Seq<u8>,
)
    requires
        is_layout(layout, fs_size, kind, disk, unique),
    ensures
        fs_size <= layout.hfs_sector_count * 512 < fs_size + 512,
{
}

/// The boot record ends in 55 AA and has one entry of type EE.
pub proof fn law_boot_record_is_protective(
    layout: GptLayout,
    fs_size: int,
    kind: FilesystemKind,
    disk: Seq<u8>,
    unique: Seq<u8>,
)
    requires
        is_layout(layout, fs_size, kind, disk, unique),
    ensures
        layout.mbr@[510] == 0x55,
        layout.mbr@[511] == 0xaa,
        layout.mbr@[450] == 0xee,
{
    reveal(protective_mbr);
}

/// A number in a header.
pub open spec fn header_number(header: Seq<u8>, from: int, to: int) -> nat {
    bytes::le_value(header.subrange(from, to))
}

proof fn lemma_header_numbers(
    primary: bool,
    sectors: int,
    disk: Seq<u8>,
    array_crc: u32,
    own_crc: u32,
)
    requires
        disk.len() == 16,
        34 <= sectors <= u64::MAX,
    ensures
        ({
            let header = header_sector(primary, sectors, disk, array_crc, own_crc);
            &&& header.subrange(0, 8) == seq![0x45u8, 0x46, 0x49, 0x20, 0x50, 0x41, 0x52, 0x54]
            &&& header_number(header, 24, 32) == if primary {
                1
            } else {
                sectors - 1
            }
            &&& header_number(header, 32, 40) == if primary {
                sectors - 1
            } else {
                1
            }
            &&& header_number(header, 40, 48) == 34
            &&& header_number(header, 48, 56) == sectors - 34
            &&& header_number(header, 72, 80) == if primary {
                2
            } else {
                sectors - 33
            }
            &&& header_number(header, 88, 92) == array_crc
            &&& header_number(header, 8, 12) == 0x1_0000
            &&& header_number(header, 12, 16) == 92
            &&& header_number(header, 16, 20) == own_crc
            &&& header_number(header, 80, 84) == 128
            &&& header_number(header, 84, 88) == 128
            &&& header.subrange(56, 72) == guid_on_disk(disk)
            &&& header.skip(92) == bytes::zeros(420)
            &&& header.len() == 512
        }),
{
    reveal(header_sector);
    let header = header_sector(primary, sectors, disk, array_crc, own_crc);
    let last = (sectors - 1) as u64;
    assert(header.subrange(0, 8) =~= seq![0x45u8, 0x46, 0x49, 0x20, 0x50, 0x41, 0x52, 0x54]);
    bytes::law_le64_reads_back(1);
    bytes::law_le64_reads_back(2);
    bytes::law_le64_reads_back(34);
    bytes::law_le64_reads_back(last);
    bytes::law_le64_reads_back((sectors - 34) as u64);
    bytes::law_le64_reads_back((sectors - 33) as u64);
    bytes::law_le32_reads_back(array_crc);
    bytes::law_le32_reads_back(own_crc);
    bytes::law_le32_reads_back(0x1_0000);
    bytes::law_le32_reads_back(92);
    bytes::law_le32_reads_back(128);
    assert(header.subrange(8, 12) =~= bytes::le32(0x1_0000));
    assert(header.subrange(12, 16) =~= bytes::le32(92));
    assert(header.subrange(16, 20) =~= bytes::le32(own_crc));
    assert(header.subrange(80, 84) =~= bytes::le32(128));
    assert(header.subrange(84, 88) =~= bytes::le32(128));
    assert(header.subrange(56, 72) =~= guid_on_disk(disk));
    assert(header.skip(92) =~= bytes::zeros(420));
    if primary {
        assert(header.subrange(24, 32) =~= bytes::le64(1));
        assert(header.subrange(32, 40) =~= bytes::le64(last));
        assert(header.subrange(72, 80) =~= bytes::le64(2));
    } else {
        assert(header.subrange(24, 32) =~= bytes::le64(last));
        assert(header.subrange(32, 40) =~= bytes::le64(1));
        assert(header.subrange(72, 80) =~= bytes::le64((sectors - 33) as u64));
    }
    assert(header.subrange(40, 48) =~= bytes::le64(34));
    assert(header.subrange(48, 56) =~= bytes::le64((sectors - 34) as u64));
    assert(header.subrange(88, 92) =~= bytes::le32(array_crc));
}

/// The backup mirrors the primary table: the arrays are the same, both headers
/// start with "EFI PART" and carry the array's checksum, each says where it is
/// and where the other is, and where its array starts.
pub proof fn law_backup_mirrors_primary(
    layout: GptLayout,
    fs_size: int,
    kind: FilesystemKind,
    disk: Seq<u8>,
    unique: Seq<u8>,
)
    requires
        is_layout(layout, fs_size, kind, disk, unique),
        0 <= fs_size,
    ensures
        layout.backup_gpt_entries@ == layout.primary_gpt_entries@,
        ({
            let signature = seq![0x45u8, 0x46, 0x49, 0x20, 0x50, 0x41, 0x52, 0x54];
            let primary = layout.primary_gpt_header@;
            let backup = layout.backup_gpt_header@;
            &&& primary.subrange(0, 8) == signature
            &&& backup.subrange(0, 8) == signature
            &&& header_number(primary, 24, 32) == 1
            &&& header_number(backup, 32, 40) == 1
            &&& header_number(primary, 32, 40) == layout.total_sectors - 1
            &&& header_number(backup, 24, 32) == layout.total_sectors - 1
            &&& header_number(primary, 72, 80) == 2
            &&& header_number(backup, 72, 80) == layout.hfs_start_lba + layout.hfs_sector_count + 2
            &&& header_number(primary, 88, 92) == crc32(layout.primary_gpt_entries@)
            &&& header_number(backup, 88, 92) == crc32(layout.backup_gpt_entries@)
        }),
{
    let sectors = image_sectors(fs_size);
    let crc = crc32(partition_array(fs_entry(fs_size, kind, unique)));
    lemma_header_numbers(
        true,
        sectors,
        disk,
        crc,
        crc32(checked_part(true, sectors, disk, crc)),
    );
    lemma_header_numbers(
        false,
        sectors,
        disk,
        crc,
        crc32(checked_part(false, sectors, disk, crc)),
    );
}

/// The filesystem lies within the usable sectors that both headers give.
pub proof fn law_filesystem_lies_in_usable_sectors(
    layout: GptLayout,
    fs_size: int,
    kind: FilesystemKind,
    disk: Seq<u8>,
    unique: Seq<u8>,
)
    requires
        is_layout(layout, fs_size, kind, disk, unique),
        0 <= fs_size,
    ensures
        header_number(layout.primary_gpt_header@, 40, 48) <= layout.hfs_start_lba,
        layout.hfs_start_lba + layout.hfs_sector_count - 1 <= header_number(
            layout.primary_gpt_header@,
            48,
            56,
        ),
        header_number(layout.backup_gpt_header@, 40, 48) == header_number(
            layout.primary_gpt_header@,
            40,
            48,
        ),
        header_number(layout.backup_gpt_header@, 48, 56) == header_number(
            layout.primary_gpt_header@,
            48,
            56,
        ),
{
    let sectors = image_sectors(fs_size);
    let crc = crc32(partition_array(fs_entry(fs_size, kind, unique)));
    lemma_header_numbers(
        true,
        sectors,
        disk,
        crc,
        crc32(checked_part(true, sectors, disk, crc)),
    );
    lemma_header_numbers(
        false,
        sectors,
        disk,
        crc,
        crc32(checked_part(false, sectors, disk, crc)),
    );
}

/// What a header's own checksum is taken over: its first 92 bytes, with zeros
/// where the checksum stands.
pub open spec fn unchecked(header: Seq<u8>) -> Seq<u8> {
    header.take(16) + bytes::zeros(4) + header.subrange(20, 92)
}

proof fn lemma_unchecked(
    primary: bool,
    sectors: int,
    disk: Seq<u8>,
    array_crc: u32,
    own_crc: u32,
)
    requires
        disk.len() == 16,
    ensures
        unchecked(header_sector(primary, sectors, disk, array_crc, own_crc)) == checked_part(
            primary,
            sectors,
            disk,
            array_crc,
        ),
{
    reveal(header_sector);
    assert(unchecked(header_sector(primary, sectors, disk, array_crc, own_crc)) =~= checked_part(
        primary,
        sectors,
        disk,
        array_crc,
    ));
}

/// Both headers carry the checksum of their first 92 bytes, say that they are
/// 92 bytes long, of revision 1 and that the array has 128 entries of 128
/// bytes. They have the same GUID, and nothing behind.
pub proof fn law_headers_check_themselves(
    layout: GptLayout,
    fs_size: int,
    kind: FilesystemKind,
    disk: Seq<u8>,
    unique: Seq<u8>,
)
    requires
        is_layout(layout, fs_size, kind, disk, unique),
        0 <= fs_size,
    ensures
        ({
            let primary = layout.primary_gpt_header@;
            let backup = layout.backup_gpt_header@;
            &&& header_number(primary, 16, 20) == crc32(unchecked(primary))
            &&& header_number(backup, 16, 20) == crc32(unchecked(backup))
            &&& header_number(primary, 8, 12) == 0x1_0000
            &&& header_number(backup, 8, 12) == 0x1_0000
            &&& header_number(primary, 12, 16) == 92
            &&& header_number(backup, 12, 16) == 92
            &&& header_number(primary, 80, 84) == 128
            &&& header_number(backup, 80, 84) == 128
            &&& header_number(primary, 84, 88) == 128
            &&& header_number(backup, 84, 88) == 128
            &&& primary.subrange(56, 72) == backup.subrange(56, 72)
            &&& primary.skip(92) == bytes::zeros(420)
            &&& backup.skip(92) == bytes::zeros(420)
        }),
{
    let sectors = image_sectors(fs_size);
    let crc = crc32(partition_array(fs_entry(fs_size, kind, unique)));
    let first = crc32(checked_part(true, sectors, disk, crc));
    let second = crc32(checked_part(false, sectors, disk, crc));
    lemma_header_numbers(true, sectors, disk, crc, first);
    lemma_header_numbers(false, sectors, disk, crc, second);
    lemma_unchecked(true, sectors, disk, crc, first);
    lemma_unchecked(false, sectors, disk, crc, second);
}

/// The first entry of the array is of the type of the filesystem, spans the
/// sectors that the layout gives for it, is called "disk image" and has no
/// attribute; all others are empty.
pub proof fn law_array_describes_the_filesystem(
    layout: GptLayout,
    fs_size: int,
    kind: FilesystemKind,
    disk: Seq<u8>,
    unique: Seq<u8>,
)
    requires
        is_layout(layout, fs_size, kind, disk, unique),
        0 < fs_size,
    ensures
        ({
            let array = layout.primary_gpt_entries@;
            &&& array.subrange(0, 16) == match kind {
                FilesystemKind::HfsPlus => seq![
                    0x00u8, 0x53, 0x46, 0x48, 0x00, 0x00, 0xaa, 0x11,
                    0xaa, 0x11, 0x00, 0x30, 0x65, 0x43, 0xec, 0xac,
                ],
                FilesystemKind::Apfs => seq![
                    0xefu8, 0x57, 0x34, 0x7c, 0x00, 0x00, 0xaa, 0x11,
                    0xaa, 0x11, 0x00, 0x30, 0x65, 0x43, 0xec, 0xac,
                ],
            }
            &&& header_number(array, 32, 40) == layout.hfs_start_lba
            &&& header_number(array, 40, 48) == layout.hfs_start_lba + layout.hfs_sector_count - 1
            &&& array.subrange(48, 56) == bytes::zeros(8)
            &&& array.subrange(56, 76) == seq![
                0x64u8, 0, 0x69, 0, 0x73, 0, 0x6b, 0, 0x20, 0,
                0x69, 0, 0x6d, 0, 0x61, 0, 0x67, 0, 0x65, 0,
            ]
            &&& array.skip(76) == bytes::zeros(16308)
        }),
{
    reveal(partition_array);
    let entry = fs_entry(fs_size, kind, unique);
    let array = partition_array(entry);
    let name = bytes::utf16le(entry.name);
    let end = (entry.start_lba + entry.size_lba - 1) as u64;
    lemma_volume_name();
    lemma_volume_name_bytes();
    bytes::law_le64_reads_back(entry.start_lba);
    bytes::law_le64_reads_back(end);
    assert(array.subrange(0, 16) =~= guid_on_disk(kind.guid()));
    match kind {
        FilesystemKind::HfsPlus => {
            assert(guid_on_disk(kind.guid()) =~= seq![
                0x00u8, 0x53, 0x46, 0x48, 0x00, 0x00, 0xaa, 0x11,
                0xaa, 0x11, 0x00, 0x30, 0x65, 0x43, 0xec, 0xac,
            ]);
        },
        FilesystemKind::Apfs => {
            assert(guid_on_disk(kind.guid()) =~= seq![
                0xefu8, 0x57, 0x34, 0x7c, 0x00, 0x00, 0xaa, 0x11,
                0xaa, 0x11, 0x00, 0x30, 0x65, 0x43, 0xec, 0xac,
            ]);
        },
    }
    assert(array.subrange(32, 40) =~= bytes::le64(entry.start_lba));
    assert(array.subrange(40, 48) =~= bytes::le64(end));
    assert(array.subrange(48, 56) =~= bytes::zeros(8));
    assert(array.subrange(56, 76) =~= name);
    assert(array.skip(76) =~= bytes::zeros(16308));
}

/// The regions go by these names.
pub proof fn law_regions_are_named(
    layout: GptLayout,
    fs_size: int,
    kind: FilesystemKind,
    disk: Seq<u8>,
    unique: Seq<u8>,
)
    requires
        is_layout(layout, fs_size, kind, disk, unique),
    ensures
        layout.name_mbr@ == "Protective Master Boot Record(MBR:0)"@,
        layout.name_primary_gpt_header@ == "GPT Header(Primary GPT Header:1)"@,
        layout.name_primary_gpt_entries@ == "GPT Partition Data(Primary GPT Table:2)"@,
        layout.name_free_gap@ == "(Apple_Free:3)"@,
        kind is HfsPlus ==> layout.name_hfs@ == "disk image(Apple_HFS:4)"@,
        kind is Apfs ==> layout.name_hfs@ == "disk image(Apple_APFS:4)"@,
        layout.name_free_tail@ == "(Apple_Free:5)"@,
        layout.name_backup_gpt_entries@ == "GPT Partition Data(Backup GPT Table:6)"@,
        layout.name_backup_gpt_header@ == "GPT Header(Backup GPT Header:7)"@,
{
    reveal_strlit("(");
    reveal_strlit(":");
    reveal_strlit(")");
    reveal_strlit("");
    reveal_strlit("Protective Master Boot Record(MBR:0)");
    reveal_strlit("Protective Master Boot Record");
    reveal_strlit("MBR");
    assert(layout.name_mbr@ =~= "Protective Master Boot Record(MBR:0)"@);
    reveal_strlit("GPT Header");
    reveal_strlit("Primary GPT Header");
    reveal_strlit("GPT Header(Primary GPT Header:1)");
    assert(layout.name_primary_gpt_header@ =~= "GPT Header(Primary GPT Header:1)"@);
    reveal_strlit("Backup GPT Header");
    reveal_strlit("GPT Header(Backup GPT Header:7)");
    assert(layout.name_backup_gpt_header@ =~= "GPT Header(Backup GPT Header:7)"@);
    reveal_strlit("GPT Partition Data");
    reveal_strlit("Primary GPT Table");
    reveal_strlit("GPT Partition Data(Primary GPT Table:2)");
    assert(layout.name_primary_gpt_entries@ =~= "GPT Partition Data(Primary GPT Table:2)"@);
    reveal_strlit("Backup GPT Table");
    reveal_strlit("GPT Partition Data(Backup GPT Table:6)");
    assert(layout.name_backup_gpt_entries@ =~= "GPT Partition Data(Backup GPT Table:6)"@);
    reveal_strlit("Apple_Free");
    reveal_strlit("(Apple_Free:3)");
    reveal_strlit("(Apple_Free:5)");
    assert(layout.name_free_gap@ =~= "(Apple_Free:3)"@);
    assert(layout.name_free_tail@ =~= "(Apple_Free:5)"@);
    reveal_strlit("disk image");
    reveal_strlit("Apple_HFS");
    reveal_strlit("Apple_APFS");
    reveal_strlit("disk image(Apple_HFS:4)");
    reveal_strlit("disk image(Apple_APFS:4)");
    if kind is HfsPlus {
        assert(layout.name_hfs@ =~= "disk image(Apple_HFS:4)"@);
    } else {
        assert(layout.name_hfs@ =~= "disk image(Apple_APFS:4)"@);
    }
}

proof fn lemma_volume_name_bytes()
    ensures
        bytes::utf16le("disk image"@) == seq![
            0x64u8, 0, 0x69, 0, 0x73, 0, 0x6b, 0, 0x20, 0,
            0x69, 0, 0x6d, 0, 0x61, 0, 0x67, 0, 0x65, 0,
        ],
{
    let name = "disk image"@;
    reveal_strlit("disk image");
    reveal_with_fuel(bytes::utf16be, 11);
    let swapped = bytes::utf16be(name);
    assert(swapped.len() == 20);
    assert(swapped =~= seq![
        0u8, 0x64, 0, 0x69, 0, 0x73, 0, 0x6b, 0, 0x20,
        0, 0x69, 0, 0x6d, 0, 0x61, 0, 0x67, 0, 0x65,
    ]);
    assert(bytes::utf16le(name) =~= seq![
        0x64u8, 0, 0x69, 0, 0x73, 0, 0x6b, 0, 0x20, 0,
        0x69, 0, 0x6d, 0, 0x61, 0, 0x67, 0, 0x65, 0,
    ]);
}

/// The boot record's one entry starts at sector 1 and covers the rest of the
/// disk, as far as 32 bits count; there is no boot code and no other entry.
pub proof fn law_boot_record_covers_the_disk(
    layout: GptLayout,
    fs_size: int,
    kind: FilesystemKind,
    disk: Seq<u8>,
    unique: Seq<u8>,
)
    requires
        is_layout(layout, fs_size, kind, disk, unique),
        0 <= fs_size,
    ensures
        header_number(layout.mbr@, 454, 458) == 1,
        header_number(layout.mbr@, 458, 462) == (if layout.total_sectors - 1 < 0x1_0000_0000 {
            layout.total_sectors - 1
        } else {
            0xffff_ffff
        }),
        layout.mbr@.take(446) == bytes::zeros(446),
        layout.mbr@.subrange(462, 510) == bytes::zeros(48),
{
    reveal(protective_mbr);
    let mbr = layout.mbr@;
    let sectors = image_sectors(fs_size);
    let covered = if sectors - 1 <= u32::MAX {
        (sectors - 1) as u32
    } else {
        u32::MAX
    };
    bytes::law_le32_reads_back(1);
    bytes::law_le32_reads_back(covered);
    assert(mbr.subrange(454, 458) =~= bytes::le32(1));
    assert(mbr.subrange(458, 462) =~= bytes::le32(covered));
    assert(mbr.take(446) =~= bytes::zeros(446));
    assert(mbr.subrange(462, 510) =~= bytes::zeros(48));
}

/// A region's name has its number, in decimal, behind a colon, in brackets with
/// its label and behind its type.
pub proof fn law_region_names_have_numbers(ptype: Seq<char>, pname: Seq<char>, id: i32)
    ensures
        exists|digits: Seq<char>|
            region_name(ptype, pname, id as int) == #[trigger] (ptype + seq!['('] + pname
                + seq![':'] + digits + seq![')']) && text::number(digits) == Some(id),
{
    let digits = text::decimal(id as int);
    reveal_strlit("(");
    reveal_strlit(":");
    reveal_strlit(")");
    assert("("@ =~= seq!['(']);
    assert(":"@ =~= seq![':']);
    assert(")"@ =~= seq![')']);
    text::law_number_reads_back(id);
    assert(region_name(ptype, pname, id as int) == ptype + seq!['('] + pname + seq![':'] + digits
        + seq![')']);
}

} // verus!
