//! The partitions of a disk image, in the order in which they lie on disk.
use crate::bytes;
use crate::gpt;
use crate::gpt::{FilesystemKind, GptLayout};
use vstd::prelude::*;

verus! {

/// What a partition of an image holds.
pub enum PartitionContent {
    /// These bytes.
    Data(Vec<u8>),
    /// This many sectors that are left out of the image.
    Ignored(u64),
    /// The filesystem.
    Filesystem,
}

/// One partition of an image.
pub struct DmgPartition {
    pub name: String,
    pub id: i32,
    pub content: PartitionContent,
}

/// What a [`PartitionContent`] is.
pub enum Content {
    Data(Seq<u8>),
    Ignored(u64),
    Filesystem,
}

/// What a [`DmgPartition`] is.
pub struct Part {
    pub name: Seq<char>,
    pub id: i32,
    pub content: Content,
}

impl View for DmgPartition {
    type V = Part;

    open spec fn view(&self) -> Part {
        Part {
            name: self.name@,
            id: self.id,
            content: match self.content {
                PartitionContent::Data(data) => Content::Data(data@),
                PartitionContent::Ignored(sectors) => Content::Ignored(sectors),
                PartitionContent::Filesystem => Content::Filesystem,
            },
        }
    }
}

/// What a list of partitions is.
pub open spec fn parts_view(list: Seq<DmgPartition>) -> Seq<Part> {
    Seq::new(list.len(), |i: int| list[i]@)
}

/// The partitions of an image with the given layout.
pub open spec fn parts_of(layout: GptLayout) -> Seq<Part> {
    seq![
        Part { name: layout.name_mbr@, id: (-1) as i32, content: Content::Data(layout.mbr@) },
        Part {
            name: layout.name_primary_gpt_header@,
            id: 0,
            content: Content::Data(layout.primary_gpt_header@),
        },
        Part {
            name: layout.name_primary_gpt_entries@,
            id: 1,
            content: Content::Data(layout.primary_gpt_entries@),
        },
        Part {
            name: layout.name_free_gap@,
            id: 2,
            content: Content::Ignored((layout.free_gap@.len() as u64 / 512) as u64),
        },
        Part { name: layout.name_hfs@, id: 3, content: Content::Filesystem },
        Part {
            name: layout.name_free_tail@,
            id: 4,
            content: Content::Ignored((layout.free_tail@.len() as u64 / 512) as u64),
        },
        Part {
            name: layout.name_backup_gpt_entries@,
            id: 5,
            content: Content::Data(layout.backup_gpt_entries@),
        },
        Part {
            name: layout.name_backup_gpt_header@,
            id: 6,
            content: Content::Data(layout.backup_gpt_header@),
        },
    ]
}

fn data_part(name: &String, id: i32, data: &Vec<u8>) -> (r: DmgPartition)
    ensures
        r@ == (Part { name: name@, id, content: Content::Data(data@) }),
{
    DmgPartition {
        name: name.clone(),
        id,
        content: PartitionContent::Data(bytes::copy_of(data.as_slice())),
    }
}

/// Lists the partitions of an image in the order in which they lie on disk:
/// boot record, primary table, gap, filesystem, gap, backup table.
pub fn partition_plan(layout: &GptLayout) -> (r: Vec<DmgPartition>)
    ensures
        parts_view(r@) == parts_of(*layout),
{
    let mut list: Vec<DmgPartition> = Vec::new();
    list.push(data_part(&layout.name_mbr, -1, &layout.mbr));
    list.push(data_part(&layout.name_primary_gpt_header, 0, &layout.primary_gpt_header));
    list.push(data_part(&layout.name_primary_gpt_entries, 1, &layout.primary_gpt_entries));
    list.push(
        DmgPartition {
            name: layout.name_free_gap.clone(),
            id: 2,
            content: PartitionContent::Ignored(layout.free_gap.len() as u64 / 512),
        },
    );
    list.push(
        DmgPartition {
            name: layout.name_hfs.clone(),
            id: 3,
            content: PartitionContent::Filesystem,
        },
    );
    list.push(
        DmgPartition {
            name: layout.name_free_tail.clone(),
            id: 4,
            content: PartitionContent::Ignored(layout.free_tail.len() as u64 / 512),
        },
    );
    list.push(data_part(&layout.name_backup_gpt_entries, 5, &layout.backup_gpt_entries));
    list.push(data_part(&layout.name_backup_gpt_header, 6, &layout.backup_gpt_header));
    assert(parts_view(list@) =~= parts_of(*layout));
    list
}

/// How many sectors a partition takes, given those of the filesystem.
pub open spec fn part_sectors(part: Part, fs_sectors: int) -> int {
    match part.content {
        Content::Data(data) => gpt::sectors_for(data.len() as int),
        Content::Ignored(sectors) => sectors as int,
        Content::Filesystem => fs_sectors,
    }
}

/// How many sectors the first partitions take.
pub open spec fn sectors_before(parts: Seq<Part>, fs_sectors: int) -> int
    decreases parts.len(),
{
    if parts.len() == 0 {
        0
    } else {
        sectors_before(parts.drop_last(), fs_sectors) + part_sectors(parts.last(), fs_sectors)
    }
}

/// The partitions fill the image: the filesystem starts at the sector that the
/// layout says, and all together take as many sectors as the image has. Their
/// numbers run from -1 to 6 in order.
pub proof fn law_partitions_fill_the_image(
    layout: GptLayout,
    fs_size: int,
    kind: FilesystemKind,
    disk: Seq<u8>,
    unique: Seq<u8>,
)
    requires
        gpt::is_layout(layout, fs_size, kind, disk, unique),
    ensures
        parts_of(layout).len() == 8,
        forall|i: int| 0 <= i < 8 ==> (#[trigger] parts_of(layout)[i]).id == i - 1,
        sectors_before(parts_of(layout).take(4), layout.hfs_sector_count as int)
            == layout.hfs_start_lba,
        sectors_before(parts_of(layout), layout.hfs_sector_count as int) == layout.total_sectors,
{
    gpt::law_regions_fill_the_image(layout, fs_size, kind, disk, unique);
    let parts = parts_of(layout);
    let n = layout.hfs_sector_count as int;
    assert(parts.take(8) =~= parts);
    assert(parts.take(0) =~= Seq::empty());
    assert forall|i: int| 0 <= i < 8 implies sectors_before(#[trigger] parts.take(i + 1), n)
        == sectors_before(parts.take(i), n) + part_sectors(parts[i], n) by {
        assert(parts.take(i + 1).drop_last() =~= parts.take(i));
    }
    assert(sectors_before(parts.take(0int + 1), n) == 1);
    assert(sectors_before(parts.take(1int + 1), n) == 2);
    assert(sectors_before(parts.take(2int + 1), n) == 34);
    assert(sectors_before(parts.take(3int + 1), n) == 40);
    assert(sectors_before(parts.take(4int + 1), n) == 40 + n);
    assert(sectors_before(parts.take(5int + 1), n) == 42 + n);
    assert(sectors_before(parts.take(6int + 1), n) == 74 + n);
    assert(sectors_before(parts.take(7int + 1), n) == 75 + n);
}

/// The bytes of a partition, given those of the filesystem; sectors that are
/// left out of the image read as zeros.
pub open spec fn bytes_in(part: DmgPartition, filesystem: Seq<u8>) -> Seq<u8> {
    match part.content {
        PartitionContent::Data(data) => data@,
        PartitionContent::Ignored(sectors) => bytes::zeros((sectors * 512) as nat),
        PartitionContent::Filesystem => filesystem,
    }
}

/// The disk that the partitions make up, one behind the other.
#[verifier::opaque]
pub open spec fn disk_of(list: Seq<DmgPartition>, filesystem: Seq<u8>) -> Seq<u8>
    decreases list.len(),
{
    if list.len() == 0 {
        Seq::empty()
    } else {
        disk_of(list.drop_last(), filesystem) + bytes_in(list.last(), filesystem)
    }
}

/// Some bytes of a sector of a disk.
pub open spec fn in_sector(disk: Seq<u8>, sector: int, from: int, to: int) -> Seq<u8> {
    disk.subrange(sector * 512 + from, sector * 512 + to)
}

/// A number in a sector of a disk, least significant byte first.
pub open spec fn sector_number(disk: Seq<u8>, sector: int, from: int, to: int) -> nat {
    bytes::le_value(in_sector(disk, sector, from, to))
}

proof fn lemma_in_region(
    disk: Seq<u8>,
    start: int,
    region: Seq<u8>,
    from: int,
    to: int,
)
    requires
        0 <= start,
        start * 512 + region.len() <= disk.len(),
        disk.subrange(start * 512, start * 512 + region.len()) == region,
        0 <= from <= to <= region.len(),
    ensures
        in_sector(disk, start, from, to) == region.subrange(from, to),
{
    let whole = disk.subrange(start * 512, start * 512 + region.len());
    assert(in_sector(disk, start, from, to) =~= whole.subrange(from, to));
}

/// The disk is the regions of the layout, one behind the other.
proof fn lemma_disk(
    list: Seq<DmgPartition>,
    layout: GptLayout,
    fs_size: int,
    kind: FilesystemKind,
    disk: Seq<u8>,
    unique: Seq<u8>,
    filesystem: Seq<u8>,
)
    requires
        gpt::is_layout(layout, fs_size, kind, disk, unique),
        parts_view(list) == parts_of(layout),
        filesystem.len() == layout.hfs_sector_count * 512,
        0 < fs_size,
    ensures
        ({
            let whole = disk_of(list, filesystem);
            let n = layout.total_sectors as int;
            &&& whole.len() == n * 512
            &&& whole.subrange(0, 512) == layout.mbr@
            &&& whole.subrange(512, 1024) == layout.primary_gpt_header@
            &&& whole.subrange(1024, 17408) == layout.primary_gpt_entries@
            &&& whole.subrange(17408, 20480) == bytes::zeros(3072)
            &&& whole.subrange(20480, 20480int + filesystem.len()) == filesystem
            &&& whole.subrange((n - 35) * 512, (n - 33) * 512) == bytes::zeros(1024)
            &&& whole.subrange((n - 33) * 512, (n - 1) * 512) == layout.backup_gpt_entries@
            &&& whole.subrange((n - 1) * 512, n * 512) == layout.backup_gpt_header@
        }),
{
    gpt::law_regions_fill_the_image(layout, fs_size, kind, disk, unique);
    reveal(disk_of);
    let whole = disk_of(list, filesystem);
    let n = layout.total_sectors as int;
    let parts = parts_of(layout);
    assert(parts_view(list).len() == list.len());
    assert forall|i: int| 0 <= i < 8 implies list[i]@ == parts[i] by {
        assert(parts_view(list)[i] == list[i]@);
    }
    let f = filesystem;
    assert(list.take(0) =~= Seq::empty());
    assert forall|i: int| 0 <= i < 8 implies disk_of(#[trigger] list.take(i + 1), f) == disk_of(
        list.take(i),
        f,
    ) + bytes_in(list[i], f) by {
        assert(list.take(i + 1).drop_last() =~= list.take(i));
    }
    assert(bytes_in(list[0], f) == layout.mbr@);
    assert(bytes_in(list[1], f) == layout.primary_gpt_header@);
    assert(bytes_in(list[2], f) == layout.primary_gpt_entries@);
    assert(bytes_in(list[3], f) =~= bytes::zeros(3072));
    assert(bytes_in(list[4], f) == f);
    assert(bytes_in(list[5], f) =~= bytes::zeros(1024));
    assert(bytes_in(list[6], f) == layout.backup_gpt_entries@);
    assert(bytes_in(list[7], f) == layout.backup_gpt_header@);
    let d1 = layout.mbr@;
    let d2 = d1 + layout.primary_gpt_header@;
    let d3 = d2 + layout.primary_gpt_entries@;
    let d4 = d3 + bytes::zeros(3072);
    let d5 = d4 + f;
    let d6 = d5 + bytes::zeros(1024);
    let d7 = d6 + layout.backup_gpt_entries@;
    let d8 = d7 + layout.backup_gpt_header@;
    assert(disk_of(list.take(0int + 1), f) =~= d1);
    assert(disk_of(list.take(1int + 1), f) =~= d2);
    assert(disk_of(list.take(2int + 1), f) =~= d3);
    assert(disk_of(list.take(3int + 1), f) =~= d4);
    assert(disk_of(list.take(4int + 1), f) =~= d5);
    assert(disk_of(list.take(5int + 1), f) =~= d6);
    assert(disk_of(list.take(6int + 1), f) =~= d7);
    assert(disk_of(list.take(7int + 1), f) =~= d8);
    assert(list.take(8) =~= list);
    assert(whole == d8);
    assert(whole.subrange(0, 512) =~= layout.mbr@);
    assert(whole.subrange(512, 1024) =~= layout.primary_gpt_header@);
    assert(whole.subrange(1024, 17408) =~= layout.primary_gpt_entries@);
    assert(whole.subrange(17408, 20480) =~= bytes::zeros(3072));
    assert(whole.subrange(20480, 20480int + f.len()) =~= f);
    assert(whole.subrange((n - 35) * 512, (n - 33) * 512) =~= bytes::zeros(1024));
    assert(whole.subrange((n - 33) * 512, (n - 1) * 512) =~= layout.backup_gpt_entries@);
    assert(whole.subrange((n - 1) * 512, n * 512) =~= layout.backup_gpt_header@);
}

/// Whether a disk has a partition table around a filesystem: a boot record in
/// sector 0, a header in sector 1 and one in the last, each of which says where
/// it is, where the other is and where its array starts; two arrays that are
/// the same and have the checksum that the headers give; and the filesystem in
/// the sectors that the array gives for it, with free sectors around.
#[verifier::opaque]
pub open spec fn is_partitioned(whole: Seq<u8>, filesystem: Seq<u8>) -> bool {
    let n = whole.len() as int / 512;
    let signature = seq![0x45u8, 0x46, 0x49, 0x20, 0x50, 0x41, 0x52, 0x54];
    let start = sector_number(whole, 2, 32, 40) as int;
    let end = sector_number(whole, 2, 40, 48) as int;
    &&& whole.len() == n * 512
    &&& in_sector(whole, 0, 510, 512) == seq![0x55u8, 0xaa]
    &&& in_sector(whole, 0, 450, 451) == seq![0xeeu8]
    &&& in_sector(whole, 1, 0, 8) == signature
    &&& in_sector(whole, n - 1, 0, 8) == signature
    &&& sector_number(whole, 1, 24, 32) == 1
    &&& sector_number(whole, 1, 32, 40) == n - 1
    &&& sector_number(whole, 1, 72, 80) == 2
    &&& sector_number(whole, n - 1, 24, 32) == n - 1
    &&& sector_number(whole, n - 1, 32, 40) == 1
    &&& sector_number(whole, n - 1, 72, 80) == n - 33
    &&& in_sector(whole, n - 33, 0, 16384) == in_sector(whole, 2, 0, 16384)
    &&& sector_number(whole, 1, 88, 92) == gpt::crc32(in_sector(whole, 2, 0, 16384))
    &&& sector_number(whole, n - 1, 88, 92) == gpt::crc32(in_sector(whole, 2, 0, 16384))
    &&& whole.subrange(start * 512, (end + 1) * 512) == filesystem
    &&& whole.subrange(34int * 512, start * 512) == bytes::zeros(6 * 512)
    &&& whole.subrange((end + 1) * 512, (n - 33) * 512) == bytes::zeros(2 * 512)
}

proof fn lemma_partitioned(
    whole: Seq<u8>,
    n: int,
    mbr: Seq<u8>,
    primary: Seq<u8>,
    array: Seq<u8>,
    filesystem: Seq<u8>,
    backup: Seq<u8>,
)
    requires
        75 < n,
        whole.len() == n * 512,
        mbr.len() == 512,
        primary.len() == 512,
        array.len() == 16384,
        backup.len() == 512,
        filesystem.len() == (n - 75) * 512,
        whole.subrange(0, 512) == mbr,
        whole.subrange(512, 1024) == primary,
        whole.subrange(1024, 17408) == array,
        whole.subrange(17408, 20480) == bytes::zeros(3072),
        whole.subrange(20480, 20480int + filesystem.len()) == filesystem,
        whole.subrange((n - 35) * 512, (n - 33) * 512) == bytes::zeros(1024),
        whole.subrange((n - 33) * 512, (n - 1) * 512) == array,
        whole.subrange((n - 1) * 512, n * 512) == backup,
        mbr[510] == 0x55,
        mbr[511] == 0xaa,
        mbr[450] == 0xee,
        primary.subrange(0, 8) == seq![0x45u8, 0x46, 0x49, 0x20, 0x50, 0x41, 0x52, 0x54],
        backup.subrange(0, 8) == seq![0x45u8, 0x46, 0x49, 0x20, 0x50, 0x41, 0x52, 0x54],
        gpt::header_number(primary, 24, 32) == 1,
        gpt::header_number(primary, 32, 40) == n - 1,
        gpt::header_number(primary, 72, 80) == 2,
        gpt::header_number(primary, 88, 92) == gpt::crc32(array),
        gpt::header_number(backup, 24, 32) == n - 1,
        gpt::header_number(backup, 32, 40) == 1,
        gpt::header_number(backup, 72, 80) == n - 33,
        gpt::header_number(backup, 88, 92) == gpt::crc32(array),
        gpt::header_number(array, 32, 40) == 40,
        gpt::header_number(array, 40, 48) == n - 36,
    ensures
        is_partitioned(whole, filesystem),
{
    reveal(is_partitioned);
    lemma_in_region(whole, 0, mbr, 510, 512);
    lemma_in_region(whole, 0, mbr, 450, 451);
    assert(mbr.subrange(510, 512) =~= seq![0x55u8, 0xaa]);
    assert(mbr.subrange(450, 451) =~= seq![0xeeu8]);
    lemma_in_region(whole, 1, primary, 0, 8);
    lemma_in_region(whole, 1, primary, 24, 32);
    lemma_in_region(whole, 1, primary, 32, 40);
    lemma_in_region(whole, 1, primary, 72, 80);
    lemma_in_region(whole, 1, primary, 88, 92);
    assert((n - 1) * 512 + 512 == n * 512);
    lemma_in_region(whole, n - 1, backup, 0, 8);
    lemma_in_region(whole, n - 1, backup, 24, 32);
    lemma_in_region(whole, n - 1, backup, 32, 40);
    lemma_in_region(whole, n - 1, backup, 72, 80);
    lemma_in_region(whole, n - 1, backup, 88, 92);
    lemma_in_region(whole, 2, array, 0, 16384);
    lemma_in_region(whole, 2, array, 32, 40);
    lemma_in_region(whole, 2, array, 40, 48);
    assert((n - 33) * 512 + 16384 == (n - 1) * 512);
    lemma_in_region(whole, n - 33, array, 0, 16384);
    assert(array.subrange(0, 16384) =~= array);
}

/// The partitions, one behind the other, make up a disk with a partition table
/// around the filesystem.
pub proof fn law_partitions_make_up_a_disk(
    list: Seq<DmgPartition>,
    layout: GptLayout,
    fs_size: int,
    kind: FilesystemKind,
    disk: Seq<u8>,
    unique: Seq<u8>,
    filesystem: Seq<u8>,
)
    requires
        gpt::is_layout(layout, fs_size, kind, disk, unique),
        parts_view(list) == parts_of(layout),
        filesystem.len() == layout.hfs_sector_count * 512,
        0 < fs_size,
    ensures
        is_partitioned(disk_of(list, filesystem), filesystem),
        disk_of(list, filesystem).len() == layout.total_sectors * 512,
{
    gpt::law_regions_fill_the_image(layout, fs_size, kind, disk, unique);
    gpt::law_boot_record_is_protective(layout, fs_size, kind, disk, unique);
    gpt::law_backup_mirrors_primary(layout, fs_size, kind, disk, unique);
    gpt::law_array_describes_the_filesystem(layout, fs_size, kind, disk, unique);
    lemma_disk(list, layout, fs_size, kind, disk, unique, filesystem);
    lemma_partitioned(
        disk_of(list, filesystem),
        layout.total_sectors as int,
        layout.mbr@,
        layout.primary_gpt_header@,
        layout.primary_gpt_entries@,
        filesystem,
        layout.backup_gpt_header@,
    );
}

/// The partitions go by the names of the regions that they hold, and are
/// numbered from -1 on.
pub proof fn law_partitions_are_named(
    list: Seq<DmgPartition>,
    layout: GptLayout,
    fs_size: int,
    kind: FilesystemKind,
    disk: Seq<u8>,
    unique: Seq<u8>,
)
    requires
        gpt::is_layout(layout, fs_size, kind, disk, unique),
        parts_view(list) == parts_of(layout),
    ensures
        list.len() == 8,
        forall|i: int| 0 <= i < 8 ==> (#[trigger] list[i]).id == i - 1,
        list[0].name@ == "Protective Master Boot Record(MBR:0)"@,
        list[1].name@ == "GPT Header(Primary GPT Header:1)"@,
        list[2].name@ == "GPT Partition Data(Primary GPT Table:2)"@,
        list[3].name@ == "(Apple_Free:3)"@,
        list[4].name@ == (match kind {
            FilesystemKind::HfsPlus => "disk image(Apple_HFS:4)"@,
            FilesystemKind::Apfs => "disk image(Apple_APFS:4)"@,
        }),
        list[5].name@ == "(Apple_Free:5)"@,
        list[6].name@ == "GPT Partition Data(Backup GPT Table:6)"@,
        list[7].name@ == "GPT Header(Backup GPT Header:7)"@,
        list[3].content is Ignored,
        list[4].content is Filesystem,
        list[5].content is Ignored,
{
    gpt::law_regions_are_named(layout, fs_size, kind, disk, unique);
    let parts = parts_of(layout);
    assert(parts_view(list).len() == list.len());
    assert forall|i: int| 0 <= i < 8 implies list[i]@ == parts[i] && (#[trigger] list[i]).id == i
        - 1 by {
        assert(parts_view(list)[i] == list[i]@);
    }
}

} // verus!
