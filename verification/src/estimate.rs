//! How large an image has to be for the entries of a bundle.
use crate::zip_reader;
use crate::zip_reader::{Entry, ZipEntry};
use vstd::prelude::*;

verus! {

/// Allocation block size of the filesystem.
pub const BLOCK_SIZE: u32 = 4096;

/// B-tree node size of the filesystem.
pub const NODE_SIZE: u32 = 8192;

/// Minimum image size: enough for volume header + a few B-tree nodes.
pub const MIN_IMAGE_SIZE: u64 = 0x100_0000;

/// Alignment boundary for image size rounding (8 MiB).
pub const ALIGN_SIZE: u64 = 0x80_0000;

/// How many catalog records a leaf node is taken to hold.
pub const RECORDS_PER_LEAF: u32 = 20;

/// How many records an index node is taken to hold.
pub const RECORDS_PER_INDEX: u32 = 256;

/// HFS+ epoch offset: seconds between 1904-01-01 and 1970-01-01.
pub const HFS_EPOCH_OFFSET: u32 = 2082844800;

// ---------------------------------------------------------------------------
// The catalog
// ---------------------------------------------------------------------------

/// How many pieces of `size` it takes to hold `amount`.
pub open spec fn pieces(amount: int, size: int) -> int {
    (amount + size - 1) / size
}

/// How many leaf nodes the catalog takes: two records for each entry and for
/// the root.
pub open spec fn leaf_nodes(entries: int) -> int {
    pieces((entries + 1) * 2, RECORDS_PER_LEAF as int)
}

/// How many index nodes the catalog takes: none where there is one leaf.
pub open spec fn index_nodes(entries: int) -> int {
    if leaf_nodes(entries) <= 1 {
        0
    } else {
        pieces(leaf_nodes(entries), RECORDS_PER_INDEX as int)
    }
}

/// How many nodes the catalog takes, with its header node.
pub open spec fn catalog_nodes(entries: int) -> int {
    1 + index_nodes(entries) + leaf_nodes(entries)
}

/// Whether the records of a catalog can be counted in 32 bits.
pub open spec fn countable(entries: int) -> bool {
    (entries + 1) * 2 + RECORDS_PER_LEAF <= u32::MAX
}

/// Calculate catalog B-tree node counts from entry count.
///
/// Returns (leaf_nodes, index_nodes, total_nodes) where total_nodes
/// includes the header node.
pub fn calc_catalog_node_counts(entry_count: u32) -> (r: (u32, u32, u32))
    requires
        countable(entry_count as int),
    ensures
        r.0 == leaf_nodes(entry_count as int),
        r.1 == index_nodes(entry_count as int),
        r.2 == catalog_nodes(entry_count as int),
{
    let catalog_records: u32 = (entry_count + 1) * 2;
    let leaf: u32 = (catalog_records + RECORDS_PER_LEAF - 1) / RECORDS_PER_LEAF;
    let index: u32 = if leaf <= 1 {
        0
    } else {
        (leaf + RECORDS_PER_INDEX - 1) / RECORDS_PER_INDEX
    };
    (leaf, index, 1 + index + leaf)
}

/// How many nodes are reserved for the catalog: eight more than it takes, but at
/// least 32.
pub open spec fn reserved_nodes(entries: int) -> int {
    if catalog_nodes(entries) + 8 < 32 {
        32
    } else {
        catalog_nodes(entries) + 8
    }
}

/// Estimate the number of catalog B-tree nodes needed.
///
/// We add headroom for B-tree growth.
pub fn estimate_catalog_nodes(items: &Vec<ZipEntry>) -> (r: u32)
    requires
        countable(items@.len() as int),
    ensures
        r == (if catalog_nodes(items@.len() as int) + 8 < 32 {
            32
        } else {
            catalog_nodes(items@.len() as int) + 8
        }),
        r == reserved_nodes(items@.len() as int),
{
    let base: u32 = calc_catalog_node_counts(items.len() as u32).2;
    if base + 8 < 32 {
        32
    } else {
        base + 8
    }
}

// ---------------------------------------------------------------------------
// The image
// ---------------------------------------------------------------------------

/// How many blocks the content of an entry takes.
pub open spec fn entry_blocks(entry: Entry) -> int {
    match entry {
        Entry::File { size, .. } => pieces(size as int, BLOCK_SIZE as int),
        _ => 0,
    }
}

/// How many blocks the contents of all entries take.
pub open spec fn data_blocks(entries: Seq<Entry>) -> int
    decreases entries.len(),
{
    if entries.len() == 0 {
        0
    } else {
        data_blocks(entries.drop_last()) + entry_blocks(entries.last())
    }
}

/// How many blocks a volume takes before the bitmap: contents, catalog, four
/// nodes for the extents, and the volume header.
pub open spec fn blocks_without_bitmap(data: int, entries: int) -> int {
    data + pieces(catalog_nodes(entries) * NODE_SIZE + 4 * NODE_SIZE, BLOCK_SIZE as int) + 1
}

/// How many blocks a volume takes: with the bitmap, which has one bit for each
/// block, and the alternate volume header.
pub open spec fn volume_blocks(data: int, entries: int) -> int {
    let first = blocks_without_bitmap(data, entries);
    first + pieces(pieces(first, 8), BLOCK_SIZE as int) + 1
}

/// How many blocks are left free: a tenth, but at least 16.
pub open spec fn free_blocks(total: int) -> int {
    if total / 10 < 16 {
        16
    } else {
        total / 10
    }
}

/// `size`, or the minimum where it is less, up to the next alignment boundary.
pub open spec fn aligned(size: int) -> int {
    let least = if size < MIN_IMAGE_SIZE {
        MIN_IMAGE_SIZE as int
    } else {
        size
    };
    pieces(least, ALIGN_SIZE as int) * ALIGN_SIZE
}

/// The size of an image whose contents take `data` blocks.
pub open spec fn sized(data: int, entries: int) -> int {
    let total = volume_blocks(data, entries);
    aligned((total + free_blocks(total)) * BLOCK_SIZE)
}

/// The size of an image for the given entries.
pub open spec fn image_size(entries: Seq<Entry>) -> int {
    sized(data_blocks(entries), entries.len() as int)
}

/// Whether an image for the given entries can be sized with 64 bits, and its
/// catalog with 32.
pub open spec fn sizable(entries: Seq<Entry>) -> bool {
    countable(entries.len() as int) && image_size(entries) <= u64::MAX
}

proof fn lemma_data_blocks_bounded(entries: Seq<Entry>)
    ensures
        0 <= data_blocks(entries) <= entries.len() * 0x10_0000_0000_0000,
    decreases entries.len(),
{
    if entries.len() > 0 {
        lemma_data_blocks_bounded(entries.drop_last());
    }
}

/// Estimate the total image size needed for the ZIP entries, or say that it
/// cannot be sized.
///
/// The model accounts for:
/// - File data, rounded up to whole allocation blocks (4 KiB each)
/// - Catalog B-tree: each entry produces ~2 records (item + thread);
///   each 8 KiB leaf node holds ~20 records; plus index/header nodes
/// - Allocation bitmap: 1 bit per allocation block
/// - Volume header: 1 block
/// - Extents-overflow B-tree: a small reserved area
/// - 10% free space reserve for B-tree growth and alignment slack
pub fn try_estimate_image_size(items: &Vec<ZipEntry>) -> (r: Option<u64>)
    ensures
        match r {
            Some(size) => sizable(zip_reader::entries_view(items@)) && size == image_size(
                zip_reader::entries_view(items@),
            ),
            None => !sizable(zip_reader::entries_view(items@)),
        },
{
    let ghost all = zip_reader::entries_view(items@);
    let count: usize = items.len();
    if count as u128 > 0x7fff_fff4 {
        return None;
    }
    let block: u128 = BLOCK_SIZE as u128;
    let mut data: u128 = 0;
    let mut i: usize = 0;
    assert(all.take(0) =~= Seq::empty());
    while i < count
        invariant
            i <= count,
            count == items@.len(),
            count <= 0x7fff_fff4,
            block == 4096,
            all == zip_reader::entries_view(items@),
            data == data_blocks(all.take(i as int)),
            data <= i * 0x10_0000_0000_0000,
        decreases count - i,
    {
        assert(all.take(i + 1).drop_last() =~= all.take(i as int));
        assert(all.take(i + 1).last() == items@[i as int]@);
        if let ZipEntry::File { size, .. } = &items[i] {
            let blocks: u128 = (*size as u128 + block - 1) / block;
            data = data + blocks;
        }
        i += 1;
    }
    assert(all.take(i as int) =~= all);
    let nodes: u32 = calc_catalog_node_counts(count as u32).2;
    let catalog_bytes: u128 = nodes as u128 * NODE_SIZE as u128;
    let extents_bytes: u128 = 4 * NODE_SIZE as u128;
    let metadata_blocks: u128 = (catalog_bytes + extents_bytes + block - 1) / block;
    let first_blocks: u128 = data + metadata_blocks + 1;
    let bitmap_bytes: u128 = (first_blocks + 7) / 8;
    let bitmap_blocks: u128 = (bitmap_bytes + block - 1) / block;
    let total_blocks: u128 = first_blocks + bitmap_blocks + 1;
    let free: u128 = if total_blocks / 10 < 16 {
        16
    } else {
        total_blocks / 10
    };
    let bytes: u128 = (total_blocks + free) * block;
    let least: u128 = if bytes < MIN_IMAGE_SIZE as u128 {
        MIN_IMAGE_SIZE as u128
    } else {
        bytes
    };
    let align: u128 = ALIGN_SIZE as u128;
    let size: u128 = (least + align - 1) / align * align;
    if size <= u64::MAX as u128 {
        Some(size as u64)
    } else {
        None
    }
}

/// Estimate the total image size needed for the ZIP entries.
pub fn estimate_image_size(items: &Vec<ZipEntry>) -> (r: u64)
    requires
        sizable(zip_reader::entries_view(items@)),
    ensures
        r == image_size(zip_reader::entries_view(items@)),
{
    try_estimate_image_size(items).unwrap()
}

/// The seconds since 1904-01-01, given those since 1970-01-01, of which 32 bits
/// count.
pub open spec fn hfs_seconds(unix_seconds: u64) -> int {
    let date = unix_seconds % 0x1_0000_0000 + HFS_EPOCH_OFFSET;
    if date <= u32::MAX {
        date
    } else {
        u32::MAX as int
    }
}

/// An HFS+ date (seconds since 1904-01-01) from the seconds since 1970-01-01,
/// of which 32 bits count. Dates that HFS+ cannot write become the last one
/// that it can.
pub fn hfs_date(unix_seconds: u64) -> (r: u32)
    ensures
        r == (if unix_seconds % 0x1_0000_0000 + HFS_EPOCH_OFFSET <= u32::MAX {
            unix_seconds % 0x1_0000_0000 + HFS_EPOCH_OFFSET
        } else {
            u32::MAX as int
        }),
        r == hfs_seconds(unix_seconds),
{
    let seconds: u32 = (unix_seconds % 0x1_0000_0000) as u32;
    match seconds.checked_add(HFS_EPOCH_OFFSET) {
        Some(date) => date,
        None => u32::MAX,
    }
}

// ---------------------------------------------------------------------------
// Laws
// ---------------------------------------------------------------------------

/// An image is never below the minimum, ends at an alignment boundary and so at
/// a block boundary.
pub proof fn law_image_is_aligned(entries: Seq<Entry>)
    ensures
        image_size(entries) >= MIN_IMAGE_SIZE,
        image_size(entries) % (ALIGN_SIZE as int) == 0,
        image_size(entries) % (BLOCK_SIZE as int) == 0,
{
}

/// How many bytes the files hold.
pub open spec fn content_size(entries: Seq<Entry>) -> int
    decreases entries.len(),
{
    if entries.len() == 0 {
        0
    } else {
        content_size(entries.drop_last()) + entry_size(entries.last())
    }
}

/// An image has room for the contents of all files, for the catalog's nodes,
/// and for a tenth more.
pub proof fn law_image_has_room(entries: Seq<Entry>)
    ensures
        content_size(entries) + catalog_nodes(entries.len() as int) * NODE_SIZE + content_size(
            entries,
        ) / 10 <= image_size(entries),
{
    lemma_content_in_blocks(entries);
    lemma_data_blocks_bounded(entries);
}

proof fn lemma_content_in_blocks(entries: Seq<Entry>)
    ensures
        0 <= content_size(entries) <= data_blocks(entries) * BLOCK_SIZE,
    decreases entries.len(),
{
    if entries.len() > 0 {
        lemma_content_in_blocks(entries.drop_last());
    }
}

proof fn lemma_sized_monotone(data: int, entries: int, more_data: int, more_entries: int)
    requires
        0 <= data <= more_data,
        0 <= entries <= more_entries,
    ensures
        sized(data, entries) <= sized(more_data, more_entries),
{
    assert(leaf_nodes(entries) <= leaf_nodes(more_entries));
    assert(index_nodes(entries) <= index_nodes(more_entries));
    assert(catalog_nodes(entries) <= catalog_nodes(more_entries));
    assert(blocks_without_bitmap(data, entries) <= blocks_without_bitmap(more_data, more_entries));
    assert(volume_blocks(data, entries) <= volume_blocks(more_data, more_entries));
}

/// How many bytes an entry holds.
pub open spec fn entry_size(entry: Entry) -> int {
    match entry {
        Entry::File { size, .. } => size as int,
        _ => 0,
    }
}

/// Whether `more` has as many entries as `entries`, none of which holds less.
pub open spec fn grown(entries: Seq<Entry>, more: Seq<Entry>) -> bool {
    entries.len() == more.len() && forall|i: int|
        0 <= i < entries.len() ==> entry_size(#[trigger] entries[i]) <= entry_size(more[i])
}

proof fn lemma_grown_blocks(entries: Seq<Entry>, more: Seq<Entry>)
    requires
        grown(entries, more),
    ensures
        data_blocks(entries) <= data_blocks(more),
    decreases entries.len(),
{
    if entries.len() > 0 {
        let a = entries.drop_last();
        let b = more.drop_last();
        assert forall|i: int| 0 <= i < a.len() implies entry_size(#[trigger] a[i]) <= entry_size(
            b[i],
        ) by {
            assert(a[i] == entries[i]);
        }
        lemma_grown_blocks(a, b);
        assert(entries[entries.len() - 1] == entries.last());
    }
}

/// The estimate grows with the sizes of the files.
pub proof fn law_estimate_grows_with_files(entries: Seq<Entry>, more: Seq<Entry>)
    requires
        grown(entries, more),
    ensures
        image_size(entries) <= image_size(more),
{
    lemma_grown_blocks(entries, more);
    lemma_data_blocks_bounded(entries);
    lemma_sized_monotone(
        data_blocks(entries),
        entries.len() as int,
        data_blocks(more),
        more.len() as int,
    );
}

/// The estimate grows with the number of entries.
pub proof fn law_estimate_grows_with_entries(entries: Seq<Entry>, entry: Entry)
    ensures
        image_size(entries) <= image_size(entries.push(entry)),
{
    assert(entries.push(entry).drop_last() =~= entries);
    lemma_data_blocks_bounded(entries);
    lemma_sized_monotone(
        data_blocks(entries),
        entries.len() as int,
        data_blocks(entries.push(entry)),
        (entries.len() + 1) as int,
    );
}

/// Two records for each entry and for the root fit in the leaf nodes at 20 to a
/// node, and would not in one node less; the leaf nodes fit in the index nodes
/// at 256 to a node, and would not in one less, but a single leaf needs no
/// index. With the header node, that is the catalog.
pub proof fn law_catalog_holds_its_records(entries: int)
    requires
        0 <= entries,
    ensures
        20 * (leaf_nodes(entries) - 1) < 2 * entries + 2 <= 20 * leaf_nodes(entries),
        leaf_nodes(entries) <= 1 ==> index_nodes(entries) == 0,
        leaf_nodes(entries) > 1 ==> 256 * (index_nodes(entries) - 1) < leaf_nodes(entries) <= 256
            * index_nodes(entries),
        catalog_nodes(entries) - leaf_nodes(entries) - index_nodes(entries) == 1,
{
}

/// What is reserved for the catalog is at least 32 nodes and leaves at least 8
/// free, but never more than it has to.
pub proof fn law_catalog_has_room_to_grow(entries: int)
    ensures
        32 <= reserved_nodes(entries),
        catalog_nodes(entries) + 8 <= reserved_nodes(entries),
        reserved_nodes(entries) == 32 || reserved_nodes(entries) == catalog_nodes(entries) + 8,
{
}

/// The content of a file fills its blocks of 4096 bytes up to the last; nothing
/// else takes any.
pub proof fn law_contents_take_whole_blocks(entries: Seq<Entry>, entry: Entry)
    ensures
        data_blocks(Seq::empty()) == 0,
        ({
            let blocks = data_blocks(entries.push(entry)) - data_blocks(entries);
            match entry {
                Entry::File { size, .. } => 4096 * (blocks - 1) < size <= 4096 * blocks,
                _ => blocks == 0,
            }
        }),
{
    assert(entries.push(entry).drop_last() =~= entries);
}

/// Whether a volume of `first` blocks and what they need beside fits in `size`
/// bytes, and in no fewer: `bitmap` blocks for one bit each, a block for the
/// alternate header and `free` blocks, in a multiple of 8 MiB that is at least
/// 16 MiB.
pub open spec fn just_fits(first: int, bitmap: int, free: int, size: int) -> bool {
    let total = first + bitmap + 1;
    let needed = 4096 * (total + free);
    &&& 32768 * (bitmap - 1) < first <= 32768 * bitmap
    &&& 16 <= free
    &&& total < 10 * free + 10
    &&& free == 16 || 10 * free <= total
    &&& size % 0x80_0000 == 0
    &&& 0x100_0000 <= size
    &&& needed <= size
    &&& size == 0x100_0000 || size - 0x80_0000 < needed
}

/// An image is just large enough: for the blocks of the contents, two for each
/// node of the catalog and for four nodes more, and the volume header, with
/// their bitmap, the alternate header and a tenth, but at least 16 blocks, left
/// free.
pub proof fn law_image_is_just_large_enough(entries: Seq<Entry>)
    ensures
        exists|bitmap: int, free: int| #[trigger]
            just_fits(
                data_blocks(entries) + 2 * catalog_nodes(entries.len() as int) + 8 + 1,
                bitmap,
                free,
                image_size(entries),
            ),
{
    let n = entries.len() as int;
    let first = blocks_without_bitmap(data_blocks(entries), n);
    let total = volume_blocks(data_blocks(entries), n);
    let bitmap = pieces(pieces(first, 8), 4096);
    let free = free_blocks(total);
    lemma_data_blocks_bounded(entries);
    assert(catalog_nodes(n) * NODE_SIZE + 4 * NODE_SIZE == 4096 * (2 * catalog_nodes(n) + 8));
    assert(first == data_blocks(entries) + 2 * catalog_nodes(n) + 8 + 1);
    assert(total == first + bitmap + 1);
    assert(32768 * (bitmap - 1) < first <= 32768 * bitmap);
    assert(just_fits(first, bitmap, free, image_size(entries)));
}

/// An HFS+ date is the Unix time and the 66 years, 17 of them leap years, from
/// 1904 to 1970, as long as 32 bits count that far; from then on it is the last
/// one there is.
pub proof fn law_hfs_dates_start_in_1904(unix_seconds: u64)
    requires
        unix_seconds < 0x1_0000_0000,
    ensures
        ({
            let years = (66 * 365 + 17) * 24 * 60 * 60;
            &&& unix_seconds + years <= 0xffff_ffff ==> hfs_seconds(unix_seconds) == unix_seconds
                + years
            &&& unix_seconds + years > 0xffff_ffff ==> hfs_seconds(unix_seconds) == 0xffff_ffff
        }),
{
}

/// An image for less than 2^30 entries with less than 2^60 bytes can be sized.
pub proof fn law_ordinary_bundles_can_be_sized(entries: Seq<Entry>)
    requires
        entries.len() < 0x4000_0000,
        content_size(entries) < 0x1000_0000_0000_0000,
    ensures
        sizable(entries),
{
    let n = entries.len() as int;
    let first = blocks_without_bitmap(data_blocks(entries), n);
    lemma_data_blocks_bounded(entries);
    lemma_blocks_in_content(entries);
    assert(4096 * data_blocks(entries) <= content_size(entries) + 4096 * n);
    assert(catalog_nodes(n) <= 0x2000_0000);
    assert(first <= 0x1_0000_8000_0000);
}

proof fn lemma_blocks_in_content(entries: Seq<Entry>)
    ensures
        4096 * data_blocks(entries) <= content_size(entries) + 4096 * entries.len(),
    decreases entries.len(),
{
    if entries.len() > 0 {
        lemma_blocks_in_content(entries.drop_last());
    }
}

} // verus!
