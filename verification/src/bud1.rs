//! Apple's "Bud1" container format, which `.DS_Store` files use: a buddy
//! allocator and a B-tree.
//!
//! The file written here holds one leaf with all records:
//!
//! - offset 0: the number 1, big-endian
//! - block 0, the prelude: "Bud1", the offset, size and offset of the info block
//! - block 1: the root of the B-tree, which points to the leaf
//! - block 2: the leaf with all records
//! - the info block: block addresses, directory and free list
//!
//! The content of a block starts four bytes behind its address. The info block
//! is at 0x1000; where the leaf would reach that far, it is moved behind the
//! leaf's block, and the file grows with it.
use crate::bytes;
use vstd::arithmetic::power2::{lemma2_to64, lemma_pow2_strictly_increases, lemma_pow2_unfold};
use vstd::prelude::*;

verus! {

/// Where the content of the leaf starts.
pub const LEAF_START: usize = 132;

/// How large the content of a leaf can be that ends before an info block at
/// 0x1000 starts.
pub const SHORT_LEAF: usize = 3968;

/// How large the content of a leaf can be: with the four bytes before it, it
/// takes a block of at most 64 KiB.
pub const LEAF_LIMIT: usize = 65532;

/// Size of the info block.
pub const INFO_SIZE: usize = 2048;

// ---------------------------------------------------------------------------
// Records
// ---------------------------------------------------------------------------

/// One record of the B-tree leaf.
pub struct Bud1Record {
    pub name: String,
    pub type_code: [u8; 4],
    pub sub_type: [u8; 4],
    pub data: Vec<u8>,
}

/// What a [`Bud1Record`] holds.
pub struct Record {
    pub name: Seq<char>,
    pub type_code: Seq<u8>,
    pub sub_type: Seq<u8>,
    pub data: Seq<u8>,
}

impl View for Bud1Record {
    type V = Record;

    open spec fn view(&self) -> Record {
        Record {
            name: self.name@,
            type_code: self.type_code@,
            sub_type: self.sub_type@,
            data: self.data@,
        }
    }
}

/// What a list of records holds.
pub open spec fn records_view(records: Seq<Bud1Record>) -> Seq<Record> {
    Seq::new(records.len(), |i: int| records[i]@)
}

/// Four characters as bytes.
pub open spec fn code(a: char, b: char, c: char, d: char) -> Seq<u8> {
    seq![a as u8, b as u8, c as u8, d as u8]
}

/// The sub type of records whose data carries its own length.
pub open spec fn blob() -> Seq<u8> {
    code('b', 'l', 'o', 'b')
}

/// The sub type of records with a four-byte number.
pub open spec fn long() -> Seq<u8> {
    code('l', 'o', 'n', 'g')
}

/// The sub type of records with a one-byte truth value.
pub open spec fn boolean() -> Seq<u8> {
    code('b', 'o', 'o', 'l')
}

/// A record in the leaf: the length of the name in UTF-16 units, the name, the
/// two codes and the data, with its length before it where it is a blob.
pub open spec fn record_bytes(record: Record) -> Seq<u8> {
    let name = bytes::utf16be(record.name);
    bytes::be32((name.len() / 2) as u32) + name + record.type_code + record.sub_type + (
    if record.sub_type == blob() {
        bytes::be32(record.data.len() as u32) + record.data
    } else {
        record.data
    })
}

/// The records one behind the other.
pub open spec fn records_bytes(records: Seq<Record>) -> Seq<u8>
    decreases records.len(),
{
    if records.len() == 0 {
        Seq::empty()
    } else {
        record_bytes(records[0]) + records_bytes(records.skip(1))
    }
}

/// The leaf: no child node, the number of records, the records.
pub open spec fn leaf(records: Seq<Record>) -> Seq<u8> {
    bytes::be32(0) + bytes::be32(records.len() as u32) + records_bytes(records)
}

/// The root of the B-tree: the leaf's block number, no level below it, the
/// number of records, one node, and the page size.
pub open spec fn root(count: nat) -> Seq<u8> {
    bytes::be32(2) + bytes::be32(0) + bytes::be32(count as u32) + bytes::be32(1) + bytes::be32(
        0x1000,
    )
}

/// Whether blocks of `2^shift` bytes, and no smaller ones from 32 bytes up,
/// hold `size` bytes.
pub open spec fn is_size_shift(shift: nat, size: nat) -> bool {
    &&& 5 <= shift
    &&& size <= vstd::arithmetic::power2::pow2(shift)
    &&& shift > 5 ==> vstd::arithmetic::power2::pow2((shift - 1) as nat) < size
}

/// The base-two logarithm of the smallest block that holds `size` bytes.
pub open spec fn size_shift(size: nat) -> nat {
    choose|shift: nat| is_size_shift(shift, size)
}

/// The info block for a leaf of `leaf_size` bytes: the number of blocks, their
/// addresses, each with the logarithm of its size in the low five bits, in a
/// table of 256; the directory, which has the root of the tree under "DSDB";
/// and the free list, where only the level of 32-byte blocks has any.
pub open spec fn info(leaf_size: nat) -> Seq<u8> {
    bytes::be32(3) + bytes::be32(0) + bytes::be32(0x05) + bytes::be32(0x45) + bytes::be32(
        (0x80 + size_shift(leaf_size + 4)) as u32,
    ) + bytes::zeros(1012) + bytes::be32(1) + seq![4u8] + code('D', 'S', 'D', 'B') + bytes::be32(1)
        + bytes::zeros(20) + bytes::be32(2) + bytes::be32(0x20) + bytes::be32(0x60) + bytes::zeros(
        104,
    )
}

/// The address of the info block for a leaf of `leaf_size` bytes: 0x1000, or,
/// where the leaf would reach that far, 0x1000 and the size of the leaf's block.
pub open spec fn info_address(leaf_size: nat) -> int {
    if leaf_size <= SHORT_LEAF {
        0x1000
    } else {
        0x1000int + vstd::arithmetic::power2::pow2(size_shift(leaf_size + 4))
    }
}

/// Where the content of the info block starts.
pub open spec fn info_start(leaf_size: nat) -> int {
    info_address(leaf_size) + 4
}

/// The size of the file, which ends with the info block.
pub open spec fn file_size(leaf_size: nat) -> nat {
    (info_start(leaf_size) + INFO_SIZE) as nat
}

/// The prelude for an info block at `address`, with the number before it.
pub open spec fn prelude(address: int) -> Seq<u8> {
    bytes::be32(1) + code('B', 'u', 'd', '1') + bytes::be32(address as u32) + bytes::be32(
        INFO_SIZE as u32,
    ) + bytes::be32(address as u32)
}

/// The file for `records`.
#[verifier::opaque]
pub open spec fn bud1_file(records: Seq<Record>) -> Seq<u8> {
    let leaf_size = leaf(records).len();
    let empty = bytes::zeros(file_size(leaf_size));
    let started = bytes::overwritten(empty, 0, prelude(info_address(leaf_size)));
    let rooted = bytes::overwritten(started, 68, root(records.len()));
    let leafed = bytes::overwritten(rooted, LEAF_START as int, leaf(records));
    bytes::overwritten(leafed, info_start(leaf_size), info(leaf_size))
}

proof fn lemma_size_shift(shift: nat, size: nat)
    requires
        is_size_shift(shift, size),
    ensures
        size_shift(size) == shift,
{
    let other = size_shift(size);
    assert(is_size_shift(other, size));
    if other < shift {
        if other < shift - 1 {
            lemma_pow2_strictly_increases(other, (shift - 1) as nat);
        }
    } else if shift < other {
        if shift < other - 1 {
            lemma_pow2_strictly_increases(shift, (other - 1) as nat);
        }
    }
}

/// The smallest block that holds `size` bytes: the base-two logarithm of its
/// size, and its size.
fn smallest_block(size: u32) -> (r: (u32, u32))
    requires
        size <= 0x4000_0000,
    ensures
        r.0 == size_shift(size as nat),
        r.0 <= 30,
        r.1 == vstd::arithmetic::power2::pow2(r.0 as nat),
        size <= r.1 <= 0x4000_0000,
        r.1 > 32 ==> r.1 < 2 * size,
{
    let mut shift: u32 = 5;
    let mut block: u32 = 32;
    proof {
        lemma2_to64();
    }
    while block < size
        invariant
            size <= 0x4000_0000,
            5 <= shift <= 30,
            block == vstd::arithmetic::power2::pow2(shift as nat),
            vstd::arithmetic::power2::pow2(30) == 0x4000_0000,
            32 <= block <= 0x4000_0000,
            shift > 5 ==> vstd::arithmetic::power2::pow2((shift - 1) as nat) < size,
        decreases 0x4000_0000 - block,
    {
        proof {
            if shift >= 30 {
                assert(shift == 30);
            } else {
                lemma_pow2_unfold((shift + 1) as nat);
                if shift + 1 < 30 {
                    lemma_pow2_strictly_increases((shift + 1) as nat, 30);
                }
            }
        }
        block = block * 2;
        shift = shift + 1;
    }
    proof {
        lemma_size_shift(shift as nat, size as nat);
        if shift > 5 {
            lemma_pow2_unfold(shift as nat);
        }
    }
    (shift, block)
}

fn is_blob(sub_type: &[u8; 4]) -> (r: bool)
    ensures
        r == (sub_type@ == blob()),
{
    let r: bool = sub_type[0] == 'b' as u8 && sub_type[1] == 'l' as u8 && sub_type[2] == 'o' as u8
        && sub_type[3] == 'b' as u8;
    assert(r ==> sub_type@ =~= blob());
    r
}

/// Appends one record.
fn push_record(buffer: &mut Vec<u8>, record: &Bud1Record)
    ensures
        final(buffer)@ == old(buffer)@ + record_bytes(record@),
{
    let name = bytes::encode_utf16be(record.name.as_str());
    bytes::push_be32(buffer, (name.len() / 2) as u32);
    bytes::push_all(buffer, name.as_slice());
    bytes::push_all(buffer, record.type_code.as_slice());
    bytes::push_all(buffer, record.sub_type.as_slice());
    if is_blob(&record.sub_type) {
        bytes::push_be32(buffer, record.data.len() as u32);
    }
    bytes::push_all(buffer, record.data.as_slice());
    assert(buffer@ =~= old(buffer)@ + record_bytes(record@));
}

/// The content of the leaf that holds `records`.
pub fn leaf_content(records: &[Bud1Record]) -> (r: Vec<u8>)
    ensures
        r@ == leaf(records_view(records@)),
{
    let ghost all = records_view(records@);
    let mut content: Vec<u8> = Vec::new();
    bytes::push_be32(&mut content, 0);
    bytes::push_be32(&mut content, records.len() as u32);
    let mut i: usize = 0;
    assert(all.skip(0) =~= all);
    assert(content@ + records_bytes(all.skip(0)) =~= leaf(all));
    while i < records.len()
        invariant
            i <= records@.len(),
            all == records_view(records@),
            content@ + records_bytes(all.skip(i as int)) == leaf(all),
        decreases records@.len() - i,
    {
        let ghost before = content@;
        push_record(&mut content, &records[i]);
        assert(all.skip(i as int).skip(1) =~= all.skip(i + 1));
        assert(all.skip(i as int)[0] == records@[i as int]@);
        i += 1;
        assert(content@ + records_bytes(all.skip(i as int)) =~= before + records_bytes(
            all.skip(i - 1),
        ));
    }
    assert(all.skip(i as int) =~= Seq::empty());
    assert(content@ =~= leaf(all));
    content
}

fn root_content(count: usize) -> (r: Vec<u8>)
    ensures
        r@ == root(count as nat),
{
    let mut content: Vec<u8> = Vec::new();
    bytes::push_be32(&mut content, 2);
    bytes::push_be32(&mut content, 0);
    bytes::push_be32(&mut content, count as u32);
    bytes::push_be32(&mut content, 1);
    bytes::push_be32(&mut content, 0x1000);
    assert(content@ =~= root(count as nat));
    content
}

fn info_content(leaf_size: u32) -> (r: Vec<u8>)
    requires
        leaf_size <= LEAF_LIMIT,
    ensures
        r@ == info(leaf_size as nat),
        r@.len() == 1181,
{
    let shift: u32 = smallest_block(leaf_size + 4).0;
    let mut content: Vec<u8> = Vec::new();
    bytes::push_be32(&mut content, 3);
    bytes::push_be32(&mut content, 0);
    bytes::push_be32(&mut content, 0x05);
    bytes::push_be32(&mut content, 0x45);
    bytes::push_be32(&mut content, 0x80 + shift);
    bytes::push_zeros(&mut content, 1012);
    bytes::push_be32(&mut content, 1);
    content.push(4);
    bytes::push_all(&mut content, ['D' as u8, 'S' as u8, 'D' as u8, 'B' as u8].as_slice());
    bytes::push_be32(&mut content, 1);
    bytes::push_zeros(&mut content, 20);
    bytes::push_be32(&mut content, 2);
    bytes::push_be32(&mut content, 0x20);
    bytes::push_be32(&mut content, 0x60);
    bytes::push_zeros(&mut content, 104);
    assert(content@ =~= info(leaf_size as nat));
    content
}

fn prelude_content(address: u32) -> (r: Vec<u8>)
    ensures
        r@ == prelude(address as int),
        r@.len() == 20,
{
    let mut content: Vec<u8> = Vec::new();
    bytes::push_be32(&mut content, 1);
    bytes::push_all(&mut content, ['B' as u8, 'u' as u8, 'd' as u8, '1' as u8].as_slice());
    bytes::push_be32(&mut content, address);
    bytes::push_be32(&mut content, INFO_SIZE as u32);
    bytes::push_be32(&mut content, address);
    assert(content@ =~= prelude(address as int));
    content
}

/// Where the info block goes for a leaf of `leaf_size` bytes.
fn info_place(leaf_size: u32) -> (address: u32)
    requires
        leaf_size <= LEAF_LIMIT,
    ensures
        address == info_address(leaf_size as nat),
        LEAF_START + leaf_size <= address + 4,
        address <= 0x2_1000,
{
    if leaf_size <= SHORT_LEAF as u32 {
        0x1000
    } else {
        0x1000 + smallest_block(leaf_size + 4).1
    }
}

/// Serialize records into the Bud1 binary format.
pub fn serialize_bud1(records: &[Bud1Record]) -> (file: Vec<u8>)
    requires
        leaf(records_view(records@)).len() <= LEAF_LIMIT,
    ensures
        file@ == bud1_file(records_view(records@)),
        file@.len() == file_size(leaf(records_view(records@)).len()),
{
    let leaf_bytes = leaf_content(records);
    let leaf_size: u32 = leaf_bytes.len() as u32;
    let address: u32 = info_place(leaf_size);
    let start: usize = address as usize + 4;
    let root_bytes = root_content(records.len());
    let info_bytes = info_content(leaf_size);
    let prelude_bytes = prelude_content(address);
    let mut file: Vec<u8> = Vec::new();
    bytes::push_zeros(&mut file, start + INFO_SIZE);
    assert(file@ =~= bytes::zeros(file_size(leaf_size as nat)));
    bytes::overwrite(&mut file, 0, prelude_bytes.as_slice());
    bytes::overwrite(&mut file, 68, root_bytes.as_slice());
    bytes::overwrite(&mut file, LEAF_START, leaf_bytes.as_slice());
    bytes::overwrite(&mut file, start, info_bytes.as_slice());
    assert(file@ == bud1_file(records_view(records@))) by {
        reveal(bud1_file);
    }
    file
}

// ---------------------------------------------------------------------------
// Reading a file back
// ---------------------------------------------------------------------------

/// The four-byte number at `at`.
pub open spec fn number_at(file: Seq<u8>, at: int) -> int {
    bytes::be_value(file.subrange(at, at + 4)) as int
}

/// Where the content of a block starts, given its entry in the address table.
pub open spec fn content_start(entry: int) -> int {
    entry - entry % 32 + 4
}

/// The size of a block, given its entry in the address table.
pub open spec fn block_size(entry: int) -> nat {
    vstd::arithmetic::power2::pow2((entry % 32) as nat)
}

/// Entry `block` of the address table.
pub open spec fn address_entry(file: Seq<u8>, block: int) -> int {
    number_at(file, number_at(file, 8) + 4 + 8 + 4 * block)
}

/// Where the data of a record lies and how long it is, given its sub type and
/// the place behind that.
pub open spec fn data_extent(input: Seq<u8>, sub_type: Seq<u8>, at: int) -> Option<(int, int)> {
    if sub_type == blob() {
        if at + 4 <= input.len() {
            Some((at + 4, number_at(input, at)))
        } else {
            None
        }
    } else if sub_type == long() {
        Some((at, 4))
    } else if sub_type == boolean() {
        Some((at, 1))
    } else {
        None
    }
}

/// The first record in `input` and the place behind it.
pub open spec fn read_record(input: Seq<u8>) -> Option<(Record, int)> {
    let name_end = 4 + 2 * number_at(input, 0);
    if input.len() < 4 || input.len() < name_end + 8 {
        None
    } else {
        let type_code = input.subrange(name_end, name_end + 4);
        let sub_type = input.subrange(name_end + 4, name_end + 8);
        match (
            bytes::utf16be_text(input.subrange(4, name_end)),
            data_extent(input, sub_type, name_end + 8),
        ) {
            (Some(name), Some((start, size))) => if start + size <= input.len() {
                let data = input.subrange(start, start + size);
                Some((Record { name, type_code, sub_type, data }, start + size))
            } else {
                None
            },
            _ => None,
        }
    }
}

/// The first `count` records in `input`.
pub open spec fn read_records(input: Seq<u8>, count: nat) -> Option<Seq<Record>>
    decreases count,
{
    if count == 0 {
        Some(Seq::empty())
    } else {
        match read_record(input) {
            None => None,
            Some((record, end)) => match read_records(input.skip(end), (count - 1) as nat) {
                None => None,
                Some(rest) => Some(seq![record] + rest),
            },
        }
    }
}

/// The records in a file: from the prelude to the info block, from its
/// directory to the root of the tree, and from there to the leaf.
pub open spec fn stored_records(file: Seq<u8>) -> Option<Seq<Record>> {
    let info_at = number_at(file, 8) + 4;
    let directory = info_at + 8 + 4 * 256;
    let root_at = content_start(address_entry(file, number_at(file, directory + 9)));
    let leaf_at = content_start(address_entry(file, number_at(file, root_at)));
    if number_at(file, 0) != 1 || file.subrange(4, 8) != code('B', 'u', 'd', '1') || number_at(
        file,
        16,
    ) != number_at(file, 8) || number_at(file, directory) != 1 || file[directory + 4] != 4
        || file.subrange(directory + 5, directory + 9) != code('D', 'S', 'D', 'B') || number_at(
        file,
        leaf_at,
    ) != 0 {
        None
    } else {
        read_records(file.skip(leaf_at + 8), number_at(file, leaf_at + 4) as nat)
    }
}

/// Whether a record can be told apart from what follows it: its codes have
/// four bytes each, its data is a blob or has the size that its sub type asks
/// for, and its lengths fit in four bytes.
pub open spec fn readable(record: Record) -> bool {
    &&& record.type_code.len() == 4
    &&& record.sub_type.len() == 4
    &&& bytes::utf16be(record.name).len() / 2 <= u32::MAX
    &&& record.data.len() <= u32::MAX
    &&& record.sub_type == blob() || (record.sub_type == long() && record.data.len() == 4) || (
    record.sub_type == boolean() && record.data.len() == 1)
}

proof fn lemma_codes_differ()
    ensures
        blob() != long(),
        blob() != boolean(),
        long() != boolean(),
{
    assert(blob()[0] != long()[0]);
    assert(blob()[1] != boolean()[1]);
    assert(long()[0] != boolean()[0]);
}

proof fn lemma_record_reads_back(record: Record, rest: Seq<u8>)
    requires
        readable(record),
    ensures
        read_record(record_bytes(record) + rest) == Some(
            (record, record_bytes(record).len() as int),
        ),
{
    let name = bytes::utf16be(record.name);
    let units = (name.len() / 2) as u32;
    let input = record_bytes(record) + rest;
    let name_end = 4 + name.len() as int;
    bytes::law_be32_reads_back(units);
    bytes::law_utf16be_reads_back(record.name);
    bytes::law_be32_reads_back(record.data.len() as u32);
    lemma_codes_differ();
    assert(input.subrange(0, 4) =~= bytes::be32(units));
    assert(4 + 2 * number_at(input, 0) == name_end);
    assert(input.subrange(4, name_end) =~= name);
    assert(input.subrange(name_end, name_end + 4) =~= record.type_code);
    assert(input.subrange(name_end + 4, name_end + 8) =~= record.sub_type);
    let at = name_end + 8;
    if record.sub_type == blob() {
        assert(input.subrange(at, at + 4) =~= bytes::be32(record.data.len() as u32));
        assert(input.subrange(at + 4, at + 4 + record.data.len()) =~= record.data);
    } else {
        assert(input.subrange(at, at + record.data.len()) =~= record.data);
    }
}

proof fn lemma_records_read_back(records: Seq<Record>, rest: Seq<u8>)
    requires
        forall|i: int| 0 <= i < records.len() ==> readable(#[trigger] records[i]),
    ensures
        read_records(records_bytes(records) + rest, records.len()) == Some(records),
    decreases records.len(),
{
    if records.len() == 0 {
        assert(records =~= Seq::empty());
    } else {
        let others = records.skip(1);
        let input = records_bytes(records) + rest;
        let tail = records_bytes(others) + rest;
        assert forall|i: int| 0 <= i < others.len() implies readable(#[trigger] others[i]) by {
            assert(others[i] == records[i + 1]);
        }
        lemma_record_reads_back(records[0], tail);
        assert(input =~= record_bytes(records[0]) + tail);
        assert(input.skip(record_bytes(records[0]).len() as int) =~= tail);
        lemma_records_read_back(others, rest);
        assert(records =~= seq![records[0]] + others);
    }
}

/// Where the parts of a file come to lie.
proof fn lemma_parts(records: Seq<Record>)
    requires
        leaf(records).len() <= LEAF_LIMIT,
    ensures
        bud1_file(records).len() == file_size(leaf(records).len()),
        bud1_file(records).subrange(0, 20) == prelude(info_address(leaf(records).len())),
        bud1_file(records).subrange(68, 88) == root(records.len()),
        bud1_file(records).subrange(LEAF_START as int, LEAF_START + leaf(records).len()) == leaf(
            records,
        ),
        bud1_file(records).subrange(
            info_start(leaf(records).len()),
            info_start(leaf(records).len()) + 1181,
        ) == info(leaf(records).len()),
        prelude(info_address(leaf(records).len())).len() == 20,
        root(records.len()).len() == 20,
        info(leaf(records).len()).len() == 1181,
{
    let file = bud1_file(records);
    let leaf_size = leaf(records).len();
    let start = info_start(leaf_size);
    reveal(bud1_file);
    lemma_info_address(leaf_size);
    assert(file.subrange(0, 20) =~= prelude(info_address(leaf_size)));
    assert(file.subrange(68, 88) =~= root(records.len()));
    assert(file.subrange(LEAF_START as int, LEAF_START + leaf_size) =~= leaf(records));
    assert(file.subrange(start, start + 1181) =~= info(leaf_size));
}

/// The info block lies behind the content of the leaf and, where it was moved,
/// behind the whole block of the leaf.
proof fn lemma_info_address(leaf_size: nat)
    requires
        leaf_size <= LEAF_LIMIT,
    ensures
        LEAF_START + leaf_size <= info_start(leaf_size),
        0x1000 <= info_address(leaf_size) <= 0x1_1000,
        leaf_size > SHORT_LEAF ==> 0x80 + vstd::arithmetic::power2::pow2(
            size_shift(leaf_size + 4),
        ) <= info_address(leaf_size),
{
    lemma2_to64();
    lemma_shift_exists(leaf_size + 4);
    let shift = size_shift(leaf_size + 4);
    if shift < 16 {
        lemma_pow2_strictly_increases(shift, 16);
    }
}

proof fn lemma_shift_exists(size: nat)
    requires
        size <= 0x1_0000,
    ensures
        is_size_shift(size_shift(size), size),
        size_shift(size) <= 16,
        size <= 4096 ==> size_shift(size) <= 12,
{
    lemma2_to64();
    let shift: nat = if size <= 32 {
        5
    } else if size <= 64 {
        6
    } else if size <= 128 {
        7
    } else if size <= 256 {
        8
    } else if size <= 512 {
        9
    } else if size <= 1024 {
        10
    } else if size <= 2048 {
        11
    } else if size <= 4096 {
        12
    } else if size <= 8192 {
        13
    } else if size <= 16384 {
        14
    } else if size <= 32768 {
        15
    } else {
        16
    };
    assert(is_size_shift(shift, size));
    lemma_size_shift(shift, size);
}

/// The numbers in the info block.
proof fn lemma_info_numbers(leaf_size: nat)
    requires
        leaf_size <= LEAF_LIMIT,
    ensures
        number_at(info(leaf_size), 0) == 3,
        number_at(info(leaf_size), 8) == 0x05,
        number_at(info(leaf_size), 12) == 0x45,
        number_at(info(leaf_size), 16) == 0x80 + size_shift(leaf_size + 4),
        number_at(info(leaf_size), 1032) == 1,
        info(leaf_size)[1036] == 4,
        info(leaf_size).subrange(1037, 1041) == code('D', 'S', 'D', 'B'),
        number_at(info(leaf_size), 1041) == 1,
        size_shift(leaf_size + 4) <= 16,
{
    lemma_shift_exists(leaf_size + 4);
    let block = info(leaf_size);
    let leaf_entry = (0x80 + size_shift(leaf_size + 4)) as u32;
    bytes::law_be32_reads_back(3);
    bytes::law_be32_reads_back(0x05);
    bytes::law_be32_reads_back(0x45);
    bytes::law_be32_reads_back(leaf_entry);
    bytes::law_be32_reads_back(1);
    assert(block.subrange(0, 4) =~= bytes::be32(3));
    assert(block.subrange(8, 12) =~= bytes::be32(0x05));
    assert(block.subrange(12, 16) =~= bytes::be32(0x45));
    assert(block.subrange(16, 20) =~= bytes::be32(leaf_entry));
    assert(block.subrange(1032, 1036) =~= bytes::be32(1));
    assert(block.subrange(1037, 1041) =~= code('D', 'S', 'D', 'B'));
    assert(block.subrange(1041, 1045) =~= bytes::be32(1));
}

/// A number in a part of the file is a number in the file.
proof fn lemma_number_in_part(file: Seq<u8>, start: int, end: int, part: Seq<u8>, at: int)
    requires
        0 <= start <= end <= file.len(),
        file.subrange(start, end) == part,
        0 <= at,
        at + 4 <= part.len(),
    ensures
        number_at(file, start + at) == number_at(part, at),
{
    assert(file.subrange(start + at, start + at + 4) =~= part.subrange(at, at + 4));
}

/// What the prelude of a file says.
proof fn lemma_prelude_numbers(records: Seq<Record>)
    requires
        leaf(records).len() <= LEAF_LIMIT,
    ensures
        number_at(bud1_file(records), 0) == 1,
        bud1_file(records).subrange(4, 8) == code('B', 'u', 'd', '1'),
        number_at(bud1_file(records), 8) == info_address(leaf(records).len()),
        number_at(bud1_file(records), 12) == INFO_SIZE,
        number_at(bud1_file(records), 16) == info_address(leaf(records).len()),
{
    let file = bud1_file(records);
    let address = info_address(leaf(records).len());
    let start = prelude(address);
    lemma_info_address(leaf(records).len());
    lemma_parts(records);
    bytes::law_be32_reads_back(1);
    bytes::law_be32_reads_back(address as u32);
    bytes::law_be32_reads_back(INFO_SIZE as u32);
    assert(start.subrange(0, 4) =~= bytes::be32(1));
    assert(start.subrange(4, 8) =~= code('B', 'u', 'd', '1'));
    assert(start.subrange(8, 12) =~= bytes::be32(address as u32));
    assert(start.subrange(12, 16) =~= bytes::be32(INFO_SIZE as u32));
    assert(start.subrange(16, 20) =~= bytes::be32(address as u32));
    lemma_number_in_part(file, 0, 20, start, 0);
    lemma_number_in_part(file, 0, 20, start, 8);
    lemma_number_in_part(file, 0, 20, start, 12);
    lemma_number_in_part(file, 0, 20, start, 16);
    assert(file.subrange(4, 8) =~= start.subrange(4, 8));
}

/// What the info block of a file says.
proof fn lemma_addresses(records: Seq<Record>)
    requires
        leaf(records).len() <= LEAF_LIMIT,
    ensures
        address_entry(bud1_file(records), 0) == 0x05,
        address_entry(bud1_file(records), 1) == 0x45,
        address_entry(bud1_file(records), 2) == 0x80 + size_shift(leaf(records).len() + 4),
        size_shift(leaf(records).len() + 4) <= 16,
        number_at(bud1_file(records), info_start(leaf(records).len()) + 1032) == 1,
        bud1_file(records)[info_start(leaf(records).len()) + 1036] == 4,
        bud1_file(records).subrange(
            info_start(leaf(records).len()) + 1037,
            info_start(leaf(records).len()) + 1041,
        ) == code('D', 'S', 'D', 'B'),
        number_at(bud1_file(records), info_start(leaf(records).len()) + 1041) == 1,
{
    let file = bud1_file(records);
    let block = info(leaf(records).len());
    let start = info_start(leaf(records).len());
    lemma_parts(records);
    lemma_prelude_numbers(records);
    lemma_info_address(leaf(records).len());
    lemma_info_numbers(leaf(records).len());
    lemma_number_in_part(file, start, start + 1181, block, 8);
    lemma_number_in_part(file, start, start + 1181, block, 12);
    lemma_number_in_part(file, start, start + 1181, block, 16);
    lemma_number_in_part(file, start, start + 1181, block, 1032);
    lemma_number_in_part(file, start, start + 1181, block, 1041);
    assert(file.subrange(start, start + 1181)[1036] == block[1036]);
    assert(file.subrange(start + 1037, start + 1041) =~= block.subrange(1037, 1041));
}

/// What the root and the leaf of a file say.
proof fn lemma_tree(records: Seq<Record>)
    requires
        leaf(records).len() <= LEAF_LIMIT,
    ensures
        number_at(bud1_file(records), 68) == 2,
        number_at(bud1_file(records), LEAF_START as int) == 0,
        number_at(bud1_file(records), LEAF_START + 4) == records.len(),
        bud1_file(records).skip(LEAF_START + 8) == records_bytes(records) + bud1_file(records).skip(
            LEAF_START + leaf(records).len(),
        ),
{
    let file = bud1_file(records);
    let content = leaf(records);
    lemma_info_address(content.len());
    lemma_parts(records);
    lemma_count_bounded(records);
    bytes::law_be32_reads_back(0);
    bytes::law_be32_reads_back(2);
    bytes::law_be32_reads_back(records.len() as u32);
    assert(root(records.len()).subrange(0, 4) =~= bytes::be32(2));
    lemma_number_in_part(file, 68, 88, root(records.len()), 0);
    assert(content.subrange(0, 4) =~= bytes::be32(0));
    assert(content.subrange(4, 8) =~= bytes::be32(records.len() as u32));
    lemma_number_in_part(file, LEAF_START as int, LEAF_START + content.len(), content, 0);
    lemma_number_in_part(file, LEAF_START as int, LEAF_START + content.len(), content, 4);
    let tail = file.skip(LEAF_START + content.len());
    let whole = file.subrange(LEAF_START as int, LEAF_START + content.len());
    assert(content.skip(8) =~= records_bytes(records));
    assert(file.skip(LEAF_START + 8) =~= whole.skip(8) + tail);
}

/// Following the pointers of a file that says these things leads to its leaf.
proof fn lemma_leaf_found(
    file: Seq<u8>,
    address: int,
    records: Seq<Record>,
    rest: Seq<u8>,
    shift: nat,
)
    requires
        number_at(file, 0) == 1,
        file.subrange(4, 8) == code('B', 'u', 'd', '1'),
        number_at(file, 8) == address,
        number_at(file, 16) == address,
        address_entry(file, 1) == 0x45,
        address_entry(file, 2) == 0x80 + shift,
        shift <= 16,
        number_at(file, address + 1036) == 1,
        file[address + 1040] == 4,
        file.subrange(address + 1041, address + 1045) == code('D', 'S', 'D', 'B'),
        number_at(file, address + 1045) == 1,
        number_at(file, 68) == 2,
        number_at(file, 132) == 0,
        number_at(file, 136) == records.len(),
        file.skip(140) == records_bytes(records) + rest,
        read_records(records_bytes(records) + rest, records.len()) == Some(records),
    ensures
        stored_records(file) == Some(records),
{
    assert(content_start(address_entry(file, 1)) == 68);
    assert(content_start(address_entry(file, 2)) == 132);
}

/// Reading a file gives back the records it was made from.
#[verifier::rlimit(40)]
pub proof fn law_records_read_back(records: Seq<Record>)
    requires
        forall|i: int| 0 <= i < records.len() ==> readable(#[trigger] records[i]),
        leaf(records).len() <= LEAF_LIMIT,
    ensures
        stored_records(bud1_file(records)) == Some(records),
{
    let rest = bud1_file(records).skip(LEAF_START + leaf(records).len());
    lemma_prelude_numbers(records);
    lemma_addresses(records);
    lemma_tree(records);
    lemma_records_read_back(records, rest);
    lemma_leaf_found(
        bud1_file(records),
        info_address(leaf(records).len()),
        records,
        rest,
        size_shift(leaf(records).len() + 4),
    );
}

/// There are no more records than bytes in the leaf.
proof fn lemma_count_bounded(records: Seq<Record>)
    ensures
        records.len() <= records_bytes(records).len(),
    decreases records.len(),
{
    if records.len() > 0 {
        lemma_count_bounded(records.skip(1));
    }
}

/// Whether a block lies within the file.
pub open spec fn block_within(file: Seq<u8>, block: int) -> bool {
    content_start(address_entry(file, block)) + block_size(address_entry(file, block))
        <= file.len()
}

proof fn lemma_blocks_within(file: Seq<u8>, shift: nat)
    requires
        address_entry(file, 0) == 0x05,
        address_entry(file, 1) == 0x45,
        address_entry(file, 2) == 0x80 + shift,
        shift <= 16,
        100 <= file.len(),
        132 + vstd::arithmetic::power2::pow2(shift) <= file.len(),
    ensures
        forall|block: int| 0 <= block < 3 ==> block_within(file, block),
{
    lemma2_to64();
    assert(block_within(file, 0));
    assert(block_within(file, 1));
    assert(block_within(file, 2));
    assert forall|b: int| 0 <= b < 3 implies block_within(file, b) by {
        assert(b == 0 || b == 1 || b == 2);
    }
}

/// The block of a leaf ends before the info block does.
proof fn lemma_leaf_block_ends(leaf_size: nat)
    requires
        leaf_size <= LEAF_LIMIT,
    ensures
        132 + vstd::arithmetic::power2::pow2(size_shift(leaf_size + 4)) <= file_size(leaf_size),
        6148 <= file_size(leaf_size),
{
    let shift = size_shift(leaf_size + 4);
    lemma_info_address(leaf_size);
    lemma_shift_exists(leaf_size + 4);
    lemma2_to64();
    if leaf_size <= SHORT_LEAF && shift < 12 {
        lemma_pow2_strictly_increases(shift, 12);
    }
}

/// Every block of a file lies within it, and the info block ends it.
#[verifier::rlimit(40)]
pub proof fn law_blocks_lie_within_the_file(records: Seq<Record>)
    requires
        leaf(records).len() <= LEAF_LIMIT,
    ensures
        forall|block: int| 0 <= block < 3 ==> block_within(bud1_file(records), block),
        number_at(bud1_file(records), 8) + 4 + number_at(bud1_file(records), 12) == bud1_file(
            records,
        ).len(),
{
    lemma_parts(records);
    lemma_prelude_numbers(records);
    lemma_addresses(records);
    lemma_leaf_block_ends(leaf(records).len());
    lemma_blocks_within(bud1_file(records), size_shift(leaf(records).len() + 4));
}

/// The leaf ends before the info block starts; a leaf that cannot end before
/// 0x1004 has its whole block before the info block.
#[verifier::rlimit(40)]
pub proof fn law_leaf_stays_clear_of_info(records: Seq<Record>)
    requires
        leaf(records).len() <= LEAF_LIMIT,
    ensures
        content_start(address_entry(bud1_file(records), 2)) + leaf(records).len() <= number_at(
            bud1_file(records),
            8,
        ) + 4,
        leaf(records).len() > SHORT_LEAF ==> content_start(address_entry(bud1_file(records), 2))
            + block_size(address_entry(bud1_file(records), 2)) <= number_at(bud1_file(records), 8),
{
    lemma_prelude_numbers(records);
    lemma_addresses(records);
    lemma_info_address(leaf(records).len());
}

/// The block of the leaf is large enough for the leaf and the four bytes before
/// its content.
pub proof fn law_leaf_fits_its_block(records: Seq<Record>)
    requires
        leaf(records).len() <= LEAF_LIMIT,
    ensures
        leaf(records).len() + 4 <= block_size(address_entry(bud1_file(records), 2)),
{
    lemma_addresses(records);
    lemma_shift_exists(leaf(records).len() + 4);
}

/// A record is no longer than all of them.
pub proof fn lemma_record_within(records: Seq<Record>, i: int)
    requires
        0 <= i < records.len(),
    ensures
        record_bytes(records[i]).len() <= records_bytes(records).len(),
    decreases records.len(),
{
    if i > 0 {
        lemma_record_within(records.skip(1), i - 1);
        assert(records.skip(1)[i - 1] == records[i]);
    }
}

/// The root of the tree has the number of all records, no level below it, one
/// node and a page size of 4096 bytes.
#[verifier::rlimit(40)]
pub proof fn law_root_counts_the_records(records: Seq<Record>)
    requires
        leaf(records).len() <= LEAF_LIMIT,
    ensures
        ({
            let file = bud1_file(records);
            let root_at = content_start(address_entry(file, 1));
            &&& number_at(file, root_at) == 2
            &&& number_at(file, root_at + 4) == 0
            &&& number_at(file, root_at + 8) == records.len()
            &&& number_at(file, root_at + 12) == 1
            &&& number_at(file, root_at + 16) == 4096
        }),
{
    let file = bud1_file(records);
    let part = root(records.len());
    let count = records.len() as u32;
    lemma_parts(records);
    lemma_addresses(records);
    lemma_count_bounded(records);
    lemma_info_address(leaf(records).len());
    bytes::law_be32_reads_back(2);
    bytes::law_be32_reads_back(0);
    bytes::law_be32_reads_back(count);
    bytes::law_be32_reads_back(1);
    bytes::law_be32_reads_back(0x1000);
    assert(part.subrange(0, 4) =~= bytes::be32(2));
    assert(part.subrange(4, 8) =~= bytes::be32(0));
    assert(part.subrange(8, 12) =~= bytes::be32(count));
    assert(part.subrange(12, 16) =~= bytes::be32(1));
    assert(part.subrange(16, 20) =~= bytes::be32(0x1000));
    lemma_number_in_part(file, 68, 88, part, 0);
    lemma_number_in_part(file, 68, 88, part, 4);
    lemma_number_in_part(file, 68, 88, part, 8);
    lemma_number_in_part(file, 68, 88, part, 12);
    lemma_number_in_part(file, 68, 88, part, 16);
    assert(content_start(address_entry(file, 1)) == 68);
}

/// The numbers of the info block that no reader of records looks at: there are
/// three blocks, and two free ones of 32 bytes, at 0x20 and 0x60, which lie
/// beside the blocks of the file.
#[verifier::rlimit(40)]
pub proof fn law_free_blocks_are_listed(records: Seq<Record>)
    requires
        leaf(records).len() <= LEAF_LIMIT,
    ensures
        ({
            let file = bud1_file(records);
            let info_at = number_at(file, 8) + 4;
            let free = info_at + 8 + 4 * 256 + 4 + 1 + 4 + 4;
            &&& number_at(file, info_at) == 3
            &&& file.subrange(info_at + 20, info_at + 1032) == bytes::zeros(1012)
            &&& file.subrange(free, free + 20) == bytes::zeros(20)
            &&& number_at(file, free + 20) == 2
            &&& number_at(file, free + 24) == 0x20
            &&& number_at(file, free + 28) == 0x60
            &&& file.subrange(free + 32, free + 136) == bytes::zeros(104)
        }),
{
    let file = bud1_file(records);
    let block = info(leaf(records).len());
    let start = info_start(leaf(records).len());
    lemma_parts(records);
    lemma_prelude_numbers(records);
    lemma_info_address(leaf(records).len());
    lemma_info_numbers(leaf(records).len());
    bytes::law_be32_reads_back(2);
    bytes::law_be32_reads_back(0x20);
    bytes::law_be32_reads_back(0x60);
    assert(block.subrange(1065, 1069) =~= bytes::be32(2));
    assert(block.subrange(1069, 1073) =~= bytes::be32(0x20));
    assert(block.subrange(1073, 1077) =~= bytes::be32(0x60));
    assert(block.subrange(20, 1032) =~= bytes::zeros(1012));
    assert(block.subrange(1045, 1065) =~= bytes::zeros(20));
    assert(block.subrange(1077, 1181) =~= bytes::zeros(104));
    lemma_number_in_part(file, start, start + 1181, block, 0);
    lemma_number_in_part(file, start, start + 1181, block, 1065);
    lemma_number_in_part(file, start, start + 1181, block, 1069);
    lemma_number_in_part(file, start, start + 1181, block, 1073);
    assert(file.subrange(start + 20, start + 1032) =~= block.subrange(20, 1032));
    assert(file.subrange(start + 1045, start + 1065) =~= block.subrange(1045, 1065));
    assert(file.subrange(start + 1077, start + 1181) =~= block.subrange(1077, 1181));
}

/// The leaf's block is no larger than it has to be: one of half its size would
/// not hold the leaf, unless it has the smallest size there is.
pub proof fn law_leaf_block_is_the_smallest(records: Seq<Record>)
    requires
        leaf(records).len() <= LEAF_LIMIT,
    ensures
        ({
            let size = block_size(address_entry(bud1_file(records), 2));
            size == 32 || size < 2 * (leaf(records).len() + 4)
        }),
{
    let shift = size_shift(leaf(records).len() + 4);
    lemma_addresses(records);
    lemma_shift_exists(leaf(records).len() + 4);
    lemma2_to64();
    if shift > 5 {
        lemma_pow2_unfold(shift);
    }
}

} // verus!
