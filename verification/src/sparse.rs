//! A block device in memory that keeps only what was written to it.
use crate::bytes;
use vstd::prelude::*;

verus! {

/// The error type of `std::io`.
#[verifier::external_type_specification]
#[verifier::external_body]
pub struct ExIoError(std::io::Error);

/// What kind of error a [`std::io::Error`] is.
#[verifier::external_type_specification]
pub struct ExIoErrorKind(std::io::ErrorKind);

/// Where to seek to.
#[verifier::external_type_specification]
pub struct ExSeekFrom(std::io::SeekFrom);

/// The error type of the `fstool` crate.
#[verifier::external_type_specification]
pub struct ExFstoolError(fstool::Error);

/// Logical sector size (bytes) — standard for GPT disk images.
pub const SECTOR_SIZE: u64 = 512;

/// A sparse in-memory block device backend that only retains written regions.
///
/// Bytes that were never written read as zero, and the device reports its full
/// size though it holds only the regions that were written.
pub struct SparseGptBackend {
    /// Total device capacity in bytes; used only for geometry, never allocated.
    total_size: u64,
    /// Written regions in the order in which they were written. Regions may
    /// overlap: reads merge them in order, later writes win.
    writes: Vec<(u64, Vec<u8>)>,
    /// The cursor of the stream traits.
    cursor: u64,
}

/// What a device of `size` bytes holds after `writes`.
spec fn merged(size: nat, writes: Seq<(u64, Vec<u8>)>) -> Seq<u8>
    decreases writes.len(),
{
    if writes.len() == 0 {
        bytes::zeros(size)
    } else {
        bytes::overwritten(
            merged(size, writes.drop_last()),
            writes.last().0 as int,
            writes.last().1@,
        )
    }
}

proof fn lemma_merged_len(size: nat, writes: Seq<(u64, Vec<u8>)>)
    ensures
        merged(size, writes).len() == size,
    decreases writes.len(),
{
    if writes.len() > 0 {
        lemma_merged_len(size, writes.drop_last());
    }
}

/// The contents of the device, byte by byte.
impl View for SparseGptBackend {
    type V = Seq<u8>;

    closed spec fn view(&self) -> Seq<u8> {
        merged(self.total_size as nat, self.writes@)
    }
}

/// The kind and the message of an error that `std::io::Error::new` made.
pub uninterp spec fn failure(error: std::io::Error) -> (std::io::ErrorKind, Seq<char>);

/// `std::io::Error::new` with a text: the error is of that kind and carries
/// that message.
#[verifier::external_body]
pub(crate) fn io_error(kind: std::io::ErrorKind, message: &str) -> (error: std::io::Error)
    ensures
        failure(error) == (kind, message@),
{
    std::io::Error::new(kind, message)
}

/// The error of a write behind the end of the device.
pub open spec fn is_past_end(error: std::io::Error) -> bool {
    failure(error) == (std::io::ErrorKind::WriteZero, "write past end of SparseGptBackend"@)
}

/// The error of a seek to a place before the start of the device.
pub open spec fn is_before_start(error: std::io::Error) -> bool {
    failure(error) == (std::io::ErrorKind::InvalidInput, "seek before start"@)
}

/// The error of a request for `len` bytes from `offset` on, made of a device
/// of `size` bytes.
pub open spec fn out_of_bounds(offset: u64, len: u64, size: u64) -> fstool::Error {
    fstool::Error::OutOfBounds { offset, len, size }
}

impl SparseGptBackend {
    /// The position of the stream cursor.
    pub closed spec fn position(&self) -> u64 {
        self.cursor
    }

    /// What lies between the cursor and the end.
    pub open spec fn ahead(&self) -> Seq<u8> {
        if self.position() < self@.len() {
            self@.skip(self.position() as int)
        } else {
            Seq::empty()
        }
    }

    /// How large the device is.
    pub closed spec fn capacity(&self) -> u64 {
        self.total_size
    }

    /// An empty device of `total_size` bytes.
    pub fn new(total_size: u64) -> (r: Self)
        ensures
            r@ == bytes::zeros(total_size as nat),
            r.capacity() == total_size,
            r.position() == 0,
    {
        SparseGptBackend { total_size, writes: Vec::new(), cursor: 0 }
    }

    /// The capacity of the device in bytes.
    pub fn size(&self) -> (r: u64)
        ensures
            r == self.capacity(),
            r == self@.len(),
    {
        proof {
            lemma_merged_len(self.total_size as nat, self.writes@);
        }
        self.total_size
    }

    /// The `len` bytes from `offset` on, or nothing where they reach past the
    /// end of the device.
    pub fn read_range(&self, offset: u64, len: usize) -> (r: Option<Vec<u8>>)
        ensures
            match r {
                Some(out) => offset + len <= self@.len() && out@ == self@.subrange(
                    offset as int,
                    offset + len,
                ),
                None => offset + len > self@.len(),
            },
    {
        proof {
            lemma_merged_len(self.total_size as nat, self.writes@);
        }
        let end: u128 = offset as u128 + len as u128;
        if end > self.total_size as u128 {
            return None;
        }
        let mut out: Vec<u8> = Vec::new();
        bytes::push_zeros(&mut out, len);
        let ghost size = self.total_size as nat;
        assert(self.writes@.take(0) =~= Seq::empty());
        assert(out@ =~= merged(size, self.writes@.take(0)).subrange(offset as int, offset + len));
        let mut k: usize = 0;
        while k < self.writes.len()
            invariant
                k <= self.writes@.len(),
                size == self.total_size,
                end == offset + len,
                end <= size,
                out@.len() == len,
                out@ == merged(size, self.writes@.take(k as int)).subrange(
                    offset as int,
                    offset + len,
                ),
            decreases self.writes@.len() - k,
        {
            let ghost before = merged(size, self.writes@.take(k as int));
            let ghost after = merged(size, self.writes@.take(k + 1));
            proof {
                lemma_merged_len(size, self.writes@.take(k as int));
                assert(self.writes@.take(k + 1).drop_last() =~= self.writes@.take(k as int));
            }
            let start: u128 = self.writes[k].0 as u128;
            let region: &Vec<u8> = &self.writes[k].1;
            let region_len: usize = region.len();
            let region_end: u128 = start + region_len as u128;
            let from: u128 = if start > offset as u128 {
                start
            } else {
                offset as u128
            };
            let to: u128 = if region_end < end {
                region_end
            } else {
                end
            };
            let mut at: u128 = from;
            while at < to
                invariant
                    from <= at,
                    at <= to || at == from,
                    offset <= from,
                    start <= from,
                    to <= end,
                    to <= region_end,
                    region@.len() == region_len,
                    region_end == start + region_len,
                    end == offset + len,
                    out@.len() == len,
                    before.len() == size,
                    end <= size,
                    forall|i: int|
                        0 <= i < len ==> #[trigger] out@[i] == (if from <= offset + i < at {
                            region@[offset + i - start]
                        } else {
                            before[offset + i]
                        }),
                decreases to - at,
            {
                out.set((at - offset as u128) as usize, region[(at - start) as usize]);
                at = at + 1;
            }
            assert(after == bytes::overwritten(before, start as int, region@));
            assert(out@ =~= after.subrange(offset as int, offset + len));
            k += 1;
        }
        assert(self.writes@.take(k as int) =~= self.writes@);
        Some(out)
    }

    /// Writes `data` from `offset` on, unless it reaches past the end of the
    /// device. Says whether it was written.
    pub fn write_range(&mut self, offset: u64, data: &[u8]) -> (r: bool)
        ensures
            r == (offset + data@.len() <= old(self)@.len()),
            final(self)@ == (if r {
                bytes::overwritten(old(self)@, offset as int, data@)
            } else {
                old(self)@
            }),
            final(self).capacity() == old(self).capacity(),
            final(self).position() == old(self).position(),
    {
        proof {
            lemma_merged_len(self.total_size as nat, self.writes@);
        }
        let end: u128 = offset as u128 + data.len() as u128;
        if end > self.total_size as u128 {
            return false;
        }
        if data.len() == 0 {
            assert(bytes::overwritten(self@, offset as int, data@) =~= self@);
            return true;
        }
        let region = bytes::copy_of(data);
        self.writes.push((offset, region));
        assert(self.writes@.drop_last() =~= old(self).writes@);
        true
    }

    /// Fills as much of `out` as the device has from the cursor on, and moves
    /// the cursor behind it. Says how much that was.
    pub fn read_next(&mut self, out: &mut [u8]) -> (n: usize)
        ensures
            n == (if old(self).ahead().len() < old(out)@.len() {
                old(self).ahead().len()
            } else {
                old(out)@.len()
            }),
            final(out)@ == bytes::overwritten(old(out)@, 0, old(self).ahead().take(n as int)),
            final(self)@ == old(self)@,
            final(self).capacity() == old(self).capacity(),
            final(self).position() == old(self).position() + n,
    {
        let size: u64 = self.size();
        let wanted: usize = out.len();
        if self.cursor >= size {
            assert(out@ =~= bytes::overwritten(old(out)@, 0, self.ahead().take(0)));
            return 0;
        }
        let remaining: u64 = size - self.cursor;
        let n: usize = if remaining < wanted as u64 {
            remaining as usize
        } else {
            wanted
        };
        assert(self@.subrange(self.cursor as int, self.cursor + n) =~= self.ahead().take(n as int));
        match self.read_range(self.cursor, n) {
            Some(found) => {
                let mut i: usize = 0;
                while i < n
                    invariant
                        i <= n,
                        n <= wanted,
                        found@.len() == n,
                        out@.len() == wanted,
                        old(out)@.len() == wanted,
                        forall|k: int|
                            0 <= k < wanted ==> #[trigger] out@[k] == (if k < i {
                                found@[k]
                            } else {
                                old(out)@[k]
                            }),
                    decreases n - i,
                {
                    out[i] = found[i];
                    i += 1;
                }
                assert(out@ =~= bytes::overwritten(old(out)@, 0, found@));
            },
            None => {},
        }
        self.cursor = self.cursor + n as u64;
        n
    }

    /// Writes as much of `data` as the device has room for from the cursor on,
    /// and moves the cursor behind it. Says how much that was, or nothing
    /// where the cursor is past the end.
    pub fn write_next(&mut self, data: &[u8]) -> (r: Option<usize>)
        ensures
            match r {
                None => {
                    &&& old(self).position() >= old(self)@.len()
                    &&& final(self)@ == old(self)@
                    &&& final(self).position() == old(self).position()
                },
                Some(n) => {
                    &&& old(self).position() < old(self)@.len()
                    &&& n == (if old(self).ahead().len() < data@.len() {
                        old(self).ahead().len()
                    } else {
                        data@.len()
                    })
                    &&& final(self)@ == bytes::overwritten(
                        old(self)@,
                        old(self).position() as int,
                        data@.take(n as int),
                    )
                    &&& final(self).position() == old(self).position() + n
                },
            },
            final(self).capacity() == old(self).capacity(),
    {
        let size: u64 = self.size();
        if self.cursor >= size {
            return None;
        }
        let remaining: u64 = size - self.cursor;
        let n: usize = if remaining < data.len() as u64 {
            remaining as usize
        } else {
            data.len()
        };
        let part = vstd::slice::slice_subrange(data, 0, n);
        assert(part@ =~= data@.take(n as int));
        let at: u64 = self.cursor;
        let _written: bool = self.write_range(at, part);
        self.cursor = at + n as u64;
        assert(self@ == bytes::overwritten(old(self)@, at as int, data@.take(n as int)));
        Some(n)
    }

    /// Moves the cursor, unless that would put it before the start of the
    /// device. Positions past `u64::MAX` wrap.
    pub fn move_to(&mut self, pos: std::io::SeekFrom) -> (r: Option<u64>)
        ensures
            ({
                let target = seek_target(pos, old(self)@.len() as int, old(self).position() as int);
                match r {
                    Some(n) => target >= 0 && n == target % 0x1_0000_0000_0000_0000
                        && final(self).position() == n,
                    None => target < 0 && final(self).position() == old(self).position(),
                }
            }),
            final(self)@ == old(self)@,
            final(self).capacity() == old(self).capacity(),
    {
        let size: u64 = self.size();
        let new: i128 = match pos {
            std::io::SeekFrom::Start(n) => n as i128,
            std::io::SeekFrom::End(d) => size as i128 + d as i128,
            std::io::SeekFrom::Current(d) => self.cursor as i128 + d as i128,
        };
        if new < 0 {
            return None;
        }
        let wrapped: u128 = new as u128 % 0x1_0000_0000_0000_0000;
        self.cursor = wrapped as u64;
        Some(self.cursor)
    }
}

/// The position that a seek asks for.
pub open spec fn seek_target(pos: std::io::SeekFrom, size: int, position: int) -> int {
    match pos {
        std::io::SeekFrom::Start(n) => n as int,
        std::io::SeekFrom::End(d) => size + d,
        std::io::SeekFrom::Current(d) => position + d,
    }
}

impl std::io::Read for SparseGptBackend {
    fn read(&mut self, out: &mut [u8]) -> (r: std::io::Result<usize>)
        ensures
            r is Ok,
            r->Ok_0 == (if old(self).ahead().len() < old(out)@.len() {
                old(self).ahead().len()
            } else {
                old(out)@.len()
            }),
            final(out)@ == bytes::overwritten(
                old(out)@,
                0,
                old(self).ahead().take(r->Ok_0 as int),
            ),
            final(self)@ == old(self)@,
            final(self).position() == old(self).position() + r->Ok_0,
    {
        Ok(self.read_next(out))
    }
}

impl std::io::Write for SparseGptBackend {
    fn write(&mut self, data: &[u8]) -> (r: std::io::Result<usize>)
        ensures
            r is Ok <==> old(self).position() < old(self)@.len(),
            r is Err ==> is_past_end(r->Err_0),
            r is Err ==> final(self)@ == old(self)@,
            r is Err ==> final(self).position() == old(self).position(),
            r is Ok ==> r->Ok_0 == (if old(self).ahead().len() < data@.len() {
                old(self).ahead().len()
            } else {
                data@.len()
            }),
            r is Ok ==> final(self).position() == old(self).position() + r->Ok_0,
            r is Ok ==> final(self)@ == bytes::overwritten(
                old(self)@,
                old(self).position() as int,
                data@.take(r->Ok_0 as int),
            ),
    {
        match self.write_next(data) {
            Some(n) => Ok(n),
            None => Err(
                io_error(std::io::ErrorKind::WriteZero, "write past end of SparseGptBackend"),
            ),
        }
    }

    fn flush(&mut self) -> (r: std::io::Result<()>)
        ensures
            r is Ok,
            *final(self) == *old(self),
    {
        Ok(())
    }
}

impl std::io::Seek for SparseGptBackend {
    fn seek(&mut self, pos: std::io::SeekFrom) -> (r: std::io::Result<u64>)
        ensures
            r is Ok <==> seek_target(pos, old(self)@.len() as int, old(self).position() as int) >= 0,
            r is Ok ==> r->Ok_0 == seek_target(
                pos,
                old(self)@.len() as int,
                old(self).position() as int,
            ) % 0x1_0000_0000_0000_0000,
            r is Ok ==> final(self).position() == r->Ok_0,
            r is Err ==> is_before_start(r->Err_0),
            r is Err ==> final(self).position() == old(self).position(),
            final(self)@ == old(self)@,
    {
        match self.move_to(pos) {
            Some(n) => Ok(n),
            None => Err(io_error(std::io::ErrorKind::InvalidInput, "seek before start")),
        }
    }
}

impl fstool::block::BlockDevice for SparseGptBackend {
    fn block_size(&self) -> (r: u32)
        ensures
            r == SECTOR_SIZE,
    {
        512
    }

    fn total_size(&self) -> (r: u64)
        ensures
            r == self@.len(),
    {
        self.size()
    }

    fn sync(&mut self) -> (r: fstool::Result<()>)
        ensures
            r is Ok,
            *final(self) == *old(self),
    {
        Ok(())
    }

    fn read_at(&mut self, offset: u64, buf: &mut [u8]) -> (r: fstool::Result<()>)
        ensures
            r is Ok <==> offset + old(buf)@.len() <= old(self)@.len(),
            r is Ok ==> final(buf)@ == old(self)@.subrange(
                offset as int,
                offset + old(buf)@.len(),
            ),
            r is Err ==> r->Err_0 == out_of_bounds(
                offset,
                old(buf)@.len() as u64,
                old(self)@.len() as u64,
            ),
            r is Err ==> final(buf)@ == old(buf)@,
            *final(self) == *old(self),
    {
        let len: usize = buf.len();
        match self.read_range(offset, len) {
            Some(found) => {
                let mut i: usize = 0;
                while i < len
                    invariant
                        i <= len,
                        found@.len() == len,
                        buf@.len() == len,
                        forall|k: int| 0 <= k < i ==> #[trigger] buf@[k] == found@[k],
                    decreases len - i,
                {
                    buf[i] = found[i];
                    i += 1;
                }
                assert(buf@ =~= found@);
                Ok(())
            },
            None => Err(fstool::Error::OutOfBounds { offset, len: len as u64, size: self.size() }),
        }
    }

    fn write_at(&mut self, offset: u64, buf: &[u8]) -> (r: fstool::Result<()>)
        ensures
            r is Ok <==> offset + buf@.len() <= old(self)@.len(),
            final(self)@ == (if r is Ok {
                bytes::overwritten(old(self)@, offset as int, buf@)
            } else {
                old(self)@
            }),
            r is Err ==> r->Err_0 == out_of_bounds(
                offset,
                buf@.len() as u64,
                old(self)@.len() as u64,
            ),
            final(self).capacity() == old(self).capacity(),
            final(self).position() == old(self).position(),
    {
        if self.write_range(offset, buf) {
            Ok(())
        } else {
            Err(
                fstool::Error::OutOfBounds { offset, len: buf.len() as u64, size: self.size() },
            )
        }
    }
}

/// What was written is what is read, whatever was there before.
pub proof fn law_read_after_write(before: Seq<u8>, offset: int, data: Seq<u8>)
    requires
        0 <= offset,
        offset + data.len() <= before.len(),
    ensures
        bytes::overwritten(before, offset, data).subrange(offset, offset + data.len()) == data,
{
    assert(bytes::overwritten(before, offset, data).subrange(offset, offset + data.len()) =~= data);
}

/// A write changes nothing outside the range that it writes.
pub proof fn law_write_leaves_the_rest(
    before: Seq<u8>,
    offset: int,
    data: Seq<u8>,
    from: int,
    to: int,
)
    requires
        0 <= from <= to <= before.len(),
        0 <= offset,
        offset + data.len() <= before.len(),
        to <= offset || offset + data.len() <= from,
    ensures
        bytes::overwritten(before, offset, data).subrange(from, to) == before.subrange(from, to),
{
    assert(bytes::overwritten(before, offset, data).subrange(from, to) =~= before.subrange(
        from,
        to,
    ));
}

/// After two writes, wherever they go and however long they are, a byte that
/// the later one wrote reads as that one wrote it, and every other byte as the
/// earlier one left it.
pub proof fn law_later_write_wins(
    before: Seq<u8>,
    first_at: int,
    first: Seq<u8>,
    second_at: int,
    second: Seq<u8>,
)
    requires
        0 <= first_at,
        first_at + first.len() <= before.len(),
        0 <= second_at,
        second_at + second.len() <= before.len(),
    ensures
        ({
            let earlier = bytes::overwritten(before, first_at, first);
            let later = bytes::overwritten(earlier, second_at, second);
            &&& later.len() == before.len()
            &&& later.subrange(second_at, second_at + second.len()) == second
            &&& later.subrange(0, second_at) == earlier.subrange(0, second_at)
            &&& later.skip(second_at + second.len()) == earlier.skip(second_at + second.len())
        }),
{
    let earlier = bytes::overwritten(before, first_at, first);
    let later = bytes::overwritten(earlier, second_at, second);
    assert(later.subrange(second_at, second_at + second.len()) =~= second);
    assert(later.subrange(0, second_at) =~= earlier.subrange(0, second_at));
    assert(later.skip(second_at + second.len()) =~= earlier.skip(second_at + second.len()));
}

/// Seeking from the start counts from zero, from the end backwards and forwards
/// from the size, and from the current position from there; so seeking by
/// nothing stays, and seeking twice goes as far as seeking by both distances.
pub proof fn law_seeking_counts_from_its_origin(size: int, position: int, n: u64, d: i64, e: i64)
    requires
        i64::MIN <= d + e <= i64::MAX,
    ensures
        seek_target(std::io::SeekFrom::Start(n), size, position) == n,
        seek_target(std::io::SeekFrom::End(0), size, position) == size,
        seek_target(std::io::SeekFrom::End(d), size, position) - size == d,
        seek_target(std::io::SeekFrom::Current(0), size, position) == position,
        seek_target(
            std::io::SeekFrom::Current(e),
            size,
            seek_target(std::io::SeekFrom::Current(d), size, position),
        ) == seek_target(std::io::SeekFrom::Current((d + e) as i64), size, position),
        seek_target(std::io::SeekFrom::Current(d), size, position) - position == d,
{
}

} // verus!
