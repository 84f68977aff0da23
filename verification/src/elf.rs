//! Image extraction: from the raw bytes of a 32-bit little-endian ELF
//! executable to the list of contiguous flash chunks it loads.
//!
//! A chunk is recorded for every loadable program-header entry that carries
//! file-backed bytes and covers at least one section's file range.  Chunks
//! are sorted by target address, checked disjoint, and neighbours that are
//! contiguous both on the device and in the file are fused.

use vstd::prelude::*;

use crate::ErrorKind;

verus! {

/// Program-header type of a loadable segment.
pub const PT_LOAD: u32 = 1;
/// Section type that carries no file bytes.
pub const SHT_NOBITS: u32 = 8;

/// One contiguous loadable region of the firmware: `segment_filesize` bytes
/// taken from the backing buffer at `segment_offset`, placed on the device
/// at flash byte address `address`.
#[derive(Clone, Copy, Debug, PartialEq, Eq, PartialOrd, Ord, Structural)]
pub struct DataChunk {
    pub address: u32,
    pub segment_offset: u64,
    pub segment_filesize: u64,
}

/// The firmware image: chunk descriptors over one owned backing buffer.
pub struct FlashData {
    pub bin_data: Vec<u8>,
    pub chunks: Vec<DataChunk>,
}

/// The 16-bit little-endian value at byte offset `off`.
pub open spec fn le16(b: Seq<u8>, off: int) -> int {
    b[off] + 0x100 * b[off + 1]
}

/// The 32-bit little-endian value at byte offset `off`.
pub open spec fn le32(b: Seq<u8>, off: int) -> int {
    b[off] + 0x100 * b[off + 1] + 0x1_0000 * b[off + 2] + 0x100_0000 * b[off + 3]
}

pub open spec fn ph_off(b: Seq<u8>) -> int {
    le32(b, 28)
}

pub open spec fn sh_off(b: Seq<u8>) -> int {
    le32(b, 32)
}

pub open spec fn ph_entsize(b: Seq<u8>) -> int {
    le16(b, 42)
}

pub open spec fn ph_num(b: Seq<u8>) -> int {
    le16(b, 44)
}

pub open spec fn sh_entsize(b: Seq<u8>) -> int {
    le16(b, 46)
}

pub open spec fn sh_num(b: Seq<u8>) -> int {
    le16(b, 48)
}

/// A well-formed file header: ELF magic, 32-bit class, little-endian data,
/// and program/section header tables of the expected entry size lying fully
/// inside the file.
pub open spec fn header_ok(b: Seq<u8>) -> bool {
    &&& b.len() >= 52
    &&& b[0] == 0x7f && b[1] == 0x45 && b[2] == 0x4c && b[3] == 0x46
    &&& b[4] == 1
    &&& b[5] == 1
    &&& (ph_num(b) > 0 ==> ph_entsize(b) == 32 && ph_off(b) + ph_num(b) * 32 <= b.len())
    &&& (sh_num(b) > 0 ==> sh_entsize(b) == 40 && sh_off(b) + sh_num(b) * 40 <= b.len())
}

pub open spec fn seg_type(b: Seq<u8>, i: int) -> int {
    le32(b, ph_off(b) + i * 32)
}

pub open spec fn seg_offset(b: Seq<u8>, i: int) -> int {
    le32(b, ph_off(b) + i * 32 + 4)
}

pub open spec fn seg_paddr(b: Seq<u8>, i: int) -> int {
    le32(b, ph_off(b) + i * 32 + 12)
}

pub open spec fn seg_filesz(b: Seq<u8>, i: int) -> int {
    le32(b, ph_off(b) + i * 32 + 16)
}

pub open spec fn sec_type(b: Seq<u8>, j: int) -> int {
    le32(b, sh_off(b) + j * 40 + 4)
}

pub open spec fn sec_offset(b: Seq<u8>, j: int) -> int {
    le32(b, sh_off(b) + j * 40 + 16)
}

pub open spec fn sec_size(b: Seq<u8>, j: int) -> int {
    le32(b, sh_off(b) + j * 40 + 20)
}

/// Section `j` has file-backed bytes and its file range lies inside the
/// segment file range `[so, so + sz)`.
pub open spec fn section_matches(b: Seq<u8>, j: int, so: int, sz: int) -> bool {
    &&& sec_type(b, j) != SHT_NOBITS
    &&& sec_size(b, j) > 0
    &&& so <= sec_offset(b, j)
    &&& sec_offset(b, j) + sec_size(b, j) <= so + sz
}

pub open spec fn has_matching_section(b: Seq<u8>, so: int, sz: int) -> bool {
    exists|j: int| 0 <= j < sh_num(b) && section_matches(b, j, so, sz)
}

/// The chunk recorded for program-header entry `i`.
pub open spec fn seg_chunk(b: Seq<u8>, i: int) -> DataChunk {
    DataChunk {
        address: seg_paddr(b, i) as u32,
        segment_offset: seg_offset(b, i) as u64,
        segment_filesize: seg_filesz(b, i) as u64,
    }
}

/// Walk the first `n` program-header entries in order: fail on a segment
/// whose file range lies outside the file; keep those that are loadable,
/// carry file bytes, and cover at least one section's file range.
pub open spec fn collect_segments(b: Seq<u8>, n: int) -> Result<Seq<DataChunk>, ErrorKind>
    decreases n,
{
    if n <= 0 {
        Ok(Seq::empty())
    } else {
        match collect_segments(b, n - 1) {
            Err(e) => Err(e),
            Ok(s) => {
                let i = n - 1;
                if seg_offset(b, i) + seg_filesz(b, i) > b.len() {
                    Err(ErrorKind::ImageError)
                } else if seg_filesz(b, i) == 0 || seg_type(b, i) != PT_LOAD {
                    Ok(s)
                } else if !has_matching_section(b, seg_offset(b, i), seg_filesz(b, i)) {
                    Ok(s)
                } else {
                    Ok(s.push(seg_chunk(b, i)))
                }
            },
        }
    }
}

/// Insert `c` into the address-sorted sequence `s`, after any equal keys.
pub open spec fn insert_sorted(s: Seq<DataChunk>, c: DataChunk) -> Seq<DataChunk>
    decreases s.len(),
{
    if s.len() == 0 {
        seq![c]
    } else if s.last().address <= c.address {
        s.push(c)
    } else {
        insert_sorted(s.drop_last(), c).push(s.last())
    }
}

/// Stable insertion sort by target address.
pub open spec fn sort_chunks(s: Seq<DataChunk>) -> Seq<DataChunk>
    decreases s.len(),
{
    if s.len() == 0 {
        Seq::empty()
    } else {
        insert_sorted(sort_chunks(s.drop_last()), s.last())
    }
}

/// The device byte address one past the end of the chunk.
pub open spec fn chunk_end(c: DataChunk) -> int {
    c.address + c.segment_filesize
}

/// The file byte offset one past the end of the chunk's backing range.
pub open spec fn chunk_file_end(c: DataChunk) -> int {
    c.segment_offset + c.segment_filesize
}

/// Adjacent chunks leave no hole on the device and none in the file, so
/// their backing ranges compose into one.
pub open spec fn fusible(a: DataChunk, c: DataChunk) -> bool {
    chunk_end(a) == c.address && chunk_file_end(a) == c.segment_offset
}

pub open spec fn fuse(a: DataChunk, c: DataChunk) -> DataChunk {
    DataChunk {
        address: a.address,
        segment_offset: a.segment_offset,
        segment_filesize: (a.segment_filesize + c.segment_filesize) as u64,
    }
}

/// Each chunk ends at or below the next chunk's start address.
pub open spec fn disjoint_sorted(s: Seq<DataChunk>) -> bool {
    forall|i: int| 0 <= i < s.len() - 1 ==> chunk_end(s[i]) <= #[trigger] s[i + 1].address
}

/// Every chunk ends within the 32-bit device address space.
pub open spec fn ends_bounded(s: Seq<DataChunk>) -> bool {
    forall|i: int| 0 <= i < s.len() ==> chunk_end(#[trigger] s[i]) <= 0x1_0000_0000
}

/// No adjacent pair can be fused any further.
pub open spec fn no_fusible_adjacent(s: Seq<DataChunk>) -> bool {
    forall|i: int| 0 <= i < s.len() - 1 ==> !fusible(s[i], #[trigger] s[i + 1])
}

/// Every chunk carries at least one byte, backed inside a buffer of length
/// `blen`.
pub open spec fn elems_backed(s: Seq<DataChunk>, blen: int) -> bool {
    forall|i: int|
        0 <= i < s.len() ==> (#[trigger] s[i]).segment_filesize > 0 && chunk_file_end(s[i]) <= blen
}

/// One step of the coalescing fold: fuse `c` into the last accumulated
/// chunk when both are contiguous, else append it.
pub open spec fn coal_push(acc: Seq<DataChunk>, c: DataChunk) -> Seq<DataChunk> {
    if acc.len() == 0 {
        seq![c]
    } else if fusible(acc.last(), c) {
        acc.drop_last().push(fuse(acc.last(), c))
    } else {
        acc.push(c)
    }
}

pub open spec fn coalesce_prefix(s: Seq<DataChunk>, n: int) -> Seq<DataChunk>
    decreases n,
{
    if n <= 0 {
        Seq::empty()
    } else {
        coal_push(coalesce_prefix(s, n - 1), s[n - 1])
    }
}

pub open spec fn coalesce(s: Seq<DataChunk>) -> Seq<DataChunk> {
    coalesce_prefix(s, s.len() as int)
}

/// The whole extraction pipeline on the image bytes: header validation,
/// segment collection, sort, disjointness check, coalesce.
pub open spec fn extract_spec(b: Seq<u8>) -> Result<Seq<DataChunk>, ErrorKind> {
    if !header_ok(b) {
        Err(ErrorKind::ImageError)
    } else {
        match collect_segments(b, ph_num(b)) {
            Err(e) => Err(e),
            Ok(raw) => {
                let sorted = sort_chunks(raw);
                if !(disjoint_sorted(sorted) && ends_bounded(sorted)) {
                    Err(ErrorKind::ImageError)
                } else {
                    Ok(coalesce(sorted))
                }
            },
        }
    }
}

impl FlashData {
    /// Well-formedness established by `extract_data`: every chunk has bytes,
    /// its backing range lies inside the buffer, it ends within the 32-bit
    /// address space, and chunks are disjoint and sorted by address.
    pub open spec fn wf(&self) -> bool {
        &&& elems_backed(self.chunks@, self.bin_data@.len() as int)
        &&& ends_bounded(self.chunks@)
        &&& disjoint_sorted(self.chunks@)
    }

    /// Every chunk starts on a flash row boundary.
    pub open spec fn row_aligned(&self) -> bool {
        forall|i: int|
            0 <= i < self.chunks@.len() ==> (#[trigger] self.chunks@[i]).address % 256 == 0
    }

    /// Runtime check of `wf`, for unverified embedders that assemble a
    /// `FlashData` by hand.
    pub fn check_wf(&self) -> (ok: bool)
        ensures
            ok == self.wf(),
    {
        let n = self.chunks.len();
        let blen = self.bin_data.len();
        let mut i: usize = 0;
        while i < n
            invariant
                i <= n,
                n == self.chunks@.len(),
                blen == self.bin_data@.len(),
                forall|k: int|
                    0 <= k < i ==> (#[trigger] self.chunks@[k]).segment_filesize > 0
                        && chunk_file_end(self.chunks@[k]) <= blen && chunk_end(self.chunks@[k])
                        <= 0x1_0000_0000,
                forall|k: int|
                    0 <= k < i && k + 1 < n && k + 1 < i + 1 ==> chunk_end(self.chunks@[k])
                        <= #[trigger] self.chunks@[k + 1].address,
            decreases n - i,
        {
            let c = self.chunks[i];
            if c.segment_filesize == 0 {
                return false;
            }
            if (c.segment_offset as u128) + (c.segment_filesize as u128) > (blen as u128) {
                return false;
            }
            if (c.address as u128) + (c.segment_filesize as u128) > 0x1_0000_0000u128 {
                return false;
            }
            if i + 1 < n {
                let d = self.chunks[i + 1];
                if (c.address as u128) + (c.segment_filesize as u128) > (d.address as u128) {
                    return false;
                }
            }
            i += 1;
        }
        true
    }

    /// Runtime check of `row_aligned`, for unverified embedders.
    pub fn check_row_aligned(&self) -> (ok: bool)
        ensures
            ok == self.row_aligned(),
    {
        let n = self.chunks.len();
        let mut i: usize = 0;
        while i < n
            invariant
                i <= n,
                n == self.chunks@.len(),
                forall|k: int| 0 <= k < i ==> (#[trigger] self.chunks@[k]).address % 256 == 0,
            decreases n - i,
        {
            if self.chunks[i].address % 256 != 0 {
                return false;
            }
            i += 1;
        }
        true
    }
}

fn read_u16(b: &Vec<u8>, off: usize) -> (r: u16)
    requires
        off + 2 <= b.len(),
    ensures
        r == le16(b@, off as int),
{
    let lo = b[off];
    let hi = b[off + 1];
    (lo as u16) + (hi as u16) * 0x100
}

fn read_u32(b: &Vec<u8>, off: usize) -> (r: u32)
    requires
        off + 4 <= b.len(),
    ensures
        r == le32(b@, off as int),
{
    let b0 = b[off];
    let b1 = b[off + 1];
    let b2 = b[off + 2];
    let b3 = b[off + 3];
    (b0 as u32) + (b1 as u32) * 0x100 + (b2 as u32) * 0x1_0000 + (b3 as u32) * 0x100_0000
}

fn header_check(b: &Vec<u8>) -> (ok: bool)
    ensures
        ok == header_ok(b@),
{
    if b.len() < 52 {
        return false;
    }
    if !(b[0] == 0x7f && b[1] == 0x45 && b[2] == 0x4c && b[3] == 0x46) {
        return false;
    }
    if b[4] != 1 || b[5] != 1 {
        return false;
    }
    let phnum = read_u16(b, 44);
    if phnum > 0 {
        if read_u16(b, 42) != 32 {
            return false;
        }
        if (read_u32(b, 28) as u64) + (phnum as u64) * 32 > b.len() as u64 {
            return false;
        }
    }
    let shnum = read_u16(b, 48);
    if shnum > 0 {
        if read_u16(b, 46) != 40 {
            return false;
        }
        if (read_u32(b, 32) as u64) + (shnum as u64) * 40 > b.len() as u64 {
            return false;
        }
    }
    true
}

/// Does any section's file range lie inside `[seg_off, seg_off + seg_size)`?
fn has_section(b: &Vec<u8>, shoff: usize, shnum: usize, seg_off: u32, seg_size: u32) -> (found:
    bool)
    requires
        shnum == sh_num(b@),
        shnum > 0 ==> shoff == sh_off(b@) && shoff + shnum * 40 <= b.len(),
    ensures
        found == has_matching_section(b@, seg_off as int, seg_size as int),
{
    let mut j: usize = 0;
    let mut found = false;
    while j < shnum
        invariant
            j <= shnum,
            shnum == sh_num(b@),
            shnum > 0 ==> shoff == sh_off(b@) && shoff + shnum * 40 <= b.len(),
            found == exists|jj: int|
                0 <= jj < j && section_matches(b@, jj, seg_off as int, seg_size as int),
        decreases shnum - j,
    {
        let base = shoff + j * 40;
        let stype = read_u32(b, base + 4);
        let soff = read_u32(b, base + 16);
        let ssize = read_u32(b, base + 20);
        let m = stype != SHT_NOBITS && ssize > 0 && seg_off <= soff && (soff as u64) + (ssize
            as u64) <= (seg_off as u64) + (seg_size as u64);
        proof {
            assert(m == section_matches(b@, j as int, seg_off as int, seg_size as int));
        }
        let ghost oldfound = found;
        if m {
            found = true;
        }
        proof {
            if !found {
                assert forall|jj: int|
                    0 <= jj < j + 1 implies !section_matches(
                    b@,
                    jj,
                    seg_off as int,
                    seg_size as int,
                ) by {
                    if jj < j {
                        assert(!(exists|x: int|
                            0 <= x < j && section_matches(b@, x, seg_off as int, seg_size as int)));
                    }
                }
            }
        }
        j += 1;
    }
    found
}

/// Once a prefix of the segment walk has failed, the whole walk fails the
/// same way.
proof fn lemma_collect_err_persists(b: Seq<u8>, i: int, n: int)
    requires
        0 <= i <= n,
        collect_segments(b, i) is Err,
    ensures
        collect_segments(b, n) == collect_segments(b, i),
    decreases n - i,
{
    if i < n {
        lemma_collect_err_persists(b, i, n - 1);
    }
}

/// Every chunk a successful segment walk yields has file-backed bytes lying
/// inside the buffer.
proof fn lemma_collect_elems(b: Seq<u8>, n: int)
    requires
        collect_segments(b, n) is Ok,
    ensures
        elems_backed(collect_segments(b, n)->Ok_0, b.len() as int),
    decreases n,
{
    if n > 0 {
        lemma_collect_elems(b, n - 1);
        let prev = collect_segments(b, n - 1)->Ok_0;
        let cur = collect_segments(b, n)->Ok_0;
        assert forall|k: int|
            0 <= k < cur.len() implies (#[trigger] cur[k]).segment_filesize > 0 && chunk_file_end(
            cur[k],
        ) <= b.len() by {
            if k < prev.len() {
                assert(cur[k] == prev[k]);
            }
        }
    }
}

/// Inserting into a sequence keeps every element's backing facts.
proof fn lemma_insert_elems(s: Seq<DataChunk>, c: DataChunk, blen: int)
    requires
        elems_backed(s, blen),
        c.segment_filesize > 0,
        chunk_file_end(c) <= blen,
    ensures
        elems_backed(insert_sorted(s, c), blen),
    decreases s.len(),
{
    if s.len() == 0 {
        assert(insert_sorted(s, c)[0] == c);
    } else if s.last().address <= c.address {
        let t = insert_sorted(s, c);
        assert forall|k: int|
            0 <= k < t.len() implies (#[trigger] t[k]).segment_filesize > 0 && chunk_file_end(t[k])
            <= blen by {
            if k < s.len() {
                assert(t[k] == s[k]);
            } else {
                assert(t[k] == c);
            }
        }
    } else {
        assert(elems_backed(s.drop_last(), blen)) by {
            assert forall|k: int|
                0 <= k < s.drop_last().len() implies (#[trigger] s.drop_last()[k]).segment_filesize
                > 0 && chunk_file_end(s.drop_last()[k]) <= blen by {
                assert(s.drop_last()[k] == s[k]);
            }
        }
        lemma_insert_elems(s.drop_last(), c, blen);
        let u = insert_sorted(s.drop_last(), c);
        let t = insert_sorted(s, c);
        assert forall|k: int|
            0 <= k < t.len() implies (#[trigger] t[k]).segment_filesize > 0 && chunk_file_end(t[k])
            <= blen by {
            if k < u.len() {
                assert(t[k] == u[k]);
            } else {
                assert(t[k] == s.last());
                assert(s.last() == s[s.len() - 1]);
            }
        }
    }
}

/// Sorting keeps every element's backing facts.
proof fn lemma_sort_elems(s: Seq<DataChunk>, blen: int)
    requires
        elems_backed(s, blen),
    ensures
        elems_backed(sort_chunks(s), blen),
    decreases s.len(),
{
    if s.len() > 0 {
        assert(elems_backed(s.drop_last(), blen)) by {
            assert forall|k: int|
                0 <= k < s.drop_last().len() implies (#[trigger] s.drop_last()[k]).segment_filesize
                > 0 && chunk_file_end(s.drop_last()[k]) <= blen by {
                assert(s.drop_last()[k] == s[k]);
            }
        }
        lemma_sort_elems(s.drop_last(), blen);
        assert(s.last() == s[s.len() - 1]);
        lemma_insert_elems(sort_chunks(s.drop_last()), s.last(), blen);
    }
}

/// `insert_sorted` places `c` exactly at the split position the scan finds.
proof fn lemma_insert_sorted_at(s: Seq<DataChunk>, c: DataChunk, pos: int)
    requires
        0 <= pos <= s.len(),
        forall|m: int| pos <= m < s.len() ==> (#[trigger] s[m]).address > c.address,
        pos > 0 ==> s[pos - 1].address <= c.address,
    ensures
        insert_sorted(s, c) == s.take(pos).push(c) + s.skip(pos),
    decreases s.len(),
{
    if s.len() == 0 {
        assert(insert_sorted(s, c) =~= s.take(pos).push(c) + s.skip(pos));
    } else if s.last().address <= c.address {
        assert(pos == s.len());
        assert(insert_sorted(s, c) =~= s.take(pos).push(c) + s.skip(pos));
    } else {
        assert(s[s.len() - 1].address > c.address);
        lemma_insert_sorted_at(s.drop_last(), c, pos);
        assert(s.drop_last().take(pos) =~= s.take(pos));
        assert(insert_sorted(s, c) =~= s.take(pos).push(c) + s.skip(pos));
    }
}

/// Extract the flash chunks from the raw bytes of a 32-bit little-endian
/// ELF executable.
///
/// On success the returned image owns the input buffer unchanged, its chunk
/// list is exactly `extract_spec` of the bytes, and the chunk-list
/// invariants hold: strictly sorted by target address, pairwise disjoint,
/// every chunk non-empty, backed inside the buffer, ending within the
/// 32-bit address space, and with no adjacent pair left fusible.
pub fn extract_data(bin_data: Vec<u8>) -> (r: Result<FlashData, ErrorKind>)
    ensures
        match r {
            Ok(fd) => {
                &&& extract_spec(bin_data@) == Ok::<Seq<DataChunk>, ErrorKind>(fd.chunks@)
                &&& fd.bin_data@ == bin_data@
                &&& fd.wf()
                &&& no_fusible_adjacent(fd.chunks@)
                &&& forall|i: int|
                    0 <= i < fd.chunks@.len() - 1 ==> (#[trigger] fd.chunks@[i]).address
                        < fd.chunks@[i + 1].address
            },
            Err(e) => extract_spec(bin_data@) == Err::<Seq<DataChunk>, ErrorKind>(e),
        },
{
    let ghost b = bin_data@;
    if !header_check(&bin_data) {
        return Err(ErrorKind::ImageError);
    }
    let blen = bin_data.len();
    let phnum = read_u16(&bin_data, 44) as usize;
    let phoff = read_u32(&bin_data, 28) as usize;
    let shnum = read_u16(&bin_data, 48) as usize;
    let shoff = read_u32(&bin_data, 32) as usize;

    // Walk the program headers.
    let mut raw: Vec<DataChunk> = Vec::new();
    let mut i: usize = 0;
    while i < phnum
        invariant
            header_ok(b),
            b == bin_data@,
            blen == bin_data.len(),
            phnum == ph_num(b),
            phnum > 0 ==> phoff == ph_off(b) && phoff + phnum * 32 <= blen,
            shnum == sh_num(b),
            shnum > 0 ==> shoff == sh_off(b) && shoff + shnum * 40 <= blen,
            i <= phnum,
            collect_segments(b, i as int) == Ok::<Seq<DataChunk>, ErrorKind>(raw@),
        decreases phnum - i,
    {
        let base = phoff + i * 32;
        let ptype = read_u32(&bin_data, base);
        let poff = read_u32(&bin_data, base + 4);
        let paddr = read_u32(&bin_data, base + 12);
        let pfilesz = read_u32(&bin_data, base + 16);
        if (poff as u64) + (pfilesz as u64) > blen as u64 {
            proof {
                assert(collect_segments(b, i + 1) is Err);
                lemma_collect_err_persists(b, i + 1, ph_num(b));
            }
            return Err(ErrorKind::ImageError);
        }
        if pfilesz != 0 && ptype == PT_LOAD {
            if has_section(&bin_data, shoff, shnum, poff, pfilesz) {
                raw.push(
                    DataChunk {
                        address: paddr,
                        segment_offset: poff as u64,
                        segment_filesize: pfilesz as u64,
                    },
                );
                proof {
                    assert(collect_segments(b, i + 1) == Ok::<Seq<DataChunk>, ErrorKind>(raw@));
                }
            }
        }
        i += 1;
    }
    let ghost rawv = raw@;

    // Sort by target address.
    let mut sorted: Vec<DataChunk> = Vec::new();
    let mut k: usize = 0;
    while k < raw.len()
        invariant
            k <= raw.len(),
            raw@ == rawv,
            sorted@ == sort_chunks(rawv.take(k as int)),
        decreases raw.len() - k,
    {
        let c = raw[k];
        let mut pos = sorted.len();
        while pos > 0 && sorted[pos - 1].address > c.address
            invariant
                pos <= sorted@.len(),
                forall|m: int|
                    pos <= m < sorted@.len() ==> (#[trigger] sorted@[m]).address > c.address,
            decreases pos,
        {
            pos -= 1;
        }
        let ghost prev = sorted@;
        proof {
            lemma_insert_sorted_at(prev, c, pos as int);
        }
        sorted.insert(pos, c);
        proof {
            assert(sorted@ =~= prev.take(pos as int).push(c) + prev.skip(pos as int));
            assert(sorted@ == insert_sorted(prev, c));
            assert(rawv.take(k + 1).drop_last() =~= rawv.take(k as int));
            assert(rawv.take(k + 1).last() == rawv[k as int]);
            assert(sort_chunks(rawv.take(k + 1)) == insert_sorted(
                sort_chunks(rawv.take(k as int)),
                rawv[k as int],
            ));
        }
        k += 1;
    }
    proof {
        assert(rawv.take(rawv.len() as int) =~= rawv);
    }

    // Reject images whose loadable segments overlap or fall outside the
    // 32-bit address space.
    let n = sorted.len();
    let mut v: usize = 0;
    while v < n
        invariant
            v <= n,
            n == sorted@.len(),
            b == bin_data@,
            header_ok(b),
            collect_segments(b, ph_num(b)) == Ok::<Seq<DataChunk>, ErrorKind>(rawv),
            sorted@ == sort_chunks(rawv),
            forall|m: int| 0 <= m < v ==> chunk_end(#[trigger] sorted@[m]) <= 0x1_0000_0000,
            forall|m: int|
                0 <= m < v && m + 1 < n ==> chunk_end(sorted@[m]) <= #[trigger] sorted@[m
                    + 1].address,
        decreases n - v,
    {
        let c = sorted[v];
        if (c.address as u128) + (c.segment_filesize as u128) > 0x1_0000_0000u128 {
            proof {
                assert(!ends_bounded(sorted@));
            }
            return Err(ErrorKind::ImageError);
        }
        if v + 1 < n {
            let d = sorted[v + 1];
            if (c.address as u128) + (c.segment_filesize as u128) > (d.address as u128) {
                proof {
                    assert(!disjoint_sorted(sorted@));
                }
                return Err(ErrorKind::ImageError);
            }
        }
        v += 1;
    }
    proof {
        assert(disjoint_sorted(sorted@));
        assert(ends_bounded(sorted@));
        lemma_collect_elems(b, ph_num(b));
        lemma_sort_elems(rawv, blen as int);
    }

    // Fuse neighbours that are contiguous both on the device and in the
    // backing file.
    let ghost sortedv = sorted@;
    let mut out: Vec<DataChunk> = Vec::new();
    let mut w: usize = 0;
    while w < n
        invariant
            w <= n,
            n == sortedv.len(),
            sortedv == sorted@,
            blen == bin_data.len(),
            b == bin_data@,
            header_ok(b),
            collect_segments(b, ph_num(b)) == Ok::<Seq<DataChunk>, ErrorKind>(rawv),
            sortedv == sort_chunks(rawv),
            disjoint_sorted(sortedv),
            ends_bounded(sortedv),
            elems_backed(sortedv, blen as int),
            out@ == coalesce_prefix(sortedv, w as int),
            elems_backed(out@, blen as int),
            ends_bounded(out@),
            disjoint_sorted(out@),
            no_fusible_adjacent(out@),
            out@.len() > 0 ==> w > 0 && chunk_end(out@.last()) == chunk_end(sortedv[w - 1]),
            w > 0 ==> out@.len() > 0,
        decreases n - w,
    {
        let c = sorted[w];
        let ghost prevout = out@;
        match out.pop() {
            None => {
                out.push(c);
            },
            Some(prev) => {
                if (prev.address as u64) + prev.segment_filesize == c.address as u64
                    && prev.segment_offset + prev.segment_filesize == c.segment_offset {
                    out.push(
                        DataChunk {
                            address: prev.address,
                            segment_offset: prev.segment_offset,
                            segment_filesize: prev.segment_filesize + c.segment_filesize,
                        },
                    );
                } else {
                    out.push(prev);
                    out.push(c);
                }
            },
        }
        proof {
            assert(sortedv[w as int] == c);
            assert(out@ =~= coal_push(prevout, c));
            let cur = out@;
            assert forall|m: int|
                0 <= m < cur.len() implies (#[trigger] cur[m]).segment_filesize > 0
                && chunk_file_end(cur[m]) <= blen && chunk_end(cur[m]) <= 0x1_0000_0000 by {
                if prevout.len() > 0 && fusible(prevout.last(), c) {
                    if m < cur.len() - 1 {
                        assert(cur[m] == prevout[m]);
                    } else {
                        assert(cur[m] == fuse(prevout.last(), c));
                    }
                } else {
                    if m < prevout.len() {
                        assert(cur[m] == prevout[m]);
                    } else {
                        assert(cur[m] == c);
                    }
                }
            }
            assert forall|m: int|
                0 <= m < cur.len() - 1 implies chunk_end(cur[m]) <= #[trigger] cur[m + 1].address
                && !fusible(cur[m], cur[m + 1]) by {
                if prevout.len() > 0 && fusible(prevout.last(), c) {
                    if m + 1 < cur.len() - 1 {
                        assert(cur[m] == prevout[m]);
                        assert(cur[m + 1] == prevout[m + 1]);
                    } else {
                        assert(m + 1 == cur.len() - 1);
                        if m >= 0 {
                            assert(cur[m] == prevout[m]);
                            assert(cur[m + 1] == fuse(prevout.last(), c));
                            assert(prevout.last() == prevout[prevout.len() - 1]);
                            assert(chunk_end(prevout[m]) <= prevout[m + 1].address);
                            assert(!fusible(prevout[m], prevout[m + 1]));
                        }
                    }
                } else {
                    if m + 1 < cur.len() - 1 {
                        assert(cur[m] == prevout[m]);
                        assert(cur[m + 1] == prevout[m + 1]);
                    } else if prevout.len() > 0 {
                        assert(cur[m] == prevout[m]);
                        assert(cur[m + 1] == c);
                        assert(prevout.last() == prevout[prevout.len() - 1]);
                        assert(chunk_end(prevout.last()) == chunk_end(sortedv[w - 1]));
                        assert(chunk_end(sortedv[w - 1]) <= sortedv[(w - 1) + 1].address);
                        if m < prevout.len() - 1 {
                            assert(chunk_end(prevout[m]) <= prevout[m + 1].address);
                        }
                    }
                }
            }
        }
        w += 1;
    }
    proof {
        assert(out@ == coalesce(sortedv));
        assert(extract_spec(b) == Ok::<Seq<DataChunk>, ErrorKind>(out@));
        assert forall|m: int|
            0 <= m < out@.len() - 1 implies (#[trigger] out@[m]).address < out@[m + 1].address by {
            assert(chunk_end(out@[m]) <= out@[m + 1].address);
            assert(out@[m].segment_filesize > 0);
        }
    }
    let fd = FlashData { bin_data, chunks: out };
    Ok(fd)
}

/// Two loads of the same image bytes yield the same chunk list: extraction
/// is a pure function of the bytes alone.
pub proof fn lemma_extract_stable(
    b: Seq<u8>,
    r1: Result<Seq<DataChunk>, ErrorKind>,
    r2: Result<Seq<DataChunk>, ErrorKind>,
)
    requires
        r1 == extract_spec(b),
        r2 == extract_spec(b),
    ensures
        r1 == r2,
{
}

} // verus!
