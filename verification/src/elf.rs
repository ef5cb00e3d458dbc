//! A reader for the 64-bit ELF application image format: header
//! validation, and the loadable-segment records the loader maps.
//!
//! Every field is a little-endian integer at a fixed offset; each
//! accessor's contract states exactly which bytes it decodes.

use vstd::prelude::*;

verus! {

/// Segment type tag of a loadable segment.
pub const PT_LOAD: u64 = 1;

/// The little-endian 16-bit integer at `off`.
pub open spec fn le16(b: Seq<u8>, off: int) -> u64 {
    (b[off] + 256 * (b[off + 1] as int)) as u64
}

/// The little-endian 32-bit integer at `off`.
pub open spec fn le32(b: Seq<u8>, off: int) -> u64 {
    (b[off] + 256 * (b[off + 1] as int) + 65536 * (b[off + 2] as int) + 16777216 * (b[off
        + 3] as int)) as u64
}

/// The little-endian 64-bit integer at `off`.
pub open spec fn le64(b: Seq<u8>, off: int) -> u64 {
    (le32(b, off) + 4294967296 * (le32(b, off + 4) as int)) as u64
}

/// The four ELF magic bytes and the 64-bit class tag are in place.
pub open spec fn elf_magic_ok(b: Seq<u8>) -> bool {
    &&& b.len() >= 64
    &&& b[0] == 0x7f
    &&& b[1] == 0x45
    &&& b[2] == 0x4c
    &&& b[3] == 0x46
    &&& b[4] == 2
}

/// File offset of the program-header table.
pub open spec fn spec_ph_offset(b: Seq<u8>) -> u64 {
    le64(b, 32)
}

/// Size of one program-header entry.
pub open spec fn spec_ph_entsize(b: Seq<u8>) -> u64 {
    le16(b, 54)
}

/// Number of program-header entries.
pub open spec fn spec_ph_count(b: Seq<u8>) -> u64 {
    le16(b, 56)
}

/// Entry point of the image.
pub open spec fn spec_entry(b: Seq<u8>) -> u64 {
    le64(b, 24)
}

/// The program-header table lies inside the file with full-size entries.
pub open spec fn ph_table_ok(b: Seq<u8>) -> bool {
    &&& spec_ph_entsize(b) >= 56
    &&& spec_ph_offset(b) + spec_ph_count(b) * spec_ph_entsize(b) <= b.len()
}

/// A well-formed 64-bit ELF image for loading purposes.
pub open spec fn elf_ok(b: Seq<u8>) -> bool {
    elf_magic_ok(b) && ph_table_ok(b)
}

/// File offset of program header `i`.
pub open spec fn ph_at(b: Seq<u8>, i: int) -> int {
    spec_ph_offset(b) + i * spec_ph_entsize(b)
}

/// Type tag of segment `i`.
pub open spec fn spec_seg_type(b: Seq<u8>, i: int) -> u64 {
    le32(b, ph_at(b, i))
}

/// Permission flags of segment `i` (execute 1, write 2, read 4).
pub open spec fn spec_seg_flags(b: Seq<u8>, i: int) -> u64 {
    le32(b, ph_at(b, i) + 4)
}

/// File offset of segment `i`'s bytes.
pub open spec fn spec_seg_offset(b: Seq<u8>, i: int) -> u64 {
    le64(b, ph_at(b, i) + 8)
}

/// Virtual load address of segment `i`.
pub open spec fn spec_seg_vaddr(b: Seq<u8>, i: int) -> u64 {
    le64(b, ph_at(b, i) + 16)
}

/// Length of segment `i`'s bytes in the file.
pub open spec fn spec_seg_file_size(b: Seq<u8>, i: int) -> u64 {
    le64(b, ph_at(b, i) + 32)
}

/// Length of segment `i` in memory.
pub open spec fn spec_seg_mem_size(b: Seq<u8>, i: int) -> u64 {
    le64(b, ph_at(b, i) + 40)
}

/// One loadable-segment record, decoded to plain values.
#[derive(Clone, Copy, Debug, PartialEq, Eq, Structural)]
pub struct ProgramSegment {
    pub stype: u64,
    pub flags: u64,
    pub offset: u64,
    pub vaddr: u64,
    pub file_size: u64,
    pub mem_size: u64,
}

/// Reads the little-endian 16-bit integer at `off`.
fn read_le16(b: &Vec<u8>, off: usize) -> (r: u64)
    requires
        off + 2 <= b@.len(),
    ensures
        r == le16(b@, off as int),
{
    let n = b.len();
    proof {
        assert(off + 2 <= n);
    }
    b[off] as u64 + 256 * (b[off + 1] as u64)
}

/// Reads the little-endian 32-bit integer at `off`.
fn read_le32(b: &Vec<u8>, off: usize) -> (r: u64)
    requires
        off + 4 <= b@.len(),
    ensures
        r == le32(b@, off as int),
{
    let n = b.len();
    proof {
        assert(off + 4 <= n);
    }
    b[off] as u64 + 256 * (b[off + 1] as u64) + 65536 * (b[off + 2] as u64) + 16777216 * (b[off
        + 3] as u64)
}

/// Reads the little-endian 64-bit integer at `off`.
fn read_le64(b: &Vec<u8>, off: usize) -> (r: u64)
    requires
        off + 8 <= b@.len(),
    ensures
        r == le64(b@, off as int),
{
    let n = b.len();
    proof {
        assert(off + 8 <= n);
    }
    let lo = read_le32(b, off);
    let hi = read_le32(b, off + 4);
    proof {
        assert(lo < 0x1_0000_0000);
        assert(hi < 0x1_0000_0000);
        assert(lo + 0x1_0000_0000 * hi <= 0xFFFF_FFFF_FFFF_FFFF) by (nonlinear_arith)
            requires
                lo < 0x1_0000_0000,
                hi < 0x1_0000_0000,
        ;
    }
    lo + 4294967296 * hi
}

/// Checks that `b` is a well-formed 64-bit ELF image: the magic number,
/// the class tag, and a program-header table that lies within the file.
pub fn check_elf64(b: &Vec<u8>) -> (r: bool)
    ensures
        r == elf_ok(b@),
{
    if b.len() < 64 {
        return false;
    }
    if !(b[0] == 0x7f && b[1] == 0x45 && b[2] == 0x4c && b[3] == 0x46 && b[4] == 2) {
        return false;
    }
    let ph_off = read_le64(b, 32);
    let ph_entsize = read_le16(b, 54);
    let ph_count = read_le16(b, 56);
    if ph_entsize < 56 {
        return false;
    }
    let len = b.len() as u64;
    if ph_off > len {
        return false;
    }
    proof {
        assert(ph_count * ph_entsize <= 65535 * 65535) by (nonlinear_arith)
            requires
                ph_count <= 65535,
                ph_entsize <= 65535,
        ;
    }
    let table = ph_count * ph_entsize;
    table <= len - ph_off
}

/// The entry point of a well-formed image.
pub fn elf_entry(b: &Vec<u8>) -> (r: u64)
    requires
        elf_ok(b@),
    ensures
        r == spec_entry(b@),
{
    read_le64(b, 24)
}

/// The number of program headers of a well-formed image.
pub fn elf_ph_count(b: &Vec<u8>) -> (r: u64)
    requires
        elf_ok(b@),
    ensures
        r == spec_ph_count(b@),
{
    read_le16(b, 56)
}

/// Decodes program header `i` of a well-formed image.
pub fn elf_segment(b: &Vec<u8>, i: u64) -> (r: ProgramSegment)
    requires
        elf_ok(b@),
        i < spec_ph_count(b@),
    ensures
        r.stype == spec_seg_type(b@, i as int),
        r.flags == spec_seg_flags(b@, i as int),
        r.offset == spec_seg_offset(b@, i as int),
        r.vaddr == spec_seg_vaddr(b@, i as int),
        r.file_size == spec_seg_file_size(b@, i as int),
        r.mem_size == spec_seg_mem_size(b@, i as int),
{
    let n = b.len();
    proof {
        assert(64 <= n);
    }
    let ph_off = read_le64(b, 32);
    let ph_entsize = read_le16(b, 54);
    proof {
        lemma_ph_in_bounds(b@, i as int);
        assert(i * ph_entsize <= 65535 * 65535) by (nonlinear_arith)
            requires
                0 <= i <= 65535,
                ph_entsize <= 65535,
        ;
        assert(i < 65536 && ph_entsize < 65536) by {
            assert(spec_ph_count(b@) < 65536);
            assert(spec_ph_entsize(b@) < 65536);
        }
        assert(ph_off + i * ph_entsize <= b@.len());
    }
    let base = (ph_off + i * ph_entsize) as usize;
    ProgramSegment {
        stype: read_le32(b, base),
        flags: read_le32(b, base + 4),
        offset: read_le64(b, base + 8),
        vaddr: read_le64(b, base + 16),
        file_size: read_le64(b, base + 32),
        mem_size: read_le64(b, base + 40),
    }
}

/// Entry `i` of the program-header table lies inside the file, with all
/// 56 architectural bytes available.
pub proof fn lemma_ph_in_bounds(b: Seq<u8>, i: int)
    requires
        elf_ok(b),
        0 <= i < spec_ph_count(b),
    ensures
        0 <= ph_at(b, i),
        ph_at(b, i) + 56 <= b.len(),
        ph_at(b, i) + spec_ph_entsize(b) <= b.len(),
{
    let off = spec_ph_offset(b) as int;
    let es = spec_ph_entsize(b) as int;
    let n = spec_ph_count(b) as int;
    assert((i + 1) * es <= n * es) by (nonlinear_arith)
        requires
            i + 1 <= n,
            es >= 0,
    ;
    assert(i * es + es == (i + 1) * es) by (nonlinear_arith);
    assert(i * es >= 0) by (nonlinear_arith)
        requires
            i >= 0,
            es >= 0,
    ;
}

} // verus!
