//! Reading ELF64 images: the magic number, the entry point, and the
//! loadable program headers.  Each field is a little-endian integer at a
//! fixed offset, stated byte for byte over the image.

use vstd::prelude::*;

verus! {

/// The 16-bit little-endian integer at `off`.
pub open spec fn le16(s: Seq<u8>, off: int) -> u64 {
    (s[off] as u64) | ((s[off + 1] as u64) << 8u64)
}

/// The 32-bit little-endian integer at `off`.
pub open spec fn le32(s: Seq<u8>, off: int) -> u64 {
    (s[off] as u64) | ((s[off + 1] as u64) << 8u64) | ((s[off + 2] as u64) << 16u64) | ((s[off
        + 3] as u64) << 24u64)
}

/// The 64-bit little-endian integer at `off`.
pub open spec fn le64(s: Seq<u8>, off: int) -> u64 {
    (s[off] as u64) | ((s[off + 1] as u64) << 8u64) | ((s[off + 2] as u64) << 16u64) | ((s[off
        + 3] as u64) << 24u64) | ((s[off + 4] as u64) << 32u64) | ((s[off + 5] as u64)
        << 40u64) | ((s[off + 6] as u64) << 48u64) | ((s[off + 7] as u64) << 56u64)
}

/// Reads the 16-bit little-endian integer at `off`.
pub fn read_le16(data: &Vec<u8>, off: usize) -> (r: u64)
    requires
        off + 2 <= data@.len(),
    ensures
        r == le16(data@, off as int),
{
    let n: usize = data.len();
    proof {
        assert(data@.len() == n);
    }
    (data[off] as u64) | ((data[off + 1] as u64) << 8u64)
}

/// Reads the 32-bit little-endian integer at `off`.
pub fn read_le32(data: &Vec<u8>, off: usize) -> (r: u64)
    requires
        off + 4 <= data@.len(),
    ensures
        r == le32(data@, off as int),
{
    let n: usize = data.len();
    proof {
        assert(data@.len() == n);
    }
    (data[off] as u64) | ((data[off + 1] as u64) << 8u64) | ((data[off + 2] as u64) << 16u64)
        | ((data[off + 3] as u64) << 24u64)
}

/// Reads the 64-bit little-endian integer at `off`.
pub fn read_le64(data: &Vec<u8>, off: usize) -> (r: u64)
    requires
        off + 8 <= data@.len(),
    ensures
        r == le64(data@, off as int),
{
    let n: usize = data.len();
    proof {
        assert(data@.len() == n);
    }
    (data[off] as u64) | ((data[off + 1] as u64) << 8u64) | ((data[off + 2] as u64) << 16u64)
        | ((data[off + 3] as u64) << 24u64) | ((data[off + 4] as u64) << 32u64) | ((data[off
        + 5] as u64) << 40u64) | ((data[off + 6] as u64) << 48u64) | ((data[off + 7] as u64)
        << 56u64)
}

/// The image begins with the ELF magic `7F 45 4C 46` and is at least a
/// full header long.
pub open spec fn elf_magic_ok(s: Seq<u8>) -> bool {
    &&& s.len() >= 64
    &&& s[0] == 0x7F
    &&& s[1] == 0x45
    &&& s[2] == 0x4C
    &&& s[3] == 0x46
}

/// The entry point of the image.
pub open spec fn elf_entry(s: Seq<u8>) -> u64 {
    le64(s, 24)
}

/// The file offset of the program header table.
pub open spec fn elf_phoff(s: Seq<u8>) -> u64 {
    le64(s, 32)
}

/// The size of one program header table entry.
pub open spec fn elf_phentsize(s: Seq<u8>) -> u64 {
    le16(s, 54)
}

/// The number of program header table entries.
pub open spec fn elf_phnum(s: Seq<u8>) -> u64 {
    le16(s, 56)
}

/// The file offset of program header `i`.
pub open spec fn ph_base(s: Seq<u8>, i: int) -> int {
    elf_phoff(s) + 56 * i
}

/// The type field of program header `i`; loadable segments have type 1.
pub open spec fn ph_type(s: Seq<u8>, i: int) -> u64 {
    le32(s, ph_base(s, i))
}

/// Whether program header `i` describes a loadable segment.
pub open spec fn ph_is_load(s: Seq<u8>, i: int) -> bool {
    ph_type(s, i) == 1
}

/// The flag bits of program header `i`: X is 1, W is 2, R is 4.
pub open spec fn ph_flags(s: Seq<u8>, i: int) -> u64 {
    le32(s, ph_base(s, i) + 4)
}

/// The file offset of the segment of program header `i`.
pub open spec fn ph_offset(s: Seq<u8>, i: int) -> u64 {
    le64(s, ph_base(s, i) + 8)
}

/// The first virtual address of the segment of program header `i`.
pub open spec fn ph_vaddr(s: Seq<u8>, i: int) -> u64 {
    le64(s, ph_base(s, i) + 16)
}

/// How many bytes of the segment come from the file.
pub open spec fn ph_filesz(s: Seq<u8>, i: int) -> u64 {
    le64(s, ph_base(s, i) + 32)
}

/// The size of the segment in memory; the tail past the file bytes is
/// zero-filled.
pub open spec fn ph_memsz(s: Seq<u8>, i: int) -> u64 {
    le64(s, ph_base(s, i) + 40)
}

/// A well-formed image for the loader: valid magic, ordinary header
/// geometry, and loadable segments that are page-aligned, lie inside the
/// file, fit well below the kernel, and occupy increasing, disjoint page
/// ranges.  Alignment is forced by the loader's copy semantics: the file
/// bytes are copied from the first byte of the segment's first page, so a
/// segment placed mid-page would read back shifted.  Disjointness is
/// forced by the mapping invariant: mapping an already-mapped page is a
/// kernel bug.
pub open spec fn elf_wf(s: Seq<u8>) -> bool {
    &&& elf_magic_ok(s)
    &&& s.len() <= 0x1000_0000
    &&& elf_phentsize(s) == 56
    &&& elf_phnum(s) <= 128
    &&& elf_phoff(s) + 56 * elf_phnum(s) <= s.len()
    &&& forall|i: int|
        0 <= i < elf_phnum(s) && #[trigger] ph_is_load(s, i) ==> {
            &&& ph_offset(s, i) + ph_filesz(s, i) <= s.len()
            &&& ph_vaddr(s, i) % 4096 == 0
            &&& ph_filesz(s, i) <= ph_memsz(s, i)
            &&& ph_vaddr(s, i) + ph_memsz(s, i) <= 0x4000_0000
        }
    &&& forall|i: int, j: int|
        0 <= i < j < elf_phnum(s) && #[trigger] ph_is_load(s, i) && #[trigger] ph_is_load(
            s,
            j,
        ) ==> (ph_vaddr(s, i) + ph_memsz(s, i) + 4095) / 4096 <= ph_vaddr(s, j) / 4096
}

/// One decoded program header.
#[derive(Clone, Copy, PartialEq, Eq, Structural, Debug)]
pub struct ProgHeader {
    /// The type field; loadable segments have type 1.
    pub ptype: u64,
    /// The flag bits: X is 1, W is 2, R is 4.
    pub flags: u64,
    /// The file offset of the segment bytes.
    pub offset: u64,
    /// The first virtual address of the segment.
    pub vaddr: u64,
    /// How many bytes come from the file.
    pub filesz: u64,
    /// The size of the segment in memory.
    pub memsz: u64,
}

/// Checks the image for the ELF magic number.
pub fn elf_check_magic(data: &Vec<u8>) -> (r: bool)
    ensures
        r == elf_magic_ok(data@),
{
    data.len() >= 64 && data[0] == 0x7F && data[1] == 0x45 && data[2] == 0x4C && data[3]
        == 0x46
}

/// Decodes program header `i` of a well-formed image.
pub fn elf_prog_header(data: &Vec<u8>, i: usize) -> (r: ProgHeader)
    requires
        elf_wf(data@),
        i < elf_phnum(data@),
    ensures
        r.ptype == ph_type(data@, i as int),
        r.flags == ph_flags(data@, i as int),
        r.offset == ph_offset(data@, i as int),
        r.vaddr == ph_vaddr(data@, i as int),
        r.filesz == ph_filesz(data@, i as int),
        r.memsz == ph_memsz(data@, i as int),
{
    let phoff = read_le64(data, 32);
    proof {
        assert(phoff == elf_phoff(data@));
        assert(elf_phoff(data@) + 56 * elf_phnum(data@) <= data@.len());
        assert(56 * (i + 1) <= 56 * elf_phnum(data@)) by (nonlinear_arith)
            requires i + 1 <= elf_phnum(data@);
    }
    let base: usize = (phoff as usize) + 56 * i;
    ProgHeader {
        ptype: read_le32(data, base),
        flags: read_le32(data, base + 4),
        offset: read_le64(data, base + 8),
        vaddr: read_le64(data, base + 16),
        filesz: read_le64(data, base + 32),
        memsz: read_le64(data, base + 40),
    }
}

/// Reads the entry point of the image.
pub fn elf_entry_point(data: &Vec<u8>) -> (r: u64)
    requires
        elf_magic_ok(data@),
    ensures
        r == elf_entry(data@),
{
    read_le64(data, 24)
}

/// Reads the number of program headers of a well-formed image.
pub fn elf_num_prog_headers(data: &Vec<u8>) -> (r: u64)
    requires
        elf_magic_ok(data@),
    ensures
        r == elf_phnum(data@),
{
    read_le16(data, 56)
}

} // verus!
