//! What the address-space builder reads of a 64-bit little-endian ELF
//! image: a few header fields at fixed offsets.
use vstd::prelude::*;

verus! {

/// Whether `s` starts with the ELF magic `0x7F 'E' 'L' 'F'`.
pub open spec fn has_elf_magic(s: Seq<u8>) -> bool {
    &&& s.len() >= 4
    &&& s[0] == 0x7fu8
    &&& s[1] == 0x45u8
    &&& s[2] == 0x4cu8
    &&& s[3] == 0x46u8
}

/// The little-endian 16-bit value at byte `o` of `s`.
pub open spec fn le16(s: Seq<u8>, o: int) -> int {
    s[o] + s[o + 1] * 0x100
}

/// The little-endian 32-bit value at byte `o` of `s`.
pub open spec fn le32(s: Seq<u8>, o: int) -> int {
    le16(s, o) + le16(s, o + 2) * 0x1_0000
}

/// The little-endian 64-bit value at byte `o` of `s`.
pub open spec fn le64(s: Seq<u8>, o: int) -> int {
    le32(s, o) + le32(s, o + 4) * 0x1_0000_0000
}

/// Whether `s` has a 64-bit little-endian ELF header: at least 64 bytes,
/// the magic, class 2 and data encoding 1.
pub open spec fn elf64_header(s: Seq<u8>) -> bool {
    &&& s.len() >= 64
    &&& has_elf_magic(s)
    &&& s[4] == 2u8
    &&& s[5] == 1u8
}

/// Entry point of the image `s`.
pub open spec fn elf_entry(s: Seq<u8>) -> int {
    le64(s, 24)
}

/// Offset of the program-header table of `s`.
pub open spec fn elf_phoff(s: Seq<u8>) -> int {
    le64(s, 32)
}

/// Size of one program-header entry of `s`.
pub open spec fn elf_phentsize(s: Seq<u8>) -> int {
    le16(s, 54)
}

/// Number of program headers of `s`.
pub open spec fn elf_phnum(s: Seq<u8>) -> int {
    le16(s, 56)
}

/// Whether the program-header table of `s` lies inside `s`, with entries
/// large enough for a 64-bit program header.
pub open spec fn elf_table_ok(s: Seq<u8>) -> bool {
    &&& elf_phentsize(s) >= 56
    &&& elf_phoff(s) + elf_phnum(s) * elf_phentsize(s) <= s.len()
}

/// The program-header fields the loader uses.
#[derive(Clone, Copy, Debug, PartialEq, Eq, Structural)]
pub struct ProgramHeaderInfo {
    pub is_load: bool,
    pub virtual_addr: u64,
    pub mem_size: u64,
    pub offset: u64,
    pub file_size: u64,
    pub flags: u32,
}

/// The program header that starts at byte `b` of `s`.
pub open spec fn ph_at(s: Seq<u8>, b: int) -> ProgramHeaderInfo {
    ProgramHeaderInfo {
        is_load: le32(s, b) == 1,
        virtual_addr: le64(s, b + 16) as u64,
        mem_size: le64(s, b + 40) as u64,
        offset: le64(s, b + 8) as u64,
        file_size: le64(s, b + 32) as u64,
        flags: le32(s, b + 4) as u32,
    }
}

/// The program headers of `s`, in table order.
pub open spec fn elf_program_headers(s: Seq<u8>) -> Seq<ProgramHeaderInfo> {
    Seq::new(elf_phnum(s) as nat, |i: int| ph_at(s, elf_phoff(s) + i * elf_phentsize(s)))
}

/// Why an address space could not be built from an ELF image.
#[derive(Clone, Copy, Debug, PartialEq, Eq, Structural)]
pub enum ElfError {
    /// The image does not start with the ELF magic.
    BadMagic,
    /// A header is missing, out of bounds, or describes an impossible layout.
    Malformed,
    /// The frame pool ran out.
    OutOfFrames,
}

/// Whether a program header is of type `PT_LOAD`.
pub open spec fn load_pred() -> spec_fn(ProgramHeaderInfo) -> bool {
    |p: ProgramHeaderInfo| p.is_load
}

/// The loadable program headers of `phs`, in order.
pub open spec fn load_segments(phs: Seq<ProgramHeaderInfo>) -> Seq<ProgramHeaderInfo> {
    phs.filter(load_pred())
}

/// Segment may be executed.
pub const PF_X: u32 = 1;
/// Segment may be written.
pub const PF_W: u32 = 2;
/// Segment may be read.
pub const PF_R: u32 = 4;

/// The little-endian 16-bit value at byte `o` of `data`.
pub fn read_u16(data: &[u8], o: usize) -> (r: u16)
    requires
        o + 2 <= data@.len(),
    ensures
        r == le16(data@, o as int),
{
    (data[o] as u16) + (data[o + 1] as u16) * 0x100
}

/// The little-endian 32-bit value at byte `o` of `data`.
pub fn read_u32(data: &[u8], o: usize) -> (r: u32)
    requires
        o + 4 <= data@.len(),
    ensures
        r == le32(data@, o as int),
{
    let _n = data.len();
    (read_u16(data, o) as u32) + (read_u16(data, o + 2) as u32) * 0x1_0000
}

/// The little-endian 64-bit value at byte `o` of `data`.
pub fn read_u64(data: &[u8], o: usize) -> (r: u64)
    requires
        o + 8 <= data@.len(),
    ensures
        r == le64(data@, o as int),
{
    let _n = data.len();
    (read_u32(data, o) as u64) + (read_u32(data, o + 4) as u64) * 0x1_0000_0000
}

/// The program header that starts at byte `b` of `data`.
pub fn read_program_header(data: &[u8], b: usize) -> (r: ProgramHeaderInfo)
    requires
        b + 56 <= data@.len(),
    ensures
        r == ph_at(data@, b as int),
{
    let _n = data.len();
    ProgramHeaderInfo {
        is_load: read_u32(data, b) == 1,
        virtual_addr: read_u64(data, b + 16),
        mem_size: read_u64(data, b + 40),
        offset: read_u64(data, b + 8),
        file_size: read_u64(data, b + 32),
        flags: read_u32(data, b + 4),
    }
}

proof fn lemma_entry_in_table(off: int, i: int, e: int, n: int, len: int)
    requires
        0 <= i < n,
        e >= 56,
        0 <= off,
        off + n * e <= len,
    ensures
        off + i * e + 56 <= len,
        off + i * e >= 0,
{
    assert(i * e + e <= n * e) by (nonlinear_arith)
        requires 0 <= i < n, e >= 0;
    assert(i * e >= 0) by (nonlinear_arith)
        requires 0 <= i, e >= 0;
}

/// The program headers of the 64-bit ELF image `data`, or `None` where it
/// has no such header or its program-header table does not lie inside it.
pub fn read_program_headers(data: &[u8]) -> (r: Option<Vec<ProgramHeaderInfo>>)
    ensures
        r is Some <==> elf64_header(data@) && elf_table_ok(data@),
        r is Some ==> r.unwrap()@ == elf_program_headers(data@),
{
    if data.len() < 64 || data[0] != 0x7fu8 || data[1] != 0x45u8 || data[2] != 0x4cu8 || data[3] != 0x46u8
        || data[4] != 2u8 || data[5] != 1u8 {
        return None;
    }
    let phoff = read_u64(data, 32);
    let phentsize = read_u16(data, 54) as u64;
    let phnum = read_u16(data, 56) as u64;
    let len = data.len() as u64;
    assert(phnum * phentsize <= 0x1_0000 * 0x1_0000) by (nonlinear_arith)
        requires phnum < 0x1_0000, phentsize < 0x1_0000;
    if phentsize < 56 || phoff > len || phnum * phentsize > len - phoff {
        return None;
    }
    let mut v: Vec<ProgramHeaderInfo> = Vec::new();
    let mut i: u64 = 0;
    while i < phnum
        invariant
            i <= phnum,
            phnum == elf_phnum(data@),
            phentsize == elf_phentsize(data@),
            phoff == elf_phoff(data@),
            len == data@.len(),
            phentsize >= 56,
            phoff + phnum * phentsize <= len,
            v@ == elf_program_headers(data@).take(i as int),
        decreases phnum - i,
    {
        proof {
            lemma_entry_in_table(phoff as int, i as int, phentsize as int, phnum as int, len as int);
        }
        assert(i * phentsize <= phnum * phentsize) by (nonlinear_arith)
            requires i < phnum;
        let b = phoff + i * phentsize;
        assert(b + 56 <= len);
        assert(len == data.len());
        let ph = read_program_header(data, b as usize);
        assert(ph == elf_program_headers(data@)[i as int]);
        v.push(ph);
        proof {
            assert(v@ =~= elf_program_headers(data@).take(i + 1));
        }
        i = i + 1;
    }
    assert(v@ =~= elf_program_headers(data@));
    Some(v)
}

/// The entry point of the 64-bit ELF image `data`.
pub fn read_entry(data: &[u8]) -> (r: u64)
    requires
        data@.len() >= 64,
    ensures
        r == elf_entry(data@),
{
    read_u64(data, 24)
}

} // verus!
