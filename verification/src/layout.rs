//! Where the headers of a PE32+ image lie, and whether they lie where the
//! parser can read them in place.
//!
//! The parser reads the NT headers, the section headers and the import
//! descriptors through references into the bytes of the image. It checks
//! that they lie within the bytes; it does not check in full that they lie
//! at a multiple of what their fields need. [`in_place`] makes that check
//! before the parser is asked.

use vstd::prelude::*;

verus! {

/// The size of the DOS header with which every image begins.
pub const DOS_HEADER_SIZE: usize = 64;

/// Where the DOS header holds the offset of the NT headers.
pub const NT_OFFSET_FIELD: usize = 60;

/// The size of the NT headers, up to the data directories.
pub const NT_HEADERS_SIZE: usize = 136;

/// The size of the signature and the file header, which stand before the
/// optional header.
pub const OPTIONAL_HEADER_AT: usize = 24;

/// The size of one section header.
pub const SECTION_HEADER_SIZE: usize = 40;

/// The 16-bit number at `at`, lowest byte first.
pub open spec fn u16_at(bytes: Seq<u8>, at: int) -> int {
    bytes[at] as int + 256 * (bytes[at + 1] as int)
}

/// The 32-bit number at `at`, lowest byte first.
pub open spec fn u32_at(bytes: Seq<u8>, at: int) -> int {
    bytes[at] as int + 256 * (bytes[at + 1] as int) + 65536 * (bytes[at + 2] as int) + 16777216
        * (bytes[at + 3] as int)
}

/// Whether the bytes hold a DOS header with its signature, `MZ`.
pub open spec fn has_dos_header(bytes: Seq<u8>) -> bool {
    bytes.len() >= DOS_HEADER_SIZE && bytes[0] == 0x4D && bytes[1] == 0x5A
}

/// The offset of the NT headers, as the DOS header gives it.
pub open spec fn nt_offset(bytes: Seq<u8>) -> int {
    u32_at(bytes, NT_OFFSET_FIELD as int)
}

/// The size of the optional header, as the file header gives it.
pub open spec fn optional_header_size(bytes: Seq<u8>) -> int {
    u16_at(bytes, nt_offset(bytes) + 20)
}

/// The number of sections, as the file header gives it.
pub open spec fn section_count(bytes: Seq<u8>) -> int {
    u16_at(bytes, nt_offset(bytes) + 6)
}

/// The offset of the first section header: it follows the optional header.
pub open spec fn section_table(bytes: Seq<u8>) -> int {
    nt_offset(bytes) + OPTIONAL_HEADER_AT + optional_header_size(bytes)
}

/// Whether the content of section `index` lies in the file as far from a
/// multiple of four as it lies in memory, so that what is aligned by its
/// address in memory is aligned in the file.
pub open spec fn section_in_step(bytes: Seq<u8>, index: int) -> bool {
    let header = section_table(bytes) + SECTION_HEADER_SIZE * index;
    u32_at(bytes, header + 12) % 4 == u32_at(bytes, header + 20) % 4
}

/// Whether the parser can read the image in place, given that the bytes
/// start where a 64-bit word may start.
///
/// Bytes without a DOS header are turned down by the parser before it
/// looks further. Otherwise the NT headers must lie at a multiple of
/// eight. Where they lie within the bytes, the optional header must have a
/// multiple of four as its size, so that the section headers lie at one
/// too; and where those lie within the bytes, every section must be in
/// step.
///
/// This asks more than the parser needs for one given image. It asks every
/// section to be in step, also one that the parser would never read from;
/// and an image laid out by the rules of the format meets it. An image that
/// does not is turned down whole, rather than read as far as it goes.
pub open spec fn readable_in_place(bytes: Seq<u8>) -> bool {
    has_dos_header(bytes) ==> {
        &&& nt_offset(bytes) % 8 == 0
        &&& nt_offset(bytes) + NT_HEADERS_SIZE <= bytes.len() ==> {
            &&& optional_header_size(bytes) % 4 == 0
            &&& section_table(bytes) + SECTION_HEADER_SIZE * section_count(bytes)
                <= bytes.len() ==> forall|index: int|
                0 <= index < section_count(bytes) ==> section_in_step(bytes, index)
        }
    }
}

/// The 16-bit number at `at`, lowest byte first.
pub fn read_u16(image: &[u8], at: usize) -> (value: u64)
    requires
        at + 2 <= image@.len(),
    ensures
        value == u16_at(image@, at as int),
        value < 0x1_0000,
{
    let low: u64 = image[at] as u64;
    let high: u64 = image[at + 1] as u64;
    low + 256 * high
}

/// The 32-bit number at `at`, lowest byte first.
pub fn read_u32(image: &[u8], at: usize) -> (value: u64)
    requires
        at + 4 <= image@.len(),
    ensures
        value == u32_at(image@, at as int),
        value < 0x1_0000_0000,
{
    let b0: u64 = image[at] as u64;
    let b1: u64 = image[at + 1] as u64;
    let b2: u64 = image[at + 2] as u64;
    let b3: u64 = image[at + 3] as u64;
    b0 + 256 * b1 + 65536 * b2 + 16777216 * b3
}

/// Whether the parser can read the image in place.
pub fn in_place(image: &[u8]) -> (ok: bool)
    ensures
        ok == readable_in_place(image@),
{
    let len = image.len();
    if len < DOS_HEADER_SIZE || image[0] != 0x4D || image[1] != 0x5A {
        return true;
    }
    let nt: u64 = read_u32(image, NT_OFFSET_FIELD);
    if nt % 8 != 0 {
        return false;
    }
    if nt + 136 > len as u64 {
        return true;
    }
    let optional: u64 = read_u16(image, nt as usize + 20);
    if optional % 4 != 0 {
        return false;
    }
    let count: u64 = read_u16(image, nt as usize + 6);
    let table: u64 = nt + 24 + optional;
    if table + 40 * count > len as u64 {
        return true;
    }
    let mut index: u64 = 0;
    while index < count
        invariant
            index <= count,
            count == section_count(image@),
            table == section_table(image@),
            len == image@.len(),
            has_dos_header(image@),
            nt_offset(image@) + NT_HEADERS_SIZE <= len,
            table + 40 * count <= len,
            forall|k: int| 0 <= k < index ==> section_in_step(image@, k),
        decreases count - index,
    {
        let header: usize = (table + 40 * index) as usize;
        let in_memory: u64 = read_u32(image, header + 12);
        let in_file: u64 = read_u32(image, header + 20);
        if in_memory % 4 != in_file % 4 {
            assert(!section_in_step(image@, index as int));
            return false;
        }
        index += 1;
    }
    true
}

} // verus!
