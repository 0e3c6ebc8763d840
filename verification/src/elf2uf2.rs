//! Turning an ELF firmware image into UF2 blocks.

use std::io::Cursor;

use elf::endian::AnyEndian;
use elf::segment::ProgramHeader;
use elf::ElfStream;
use elf::ParseError;
use vstd::prelude::*;

use crate::le::{push_fill, splice, write_at};
use crate::pages::{
    all_fit, law_page_addresses, page_addresses, page_list, pieces_at, ElfSegment, PageEntry,
    PageFragment, PageMap,
};
use crate::text::{hex, push_hex};
use crate::uf2::{block, block_at, law_block_fields, write_block, Family};

verus! {

/// Size of the smallest piece of flash that can be erased.
pub const FLASH_SECTOR_ERASE_SIZE: u64 = 4096;

/// Segment type of a loadable segment.
pub const PT_LOAD: u32 = 1;

pub const MAIN_RAM_START_RP2040: u64 = 0x2000_0000;

pub const MAIN_RAM_END_RP2040: u64 = 0x2004_2000;

pub const MAIN_RAM_START_RP2350: u64 = 0x2000_0000;

pub const MAIN_RAM_END_RP2350: u64 = 0x2008_2000;

pub const FLASH_START_RP2040: u64 = 0x1000_0000;

pub const FLASH_END_RP2040: u64 = 0x1500_0000;

pub const FLASH_START_RP2350: u64 = 0x1000_0000;

pub const FLASH_END_RP2350: u64 = 0x1500_0000;

pub const XIP_SRAM_START_RP2040: u64 = 0x1500_0000;

pub const XIP_SRAM_END_RP2040: u64 = 0x1500_4000;

pub const XIP_SRAM_START_RP2350: u64 = 0x13ff_c000;

pub const XIP_SRAM_END_RP2350: u64 = 0x1400_0000;

pub const MAIN_RAM_BANKED_START_RP2040: u64 = 0x2100_0000;

pub const MAIN_RAM_BANKED_END_RP2040: u64 = 0x2104_0000;

pub const ROM_START_RP2040: u64 = 0x0000_0000;

pub const ROM_END_RP2040: u64 = 0x0000_4000;

pub const ROM_START_RP2350: u64 = 0x0000_0000;

pub const ROM_END_RP2350: u64 = 0x0000_8000;

// ---------------------------------------------------------------------------
// Reading the file
// ---------------------------------------------------------------------------

/// The error of the `elf` crate, carried through as it is.
#[verifier::external_type_specification]
#[verifier::external_body]
pub struct ExParseError(elf::ParseError);

/// What of an ELF file the conversion reads.
#[derive(Debug)]
pub struct ElfImage {
    pub entry: u64,
    pub segments: Vec<ElfSegment>,
}

/// Entry point and program headers of the ELF file with the given bytes, nothing
/// where the `elf` crate cannot open it.
pub uninterp spec fn elf_image(bytes: Seq<u8>) -> Option<(u64, Seq<ElfSegment>)>;

/// Opens the bytes as an ELF file.
///
/// Calls `elf::ElfStream::open_stream` on an in-memory stream.  Whether it
/// succeeds, the header's entry point and the program headers depend on the
/// bytes alone; `elf_image` stands for them.
#[verifier::external_body]
fn parse_elf(bytes: &[u8]) -> (r: Result<ElfImage, ParseError>)
    ensures
        (match r {
            Ok(image) => elf_image(bytes@) == Some((image.entry, image.segments@)),
            Err(_) => elf_image(bytes@) is None,
        }),
{
    let file = ElfStream::<AnyEndian, _>::open_stream(Cursor::new(bytes))?;
    let convert = |h: &ProgramHeader| ElfSegment {
        p_type: h.p_type,
        p_offset: h.p_offset,
        p_vaddr: h.p_vaddr,
        p_paddr: h.p_paddr,
        p_filesz: h.p_filesz,
        p_memsz: h.p_memsz,
        p_flags: h.p_flags,
        p_align: h.p_align,
    };
    Ok(ElfImage { entry: file.ehdr.e_entry, segments: file.segments().iter().map(convert).collect() })
}

/// The file data of a segment.
///
/// Calls `elf::ElfStream::segment_data` on the bytes opened as by `parse_elf`.
/// In a file that can be opened it gives the `p_filesz` bytes from `p_offset` on,
/// and fails exactly where the file ends before them.
#[verifier::external_body]
fn segment_data(bytes: &[u8], segment: &ElfSegment) -> (r: Result<Vec<u8>, ParseError>)
    ensures
        (match r {
            Ok(data) => elf_image(bytes@) is Some && segment.p_offset + segment.p_filesz
                <= bytes@.len() && data@ == bytes@.subrange(
                segment.p_offset as int,
                segment.p_offset + segment.p_filesz,
            ),
            Err(_) => elf_image(bytes@) is None || segment.p_offset + segment.p_filesz
                > bytes@.len(),
        }),
{
    let mut file = ElfStream::<AnyEndian, _>::open_stream(Cursor::new(bytes))?;
    let header = ProgramHeader {
        p_type: segment.p_type,
        p_offset: segment.p_offset,
        p_vaddr: segment.p_vaddr,
        p_paddr: segment.p_paddr,
        p_filesz: segment.p_filesz,
        p_memsz: segment.p_memsz,
        p_flags: segment.p_flags,
        p_align: segment.p_align,
    };
    Ok(file.segment_data(&header)?.to_vec())
}

// ---------------------------------------------------------------------------
// Errors
// ---------------------------------------------------------------------------

/// Why the segments of a file cannot be placed on the device.
#[derive(Debug, Clone, Copy, PartialEq, Eq, Structural)]
pub enum AddressRangesFromElfError {
    NoSegments,
    SegmentsOverlap,
    ContentsForUninitializedMemory(u64),
    SegmentInvalidForDevice(u64, u64),
}

/// Why a file cannot be converted.
#[derive(Debug)]
pub enum Elf2Uf2Error {
    FailedToGetPagesFromRanges(AddressRangesFromElfError),
    FailedToOpenElfFile(ParseError),
    FailedToRealizePages(ParseError),
    InputFileNoMemoryPages,
    DirectEntryIntoXipSram,
    RamBinaryEntryPoint(u32, u32),
    EntryPointNotMapped,
}

/// A number in hexadecimal with a prefix, eight characters wide at least.
pub open spec fn prefixed_hex(v: nat) -> Seq<char> {
    "0x"@ + hex(v, 6)
}

fn push_prefixed_hex(out: &mut String, v: u64)
    ensures
        final(out)@ == old(out)@ + prefixed_hex(v as nat),
{
    out.append("0x");
    push_hex(out, v, 6);
    assert(out@ =~= old(out)@ + prefixed_hex(v as nat));
}

impl AddressRangesFromElfError {
    /// The reason in words.
    pub open spec fn spec_message(self) -> Seq<char> {
        match self {
            AddressRangesFromElfError::NoSegments => "No segments in ELF"@,
            AddressRangesFromElfError::SegmentsOverlap => "In-memory segments overlap"@,
            AddressRangesFromElfError::ContentsForUninitializedMemory(addr) =>
                "ELF contains memory contents for uninitialized memory at "@ + hex(addr as nat, 8),
            AddressRangesFromElfError::SegmentInvalidForDevice(from, to) => "Memory segment "@
                + prefixed_hex(from as nat) + "->"@ + prefixed_hex(to as nat)
                + " is outside of valid address range for device"@,
        }
    }

    /// The reason in words.
    pub fn message(self) -> (r: String)
        ensures
            r@ == self.spec_message(),
    {
        match self {
            AddressRangesFromElfError::NoSegments => "No segments in ELF".to_owned(),
            AddressRangesFromElfError::SegmentsOverlap => "In-memory segments overlap".to_owned(),
            AddressRangesFromElfError::ContentsForUninitializedMemory(addr) => {
                let mut r =
                    "ELF contains memory contents for uninitialized memory at ".to_owned();
                push_hex(&mut r, addr, 8);
                r
            },
            AddressRangesFromElfError::SegmentInvalidForDevice(from, to) => {
                let mut r = "Memory segment ".to_owned();
                push_prefixed_hex(&mut r, from);
                r.append("->");
                push_prefixed_hex(&mut r, to);
                r.append(" is outside of valid address range for device");
                r
            },
        }
    }
}

impl Elf2Uf2Error {
    /// The reason in words.
    pub open spec fn spec_message(self) -> Seq<char> {
        match self {
            Elf2Uf2Error::FailedToGetPagesFromRanges(_) =>
                "Failed to get address ranges from elf"@,
            Elf2Uf2Error::FailedToOpenElfFile(_) => "Failed to open elf file"@,
            Elf2Uf2Error::FailedToRealizePages(_) => "Failed to realize pages for elf file"@,
            Elf2Uf2Error::InputFileNoMemoryPages => "The input file has no memory pages"@,
            Elf2Uf2Error::DirectEntryIntoXipSram =>
                "B0/B1 Boot ROM does not support direct entry into XIP_SRAM"@,
            Elf2Uf2Error::RamBinaryEntryPoint(expected, actual) =>
                "A RAM binary should have an entry point at the beginning: "@ + prefixed_hex(
                    expected as nat,
                ) + " (not "@ + prefixed_hex(actual as nat) + ")"@,
            Elf2Uf2Error::EntryPointNotMapped => "entry point is not in mapped part of file"@,
        }
    }

    /// The reason in words.
    pub fn message(&self) -> (r: String)
        ensures
            r@ == self.spec_message(),
    {
        match self {
            Elf2Uf2Error::FailedToGetPagesFromRanges(_) =>
                "Failed to get address ranges from elf".to_owned(),
            Elf2Uf2Error::FailedToOpenElfFile(_) => "Failed to open elf file".to_owned(),
            Elf2Uf2Error::FailedToRealizePages(_) =>
                "Failed to realize pages for elf file".to_owned(),
            Elf2Uf2Error::InputFileNoMemoryPages =>
                "The input file has no memory pages".to_owned(),
            Elf2Uf2Error::DirectEntryIntoXipSram =>
                "B0/B1 Boot ROM does not support direct entry into XIP_SRAM".to_owned(),
            Elf2Uf2Error::RamBinaryEntryPoint(expected, actual) => {
                let mut r =
                    "A RAM binary should have an entry point at the beginning: ".to_owned();
                push_prefixed_hex(&mut r, *expected as u64);
                r.append(" (not ");
                push_prefixed_hex(&mut r, *actual as u64);
                r.append(")");
                r
            },
            Elf2Uf2Error::EntryPointNotMapped =>
                "entry point is not in mapped part of file".to_owned(),
        }
    }
}

// ---------------------------------------------------------------------------
// Address ranges
// ---------------------------------------------------------------------------

/// What a file may put into an address range.
#[derive(Debug, Clone, Copy, PartialEq, Eq, Structural)]
pub enum AddressRangeType {
    /// Memory that the file fills.
    Contents,
    /// Memory that exists but is not filled from the file.
    NoContents,
    /// Memory whose contents in the file are passed over.
    Ignore,
}

/// A half-open range of addresses.
#[derive(Debug, Clone, Copy, PartialEq, Eq, Structural)]
pub struct AddressRange {
    pub typ: AddressRangeType,
    pub from: u64,
    pub to: u64,
}

impl AddressRange {
    /// The range from `from` to just before `to`.
    pub fn new(from: u64, to: u64, typ: AddressRangeType) -> (r: AddressRange)
        ensures
            r == (AddressRange { typ, from, to }),
    {
        AddressRange { typ, from, to }
    }
}

/// The ranges of a family's devices, for a binary that runs from RAM or from flash.
pub open spec fn address_ranges(family: Family, ram: bool) -> Seq<AddressRange> {
    if family is RP2040 {
        if ram {
            seq![
                AddressRange {
                    typ: AddressRangeType::Contents,
                    from: MAIN_RAM_START_RP2040,
                    to: MAIN_RAM_END_RP2040,
                },
                AddressRange {
                    typ: AddressRangeType::Contents,
                    from: XIP_SRAM_START_RP2040,
                    to: XIP_SRAM_END_RP2040,
                },
                AddressRange {
                    typ: AddressRangeType::Ignore,
                    from: ROM_START_RP2040,
                    to: ROM_END_RP2040,
                },
            ]
        } else {
            seq![
                AddressRange {
                    typ: AddressRangeType::Contents,
                    from: FLASH_START_RP2040,
                    to: FLASH_END_RP2040,
                },
                AddressRange {
                    typ: AddressRangeType::NoContents,
                    from: MAIN_RAM_START_RP2040,
                    to: MAIN_RAM_END_RP2040,
                },
                AddressRange {
                    typ: AddressRangeType::NoContents,
                    from: MAIN_RAM_BANKED_START_RP2040,
                    to: MAIN_RAM_BANKED_END_RP2040,
                },
            ]
        }
    } else if ram {
        seq![
            AddressRange {
                typ: AddressRangeType::Contents,
                from: MAIN_RAM_START_RP2350,
                to: MAIN_RAM_END_RP2350,
            },
            AddressRange {
                typ: AddressRangeType::Contents,
                from: XIP_SRAM_START_RP2350,
                to: XIP_SRAM_END_RP2350,
            },
            AddressRange {
                typ: AddressRangeType::Ignore,
                from: ROM_START_RP2350,
                to: ROM_END_RP2350,
            },
        ]
    } else {
        seq![
            AddressRange {
                typ: AddressRangeType::Contents,
                from: FLASH_START_RP2350,
                to: FLASH_END_RP2350,
            },
            AddressRange {
                typ: AddressRangeType::NoContents,
                from: MAIN_RAM_START_RP2350,
                to: MAIN_RAM_END_RP2350,
            },
        ]
    }
}

/// The ranges of a family's devices, for a binary that runs from RAM or from flash.
pub fn ranges_of(family: Family, ram: bool) -> (r: Vec<AddressRange>)
    ensures
        r@ == address_ranges(family, ram),
{
    let rp2040: bool = match family {
        Family::RP2040 => true,
        _ => false,
    };
    let mut r: Vec<AddressRange> = Vec::new();
    if rp2040 {
        if ram {
            r.push(
                AddressRange::new(
                    MAIN_RAM_START_RP2040,
                    MAIN_RAM_END_RP2040,
                    AddressRangeType::Contents,
                ),
            );
            r.push(
                AddressRange::new(
                    XIP_SRAM_START_RP2040,
                    XIP_SRAM_END_RP2040,
                    AddressRangeType::Contents,
                ),
            );
            r.push(AddressRange::new(ROM_START_RP2040, ROM_END_RP2040, AddressRangeType::Ignore));
        } else {
            r.push(
                AddressRange::new(FLASH_START_RP2040, FLASH_END_RP2040, AddressRangeType::Contents),
            );
            r.push(
                AddressRange::new(
                    MAIN_RAM_START_RP2040,
                    MAIN_RAM_END_RP2040,
                    AddressRangeType::NoContents,
                ),
            );
            r.push(
                AddressRange::new(
                    MAIN_RAM_BANKED_START_RP2040,
                    MAIN_RAM_BANKED_END_RP2040,
                    AddressRangeType::NoContents,
                ),
            );
        }
    } else if ram {
        r.push(
            AddressRange::new(
                MAIN_RAM_START_RP2350,
                MAIN_RAM_END_RP2350,
                AddressRangeType::Contents,
            ),
        );
        r.push(
            AddressRange::new(
                XIP_SRAM_START_RP2350,
                XIP_SRAM_END_RP2350,
                AddressRangeType::Contents,
            ),
        );
        r.push(AddressRange::new(ROM_START_RP2350, ROM_END_RP2350, AddressRangeType::Ignore));
    } else {
        r.push(AddressRange::new(FLASH_START_RP2350, FLASH_END_RP2350, AddressRangeType::Contents));
        r.push(
            AddressRange::new(
                MAIN_RAM_START_RP2350,
                MAIN_RAM_END_RP2350,
                AddressRangeType::NoContents,
            ),
        );
    }
    assert(r@ =~= address_ranges(family, ram));
    r
}

/// The first of `ranges` that holds the `size` bytes from `addr` on.
pub open spec fn first_holding(ranges: Seq<AddressRange>, addr: int, size: int) -> Option<
    AddressRange,
>
    decreases ranges.len(),
{
    if ranges.len() == 0 {
        None
    } else if ranges[0].from <= addr && addr + size <= ranges[0].to {
        Some(ranges[0])
    } else {
        first_holding(ranges.drop_first(), addr, size)
    }
}

/// Whether the first range that holds `addr` is one with contents.
pub open spec fn initialized(ranges: Seq<AddressRange>, addr: int) -> bool {
    first_holding(ranges, addr, 1) matches Some(r) && r.typ is Contents
}

/// The range for a piece of memory, or why there is none.
pub open spec fn checked_range(
    ranges: Seq<AddressRange>,
    addr: int,
    size: int,
    uninitialized: bool,
) -> Result<AddressRange, AddressRangesFromElfError> {
    match first_holding(ranges, addr, size) {
        Some(r) => if r.typ is NoContents && !uninitialized {
            Err(AddressRangesFromElfError::ContentsForUninitializedMemory(addr as u64))
        } else {
            Ok(r)
        },
        None => Err(
            AddressRangesFromElfError::SegmentInvalidForDevice(addr as u64, (addr + size) as u64),
        ),
    }
}

/// The first range that holds `addr`.
pub fn range_for(ranges: &Vec<AddressRange>, addr: u64) -> (r: Option<AddressRange>)
    ensures
        r == first_holding(ranges@, addr as int, 1),
{
    let mut i: usize = 0;
    assert(ranges@.skip(0) =~= ranges@);
    while i < ranges.len()
        invariant
            i <= ranges@.len(),
            first_holding(ranges@, addr as int, 1) == first_holding(
                ranges@.skip(i as int),
                addr as int,
                1,
            ),
        decreases ranges@.len() - i,
    {
        let range = ranges[i];
        assert(ranges@.skip(i as int)[0] == range);
        assert(ranges@.skip(i as int).drop_first() =~= ranges@.skip(i + 1));
        if range.from <= addr && range.to > addr {
            return Some(range);
        }
        i += 1;
    }
    None
}

/// Whether the file is to fill the memory at `addr`.
pub fn is_address_initialized(ranges: &Vec<AddressRange>, addr: u64) -> (r: bool)
    ensures
        r == initialized(ranges@, addr as int),
{
    match range_for(ranges, addr) {
        Some(range) => range.typ == AddressRangeType::Contents,
        None => false,
    }
}

/// Finds the range for `size` bytes at `addr`.
pub fn check_address_range(
    ranges: &Vec<AddressRange>,
    addr: u64,
    size: u64,
    uninitialized: bool,
) -> (r: Result<AddressRange, AddressRangesFromElfError>)
    requires
        addr + size <= u64::MAX,
    ensures
        r == checked_range(ranges@, addr as int, size as int, uninitialized),
{
    let mut i: usize = 0;
    assert(ranges@.skip(0) =~= ranges@);
    while i < ranges.len()
        invariant
            addr + size <= u64::MAX,
            i <= ranges@.len(),
            first_holding(ranges@, addr as int, size as int) == first_holding(
                ranges@.skip(i as int),
                addr as int,
                size as int,
            ),
        decreases ranges@.len() - i,
    {
        let range = ranges[i];
        assert(ranges@.skip(i as int)[0] == range);
        assert(ranges@.skip(i as int).drop_first() =~= ranges@.skip(i + 1));
        if range.from <= addr && range.to >= addr + size {
            if range.typ == AddressRangeType::NoContents && !uninitialized {
                return Err(AddressRangesFromElfError::ContentsForUninitializedMemory(addr));
            }
            return Ok(range);
        }
        i += 1;
    }
    Err(AddressRangesFromElfError::SegmentInvalidForDevice(addr, addr + size))
}

// ---------------------------------------------------------------------------
// Segments on pages
// ---------------------------------------------------------------------------

/// How many bytes of the segment come from the file.
pub open spec fn mapped_size(s: ElfSegment) -> u64 {
    if s.p_filesz < s.p_memsz {
        s.p_filesz
    } else {
        s.p_memsz
    }
}

/// Whether the segment brings bytes from the file into memory.
pub open spec fn is_loaded(s: ElfSegment) -> bool {
    s.p_type == PT_LOAD && mapped_size(s) > 0
}

/// Whether the segment's bytes go into the output.
pub open spec fn contributes(ranges: Seq<AddressRange>, s: ElfSegment) -> bool {
    is_loaded(s) && (checked_range(ranges, s.p_paddr as int, mapped_size(s) as int, false)
        matches Ok(r) && r.typ is Contents)
}

/// Whether the segment fills the byte at address `a`.
pub open spec fn covers(s: ElfSegment, a: int) -> bool {
    s.p_paddr <= a < s.p_paddr + mapped_size(s)
}

/// Whether `p` is the address of a page that the segment fills in part.
pub open spec fn on_page(s: ElfSegment, p: int) -> bool {
    0 <= p && p % 256 == 0 && p < s.p_paddr + mapped_size(s) && s.p_paddr < p + 256
}

/// The piece of the segment that lies on the page at `p`.
pub open spec fn fragment_of(s: ElfSegment, p: int) -> PageFragment {
    let from = if s.p_paddr < p {
        p
    } else {
        s.p_paddr as int
    };
    let to = if s.p_paddr + mapped_size(s) < p + 256 {
        s.p_paddr + mapped_size(s)
    } else {
        p + 256
    };
    PageFragment {
        segment: s,
        segment_offset: (from - s.p_paddr) as u64,
        page_offset: (from - p) as u64,
        bytes: (to - from) as u64,
    }
}

/// The pieces of the first `n` segments on the page at `p`, in the segments' order.
pub open spec fn fragments_on(
    ranges: Seq<AddressRange>,
    segments: Seq<ElfSegment>,
    n: nat,
    p: int,
) -> Seq<PageFragment>
    decreases n,
{
    if n == 0 {
        Seq::empty()
    } else {
        let rest = fragments_on(ranges, segments, (n - 1) as nat, p);
        let s = segments[n - 1];
        if contributes(ranges, s) && on_page(s, p) {
            rest.push(fragment_of(s, p))
        } else {
            rest
        }
    }
}

/// The pages that the first `n` segments fill, each with its pieces.
pub open spec fn segment_pages(ranges: Seq<AddressRange>, segments: Seq<ElfSegment>, n: nat) -> Map<
    int,
    Seq<PageFragment>,
> {
    Map::new(
        |p: int| fragments_on(ranges, segments, n, p).len() > 0,
        |p: int| fragments_on(ranges, segments, n, p),
    )
}

/// Whether segment `n` fills a byte that an earlier segment fills too.
pub open spec fn overlaps_earlier(
    ranges: Seq<AddressRange>,
    segments: Seq<ElfSegment>,
    n: int,
) -> bool {
    exists|j: int, a: int|
        0 <= j < n && contributes(ranges, segments[j]) && #[trigger] covers(segments[j], a)
            && covers(segments[n], a)
}

/// What is wrong with segment `n`, or nothing.
pub open spec fn segment_error(
    ranges: Seq<AddressRange>,
    segments: Seq<ElfSegment>,
    n: int,
) -> Option<AddressRangesFromElfError> {
    let s = segments[n];
    if !is_loaded(s) {
        None
    } else {
        match checked_range(ranges, s.p_paddr as int, mapped_size(s) as int, false) {
            Err(e) => Some(e),
            Ok(r) => if !(r.typ is Contents) {
                None
            } else if overlaps_earlier(ranges, segments, n) {
                Some(AddressRangesFromElfError::SegmentsOverlap)
            } else if s.p_memsz > s.p_filesz {
                match checked_range(
                    ranges,
                    s.p_paddr + s.p_filesz,
                    s.p_memsz - s.p_filesz,
                    true,
                ) {
                    Err(e) => Some(e),
                    Ok(_) => None,
                }
            } else {
                None
            },
        }
    }
}

/// What is wrong with the first faulty one of the first `n` segments, or nothing.
pub open spec fn first_segment_error(
    ranges: Seq<AddressRange>,
    segments: Seq<ElfSegment>,
    n: nat,
) -> Option<AddressRangesFromElfError>
    decreases n,
{
    if n == 0 {
        None
    } else {
        match first_segment_error(ranges, segments, (n - 1) as nat) {
            Some(e) => Some(e),
            None => segment_error(ranges, segments, n - 1),
        }
    }
}

/// Whether the ends that placing segment `n` computes stay within 64 bits: that of its
/// bytes from the file and, where all of it is looked at, that of its memory.
pub open spec fn segment_ends_fit(
    ranges: Seq<AddressRange>,
    segments: Seq<ElfSegment>,
    n: int,
) -> bool {
    let s = segments[n];
    is_loaded(s) ==> {
        &&& s.p_paddr + mapped_size(s) <= u64::MAX
        &&& contributes(ranges, s) && !overlaps_earlier(ranges, segments, n) && s.p_memsz
            > s.p_filesz ==> s.p_paddr + s.p_memsz <= u64::MAX
    }
}

/// Whether the ends of the segments up to the first faulty one stay within 64 bits.
pub open spec fn ends_fit(ranges: Seq<AddressRange>, segments: Seq<ElfSegment>) -> bool {
    forall|i: int|
        0 <= i < segments.len() && first_segment_error(ranges, segments, i as nat) is None
            ==> #[trigger] segment_ends_fit(ranges, segments, i)
}

proof fn lemma_first_segment_error_stays(
    ranges: Seq<AddressRange>,
    segments: Seq<ElfSegment>,
    k: nat,
    n: nat,
)
    requires
        k <= n,
        first_segment_error(ranges, segments, k) is Some,
    ensures
        first_segment_error(ranges, segments, n) == first_segment_error(ranges, segments, k),
    decreases n,
{
    if k < n {
        lemma_first_segment_error_stays(ranges, segments, k, (n - 1) as nat);
    }
}

/// `m` with the pieces of `s` added on the pages below `q`.
spec fn with_segment(m: Map<int, Seq<PageFragment>>, s: ElfSegment, q: int) -> Map<
    int,
    Seq<PageFragment>,
> {
    Map::new(
        |p: int| m.dom().contains(p) || (p < q && on_page(s, p)),
        |p: int|
            if p < q && on_page(s, p) {
                pieces_at(m, p).push(fragment_of(s, p))
            } else {
                m[p]
            },
    )
}

/// Whether a piece of `s` meets one of the pieces on the page at `p`.
spec fn clashes(m: Map<int, Seq<PageFragment>>, s: ElfSegment, p: int) -> bool {
    on_page(s, p) && exists|k: int|
        0 <= k < pieces_at(m, p).len() && (#[trigger] pieces_at(m, p)[k]).meets(fragment_of(s, p))
}

/// Whether `piece` meets one of `pieces`.
fn meets_any(pieces: &Vec<PageFragment>, piece: PageFragment) -> (r: bool)
    requires
        piece.fits(),
        all_fit(pieces@),
    ensures
        r == exists|k: int| 0 <= k < pieces@.len() && (#[trigger] pieces@[k]).meets(piece),
{
    let off: u64 = piece.page_offset;
    let len: u64 = piece.bytes;
    let mut k: usize = 0;
    while k < pieces.len()
        invariant
            k <= pieces@.len(),
            all_fit(pieces@),
            piece.fits(),
            off == piece.page_offset,
            len == piece.bytes,
            forall|i: int| 0 <= i < k ==> !(#[trigger] pieces@[i]).meets(piece),
        decreases pieces@.len() - k,
    {
        let other = pieces[k];
        assert(pieces@[k as int].fits());
        if (off < other.page_offset + other.bytes) != (off + len <= other.page_offset) {
            assert(pieces@[k as int].meets(piece));
            return true;
        }
        k += 1;
    }
    false
}

/// Adds the pieces of one segment page by page; false where one meets a piece that is there.
fn map_segment(pages: &mut PageMap, s: ElfSegment) -> (r: bool)
    requires
        old(pages).wf(),
        is_loaded(s),
        s.p_paddr + mapped_size(s) <= u64::MAX,
    ensures
        r == !(exists|p: int| clashes(old(pages)@, s, p)),
        r ==> final(pages).wf() && final(pages)@ == with_segment(
            old(pages)@,
            s,
            s.p_paddr + mapped_size(s),
        ),
{
    let ghost m = pages@;
    let mapped: u64 = if s.p_filesz < s.p_memsz {
        s.p_filesz
    } else {
        s.p_memsz
    };
    let ghost end: int = s.p_paddr + mapped;
    let mut addr: u64 = s.p_paddr;
    let mut remaining: u64 = mapped;
    let mut segment_offset: u64 = 0;
    let ghost mut q: int = s.p_paddr - s.p_paddr % 256;
    assert(pages@ =~= with_segment(m, s, q));
    while remaining > 0
        invariant
            pages.wf(),
            m == old(pages)@,
            is_loaded(s),
            mapped == mapped_size(s),
            end == s.p_paddr + mapped,
            end <= u64::MAX,
            addr + remaining == end,
            segment_offset == addr - s.p_paddr,
            q % 256 == 0,
            0 <= q,
            remaining > 0 ==> q <= addr < q + 256 && (addr == q || (addr == s.p_paddr && q < addr)),
            remaining == 0 ==> q >= end,
            pages@ == with_segment(m, s, q),
            forall|p: int| p < q ==> !#[trigger] clashes(m, s, p),
        decreases remaining,
    {
        let off: u64 = addr % 256;
        let len: u64 = if remaining < 256 - off {
            remaining
        } else {
            256 - off
        };
        let page_addr: u64 = addr - off;
        let piece = PageFragment { segment: s, segment_offset, page_offset: off, bytes: len };
        proof {
            assert(page_addr == q);
            assert(on_page(s, q));
            assert(piece == fragment_of(s, q));
            assert(pieces_at(pages@, q) == pieces_at(m, q));
        }
        if let Some(pieces) = pages.get(page_addr) {
            assert(pieces_at(m, q) == pieces@);
            if meets_any(pieces, piece) {
                assert(clashes(m, s, q));
                return false;
            }
        }
        assert(!clashes(m, s, q));
        let ghost before = pages@;
        pages.add(page_addr, piece);
        proof {
            assert(pages@ =~= with_segment(m, s, q + 256)) by {
                assert forall|p: int| q <= p < q + 256 && on_page(s, p) implies p == q by {}
            }
            assert forall|p: int| p < q + 256 implies !#[trigger] clashes(m, s, p) by {
                if q <= p && on_page(s, p) {
                    assert(p == q);
                }
            }
            q = q + 256;
        }
        addr += len;
        segment_offset += len;
        remaining -= len;
    }
    proof {
        assert forall|p: int| !#[trigger] clashes(m, s, p) by {
            if p >= q {
                assert(!on_page(s, p));
            }
        }
        assert(with_segment(m, s, q) =~= with_segment(m, s, end));
    }
    true
}

/// Each piece on a page comes from a contributing segment that touches the page.
pub proof fn lemma_piece_origin(
    ranges: Seq<AddressRange>,
    segments: Seq<ElfSegment>,
    n: nat,
    p: int,
    k: int,
) -> (j: int)
    requires
        0 <= k < fragments_on(ranges, segments, n, p).len(),
    ensures
        0 <= j < n,
        contributes(ranges, segments[j]),
        on_page(segments[j], p),
        fragments_on(ranges, segments, n, p)[k] == fragment_of(segments[j], p),
    decreases n,
{
    if k < fragments_on(ranges, segments, (n - 1) as nat, p).len() {
        lemma_piece_origin(ranges, segments, (n - 1) as nat, p, k)
    } else {
        n - 1
    }
}

/// Each contributing segment that touches a page has its piece there.
pub proof fn lemma_piece_of(
    ranges: Seq<AddressRange>,
    segments: Seq<ElfSegment>,
    n: nat,
    p: int,
    j: int,
) -> (k: int)
    requires
        0 <= j < n,
        contributes(ranges, segments[j]),
        on_page(segments[j], p),
    ensures
        0 <= k < fragments_on(ranges, segments, n, p).len(),
        fragments_on(ranges, segments, n, p)[k] == fragment_of(segments[j], p),
    decreases n,
{
    if j < n - 1 {
        lemma_piece_of(ranges, segments, (n - 1) as nat, p, j)
    } else {
        fragments_on(ranges, segments, n, p).len() - 1
    }
}

proof fn lemma_shared_byte_meets(e: ElfSegment, s: ElfSegment, a: int)
    requires
        e.p_paddr + mapped_size(e) <= u64::MAX,
        s.p_paddr + mapped_size(s) <= u64::MAX,
        covers(e, a),
        covers(s, a),
    ensures
        on_page(e, a - a % 256),
        on_page(s, a - a % 256),
        fragment_of(e, a - a % 256).meets(fragment_of(s, a - a % 256)),
{
}

proof fn lemma_meeting_shares_byte(e: ElfSegment, s: ElfSegment, p: int) -> (a: int)
    requires
        e.p_paddr + mapped_size(e) <= u64::MAX,
        s.p_paddr + mapped_size(s) <= u64::MAX,
        mapped_size(e) > 0,
        mapped_size(s) > 0,
        on_page(e, p),
        on_page(s, p),
        fragment_of(e, p).meets(fragment_of(s, p)),
    ensures
        covers(e, a),
        covers(s, a),
{
    let x = fragment_of(e, p);
    let y = fragment_of(s, p);
    if x.page_offset < y.page_offset {
        p + y.page_offset
    } else {
        p + x.page_offset
    }
}

proof fn lemma_contributing_fits(ranges: Seq<AddressRange>, s: ElfSegment)
    requires
        contributes(ranges, s),
    ensures
        s.p_paddr + mapped_size(s) <= u64::MAX,
{
    lemma_holding_below(ranges, s.p_paddr as int, mapped_size(s) as int, u64::MAX as int);
}

proof fn lemma_clash_is_overlap(ranges: Seq<AddressRange>, segments: Seq<ElfSegment>, n: nat)
    requires
        n < segments.len(),
        is_loaded(segments[n as int]),
        segments[n as int].p_paddr + mapped_size(segments[n as int]) <= u64::MAX,
    ensures
        overlaps_earlier(ranges, segments, n as int) <==> exists|p: int|
            clashes(segment_pages(ranges, segments, n), segments[n as int], p),
{
    let m = segment_pages(ranges, segments, n);
    let s = segments[n as int];
    if overlaps_earlier(ranges, segments, n as int) {
        let (j, a) = choose|j: int, a: int|
            0 <= j < n && contributes(ranges, segments[j]) && #[trigger] covers(segments[j], a)
                && covers(s, a);
        let p = a - a % 256;
        let e = segments[j];
        lemma_contributing_fits(ranges, e);
        lemma_shared_byte_meets(e, s, a);
        let f = fragments_on(ranges, segments, n, p);
        let k = lemma_piece_of(ranges, segments, n, p, j);
        assert(pieces_at(m, p) == f);
        assert(pieces_at(m, p)[k].meets(fragment_of(s, p)));
        assert(clashes(m, s, p));
    }
    if exists|p: int| clashes(m, s, p) {
        let p = choose|p: int| clashes(m, s, p);
        let f = fragments_on(ranges, segments, n, p);
        assert(pieces_at(m, p) == f) by {
            if f.len() == 0 {
                assert(f =~= Seq::<PageFragment>::empty());
            }
        }
        let k = choose|k: int| 0 <= k < f.len() && (#[trigger] f[k]).meets(fragment_of(s, p));
        let j = lemma_piece_origin(ranges, segments, n, p, k);
        lemma_contributing_fits(ranges, segments[j]);
        let a = lemma_meeting_shares_byte(segments[j], s, p);
        assert(covers(segments[j], a));
    }
}

proof fn lemma_pages_step(ranges: Seq<AddressRange>, segments: Seq<ElfSegment>, n: nat)
    requires
        n < segments.len(),
    ensures
        contributes(ranges, segments[n as int]) ==> segment_pages(ranges, segments, n + 1)
            == with_segment(
            segment_pages(ranges, segments, n),
            segments[n as int],
            segments[n as int].p_paddr + mapped_size(segments[n as int]),
        ),
        !contributes(ranges, segments[n as int]) ==> segment_pages(ranges, segments, n + 1)
            == segment_pages(ranges, segments, n),
{
    let m = segment_pages(ranges, segments, n);
    let m1 = segment_pages(ranges, segments, n + 1);
    let s = segments[n as int];
    assert forall|p: int| #![auto] true implies fragments_on(ranges, segments, n + 1, p) == (
    if contributes(ranges, s) && on_page(s, p) {
        fragments_on(ranges, segments, n, p).push(fragment_of(s, p))
    } else {
        fragments_on(ranges, segments, n, p)
    }) by {}
    if contributes(ranges, s) {
        let w = with_segment(m, s, s.p_paddr + mapped_size(s));
        assert forall|p: int| m1.dom().contains(p) implies m1[p] == w[p] by {
            if fragments_on(ranges, segments, n, p).len() == 0 {
                assert(fragments_on(ranges, segments, n, p) =~= Seq::<PageFragment>::empty());
            }
            assert(pieces_at(m, p) == fragments_on(ranges, segments, n, p));
        }
        assert(m1 =~= w);
    } else {
        assert(m1 =~= m);
    }
}

/// Places segment `n` behind the ones before it.
fn place_segment(
    ranges: &Vec<AddressRange>,
    segments: &Vec<ElfSegment>,
    n: usize,
    pages: &mut PageMap,
) -> (r: Result<(), AddressRangesFromElfError>)
    requires
        n < segments@.len(),
        old(pages).wf(),
        old(pages)@ == segment_pages(ranges@, segments@, n as nat),
        segment_ends_fit(ranges@, segments@, n as int),
    ensures
        (match r {
            Err(e) => segment_error(ranges@, segments@, n as int) == Some(e),
            Ok(()) => {
                &&& segment_error(ranges@, segments@, n as int) is None
                &&& final(pages).wf()
                &&& final(pages)@ == segment_pages(ranges@, segments@, n as nat + 1)
            },
        }),
{
    let s = segments[n];
    proof {
        lemma_pages_step(ranges@, segments@, n as nat);
    }
    let mapped: u64 = if s.p_filesz < s.p_memsz {
        s.p_filesz
    } else {
        s.p_memsz
    };
    if s.p_type == PT_LOAD && mapped > 0 {
        assert(is_loaded(segments@[n as int]));
        let range = match check_address_range(ranges, s.p_paddr, mapped, false) {
            Ok(range) => range,
            Err(e) => {
                return Err(e);
            },
        };
        if range.typ == AddressRangeType::Contents {
            proof {
                lemma_clash_is_overlap(ranges@, segments@, n as nat);
            }
            if !map_segment(pages, s) {
                return Err(AddressRangesFromElfError::SegmentsOverlap);
            }
            if s.p_memsz > s.p_filesz {
                match check_address_range(
                    ranges,
                    s.p_paddr + s.p_filesz,
                    s.p_memsz - s.p_filesz,
                    true,
                ) {
                    Ok(_) => {},
                    Err(e) => {
                        return Err(e);
                    },
                }
            }
        }
    }
    Ok(())
}

/// Places the segments of a file on pages.
///
/// Segments that bring nothing into memory are passed over.  Fails on the first
/// segment that no range holds, that puts contents into uninitialized memory or
/// that overlaps an earlier one.
pub fn check_elf32_ph_entries(ranges: &Vec<AddressRange>, image: &ElfImage) -> (r: Result<
    PageMap,
    AddressRangesFromElfError,
>)
    requires
        ends_fit(ranges@, image.segments@),
    ensures
        (match r {
            Err(e) => first_segment_error(ranges@, image.segments@, image.segments@.len()) == Some(
                e,
            ),
            Ok(pages) => {
                &&& first_segment_error(ranges@, image.segments@, image.segments@.len()) is None
                &&& pages.wf()
                &&& pages@ == segment_pages(ranges@, image.segments@, image.segments@.len())
            },
        }),
{
    let ghost segs = image.segments@;
    let count: usize = image.segments.len();
    let mut pages = PageMap::new();
    assert(pages@ =~= segment_pages(ranges@, segs, 0));
    let mut n: usize = 0;
    while n < count
        invariant
            segs == image.segments@,
            count == segs.len(),
            n <= count,
            ends_fit(ranges@, segs),
            pages.wf(),
            first_segment_error(ranges@, segs, n as nat) is None,
            pages@ == segment_pages(ranges@, segs, n as nat),
        decreases count - n,
    {
        assert(segment_ends_fit(ranges@, segs, n as int));
        proof {
            if first_segment_error(ranges@, segs, (n + 1) as nat) is Some {
                lemma_first_segment_error_stays(ranges@, segs, (n + 1) as nat, count as nat);
            }
        }
        match place_segment(ranges, &image.segments, n, &mut pages) {
            Ok(()) => {},
            Err(e) => {
                return Err(e);
            },
        }
        n += 1;
    }
    Ok(pages)
}

/// Whether the ends of the segments up to the first faulty one stay within 64 bits.
fn check_ends(ranges: &Vec<AddressRange>, segments: &Vec<ElfSegment>) -> (r: bool)
    ensures
        r == ends_fit(ranges@, segments@),
{
    let ghost segs = segments@;
    let count: usize = segments.len();
    let mut pages = PageMap::new();
    assert(pages@ =~= segment_pages(ranges@, segs, 0));
    let mut n: usize = 0;
    while n < count
        invariant
            segs == segments@,
            count == segs.len(),
            n <= count,
            pages.wf(),
            first_segment_error(ranges@, segs, n as nat) is None,
            pages@ == segment_pages(ranges@, segs, n as nat),
            forall|i: int| 0 <= i < n ==> #[trigger] segment_ends_fit(ranges@, segs, i),
        decreases count - n,
    {
        let s = segments[n];
        let mapped: u64 = if s.p_filesz < s.p_memsz {
            s.p_filesz
        } else {
            s.p_memsz
        };
        if s.p_type == PT_LOAD && mapped > 0 {
            assert(is_loaded(segs[n as int]));
            if mapped > u64::MAX - s.p_paddr {
                assert(!segment_ends_fit(ranges@, segs, n as int));
                return false;
            }
            if s.p_memsz > s.p_filesz && s.p_memsz > u64::MAX - s.p_paddr {
                let contents: bool = match check_address_range(ranges, s.p_paddr, mapped, false) {
                    Ok(range) => range.typ == AddressRangeType::Contents,
                    Err(_) => false,
                };
                if contents {
                    proof {
                        lemma_clash_is_overlap(ranges@, segs, n as nat);
                    }
                    if map_segment(&mut pages, s) {
                        assert(!segment_ends_fit(ranges@, segs, n as int));
                        return false;
                    }
                    proof {
                        assert(segment_error(ranges@, segs, n as int) is Some);
                        lemma_ends_fit_at_error(ranges@, segs, n as nat);
                    }
                    return true;
                }
            }
        }
        assert(segment_ends_fit(ranges@, segs, n as int));
        match place_segment(ranges, segments, n, &mut pages) {
            Ok(()) => {},
            Err(_) => {
                proof {
                    lemma_ends_fit_at_error(ranges@, segs, n as nat);
                }
                return true;
            },
        }
        n += 1;
    }
    true
}

proof fn lemma_ends_fit_at_error(ranges: Seq<AddressRange>, segments: Seq<ElfSegment>, n: nat)
    requires
        n < segments.len(),
        first_segment_error(ranges, segments, n) is None,
        segment_error(ranges, segments, n as int) is Some,
        forall|i: int| 0 <= i <= n ==> #[trigger] segment_ends_fit(ranges, segments, i),
    ensures
        ends_fit(ranges, segments),
{
    assert forall|i: int|
        0 <= i < segments.len() && first_segment_error(ranges, segments, i as nat) is None implies
        #[trigger] segment_ends_fit(ranges, segments, i) by {
        if i > n {
            lemma_first_segment_error_stays(ranges, segments, n + 1, i as nat);
        }
    }
}

// ---------------------------------------------------------------------------
// The page map of a file
// ---------------------------------------------------------------------------

/// Whether the file is a RAM binary, judged by the first loaded segment from index
/// `i` on that holds the entry point and lies in memory that is filled.
pub open spec fn ram_style(
    entry: u64,
    segments: Seq<ElfSegment>,
    family: Family,
    i: int,
) -> Option<bool>
    decreases segments.len() - i,
{
    if i >= segments.len() {
        None
    } else {
        let s = segments[i];
        let effective = s.p_paddr + (entry - s.p_vaddr);
        if !(is_loaded(s) && s.p_vaddr <= entry < s.p_vaddr + mapped_size(s)) {
            ram_style(entry, segments, family, i + 1)
        } else if initialized(address_ranges(family, true), effective) {
            Some(true)
        } else if initialized(address_ranges(family, false), effective) {
            Some(false)
        } else {
            ram_style(entry, segments, family, i + 1)
        }
    }
}

proof fn lemma_none_beyond(ranges: Seq<AddressRange>, addr: int)
    requires
        addr > u64::MAX,
    ensures
        first_holding(ranges, addr, 1) is None,
    decreases ranges.len(),
{
    if ranges.len() > 0 {
        lemma_none_beyond(ranges.drop_first(), addr);
    }
}

/// Whether the file is a RAM binary (`true`) or a flash binary (`false`); nothing
/// where its entry point lies in no memory that is filled.
pub fn is_ram_binary(image: &ElfImage, family: Family) -> (r: Option<bool>)
    ensures
        r == ram_style(image.entry, image.segments@, family, 0),
{
    let entry: u64 = image.entry;
    let ranges_ram = ranges_of(family, true);
    let ranges_flash = ranges_of(family, false);
    let mut i: usize = 0;
    while i < image.segments.len()
        invariant
            i <= image.segments@.len(),
            entry == image.entry,
            ranges_ram@ == address_ranges(family, true),
            ranges_flash@ == address_ranges(family, false),
            ram_style(entry, image.segments@, family, 0) == ram_style(
                entry,
                image.segments@,
                family,
                i as int,
            ),
        decreases image.segments@.len() - i,
    {
        let s = image.segments[i];
        let mapped: u64 = if s.p_filesz < s.p_memsz {
            s.p_filesz
        } else {
            s.p_memsz
        };
        if s.p_type == PT_LOAD && mapped > 0 {
            assert(is_loaded(image.segments@[i as int]));
            if entry >= s.p_vaddr && entry - s.p_vaddr < mapped {
                let offset: u64 = entry - s.p_vaddr;
                if offset <= u64::MAX - s.p_paddr {
                    let effective_entry: u64 = s.p_paddr + offset;
                    if is_address_initialized(&ranges_ram, effective_entry) {
                        return Some(true);
                    } else if is_address_initialized(&ranges_flash, effective_entry) {
                        return Some(false);
                    }
                } else {
                    proof {
                        lemma_none_beyond(ranges_ram@, s.p_paddr + offset);
                        lemma_none_beyond(ranges_flash@, s.p_paddr + offset);
                    }
                }
            }
        }
        i += 1;
    }
    None
}

/// Start and end of a family's main RAM.
pub open spec fn main_ram(family: Family) -> (u64, u64) {
    if family is RP2040 {
        (MAIN_RAM_START_RP2040, MAIN_RAM_END_RP2040)
    } else {
        (MAIN_RAM_START_RP2350, MAIN_RAM_END_RP2350)
    }
}

/// Whether `m` has a page in main RAM at `p`.
pub open spec fn ram_page(m: Map<int, Seq<PageFragment>>, family: Family, p: int) -> bool {
    m.dom().contains(p) && main_ram(family).0 <= p <= main_ram(family).1
}

/// The lowest page in main RAM.
pub open spec fn lowest_ram_page(m: Map<int, Seq<PageFragment>>, family: Family) -> Option<int> {
    if exists|p: int| ram_page(m, family, p) {
        Some(
            choose|p: int|
                ram_page(m, family, p) && (forall|q: int| #[trigger]
                    ram_page(m, family, q) ==> p <= q),
        )
    } else {
        None
    }
}

/// Whether a flash binary has to name the page at `p` too: a page of a sector that
/// is touched, below the last page.
pub open spec fn fills_sector(m: Map<int, Seq<PageFragment>>, p: int) -> bool {
    &&& 0 <= p
    &&& p % 256 == 0
    &&& exists|q: int| #[trigger] m.dom().contains(q) && q / 4096 == p / 4096
    &&& exists|q: int| #[trigger] m.dom().contains(q) && p < q
}

/// `m` with pages without pieces where touched sectors would have holes.
pub open spec fn with_filled_sectors(m: Map<int, Seq<PageFragment>>) -> Map<
    int,
    Seq<PageFragment>,
> {
    Map::new(
        |p: int| m.dom().contains(p) || fills_sector(m, p),
        |p: int| pieces_at(m, p),
    )
}

/// The pages of a file for a family of devices, or why there are none.
#[verifier::opaque]
pub open spec fn page_plan(entry: u64, segments: Seq<ElfSegment>, family: Family) -> Result<
    Map<int, Seq<PageFragment>>,
    Elf2Uf2Error,
> {
    match ram_style(entry, segments, family, 0) {
        None => Err(Elf2Uf2Error::EntryPointNotMapped),
        Some(ram) => {
            let ranges = address_ranges(family, ram);
            let m = segment_pages(ranges, segments, segments.len());
            match first_segment_error(ranges, segments, segments.len()) {
                Some(e) => Err(Elf2Uf2Error::FailedToGetPagesFromRanges(e)),
                None => if !(exists|p: int| m.dom().contains(p)) {
                    Err(Elf2Uf2Error::InputFileNoMemoryPages)
                } else if ram {
                    match lowest_ram_page(m, family) {
                        None => Err(Elf2Uf2Error::DirectEntryIntoXipSram),
                        Some(p) => if entry != p + 1 {
                            Err(Elf2Uf2Error::RamBinaryEntryPoint((p + 1) as u32, entry as u32))
                        } else {
                            Ok(m)
                        },
                    }
                } else {
                    Ok(with_filled_sectors(m))
                },
            }
        },
    }
}

/// The lowest page in main RAM.
fn find_lowest_ram_page(pages: &PageMap, family: Family) -> (r: Option<u64>)
    requires
        pages.wf(),
    ensures
        r is Some <==> lowest_ram_page(pages@, family) is Some,
        r matches Some(p) ==> lowest_ram_page(pages@, family) == Some(p as int) && p
            <= main_ram(family).1,
{
    let (start, end): (u64, u64) = match family {
        Family::RP2040 => (MAIN_RAM_START_RP2040, MAIN_RAM_END_RP2040),
        _ => (MAIN_RAM_START_RP2350, MAIN_RAM_END_RP2350),
    };
    let ghost m = pages@;
    let keys = pages.addresses();
    proof {
        law_page_addresses(m);
    }
    let mut i: usize = 0;
    while i < keys.len()
        invariant
            i <= keys@.len(),
            (start, end) == main_ram(family),
            forall|k: int| 0 <= k < i ==> !(start <= (#[trigger] keys@[k]) <= end),
        ensures
            i <= keys@.len(),
            forall|k: int| 0 <= k < i ==> !(start <= (#[trigger] keys@[k]) <= end),
            i < keys@.len() ==> start <= keys@[i as int] <= end,
        decreases keys@.len() - i,
    {
        if keys[i] >= start && keys[i] <= end {
            break;
        }
        i += 1;
    }
    assert forall|q: int| #[trigger] ram_page(m, family, q) implies i < keys@.len() && keys@[i as int]
        <= q by {
        assert(keys@.contains(q as u64));
        let k = choose|k: int| 0 <= k < keys@.len() && keys@[k] == q as u64;
        assert(k >= i);
    }
    if i < keys.len() {
        proof {
            let addr = keys@[i as int] as int;
            assert(ram_page(m, family, addr));
            let p = lowest_ram_page(m, family)->0;
            assert(ram_page(m, family, p) && (forall|q: int| #[trigger]
                ram_page(m, family, q) ==> p <= q));
            assert(p == addr);
        }
        Some(keys[i])
    } else {
        None
    }
}

/// The pages that the sectors of the first `k` of `keys` add to `m`, and of the next
/// sector the first `i` pages.
spec fn filled_so_far(
    m: Map<int, Seq<PageFragment>>,
    keys: Seq<u64>,
    k: int,
    i: int,
    last: int,
) -> Map<int, Seq<PageFragment>> {
    Map::new(
        |p: int|
            m.dom().contains(p) || (0 <= p < last && p % 256 == 0 && ((exists|j: int|
                0 <= j < k && (#[trigger] keys[j]) as int / 4096 == p / 4096) || (0 <= k
                < keys.len() && keys[k] as int / 4096 == p / 4096 && (p % 4096) / 256 < i))),
        |p: int| pieces_at(m, p),
    )
}

/// One page more of the sector of the `k`th key.
proof fn lemma_fill_step(
    m: Map<int, Seq<PageFragment>>,
    keys: Seq<u64>,
    k: int,
    i: int,
    last: int,
)
    requires
        0 <= k < keys.len(),
        0 <= i < 16,
    ensures
        ({
            let before = filled_so_far(m, keys, k, i, last);
            let page = keys[k] - keys[k] % 4096 + 256 * i;
            filled_so_far(m, keys, k, i + 1, last) == if page < last && !before.dom().contains(
                page,
            ) {
                before.insert(page, Seq::<PageFragment>::empty())
            } else {
                before
            }
        }),
{
    let before = filled_so_far(m, keys, k, i, last);
    let after = filled_so_far(m, keys, k, i + 1, last);
    let page = keys[k] - keys[k] % 4096 + 256 * i;
    assert(page / 4096 == keys[k] as int / 4096 && (page % 4096) / 256 == i && page % 256 == 0);
    assert forall|p: int|
        #![trigger after.dom().contains(p)]
        after.dom().contains(p) <==> (before.dom().contains(p) || (page < last && p == page)) by {
        if keys[k] as int / 4096 == p / 4096 && p % 256 == 0 && (p % 4096) / 256 == i {
            assert(p == page);
        }
    }
    if page < last && !before.dom().contains(page) {
        assert(after =~= before.insert(page, Seq::<PageFragment>::empty()));
    } else {
        assert(after =~= before);
    }
}

/// Adds the pages without pieces that touched sectors need.
fn fill_sectors(pages: &mut PageMap)
    requires
        old(pages).wf(),
        exists|p: int| old(pages)@.dom().contains(p),
    ensures
        final(pages).wf(),
        final(pages)@ == with_filled_sectors(old(pages)@),
{
    let ghost m = pages@;
    let keys = pages.addresses();
    let count: usize = keys.len();
    proof {
        law_page_addresses(m);
        assert forall|p: int| #[trigger] m.dom().contains(p) <==> exists|j: int|
            0 <= j < keys@.len() && keys@[j] == p by {
            if m.dom().contains(p) {
                assert(keys@.contains(p as u64));
                let j = choose|j: int| 0 <= j < keys@.len() && keys@[j] == p as u64;
                assert(keys@[j] == p);
            }
        }
        let p = choose|p: int| m.dom().contains(p);
        assert(m.dom().contains(p));
    }
    let last: u64 = keys[count - 1];
    proof {
        assert forall|j: int| 0 <= j < keys@.len() implies #[trigger] keys@[j] <= last by {}
        assert(pages@ =~= filled_so_far(m, keys@, 0, 0, last as int));
    }
    let mut k: usize = 0;
    while k < count
        invariant
            pages.wf(),
            count == keys@.len(),
            k <= count,
            pages@ == filled_so_far(m, keys@, k as int, 0, last as int),
        decreases count - k,
    {
        let base: u64 = keys[k] - keys[k] % 4096;
        let mut i: u64 = 0;
        while i < 16
            invariant
                pages.wf(),
                count == keys@.len(),
                k < count,
                base == keys@[k as int] - keys@[k as int] % 4096,
                i <= 16,
                pages@ == filled_so_far(m, keys@, k as int, i as int, last as int),
            decreases 16 - i,
        {
            let page: u64 = base + 256 * i;
            proof {
                lemma_fill_step(m, keys@, k as int, i as int, last as int);
            }
            if page < last {
                pages.add_empty(page);
            }
            i += 1;
        }
        proof {
            let a = filled_so_far(m, keys@, k as int, 16, last as int);
            let b = filled_so_far(m, keys@, k + 1, 0, last as int);
            assert forall|p: int| #![trigger a.dom().contains(p)]
                a.dom().contains(p) <==> b.dom().contains(p) by {
                if keys@[k as int] as int / 4096 == p / 4096 {
                    assert((p % 4096) / 256 < 16);
                }
                if exists|j: int| 0 <= j < k + 1 && (#[trigger] keys@[j]) as int / 4096 == p / 4096 {
                    let j = choose|j: int|
                        0 <= j < k + 1 && (#[trigger] keys@[j]) as int / 4096 == p / 4096;
                    if j == k {
                        assert((p % 4096) / 256 < 16);
                    }
                }
            }
            assert(a =~= b);
        }
        k += 1;
    }
    proof {
        let want = with_filled_sectors(m);
        assert forall|p: int|
            #![trigger want.dom().contains(p)]
            #![trigger pages@.dom().contains(p)]
            pages@.dom().contains(p) <==> want.dom().contains(p) by {
            if fills_sector(m, p) {
                let q = choose|q: int| #[trigger] m.dom().contains(q) && q / 4096 == p / 4096;
                let j = choose|j: int| 0 <= j < keys@.len() && keys@[j] == q;
                assert(keys@[j] as int / 4096 == p / 4096);
                let q2 = choose|q: int| #[trigger] m.dom().contains(q) && p < q;
                let j2 = choose|j: int| 0 <= j < keys@.len() && keys@[j] == q2;
                assert(keys@[j2] <= last);
            }
            if pages@.dom().contains(p) && !m.dom().contains(p) {
                let j = choose|j: int|
                    0 <= j < keys@.len() && (#[trigger] keys@[j]) as int / 4096 == p / 4096;
                assert(m.dom().contains(keys@[j] as int));
                assert(m.dom().contains(last as int)) by {
                    assert(keys@[count - 1] == last);
                }
            }
        }
        assert(pages@ =~= want);
    }
}

/// The pages of a file for a family of devices.
///
/// A RAM binary must start at its lowest page in main RAM.  A flash binary gets
/// pages without contents where it would leave holes in a sector that it touches.
pub fn build_page_map(image: &ElfImage, family: Family) -> (r: Result<PageMap, Elf2Uf2Error>)
    requires
        plan_defined(image.entry, image.segments@, family),
    ensures
        (match r {
            Err(e) => page_plan(image.entry, image.segments@, family) == Err::<
                Map<int, Seq<PageFragment>>,
                Elf2Uf2Error,
            >(e),
            Ok(pages) => pages.wf() && page_plan(image.entry, image.segments@, family) == Ok::<
                Map<int, Seq<PageFragment>>,
                Elf2Uf2Error,
            >(pages@),
        }),
{
    reveal(page_plan);
    let ram = match is_ram_binary(image, family) {
        None => {
            return Err(Elf2Uf2Error::EntryPointNotMapped);
        },
        Some(ram) => ram,
    };
    let ranges = ranges_of(family, ram);
    let mut pages = match check_elf32_ph_entries(&ranges, image) {
        Err(e) => {
            return Err(Elf2Uf2Error::FailedToGetPagesFromRanges(e));
        },
        Ok(pages) => pages,
    };
    let ghost m = pages@;
    if pages.is_empty() {
        return Err(Elf2Uf2Error::InputFileNoMemoryPages);
    }
    if ram {
        match find_lowest_ram_page(&pages, family) {
            None => {
                return Err(Elf2Uf2Error::DirectEntryIntoXipSram);
            },
            Some(addr) => {
                let expected_ep: u64 = addr + 1;
                if image.entry != expected_ep {
                    return Err(
                        Elf2Uf2Error::RamBinaryEntryPoint(expected_ep as u32, image.entry as u32),
                    );
                }
            },
        }
    } else {
        fill_sectors(&mut pages);
    }
    Ok(pages)
}

// ---------------------------------------------------------------------------
// Output
// ---------------------------------------------------------------------------

/// Whether a file of `len` bytes holds the whole segment that the piece is from.
pub open spec fn available(len: nat, f: PageFragment) -> bool {
    f.segment.p_offset + f.segment.p_filesz <= len
}

/// Whether a file of `len` bytes holds the segments of all pieces.
pub open spec fn page_available(len: nat, f: Seq<PageFragment>) -> bool {
    forall|k: int| 0 <= k < f.len() ==> available(len, #[trigger] f[k])
}

/// The bytes of the file that make up the piece.
pub open spec fn fragment_bytes(file: Seq<u8>, f: PageFragment) -> Seq<u8> {
    file.subrange(
        f.segment.p_offset + f.segment_offset,
        f.segment.p_offset + f.segment_offset + f.bytes,
    )
}

/// A page with its first `k` pieces filled in and zeros elsewhere.
pub open spec fn page_bytes(file: Seq<u8>, f: Seq<PageFragment>, k: nat) -> Seq<u8>
    decreases k,
{
    if k == 0 {
        Seq::new(256, |i: int| 0u8)
    } else {
        splice(
            page_bytes(file, f, (k - 1) as nat),
            f[k - 1].page_offset as int,
            fragment_bytes(file, f[k - 1]),
        )
    }
}

/// How many leading pages can be filled from a file of `len` bytes.
pub open spec fn fillable(len: nat, pages: Seq<PageEntry>) -> nat
    decreases pages.len(),
{
    if pages.len() == 0 || !page_available(len, pages[0].1) {
        0
    } else {
        1 + fillable(len, pages.drop_first())
    }
}

/// The blocks for the first `k` of `pages`.
pub open spec fn elf_blocks(file: Seq<u8>, pages: Seq<PageEntry>, family: Family, k: nat) -> Seq<u8>
    decreases k,
{
    if k == 0 {
        Seq::empty()
    } else {
        elf_blocks(file, pages, family, (k - 1) as nat) + block(
            pages[k - 1].0 as u32,
            page_bytes(file, pages[k - 1].1, pages[k - 1].1.len()),
            (k - 1) as u32,
            pages.len() as u32,
            family.spec_id(),
        )
    }
}

/// Segments whose data was read already.
struct SegmentCache {
    entries: Vec<(ElfSegment, Vec<u8>)>,
}

impl SegmentCache {
    spec fn wf(self, file: Seq<u8>) -> bool {
        forall|i: int|
            0 <= i < self.entries@.len() ==> {
                let s = (#[trigger] self.entries@[i]).0;
                &&& s.p_offset + s.p_filesz <= file.len()
                &&& self.entries@[i].1@ == file.subrange(
                    s.p_offset as int,
                    s.p_offset + s.p_filesz,
                )
            }
    }

    /// The index of the segment's data, which is read on first use.
    fn load(&mut self, file: &[u8], segment: &ElfSegment) -> (r: Result<usize, ParseError>)
        requires
            old(self).wf(file@),
            elf_image(file@) is Some,
        ensures
            final(self).wf(file@),
            r is Ok <==> segment.p_offset + segment.p_filesz <= file@.len(),
            r matches Ok(i) ==> i < final(self).entries@.len() && final(self).entries@[i as int].0
                == *segment,
    {
        let mut i: usize = 0;
        while i < self.entries.len()
            invariant
                i <= self.entries@.len(),
                self.wf(file@),
                *self == *old(self),
            decreases self.entries@.len() - i,
        {
            if self.entries[i].0 == *segment {
                return Ok(i);
            }
            i += 1;
        }
        match segment_data(file, segment) {
            Ok(data) => {
                self.entries.push((*segment, data));
                Ok(i)
            },
            Err(e) => Err(e),
        }
    }
}

/// Fills `buf` with the pieces of a page.
fn realize_page(
    file: &[u8],
    cache: &mut SegmentCache,
    fragments: &Vec<PageFragment>,
    buf: &mut Vec<u8>,
) -> (r: Result<(), ParseError>)
    requires
        elf_image(file@) is Some,
        old(cache).wf(file@),
        all_fit(fragments@),
        old(buf)@ == Seq::new(256, |i: int| 0u8),
    ensures
        final(cache).wf(file@),
        r is Ok <==> page_available(file@.len(), fragments@),
        r is Ok ==> final(buf)@ == page_bytes(file@, fragments@, fragments@.len()),
{
    let mut k: usize = 0;
    while k < fragments.len()
        invariant
            k <= fragments@.len(),
            elf_image(file@) is Some,
            cache.wf(file@),
            all_fit(fragments@),
            buf@ == page_bytes(file@, fragments@, k as nat),
            buf@.len() == 256,
            forall|i: int| 0 <= i < k ==> available(file@.len(), #[trigger] fragments@[i]),
        decreases fragments@.len() - k,
    {
        let frag = fragments[k];
        assert(fragments@[k as int].fits());
        let at: usize = match cache.load(file, &frag.segment) {
            Ok(at) => at,
            Err(e) => {
                assert(!available(file@.len(), fragments@[k as int]));
                return Err(e);
            },
        };
        let data = &cache.entries[at].1;
        let ghost d = cache.entries@[at as int].1@;
        let size: usize = data.len();
        assert(frag.segment_offset + frag.bytes <= size);
        let start: usize = frag.segment_offset as usize;
        let end: usize = start + frag.bytes as usize;
        write_at(buf, frag.page_offset as usize, data.as_slice(), start, end);
        proof {
            assert(d.subrange(start as int, end as int) =~= fragment_bytes(file@, frag));
        }
        k += 1;
    }
    Ok(())
}

/// Appends one block per page to `output`, in ascending order of the addresses.
///
/// Fails on the first page with a piece of a segment that the file does not hold
/// in full; the blocks of the pages before it are written by then.
pub fn write_elf_output(
    file: &[u8],
    pages: &PageMap,
    output: &mut Vec<u8>,
    family: Family,
) -> (r: Result<(), Elf2Uf2Error>)
    requires
        elf_image(file@) is Some,
        pages.wf(),
    ensures
        final(output)@ == old(output)@ + elf_blocks(
            file@,
            page_list(pages@),
            family,
            fillable(file@.len(), page_list(pages@)),
        ),
        r is Ok <==> fillable(file@.len(), page_list(pages@)) == page_list(pages@).len(),
        r matches Err(e) ==> e is FailedToRealizePages,
{
    let ghost entries = page_list(pages@);
    let ghost len = file@.len();
    let keys = pages.addresses();
    let num_blocks: u32 = keys.len() as u32;
    let mut cache = SegmentCache { entries: Vec::new() };
    let mut i: usize = 0;
    proof {
        assert(entries.skip(0) =~= entries);
        assert(output@ =~= old(output)@ + elf_blocks(file@, entries, family, 0));
    }
    while i < keys.len()
        invariant
            i <= keys@.len(),
            elf_image(file@) is Some,
            pages.wf(),
            cache.wf(file@),
            keys@ == page_addresses(pages@),
            entries == page_list(pages@),
            len == file@.len(),
            num_blocks == entries.len() as u32,
            fillable(len, entries) == i + fillable(len, entries.skip(i as int)),
            output@ == old(output)@ + elf_blocks(file@, entries, family, i as nat),
        decreases keys@.len() - i,
    {
        let addr: u64 = keys[i];
        proof {
            assert(entries[i as int] == (addr, pages@[addr as int]));
            assert(entries.skip(i as int)[0] == entries[i as int]);
            assert(entries.skip(i as int).drop_first() =~= entries.skip(i + 1));
            law_page_addresses(pages@);
        }
        let mut buf: Vec<u8> = Vec::new();
        push_fill(&mut buf, 0, 256);
        assert(buf@ =~= Seq::new(256, |i: int| 0u8));
        if let Some(fragments) = pages.get(addr) {
            match realize_page(file, &mut cache, fragments, &mut buf) {
                Ok(()) => {},
                Err(e) => {
                    return Err(Elf2Uf2Error::FailedToRealizePages(e));
                },
            }
        }
        write_block(output, addr as u32, buf.as_slice(), i as u32, num_blocks, family.id());
        i += 1;
        assert(output@ =~= old(output)@ + elf_blocks(file@, entries, family, i as nat));
    }
    assert(entries.skip(i as int).len() == 0);
    Ok(())
}

/// Whether planning the pages of a file keeps all ends within 64 bits.
pub open spec fn plan_defined(entry: u64, segments: Seq<ElfSegment>, family: Family) -> bool {
    ram_style(entry, segments, family, 0) matches Some(ram) ==> ends_fit(
        address_ranges(family, ram),
        segments,
    )
}

/// Whether converting a file, if it can be opened, keeps all ends within 64 bits.
pub open spec fn convertible(input: Seq<u8>, family: Family) -> bool {
    elf_image(input) matches Some(image) ==> plan_defined(image.0, image.1, family)
}

proof fn lemma_holding_below(ranges: Seq<AddressRange>, addr: int, size: int, bound: int)
    requires
        forall|i: int| 0 <= i < ranges.len() ==> (#[trigger] ranges[i]).to <= bound,
    ensures
        first_holding(ranges, addr, size) is Some ==> addr + size <= bound,
    decreases ranges.len(),
{
    if ranges.len() > 0 {
        let rest = ranges.drop_first();
        assert forall|i: int| 0 <= i < rest.len() implies (#[trigger] rest[i]).to <= bound by {
            assert(rest[i] == ranges[i + 1]);
        }
        lemma_holding_below(rest, addr, size, bound);
    }
}

proof fn lemma_ranges_below(family: Family, ram: bool)
    ensures
        forall|i: int|
            0 <= i < address_ranges(family, ram).len() ==> (#[trigger] address_ranges(
                family,
                ram,
            )[i]).to <= 0x2104_0000,
{
}

proof fn lemma_segment_page(
    ranges: Seq<AddressRange>,
    segments: Seq<ElfSegment>,
    n: nat,
    p: int,
)
    requires
        segment_pages(ranges, segments, n).dom().contains(p),
        forall|i: int| 0 <= i < ranges.len() ==> (#[trigger] ranges[i]).to <= 0x2104_0000,
    ensures
        0 <= p < 0x2104_0000,
        p % 256 == 0,
{
    let j = lemma_piece_origin(ranges, segments, n, p, 0);
    let s = segments[j];
    lemma_holding_below(ranges, s.p_paddr as int, mapped_size(s) as int, 0x2104_0000);
}

pub proof fn lemma_plan_cases(entry: u64, segments: Seq<ElfSegment>, family: Family)
    requires
        page_plan(entry, segments, family) is Ok,
    ensures
        ({
            let ranges = address_ranges(family, ram_style(entry, segments, family, 0)->0);
            let m = segment_pages(ranges, segments, segments.len());
            let plan = page_plan(entry, segments, family)->Ok_0;
            plan == m || plan == with_filled_sectors(m)
        }),
{
    reveal(page_plan);
}

/// The pages of a plan lie within the memory of the devices, at multiples of the page
/// size, and each carries the pieces that the segments put on it.
pub proof fn law_plan_pages(entry: u64, segments: Seq<ElfSegment>, family: Family, p: int)
    requires
        page_plan(entry, segments, family) matches Ok(m) && m.dom().contains(p),
    ensures
        0 <= p < 0x2104_0000,
        p % 256 == 0,
        (page_plan(entry, segments, family)->Ok_0)[p] == fragments_on(
            address_ranges(family, ram_style(entry, segments, family, 0)->0),
            segments,
            segments.len(),
            p,
        ),
{
    lemma_plan_cases(entry, segments, family);
    let ram = ram_style(entry, segments, family, 0)->0;
    let plan = page_plan(entry, segments, family)->Ok_0;
    lemma_ranges_below(family, ram);
    let ranges = address_ranges(family, ram);
    lemma_page_of_either(ranges, segments, segments.len(), plan, p);
}

proof fn lemma_page_of_either(
    ranges: Seq<AddressRange>,
    segments: Seq<ElfSegment>,
    n: nat,
    plan: Map<int, Seq<PageFragment>>,
    p: int,
)
    requires
        plan == segment_pages(ranges, segments, n) || plan == with_filled_sectors(
            segment_pages(ranges, segments, n),
        ),
        plan.dom().contains(p),
        forall|i: int| 0 <= i < ranges.len() ==> (#[trigger] ranges[i]).to <= 0x2104_0000,
    ensures
        0 <= p < 0x2104_0000,
        p % 256 == 0,
        plan[p] == fragments_on(ranges, segments, n, p),
{
    let m = segment_pages(ranges, segments, n);
    if m.dom().contains(p) {
        lemma_segment_page(ranges, segments, n, p);
    } else {
        assert(fills_sector(m, p));
        let q = choose|q: int| #[trigger] m.dom().contains(q) && p < q;
        lemma_segment_page(ranges, segments, n, q);
        assert(fragments_on(ranges, segments, n, p) =~= Seq::<PageFragment>::empty());
    }
}

/// Converts an ELF file into UF2 format.
///
/// The blocks are appended to `output`.
pub fn elf2uf2(input: &[u8], output: &mut Vec<u8>, family: Family) -> (r: Result<(), Elf2Uf2Error>)
    requires
        convertible(input@, family),
    ensures
        (match elf_image(input@) {
            None => {
                &&& r matches Err(e) && e is FailedToOpenElfFile
                &&& final(output)@ == old(output)@
            },
            Some((entry, segments)) => match page_plan(entry, segments, family) {
                Err(e) => r == Err::<(), Elf2Uf2Error>(e) && final(output)@ == old(output)@,
                Ok(m) => {
                    let pages = page_list(m);
                    let k = fillable(input@.len(), pages);
                    &&& final(output)@ == old(output)@ + elf_blocks(input@, pages, family, k)
                    &&& k == pages.len() ==> r is Ok
                    &&& k != pages.len() ==> (r matches Err(e) && e is FailedToRealizePages)
                },
            },
        }),
{
    let image = match parse_elf(input) {
        Ok(image) => image,
        Err(e) => {
            return Err(Elf2Uf2Error::FailedToOpenElfFile(e));
        },
    };
    let pages = match build_page_map(&image, family) {
        Ok(pages) => pages,
        Err(e) => {
            return Err(e);
        },
    };
    write_elf_output(input, &pages, output, family)
}

/// Whether planning the pages of a file keeps all ends within 64 bits.
fn check_plan(image: &ElfImage, family: Family) -> (r: bool)
    ensures
        r == plan_defined(image.entry, image.segments@, family),
{
    match is_ram_binary(image, family) {
        Some(ram) => check_ends(&ranges_of(family, ram), &image.segments),
        None => true,
    }
}

/// Converts an ELF file into UF2 format, unless a segment that is placed ends beyond
/// 64 bits: then nothing is done and there is no result.
pub fn try_elf2uf2(input: &[u8], output: &mut Vec<u8>, family: Family) -> (r: Option<
    Result<(), Elf2Uf2Error>,
>)
    ensures
        r is None <==> !convertible(input@, family),
        r is None ==> final(output)@ == old(output)@,
        r matches Some(result) ==> (match elf_image(input@) {
            None => {
                &&& result matches Err(e) && e is FailedToOpenElfFile
                &&& final(output)@ == old(output)@
            },
            Some((entry, segments)) => match page_plan(entry, segments, family) {
                Err(e) => result == Err::<(), Elf2Uf2Error>(e) && final(output)@ == old(output)@,
                Ok(m) => {
                    let pages = page_list(m);
                    let k = fillable(input@.len(), pages);
                    &&& final(output)@ == old(output)@ + elf_blocks(input@, pages, family, k)
                    &&& k == pages.len() ==> result is Ok
                    &&& k != pages.len() ==> (result matches Err(e) && e is FailedToRealizePages)
                },
            },
        }),
{
    match parse_elf(input) {
        Ok(image) => {
            if !check_plan(&image, family) {
                return None;
            }
        },
        Err(_) => {},
    }
    Some(elf2uf2(input, output, family))
}

// ---------------------------------------------------------------------------
// Laws
// ---------------------------------------------------------------------------

/// The byte that the first `n` segments give for address `a`, zero where none does.
pub open spec fn image_byte(
    file: Seq<u8>,
    ranges: Seq<AddressRange>,
    segments: Seq<ElfSegment>,
    n: nat,
    a: int,
) -> u8
    decreases n,
{
    if n == 0 {
        0
    } else {
        let s = segments[n - 1];
        if contributes(ranges, s) && covers(s, a) {
            file[s.p_offset + (a - s.p_paddr)]
        } else {
            image_byte(file, ranges, segments, (n - 1) as nat, a)
        }
    }
}

/// Every byte of a filled page is the file byte that the segments put at its
/// address, and zero where no segment puts one.
pub proof fn law_page_holds_image(
    file: Seq<u8>,
    ranges: Seq<AddressRange>,
    segments: Seq<ElfSegment>,
    n: nat,
    p: int,
    j: int,
)
    requires
        n <= segments.len(),
        p % 256 == 0,
        0 <= p,
        0 <= j < 256,
        page_available(file.len(), fragments_on(ranges, segments, n, p)),
    ensures
        ({
            let f = fragments_on(ranges, segments, n, p);
            &&& page_bytes(file, f, f.len()).len() == 256
            &&& page_bytes(file, f, f.len())[j] == image_byte(file, ranges, segments, n, p + j)
        }),
    decreases n,
{
    let f = fragments_on(ranges, segments, n, p);
    if n > 0 {
        let rest = fragments_on(ranges, segments, (n - 1) as nat, p);
        let s = segments[n - 1];
        assert forall|k: int| 0 <= k < rest.len() implies available(
            file.len(),
            #[trigger] rest[k],
        ) by {
            assert(f[k] == rest[k]);
        }
        law_page_holds_image(file, ranges, segments, (n - 1) as nat, p, j);
        if contributes(ranges, s) && on_page(s, p) {
            lemma_contributing_fits(ranges, s);
            lemma_page_bytes_prefix(file, rest, f, rest.len());
            assert(f[f.len() - 1] == fragment_of(s, p));
            assert(available(file.len(), f[f.len() - 1]));
            let piece = fragment_bytes(file, f[f.len() - 1]);
            assert(piece.len() == f[f.len() - 1].bytes);
        } else {
            assert(!(contributes(ranges, s) && covers(s, p + j)));
        }
    }
}

proof fn lemma_page_bytes_prefix(
    file: Seq<u8>,
    a: Seq<PageFragment>,
    b: Seq<PageFragment>,
    k: nat,
)
    requires
        k <= a.len(),
        k <= b.len(),
        forall|i: int| 0 <= i < k ==> (#[trigger] a[i]) == b[i],
    ensures
        page_bytes(file, a, k) == page_bytes(file, b, k),
    decreases k,
{
    if k > 0 {
        lemma_page_bytes_prefix(file, a, b, (k - 1) as nat);
        assert(a[k - 1] == b[k - 1]);
    }
}

/// In segments without error a byte that a segment brings is the byte of the image:
/// no other segment brings one to the same address.
pub proof fn law_segment_bytes_are_kept(
    file: Seq<u8>,
    ranges: Seq<AddressRange>,
    segments: Seq<ElfSegment>,
    n: nat,
    i: int,
    a: int,
)
    requires
        0 <= i < n <= segments.len(),
        first_segment_error(ranges, segments, n) is None,
        contributes(ranges, segments[i]),
        covers(segments[i], a),
    ensures
        image_byte(file, ranges, segments, n, a) == file[segments[i].p_offset + (a
            - segments[i].p_paddr)],
    decreases n,
{
    if i < n - 1 {
        let s = segments[n - 1];
        if contributes(ranges, s) && covers(s, a) {
            assert(segment_error(ranges, segments, n - 1) is None);
            assert(covers(segments[i], a) && covers(segments[n - 1], a));
            assert(overlaps_earlier(ranges, segments, n - 1));
            assert(false);
        }
        law_segment_bytes_are_kept(file, ranges, segments, (n - 1) as nat, i, a);
    }
}

/// Block `i` of the output carries page `i` at its address, and is numbered so.
pub proof fn law_elf_blocks(file: Seq<u8>, pages: Seq<PageEntry>, family: Family, k: nat)
    requires
        k <= pages.len(),
    ensures
        elf_blocks(file, pages, family, k).len() == 512 * k,
        forall|i: int|
            0 <= i < k ==> #[trigger] block_at(elf_blocks(file, pages, family, k), i) == block(
                pages[i].0 as u32,
                page_bytes(file, pages[i].1, pages[i].1.len()),
                i as u32,
                pages.len() as u32,
                family.spec_id(),
            ),
    decreases k,
{
    if k > 0 {
        let rest = elf_blocks(file, pages, family, (k - 1) as nat);
        let all = elf_blocks(file, pages, family, k);
        law_elf_blocks(file, pages, family, (k - 1) as nat);
        law_block_fields(
            pages[k - 1].0 as u32,
            page_bytes(file, pages[k - 1].1, pages[k - 1].1.len()),
            (k - 1) as u32,
            pages.len() as u32,
            family.spec_id(),
        );
        assert forall|i: int| 0 <= i < k implies #[trigger] block_at(all, i) == block(
            pages[i].0 as u32,
            page_bytes(file, pages[i].1, pages[i].1.len()),
            i as u32,
            pages.len() as u32,
            family.spec_id(),
        ) by {
            if i < k - 1 {
                assert(block_at(all, i) =~= block_at(rest, i));
            } else {
                assert(block_at(all, i) =~= block(
                    pages[i].0 as u32,
                    page_bytes(file, pages[i].1, pages[i].1.len()),
                    i as u32,
                    pages.len() as u32,
                    family.spec_id(),
                ));
            }
        }
    }
}

} // verus!
