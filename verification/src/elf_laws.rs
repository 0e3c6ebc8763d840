//! What converting an ELF file promises, in terms of the file's program headers, its bytes
//! and the memory map of the devices.

use vstd::prelude::*;

use crate::elf2uf2::{
    address_ranges, available, checked_range, contributes, covers, elf_blocks, ends_fit,
    fillable, first_holding, first_segment_error, image_byte, initialized, is_loaded,
    law_elf_blocks, law_plan_pages, law_segment_bytes_are_kept, lemma_piece_of,
    lemma_piece_origin, lemma_plan_cases, lowest_ram_page, main_ram, mapped_size, on_page,
    overlaps_earlier, page_available, page_bytes, page_plan, plan_defined, ram_page, ram_style,
    segment_ends_fit, segment_error, segment_pages, AddressRange, AddressRangesFromElfError,
    Elf2Uf2Error,
};
use crate::flash::{
    law_elf_flashing_ends, lemma_all_fillable, lemma_listed_bytes, lemma_listed_order,
    lemma_listed_page, lemma_page_is_listed,
};
use crate::le::word_at;
use crate::memory::Memory;
use crate::pages::{page_list, ElfSegment, PageEntry, PageFragment};
use crate::uf2::{block_at, block_regions, data_field, law_block_fields, Family};
use crate::write::{run_write, write_start};

verus! {

// ---------------------------------------------------------------------------
// The memory map
// ---------------------------------------------------------------------------

/// Whether the `size` bytes from `addr` on lie between `from` and `to`.
pub open spec fn lies_in(addr: int, size: int, from: int, to: int) -> bool {
    from <= addr && addr + size <= to
}

/// Where a binary may put bytes: a flash binary into flash, a RAM binary into main RAM or
/// into the memory of the flash cache.
pub open spec fn fillable_memory(rp2040: bool, ram: bool, addr: int, size: int) -> bool {
    if !ram {
        lies_in(addr, size, 0x1000_0000, 0x1500_0000)
    } else if rp2040 {
        lies_in(addr, size, 0x2000_0000, 0x2004_2000) || lies_in(
            addr,
            size,
            0x1500_0000,
            0x1500_4000,
        )
    } else {
        lies_in(addr, size, 0x2000_0000, 0x2008_2000) || lies_in(
            addr,
            size,
            0x13ff_c000,
            0x1400_0000,
        )
    }
}

/// The memory that a flash binary may use but not fill.
pub open spec fn working_memory(rp2040: bool, ram: bool, addr: int, size: int) -> bool {
    !ram && if rp2040 {
        lies_in(addr, size, 0x2000_0000, 0x2004_2000) || lies_in(
            addr,
            size,
            0x2100_0000,
            0x2104_0000,
        )
    } else {
        lies_in(addr, size, 0x2000_0000, 0x2008_2000)
    }
}

/// The boot ROM, whose contents a RAM binary may bring along for nothing.
pub open spec fn rom(rp2040: bool, ram: bool, addr: int, size: int) -> bool {
    ram && lies_in(
        addr,
        size,
        0,
        if rp2040 {
            0x4000
        } else {
            0x8000
        },
    )
}

proof fn lemma_first_of_three(family: Family, ram: bool, addr: int, size: int)
    ensures
        ({
            let r = address_ranges(family, ram);
            let found = first_holding(r, addr, size);
            if lies_in(addr, size, r[0].from as int, r[0].to as int) {
                found == Some(r[0])
            } else if lies_in(addr, size, r[1].from as int, r[1].to as int) {
                found == Some(r[1])
            } else if r.len() > 2 && lies_in(addr, size, r[2].from as int, r[2].to as int) {
                found == Some(r[2])
            } else {
                found is None
            }
        }),
{
    let r = address_ranges(family, ram);
    reveal_with_fuel(first_holding, 4);
    assert(r.drop_first()[0] == r[1]);
    if r.len() > 2 {
        assert(r.drop_first().drop_first()[0] == r[2]);
        assert(r.drop_first().drop_first().drop_first().len() == 0);
    } else {
        assert(r.drop_first().drop_first().len() == 0);
    }
}

/// What may stand where: memory that is filled, memory that may only be used, the ROM,
/// which is passed over, and everything else, which no device has.
pub proof fn law_memory_map(
    family: Family,
    ram: bool,
    addr: u64,
    size: u64,
    uninitialized: bool,
)
    requires
        size > 0,
        addr + size <= u64::MAX,
    ensures
        ({
            let rp2040 = family is RP2040;
            match checked_range(
                address_ranges(family, ram),
                addr as int,
                size as int,
                uninitialized,
            ) {
                Ok(r) => {
                    &&& r.typ is Contents <==> fillable_memory(
                        rp2040,
                        ram,
                        addr as int,
                        size as int,
                    )
                    &&& r.typ is NoContents ==> uninitialized && working_memory(
                        rp2040,
                        ram,
                        addr as int,
                        size as int,
                    )
                    &&& r.typ is Ignore ==> rom(rp2040, ram, addr as int, size as int)
                },
                Err(AddressRangesFromElfError::ContentsForUninitializedMemory(a)) => {
                    &&& !uninitialized
                    &&& working_memory(rp2040, ram, addr as int, size as int)
                    &&& a == addr
                },
                Err(AddressRangesFromElfError::SegmentInvalidForDevice(a, b)) => {
                    &&& !fillable_memory(rp2040, ram, addr as int, size as int)
                    &&& !working_memory(rp2040, ram, addr as int, size as int)
                    &&& !rom(rp2040, ram, addr as int, size as int)
                    &&& a == addr
                    &&& b == addr + size
                },
                Err(_) => false,
            }
        }),
{
    lemma_first_of_three(family, ram, addr as int, size as int);
}

// ---------------------------------------------------------------------------
// What reaches the output
// ---------------------------------------------------------------------------

/// Whether the segment brings a byte of the file to address `a`: it is a loadable segment
/// (type 1) whose part that is both in the file and in memory covers the address.
pub open spec fn brings(s: ElfSegment, a: int) -> bool {
    s.p_type == 1 && s.p_paddr <= a && a - s.p_paddr < s.p_filesz && a - s.p_paddr < s.p_memsz
}

/// Whether the file can be converted: its pages can be planned and it holds all of them.
pub open spec fn converts(
    file: Seq<u8>,
    entry: u64,
    segments: Seq<ElfSegment>,
    family: Family,
) -> bool {
    page_plan(entry, segments, family) matches Ok(m) && fillable(file.len(), page_list(m))
        == page_list(m).len()
}

/// The blocks that a file is converted into.
pub open spec fn converted(
    file: Seq<u8>,
    entry: u64,
    segments: Seq<ElfSegment>,
    family: Family,
) -> Seq<u8> {
    let pages = page_list(page_plan(entry, segments, family)->Ok_0);
    elf_blocks(file, pages, family, pages.len())
}

proof fn lemma_brings(s: ElfSegment, a: int)
    ensures
        brings(s, a) <==> is_loaded(s) && covers(s, a),
{
}

proof fn lemma_no_error_before(
    ranges: Seq<crate::elf2uf2::AddressRange>,
    segments: Seq<ElfSegment>,
    n: nat,
    j: int,
)
    requires
        first_segment_error(ranges, segments, n) is None,
        0 <= j < n,
    ensures
        segment_error(ranges, segments, j) is None,
    decreases n,
{
    if j < n - 1 {
        lemma_no_error_before(ranges, segments, (n - 1) as nat, j);
    }
}

proof fn lemma_plan_segments(entry: u64, segments: Seq<ElfSegment>, family: Family)
    requires
        page_plan(entry, segments, family) is Ok,
    ensures
        ram_style(entry, segments, family, 0) is Some,
        first_segment_error(
            address_ranges(family, ram_style(entry, segments, family, 0)->0),
            segments,
            segments.len(),
        ) is None,
{
    reveal(page_plan);
}

proof fn lemma_in_no_rom(
    entry: u64,
    segments: Seq<ElfSegment>,
    family: Family,
    j: int,
    a: int,
)
    requires
        page_plan(entry, segments, family) is Ok,
        0 <= j < segments.len(),
        brings(segments[j], a),
        a >= 0x8000,
    ensures
        contributes(
            address_ranges(family, ram_style(entry, segments, family, 0)->0),
            segments[j],
        ),
{
    lemma_plan_segments(entry, segments, family);
    let ram = ram_style(entry, segments, family, 0)->0;
    let ranges = address_ranges(family, ram);
    let s = segments[j];
    lemma_no_error_before(ranges, segments, segments.len(), j);
    lemma_first_of_three(family, ram, s.p_paddr as int, mapped_size(s) as int);
    law_memory_map(family, ram, s.p_paddr, mapped_size(s), false);
}

proof fn lemma_page_is_planned(
    entry: u64,
    segments: Seq<ElfSegment>,
    family: Family,
    j: int,
    a: int,
)
    requires
        page_plan(entry, segments, family) is Ok,
        0 <= j < segments.len(),
        brings(segments[j], a),
        a >= 0x8000,
    ensures
        (page_plan(entry, segments, family)->Ok_0).dom().contains(a - a % 256),
{
    let ranges = address_ranges(family, ram_style(entry, segments, family, 0)->0);
    let p = a - a % 256;
    lemma_in_no_rom(entry, segments, family, j, a);
    lemma_plan_cases(entry, segments, family);
    assert(on_page(segments[j], p));
    let k = lemma_piece_of(ranges, segments, segments.len(), p, j);
    assert(segment_pages(ranges, segments, segments.len()).dom().contains(p));
}

proof fn lemma_block_of_page(
    file: Seq<u8>,
    entry: u64,
    segments: Seq<ElfSegment>,
    family: Family,
    i: int,
    k: int,
)
    requires
        converts(file, entry, segments, family),
        0 <= i < page_list(page_plan(entry, segments, family)->Ok_0).len(),
        0 <= k < 256,
    ensures
        ({
            let pages = page_list(page_plan(entry, segments, family)->Ok_0);
            let ranges = address_ranges(family, ram_style(entry, segments, family, 0)->0);
            let b = block_at(converted(file, entry, segments, family), i);
            &&& b.len() == 512
            &&& word_at(b, 12) == pages[i].0
            &&& word_at(b, 20) == i as u32
            &&& word_at(b, 24) == pages.len() as u32
            &&& word_at(b, 28) == family.spec_id()
            &&& b[32 + k] == image_byte(file, ranges, segments, segments.len(), pages[i].0 + k)
        }),
{
    let pages = page_list(page_plan(entry, segments, family)->Ok_0);
    let n = pages.len();
    let bytes = page_bytes(file, pages[i].1, pages[i].1.len());
    let b = block_at(converted(file, entry, segments, family), i);
    law_elf_blocks(file, pages, family, n);
    lemma_listed_page(entry, segments, family, i);
    lemma_listed_bytes(file, entry, segments, family, i, k);
    law_block_fields(pages[i].0 as u32, bytes, i as u32, n as u32, family.spec_id());
    assert(b.subrange(32, 508)[k] == b[32 + k]);
    assert(data_field(bytes)[k] == bytes[k]);
}

/// Every byte that a loadable segment brings reaches the output: it stands in a block for
/// the page of its physical address, whatever else the header says.  Only bytes for the
/// boot ROM are passed over.
pub proof fn law_segment_bytes_reach_output(
    file: Seq<u8>,
    entry: u64,
    segments: Seq<ElfSegment>,
    family: Family,
    j: int,
    a: int,
) -> (i: int)
    requires
        converts(file, entry, segments, family),
        0 <= j < segments.len(),
        brings(segments[j], a),
        a >= 0x8000,
    ensures
        ({
            let out = converted(file, entry, segments, family);
            &&& 0 <= i < out.len() / 512
            &&& word_at(block_at(out, i), 12) == a - a % 256
            &&& block_at(out, i)[32 + a % 256] == file[segments[j].p_offset + (a
                - segments[j].p_paddr)]
        }),
{
    let p = a - a % 256;
    let ranges = address_ranges(family, ram_style(entry, segments, family, 0)->0);
    let pages = page_list(page_plan(entry, segments, family)->Ok_0);
    lemma_page_is_planned(entry, segments, family, j, a);
    let i = lemma_page_is_listed(entry, segments, family, p);
    lemma_block_of_page(file, entry, segments, family, i, a % 256);
    lemma_in_no_rom(entry, segments, family, j, a);
    lemma_plan_segments(entry, segments, family);
    law_segment_bytes_are_kept(file, ranges, segments, segments.len(), j, a);
    law_elf_blocks(file, pages, family, pages.len());
    i
}

proof fn lemma_no_byte(
    file: Seq<u8>,
    ranges: Seq<crate::elf2uf2::AddressRange>,
    segments: Seq<ElfSegment>,
    n: nat,
    a: int,
)
    requires
        n <= segments.len(),
        forall|j: int| 0 <= j < segments.len() ==> !brings(#[trigger] segments[j], a),
    ensures
        image_byte(file, ranges, segments, n, a) == 0,
    decreases n,
{
    if n > 0 {
        lemma_no_byte(file, ranges, segments, (n - 1) as nat, a);
        assert(!brings(segments[n - 1], a));
    }
}

proof fn lemma_pages_apart(entry: u64, segments: Seq<ElfSegment>, family: Family, i: int)
    requires
        page_plan(entry, segments, family) is Ok,
        0 <= i < page_list(page_plan(entry, segments, family)->Ok_0).len(),
    ensures
        page_list(page_plan(entry, segments, family)->Ok_0)[i].0 >= 256 * i,
    decreases i,
{
    if i > 0 {
        lemma_pages_apart(entry, segments, family, i - 1);
        lemma_listed_order(entry, segments, family, i - 1, i);
    }
}

/// The output is made of whole blocks, numbered from zero and each telling their number
/// and the family, for pages in ascending order.  Bytes of a page that no segment brings
/// are zero, and there is a page only in a sector to which a segment brings a byte.
pub proof fn law_output_blocks(
    file: Seq<u8>,
    entry: u64,
    segments: Seq<ElfSegment>,
    family: Family,
    i: int,
)
    requires
        converts(file, entry, segments, family),
        0 <= i < converted(file, entry, segments, family).len() / 512,
    ensures
        ({
            let out = converted(file, entry, segments, family);
            let b = block_at(out, i);
            let addr = word_at(b, 12);
            &&& out.len() % 512 == 0
            &&& word_at(b, 20) == i
            &&& word_at(b, 24) == out.len() / 512
            &&& word_at(b, 28) == family.spec_id()
            &&& addr % 256 == 0
            &&& forall|h: int|
                0 <= h < i ==> word_at(#[trigger] block_at(out, h), 12) + 256 <= addr
            &&& forall|k: int|
                0 <= k < 256 && (forall|j: int|
                    0 <= j < segments.len() ==> !brings(#[trigger] segments[j], addr + k))
                    ==> #[trigger] b[32 + k] == 0
            &&& exists|j: int, a: int|
                0 <= j < segments.len() && #[trigger] brings(segments[j], a) && a / 4096 == addr
                    as int / 4096
        }),
{
    let m = page_plan(entry, segments, family)->Ok_0;
    let pages = page_list(m);
    let ranges = address_ranges(family, ram_style(entry, segments, family, 0)->0);
    let out = converted(file, entry, segments, family);
    law_elf_blocks(file, pages, family, pages.len());
    assert(out.len() / 512 == pages.len());
    lemma_block_of_page(file, entry, segments, family, i, 0);
    lemma_listed_page(entry, segments, family, i);
    lemma_pages_apart(entry, segments, family, pages.len() - 1);
    lemma_listed_page(entry, segments, family, pages.len() - 1);
    let b = block_at(out, i);
    let addr = word_at(b, 12);
    assert forall|h: int| 0 <= h < i implies word_at(#[trigger] block_at(out, h), 12) + 256
        <= addr by {
        lemma_block_of_page(file, entry, segments, family, h, 0);
        lemma_listed_order(entry, segments, family, h, i);
    }
    assert forall|k: int|
        0 <= k < 256 && (forall|j: int|
            0 <= j < segments.len() ==> !brings(#[trigger] segments[j], addr + k)) implies
        #[trigger] b[32 + k] == 0 by {
        lemma_block_of_page(file, entry, segments, family, i, k);
        lemma_no_byte(file, ranges, segments, segments.len(), addr + k);
    }
    lemma_page_touched(entry, segments, family, addr as int);
}

/// Some segment brings a byte to the sector of every planned page.
proof fn lemma_page_touched(entry: u64, segments: Seq<ElfSegment>, family: Family, p: int)
    requires
        page_plan(entry, segments, family) is Ok,
        (page_plan(entry, segments, family)->Ok_0).dom().contains(p),
    ensures
        exists|j: int, a: int|
            0 <= j < segments.len() && #[trigger] brings(segments[j], a) && a / 4096 == p / 4096,
{
    let ranges = address_ranges(family, ram_style(entry, segments, family, 0)->0);
    let m = segment_pages(ranges, segments, segments.len());
    lemma_plan_cases(entry, segments, family);
    let q = if m.dom().contains(p) {
        p
    } else {
        choose|q: int| #[trigger] m.dom().contains(q) && q / 4096 == p / 4096
    };
    assert(m.dom().contains(q) && q / 4096 == p / 4096);
    let (j, a) = lemma_touching_byte(ranges, segments, q);
}

proof fn lemma_touching_byte(
    ranges: Seq<crate::elf2uf2::AddressRange>,
    segments: Seq<ElfSegment>,
    q: int,
) -> (r: (int, int))
    requires
        segment_pages(ranges, segments, segments.len()).dom().contains(q),
    ensures
        0 <= r.0 < segments.len(),
        brings(segments[r.0], r.1),
        contributes(ranges, segments[r.0]),
        q <= r.1 < q + 256,
        q % 256 == 0,
        r.1 / 4096 == q / 4096,
{
    let j = lemma_piece_origin(ranges, segments, segments.len(), q, 0);
    let s = segments[j];
    let a = if s.p_paddr < q {
        q
    } else {
        s.p_paddr as int
    };
    assert(on_page(s, q));
    lemma_brings(s, a);
    (j, a)
}

// ---------------------------------------------------------------------------
// Which files can be converted
// ---------------------------------------------------------------------------

/// Whether the entry point lies in the segment, and then where the segment puts it.
pub open spec fn enters(s: ElfSegment, entry: u64) -> Option<int> {
    if s.p_type == 1 && s.p_vaddr <= entry && entry - s.p_vaddr < s.p_filesz && entry - s.p_vaddr
        < s.p_memsz {
        Some(s.p_paddr + (entry - s.p_vaddr))
    } else {
        None
    }
}

/// Whether segment `j` decides what kind of binary the file is: it puts the entry point
/// into memory that can be filled.
pub open spec fn decides(s: ElfSegment, entry: u64, rp2040: bool) -> bool {
    enters(s, entry) matches Some(e) && (fillable_memory(rp2040, true, e, 1) || fillable_memory(
        rp2040,
        false,
        e,
        1,
    ))
}

proof fn lemma_initialized(family: Family, ram: bool, a: int)
    ensures
        initialized(address_ranges(family, ram), a) <==> fillable_memory(
            family is RP2040,
            ram,
            a,
            1,
        ),
{
    lemma_first_of_three(family, ram, a, 1);
}

/// What kind of binary a file is rests on where its entry point is put: the first segment
/// that puts it into memory that can be filled decides, for RAM where that is memory that a
/// RAM binary fills.
pub proof fn law_binary_style(
    entry: u64,
    segments: Seq<ElfSegment>,
    family: Family,
    from: int,
)
    requires
        0 <= from <= segments.len(),
    ensures
        (match ram_style(entry, segments, family, from) {
            None => forall|j: int|
                from <= j < segments.len() ==> !decides(
                    #[trigger] segments[j],
                    entry,
                    family is RP2040,
                ),
            Some(ram) => exists|j: int|
                #![trigger segments[j]]
                from <= j < segments.len() && decides(segments[j], entry, family is RP2040) && (
                forall|h: int|
                    from <= h < j ==> !decides(#[trigger] segments[h], entry, family is RP2040))
                    && ram == fillable_memory(
                    family is RP2040,
                    true,
                    enters(segments[j], entry)->0,
                    1,
                ),
        }),
    decreases segments.len() - from,
{
    if from < segments.len() {
        let s = segments[from];
        let effective = s.p_paddr + (entry - s.p_vaddr);
        lemma_initialized(family, true, effective);
        lemma_initialized(family, false, effective);
        if !decides(s, entry, family is RP2040) {
            law_binary_style(entry, segments, family, from + 1);
        }
    }
}

/// Whether no two segments bring a byte to the same address.
pub open spec fn apart(segments: Seq<ElfSegment>) -> bool {
    forall|i: int, j: int, a: int|
        0 <= i < j < segments.len() && #[trigger] brings(segments[i], a) ==> !(#[trigger] brings(
            segments[j],
            a,
        ))
}

/// Whether every segment that brings bytes lies, with all of its memory, between `from`
/// and `to`.
pub open spec fn all_within(segments: Seq<ElfSegment>, from: int, to: int) -> bool {
    forall|j: int|
        0 <= j < segments.len() && (#[trigger] segments[j]).p_type == 1 && segments[j].p_filesz > 0
            && segments[j].p_memsz > 0 ==> from <= segments[j].p_paddr && segments[j].p_paddr
            + segments[j].p_memsz <= to
}

proof fn lemma_segments_fine(
    segments: Seq<ElfSegment>,
    family: Family,
    ram: bool,
    from: int,
    to: int,
    n: nat,
)
    requires
        n <= segments.len(),
        apart(segments),
        all_within(segments, from, to),
        to <= u64::MAX,
        0 <= from,
        forall|a: int, size: int|
            size > 0 && from <= a && a + size <= to ==> #[trigger] fillable_memory(
                family is RP2040,
                ram,
                a,
                size,
            ),
    ensures
        first_segment_error(address_ranges(family, ram), segments, n) is None,
        forall|j: int|
            0 <= j < n && is_loaded(#[trigger] segments[j]) ==> contributes(
                address_ranges(family, ram),
                segments[j],
            ),
        forall|j: int|
            0 <= j < n ==> #[trigger] segment_ends_fit(address_ranges(family, ram), segments, j),
    decreases n,
{
    let ranges = address_ranges(family, ram);
    if n > 0 {
        lemma_segments_fine(segments, family, ram, from, to, (n - 1) as nat);
        let j = n - 1;
        let s = segments[j];
        if is_loaded(s) {
            assert(fillable_memory(
                family is RP2040,
                ram,
                s.p_paddr as int,
                mapped_size(s) as int,
            ));
            law_memory_map(family, ram, s.p_paddr, mapped_size(s), false);
            assert(contributes(ranges, s));
            if overlaps_earlier(ranges, segments, j) {
                let (i, a) = choose|i: int, a: int|
                    0 <= i < j && contributes(ranges, segments[i]) && #[trigger] covers(
                        segments[i],
                        a,
                    ) && covers(segments[j], a);
                assert(brings(segments[i], a));
                assert(brings(segments[j], a));
            }
            if s.p_memsz > s.p_filesz {
                let tail = (s.p_paddr + s.p_filesz) as u64;
                let more = (s.p_memsz - s.p_filesz) as u64;
                assert(fillable_memory(family is RP2040, ram, tail as int, more as int));
                law_memory_map(family, ram, tail, more, true);
            }
        }
    }
}

proof fn lemma_style_is(
    entry: u64,
    segments: Seq<ElfSegment>,
    family: Family,
    ram: bool,
    j: int,
)
    requires
        0 <= j < segments.len(),
        decides(segments[j], entry, family is RP2040),
        forall|h: int|
            0 <= h < segments.len() && enters(#[trigger] segments[h], entry) is Some
                ==> fillable_memory(family is RP2040, true, enters(segments[h], entry)->0, 1)
                == ram,
    ensures
        ram_style(entry, segments, family, 0) == Some(ram),
{
    law_binary_style(entry, segments, family, 0);
}

proof fn lemma_some_page(
    ranges: Seq<crate::elf2uf2::AddressRange>,
    segments: Seq<ElfSegment>,
    j: int,
)
    requires
        0 <= j < segments.len(),
        contributes(ranges, segments[j]),
    ensures
        ({
            let p = segments[j].p_paddr - segments[j].p_paddr % 256;
            segment_pages(ranges, segments, segments.len()).dom().contains(p)
        }),
{
    let p = segments[j].p_paddr - segments[j].p_paddr % 256;
    assert(on_page(segments[j], p));
    let k = lemma_piece_of(ranges, segments, segments.len(), p, j);
}

/// A flash binary can be planned: its segments lie in flash, do not overlap, and one of
/// them holds the entry point, none in the memory of the flash cache.
pub proof fn law_flash_binary_is_planned(
    entry: u64,
    segments: Seq<ElfSegment>,
    family: Family,
    j: int,
)
    requires
        all_within(segments, 0x1000_0000, 0x1500_0000),
        apart(segments),
        0 <= j < segments.len(),
        enters(segments[j], entry) is Some,
        forall|h: int|
            0 <= h < segments.len() && enters(#[trigger] segments[h], entry) is Some ==> !(
            0x13ff_c000 <= enters(segments[h], entry)->0 < 0x1400_0000),
    ensures
        plan_defined(entry, segments, family),
        page_plan(entry, segments, family) is Ok,
{
    let ranges = address_ranges(family, false);
    assert forall|h: int|
        0 <= h < segments.len() && enters(#[trigger] segments[h], entry) is Some implies
        !fillable_memory(family is RP2040, true, enters(segments[h], entry)->0, 1)
        && fillable_memory(family is RP2040, false, enters(segments[h], entry)->0, 1) by {
        assert(segments[h].p_paddr + segments[h].p_memsz <= 0x1500_0000);
    }
    assert(decides(segments[j], entry, family is RP2040));
    lemma_style_is(entry, segments, family, false, j);
    lemma_segments_fine(segments, family, false, 0x1000_0000, 0x1500_0000, segments.len());
    assert(is_loaded(segments[j]));
    lemma_some_page(ranges, segments, j);
    reveal(page_plan);
}

/// A RAM binary can be planned: its segments lie in main RAM and do not overlap, and its
/// entry point is just behind the start of the lowest page that it fills.
pub proof fn law_ram_binary_is_planned(
    entry: u64,
    segments: Seq<ElfSegment>,
    family: Family,
    j: int,
    low: int,
)
    requires
        all_within(
            segments,
            0x2000_0000,
            if family is RP2040 {
                0x2004_2000
            } else {
                0x2008_2000
            },
        ),
        apart(segments),
        0 <= j < segments.len(),
        enters(segments[j], entry) is Some,
        0 <= low < segments.len(),
        brings(segments[low], segments[low].p_paddr as int),
        entry == segments[low].p_paddr - segments[low].p_paddr % 256 + 1,
        forall|h: int|
            0 <= h < segments.len() && brings(
                #[trigger] segments[h],
                segments[h].p_paddr as int,
            ) ==> segments[h].p_paddr >= entry - 1,
    ensures
        plan_defined(entry, segments, family),
        page_plan(entry, segments, family) is Ok,
{
    let ranges = address_ranges(family, true);
    let to: int = if family is RP2040 {
        0x2004_2000
    } else {
        0x2008_2000
    };
    assert forall|h: int|
        0 <= h < segments.len() && enters(#[trigger] segments[h], entry) is Some implies
        fillable_memory(family is RP2040, true, enters(segments[h], entry)->0, 1) by {
        assert(segments[h].p_paddr + segments[h].p_memsz <= to);
    }
    assert(decides(segments[j], entry, family is RP2040));
    lemma_style_is(entry, segments, family, true, j);
    lemma_segments_fine(segments, family, true, 0x2000_0000, to, segments.len());
    assert(is_loaded(segments[low]));
    lemma_some_page(ranges, segments, low);
    let m = segment_pages(ranges, segments, segments.len());
    assert forall|q: int| #[trigger] m.dom().contains(q) implies entry - 1 <= q by {
        lemma_page_not_below(ranges, segments, entry - 1, q);
    }
    lemma_ram_plan(entry, segments, family, m);
}

proof fn lemma_ram_plan(
    entry: u64,
    segments: Seq<ElfSegment>,
    family: Family,
    m: Map<int, Seq<PageFragment>>,
)
    requires
        ram_style(entry, segments, family, 0) == Some(true),
        m == segment_pages(address_ranges(family, true), segments, segments.len()),
        first_segment_error(address_ranges(family, true), segments, segments.len()) is None,
        ram_page(m, family, entry - 1),
        forall|q: int| #[trigger] m.dom().contains(q) ==> entry - 1 <= q,
    ensures
        page_plan(entry, segments, family) is Ok,
{
    lemma_lowest_is(m, family, entry - 1);
    reveal(page_plan);
    assert(m.dom().contains(entry - 1));
}

proof fn lemma_lowest_is(m: Map<int, Seq<PageFragment>>, family: Family, first: int)
    requires
        ram_page(m, family, first),
        forall|q: int| #[trigger] m.dom().contains(q) ==> first <= q,
    ensures
        lowest_ram_page(m, family) == Some(first),
{
    lemma_lowest_exists(m, family, first);
}

proof fn lemma_page_not_below(
    ranges: Seq<crate::elf2uf2::AddressRange>,
    segments: Seq<ElfSegment>,
    first: int,
    q: int,
)
    requires
        first % 256 == 0,
        segment_pages(ranges, segments, segments.len()).dom().contains(q),
        forall|h: int|
            0 <= h < segments.len() && brings(
                #[trigger] segments[h],
                segments[h].p_paddr as int,
            ) ==> segments[h].p_paddr >= first,
    ensures
        first <= q,
{
    let (h, a) = lemma_touching_byte(ranges, segments, q);
    assert(brings(segments[h], segments[h].p_paddr as int));
}

/// A binary with bytes in main RAM is entered just behind the start of the lowest page that
/// it fills there.
pub proof fn law_ram_binary_entry(
    entry: u64,
    segments: Seq<ElfSegment>,
    family: Family,
    j: int,
    a: int,
)
    requires
        page_plan(entry, segments, family) is Ok,
        0 <= j < segments.len(),
        brings(segments[j], a),
        a >= 0x2000_0000,
    ensures
        (entry - 1) % 256 == 0,
        entry - 1 <= a,
        exists|h: int, b: int|
            0 <= h < segments.len() && entry - 1 <= b < entry + 255 && #[trigger] brings(
                segments[h],
                b,
            ),
{
    lemma_plan_segments(entry, segments, family);
    let ram = ram_style(entry, segments, family, 0)->0;
    let ranges = address_ranges(family, ram);
    let m = segment_pages(ranges, segments, segments.len());
    let s = segments[j];
    lemma_in_no_rom(entry, segments, family, j, a);
    lemma_first_of_three(family, ram, s.p_paddr as int, mapped_size(s) as int);
    assert(ram);
    let q = a - a % 256;
    assert(on_page(s, q));
    let k = lemma_piece_of(ranges, segments, segments.len(), q, j);
    assert(ram_page(m, family, q));
    lemma_lowest_exists(m, family, q);
    let p = lowest_ram_page(m, family)->0;
    assert(entry == p + 1) by {
        reveal(page_plan);
    }
    let (h, b) = lemma_touching_byte(ranges, segments, p);
}

proof fn lemma_lowest_exists(m: Map<int, Seq<PageFragment>>, family: Family, q: int)
    requires
        ram_page(m, family, q),
    ensures
        lowest_ram_page(m, family) is Some,
        ram_page(m, family, lowest_ram_page(m, family)->0),
        lowest_ram_page(m, family)->0 <= q,
    decreases q - main_ram(family).0,
{
    if exists|p: int| #[trigger] ram_page(m, family, p) && p < q {
        let p = choose|p: int| #[trigger] ram_page(m, family, p) && p < q;
        lemma_lowest_exists(m, family, p);
    } else {
        assert(forall|p: int| #[trigger] ram_page(m, family, p) ==> q <= p);
        let p = lowest_ram_page(m, family)->0;
        assert(ram_page(m, family, p) && (forall|x: int| #[trigger]
            ram_page(m, family, x) ==> p <= x));
    }
}

/// What a plan promises of the file: no two segments bring a byte to the same address
/// outside of the ROM, every segment lies in memory that the device has, with the part that
/// is not in the file too, and the entry point lies in a segment.
pub proof fn law_planned_files(entry: u64, segments: Seq<ElfSegment>, family: Family)
    requires
        page_plan(entry, segments, family) is Ok,
    ensures
        ({
            let rp2040 = family is RP2040;
            &&& forall|i: int, j: int, a: int|
                0 <= i < j < segments.len() && a >= 0x8000 && #[trigger] brings(segments[i], a)
                    ==> !(#[trigger] brings(segments[j], a))
            &&& exists|ram: bool| #[trigger]
                ram_style(entry, segments, family, 0) == Some(ram) && forall|j: int|
                    0 <= j < segments.len() && brings(
                        #[trigger] segments[j],
                        segments[j].p_paddr as int,
                    ) ==> {
                        let s = segments[j];
                        let size = if s.p_filesz < s.p_memsz {
                            s.p_filesz as int
                        } else {
                            s.p_memsz as int
                        };
                        let more = s.p_memsz - s.p_filesz;
                        ||| rom(rp2040, ram, s.p_paddr as int, size)
                        ||| fillable_memory(rp2040, ram, s.p_paddr as int, size) && (more > 0 ==> (
                        fillable_memory(rp2040, ram, s.p_paddr + s.p_filesz, more)
                            || working_memory(rp2040, ram, s.p_paddr + s.p_filesz, more) || rom(
                            rp2040,
                            ram,
                            s.p_paddr + s.p_filesz,
                            more,
                        )))
                    }
            &&& exists|j: int|
                0 <= j < segments.len() && enters(#[trigger] segments[j], entry) is Some
        }),
{
    let rp2040 = family is RP2040;
    lemma_plan_segments(entry, segments, family);
    let ram = ram_style(entry, segments, family, 0)->0;
    let ranges = address_ranges(family, ram);
    law_binary_style(entry, segments, family, 0);
    assert forall|i: int, j: int, a: int|
        0 <= i < j < segments.len() && a >= 0x8000 && #[trigger] brings(segments[i], a) implies !(
    #[trigger] brings(segments[j], a)) by {
        if brings(segments[j], a) {
            lemma_in_no_rom(entry, segments, family, i, a);
            lemma_in_no_rom(entry, segments, family, j, a);
            lemma_no_error_before(ranges, segments, segments.len(), j);
            assert(covers(segments[i], a) && covers(segments[j], a));
            assert(overlaps_earlier(ranges, segments, j));
        }
    }
    assert forall|j: int|
        0 <= j < segments.len() && brings(#[trigger] segments[j], segments[j].p_paddr as int)
            implies ({
            let s = segments[j];
            let size = if s.p_filesz < s.p_memsz {
                s.p_filesz as int
            } else {
                s.p_memsz as int
            };
            let more = s.p_memsz - s.p_filesz;
            ||| rom(rp2040, ram, s.p_paddr as int, size)
            ||| fillable_memory(rp2040, ram, s.p_paddr as int, size) && (more > 0 ==> (
            fillable_memory(rp2040, ram, s.p_paddr + s.p_filesz, more) || working_memory(
                rp2040,
                ram,
                s.p_paddr + s.p_filesz,
                more,
            ) || rom(rp2040, ram, s.p_paddr + s.p_filesz, more)))
        }) by {
        let s = segments[j];
        lemma_no_error_before(ranges, segments, segments.len(), j);
        lemma_first_of_three(family, ram, s.p_paddr as int, mapped_size(s) as int);
        law_memory_map(family, ram, s.p_paddr, mapped_size(s), false);
        if s.p_memsz > s.p_filesz {
            lemma_first_of_three(
                family,
                ram,
                s.p_paddr + s.p_filesz,
                s.p_memsz - s.p_filesz,
            );
        }
    }
    assert(ram_style(entry, segments, family, 0) == Some(ram));
}

/// A flash binary leaves no holes in the sectors that it touches: every page of such a
/// sector below the last page is planned.
pub proof fn law_sectors_are_filled(
    entry: u64,
    segments: Seq<ElfSegment>,
    family: Family,
    j: int,
    a: int,
    h: int,
    b: int,
    p: int,
)
    requires
        page_plan(entry, segments, family) is Ok,
        0 <= j < segments.len(),
        brings(segments[j], a),
        0x8000 <= a < 0x13ff_c000,
        0 <= h < segments.len(),
        brings(segments[h], b),
        0 <= p,
        p % 256 == 0,
        p / 4096 == a / 4096,
        p < b,
    ensures
        (page_plan(entry, segments, family)->Ok_0).dom().contains(p),
{
    lemma_plan_segments(entry, segments, family);
    let ram = ram_style(entry, segments, family, 0)->0;
    let ranges = address_ranges(family, ram);
    let m = segment_pages(ranges, segments, segments.len());
    lemma_in_no_rom(entry, segments, family, j, a);
    let s = segments[j];
    lemma_first_of_three(family, ram, s.p_paddr as int, mapped_size(s) as int);
    assert(!ram);
    let t = segments[h];
    assert(p >= 0x8000);
    lemma_in_no_rom(entry, segments, family, h, b);
    let qa = a - a % 256;
    let qb = b - b % 256;
    assert(on_page(s, qa) && on_page(t, qb));
    let ka = lemma_piece_of(ranges, segments, segments.len(), qa, j);
    let kb = lemma_piece_of(ranges, segments, segments.len(), qb, h);
    assert(m.dom().contains(qa) && m.dom().contains(qb));
    assert(qa / 4096 == p / 4096);
    assert(p <= qb);
    reveal(page_plan);
    if p < qb {
        assert(crate::elf2uf2::fills_sector(m, p));
    }
}

/// A RAM binary gets no pages beyond those that its segments touch.
pub proof fn law_ram_pages_are_touched(
    entry: u64,
    segments: Seq<ElfSegment>,
    family: Family,
    p: int,
)
    requires
        page_plan(entry, segments, family) matches Ok(m) && m.dom().contains(p),
        p >= 0x1500_0000,
    ensures
        exists|j: int, a: int|
            0 <= j < segments.len() && p <= a < p + 256 && #[trigger] brings(segments[j], a),
{
    lemma_plan_segments(entry, segments, family);
    let ram = ram_style(entry, segments, family, 0)->0;
    let ranges = address_ranges(family, ram);
    let m = segment_pages(ranges, segments, segments.len());
    lemma_plan_cases(entry, segments, family);
    if m.dom().contains(p) {
        let (j, a) = lemma_touching_byte(ranges, segments, p);
    } else {
        let q = choose|q: int| #[trigger] m.dom().contains(q) && p < q;
        let (j, a) = lemma_touching_byte(ranges, segments, q);
        let s = segments[j];
        lemma_first_of_three(family, ram, s.p_paddr as int, mapped_size(s) as int);
        reveal(page_plan);
        assert(ram);
    }
}

proof fn lemma_fillable_when(len: nat, pages: Seq<PageEntry>)
    requires
        forall|i: int| 0 <= i < pages.len() ==> page_available(len, (#[trigger] pages[i]).1),
    ensures
        fillable(len, pages) == pages.len(),
    decreases pages.len(),
{
    if pages.len() > 0 {
        let rest = pages.drop_first();
        assert forall|i: int| 0 <= i < rest.len() implies page_available(
            len,
            (#[trigger] rest[i]).1,
        ) by {
            assert(rest[i] == pages[i + 1]);
        }
        lemma_fillable_when(len, rest);
        assert(page_available(len, pages[0].1));
    }
}

/// A file whose pages are planned is converted exactly where it holds, in full, every
/// segment that brings a byte to an address outside of the ROM.
pub proof fn law_whole_segments_are_needed(
    file: Seq<u8>,
    entry: u64,
    segments: Seq<ElfSegment>,
    family: Family,
)
    requires
        page_plan(entry, segments, family) is Ok,
    ensures
        converts(file, entry, segments, family) <==> forall|j: int, a: int|
            0 <= j < segments.len() && a >= 0x8000 && #[trigger] brings(segments[j], a)
                ==> segments[j].p_offset + segments[j].p_filesz <= file.len(),
{
    let m = page_plan(entry, segments, family)->Ok_0;
    let pages = page_list(m);
    let ram = ram_style(entry, segments, family, 0)->0;
    let ranges = address_ranges(family, ram);
    let held = forall|j: int, a: int|
        0 <= j < segments.len() && a >= 0x8000 && #[trigger] brings(segments[j], a)
            ==> segments[j].p_offset + segments[j].p_filesz <= file.len();
    if held {
        assert forall|i: int| 0 <= i < pages.len() implies page_available(
            file.len(),
            (#[trigger] pages[i]).1,
        ) by {
            lemma_listed_page(entry, segments, family, i);
            let p = pages[i].0 as int;
            assert forall|k: int| 0 <= k < pages[i].1.len() implies available(
                file.len(),
                #[trigger] pages[i].1[k],
            ) by {
                let j = lemma_piece_origin(ranges, segments, segments.len(), p, k);
                let s = segments[j];
                let a = if s.p_paddr < p {
                    p
                } else {
                    s.p_paddr as int
                };
                lemma_brings(s, a);
                lemma_first_of_three(family, ram, s.p_paddr as int, mapped_size(s) as int);
                assert(brings(segments[j], a));
            }
        }
        lemma_fillable_when(file.len(), pages);
    }
    if converts(file, entry, segments, family) {
        assert forall|j: int, a: int|
            0 <= j < segments.len() && a >= 0x8000 && #[trigger] brings(segments[j], a) implies
            segments[j].p_offset + segments[j].p_filesz <= file.len() by {
            let p = a - a % 256;
            lemma_in_no_rom(entry, segments, family, j, a);
            lemma_page_is_planned(entry, segments, family, j, a);
            let i = lemma_page_is_listed(entry, segments, family, p);
            lemma_all_fillable(file.len(), pages, i);
            lemma_listed_page(entry, segments, family, i);
            assert(on_page(segments[j], p));
            let k = lemma_piece_of(ranges, segments, segments.len(), p, j);
            assert(available(file.len(), pages[i].1[k]));
        }
    }
}

proof fn lemma_error_origin(
    ranges: Seq<crate::elf2uf2::AddressRange>,
    segments: Seq<ElfSegment>,
    n: nat,
) -> (j: int)
    requires
        first_segment_error(ranges, segments, n) is Some,
    ensures
        0 <= j < n,
        first_segment_error(ranges, segments, j as nat) is None,
        segment_error(ranges, segments, j) == first_segment_error(ranges, segments, n),
    decreases n,
{
    if first_segment_error(ranges, segments, (n - 1) as nat) is Some {
        lemma_error_origin(ranges, segments, (n - 1) as nat)
    } else {
        n - 1
    }
}

/// Whether segment `j` lies, or goes on in memory, where no memory is for such a binary:
/// `from` and `to` tell where.
pub open spec fn misplaced(s: ElfSegment, rp2040: bool, ram: bool, from: u64, to: u64) -> bool {
    let size = if s.p_filesz < s.p_memsz {
        s.p_filesz as int
    } else {
        s.p_memsz as int
    };
    &&& s.p_type == 1
    &&& size > 0
    &&& (from == s.p_paddr && to == s.p_paddr + size) || (from == s.p_paddr + s.p_filesz && to
        == s.p_paddr + s.p_memsz && s.p_memsz > s.p_filesz)
    &&& !fillable_memory(rp2040, ram, from as int, to - from)
    &&& !working_memory(rp2040, ram, from as int, to - from)
    &&& !rom(rp2040, ram, from as int, to - from)
}

/// Why a file is rejected: an entry point that no segment puts into memory, two segments on
/// one byte, contents for memory that is not filled, a segment where no memory is, no
/// contents at all, or a RAM binary that is not entered at the start of its main RAM.
pub proof fn law_rejected_files(entry: u64, segments: Seq<ElfSegment>, family: Family)
    requires
        plan_defined(entry, segments, family),
    ensures
        ({
            let rp2040 = family is RP2040;
            match page_plan(entry, segments, family) {
                Ok(_) => true,
                Err(Elf2Uf2Error::EntryPointNotMapped) => forall|j: int|
                    0 <= j < segments.len() ==> !decides(#[trigger] segments[j], entry, rp2040),
                Err(Elf2Uf2Error::FailedToGetPagesFromRanges(e)) => match e {
                    AddressRangesFromElfError::NoSegments => false,
                    AddressRangesFromElfError::SegmentsOverlap => exists|i: int, j: int, a: int|
                        0 <= i < j < segments.len() && #[trigger] brings(segments[i], a)
                            && #[trigger] brings(segments[j], a),
                    AddressRangesFromElfError::ContentsForUninitializedMemory(addr) => exists|
                        j: int,
                    |
                        0 <= j < segments.len() && (#[trigger] segments[j]).p_paddr == addr
                            && brings(segments[j], addr as int) && working_memory(
                            rp2040,
                            false,
                            addr as int,
                            1,
                        ),
                    AddressRangesFromElfError::SegmentInvalidForDevice(from, to) => exists|
                        j: int,
                        ram: bool,
                    |
                        0 <= j < segments.len() && #[trigger] misplaced(
                            segments[j],
                            rp2040,
                            ram,
                            from,
                            to,
                        ),
                },
                Err(Elf2Uf2Error::InputFileNoMemoryPages) => forall|j: int, a: int|
                    0 <= j < segments.len() && #[trigger] brings(segments[j], a) ==> a < 0x8000,
                Err(Elf2Uf2Error::DirectEntryIntoXipSram) => forall|j: int, a: int|
                    0 <= j < segments.len() && #[trigger] brings(segments[j], a) ==> a
                        < 0x2000_0000,
                Err(Elf2Uf2Error::RamBinaryEntryPoint(expected, found)) => {
                    &&& found == entry as u32
                    &&& entry != expected
                    &&& (expected - 1) % 256 == 0
                    &&& exists|j: int, a: int|
                        0 <= j < segments.len() && expected - 1 <= a < expected + 255
                            && #[trigger] brings(segments[j], a)
                    &&& forall|j: int, a: int|
                        0 <= j < segments.len() && a >= 0x2000_0000 && #[trigger] brings(
                            segments[j],
                            a,
                        ) ==> expected - 1 <= a
                },
                Err(_) => false,
            }
        }),
{
    let rp2040 = family is RP2040;
    law_binary_style(entry, segments, family, 0);
    if ram_style(entry, segments, family, 0) is Some {
        let ram = ram_style(entry, segments, family, 0)->0;
        let ranges = address_ranges(family, ram);
        let m = segment_pages(ranges, segments, segments.len());
        match first_segment_error(ranges, segments, segments.len()) {
            Some(e) => {
                lemma_segment_complaint(segments, family, ram);
                assert(page_plan(entry, segments, family) == Err::<
                    Map<int, Seq<PageFragment>>,
                    Elf2Uf2Error,
                >(Elf2Uf2Error::FailedToGetPagesFromRanges(e))) by {
                    reveal(page_plan);
                }
            },
            None => {
                assert forall|j: int, a: int|
                    0 <= j < segments.len() && a >= 0x8000 && #[trigger] brings(
                        segments[j],
                        a,
                    ) implies m.dom().contains(a - a % 256) by {
                    lemma_page_without_error(segments, family, ram, j, a);
                }
                lemma_plan_complaint(entry, segments, family, ram);
            },
        }
    } else {
        reveal(page_plan);
    }
}

proof fn lemma_page_without_error(
    segments: Seq<ElfSegment>,
    family: Family,
    ram: bool,
    j: int,
    a: int,
)
    requires
        first_segment_error(address_ranges(family, ram), segments, segments.len()) is None,
        0 <= j < segments.len(),
        brings(segments[j], a),
        a >= 0x8000,
    ensures
        contributes(address_ranges(family, ram), segments[j]),
        segment_pages(address_ranges(family, ram), segments, segments.len()).dom().contains(
            a - a % 256,
        ),
{
    let ranges = address_ranges(family, ram);
    let s = segments[j];
    lemma_no_error_before(ranges, segments, segments.len(), j);
    lemma_first_of_three(family, ram, s.p_paddr as int, mapped_size(s) as int);
    assert(contributes(ranges, s));
    assert(on_page(s, a - a % 256));
    let k = lemma_piece_of(ranges, segments, segments.len(), a - a % 256, j);
}

#[verifier::spinoff_prover]
#[verifier::rlimit(60)]
proof fn lemma_plan_complaint(
    entry: u64,
    segments: Seq<ElfSegment>,
    family: Family,
    ram: bool,
)
    requires
        ram_style(entry, segments, family, 0) == Some(ram),
        first_segment_error(address_ranges(family, ram), segments, segments.len()) is None,
    ensures
        (match page_plan(entry, segments, family) {
            Ok(_) => true,
            Err(Elf2Uf2Error::InputFileNoMemoryPages) => forall|j: int, a: int|
                0 <= j < segments.len() && #[trigger] brings(segments[j], a) ==> a < 0x8000,
            Err(Elf2Uf2Error::DirectEntryIntoXipSram) => forall|j: int, a: int|
                0 <= j < segments.len() && #[trigger] brings(segments[j], a) ==> a < 0x2000_0000,
            Err(Elf2Uf2Error::RamBinaryEntryPoint(expected, found)) => {
                &&& found == entry as u32
                &&& entry != expected
                &&& (expected - 1) % 256 == 0
                &&& exists|j: int, a: int|
                    0 <= j < segments.len() && expected - 1 <= a < expected + 255
                        && #[trigger] brings(segments[j], a)
                &&& forall|j: int, a: int|
                    0 <= j < segments.len() && a >= 0x2000_0000 && #[trigger] brings(
                        segments[j],
                        a,
                    ) ==> expected - 1 <= a
            },
            Err(_) => false,
        }),
{
    let ranges = address_ranges(family, ram);
    let m = segment_pages(ranges, segments, segments.len());
    if !(exists|p: int| m.dom().contains(p)) {
        assert(page_plan(entry, segments, family) == Err::<
            Map<int, Seq<PageFragment>>,
            Elf2Uf2Error,
        >(Elf2Uf2Error::InputFileNoMemoryPages)) by {
            reveal(page_plan);
        }
        assert forall|j: int, a: int|
            0 <= j < segments.len() && #[trigger] brings(segments[j], a) implies a < 0x8000 by {
            if a >= 0x8000 {
                lemma_page_without_error(segments, family, ram, j, a);
            }
        }
    } else if !ram {
        assert(page_plan(entry, segments, family) is Ok) by {
            reveal(page_plan);
        }
    } else {
        assert(lowest_ram_page(m, family) matches Some(p) ==> touched(segments, p)) by {
            if lowest_ram_page(m, family) is Some {
                lemma_lowest_found(m, family);
                let (h, b) = lemma_touching_byte(ranges, segments, lowest_ram_page(m, family)->0);
            }
        }
        assert forall|j: int, a: int|
            0 <= j < segments.len() && a >= 0x2000_0000 && #[trigger] brings(
                segments[j],
                a,
            ) implies ram_page(m, family, a - a % 256) by {
            lemma_main_ram_page(segments, family, j, a);
        }
        lemma_ram_cases(entry, segments, family, m);
        lemma_ram_complaint(entry, segments, family, m, page_plan(entry, segments, family));
    }
}

proof fn lemma_lowest_found(m: Map<int, Seq<PageFragment>>, family: Family)
    requires
        lowest_ram_page(m, family) is Some,
    ensures
        ram_page(m, family, lowest_ram_page(m, family)->0),
{
    let some = choose|q: int| ram_page(m, family, q);
    lemma_lowest_exists(m, family, some);
}

/// Whether a segment brings a byte to the page at `q`.
spec fn touched(segments: Seq<ElfSegment>, q: int) -> bool {
    q % 256 == 0 && exists|j: int, a: int|
        0 <= j < segments.len() && q <= a < q + 256 && #[trigger] brings(segments[j], a)
}

proof fn lemma_ram_cases(
    entry: u64,
    segments: Seq<ElfSegment>,
    family: Family,
    m: Map<int, Seq<PageFragment>>,
)
    requires
        ram_style(entry, segments, family, 0) == Some(true),
        first_segment_error(address_ranges(family, true), segments, segments.len()) is None,
        m == segment_pages(address_ranges(family, true), segments, segments.len()),
        exists|p: int| m.dom().contains(p),
    ensures
        page_plan(entry, segments, family) == ram_result(entry, m, family),
{
    reveal(page_plan);
}

/// What becomes of the pages of a RAM binary.
spec fn ram_result(entry: u64, m: Map<int, Seq<PageFragment>>, family: Family) -> Result<
    Map<int, Seq<PageFragment>>,
    Elf2Uf2Error,
> {
    match lowest_ram_page(m, family) {
        None => Err(Elf2Uf2Error::DirectEntryIntoXipSram),
        Some(p) => if entry != p + 1 {
            Err(Elf2Uf2Error::RamBinaryEntryPoint((p + 1) as u32, entry as u32))
        } else {
            Ok(m)
        },
    }
}

proof fn lemma_ram_complaint(
    entry: u64,
    segments: Seq<ElfSegment>,
    family: Family,
    m: Map<int, Seq<PageFragment>>,
    plan: Result<Map<int, Seq<PageFragment>>, Elf2Uf2Error>,
)
    requires
        plan == ram_result(entry, m, family),
        forall|j: int, a: int|
            0 <= j < segments.len() && a >= 0x2000_0000 && #[trigger] brings(segments[j], a)
                ==> ram_page(m, family, a - a % 256),
        lowest_ram_page(m, family) matches Some(p) ==> touched(segments, p),
    ensures
        (match plan {
            Ok(_) => true,
            Err(Elf2Uf2Error::DirectEntryIntoXipSram) => forall|j: int, a: int|
                0 <= j < segments.len() && #[trigger] brings(segments[j], a) ==> a < 0x2000_0000,
            Err(Elf2Uf2Error::RamBinaryEntryPoint(expected, found)) => {
                &&& found == entry as u32
                &&& entry != expected
                &&& (expected - 1) % 256 == 0
                &&& exists|j: int, a: int|
                    0 <= j < segments.len() && expected - 1 <= a < expected + 255
                        && #[trigger] brings(segments[j], a)
                &&& forall|j: int, a: int|
                    0 <= j < segments.len() && a >= 0x2000_0000 && #[trigger] brings(
                        segments[j],
                        a,
                    ) ==> expected - 1 <= a
            },
            Err(_) => false,
        }),
{
    match lowest_ram_page(m, family) {
        None => {
            assert(forall|q: int| !ram_page(m, family, q));
        },
        Some(p) => {
            lemma_lowest_found(m, family);
            assert forall|j: int, a: int|
                0 <= j < segments.len() && a >= 0x2000_0000 && #[trigger] brings(
                    segments[j],
                    a,
                ) implies p <= a by {
                lemma_lowest_exists(m, family, a - a % 256);
            }
        },
    }
}

proof fn lemma_main_ram_page(segments: Seq<ElfSegment>, family: Family, j: int, a: int)
    requires
        first_segment_error(address_ranges(family, true), segments, segments.len()) is None,
        0 <= j < segments.len(),
        brings(segments[j], a),
        a >= 0x2000_0000,
    ensures
        ram_page(
            segment_pages(address_ranges(family, true), segments, segments.len()),
            family,
            a - a % 256,
        ),
{
    let s = segments[j];
    lemma_page_without_error(segments, family, true, j, a);
    lemma_first_of_three(family, true, s.p_paddr as int, mapped_size(s) as int);
}

proof fn lemma_segment_complaint(segments: Seq<ElfSegment>, family: Family, ram: bool)
    requires
        ends_fit(address_ranges(family, ram), segments),
        first_segment_error(address_ranges(family, ram), segments, segments.len()) is Some,
    ensures
        ({
            let rp2040 = family is RP2040;
            match first_segment_error(
                address_ranges(family, ram),
                segments,
                segments.len(),
            )->0 {
                AddressRangesFromElfError::NoSegments => false,
                AddressRangesFromElfError::SegmentsOverlap => exists|i: int, j: int, a: int|
                    0 <= i < j < segments.len() && #[trigger] brings(segments[i], a)
                        && #[trigger] brings(segments[j], a),
                AddressRangesFromElfError::ContentsForUninitializedMemory(addr) => exists|j: int|
                    0 <= j < segments.len() && (#[trigger] segments[j]).p_paddr == addr && brings(
                        segments[j],
                        addr as int,
                    ) && working_memory(rp2040, false, addr as int, 1),
                AddressRangesFromElfError::SegmentInvalidForDevice(from, to) => exists|j: int|
                    0 <= j < segments.len() && #[trigger] misplaced(
                        segments[j],
                        rp2040,
                        ram,
                        from,
                        to,
                    ),
            }
        }),
{
    let ranges = address_ranges(family, ram);
    let j = lemma_error_origin(ranges, segments, segments.len());
    let s = segments[j];
    assert(segment_ends_fit(ranges, segments, j));
    law_memory_map(family, ram, s.p_paddr, mapped_size(s), false);
    assert(brings(s, s.p_paddr as int));
    if segment_error(ranges, segments, j) == Some(AddressRangesFromElfError::SegmentsOverlap) {
        let (i, a) = choose|i: int, a: int|
            0 <= i < j && contributes(ranges, segments[i]) && #[trigger] covers(segments[i], a)
                && covers(segments[j], a);
        assert(brings(segments[i], a));
        assert(brings(segments[j], a));
    } else if checked_range(ranges, s.p_paddr as int, mapped_size(s) as int, false) is Ok {
        let tail = (s.p_paddr + s.p_filesz) as u64;
        let more = (s.p_memsz - s.p_filesz) as u64;
        law_memory_map(family, ram, tail, more, true);
        assert(misplaced(segments[j], family is RP2040, ram, tail, (tail + more) as u64));
    } else if let Err(AddressRangesFromElfError::SegmentInvalidForDevice(from, to)) = checked_range(
        ranges,
        s.p_paddr as int,
        mapped_size(s) as int,
        false,
    ) {
        assert(misplaced(segments[j], family is RP2040, ram, from, to));
    }
}

/// Flashing a converted file on a working device ends.  Then every byte that a segment
/// brings stands at its physical address, and all bytes in sectors to which no segment
/// brings one are as they were.
pub proof fn law_flashed_firmware(
    mem: Memory,
    file: Seq<u8>,
    entry: u64,
    segments: Seq<ElfSegment>,
    family: Family,
    no_wait: bool,
)
    requires
        converts(file, entry, segments, family),
    ensures
        ({
            let out = converted(file, entry, segments, family);
            let regions = block_regions(out, (out.len() / 512) as nat);
            exists|fuel: nat|
                ({
                    let (end, after) = #[trigger] run_write(
                        write_start(regions, no_wait),
                        mem,
                        fuel,
                    );
                    &&& end.state is Complete
                    &&& forall|j: int, a: int|
                        0 <= j < segments.len() && a >= 0x8000 && #[trigger] brings(
                            segments[j],
                            a,
                        ) ==> after(a) == file[segments[j].p_offset + (a - segments[j].p_paddr)]
                    &&& forall|a: int|
                        (forall|j: int, b: int|
                            0 <= j < segments.len() && #[trigger] brings(segments[j], b) ==> b
                                / 4096 != a / 4096) ==> #[trigger] after(a) == mem(a)
                })
        }),
{
    let m = page_plan(entry, segments, family)->Ok_0;
    let pages = page_list(m);
    let out = converted(file, entry, segments, family);
    let ranges = address_ranges(family, ram_style(entry, segments, family, 0)->0);
    law_elf_blocks(file, pages, family, pages.len());
    assert(out.len() / 512 == pages.len());
    let regions = block_regions(out, pages.len());
    law_elf_flashing_ends(mem, file, entry, segments, family, no_wait);
    let fuel = choose|fuel: nat|
        ({
            let (end, after) = #[trigger] run_write(write_start(regions, no_wait), mem, fuel);
            end.state is Complete && (forall|a: int| #[trigger]
                after(a) == if m.dom().contains(a - a % 256) {
                    image_byte(file, ranges, segments, segments.len(), a)
                } else {
                    mem(a)
                })
        });
    let (end, after) = run_write(write_start(regions, no_wait), mem, fuel);
    assert forall|j: int, a: int|
        0 <= j < segments.len() && a >= 0x8000 && #[trigger] brings(segments[j], a) implies after(a)
        == file[segments[j].p_offset + (a - segments[j].p_paddr)] by {
        lemma_flashed_byte(mem(a), after(a), file, entry, segments, family, j, a);
    }
    assert forall|a: int|
        (forall|j: int, b: int|
            0 <= j < segments.len() && #[trigger] brings(segments[j], b) ==> b / 4096 != a
                / 4096) implies #[trigger] after(a) == mem(a) by {
        lemma_untouched_byte(mem(a), after(a), file, entry, segments, family, a);
    }
}

/// Whether `after` is what flashing leaves at address `a` where `before` stood.
spec fn flashed_over(
    before: u8,
    after: u8,
    file: Seq<u8>,
    entry: u64,
    segments: Seq<ElfSegment>,
    family: Family,
    a: int,
) -> bool {
    let ranges = address_ranges(family, ram_style(entry, segments, family, 0)->0);
    after == if page_plan(entry, segments, family)->Ok_0.dom().contains(a - a % 256) {
        image_byte(file, ranges, segments, segments.len(), a)
    } else {
        before
    }
}

proof fn lemma_flashed_byte(
    before: u8,
    after: u8,
    file: Seq<u8>,
    entry: u64,
    segments: Seq<ElfSegment>,
    family: Family,
    j: int,
    a: int,
)
    requires
        converts(file, entry, segments, family),
        flashed_over(before, after, file, entry, segments, family, a),
        0 <= j < segments.len(),
        a >= 0x8000,
        brings(segments[j], a),
    ensures
        after == file[segments[j].p_offset + (a - segments[j].p_paddr)],
{
    let ranges = address_ranges(family, ram_style(entry, segments, family, 0)->0);
    lemma_page_is_planned(entry, segments, family, j, a);
    lemma_in_no_rom(entry, segments, family, j, a);
    lemma_plan_segments(entry, segments, family);
    law_segment_bytes_are_kept(file, ranges, segments, segments.len(), j, a);
}

proof fn lemma_untouched_byte(
    before: u8,
    after: u8,
    file: Seq<u8>,
    entry: u64,
    segments: Seq<ElfSegment>,
    family: Family,
    a: int,
)
    requires
        converts(file, entry, segments, family),
        flashed_over(before, after, file, entry, segments, family, a),
        forall|j: int, b: int|
            0 <= j < segments.len() && #[trigger] brings(segments[j], b) ==> b / 4096 != a / 4096,
    ensures
        after == before,
{
    let p = a - a % 256;
    if page_plan(entry, segments, family)->Ok_0.dom().contains(p) {
        law_plan_pages(entry, segments, family, p);
        lemma_page_touched(entry, segments, family, p);
        assert(p / 4096 == a / 4096);
    }
}

/// The numbers that stand for the families.
pub proof fn law_family_ids(family: Family)
    ensures
        family.spec_id() == (match family {
            Family::RP2040 => 0xE48B_FF56u32,
            Family::RP2XXX_ABSOLUTE => 0xE48B_FF57u32,
            Family::RP2XXX_DATA => 0xE48B_FF58u32,
            Family::RP2350_ARM_S => 0xE48B_FF59u32,
            Family::RP2350_RISCV => 0xE48B_FF5Au32,
            Family::RP2350_ARM_NS => 0xE48B_FF5Bu32,
        }),
{
}

// ---------------------------------------------------------------------------
// Ranges
// ---------------------------------------------------------------------------

/// A piece of memory belongs to the first range that it lies in as a whole.  Contents for
/// memory that is not filled are refused with the address, and a piece that lies in no
/// range with its bounds.
pub proof fn law_range_of_memory(
    ranges: Seq<AddressRange>,
    addr: int,
    size: int,
    uninitialized: bool,
    i: int,
)
    requires
        0 <= i <= ranges.len(),
        i < ranges.len() ==> lies_in(addr, size, ranges[i].from as int, ranges[i].to as int),
        forall|k: int|
            0 <= k < i ==> !lies_in(
                addr,
                size,
                (#[trigger] ranges[k]).from as int,
                ranges[k].to as int,
            ),
    ensures
        i == ranges.len() ==> first_holding(ranges, addr, size) is None && checked_range(
            ranges,
            addr,
            size,
            uninitialized,
        ) == Err::<AddressRange, AddressRangesFromElfError>(
            AddressRangesFromElfError::SegmentInvalidForDevice(addr as u64, (addr + size) as u64),
        ),
        i < ranges.len() ==> first_holding(ranges, addr, size) == Some(ranges[i]) && checked_range(
            ranges,
            addr,
            size,
            uninitialized,
        ) == (if ranges[i].typ is NoContents && !uninitialized {
            Err::<AddressRange, AddressRangesFromElfError>(
                AddressRangesFromElfError::ContentsForUninitializedMemory(addr as u64),
            )
        } else {
            Ok::<AddressRange, AddressRangesFromElfError>(ranges[i])
        }),
        size == 1 ==> (initialized(ranges, addr) <==> i < ranges.len() && ranges[i].typ
            is Contents),
    decreases ranges.len(),
{
    if ranges.len() > 0 && i > 0 {
        let rest = ranges.drop_first();
        assert(!lies_in(addr, size, ranges[0].from as int, ranges[0].to as int));
        assert forall|k: int| 0 <= k < i - 1 implies !lies_in(
            addr,
            size,
            (#[trigger] rest[k]).from as int,
            rest[k].to as int,
        ) by {
            assert(rest[k] == ranges[k + 1]);
        }
        law_range_of_memory(rest, addr, size, uninitialized, i - 1);
    }
}

/// Converting is given up for the sake of 64-bit addresses only where a loaded segment ends
/// beyond them.
pub proof fn law_ends_within_addresses(entry: u64, segments: Seq<ElfSegment>, family: Family)
    requires
        forall|i: int|
            0 <= i < segments.len() && (#[trigger] segments[i]).p_type == 1 ==> segments[i].p_paddr
                + segments[i].p_filesz <= u64::MAX && segments[i].p_paddr + segments[i].p_memsz
                <= u64::MAX,
    ensures
        plan_defined(entry, segments, family),
{
    assert forall|ram: bool, i: int| 0 <= i < segments.len() implies #[trigger] segment_ends_fit(
        address_ranges(family, ram),
        segments,
        i,
    ) by {
        assert(segments[i] == segments[i]);
    }
}

} // verus!
