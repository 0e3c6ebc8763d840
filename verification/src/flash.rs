//! Flashing a firmware file, and the order of the steps on a BOOTSEL drive.

use vstd::prelude::*;

use crate::elf2uf2::{
    address_ranges, convertible, elf_blocks, elf_image, fillable, fragments_on,
    image_byte, law_elf_blocks, law_page_holds_image, law_plan_pages, page_available, page_bytes,
    page_plan, ram_style, try_elf2uf2, Elf2Uf2Error,
};
use crate::event::{Channel, LogTag};
use crate::memory::{
    law_covered_byte, law_uncovered_byte_stays, overlay_all, region_views, Memory,
};
use crate::pages::{law_page_addresses, page_addresses, page_list, ElfSegment, PageEntry};
use crate::text::{
    decimal, law_padded_width, law_written_numbers, number_value, push_decimal, NumberError,
};
use crate::uf2::{
    bin2uf2, block_list, block_region, block_regions, first_block_error, law_regions_keep_blocks,
    lemma_block_read_back, padded_pages, pages_addressable, pages_fit, uf2_error, uf2_image,
    uf2_to_regions, Family, Uf2Error,
};
use crate::write::{
    all_startable, law_regions_written, regions_of, run_write, write_data, write_regions_data,
    write_start, WriteRegion, WriteSession, WriteTarget,
};

verus! {

/// Whether bytes start with the ELF magic.
pub open spec fn is_elf(head: Seq<u8>) -> bool {
    head.len() >= 4 && head[0] == 0x7F && head[1] == 0x45 && head[2] == 0x4C && head[3] == 0x46
}

/// Check whether a file starts with the ELF magic bytes.
pub fn is_elf_file(head: &[u8]) -> (r: bool)
    ensures
        r == is_elf(head@),
{
    head.len() >= 4 && head[0] == 0x7F && head[1] == 0x45 && head[2] == 0x4C && head[3] == 0x46
}

/// Why a firmware file cannot be flashed.
#[derive(Debug)]
pub enum FlashInputError {
    Conversion(Elf2Uf2Error),
    Layout(Uf2Error),
}

/// The UF2 blocks for the pages of an ELF file are a valid UF2 file.
pub proof fn law_elf_output_is_valid(
    file: Seq<u8>,
    pages: Seq<PageEntry>,
    family: Family,
    n: nat,
    k: nat,
)
    requires
        k <= n <= pages.len(),
    ensures
        elf_blocks(file, pages, family, n).len() == 512 * n,
        first_block_error(elf_blocks(file, pages, family, n), k) is None,
        k == n ==> uf2_error(elf_blocks(file, pages, family, n)) is None,
    decreases k,
{
    let blocks = elf_blocks(file, pages, family, n);
    law_elf_blocks(file, pages, family, n);
    if k > 0 {
        let i = k - 1;
        law_elf_output_is_valid(file, pages, family, n, (k - 1) as nat);
        lemma_block_read_back(
            blocks,
            i,
            pages[i].0 as u32,
            page_bytes(file, pages[i].1, pages[i].1.len()),
            i as u32,
            pages.len() as u32,
            family.spec_id(),
        );
    }
    assert(blocks.len() / 512 == n && blocks.len() % 512 == 0);
}

pub proof fn lemma_fillable_bound(len: nat, pages: Seq<PageEntry>)
    ensures
        fillable(len, pages) <= pages.len(),
    decreases pages.len(),
{
    if pages.len() > 0 {
        lemma_fillable_bound(len, pages.drop_first());
    }
}

/// The name of part `i` of a file.
pub open spec fn part_label(path: Seq<char>, i: int) -> Seq<char> {
    path + "#"@ + decimal(i as nat)
}

/// Write an ELF or raw binary using the direct PICOBOOT backend.
///
/// Input type is detected by ELF magic (`0x7FELF`); everything else is treated as
/// a raw binary placed at `base_addr`.  There is no result where a segment of an ELF
/// file that is placed ends beyond 64 bits.
pub fn flash(
    path: String,
    input: Vec<u8>,
    family: Family,
    base_addr: u32,
    no_wait: bool,
) -> (r: Option<Result<WriteSession, FlashInputError>>)
    ensures
        !is_elf(input@) ==> (r matches Some(Ok(s)) && s@ == write_start(
            seq![(base_addr, input@)],
            no_wait,
        ) && s@.wf() && s.pending@[0].label@ == path@),
        is_elf(input@) ==> (r is None <==> !convertible(input@, family)),
        is_elf(input@) && convertible(input@, family) ==> (match elf_image(input@) {
            None => r matches Some(Err(FlashInputError::Conversion(e))) && e is FailedToOpenElfFile,
            Some((entry, segments)) => match page_plan(entry, segments, family) {
                Err(e) => r matches Some(Err(FlashInputError::Conversion(e2))) && e2 == e,
                Ok(m) => {
                    let pages = page_list(m);
                    let k = fillable(input@.len(), pages);
                    if k == pages.len() {
                        r matches Some(Ok(s)) && s@ == write_start(
                            block_regions(elf_blocks(input@, pages, family, k), k),
                            no_wait,
                        ) && s@.wf() && (forall|i: int|
                            0 <= i < s.pending@.len() ==> (#[trigger] s.pending@[i]).label@
                                == part_label(path@, i))
                    } else {
                        r matches Some(Err(FlashInputError::Conversion(e)))
                            && e is FailedToRealizePages
                    }
                },
            },
        }),
{
    if !is_elf_file(input.as_slice()) {
        let mut targets: Vec<WriteTarget> = Vec::new();
        let mut contents: Vec<Vec<u8>> = Vec::new();
        targets.push(WriteTarget { path, address: base_addr });
        contents.push(input);
        let s = write_data(targets, contents, false, no_wait);
        proof {
            assert(s@.pending =~= seq![(base_addr, input@)]);
            assert(targets@[0].path@ == path@);
        }
        return Some(Ok(s));
    }
    let mut uf2_data: Vec<u8> = Vec::new();
    match try_elf2uf2(input.as_slice(), &mut uf2_data, family) {
        None => {
            return None;
        },
        Some(Err(e)) => {
            return Some(Err(FlashInputError::Conversion(e)));
        },
        Some(Ok(())) => {},
    }
    let ghost segments = elf_image(input@)->0;
    let ghost pages = page_list(page_plan(segments.0, segments.1, family)->Ok_0);
    let ghost k = fillable(input@.len(), pages);
    proof {
        lemma_fillable_bound(input@.len(), pages);
        assert(uf2_data@ =~= elf_blocks(input@, pages, family, k));
        law_elf_output_is_valid(input@, pages, family, k, k);
        assert(uf2_data@.len() / 512 == k);
    }
    let mut parts = match uf2_to_regions(uf2_data.as_slice()) {
        Ok(parts) => parts,
        Err(e) => {
            return Some(Err(FlashInputError::Layout(e)));
        },
    };
    let ghost all = region_views(parts@);
    let mut regions: Vec<WriteRegion> = Vec::new();
    let mut i: usize = 0;
    let count: usize = parts.len();
    proof {
        assert(regions_of(regions@) =~= all.take(0));
        assert(region_views(parts@) =~= all.skip(0));
    }
    while parts.len() > 0
        invariant
            i + parts@.len() == count,
            i <= all.len(),
            region_views(parts@) == all.skip(i as int),
            regions_of(regions@) == all.take(i as int),
            regions@.len() == i,
            forall|j: int|
                0 <= j < regions@.len() ==> (#[trigger] regions@[j]).label@ == part_label(path@, j),
        decreases parts@.len(),
    {
        let ghost parts0 = parts@;
        let ghost regions0 = regions@;
        let (address, data) = parts.remove(0);
        let mut label = String::new();
        label.append(path.as_str());
        label.append("#");
        push_decimal(&mut label, i as u64);
        proof {
            assert(label@ =~= part_label(path@, i as int));
            assert(region_views(parts0).len() == parts0.len());
            assert(all.skip(i as int).len() == all.len() - i);
            assert(region_views(parts0)[0] == (address, data@));
            assert(all[i as int] == (address, data@));
            assert(region_views(parts@) =~= all.skip(i + 1)) by {
                assert forall|j: int| 0 <= j < parts@.len() implies region_views(parts@)[j]
                    == all.skip(i + 1)[j] by {
                    assert(parts@[j] == parts0[j + 1]);
                    assert(region_views(parts0)[j + 1] == all.skip(i as int)[j + 1]);
                }
            }
        }
        regions.push(WriteRegion { label, address, data });
        proof {
            assert(regions_of(regions@) =~= regions_of(regions0).push((address, data@)));
            assert(all.take(i + 1) =~= all.take(i as int).push(all[i as int]));
        }
        i += 1;
    }
    proof {
        assert(region_views(parts@).len() == 0);
        assert(all.take(i as int) =~= all);
    }
    Some(Ok(write_regions_data(regions, no_wait)))
}

/// Convert a firmware file for the mass-storage backend.
///
/// Input type is detected by ELF magic (`0x7FELF`); everything else is treated as
/// a raw binary placed at `base_addr`.  There is no result where a segment of
/// an ELF file that is placed ends beyond 64 bits, or where the addresses of a raw binary
/// go beyond 32 bits.
pub fn convert_input(input: &[u8], family: Family, base_addr: u32) -> (r: Option<
    Result<Vec<u8>, Elf2Uf2Error>,
>)
    ensures
        !is_elf(input@) ==> (match r {
            None => !pages_addressable(input@.len(), base_addr),
            Some(converted) => pages_addressable(input@.len(), base_addr) && (converted matches Ok(
                image,
            ) && image@ == uf2_image(input@, base_addr, family.spec_id())),
        }),
        is_elf(input@) ==> (r is None <==> !convertible(input@, family)),
        is_elf(input@) && convertible(input@, family) ==> (match elf_image(input@) {
            None => r matches Some(Err(e)) && e is FailedToOpenElfFile,
            Some((entry, segments)) => match page_plan(entry, segments, family) {
                Err(e) => r matches Some(Err(e2)) && e2 == e,
                Ok(m) => {
                    let pages = page_list(m);
                    if fillable(input@.len(), pages) == pages.len() {
                        r matches Some(Ok(image)) && image@ == elf_blocks(
                            input@,
                            pages,
                            family,
                            pages.len(),
                        )
                    } else {
                        r matches Some(Err(e)) && e is FailedToRealizePages
                    }
                },
            },
        }),
{
    let mut image: Vec<u8> = Vec::new();
    if !is_elf_file(input) {
        if !pages_fit(input.len(), base_addr) {
            return None;
        }
        bin2uf2(input, &mut image, base_addr, family.id());
        assert(image@ =~= uf2_image(input@, base_addr, family.spec_id()));
        return Some(Ok(image));
    }
    match try_elf2uf2(input, &mut image, family) {
        None => None,
        Some(Err(e)) => Some(Err(e)),
        Some(Ok(())) => {
            proof {
                let (entry, segments) = elf_image(input@)->0;
                let pages = page_list(page_plan(entry, segments, family)->Ok_0);
                assert(image@ =~= elf_blocks(input@, pages, family, pages.len()));
            }
            Some(Ok(image))
        },
    }
}

/// What flashing an ELF file leaves in memory: on every page the page's bytes, and
/// everywhere else what was there.
pub proof fn law_flashed_pages(
    mem: Memory,
    file: Seq<u8>,
    pages: Seq<PageEntry>,
    family: Family,
    a: int,
)
    requires
        forall|i: int, j: int|
            0 <= i < j < pages.len() ==> (#[trigger] pages[i]).0 + 256 <= (#[trigger] pages[j]).0,
        forall|i: int| 0 <= i < pages.len() ==> (#[trigger] pages[i]).0 <= u32::MAX,
        forall|i: int|
            0 <= i < pages.len() ==> page_bytes(
                file,
                (#[trigger] pages[i]).1,
                pages[i].1.len(),
            ).len() == 256,
    ensures
        ({
            let blocks = elf_blocks(file, pages, family, pages.len());
            let after = overlay_all(mem, block_regions(blocks, pages.len()));
            &&& forall|i: int|
                0 <= i < pages.len() && (#[trigger] pages[i]).0 <= a < pages[i].0 + 256 ==> after(a)
                    == page_bytes(file, pages[i].1, pages[i].1.len())[a - pages[i].0]
            &&& (forall|i: int|
                0 <= i < pages.len() ==> !((#[trigger] pages[i]).0 <= a < pages[i].0 + 256))
                ==> after(a) == mem(a)
        }),
{
    let n = pages.len();
    let blocks = elf_blocks(file, pages, family, n);
    let list = block_list(blocks, n);
    law_elf_blocks(file, pages, family, n);
    law_regions_keep_blocks(mem, blocks, n);
    assert forall|i: int| 0 <= i < n implies #[trigger] list[i] == (
        pages[i].0 as u32,
        page_bytes(file, pages[i].1, pages[i].1.len()),
    ) by {
        let bytes = page_bytes(file, pages[i].1, pages[i].1.len());
        lemma_block_read_back(
            blocks,
            i,
            pages[i].0 as u32,
            bytes,
            i as u32,
            n as u32,
            family.spec_id(),
        );
        assert(padded_pages(bytes, 1) =~= bytes);
    }
    assert forall|i: int|
        0 <= i < n && (#[trigger] pages[i]).0 <= a < pages[i].0 + 256 implies overlay_all(
        mem,
        list,
    )(a) == page_bytes(file, pages[i].1, pages[i].1.len())[a - pages[i].0] by {
        assert(list[i].0 == pages[i].0);
        assert forall|j: int| i < j < list.len() implies !((#[trigger] list[j]).0 <= a < list[j].0
            + list[j].1.len()) by {
            assert(pages[i].0 + 256 <= pages[j].0);
        }
        law_covered_byte(mem, list, i, a);
    }
    if forall|i: int| 0 <= i < n ==> !((#[trigger] pages[i]).0 <= a < pages[i].0 + 256) {
        assert forall|j: int| 0 <= j < list.len() implies !((#[trigger] list[j]).0 <= a < list[j].0
            + list[j].1.len()) by {
            assert(!(pages[j].0 <= a < pages[j].0 + 256));
        }
        law_uncovered_byte_stays(mem, list, a);
    }
}

pub proof fn lemma_all_fillable(len: nat, pages: Seq<PageEntry>, i: int)
    requires
        fillable(len, pages) == pages.len(),
        0 <= i < pages.len(),
    ensures
        page_available(len, pages[i].1),
    decreases pages.len(),
{
    lemma_fillable_bound(len, pages.drop_first());
    if i > 0 {
        lemma_all_fillable(len, pages.drop_first(), i - 1);
        assert(pages.drop_first()[i - 1] == pages[i]);
    }
}

/// What a page of the plan is, by its place in the list.
pub proof fn lemma_listed_page(entry: u64, segments: Seq<ElfSegment>, family: Family, i: int)
    requires
        page_plan(entry, segments, family) is Ok,
        0 <= i < page_list(page_plan(entry, segments, family)->Ok_0).len(),
    ensures
        ({
            let m = page_plan(entry, segments, family)->Ok_0;
            let page = page_list(m)[i];
            let ranges = address_ranges(family, ram_style(entry, segments, family, 0)->0);
            &&& page.0 < 0x2104_0000
            &&& page.0 % 256 == 0
            &&& m.dom().contains(page.0 as int)
            &&& page.1 == fragments_on(ranges, segments, segments.len(), page.0 as int)
        }),
{
    let m = page_plan(entry, segments, family)->Ok_0;
    law_page_addresses(m);
    law_plan_pages(entry, segments, family, page_list(m)[i].0 as int);
}

/// The pages of the list do not overlap.
pub proof fn lemma_listed_order(entry: u64, segments: Seq<ElfSegment>, family: Family, i: int, j: int)
    requires
        page_plan(entry, segments, family) is Ok,
        0 <= i < j < page_list(page_plan(entry, segments, family)->Ok_0).len(),
    ensures
        ({
            let pages = page_list(page_plan(entry, segments, family)->Ok_0);
            pages[i].0 + 256 <= pages[j].0
        }),
{
    let m = page_plan(entry, segments, family)->Ok_0;
    let list = page_addresses(m);
    assert(list[i] < list[j]) by {
        law_page_addresses(m);
    }
    assert(page_list(m)[i].0 == list[i] && page_list(m)[j].0 == list[j]);
    lemma_listed_page(entry, segments, family, i);
    lemma_listed_page(entry, segments, family, j);
}

/// Where the list holds a page of the plan.
pub proof fn lemma_page_is_listed(entry: u64, segments: Seq<ElfSegment>, family: Family, p: int) -> (i:
    int)
    requires
        page_plan(entry, segments, family) is Ok,
        page_plan(entry, segments, family)->Ok_0.dom().contains(p),
    ensures
        ({
            let pages = page_list(page_plan(entry, segments, family)->Ok_0);
            &&& 0 <= i < pages.len()
            &&& pages[i].0 == p
        }),
{
    let m = page_plan(entry, segments, family)->Ok_0;
    let list = page_addresses(m);
    law_plan_pages(entry, segments, family, p);
    law_page_addresses(m);
    assert(list.contains(p as u64));
    choose|i: int| 0 <= i < list.len() && list[i] == p as u64
}

/// The bytes of a listed page are those of the image.
pub proof fn lemma_listed_bytes(
    file: Seq<u8>,
    entry: u64,
    segments: Seq<ElfSegment>,
    family: Family,
    i: int,
    k: int,
)
    requires
        page_plan(entry, segments, family) matches Ok(m) && fillable(file.len(), page_list(m))
            == page_list(m).len(),
        0 <= i < page_list(page_plan(entry, segments, family)->Ok_0).len(),
        0 <= k < 256,
    ensures
        ({
            let page = page_list(page_plan(entry, segments, family)->Ok_0)[i];
            let ranges = address_ranges(family, ram_style(entry, segments, family, 0)->0);
            let bytes = page_bytes(file, page.1, page.1.len());
            &&& bytes.len() == 256
            &&& bytes[k] == image_byte(file, ranges, segments, segments.len(), page.0 + k)
        }),
{
    let pages = page_list(page_plan(entry, segments, family)->Ok_0);
    let ranges = address_ranges(family, ram_style(entry, segments, family, 0)->0);
    lemma_listed_page(entry, segments, family, i);
    lemma_all_fillable(file.len(), pages, i);
    law_page_holds_image(file, ranges, segments, segments.len(), pages[i].0 as int, k);
}

/// Flashing an ELF file puts the bytes of its segments at their physical addresses:
/// every page of the plan holds the file's bytes, with zeros where no segment has
/// one, and everything outside of these pages stays as it was.
pub proof fn law_flashed_elf(
    mem: Memory,
    file: Seq<u8>,
    entry: u64,
    segments: Seq<ElfSegment>,
    family: Family,
    a: int,
)
    requires
        page_plan(entry, segments, family) matches Ok(m) && fillable(file.len(), page_list(m))
            == page_list(m).len(),
    ensures
        ({
            let m = page_plan(entry, segments, family)->Ok_0;
            let pages = page_list(m);
            let blocks = elf_blocks(file, pages, family, pages.len());
            let after = overlay_all(mem, block_regions(blocks, pages.len()));
            let ranges = address_ranges(family, ram_style(entry, segments, family, 0)->0);
            if m.dom().contains(a - a % 256) {
                after(a) == image_byte(file, ranges, segments, segments.len(), a)
            } else {
                after(a) == mem(a)
            }
        }),
{
    let m = page_plan(entry, segments, family)->Ok_0;
    let pages = page_list(m);
    assert forall|i: int| 0 <= i < pages.len() implies (#[trigger] pages[i]).0 <= u32::MAX
        && page_bytes(file, pages[i].1, pages[i].1.len()).len() == 256 by {
        lemma_listed_page(entry, segments, family, i);
        lemma_listed_bytes(file, entry, segments, family, i, 0);
    }
    assert forall|i: int, j: int| 0 <= i < j < pages.len() implies (#[trigger] pages[i]).0 + 256
        <= (#[trigger] pages[j]).0 by {
        lemma_listed_order(entry, segments, family, i, j);
    }
    law_flashed_pages(mem, file, pages, family, a);
    let p = a - a % 256;
    if m.dom().contains(p) {
        let i = lemma_page_is_listed(entry, segments, family, p);
        lemma_listed_bytes(file, entry, segments, family, i, a % 256);
    } else {
        assert forall|i: int| 0 <= i < pages.len() implies !((#[trigger] pages[i]).0 <= a
            < pages[i].0 + 256) by {
            lemma_listed_page(entry, segments, family, i);
        }
    }
}

proof fn lemma_regions_end_below(data: Seq<u8>, k: nat, bound: int)
    requires
        forall|i: int|
            0 <= i < k ==> (#[trigger] block_region(data, i)).0 + block_region(data, i).1.len()
                <= bound,
    ensures
        forall|j: int|
            0 <= j < block_regions(data, k).len() ==> (#[trigger] block_regions(data, k)[j]).0
                + block_regions(data, k)[j].1.len() <= bound,
    decreases k,
{
    if k > 0 {
        let rest = block_regions(data, (k - 1) as nat);
        let r = block_region(data, k - 1);
        lemma_regions_end_below(data, (k - 1) as nat, bound);
        assert forall|j: int| 0 <= j < block_regions(data, k).len() implies (
        #[trigger] block_regions(data, k)[j]).0 + block_regions(data, k)[j].1.len() <= bound by {
            if j < rest.len() {
                assert(rest[j].0 + rest[j].1.len() <= bound);
            }
        }
    }
}

/// The regions of a converted ELF file can all be written.
proof fn lemma_elf_startable(
    file: Seq<u8>,
    entry: u64,
    segments: Seq<ElfSegment>,
    family: Family,
)
    requires
        page_plan(entry, segments, family) matches Ok(m) && fillable(file.len(), page_list(m))
            == page_list(m).len(),
    ensures
        ({
            let pages = page_list(page_plan(entry, segments, family)->Ok_0);
            let blocks = elf_blocks(file, pages, family, pages.len());
            all_startable(block_regions(blocks, pages.len()))
        }),
{
    let pages = page_list(page_plan(entry, segments, family)->Ok_0);
    let n = pages.len();
    let blocks = elf_blocks(file, pages, family, n);
    law_elf_blocks(file, pages, family, n);
    assert forall|i: int| 0 <= i < n implies (#[trigger] block_region(blocks, i)).0 + block_region(
        blocks,
        i,
    ).1.len() <= 0x2104_0100 by {
        lemma_listed_page(entry, segments, family, i);
        lemma_block_read_back(
            blocks,
            i,
            pages[i].0 as u32,
            page_bytes(file, pages[i].1, pages[i].1.len()),
            i as u32,
            n as u32,
            family.spec_id(),
        );
    }
    lemma_regions_end_below(blocks, n, 0x2104_0100);
}

/// Flashing an ELF file on a working device ends, and leaves every page of the plan with
/// the bytes of the file's segments, zeros where no segment has one, and all other bytes
/// as they were.
pub proof fn law_elf_flashing_ends(
    mem: Memory,
    file: Seq<u8>,
    entry: u64,
    segments: Seq<ElfSegment>,
    family: Family,
    no_wait: bool,
)
    requires
        page_plan(entry, segments, family) matches Ok(m) && fillable(file.len(), page_list(m))
            == page_list(m).len(),
    ensures
        ({
            let m = page_plan(entry, segments, family)->Ok_0;
            let pages = page_list(m);
            let regions = block_regions(
                elf_blocks(file, pages, family, pages.len()),
                pages.len(),
            );
            let ranges = address_ranges(family, ram_style(entry, segments, family, 0)->0);
            exists|fuel: nat|
                ({
                    let (end, after) = #[trigger] run_write(
                        write_start(regions, no_wait),
                        mem,
                        fuel,
                    );
                    end.state is Complete && (forall|a: int| #[trigger]
                        after(a) == if m.dom().contains(a - a % 256) {
                            image_byte(file, ranges, segments, segments.len(), a)
                        } else {
                            mem(a)
                        })
                })
        }),
{
    let m = page_plan(entry, segments, family)->Ok_0;
    let pages = page_list(m);
    let regions = block_regions(elf_blocks(file, pages, family, pages.len()), pages.len());
    let ranges = address_ranges(family, ram_style(entry, segments, family, 0)->0);
    lemma_elf_startable(file, entry, segments, family);
    law_regions_written(regions, no_wait, mem);
    let after = overlay_all(mem, regions);
    assert forall|a: int| #[trigger]
        after(a) == if m.dom().contains(a - a % 256) {
            image_byte(file, ranges, segments, segments.len(), a)
        } else {
            mem(a)
        } by {
        law_flashed_elf(mem, file, entry, segments, family, a);
    }
    let fuel = choose|fuel: nat|
        (#[trigger] run_write(write_start(regions, no_wait), mem, fuel)).0.state is Complete
            && run_write(write_start(regions, no_wait), mem, fuel).1 == after;
    assert(run_write(write_start(regions, no_wait), mem, fuel).1 == after);
}

// ---------------------------------------------------------------------------
// Writing a UF2 file to the BOOTSEL drive
// ---------------------------------------------------------------------------

/// Inputs below this size are converted before anything is written, so that the exact
/// byte count is known.
pub const IN_MEMORY_THRESHOLD: u64 = 0x100_0000;

/// What is done with the drive.
#[derive(Debug, Clone, Copy, PartialEq, Eq, Structural)]
pub enum StorageKind {
    /// Convert a firmware file and write it.
    Flash,
    /// Write a UF2 file that is there already.
    Write,
    /// Write a UF2 file of blank pages.
    Erase,
}

/// Why the work on the drive failed.
#[derive(Debug, Clone, Copy, PartialEq, Eq, Structural)]
pub enum StorageError {
    Reset,
    DriveTimeout,
    CreateFile,
    OpenInput,
    Conversion,
    /// Writing failed and the file was removed.
    PartialFileRemoved,
    UnmountTimeout,
}

/// The step that the work on the drive waits for.
#[derive(Debug, Clone, Copy, PartialEq, Eq, Structural)]
pub enum StorageState {
    /// Look for the drive.
    FindDrive,
    /// Reset the device into BOOTSEL mode.
    Reset,
    /// Wait for the drive.
    WaitDrive,
    /// Create the file on the drive.
    CreateFile,
    /// Open the input and learn its size.
    OpenInput,
    /// Convert the input in memory.
    Convert,
    /// Convert the input while the file is written.
    ConvertStreaming,
    /// Write the file.
    WriteFile,
    /// Remove the file.
    RemoveFile,
    /// Wait until the drive is gone.
    WaitUnmount,
    Complete,
    Failed(StorageError),
}

/// How a step of the work on the drive went.
#[derive(Debug)]
pub enum StorageEvent {
    /// There is a drive at this path.
    Drive(String),
    NoDrive,
    Done,
    /// The input has this size.
    InputSize(u64),
    Failed,
}

/// What is told of a step.
#[derive(Debug)]
pub enum Notice {
    Log { msg: String, tag: LogTag },
    SpinnerStart(String),
    SpinnerFinish(String),
    SpinnerAbandon,
    Print(String),
}

/// What a [`Notice`] says.
pub enum NoticeView {
    Log { msg: Seq<char>, tag: LogTag },
    SpinnerStart(Seq<char>),
    SpinnerFinish(Seq<char>),
    SpinnerAbandon,
    Print(Seq<char>),
}

impl View for Notice {
    type V = NoticeView;

    open spec fn view(&self) -> NoticeView {
        match self {
            Notice::Log { msg, tag } => NoticeView::Log { msg: msg@, tag: *tag },
            Notice::SpinnerStart(t) => NoticeView::SpinnerStart(t@),
            Notice::SpinnerFinish(t) => NoticeView::SpinnerFinish(t@),
            Notice::SpinnerAbandon => NoticeView::SpinnerAbandon,
            Notice::Print(t) => NoticeView::Print(t@),
        }
    }
}

/// The name of what is done.
pub open spec fn spec_op_name(kind: StorageKind) -> Seq<char> {
    match kind {
        StorageKind::Flash => "Flash"@,
        StorageKind::Write => "Write"@,
        StorageKind::Erase => "Erase"@,
    }
}

/// The name of what is done.
pub fn op_name(kind: StorageKind) -> (r: &'static str)
    ensures
        r@ == spec_op_name(kind),
{
    match kind {
        StorageKind::Flash => "Flash",
        StorageKind::Write => "Write",
        StorageKind::Erase => "Erase",
    }
}

/// What is said at the end.
pub open spec fn completion_text(kind: StorageKind, no_wait: bool) -> Seq<char> {
    if no_wait {
        spec_op_name(kind) + " complete (device left in BOOTSEL mode)"@
    } else {
        spec_op_name(kind) + " complete"@
    }
}

/// What is said at the end.
pub fn completion_message(kind: StorageKind, no_wait: bool) -> (r: String)
    ensures
        r@ == completion_text(kind, no_wait),
{
    let mut r = op_name(kind).to_owned();
    if no_wait {
        r.append(" complete (device left in BOOTSEL mode)");
    } else {
        r.append(" complete");
    }
    r
}

/// What is told at the end of writing or erasing flash directly.
pub fn completion_notice(channel: Channel, kind: StorageKind, no_wait: bool) -> (r: Option<Notice>)
    ensures
        (match channel {
            Channel::Callback => r matches Some(n) && n@ == (NoticeView::Log {
                msg: completion_text(kind, no_wait),
                tag: LogTag::Success,
            }),
            Channel::Terminal => r matches Some(n) && n@ == NoticeView::Print(
                completion_text(kind, no_wait),
            ),
            Channel::Silent => r is None,
        }),
{
    match channel {
        Channel::Callback => Some(
            Notice::Log { msg: completion_message(kind, no_wait), tag: LogTag::Success },
        ),
        Channel::Terminal => Some(Notice::Print(completion_message(kind, no_wait))),
        Channel::Silent => None,
    }
}

impl StorageError {
    /// The error in words.
    pub open spec fn spec_message(self, kind: StorageKind) -> Seq<char> {
        match self {
            StorageError::Reset => "Failed to reset device"@,
            StorageError::DriveTimeout => "Timed out waiting for BOOTSEL drive to appear"@,
            StorageError::CreateFile => "Failed to create UF2 file on BOOTSEL drive"@,
            StorageError::OpenInput => "Failed to open input file"@,
            StorageError::Conversion => "UF2 conversion failed (primary image)"@,
            StorageError::PartialFileRemoved => if kind is Flash {
                "Flash failed; partial UF2 file removed"@
            } else {
                "UF2 write failed; partial file removed"@
            },
            StorageError::UnmountTimeout => if kind is Flash {
                "Device did not unmount BOOTSEL drive after flashing"@
            } else {
                "Device did not unmount BOOTSEL drive"@
            },
        }
    }

    /// The error in words.
    pub fn message(self, kind: StorageKind) -> (r: &'static str)
        ensures
            r@ == self.spec_message(kind),
    {
        let flash: bool = match kind {
            StorageKind::Flash => true,
            _ => false,
        };
        match self {
            StorageError::Reset => "Failed to reset device",
            StorageError::DriveTimeout => "Timed out waiting for BOOTSEL drive to appear",
            StorageError::CreateFile => "Failed to create UF2 file on BOOTSEL drive",
            StorageError::OpenInput => "Failed to open input file",
            StorageError::Conversion => "UF2 conversion failed (primary image)",
            StorageError::PartialFileRemoved => if flash {
                "Flash failed; partial UF2 file removed"
            } else {
                "UF2 write failed; partial file removed"
            },
            StorageError::UnmountTimeout => if flash {
                "Device did not unmount BOOTSEL drive after flashing"
            } else {
                "Device did not unmount BOOTSEL drive"
            },
        }
    }
}

/// The state after an event.  An event that does not answer the pending step changes
/// nothing.
pub open spec fn next_storage_state(
    kind: StorageKind,
    no_wait: bool,
    state: StorageState,
    event: StorageEvent,
) -> StorageState {
    match (state, event) {
        (StorageState::FindDrive, StorageEvent::Drive(_)) => StorageState::CreateFile,
        (StorageState::FindDrive, StorageEvent::NoDrive) => StorageState::Reset,
        (StorageState::Reset, StorageEvent::Done) => StorageState::WaitDrive,
        (StorageState::Reset, StorageEvent::Failed) => StorageState::Failed(StorageError::Reset),
        (StorageState::WaitDrive, StorageEvent::Drive(_)) => StorageState::CreateFile,
        (StorageState::WaitDrive, StorageEvent::NoDrive) => StorageState::Failed(
            StorageError::DriveTimeout,
        ),
        (StorageState::CreateFile, StorageEvent::Done) => if kind is Flash {
            StorageState::OpenInput
        } else {
            StorageState::WriteFile
        },
        (StorageState::CreateFile, StorageEvent::Failed) => StorageState::Failed(
            StorageError::CreateFile,
        ),
        (StorageState::OpenInput, StorageEvent::InputSize(size)) => if size < IN_MEMORY_THRESHOLD {
            StorageState::Convert
        } else {
            StorageState::ConvertStreaming
        },
        (StorageState::OpenInput, StorageEvent::Failed) => StorageState::Failed(
            StorageError::OpenInput,
        ),
        (StorageState::Convert, StorageEvent::Done) => StorageState::WriteFile,
        (StorageState::Convert, StorageEvent::Failed) => StorageState::Failed(
            StorageError::Conversion,
        ),
        (StorageState::ConvertStreaming, StorageEvent::Done) => StorageState::WriteFile,
        (StorageState::ConvertStreaming, StorageEvent::Failed) => StorageState::RemoveFile,
        (StorageState::WriteFile, StorageEvent::Done) => if no_wait {
            StorageState::Complete
        } else {
            StorageState::WaitUnmount
        },
        (StorageState::WriteFile, StorageEvent::Failed) => StorageState::RemoveFile,
        (StorageState::RemoveFile, StorageEvent::Done) => StorageState::Failed(
            StorageError::PartialFileRemoved,
        ),
        (StorageState::RemoveFile, StorageEvent::Failed) => StorageState::Failed(
            StorageError::PartialFileRemoved,
        ),
        (StorageState::WaitUnmount, StorageEvent::Done) => StorageState::Complete,
        (StorageState::WaitUnmount, StorageEvent::Failed) => StorageState::Failed(
            StorageError::UnmountTimeout,
        ),
        (state, _) => state,
    }
}

/// What is told where something begins that takes time.
pub open spec fn start_notice(channel: Channel, msg: Seq<char>) -> Option<NoticeView> {
    match channel {
        Channel::Callback => Some(NoticeView::Log { msg, tag: LogTag::Info }),
        Channel::Terminal => Some(NoticeView::SpinnerStart(msg)),
        Channel::Silent => None,
    }
}

/// What is told where it ends well.
pub open spec fn finish_notice(channel: Channel, msg: Seq<char>) -> Option<NoticeView> {
    match channel {
        Channel::Callback => Some(NoticeView::Log { msg, tag: LogTag::Success }),
        Channel::Terminal => Some(NoticeView::SpinnerFinish(msg)),
        Channel::Silent => None,
    }
}

/// What is told where it does not.
pub open spec fn abandon_notice(channel: Channel, msg: Seq<char>) -> Option<NoticeView> {
    match channel {
        Channel::Callback => Some(NoticeView::Log { msg, tag: LogTag::Error }),
        Channel::Terminal => Some(NoticeView::SpinnerAbandon),
        Channel::Silent => None,
    }
}

/// What only a callback is told.
pub open spec fn info_notice(channel: Channel, msg: Seq<char>) -> Option<NoticeView> {
    if channel is Callback {
        Some(NoticeView::Log { msg, tag: LogTag::Info })
    } else {
        None
    }
}

/// What is told of an event.
pub open spec fn storage_notice(
    kind: StorageKind,
    no_wait: bool,
    channel: Channel,
    state: StorageState,
    event: StorageEvent,
) -> Option<NoticeView> {
    match (state, event) {
        (StorageState::FindDrive, StorageEvent::Drive(path)) => info_notice(
            channel,
            "BOOTSEL drive: "@ + path@,
        ),
        (StorageState::FindDrive, StorageEvent::NoDrive) => info_notice(
            channel,
            "Resetting device to BOOTSEL mode\u{2026}"@,
        ),
        (StorageState::Reset, StorageEvent::Done) => start_notice(
            channel,
            "Waiting for BOOTSEL drive\u{2026}"@,
        ),
        (StorageState::WaitDrive, StorageEvent::Drive(path)) => finish_notice(
            channel,
            "BOOTSEL drive: "@ + path@,
        ),
        (StorageState::WaitDrive, StorageEvent::NoDrive) => abandon_notice(
            channel,
            "Timed out waiting for BOOTSEL drive"@,
        ),
        (StorageState::WriteFile, StorageEvent::Done) => if no_wait {
            match channel {
                Channel::Callback => Some(
                    NoticeView::Log { msg: completion_text(kind, true), tag: LogTag::Success },
                ),
                Channel::Terminal => Some(NoticeView::Print(completion_text(kind, true))),
                Channel::Silent => None,
            }
        } else {
            start_notice(channel, "Waiting for device to reboot\u{2026}"@)
        },
        (StorageState::WaitUnmount, StorageEvent::Done) => finish_notice(
            channel,
            completion_text(kind, false),
        ),
        (StorageState::WaitUnmount, StorageEvent::Failed) => abandon_notice(
            channel,
            "Timed out waiting for device to reboot"@,
        ),
        _ => None,
    }
}

/// Whether `r` is the notice `v`.
pub open spec fn notice_is(r: Option<Notice>, v: Option<NoticeView>) -> bool {
    match r {
        Some(n) => v == Some(n@),
        None => v is None,
    }
}

fn tell_start(channel: Channel, msg: String) -> (r: Option<Notice>)
    ensures
        notice_is(r, start_notice(channel, msg@)),
{
    match channel {
        Channel::Callback => Some(Notice::Log { msg, tag: LogTag::Info }),
        Channel::Terminal => Some(Notice::SpinnerStart(msg)),
        Channel::Silent => None,
    }
}

fn tell_finish(channel: Channel, msg: String) -> (r: Option<Notice>)
    ensures
        notice_is(r, finish_notice(channel, msg@)),
{
    match channel {
        Channel::Callback => Some(Notice::Log { msg, tag: LogTag::Success }),
        Channel::Terminal => Some(Notice::SpinnerFinish(msg)),
        Channel::Silent => None,
    }
}

fn tell_abandon(channel: Channel, msg: String) -> (r: Option<Notice>)
    ensures
        notice_is(r, abandon_notice(channel, msg@)),
{
    match channel {
        Channel::Callback => Some(Notice::Log { msg, tag: LogTag::Error }),
        Channel::Terminal => Some(Notice::SpinnerAbandon),
        Channel::Silent => None,
    }
}

fn tell_info(channel: Channel, msg: String) -> (r: Option<Notice>)
    ensures
        notice_is(r, info_notice(channel, msg@)),
{
    match channel {
        Channel::Callback => Some(Notice::Log { msg, tag: LogTag::Info }),
        _ => None,
    }
}

/// Work on a BOOTSEL drive.
#[derive(Debug, Clone, Copy, PartialEq, Eq, Structural)]
pub struct StorageSession {
    pub kind: StorageKind,
    pub no_wait: bool,
    pub channel: Channel,
    pub state: StorageState,
}

impl StorageSession {
    fn start(kind: StorageKind, no_wait: bool, channel: Channel) -> (r: StorageSession)
        ensures
            r == (StorageSession { kind, no_wait, channel, state: StorageState::FindDrive }),
    {
        StorageSession { kind, no_wait, channel, state: StorageState::FindDrive }
    }

    fn notice(&self, event: &StorageEvent) -> (r: Option<Notice>)
        ensures
            notice_is(
                r,
                storage_notice(self.kind, self.no_wait, self.channel, self.state, *event),
            ),
    {
        match (self.state, event) {
            (StorageState::FindDrive, StorageEvent::Drive(path)) => {
                let mut msg = "BOOTSEL drive: ".to_owned();
                msg.append(path.as_str());
                tell_info(self.channel, msg)
            },
            (StorageState::FindDrive, StorageEvent::NoDrive) => tell_info(
                self.channel,
                "Resetting device to BOOTSEL mode\u{2026}".to_owned(),
            ),
            (StorageState::Reset, StorageEvent::Done) => tell_start(
                self.channel,
                "Waiting for BOOTSEL drive\u{2026}".to_owned(),
            ),
            (StorageState::WaitDrive, StorageEvent::Drive(path)) => {
                let mut msg = "BOOTSEL drive: ".to_owned();
                msg.append(path.as_str());
                tell_finish(self.channel, msg)
            },
            (StorageState::WaitDrive, StorageEvent::NoDrive) => tell_abandon(
                self.channel,
                "Timed out waiting for BOOTSEL drive".to_owned(),
            ),
            (StorageState::WriteFile, StorageEvent::Done) => {
                if self.no_wait {
                    completion_notice(self.channel, self.kind, true)
                } else {
                    tell_start(self.channel, "Waiting for device to reboot\u{2026}".to_owned())
                }
            },
            (StorageState::WaitUnmount, StorageEvent::Done) => tell_finish(
                self.channel,
                completion_message(self.kind, false),
            ),
            (StorageState::WaitUnmount, StorageEvent::Failed) => tell_abandon(
                self.channel,
                "Timed out waiting for device to reboot".to_owned(),
            ),
            _ => None,
        }
    }

    /// Takes note of how the pending step went; returns what is to be told.
    pub fn advance(&mut self, event: StorageEvent) -> (r: Option<Notice>)
        ensures
            *final(self) == (StorageSession {
                state: next_storage_state(
                    old(self).kind,
                    old(self).no_wait,
                    old(self).state,
                    event,
                ),
                ..*old(self)
            }),
            notice_is(
                r,
                storage_notice(
                    old(self).kind,
                    old(self).no_wait,
                    old(self).channel,
                    old(self).state,
                    event,
                ),
            ),
    {
        let notice = self.notice(&event);
        let flash: bool = match self.kind {
            StorageKind::Flash => true,
            _ => false,
        };
        let next = match (self.state, event) {
            (StorageState::FindDrive, StorageEvent::Drive(_)) => StorageState::CreateFile,
            (StorageState::FindDrive, StorageEvent::NoDrive) => StorageState::Reset,
            (StorageState::Reset, StorageEvent::Done) => StorageState::WaitDrive,
            (StorageState::Reset, StorageEvent::Failed) => StorageState::Failed(
                StorageError::Reset,
            ),
            (StorageState::WaitDrive, StorageEvent::Drive(_)) => StorageState::CreateFile,
            (StorageState::WaitDrive, StorageEvent::NoDrive) => StorageState::Failed(
                StorageError::DriveTimeout,
            ),
            (StorageState::CreateFile, StorageEvent::Done) => if flash {
                StorageState::OpenInput
            } else {
                StorageState::WriteFile
            },
            (StorageState::CreateFile, StorageEvent::Failed) => StorageState::Failed(
                StorageError::CreateFile,
            ),
            (StorageState::OpenInput, StorageEvent::InputSize(size)) => if size
                < IN_MEMORY_THRESHOLD {
                StorageState::Convert
            } else {
                StorageState::ConvertStreaming
            },
            (StorageState::OpenInput, StorageEvent::Failed) => StorageState::Failed(
                StorageError::OpenInput,
            ),
            (StorageState::Convert, StorageEvent::Done) => StorageState::WriteFile,
            (StorageState::Convert, StorageEvent::Failed) => StorageState::Failed(
                StorageError::Conversion,
            ),
            (StorageState::ConvertStreaming, StorageEvent::Done) => StorageState::WriteFile,
            (StorageState::ConvertStreaming, StorageEvent::Failed) => StorageState::RemoveFile,
            (StorageState::WriteFile, StorageEvent::Done) => if self.no_wait {
                StorageState::Complete
            } else {
                StorageState::WaitUnmount
            },
            (StorageState::WriteFile, StorageEvent::Failed) => StorageState::RemoveFile,
            (StorageState::RemoveFile, StorageEvent::Done) => StorageState::Failed(
                StorageError::PartialFileRemoved,
            ),
            (StorageState::RemoveFile, StorageEvent::Failed) => StorageState::Failed(
                StorageError::PartialFileRemoved,
            ),
            (StorageState::WaitUnmount, StorageEvent::Done) => StorageState::Complete,
            (StorageState::WaitUnmount, StorageEvent::Failed) => StorageState::Failed(
                StorageError::UnmountTimeout,
            ),
            (state, _) => state,
        };
        self.state = next;
        notice
    }
}

/// UF2 mass-storage implementation retained as a compatibility backend: the steps of
/// flashing a firmware file.
pub fn flash_uf2(no_wait: bool, channel: Channel) -> (r: StorageSession)
    ensures
        r == (StorageSession {
            kind: StorageKind::Flash,
            no_wait,
            channel,
            state: StorageState::FindDrive,
        }),
{
    StorageSession::start(StorageKind::Flash, no_wait, channel)
}

/// Detect (or wait for) the BOOTSEL drive, write a single UF2 file, and optionally wait
/// for the device to reboot: the steps for writing (or erasing, where `erase` holds).
pub fn run_uf2_write(erase: bool, no_wait: bool, channel: Channel) -> (r: StorageSession)
    ensures
        r == (StorageSession {
            kind: if erase {
                StorageKind::Erase
            } else {
                StorageKind::Write
            },
            no_wait,
            channel,
            state: StorageState::FindDrive,
        }),
{
    if erase {
        StorageSession::start(StorageKind::Erase, no_wait, channel)
    } else {
        StorageSession::start(StorageKind::Write, no_wait, channel)
    }
}

// ---------------------------------------------------------------------------
// Laws
// ---------------------------------------------------------------------------

/// The work is complete only after the file was written in full, and then only where
/// nobody waits for the reboot or the drive is gone.
pub proof fn law_complete_after_write(
    kind: StorageKind,
    no_wait: bool,
    state: StorageState,
    event: StorageEvent,
)
    requires
        !(state is Complete),
        next_storage_state(kind, no_wait, state, event) is Complete,
    ensures
        event is Done,
        (state is WriteFile && no_wait) || state is WaitUnmount,
{
}

/// A file that could not be written in full is removed before the work is given up.
pub proof fn law_partial_file_removed(
    kind: StorageKind,
    no_wait: bool,
    state: StorageState,
    event: StorageEvent,
)
    ensures
        state is WriteFile && event is Failed ==> next_storage_state(kind, no_wait, state, event)
            is RemoveFile,
        !(state is Failed) && next_storage_state(kind, no_wait, state, event)
            == StorageState::Failed(StorageError::PartialFileRemoved) ==> state is RemoveFile,
{
}

/// A device is reset only where no drive was found, and a drive that is there already
/// is used as it is.
pub proof fn law_reset_only_without_drive(
    kind: StorageKind,
    no_wait: bool,
    state: StorageState,
    event: StorageEvent,
)
    requires
        !(state is Reset),
        next_storage_state(kind, no_wait, state, event) is Reset,
    ensures
        state is FindDrive,
        event is NoDrive,
{
}

/// With a callback nothing goes to the terminal, and in silence nothing is told at all.
pub proof fn law_notices_follow_channel(
    kind: StorageKind,
    no_wait: bool,
    channel: Channel,
    state: StorageState,
    event: StorageEvent,
)
    ensures
        channel is Silent ==> storage_notice(kind, no_wait, channel, state, event) is None,
        channel is Callback ==> (storage_notice(kind, no_wait, channel, state, event) matches Some(
            n,
        ) ==> n is Log),
        channel is Terminal ==> (storage_notice(kind, no_wait, channel, state, event) matches Some(
            n,
        ) ==> !(n is Log)),
{
}

/// A file is taken for an ELF file where it starts with the byte 0x7F and the letters ELF.
pub proof fn law_elf_magic(head: Seq<u8>)
    ensures
        is_elf(head) <==> head.len() >= 4 && head.take(4) == seq![0x7Fu8, 0x45, 0x4C, 0x46],
{
    if is_elf(head) {
        assert(head.take(4) =~= seq![0x7Fu8, 0x45, 0x4C, 0x46]);
    }
    if head.len() >= 4 && head.take(4) == seq![0x7Fu8, 0x45, 0x4C, 0x46] {
        assert(head[0] == head.take(4)[0]);
        assert(head[1] == head.take(4)[1]);
        assert(head[2] == head.take(4)[2]);
        assert(head[3] == head.take(4)[3]);
    }
}

/// The parts of a file are named by the file and their numbers, counted from zero.
pub proof fn law_part_labels(path: Seq<char>, i: nat)
    ensures
        part_label(path, i as int).len() > path.len() + 1,
        part_label(path, i as int).take(path.len() as int) == path,
        part_label(path, i as int)[path.len() as int] == '#',
        number_value(part_label(path, i as int).skip((path.len() + 1) as int), 10, i as int) == Ok::<
            int,
            NumberError,
        >(i as int),
{
    reveal_strlit("#");
    let label = part_label(path, i as int);
    law_written_numbers(i, 1, i as int);
    law_padded_width(i, 10, 1);
    assert(label.take(path.len() as int) =~= path);
    assert(label.skip((path.len() + 1) as int) =~= decimal(i));
}

/// A drive that is there is used.  Without one the device is reset, and then the drive has
/// to appear.
pub proof fn law_drive_is_sought(kind: StorageKind, no_wait: bool, path: String)
    ensures
        next_storage_state(kind, no_wait, StorageState::FindDrive, StorageEvent::Drive(path))
            is CreateFile,
        next_storage_state(kind, no_wait, StorageState::FindDrive, StorageEvent::NoDrive) is Reset,
        next_storage_state(kind, no_wait, StorageState::Reset, StorageEvent::Done) is WaitDrive,
        next_storage_state(kind, no_wait, StorageState::Reset, StorageEvent::Failed)
            == StorageState::Failed(StorageError::Reset),
        next_storage_state(kind, no_wait, StorageState::WaitDrive, StorageEvent::Drive(path))
            is CreateFile,
        next_storage_state(kind, no_wait, StorageState::WaitDrive, StorageEvent::NoDrive)
            == StorageState::Failed(StorageError::DriveTimeout),
{
}

/// Once the file is created, flashing opens its input and converts it, in memory where it
/// is smaller than 16 MiB; the other kinds of work write what they have.
pub proof fn law_file_is_prepared(kind: StorageKind, no_wait: bool, size: u64)
    ensures
        kind is Flash ==> next_storage_state(
            kind,
            no_wait,
            StorageState::CreateFile,
            StorageEvent::Done,
        ) is OpenInput,
        !(kind is Flash) ==> next_storage_state(
            kind,
            no_wait,
            StorageState::CreateFile,
            StorageEvent::Done,
        ) is WriteFile,
        next_storage_state(kind, no_wait, StorageState::CreateFile, StorageEvent::Failed)
            == StorageState::Failed(StorageError::CreateFile),
        size < 16 * 1024 * 1024 ==> next_storage_state(
            kind,
            no_wait,
            StorageState::OpenInput,
            StorageEvent::InputSize(size),
        ) is Convert,
        size >= 16 * 1024 * 1024 ==> next_storage_state(
            kind,
            no_wait,
            StorageState::OpenInput,
            StorageEvent::InputSize(size),
        ) is ConvertStreaming,
        next_storage_state(kind, no_wait, StorageState::OpenInput, StorageEvent::Failed)
            == StorageState::Failed(StorageError::OpenInput),
        next_storage_state(kind, no_wait, StorageState::Convert, StorageEvent::Done) is WriteFile,
        next_storage_state(kind, no_wait, StorageState::Convert, StorageEvent::Failed)
            == StorageState::Failed(StorageError::Conversion),
        next_storage_state(kind, no_wait, StorageState::ConvertStreaming, StorageEvent::Done)
            is WriteFile,
        next_storage_state(kind, no_wait, StorageState::ConvertStreaming, StorageEvent::Failed)
            is RemoveFile,
{
}

/// Once the file is written, the work waits for the drive to go unless nobody wants to
/// wait.
pub proof fn law_file_is_written(kind: StorageKind, no_wait: bool)
    ensures
        no_wait ==> next_storage_state(kind, no_wait, StorageState::WriteFile, StorageEvent::Done)
            is Complete,
        !no_wait ==> next_storage_state(kind, no_wait, StorageState::WriteFile, StorageEvent::Done)
            is WaitUnmount,
        next_storage_state(kind, no_wait, StorageState::WriteFile, StorageEvent::Failed)
            is RemoveFile,
        next_storage_state(kind, no_wait, StorageState::RemoveFile, StorageEvent::Done)
            == StorageState::Failed(StorageError::PartialFileRemoved),
        next_storage_state(kind, no_wait, StorageState::RemoveFile, StorageEvent::Failed)
            == StorageState::Failed(StorageError::PartialFileRemoved),
        next_storage_state(kind, no_wait, StorageState::WaitUnmount, StorageEvent::Done)
            is Complete,
        next_storage_state(kind, no_wait, StorageState::WaitUnmount, StorageEvent::Failed)
            == StorageState::Failed(StorageError::UnmountTimeout),
{
}

/// Work on a drive that is over stays over.
pub proof fn law_storage_over(
    kind: StorageKind,
    no_wait: bool,
    state: StorageState,
    event: StorageEvent,
)
    requires
        state is Complete || state is Failed,
    ensures
        next_storage_state(kind, no_wait, state, event) == state,
{
}

/// What is said at the end names what was done, and that the device was left in BOOTSEL
/// mode exactly where nobody waited for it to reboot.
pub proof fn law_completion_texts()
    ensures
        completion_text(StorageKind::Flash, false) == "Flash"@ + " complete"@,
        completion_text(StorageKind::Write, false) == "Write"@ + " complete"@,
        completion_text(StorageKind::Erase, false) == "Erase"@ + " complete"@,
        completion_text(StorageKind::Flash, true) == "Flash"@
            + " complete (device left in BOOTSEL mode)"@,
        completion_text(StorageKind::Write, true) == "Write"@
            + " complete (device left in BOOTSEL mode)"@,
        completion_text(StorageKind::Erase, true) == "Erase"@
            + " complete (device left in BOOTSEL mode)"@,
{
}

/// A callback is told of the drive that is used, of the wait for it and of its end, with
/// the tag that fits.
pub proof fn law_drive_notices(kind: StorageKind, no_wait: bool, path: String)
    ensures
        storage_notice(
            kind,
            no_wait,
            Channel::Callback,
            StorageState::FindDrive,
            StorageEvent::Drive(path),
        ) == Some(NoticeView::Log { msg: "BOOTSEL drive: "@ + path@, tag: LogTag::Info }),
        storage_notice(
            kind,
            no_wait,
            Channel::Callback,
            StorageState::WaitDrive,
            StorageEvent::Drive(path),
        ) == Some(NoticeView::Log { msg: "BOOTSEL drive: "@ + path@, tag: LogTag::Success }),
        storage_notice(
            kind,
            no_wait,
            Channel::Terminal,
            StorageState::WaitDrive,
            StorageEvent::Drive(path),
        ) == Some(NoticeView::SpinnerFinish("BOOTSEL drive: "@ + path@)),
        storage_notice(
            kind,
            no_wait,
            Channel::Callback,
            StorageState::WaitDrive,
            StorageEvent::NoDrive,
        ) matches Some(NoticeView::Log { tag, .. }) && tag is Error,
        storage_notice(
            kind,
            no_wait,
            Channel::Terminal,
            StorageState::WaitDrive,
            StorageEvent::NoDrive,
        ) == Some(NoticeView::SpinnerAbandon),
        storage_notice(
            kind,
            no_wait,
            Channel::Terminal,
            StorageState::FindDrive,
            StorageEvent::Drive(path),
        ) is None,
        storage_notice(
            kind,
            no_wait,
            Channel::Callback,
            StorageState::FindDrive,
            StorageEvent::NoDrive,
        ) matches Some(NoticeView::Log { tag, .. }) && tag is Info,
        storage_notice(
            kind,
            no_wait,
            Channel::Callback,
            StorageState::Reset,
            StorageEvent::Done,
        ) matches Some(NoticeView::Log { tag, .. }) && tag is Info,
        storage_notice(
            kind,
            no_wait,
            Channel::Terminal,
            StorageState::Reset,
            StorageEvent::Done,
        ) matches Some(NoticeView::SpinnerStart(_)),
{
}

/// The end of the work is told with the completion text: as a success to a callback, and
/// on the terminal as the end of the spinner that was started when the wait began.
pub proof fn law_completion_notices(kind: StorageKind)
    ensures
        storage_notice(
            kind,
            true,
            Channel::Callback,
            StorageState::WriteFile,
            StorageEvent::Done,
        ) == Some(
            NoticeView::Log { msg: completion_text(kind, true), tag: LogTag::Success },
        ),
        storage_notice(
            kind,
            true,
            Channel::Terminal,
            StorageState::WriteFile,
            StorageEvent::Done,
        ) == Some(NoticeView::Print(completion_text(kind, true))),
        storage_notice(
            kind,
            false,
            Channel::Terminal,
            StorageState::WriteFile,
            StorageEvent::Done,
        ) matches Some(NoticeView::SpinnerStart(_)),
        storage_notice(
            kind,
            false,
            Channel::Callback,
            StorageState::WriteFile,
            StorageEvent::Done,
        ) matches Some(NoticeView::Log { tag, .. }) && tag is Info,
        storage_notice(
            kind,
            false,
            Channel::Callback,
            StorageState::WaitUnmount,
            StorageEvent::Done,
        ) == Some(
            NoticeView::Log { msg: completion_text(kind, false), tag: LogTag::Success },
        ),
        storage_notice(
            kind,
            false,
            Channel::Terminal,
            StorageState::WaitUnmount,
            StorageEvent::Done,
        ) == Some(NoticeView::SpinnerFinish(completion_text(kind, false))),
        storage_notice(
            kind,
            false,
            Channel::Terminal,
            StorageState::WaitUnmount,
            StorageEvent::Failed,
        ) == Some(NoticeView::SpinnerAbandon),
        storage_notice(
            kind,
            false,
            Channel::Callback,
            StorageState::WaitUnmount,
            StorageEvent::Failed,
        ) matches Some(NoticeView::Log { tag, .. }) && tag is Error,
{
}

} // verus!
