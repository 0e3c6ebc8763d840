//! What writing, erasing and reading promise, in terms of the targets, the ranges and the
//! bytes in memory.

use vstd::prelude::*;

use crate::flash_ops::{FlashError, FlashOpView, FlashReplyView};
use crate::le::word_at;
use crate::memory::{law_covered_byte, law_uncovered_byte_stays, overlay_all, Memory, Region};
use crate::region::region_start;
use crate::uf2::{
    block_at, block_regions, law_image_blocks, law_block_fields, law_renumbered_blocks,
    page_count, renumbered, stated_count, uf2_error, uf2_image,
};
use crate::write::{
    block_total, images, images_fit, law_file_writes_regions, law_range_erased, law_range_read,
    law_regions_written, lowest_addr, next_region, padded_regions, read_start, run_erase, run_read,
    run_write, target_regions, total_len, write_start, EraseSession, EraseState, ReadState,
    ReadView, WriteStateView, WriteTarget, WriteView,
};

verus! {

// ---------------------------------------------------------------------------
// Writing
// ---------------------------------------------------------------------------

/// A region can be written exactly where the sector that it ends in ends within 32 bits,
/// and the error tells which bound it breaks.
pub proof fn law_region_bounds(address: u32, data: Seq<u8>)
    ensures
        (match region_start(address, data) {
            Ok(_) => address + data.len() + 4095 <= u32::MAX,
            Err(FlashError::TooLarge) => data.len() > u32::MAX,
            Err(FlashError::WriteRangeOverflow) => data.len() <= u32::MAX && address + data.len()
                > u32::MAX,
            Err(FlashError::AlignmentOverflow) => address + data.len() <= u32::MAX && address
                + data.len() + 4095 > u32::MAX,
            Err(_) => false,
        }),
{
}

/// Whether target `i` covers the address `a`.
pub open spec fn target_covers(
    targets: Seq<WriteTarget>,
    files: Seq<Vec<u8>>,
    i: int,
    a: int,
) -> bool {
    targets[i].address <= a < targets[i].address + files[i]@.len()
}

/// The regions of the targets are the targets: each file at the address that is given for
/// it, in the given order, behind a blank first page where that is asked for.
pub proof fn law_target_regions(targets: Seq<WriteTarget>, files: Seq<Vec<u8>>, erase_boot: bool)
    requires
        targets.len() == files.len(),
    ensures
        ({
            let regions = target_regions(targets, files, erase_boot);
            let skip: int = if erase_boot {
                1
            } else {
                0
            };
            &&& regions.len() == targets.len() + skip
            &&& forall|i: int|
                0 <= i < targets.len() ==> #[trigger] regions[i + skip] == (
                    targets[i].address,
                    files[i]@,
                )
            &&& erase_boot ==> regions[0].0 == 0x1000_0000 && regions[0].1.len() == 256 && (forall|
                k: int,
            |
                0 <= k < 256 ==> #[trigger] regions[0].1[k] == 0xFF)
        }),
{
}

/// Writing targets on a working device ends.  Then every byte of a file that no later file
/// covers stands at its address, and every byte that no file covers is as it was, but for
/// the blank first page where that is asked for.
pub proof fn law_targets_written(
    targets: Seq<WriteTarget>,
    files: Seq<Vec<u8>>,
    erase_boot: bool,
    no_wait: bool,
    mem: Memory,
)
    requires
        targets.len() == files.len(),
        forall|i: int|
            0 <= i < targets.len() ==> (#[trigger] targets[i]).address + files[i]@.len() + 4095
                <= u32::MAX,
    ensures
        exists|fuel: nat|
            ({
                let (end, after) = #[trigger] run_write(
                    write_start(target_regions(targets, files, erase_boot), no_wait),
                    mem,
                    fuel,
                );
                &&& end.state is Complete
                &&& forall|i: int, a: int|
                    0 <= i < targets.len() && #[trigger] target_covers(targets, files, i, a) && (
                    forall|h: int|
                        i < h < targets.len() ==> !#[trigger] target_covers(targets, files, h, a))
                        ==> after(a) == files[i]@[a - targets[i].address]
                &&& forall|a: int|
                    (forall|i: int|
                        0 <= i < targets.len() ==> !#[trigger] target_covers(targets, files, i, a))
                        ==> #[trigger] after(a) == if erase_boot && 0x1000_0000 <= a
                        < 0x1000_0100 {
                        0xFF
                    } else {
                        mem(a)
                    }
            }),
{
    let regions = target_regions(targets, files, erase_boot);
    let skip: int = if erase_boot {
        1
    } else {
        0
    };
    law_target_regions(targets, files, erase_boot);
    assert forall|k: int| 0 <= k < regions.len() && (#[trigger] regions[k]).1.len() > 0 implies
        region_start(regions[k].0, regions[k].1) is Ok by {
        if k >= skip {
            assert(regions[(k - skip) + skip] == (
                targets[k - skip].address,
                files[k - skip]@,
            ));
            assert(targets[k - skip].address + files[k - skip]@.len() + 4095 <= u32::MAX);
        }
        law_region_bounds(regions[k].0, regions[k].1);
    }
    law_regions_written(regions, no_wait, mem);
    let fuel = choose|fuel: nat|
        (#[trigger] run_write(write_start(regions, no_wait), mem, fuel)).0.state is Complete
            && run_write(write_start(regions, no_wait), mem, fuel).1 == overlay_all(mem, regions)
            && run_write(write_start(regions, no_wait), mem, fuel).0.first_addr == lowest_addr(
            None,
            regions,
        );
    let (end, after) = run_write(write_start(regions, no_wait), mem, fuel);
    lemma_targets_in_memory(targets, files, erase_boot, mem);
}

proof fn lemma_targets_in_memory(
    targets: Seq<WriteTarget>,
    files: Seq<Vec<u8>>,
    erase_boot: bool,
    mem: Memory,
)
    requires
        targets.len() == files.len(),
    ensures
        ({
            let after = overlay_all(mem, target_regions(targets, files, erase_boot));
            &&& forall|i: int, a: int|
                0 <= i < targets.len() && #[trigger] target_covers(targets, files, i, a) && (forall|
                    h: int,
                |
                    i < h < targets.len() ==> !#[trigger] target_covers(targets, files, h, a))
                    ==> after(a) == files[i]@[a - targets[i].address]
            &&& forall|a: int|
                (forall|i: int|
                    0 <= i < targets.len() ==> !#[trigger] target_covers(targets, files, i, a))
                    ==> #[trigger] after(a) == if erase_boot && 0x1000_0000 <= a < 0x1000_0100 {
                    0xFF
                } else {
                    mem(a)
                }
        }),
{
    let regions = target_regions(targets, files, erase_boot);
    let after = overlay_all(mem, regions);
    let skip: int = if erase_boot {
        1
    } else {
        0
    };
    law_target_regions(targets, files, erase_boot);
    assert forall|i: int, a: int|
        0 <= i < targets.len() && #[trigger] target_covers(targets, files, i, a) && (forall|h: int|
            i < h < targets.len() ==> !#[trigger] target_covers(targets, files, h, a)) implies after(
    a) == files[i]@[a - targets[i].address] by {
        assert(regions[i + skip] == (targets[i].address, files[i]@));
        assert forall|k: int| i + skip < k < regions.len() implies !((#[trigger] regions[k]).0 <= a
            < regions[k].0 + regions[k].1.len()) by {
            assert(regions[(k - skip) + skip] == (targets[k - skip].address, files[k - skip]@));
            assert(!target_covers(targets, files, k - skip, a));
        }
        law_covered_byte(mem, regions, i + skip, a);
    }
    assert forall|a: int|
        (forall|i: int| 0 <= i < targets.len() ==> !#[trigger] target_covers(targets, files, i, a))
            implies #[trigger] after(a) == (if erase_boot && 0x1000_0000 <= a < 0x1000_0100 {
        0xFF
    } else {
        mem(a)
    }) by {
        assert forall|k: int| skip <= k < regions.len() implies !((#[trigger] regions[k]).0 <= a
            < regions[k].0 + regions[k].1.len()) by {
            assert(regions[(k - skip) + skip] == (targets[k - skip].address, files[k - skip]@));
            assert(!target_covers(targets, files, k - skip, a));
        }
        if erase_boot && 0x1000_0000 <= a < 0x1000_0100 {
            law_covered_byte(mem, regions, 0, a);
        } else {
            law_uncovered_byte_stays(mem, regions, a);
        }
    }
}

/// The address after the last page that target `i` fills.
pub open spec fn target_page_end(targets: Seq<WriteTarget>, files: Seq<Vec<u8>>, i: int) -> int {
    targets[i].address + 256 * ((files[i]@.len() + 255) / 256)
}

/// The UF2 file for targets is valid.  Flashing it puts every byte of a file that no later
/// file's pages cover at its address, and leaves every byte that no file's pages cover as
/// it was, but for the blank first page where that is asked for.
pub proof fn law_target_file(
    targets: Seq<WriteTarget>,
    files: Seq<Vec<u8>>,
    erase_boot: bool,
    family_id: u32,
    mem: Memory,
)
    requires
        targets.len() == files.len(),
        images_fit(
            target_regions(targets, files, erase_boot),
            target_regions(targets, files, erase_boot).len(),
        ),
    ensures
        ({
            let regions = target_regions(targets, files, erase_boot);
            let n = block_total(regions, regions.len());
            let file = renumbered(images(regions, family_id, regions.len()), 0, n as u32);
            let after = overlay_all(mem, block_regions(file, (file.len() / 512) as nat));
            &&& uf2_error(file) is None
            &&& forall|i: int, a: int|
                0 <= i < targets.len() && #[trigger] target_covers(targets, files, i, a) && (forall|
                    h: int,
                |
                    i < h < targets.len() ==> !((#[trigger] targets[h]).address <= a
                        < target_page_end(targets, files, h))) ==> after(a) == files[i]@[a
                    - targets[i].address]
            &&& forall|a: int|
                (forall|i: int|
                    0 <= i < targets.len() ==> !((#[trigger] targets[i]).address <= a
                        < target_page_end(targets, files, i))) ==> #[trigger] after(a)
                    == if erase_boot && 0x1000_0000 <= a < 0x1000_0100 {
                    0xFF
                } else {
                    mem(a)
                }
        }),
{
    let regions = target_regions(targets, files, erase_boot);
    let padded = padded_regions(regions);
    let n = block_total(regions, regions.len());
    let file = renumbered(images(regions, family_id, regions.len()), 0, n as u32);
    let skip: int = if erase_boot {
        1
    } else {
        0
    };
    law_target_regions(targets, files, erase_boot);
    law_file_writes_regions(mem, regions, family_id);
    crate::write::lemma_images_len(regions, family_id, regions.len());
    assert(file.len() / 512 == n);
    assert forall|i: int| 0 <= i < targets.len() implies padded_target(
        padded[i + skip],
        #[trigger] targets[i],
        files[i]@,
    ) by {
        assert(regions[i + skip] == (targets[i].address, files[i]@));
    }
    if erase_boot {
        assert forall|k: int| 0 <= k < 256 implies #[trigger] padded[0].1[k] == 0xFF by {
            assert(regions[0].1[k] == 0xFF);
        }
    }
    lemma_padded_in_memory(targets, files, erase_boot, padded, mem);
}

/// Whether a region is the file of a target filled up to whole pages.
spec fn padded_target(r: Region, target: WriteTarget, file: Seq<u8>) -> bool {
    &&& r.0 == target.address
    &&& r.1.len() == 256 * ((file.len() + 255) / 256)
    &&& forall|k: int| 0 <= k < file.len() ==> #[trigger] r.1[k] == file[k]
}

proof fn lemma_padded_in_memory(
    targets: Seq<WriteTarget>,
    files: Seq<Vec<u8>>,
    erase_boot: bool,
    padded: Seq<Region>,
    mem: Memory,
)
    requires
        targets.len() == files.len(),
        ({
            let skip: int = if erase_boot {
                1
            } else {
                0
            };
            &&& padded.len() == targets.len() + skip
            &&& forall|i: int|
                0 <= i < targets.len() ==> padded_target(
                    padded[i + skip],
                    #[trigger] targets[i],
                    files[i]@,
                )
        }),
        erase_boot ==> padded[0].0 == 0x1000_0000 && padded[0].1.len() == 256 && (forall|k: int|
            0 <= k < 256 ==> #[trigger] padded[0].1[k] == 0xFF),
    ensures
        ({
            let after = overlay_all(mem, padded);
            &&& forall|i: int, a: int|
                0 <= i < targets.len() && #[trigger] target_covers(targets, files, i, a) && (forall|
                    h: int,
                |
                    i < h < targets.len() ==> !((#[trigger] targets[h]).address <= a
                        < target_page_end(targets, files, h))) ==> after(a) == files[i]@[a
                    - targets[i].address]
            &&& forall|a: int|
                (forall|i: int|
                    0 <= i < targets.len() ==> !((#[trigger] targets[i]).address <= a
                        < target_page_end(targets, files, i))) ==> #[trigger] after(a)
                    == if erase_boot && 0x1000_0000 <= a < 0x1000_0100 {
                    0xFF
                } else {
                    mem(a)
                }
        }),
{
    let after = overlay_all(mem, padded);
    let skip: int = if erase_boot {
        1
    } else {
        0
    };
    assert forall|i: int, a: int|
        0 <= i < targets.len() && #[trigger] target_covers(targets, files, i, a) && (forall|h: int|
            i < h < targets.len() ==> !((#[trigger] targets[h]).address <= a < target_page_end(
                targets,
                files,
                h,
            ))) implies after(a) == files[i]@[a - targets[i].address] by {
        assert(padded_target(padded[i + skip], targets[i], files[i]@));
        assert forall|k: int| i + skip < k < padded.len() implies !((#[trigger] padded[k]).0 <= a
            < padded[k].0 + padded[k].1.len()) by {
            let h = k - skip;
            assert(padded_target(padded[h + skip], targets[h], files[h]@));
            assert(!(targets[h].address <= a < target_page_end(targets, files, h)));
        }
        law_covered_byte(mem, padded, i + skip, a);
    }
    assert forall|a: int|
        (forall|i: int|
            0 <= i < targets.len() ==> !((#[trigger] targets[i]).address <= a < target_page_end(
                targets,
                files,
                i,
            ))) implies #[trigger] after(a) == (if erase_boot && 0x1000_0000 <= a < 0x1000_0100 {
        0xFF
    } else {
        mem(a)
    }) by {
        assert forall|k: int| skip <= k < padded.len() implies !((#[trigger] padded[k]).0 <= a
            < padded[k].0 + padded[k].1.len()) by {
            let h = k - skip;
            assert(padded_target(padded[h + skip], targets[h], files[h]@));
            assert(!(targets[h].address <= a < target_page_end(targets, files, h)));
        }
        if erase_boot && 0x1000_0000 <= a < 0x1000_0100 {
            law_covered_byte(mem, padded, 0, a);
        } else {
            law_uncovered_byte_stays(mem, padded, a);
        }
    }
}

/// The blocks of the UF2 file for several binaries are numbered through, and each tells
/// their number and the family.
pub proof fn law_target_file_blocks(regions: Seq<Region>, family_id: u32, i: int)
    requires
        images_fit(regions, regions.len()),
        0 <= i < block_total(regions, regions.len()),
    ensures
        ({
            let n = block_total(regions, regions.len());
            let file = renumbered(images(regions, family_id, regions.len()), 0, n as u32);
            let b = block_at(file, i);
            &&& file.len() == 512 * n
            &&& word_at(b, 20) == i
            &&& word_at(b, 24) == n
            &&& word_at(b, 28) == family_id
        }),
{
    let n = block_total(regions, regions.len());
    let data = images(regions, family_id, regions.len());
    crate::write::lemma_images_len(regions, family_id, regions.len());
    assert(data.len() / 512 == n);
    law_renumbered_blocks(data, 0, n as u32, i);
    lemma_images_family(regions, family_id, regions.len(), i);
    let file = renumbered(data, 0, n as u32);
    let before = block_at(data, i);
    let after = block_at(file, i);
    assert forall|k: int| 28 <= k < 512 implies before[k] == after[k] by {
        assert(before.subrange(28, 512)[k - 28] == before[k]);
        assert(after.subrange(28, 512)[k - 28] == after[k]);
    }
}

proof fn lemma_images_family(regions: Seq<Region>, family_id: u32, k: nat, i: int)
    requires
        0 <= i < block_total(regions, k),
    ensures
        word_at(block_at(images(regions, family_id, k), i), 28) == family_id,
    decreases k,
{
    let r = regions[k - 1];
    let rest = images(regions, family_id, (k - 1) as nat);
    let m = block_total(regions, (k - 1) as nat);
    let image = uf2_image(r.1, r.0, family_id);
    let c = stated_count(r.1.len());
    crate::write::lemma_images_len(regions, family_id, (k - 1) as nat);
    law_image_blocks(r.1, r.0, c, family_id, page_count(r.1.len()));
    if i < m {
        lemma_images_family(regions, family_id, (k - 1) as nat, i);
        assert(block_at(rest + image, i) =~= block_at(rest, i));
    } else {
        let h = i - m;
        assert(block_at(rest + image, i) =~= block_at(image, h));
        law_block_fields(
            (r.0 + 256 * h) as u32,
            crate::uf2::page(r.1, h),
            h as u32,
            c,
            family_id,
        );
    }
}

/// The number of bytes in regions adds up.
pub proof fn law_total_adds_up(regions: Seq<Region>, address: u32, data: Seq<u8>)
    ensures
        total_len(Seq::<Region>::empty()) == 0,
        total_len(regions.push((address, data))) == total_len(regions) + data.len(),
{
    assert(regions.push((address, data)).drop_last() =~= regions);
}

/// Every session leaves execute-in-place mode before anything else.
pub proof fn law_sessions_begin(
    regions: Seq<Region>,
    no_wait: bool,
    address: u32,
    length: u32,
    base: u32,
    size: u32,
)
    ensures
        write_start(regions, no_wait).op() == Some(FlashOpView::ExitXip),
        read_start(address, length).op() == Some(FlashOpView::ExitXip),
        (EraseSession { base, size, no_wait, state: EraseState::ExitXip }).op() == Some(
            FlashOpView::ExitXip,
        ),
{
}

/// A failed operation ends a write session with an error that tells the operation and the
/// address.  Only a reboot counts as done all the same.
pub proof fn law_write_failures(s: WriteView)
    requires
        s.wf(),
        s.op() is Some,
    ensures
        ({
            let next = s.next(FlashReplyView::Failed);
            &&& next.op() is None
            &&& next.state == (match s.op()->0 {
                FlashOpView::ExitXip => WriteStateView::Failed(FlashError::ExitXip),
                FlashOpView::Read { addr, .. } => WriteStateView::Failed(
                    FlashError::ReadSector { addr },
                ),
                FlashOpView::Erase { addr, .. } => WriteStateView::Failed(
                    FlashError::EraseSector { addr },
                ),
                FlashOpView::Write { addr, .. } => WriteStateView::Failed(
                    FlashError::WritePage { addr },
                ),
                _ => WriteStateView::Complete,
            })
        }),
{
}

// ---------------------------------------------------------------------------
// The reboot after writing
// ---------------------------------------------------------------------------

proof fn lemma_run_write_step(s: WriteView, mem: Memory, fuel: nat)
    ensures
        ({
            let (t, m) = run_write(s, mem, fuel);
            run_write(s, mem, fuel + 1) == (match t.op() {
                Some(op) => {
                    let (after, reply) = crate::flash_ops::device_step(m, op);
                    (t.next(reply), after)
                },
                None => (t, m),
            })
        }),
    decreases fuel,
{
    if fuel == 0 {
        reveal_with_fuel(run_write, 2);
    } else {
        match s.op() {
            Some(op) => {
                let (after, reply) = crate::flash_ops::device_step(mem, op);
                lemma_run_write_step(s.next(reply), after, (fuel - 1) as nat);
            },
            None => {},
        }
    }
}

/// The lowest address of a region with data, or where flash starts.
pub open spec fn is_reboot_address(regions: Seq<Region>, addr: u32) -> bool {
    if forall|i: int| 0 <= i < regions.len() ==> (#[trigger] regions[i]).1.len() == 0 {
        addr == 0x1000_0000
    } else {
        &&& forall|i: int|
            0 <= i < regions.len() && (#[trigger] regions[i]).1.len() > 0 ==> addr <= regions[i].0
        &&& exists|i: int|
            0 <= i < regions.len() && (#[trigger] regions[i]).1.len() > 0 && addr == regions[i].0
    }
}

/// Whether `known` is the lowest address of the first `k` regions that have data.
spec fn lowest_so_far(regions: Seq<Region>, k: int, known: Option<u32>) -> bool {
    match known {
        None => forall|i: int| 0 <= i < k ==> (#[trigger] regions[i]).1.len() == 0,
        Some(addr) => {
            &&& forall|i: int|
                0 <= i < k && (#[trigger] regions[i]).1.len() > 0 ==> addr <= regions[i].0
            &&& exists|i: int|
                0 <= i < k && (#[trigger] regions[i]).1.len() > 0 && addr == regions[i].0
        },
    }
}

/// Whether a session stands somewhere in writing `regions`.
spec fn stands_in(s: WriteView, regions: Seq<Region>, no_wait: bool) -> bool {
    &&& s.no_wait == no_wait
    &&& s.pending.len() <= regions.len()
    &&& s.pending == regions.skip(regions.len() - s.pending.len())
    &&& lowest_so_far(regions, regions.len() - s.pending.len(), s.first_addr)
    &&& s.state matches WriteStateView::Reboot(addr) ==> !no_wait && is_reboot_address(
        regions,
        addr,
    )
}

proof fn lemma_next_region_stands(
    regions: Seq<Region>,
    no_wait: bool,
    first_addr: Option<u32>,
    k: int,
)
    requires
        0 <= k <= regions.len(),
        lowest_so_far(regions, k, first_addr),
    ensures
        stands_in(next_region(regions.skip(k), no_wait, first_addr), regions, no_wait),
    decreases regions.len() - k,
{
    let pending = regions.skip(k);
    if k == regions.len() {
        assert(pending.len() == 0);
    } else {
        assert(pending[0] == regions[k]);
        assert(pending.drop_first() =~= regions.skip(k + 1));
        if pending[0].1.len() == 0 {
            lemma_next_region_stands(regions, no_wait, first_addr, k + 1);
        } else {
            let low = crate::write::lower_addr(first_addr, pending[0].0);
            assert(lowest_so_far(regions, k + 1, Some(low))) by {
                if first_addr is Some && first_addr->0 < regions[k].0 {
                    let i = choose|i: int|
                        0 <= i < k && (#[trigger] regions[i]).1.len() > 0 && first_addr->0
                            == regions[i].0;
                    assert(regions[i].1.len() > 0 && low == regions[i].0);
                } else {
                    assert(regions[k].1.len() > 0 && low == regions[k].0);
                }
            }
            assert(regions.skip(k + 1).len() == regions.len() - (k + 1));
        }
    }
}

proof fn lemma_stands_in_run(regions: Seq<Region>, no_wait: bool, mem: Memory, fuel: nat)
    ensures
        stands_in(run_write(write_start(regions, no_wait), mem, fuel).0, regions, no_wait),
    decreases fuel,
{
    let s = write_start(regions, no_wait);
    if fuel == 0 {
        assert(regions.skip(0) =~= regions);
    } else {
        lemma_stands_in_run(regions, no_wait, mem, (fuel - 1) as nat);
        lemma_run_write_step(s, mem, (fuel - 1) as nat);
        let t = run_write(s, mem, (fuel - 1) as nat).0;
        lemma_next_region_stands(
            regions,
            no_wait,
            t.first_addr,
            regions.len() - t.pending.len(),
        );
    }
}

/// A write session that is not to wait never reboots the device.  Any other is complete
/// only behind a reboot, and tells the device the lowest address of a region with data.
pub proof fn law_reboot_after_writing(
    regions: Seq<Region>,
    no_wait: bool,
    mem: Memory,
    fuel: nat,
)
    ensures
        ({
            let s = run_write(write_start(regions, no_wait), mem, fuel).0;
            &&& s.op() matches Some(FlashOpView::RebootFlashUpdate { addr }) ==> !no_wait
                && is_reboot_address(regions, addr)
            &&& s.state is Complete && !no_wait ==> exists|before: nat|
                before < fuel && (#[trigger] run_write(
                    write_start(regions, no_wait),
                    mem,
                    before,
                )).0.op() is Some && run_write(
                    write_start(regions, no_wait),
                    mem,
                    before,
                ).0.op()->0 is RebootFlashUpdate
        }),
    decreases fuel,
{
    lemma_stands_in_run(regions, no_wait, mem, fuel);
    let start = write_start(regions, no_wait);
    let s = run_write(start, mem, fuel).0;
    lemma_op_is_reboot(s);
    if fuel > 0 {
        let f = (fuel - 1) as nat;
        law_reboot_after_writing(regions, no_wait, mem, f);
        lemma_run_write_step(start, mem, f);
        let t = run_write(start, mem, f).0;
        lemma_stands_in_run(regions, no_wait, mem, f);
        lemma_next_region_not_complete(t.pending, no_wait, t.first_addr);
        if s.state is Complete && !no_wait {
            if t.state is Complete {
                let before = choose|before: nat|
                    before < f && (#[trigger] run_write(start, mem, before)).0.op() is Some
                        && run_write(start, mem, before).0.op()->0 is RebootFlashUpdate;
                assert(before < fuel);
                assert(run_write(start, mem, before).0.op() is Some);
            } else {
                assert(t.op() is Some && t.op()->0 is RebootFlashUpdate);
                assert(run_write(start, mem, f).0.op() is Some);
            }
        }
    }
}

proof fn lemma_op_is_reboot(s: WriteView)
    ensures
        s.op() matches Some(FlashOpView::RebootFlashUpdate { addr }) ==> s.state
            == WriteStateView::Reboot(addr),
{
}

proof fn lemma_next_region_not_complete(
    pending: Seq<Region>,
    no_wait: bool,
    first_addr: Option<u32>,
)
    ensures
        !no_wait ==> !(next_region(pending, no_wait, first_addr).state is Complete),
    decreases pending.len(),
{
    if pending.len() > 0 && pending[0].1.len() == 0 {
        lemma_next_region_not_complete(pending.drop_first(), no_wait, first_addr);
    }
}

// ---------------------------------------------------------------------------
// Erasing and reading
// ---------------------------------------------------------------------------

/// Erasing a range of whole sectors on a working device ends, with every byte of the range
/// `0xFF` and every other byte as it was, behind a reboot unless the session is not to
/// wait.
pub proof fn law_erased_range(base: u32, size: u32, no_wait: bool, mem: Memory)
    requires
        size > 0,
        base % 4096 == 0,
        size % 4096 == 0,
        base + size <= u32::MAX,
    ensures
        ({
            let s = EraseSession { base, size, no_wait, state: EraseState::ExitXip };
            let (end, after) = run_erase(s, mem, (size / 4096 + 2) as nat);
            let last = run_erase(s, mem, (size / 4096 + 1) as nat).0;
            &&& end.state is Complete
            &&& forall|a: int|
                #![trigger after(a)]
                after(a) == if base <= a < base + size {
                    0xFF
                } else {
                    mem(a)
                }
            &&& last.op() == if no_wait {
                None
            } else {
                Some(FlashOpView::RebootApplication)
            }
        }),
{
    let s = EraseSession { base, size, no_wait, state: EraseState::ExitXip };
    law_range_erased(s, mem, (size / 4096 + 2) as nat);
    let t = s.next(FlashReplyView::Completed);
    lemma_erase_ends(t, mem, (size / 4096) as nat);
}

proof fn lemma_erase_ends(s: EraseSession, mem: Memory, fuel: nat)
    requires
        s.wf(),
        s.state matches EraseState::Erasing(addr) && fuel == (s.base + s.size - addr) / 4096,
    ensures
        run_erase(s, mem, fuel).0 == s.finished(),
    decreases fuel,
{
    let addr = s.state->Erasing_0;
    let (after, reply) = crate::flash_ops::device_step(mem, s.op()->0);
    if addr + 4096 < s.base + s.size {
        lemma_erase_ends(s.next(reply), after, (fuel - 1) as nat);
    } else {
        assert(fuel == 1);
        reveal_with_fuel(run_erase, 2);
    }
}

/// A range that ends beyond 32 bits is not erased at all, and a failed operation ends an
/// erase session with an error that tells the operation and the address.
pub proof fn law_erase_failures(s: EraseSession, mem: Memory)
    requires
        s.wf(),
    ensures
        s.state is ExitXip && s.base + s.size > u32::MAX ==> ({
            let (end, after) = run_erase(s, mem, 2);
            end.state == EraseState::Failed(FlashError::EraseRangeOverflow) && after == mem
                && end.op() is None
        }),
        s.op() matches Some(op) ==> s.next(FlashReplyView::Failed).op() is None && s.next(
            FlashReplyView::Failed,
        ).state == (match op {
            FlashOpView::ExitXip => EraseState::Failed(FlashError::ExitXip),
            FlashOpView::Erase { addr, .. } => EraseState::Failed(FlashError::EraseSector { addr }),
            _ => EraseState::Complete,
        }),
{
    reveal_with_fuel(run_erase, 3);
}

/// Reading a range on a working device ends, with exactly the bytes of the range.
pub proof fn law_read_range(address: u32, length: u32, mem: Memory)
    requires
        address + length <= u32::MAX,
    ensures
        ({
            let end = run_read(read_start(address, length), mem, (length / 4096 + 2) as nat);
            &&& end.state is Complete
            &&& end.data.len() == length
            &&& forall|i: int| 0 <= i < length ==> #[trigger] end.data[i] == mem(address + i)
        }),
{
    law_range_read(address, length, mem, (length / 4096 + 2) as nat);
}

/// A failed operation ends a read session with an error that tells the operation and the
/// address.
pub proof fn law_read_failures(s: ReadView)
    requires
        s.wf(),
        s.op() is Some,
    ensures
        s.next(FlashReplyView::Failed).op() is None,
        s.next(FlashReplyView::Failed).data == s.data,
        s.next(FlashReplyView::Failed).state == (match s.op()->0 {
            FlashOpView::Read { addr, .. } => ReadState::Failed(FlashError::ReadFlash { addr }),
            _ => ReadState::Failed(FlashError::ExitXip),
        }),
{
}

/// Reading a range that goes beyond 32 bits ends with an error, on a working device too.
pub proof fn law_read_beyond_addresses(address: u32, length: u32, mem: Memory)
    requires
        address + length > u32::MAX,
    ensures
        ({
            let end = run_read(read_start(address, length), mem, (length / 4096 + 2) as nat);
            end.state == ReadState::Failed(FlashError::ReadAddressOverflow) && end.op() is None
        }),
{
    let s = read_start(address, length).next(FlashReplyView::Completed);
    lemma_read_overflows(s, mem, (length / 4096 + 1) as nat);
}

proof fn lemma_read_overflows(s: ReadView, mem: Memory, fuel: nat)
    requires
        s.wf(),
        s.state is Reading,
        s.cursor + s.remaining > u32::MAX,
        fuel >= s.remaining / 4096 + 1,
    ensures
        run_read(s, mem, fuel).state == ReadState::Failed(FlashError::ReadAddressOverflow),
    decreases fuel,
{
    let reply = crate::flash_ops::device_step(mem, s.op()->0).1;
    let t = s.next(reply);
    if s.cursor + s.chunk() > u32::MAX {
        assert(t.state == ReadState::Failed(FlashError::ReadAddressOverflow));
        lemma_read_stays(t, mem, (fuel - 1) as nat);
    } else {
        lemma_read_overflows(t, mem, (fuel - 1) as nat);
    }
}

proof fn lemma_read_stays(s: ReadView, mem: Memory, fuel: nat)
    requires
        s.op() is None,
    ensures
        run_read(s, mem, fuel) == s,
{
}

/// What a write session does once a region is done: it goes on with the next one that has
/// data, or ends with an error that tells why that one cannot be written.
pub proof fn law_next_region(
    pending: Seq<Region>,
    no_wait: bool,
    first_addr: Option<u32>,
    i: int,
)
    requires
        0 <= i < pending.len(),
        pending[i].1.len() > 0,
        forall|k: int| 0 <= k < i ==> (#[trigger] pending[k]).1.len() == 0,
    ensures
        ({
            let s = next_region(pending, no_wait, first_addr);
            let (addr, data) = pending[i];
            let end = addr + data.len();
            &&& s.pending == pending.skip(i + 1)
            &&& s.no_wait == no_wait
            &&& end + 4095 <= u32::MAX ==> (s.state matches WriteStateView::Writing(v) && v.address
                == addr && v.data == data)
            &&& data.len() > u32::MAX ==> s.state == WriteStateView::Failed(FlashError::TooLarge)
            &&& data.len() <= u32::MAX && end > u32::MAX ==> s.state == WriteStateView::Failed(
                FlashError::WriteRangeOverflow,
            )
            &&& end <= u32::MAX && end + 4095 > u32::MAX ==> s.state == WriteStateView::Failed(
                FlashError::AlignmentOverflow,
            )
            &&& s.first_addr == Some(
                match first_addr {
                    Some(a) if a < addr => a,
                    _ => addr,
                },
            )
        }),
    decreases pending.len(),
{
    if i > 0 {
        let rest = pending.drop_first();
        assert(pending[0].1.len() == 0);
        assert forall|k: int| 0 <= k < i - 1 implies (#[trigger] rest[k]).1.len() == 0 by {
            assert(rest[k] == pending[k + 1]);
        }
        assert(rest[i - 1] == pending[i]);
        law_next_region(rest, no_wait, first_addr, i - 1);
        assert(rest.skip(i) =~= pending.skip(i + 1));
    } else {
        assert(pending.drop_first() =~= pending.skip(1));
    }
}

/// Where no region with data is left, a write session reboots the device, or is complete
/// where nobody wants to wait.
pub proof fn law_no_region_left(pending: Seq<Region>, no_wait: bool, first_addr: Option<u32>)
    requires
        forall|k: int| 0 <= k < pending.len() ==> (#[trigger] pending[k]).1.len() == 0,
    ensures
        ({
            let s = next_region(pending, no_wait, first_addr);
            &&& no_wait ==> s.state is Complete
            &&& !no_wait ==> s.state == WriteStateView::Reboot(
                match first_addr {
                    Some(a) => a,
                    None => 0x1000_0000,
                },
            )
        }),
    decreases pending.len(),
{
    if pending.len() > 0 {
        let rest = pending.drop_first();
        assert(pending[0].1.len() == 0);
        assert forall|k: int| 0 <= k < rest.len() implies (#[trigger] rest[k]).1.len() == 0 by {
            assert(rest[k] == pending[k + 1]);
        }
        law_no_region_left(rest, no_wait, first_addr);
    }
}

/// A write session starts with its first region once execute-in-place mode is left, and
/// goes from a region to the next when the last operation on it is done.
pub proof fn law_region_by_region(s: WriteView, reply: FlashReplyView)
    requires
        !(reply is Failed),
    ensures
        s.state is ExitXip && reply is Completed ==> s.next(reply) == next_region(
            s.pending,
            s.no_wait,
            s.first_addr,
        ),
        s.state matches WriteStateView::Writing(v) ==> (v.next(reply).op() is None ==> s.next(reply)
            == next_region(s.pending, s.no_wait, s.first_addr)),
        s.state matches WriteStateView::Writing(v) ==> (v.next(reply).op() is Some ==> s.next(reply)
            == (WriteView { state: WriteStateView::Writing(v.next(reply)), ..s })),
        s.state is Reboot ==> s.next(reply).state is Complete,
        s.state is Complete || s.state is Failed ==> s.next(reply) == s,
{
}

/// The first operation on a region is on the sector in which it starts: the sector is read,
/// or erased at once where the region fills it.
pub proof fn law_first_operation(address: u32, data: Seq<u8>)
    requires
        data.len() > 0,
        region_start(address, data) is Ok,
    ensures
        ({
            let sector = (address - address % 4096) as u32;
            region_start(address, data)->Ok_0.op() == Some(
                if address == sector && data.len() >= 4096 {
                    FlashOpView::Erase { addr: sector, len: 4096 }
                } else {
                    FlashOpView::Read { addr: sector, len: 4096 }
                },
            )
        }),
{
}

} // verus!
