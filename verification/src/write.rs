//! Writing, erasing and reading flash memory over PICOBOOT, and as UF2 files.

use vstd::prelude::*;

use crate::flash_ops::{
    device_step, erased, FlashError, FlashOp, FlashOpView, FlashReply, FlashReplyView,
    FLASH_SECTOR_SIZE, FLASH_START,
};
use crate::le::{push_bytes, push_fill};
use crate::memory::{
    contents, law_read_back, lemma_overlay_all_concat, overlay, overlay_all, Memory, Region,
};
use crate::region::{
    law_region_written, lemma_region_start_wf, region_start, run_region, RegionPhase, RegionView,
    RegionWriter,
};
use crate::uf2::{
    bin2uf2, block_at, block_error, block_list, block_regions, first_block_error, law_image_blocks,
    law_regions_keep_blocks, law_renumber_keeps_regions, law_uf2_round_trip, padded_pages,
    page_count, pages_addressable, renumber_blocks, renumbered, stated_count, uf2_error,
    uf2_image, Family,
};

verus! {

/// A raw binary image to write at a specific flash address.
#[derive(Debug, Clone)]
pub struct WriteTarget {
    pub path: String,
    pub address: u32,
}

/// Data to write at a specific flash address, and what to call it.
#[derive(Debug, Clone)]
pub struct WriteRegion {
    pub label: String,
    pub address: u32,
    pub data: Vec<u8>,
}

/// Address and data of each region.
pub open spec fn regions_of(v: Seq<WriteRegion>) -> Seq<Region> {
    v.map_values(|r: WriteRegion| (r.address, r.data@))
}

// ---------------------------------------------------------------------------
// Writing
// ---------------------------------------------------------------------------

/// What a write session is at.
#[derive(Debug)]
pub enum WriteState {
    ExitXip,
    Writing(RegionWriter),
    Reboot(u32),
    Complete,
    Failed(FlashError),
}

/// What a [`WriteState`] says.
pub enum WriteStateView {
    ExitXip,
    Writing(RegionView),
    Reboot(u32),
    Complete,
    Failed(FlashError),
}

impl View for WriteState {
    type V = WriteStateView;

    open spec fn view(&self) -> WriteStateView {
        match self {
            WriteState::ExitXip => WriteStateView::ExitXip,
            WriteState::Writing(w) => WriteStateView::Writing(w@),
            WriteState::Reboot(addr) => WriteStateView::Reboot(*addr),
            WriteState::Complete => WriteStateView::Complete,
            WriteState::Failed(e) => WriteStateView::Failed(*e),
        }
    }
}

/// Regions that are being written one after the other.
#[derive(Debug)]
pub struct WriteSession {
    /// The regions that are not begun.
    pub pending: Vec<WriteRegion>,
    pub no_wait: bool,
    /// The lowest address of a region that was begun.
    pub first_addr: Option<u32>,
    pub state: WriteState,
}

/// What a [`WriteSession`] says.
pub struct WriteView {
    pub pending: Seq<Region>,
    pub no_wait: bool,
    pub first_addr: Option<u32>,
    pub state: WriteStateView,
}

impl View for WriteSession {
    type V = WriteView;

    open spec fn view(&self) -> WriteView {
        WriteView {
            pending: regions_of(self.pending@),
            no_wait: self.no_wait,
            first_addr: self.first_addr,
            state: self.state@,
        }
    }
}

/// The lower of an address and one that may be known.
pub open spec fn lower_addr(known: Option<u32>, addr: u32) -> u32 {
    match known {
        Some(a) => if a < addr {
            a
        } else {
            addr
        },
        None => addr,
    }
}

/// The session that goes on with the first pending region that has data, or ends
/// where there is none.
pub open spec fn next_region(
    pending: Seq<Region>,
    no_wait: bool,
    first_addr: Option<u32>,
) -> WriteView
    decreases pending.len(),
{
    if pending.len() == 0 {
        WriteView {
            pending,
            no_wait,
            first_addr,
            state: if no_wait {
                WriteStateView::Complete
            } else {
                WriteStateView::Reboot(first_addr.unwrap_or(FLASH_START))
            },
        }
    } else if pending[0].1.len() == 0 {
        next_region(pending.drop_first(), no_wait, first_addr)
    } else {
        WriteView {
            pending: pending.drop_first(),
            no_wait,
            first_addr: Some(lower_addr(first_addr, pending[0].0)),
            state: match region_start(pending[0].0, pending[0].1) {
                Ok(v) => WriteStateView::Writing(v),
                Err(e) => WriteStateView::Failed(e),
            },
        }
    }
}

impl WriteView {
    /// The region at hand is well-formed and not done.
    pub open spec fn wf(self) -> bool {
        self.state matches WriteStateView::Writing(v) ==> v.wf() && !(v.phase is Done)
    }

    /// The operation that comes next.
    pub open spec fn op(self) -> Option<FlashOpView> {
        match self.state {
            WriteStateView::ExitXip => Some(FlashOpView::ExitXip),
            WriteStateView::Writing(v) => v.op(),
            WriteStateView::Reboot(addr) => Some(FlashOpView::RebootFlashUpdate { addr }),
            _ => None,
        }
    }

    /// The session after a reply.  A reply that does not answer the pending operation
    /// changes nothing, and a reboot counts as done whatever comes back.
    pub open spec fn next(self, reply: FlashReplyView) -> WriteView {
        match self.state {
            WriteStateView::ExitXip => match reply {
                FlashReplyView::Completed => next_region(
                    self.pending,
                    self.no_wait,
                    self.first_addr,
                ),
                FlashReplyView::Failed => WriteView {
                    state: WriteStateView::Failed(FlashError::ExitXip),
                    ..self
                },
                FlashReplyView::Received(_) => self,
            },
            WriteStateView::Writing(v) => if reply is Failed {
                WriteView { state: WriteStateView::Failed(v.failure()), ..self }
            } else if v.next(reply).phase is Done {
                next_region(self.pending, self.no_wait, self.first_addr)
            } else {
                WriteView { state: WriteStateView::Writing(v.next(reply)), ..self }
            },
            WriteStateView::Reboot(_) => WriteView { state: WriteStateView::Complete, ..self },
            _ => self,
        }
    }

    /// How many bytes a reply says were written.
    pub open spec fn progress(self, reply: FlashReplyView) -> int {
        match self.state {
            WriteStateView::Writing(v) => v.progress(reply),
            _ => 0,
        }
    }
}

/// A session about to write `regions`.
pub open spec fn write_start(regions: Seq<Region>, no_wait: bool) -> WriteView {
    WriteView { pending: regions, no_wait, first_addr: None, state: WriteStateView::ExitXip }
}

/// Whether `rest` is what is left of `pending`, labels and all, once the first ones are
/// taken away.
pub open spec fn left_of(pending: Seq<WriteRegion>, rest: Seq<WriteRegion>) -> bool {
    rest.len() <= pending.len() && rest == pending.skip(pending.len() - rest.len())
}

/// The number of bytes in all regions.
pub open spec fn total_len(regions: Seq<Region>) -> nat
    decreases regions.len(),
{
    if regions.len() == 0 {
        0
    } else {
        total_len(regions.drop_last()) + regions.last().1.len()
    }
}

impl WriteSession {
    /// A session about to write `regions`.
    fn new(regions: Vec<WriteRegion>, no_wait: bool) -> (r: WriteSession)
        ensures
            r.pending == regions,
            r@ == write_start(regions_of(regions@), no_wait),
            r@.wf(),
    {
        WriteSession { pending: regions, no_wait, first_addr: None, state: WriteState::ExitXip }
    }

    /// The number of bytes that are to be written.
    pub fn total(&self) -> (r: u64)
        requires
            total_len(self@.pending) <= u64::MAX,
        ensures
            r == total_len(self@.pending),
    {
        let ghost all = self@.pending;
        let mut sum: u64 = 0;
        let mut i: usize = 0;
        while i < self.pending.len()
            invariant
                i <= self.pending@.len(),
                all == regions_of(self.pending@),
                total_len(all) <= u64::MAX,
                sum == total_len(all.take(i as int)),
            decreases self.pending@.len() - i,
        {
            proof {
                assert(all.take(i + 1).drop_last() =~= all.take(i as int));
                assert(all.take(i + 1).last() == all[i as int]);
                assert(all[i as int].1 == self.pending@[i as int].data@);
                lemma_total_len_prefix(all, i + 1);
            }
            sum += self.pending[i].data.len() as u64;
            i += 1;
        }
        assert(all.take(i as int) =~= all);
        sum
    }

    fn begin_next_region(&mut self)
        ensures
            final(self)@ == next_region(
                old(self)@.pending,
                old(self).no_wait,
                old(self).first_addr,
            ),
            final(self)@.wf(),
            left_of(old(self).pending@, final(self).pending@),
    {
        assert(self.pending@ =~= old(self).pending@.skip(0));
        while self.pending.len() > 0
            invariant
                left_of(old(self).pending@, self.pending@),
                self.no_wait == old(self).no_wait,
                self.first_addr == old(self).first_addr,
                next_region(old(self)@.pending, old(self).no_wait, old(self).first_addr)
                    == next_region(self@.pending, self.no_wait, self.first_addr),
            decreases self.pending@.len(),
        {
            let ghost before = self@.pending;
            let ghost pending = self.pending@;
            let region = self.pending.remove(0);
            proof {
                assert(before[0] == (region.address, region.data@));
                assert(regions_of(self.pending@) =~= before.drop_first());
                assert(self.pending@ =~= pending.drop_first());
                assert(self.pending@ =~= old(self).pending@.skip(
                    old(self).pending@.len() - self.pending@.len(),
                ));
            }
            if region.data.len() > 0 {
                let addr: u32 = region.address;
                self.first_addr = match self.first_addr {
                    Some(a) => if a < addr {
                        Some(a)
                    } else {
                        Some(addr)
                    },
                    None => Some(addr),
                };
                proof {
                    lemma_region_start_wf(addr, region.data@);
                }
                match RegionWriter::start(addr, region.data) {
                    Ok(w) => {
                        self.state = WriteState::Writing(w);
                    },
                    Err(e) => {
                        self.state = WriteState::Failed(e);
                    },
                }
                return;
            }
        }
        assert(self@.pending =~= Seq::<Region>::empty());
        if self.no_wait {
            self.state = WriteState::Complete;
        } else {
            let addr: u32 = match self.first_addr {
                Some(a) => a,
                None => FLASH_START,
            };
            self.state = WriteState::Reboot(addr);
        }
    }

    /// The operation that comes next.
    pub fn next_op(&self) -> (r: Option<FlashOp>)
        requires
            self@.wf(),
        ensures
            (match r {
                Some(op) => self@.op() == Some(op@),
                None => self@.op() is None,
            }),
    {
        match &self.state {
            WriteState::ExitXip => Some(FlashOp::ExitXip),
            WriteState::Writing(w) => w.next_op(),
            WriteState::Reboot(addr) => Some(FlashOp::RebootFlashUpdate { addr: *addr }),
            _ => None,
        }
    }

    /// Takes note of the reply to the pending operation; returns how many bytes it says
    /// were written.
    pub fn advance(&mut self, reply: FlashReply) -> (r: u32)
        requires
            old(self)@.wf(),
        ensures
            final(self)@ == old(self)@.next(reply@),
            final(self)@.wf(),
            r == old(self)@.progress(reply@),
            left_of(old(self).pending@, final(self).pending@),
    {
        let ghost before = self@;
        assert(self.pending@ =~= self.pending@.skip(0));
        let mut state = WriteState::Complete;
        std::mem::swap(&mut state, &mut self.state);
        match state {
            WriteState::ExitXip => {
                match reply {
                    FlashReply::Completed => {
                        self.begin_next_region();
                    },
                    FlashReply::Failed => {
                        self.state = WriteState::Failed(FlashError::ExitXip);
                    },
                    FlashReply::Received(_) => {
                        self.state = WriteState::ExitXip;
                    },
                }
                0
            },
            WriteState::Writing(w) => {
                let mut writer = w;
                let failed: bool = match &reply {
                    FlashReply::Failed => true,
                    _ => false,
                };
                if failed {
                    self.state = WriteState::Failed(writer.failure());
                    return 0;
                }
                let count: u32 = writer.advance(reply);
                let done: bool = match writer.phase {
                    RegionPhase::Done => true,
                    _ => false,
                };
                if done {
                    self.begin_next_region();
                } else {
                    self.state = WriteState::Writing(writer);
                }
                count
            },
            WriteState::Reboot(_) => {
                self.state = WriteState::Complete;
                0
            },
            WriteState::Complete => {
                self.state = WriteState::Complete;
                0
            },
            WriteState::Failed(e) => {
                self.state = WriteState::Failed(e);
                0
            },
        }
    }
}

proof fn lemma_total_len_prefix(regions: Seq<Region>, k: int)
    requires
        0 <= k <= regions.len(),
    ensures
        total_len(regions.take(k)) <= total_len(regions),
    decreases regions.len() - k,
{
    if k < regions.len() {
        lemma_total_len_prefix(regions, k + 1);
        assert(regions.take(k + 1).drop_last() =~= regions.take(k));
    } else {
        assert(regions.take(k) =~= regions);
    }
}

/// The region that invalidates the firmware header: a page of `0xFF` at the start of
/// flash.
pub open spec fn erase_boot_region() -> Region {
    (FLASH_START, Seq::new(256, |i: int| 0xFFu8))
}

/// How many regions invalidate the firmware header.
pub open spec fn boot_regions(erase_boot: bool) -> int {
    if erase_boot {
        1
    } else {
        0
    }
}

/// The regions of the given targets, after the one that invalidates the firmware
/// header where that is asked for.
pub open spec fn target_regions(
    targets: Seq<WriteTarget>,
    contents: Seq<Vec<u8>>,
    erase_boot: bool,
) -> Seq<Region> {
    let boot = if erase_boot {
        seq![erase_boot_region()]
    } else {
        Seq::empty()
    };
    boot + Seq::new(targets.len(), |i: int| (targets[i].address, contents[i]@))
}

/// Write one or more raw binary images to flash at their specified addresses.
///
/// `contents` holds the bytes of each target's file.  If `erase_boot` is `true`, a
/// 256-byte block of `0xFF` is prepended at `0x10000000` (the first flash page on
/// RP2040/RP2350).  This invalidates the firmware header *before* the data lands,
/// preventing the device from booting into stale firmware if it resets mid-transfer.
pub fn write_data(
    targets: Vec<WriteTarget>,
    contents: Vec<Vec<u8>>,
    erase_boot: bool,
    no_wait: bool,
) -> (r: WriteSession)
    requires
        targets@.len() == contents@.len(),
    ensures
        r@ == write_start(target_regions(targets@, contents@, erase_boot), no_wait),
        r@.wf(),
        forall|i: int|
            0 <= i < targets@.len() ==> (#[trigger] targets@[i]).path@ == r.pending@[i
                + boot_regions(erase_boot)].label@,
        erase_boot ==> r.pending@[0].label@ == "erase-boot"@,
{
    let ghost all_targets = targets@;
    let ghost all_contents = contents@;
    let mut regions: Vec<WriteRegion> = Vec::new();
    if erase_boot {
        let mut blank: Vec<u8> = Vec::new();
        push_fill(&mut blank, 0xFF, 256);
        assert(blank@ =~= erase_boot_region().1);
        regions.push(
            WriteRegion { label: "erase-boot".to_owned(), address: FLASH_START, data: blank },
        );
    }
    let ghost boot = regions_of(regions@);
    let ghost wanted = target_regions(all_targets, all_contents, erase_boot);
    let mut targets = targets;
    let mut contents = contents;
    let ghost mut k: int = 0;
    proof {
        assert(boot =~= wanted.take(boot.len() as int));
        assert(targets@ =~= all_targets.skip(0));
        assert(contents@ =~= all_contents.skip(0));
    }
    while targets.len() > 0
        invariant
            0 <= k <= all_targets.len(),
            all_targets.len() == all_contents.len(),
            targets@ == all_targets.skip(k),
            contents@ == all_contents.skip(k),
            wanted == target_regions(all_targets, all_contents, erase_boot),
            boot.len() == boot_regions(erase_boot),
            regions_of(regions@) == wanted.take(boot.len() + k),
            regions@.len() == boot.len() + k,
            erase_boot ==> regions@[0].label@ == "erase-boot"@,
            forall|i: int|
                0 <= i < k ==> (#[trigger] all_targets[i]).path@ == regions@[i + boot.len()].label@,
        decreases targets@.len(),
    {
        let ghost before = regions@;
        let target = targets.remove(0);
        let data = contents.remove(0);
        proof {
            assert(target == all_targets[k]);
            assert(data == all_contents[k]);
            assert(targets@ =~= all_targets.skip(k + 1));
            assert(contents@ =~= all_contents.skip(k + 1));
            assert(wanted[boot.len() + k] == (target.address, data@));
        }
        regions.push(WriteRegion { label: target.path, address: target.address, data });
        proof {
            assert(regions_of(regions@) =~= regions_of(before).push((target.address, data@)));
            assert(wanted.take(boot.len() + k + 1) =~= wanted.take(boot.len() + k).push(
                wanted[boot.len() + k],
            ));
            k = k + 1;
        }
    }
    assert(wanted.take(boot.len() + k) =~= wanted);
    WriteSession::new(regions, no_wait)
}

/// Writes regions that have labels of their own.
pub fn write_regions_data(regions: Vec<WriteRegion>, no_wait: bool) -> (r: WriteSession)
    ensures
        r.pending == regions,
        r@ == write_start(regions_of(regions@), no_wait),
        r@.wf(),
{
    WriteSession::new(regions, no_wait)
}

/// The UF2 blocks of the first `k` regions, one file after the other.
pub open spec fn images(regions: Seq<Region>, family_id: u32, k: nat) -> Seq<u8>
    decreases k,
{
    if k == 0 {
        Seq::empty()
    } else {
        images(regions, family_id, (k - 1) as nat) + uf2_image(
            regions[k - 1].1,
            regions[k - 1].0,
            family_id,
        )
    }
}

/// Whether the UF2 blocks of the first `k` regions can be addressed and numbered.
pub open spec fn images_fit(regions: Seq<Region>, k: nat) -> bool {
    &&& forall|i: int|
        0 <= i < k ==> pages_addressable((#[trigger] regions[i]).1.len(), regions[i].0)
    &&& block_total(regions, k) <= u32::MAX
}

/// How many UF2 blocks the first `k` regions take.
pub open spec fn block_total(regions: Seq<Region>, k: nat) -> nat
    decreases k,
{
    if k == 0 {
        0
    } else {
        block_total(regions, (k - 1) as nat) + page_count(regions[k - 1].1.len())
    }
}

pub proof fn lemma_images_len(regions: Seq<Region>, family_id: u32, k: nat)
    ensures
        images(regions, family_id, k).len() == 512 * block_total(regions, k),
    decreases k,
{
    if k > 0 {
        lemma_images_len(regions, family_id, (k - 1) as nat);
        let r = regions[k - 1];
        law_image_blocks(r.1, r.0, stated_count(r.1.len()), family_id, page_count(r.1.len()));
    }
}

/// The UF2 file for the given targets: the blocks of each at its address, numbered
/// through, so that the device resets exactly once.
///
/// No gap-filling is performed between images (UF2 blocks are inherently
/// non-contiguous).
pub fn write_data_uf2(
    targets: &Vec<WriteTarget>,
    contents: &Vec<Vec<u8>>,
    erase_boot: bool,
    family: Family,
) -> (r: Vec<u8>)
    requires
        targets@.len() == contents@.len(),
        ({
            let regions = target_regions(targets@, contents@, erase_boot);
            images_fit(regions, regions.len())
        }),
    ensures
        ({
            let regions = target_regions(targets@, contents@, erase_boot);
            r@ == renumbered(
                images(regions, family.spec_id(), regions.len()),
                0,
                block_total(regions, regions.len()) as u32,
            )
        }),
{
    let ghost regions = target_regions(targets@, contents@, erase_boot);
    let ghost skip = boot_regions(erase_boot);
    let mut buf: Vec<u8> = Vec::new();
    assert(buf@ =~= images(regions, family.spec_id(), 0));
    if erase_boot {
        let mut blank: Vec<u8> = Vec::new();
        push_fill(&mut blank, 0xFF, 256);
        proof {
            assert(blank@ =~= erase_boot_region().1);
            assert(regions[0] == erase_boot_region());
            reveal_with_fuel(images, 2);
        }
        bin2uf2(blank.as_slice(), &mut buf, FLASH_START, family.id());
        assert(buf@ =~= images(regions, family.spec_id(), 1));
    }
    let mut i: usize = 0;
    while i < targets.len()
        invariant
            i <= targets@.len(),
            targets@.len() == contents@.len(),
            regions == target_regions(targets@, contents@, erase_boot),
            skip == boot_regions(erase_boot),
            regions.len() == skip + targets@.len(),
            images_fit(regions, regions.len()),
            buf@ == images(regions, family.spec_id(), (skip + i) as nat),
        decreases targets@.len() - i,
    {
        assert(regions[skip + i] == (targets@[i as int].address, contents@[i as int]@));
        bin2uf2(contents[i].as_slice(), &mut buf, targets[i].address, family.id());
        i += 1;
    }
    proof {
        lemma_images_len(regions, family.spec_id(), regions.len());
    }
    let size: usize = buf.len();
    let total: u32 = (size / 512) as u32;
    renumber_blocks(&mut buf, 0, total);
    buf
}

// ---------------------------------------------------------------------------
// Erasing
// ---------------------------------------------------------------------------

/// What an erase session is at.
#[derive(Debug, Clone, Copy, PartialEq, Eq, Structural)]
pub enum EraseState {
    ExitXip,
    /// Erase the sector at this address.
    Erasing(u32),
    Reboot,
    Complete,
    Failed(FlashError),
}

/// A range of flash that is being erased.
#[derive(Debug, Clone, Copy, PartialEq, Eq, Structural)]
pub struct EraseSession {
    pub base: u32,
    pub size: u32,
    pub no_wait: bool,
    pub state: EraseState,
}

impl EraseSession {
    /// The range is made of sectors, and the sector at hand is one of them.
    pub open spec fn wf(self) -> bool {
        &&& self.size > 0
        &&& self.base % 4096 == 0
        &&& self.size % 4096 == 0
        &&& self.state matches EraseState::Erasing(addr) ==> self.base <= addr < self.base
            + self.size && addr % 4096 == 0 && self.base + self.size <= u32::MAX
    }

    /// The session with its last sector erased.
    pub open spec fn finished(self) -> EraseSession {
        EraseSession {
            state: if self.no_wait {
                EraseState::Complete
            } else {
                EraseState::Reboot
            },
            ..self
        }
    }

    /// The operation that comes next.
    pub open spec fn op(self) -> Option<FlashOpView> {
        match self.state {
            EraseState::ExitXip => Some(FlashOpView::ExitXip),
            EraseState::Erasing(addr) => Some(
                FlashOpView::Erase { addr, len: FLASH_SECTOR_SIZE },
            ),
            EraseState::Reboot => Some(FlashOpView::RebootApplication),
            _ => None,
        }
    }

    /// The session after a reply.  Data is no answer to anything here, and a reboot
    /// counts as done whatever comes back.
    pub open spec fn next(self, reply: FlashReplyView) -> EraseSession {
        match (self.state, reply) {
            (EraseState::ExitXip, FlashReplyView::Completed) => EraseSession {
                state: if self.base + self.size > u32::MAX {
                    EraseState::Failed(FlashError::EraseRangeOverflow)
                } else {
                    EraseState::Erasing(self.base)
                },
                ..self
            },
            (EraseState::ExitXip, FlashReplyView::Failed) => EraseSession {
                state: EraseState::Failed(FlashError::ExitXip),
                ..self
            },
            (EraseState::Erasing(addr), FlashReplyView::Completed) => if addr + 4096 < self.base
                + self.size {
                EraseSession { state: EraseState::Erasing((addr + 4096) as u32), ..self }
            } else {
                self.finished()
            },
            (EraseState::Erasing(addr), FlashReplyView::Failed) => EraseSession {
                state: EraseState::Failed(FlashError::EraseSector { addr }),
                ..self
            },
            (EraseState::Reboot, _) => EraseSession { state: EraseState::Complete, ..self },
            _ => self,
        }
    }

    /// The operation that comes next.
    pub fn next_op(&self) -> (r: Option<FlashOp>)
        ensures
            (match r {
                Some(op) => self.op() == Some(op@),
                None => self.op() is None,
            }),
    {
        match self.state {
            EraseState::ExitXip => Some(FlashOp::ExitXip),
            EraseState::Erasing(addr) => Some(FlashOp::Erase { addr, len: FLASH_SECTOR_SIZE }),
            EraseState::Reboot => Some(FlashOp::RebootApplication),
            _ => None,
        }
    }

    /// Takes note of the reply to the pending operation; returns how many bytes were
    /// erased.
    pub fn advance(&mut self, reply: FlashReply) -> (r: u32)
        requires
            old(self).wf(),
        ensures
            *final(self) == old(self).next(reply@),
            final(self).wf(),
            r == (if old(self).state is Erasing && reply@ is Completed {
                FLASH_SECTOR_SIZE
            } else {
                0
            }),
    {
        match (self.state, reply) {
            (EraseState::ExitXip, FlashReply::Completed) => {
                match self.base.checked_add(self.size) {
                    None => {
                        self.state = EraseState::Failed(FlashError::EraseRangeOverflow);
                    },
                    Some(_) => {
                        self.state = EraseState::Erasing(self.base);
                    },
                }
                0
            },
            (EraseState::ExitXip, FlashReply::Failed) => {
                self.state = EraseState::Failed(FlashError::ExitXip);
                0
            },
            (EraseState::Erasing(addr), FlashReply::Completed) => {
                let end: u32 = self.base + self.size;
                if end - addr > 4096 {
                    self.state = EraseState::Erasing(addr + 4096);
                } else if self.no_wait {
                    self.state = EraseState::Complete;
                } else {
                    self.state = EraseState::Reboot;
                }
                FLASH_SECTOR_SIZE
            },
            (EraseState::Erasing(addr), FlashReply::Failed) => {
                self.state = EraseState::Failed(FlashError::EraseSector { addr });
                0
            },
            (EraseState::Reboot, _) => {
                self.state = EraseState::Complete;
                0
            },
            _ => 0,
        }
    }
}

/// Erase a range of flash sector by sector.
///
/// Direct erase requires 4096-byte alignment for both base and size.
pub fn erase_flash(flash_size: u32, base_addr: u32, no_wait: bool) -> (r: Result<
    EraseSession,
    FlashError,
>)
    ensures
        r == (if flash_size == 0 {
            Err::<EraseSession, FlashError>(FlashError::ZeroSize)
        } else if base_addr % 4096 != 0 {
            Err::<EraseSession, FlashError>(FlashError::BaseUnaligned)
        } else if flash_size % 4096 != 0 {
            Err::<EraseSession, FlashError>(FlashError::SizeUnaligned)
        } else {
            Ok::<EraseSession, FlashError>(
                EraseSession {
                    base: base_addr,
                    size: flash_size,
                    no_wait,
                    state: EraseState::ExitXip,
                },
            )
        }),
        r matches Ok(s) ==> s.wf(),
{
    if flash_size == 0 {
        return Err(FlashError::ZeroSize);
    }
    if base_addr % FLASH_SECTOR_SIZE != 0 {
        return Err(FlashError::BaseUnaligned);
    }
    if flash_size % FLASH_SECTOR_SIZE != 0 {
        return Err(FlashError::SizeUnaligned);
    }
    Ok(EraseSession { base: base_addr, size: flash_size, no_wait, state: EraseState::ExitXip })
}

/// The UF2 file that covers all `flash_size` bytes starting at `base_addr`, with every
/// byte set to `0xFF`.
pub fn erase_flash_uf2(flash_size: u32, base_addr: u32, family: Family) -> (r: Result<
    Vec<u8>,
    FlashError,
>)
    requires
        flash_size > 0 ==> pages_addressable(flash_size as nat, base_addr),
    ensures
        flash_size == 0 ==> r == Err::<Vec<u8>, FlashError>(FlashError::ZeroSize),
        flash_size > 0 ==> (r matches Ok(buf) && buf@ == uf2_image(
            Seq::new(flash_size as nat, |i: int| 0xFFu8),
            base_addr,
            family.spec_id(),
        )),
{
    if flash_size == 0 {
        return Err(FlashError::ZeroSize);
    }
    let mut data: Vec<u8> = Vec::new();
    push_fill(&mut data, 0xFF, flash_size as usize);
    assert(data@ =~= Seq::new(flash_size as nat, |i: int| 0xFFu8));
    let mut buf: Vec<u8> = Vec::new();
    bin2uf2(data.as_slice(), &mut buf, base_addr, family.id());
    assert(buf@ =~= uf2_image(data@, base_addr, family.spec_id()));
    Ok(buf)
}

// ---------------------------------------------------------------------------
// Reading
// ---------------------------------------------------------------------------

/// Most bytes that are read at once.
pub const READ_CHUNK: u32 = 4096;

/// What a read session is at.
#[derive(Debug, Clone, Copy, PartialEq, Eq, Structural)]
pub enum ReadState {
    ExitXip,
    Reading,
    Complete,
    Failed(FlashError),
}

/// A range of flash that is being read.
#[derive(Debug)]
pub struct ReadSession {
    /// Where the next chunk starts.
    pub cursor: u32,
    /// How many bytes are not read.
    pub remaining: u32,
    /// What was read.
    pub data: Vec<u8>,
    pub state: ReadState,
}

/// What a [`ReadSession`] says.
#[verifier::ext_equal]
pub struct ReadView {
    pub cursor: int,
    pub remaining: int,
    pub data: Seq<u8>,
    pub state: ReadState,
}

impl View for ReadSession {
    type V = ReadView;

    open spec fn view(&self) -> ReadView {
        ReadView {
            cursor: self.cursor as int,
            remaining: self.remaining as int,
            data: self.data@,
            state: self.state,
        }
    }
}

impl ReadView {
    /// There is something left to read exactly while reading.
    pub open spec fn wf(self) -> bool {
        &&& 0 <= self.cursor <= u32::MAX
        &&& 0 <= self.remaining <= u32::MAX
        &&& self.state is Reading ==> self.remaining > 0
    }

    /// The size of the next chunk.
    pub open spec fn chunk(self) -> int {
        if self.remaining < 4096 {
            self.remaining
        } else {
            4096
        }
    }

    /// The operation that comes next.
    pub open spec fn op(self) -> Option<FlashOpView> {
        match self.state {
            ReadState::ExitXip => Some(FlashOpView::ExitXip),
            ReadState::Reading => Some(
                FlashOpView::Read { addr: self.cursor as u32, len: self.chunk() as u32 },
            ),
            _ => None,
        }
    }

    /// The session after a reply.  A reply that does not answer the pending operation
    /// changes nothing.
    pub open spec fn next(self, reply: FlashReplyView) -> ReadView {
        match (self.state, reply) {
            (ReadState::ExitXip, FlashReplyView::Completed) => ReadView {
                state: if self.remaining > 0 {
                    ReadState::Reading
                } else {
                    ReadState::Complete
                },
                ..self
            },
            (ReadState::ExitXip, FlashReplyView::Failed) => ReadView {
                state: ReadState::Failed(FlashError::ExitXip),
                ..self
            },
            (ReadState::Reading, FlashReplyView::Received(d)) => if d.len() != self.chunk() {
                self
            } else if self.cursor + self.chunk() > u32::MAX {
                ReadView {
                    data: self.data + d,
                    state: ReadState::Failed(FlashError::ReadAddressOverflow),
                    ..self
                }
            } else {
                ReadView {
                    cursor: self.cursor + self.chunk(),
                    remaining: self.remaining - self.chunk(),
                    data: self.data + d,
                    state: if self.remaining > self.chunk() {
                        ReadState::Reading
                    } else {
                        ReadState::Complete
                    },
                }
            },
            (ReadState::Reading, FlashReplyView::Failed) => ReadView {
                state: ReadState::Failed(FlashError::ReadFlash { addr: self.cursor as u32 }),
                ..self
            },
            _ => self,
        }
    }
}

/// A session about to read `length` bytes from `address` on.
pub open spec fn read_start(address: u32, length: u32) -> ReadView {
    ReadView {
        cursor: address as int,
        remaining: length as int,
        data: Seq::empty(),
        state: ReadState::ExitXip,
    }
}

/// Reads `length` bytes of flash from `address` on.
pub fn read_flash(address: u32, length: u32) -> (r: ReadSession)
    ensures
        r@ == read_start(address, length),
        r@.wf(),
{
    let r = ReadSession {
        cursor: address,
        remaining: length,
        data: Vec::new(),
        state: ReadState::ExitXip,
    };
    assert(r.data@ =~= Seq::<u8>::empty());
    r
}

impl ReadSession {
    /// The operation that comes next.
    pub fn next_op(&self) -> (r: Option<FlashOp>)
        requires
            self@.wf(),
        ensures
            (match r {
                Some(op) => self@.op() == Some(op@),
                None => self@.op() is None,
            }),
    {
        match self.state {
            ReadState::ExitXip => Some(FlashOp::ExitXip),
            ReadState::Reading => {
                let len: u32 = if self.remaining < READ_CHUNK {
                    self.remaining
                } else {
                    READ_CHUNK
                };
                Some(FlashOp::Read { addr: self.cursor, len })
            },
            _ => None,
        }
    }

    /// Takes note of the reply to the pending operation.
    pub fn advance(&mut self, reply: FlashReply)
        requires
            old(self)@.wf(),
        ensures
            final(self)@ == old(self)@.next(reply@),
            final(self)@.wf(),
    {
        let ghost before = self@;
        match (self.state, reply) {
            (ReadState::ExitXip, FlashReply::Completed) => {
                if self.remaining > 0 {
                    self.state = ReadState::Reading;
                } else {
                    self.state = ReadState::Complete;
                }
            },
            (ReadState::ExitXip, FlashReply::Failed) => {
                self.state = ReadState::Failed(FlashError::ExitXip);
            },
            (ReadState::Reading, FlashReply::Received(data)) => {
                let len: u32 = if self.remaining < READ_CHUNK {
                    self.remaining
                } else {
                    READ_CHUNK
                };
                if data.len() == len as usize {
                    push_bytes(&mut self.data, data.as_slice(), 0, data.len());
                    proof {
                        assert(data@.subrange(0, data@.len() as int) =~= data@);
                    }
                    match self.cursor.checked_add(len) {
                        None => {
                            self.state = ReadState::Failed(FlashError::ReadAddressOverflow);
                        },
                        Some(next) => {
                            self.cursor = next;
                            self.remaining = self.remaining - len;
                            if self.remaining == 0 {
                                self.state = ReadState::Complete;
                            }
                        },
                    }
                }
                assert(self@ =~= before.next(reply@));
            },
            (ReadState::Reading, FlashReply::Failed) => {
                self.state = ReadState::Failed(FlashError::ReadFlash { addr: self.cursor });
            },
            _ => {},
        }
    }
}

// ---------------------------------------------------------------------------
// What the sessions add up to
// ---------------------------------------------------------------------------

/// The session and the memory after at most `fuel` operations on a working device.
pub open spec fn run_write(s: WriteView, mem: Memory, fuel: nat) -> (WriteView, Memory)
    decreases fuel,
{
    match s.op() {
        Some(op) if fuel > 0 => {
            let (after, reply) = device_step(mem, op);
            run_write(s.next(reply), after, (fuel - 1) as nat)
        },
        _ => (s, mem),
    }
}

/// Whether every region with data can be written.
pub open spec fn all_startable(regions: Seq<Region>) -> bool {
    forall|i: int|
        0 <= i < regions.len() && (#[trigger] regions[i]).1.len() > 0 ==> region_start(
            regions[i].0,
            regions[i].1,
        ) is Ok
}

/// The memory after regions were written one after the other, the first one first.
spec fn laid_over(mem: Memory, regions: Seq<Region>) -> Memory
    decreases regions.len(),
{
    if regions.len() == 0 {
        mem
    } else {
        laid_over(overlay(mem, regions[0].0 as int, regions[0].1), regions.drop_first())
    }
}

proof fn lemma_laid_over(mem: Memory, regions: Seq<Region>)
    ensures
        laid_over(mem, regions) == overlay_all(mem, regions),
    decreases regions.len(),
{
    if regions.len() > 0 {
        let rest = regions.drop_first();
        let first = regions[0];
        lemma_laid_over(overlay(mem, first.0 as int, first.1), rest);
        lemma_overlay_all_first(mem, regions);
    }
}

proof fn lemma_overlay_all_first(mem: Memory, regions: Seq<Region>)
    requires
        regions.len() > 0,
    ensures
        overlay_all(mem, regions) == overlay_all(
            overlay(mem, regions[0].0 as int, regions[0].1),
            regions.drop_first(),
        ),
    decreases regions.len(),
{
    let after = overlay(mem, regions[0].0 as int, regions[0].1);
    if regions.len() == 1 {
        assert(regions.drop_last().len() == 0);
        assert(overlay_all(mem, regions.drop_last()) == mem);
        assert(overlay_all(after, regions.drop_first()) == after);
    } else {
        lemma_overlay_all_first(mem, regions.drop_last());
        assert(regions.drop_last().drop_first() =~= regions.drop_first().drop_last());
        assert(regions.drop_last()[0] == regions[0]);
        assert(regions.drop_first().last() == regions.last());
    }
}

/// The lowest address among an address that may be known and the regions with data.
pub open spec fn lowest_addr(known: Option<u32>, regions: Seq<Region>) -> Option<u32>
    decreases regions.len(),
{
    if regions.len() == 0 {
        known
    } else if regions[0].1.len() == 0 {
        lowest_addr(known, regions.drop_first())
    } else {
        lowest_addr(Some(lower_addr(known, regions[0].0)), regions.drop_first())
    }
}

/// What a write session leads to from the point where `pending` is to be written.
spec fn leads_to(
    s: WriteView,
    mem: Memory,
    pending: Seq<Region>,
    no_wait: bool,
    first_addr: Option<u32>,
    fuel: nat,
) -> bool {
    let (end, after) = run_write(s, mem, fuel);
    &&& end.state is Complete
    &&& after == laid_over(mem, pending)
    &&& end.first_addr == lowest_addr(first_addr, pending)
}

/// While a region is at hand, the session does what the region does.
proof fn lemma_run_write_region(s: WriteView, mem: Memory, fuel: nat, more: nat)
    requires
        s.state matches WriteStateView::Writing(v) && v.wf() && !(v.phase is Done) && run_region(
            v,
            mem,
            fuel,
        ).0.phase is Done,
    ensures
        ({
            let v = s.state->Writing_0;
            exists|used: nat|
                used <= fuel && #[trigger] run_write(s, mem, used + more) == run_write(
                    next_region(s.pending, s.no_wait, s.first_addr),
                    run_region(v, mem, fuel).1,
                    more,
                )
        }),
    decreases fuel,
{
    let v = s.state->Writing_0;
    assert(v.op() is Some);
    let (after, reply) = device_step(mem, v.op()->0);
    assert(!(reply is Failed));
    let w = v.next(reply);
    crate::region::law_region_step_wf(v, reply);
    assert(fuel > 0);
    let f = (fuel - 1) as nat;
    if w.phase is Done {
        assert(w.op() is None);
        assert(run_region(w, after, f) == (w, after));
        assert(run_write(s, mem, 1 + more) == run_write(
            next_region(s.pending, s.no_wait, s.first_addr),
            after,
            more,
        ));
    } else {
        let s2 = WriteView { state: WriteStateView::Writing(w), ..s };
        lemma_run_write_region(s2, after, f, more);
        let used = choose|used: nat|
            used <= f && #[trigger] run_write(s2, after, used + more) == run_write(
                next_region(s.pending, s.no_wait, s.first_addr),
                run_region(w, after, f).1,
                more,
            );
        assert(run_write(s, mem, (used + 1) + more) == run_write(s2, after, used + more));
    }
}

proof fn lemma_write_pending(
    pending: Seq<Region>,
    no_wait: bool,
    first_addr: Option<u32>,
    mem: Memory,
)
    requires
        all_startable(pending),
    ensures
        exists|fuel: nat|
            #[trigger] leads_to(
                next_region(pending, no_wait, first_addr),
                mem,
                pending,
                no_wait,
                first_addr,
                fuel,
            ),
    decreases pending.len(),
{
    let s = next_region(pending, no_wait, first_addr);
    if pending.len() == 0 {
        reveal_with_fuel(run_write, 2);
        assert(leads_to(s, mem, pending, no_wait, first_addr, 1));
    } else {
        let rest = pending.drop_first();
        let region = pending[0];
        assert forall|i: int| 0 <= i < rest.len() && (#[trigger] rest[i]).1.len() > 0 implies region_start(
            rest[i].0,
            rest[i].1,
        ) is Ok by {
            assert(rest[i] == pending[i + 1]);
        }
        if region.1.len() == 0 {
            lemma_write_pending(rest, no_wait, first_addr, mem);
            assert(overlay(mem, region.0 as int, region.1) =~= mem);
            let fuel = choose|fuel: nat|
                #[trigger] leads_to(s, mem, rest, no_wait, first_addr, fuel);
            assert(leads_to(s, mem, pending, no_wait, first_addr, fuel));
        } else {
            let v = region_start(region.0, region.1)->Ok_0;
            let low = Some(lower_addr(first_addr, region.0));
            lemma_region_start_wf(region.0, region.1);
            law_region_written(region.0, region.1, mem, v.steps_left());
            let after = overlay(mem, region.0 as int, region.1);
            lemma_write_pending(rest, no_wait, low, after);
            let more = choose|fuel: nat|
                #[trigger] leads_to(
                    next_region(rest, no_wait, low),
                    after,
                    rest,
                    no_wait,
                    low,
                    fuel,
                );
            lemma_run_write_region(s, mem, v.steps_left(), more);
            let used = choose|used: nat|
                used <= v.steps_left() && #[trigger] run_write(s, mem, used + more) == run_write(
                    next_region(rest, no_wait, low),
                    after,
                    more,
                );
            assert(leads_to(s, mem, pending, no_wait, first_addr, used + more));
        }
    }
}

/// Writing regions on a working device ends, and leaves memory with every region laid
/// over it in order and all other bytes as they were.  The address that the device is
/// told when it reboots is the lowest one of a region with data.
pub proof fn law_regions_written(regions: Seq<Region>, no_wait: bool, mem: Memory)
    requires
        all_startable(regions),
    ensures
        exists|fuel: nat|
            (#[trigger] run_write(write_start(regions, no_wait), mem, fuel)).0.state is Complete
                && run_write(write_start(regions, no_wait), mem, fuel).1 == overlay_all(
                mem,
                regions,
            ) && run_write(write_start(regions, no_wait), mem, fuel).0.first_addr == lowest_addr(
                None,
                regions,
            ),
{
    let s = write_start(regions, no_wait);
    lemma_write_pending(regions, no_wait, None, mem);
    lemma_laid_over(mem, regions);
    let fuel = choose|fuel: nat|
        #[trigger] leads_to(
            next_region(regions, no_wait, None),
            mem,
            regions,
            no_wait,
            None::<u32>,
            fuel,
        );
    assert(run_write(s, mem, fuel + 1) == run_write(
        next_region(regions, no_wait, None),
        mem,
        fuel,
    ));
}

/// The erase session and the memory after at most `fuel` operations on a working
/// device.
pub open spec fn run_erase(s: EraseSession, mem: Memory, fuel: nat) -> (EraseSession, Memory)
    decreases fuel,
{
    match s.op() {
        Some(op) if fuel > 0 => {
            let (after, reply) = device_step(mem, op);
            run_erase(s.next(reply), after, (fuel - 1) as nat)
        },
        _ => (s, mem),
    }
}

proof fn lemma_run_erase(s: EraseSession, mem: Memory, fuel: nat)
    requires
        s.wf(),
        s.state matches EraseState::Erasing(addr) && fuel >= (s.base + s.size - addr) / 4096 + 1,
    ensures
        ({
            let addr = s.state->Erasing_0;
            let (end, after) = run_erase(s, mem, fuel);
            end.state is Complete && after == erased(
                mem,
                addr as int,
                (s.base + s.size - addr) as nat,
            )
        }),
    decreases fuel,
{
    let addr = s.state->Erasing_0;
    let left = (s.base + s.size - addr) as nat;
    assert(left % 4096 == 0);
    let after = erased(mem, addr as int, 4096);
    let s2 = s.next(FlashReplyView::Completed);
    if addr + 4096 < s.base + s.size {
        assert((s.base + s.size - (addr + 4096)) / 4096 == (s.base + s.size - addr) / 4096 - 1);
        lemma_run_erase(s2, after, (fuel - 1) as nat);
        assert(erased(after, addr + 4096, (left - 4096) as nat) =~= erased(mem, addr as int, left));
    } else {
        assert(left == 4096);
        reveal_with_fuel(run_erase, 3);
    }
}

/// Erasing on a working device ends, and leaves the range with every byte `0xFF` and
/// all other bytes as they were.
pub proof fn law_range_erased(s: EraseSession, mem: Memory, fuel: nat)
    requires
        s.wf(),
        s.state is ExitXip,
        s.base + s.size <= u32::MAX,
        fuel >= s.size / 4096 + 2,
    ensures
        run_erase(s, mem, fuel).0.state is Complete,
        run_erase(s, mem, fuel).1 == erased(mem, s.base as int, s.size as nat),
{
    let s2 = s.next(FlashReplyView::Completed);
    lemma_run_erase(s2, mem, (fuel - 1) as nat);
}

/// The read session after at most `fuel` operations on a working device.
pub open spec fn run_read(s: ReadView, mem: Memory, fuel: nat) -> ReadView
    decreases fuel,
{
    match s.op() {
        Some(op) if fuel > 0 => run_read(
            s.next(device_step(mem, op).1),
            mem,
            (fuel - 1) as nat,
        ),
        _ => s,
    }
}

proof fn lemma_run_read(s: ReadView, mem: Memory, fuel: nat)
    requires
        s.wf(),
        s.state is Reading,
        s.cursor + s.remaining <= u32::MAX,
        fuel >= s.remaining / 4096 + 1,
    ensures
        run_read(s, mem, fuel).state is Complete,
        run_read(s, mem, fuel).data == s.data + contents(mem, s.cursor, s.remaining as nat),
    decreases fuel,
{
    let chunk = s.chunk();
    let d = contents(mem, s.cursor, chunk as nat);
    let s2 = s.next(FlashReplyView::Received(d));
    assert(device_step(mem, s.op()->0).1 == FlashReplyView::Received(d));
    if s.remaining > chunk {
        assert((s.remaining - 4096) / 4096 == s.remaining / 4096 - 1);
        lemma_run_read(s2, mem, (fuel - 1) as nat);
        assert(s.data + d + contents(mem, s.cursor + chunk, (s.remaining - chunk) as nat) =~= s.data
            + contents(mem, s.cursor, s.remaining as nat));
    } else {
        assert(s2.state is Complete);
        assert(run_read(s2, mem, (fuel - 1) as nat) == s2);
    }
}

/// Reading on a working device ends, and gives exactly the bytes of the range.
pub proof fn law_range_read(address: u32, length: u32, mem: Memory, fuel: nat)
    requires
        address + length <= u32::MAX,
        fuel >= length / 4096 + 2,
    ensures
        ({
            let end = run_read(read_start(address, length), mem, fuel);
            end.state is Complete && end.data == contents(mem, address as int, length as nat)
        }),
{
    let s = read_start(address, length);
    let s2 = s.next(FlashReplyView::Completed);
    if length > 0 {
        lemma_run_read(s2, mem, (fuel - 1) as nat);
        assert(s.data + contents(mem, address as int, length as nat) =~= contents(
            mem,
            address as int,
            length as nat,
        ));
    } else {
        assert(run_read(s2, mem, (fuel - 1) as nat) == s2);
        assert(s2.data =~= contents(mem, address as int, 0));
    }
}

/// Reading back what was written gives the data that was written.
pub proof fn law_written_is_read(address: u32, data: Seq<u8>, no_wait: bool, mem: Memory)
    requires
        data.len() > 0,
        region_start(address, data) is Ok,
    ensures
        exists|fuel: nat|
            ({
                let (end, after) = #[trigger] run_write(
                    write_start(seq![(address, data)], no_wait),
                    mem,
                    fuel,
                );
                let read = run_read(
                    read_start(address, data.len() as u32),
                    after,
                    data.len() / 4096 + 2,
                );
                end.state is Complete && read.state is Complete && read.data == data
            }),
{
    let regions: Seq<Region> = seq![(address, data)];
    law_regions_written(regions, no_wait, mem);
    let after = overlay(mem, address as int, data);
    lemma_one_region(mem, address, data);
    lemma_region_start_wf(address, data);
    law_range_read(address, data.len() as u32, after, data.len() / 4096 + 2);
    law_read_back(mem, address as int, data);
}

/// Where the firmware header is to be invalidated, that is done before any target's
/// data lands: there is a point at which the first page is blank, all else is as it
/// was, and every target is still to be begun.
pub proof fn law_header_goes_first(
    targets: Seq<WriteTarget>,
    contents: Seq<Vec<u8>>,
    no_wait: bool,
    mem: Memory,
)
    ensures
        exists|fuel: nat| #[trigger]
            run_write(write_start(target_regions(targets, contents, true), no_wait), mem, fuel) == (
                next_region(target_regions(targets, contents, false), no_wait, Some(FLASH_START)),
                overlay(mem, FLASH_START as int, Seq::new(256, |i: int| 0xFFu8)),
            ),
{
    let regions = target_regions(targets, contents, true);
    let rest = target_regions(targets, contents, false);
    let boot = erase_boot_region();
    let s = write_start(regions, no_wait);
    assert(regions[0] == boot);
    assert(regions.drop_first() =~= rest);
    let v = region_start(boot.0, boot.1)->Ok_0;
    assert(region_start(boot.0, boot.1) is Ok);
    lemma_region_start_wf(boot.0, boot.1);
    law_region_written(boot.0, boot.1, mem, v.steps_left());
    let s2 = next_region(regions, no_wait, None);
    lemma_run_write_region(s2, mem, v.steps_left(), 0);
    let used = choose|used: nat|
        used <= v.steps_left() && #[trigger] run_write(s2, mem, used + 0) == run_write(
            next_region(rest, no_wait, Some(FLASH_START)),
            overlay(mem, boot.0 as int, boot.1),
            0,
        );
    assert(run_write(s, mem, used + 1) == run_write(s2, mem, used));
}

// ---------------------------------------------------------------------------
// What the UF2 files hold
// ---------------------------------------------------------------------------

/// Every region filled up with zeros to whole pages.
pub open spec fn padded_regions(regions: Seq<Region>) -> Seq<Region> {
    regions.map_values(
        |r: Region| (r.0, padded_pages(r.1, page_count(r.1.len()))),
    )
}

proof fn lemma_block_list_joined(a: Seq<u8>, b: Seq<u8>, na: nat, nb: nat)
    requires
        a.len() == 512 * na,
        b.len() == 512 * nb,
    ensures
        block_list(a + b, na + nb) == block_list(a, na) + block_list(b, nb),
{
    let whole = a + b;
    assert forall|i: int| 0 <= i < na + nb implies #[trigger] block_list(whole, na + nb)[i] == (
    block_list(a, na) + block_list(b, nb))[i] by {
        if i < na {
            assert(block_at(whole, i) =~= block_at(a, i));
        } else {
            assert(block_at(whole, i) =~= block_at(b, i - na));
        }
    }
    assert(block_list(whole, na + nb) =~= block_list(a, na) + block_list(b, nb));
}

proof fn lemma_image_in_memory(mem: Memory, data: Seq<u8>, base: u32, family_id: u32)
    requires
        pages_addressable(data.len(), base),
    ensures
        overlay_all(mem, block_list(uf2_image(data, base, family_id), page_count(data.len())))
            == overlay(mem, base as int, padded_pages(data, page_count(data.len()))),
{
    let n = page_count(data.len());
    let image = uf2_image(data, base, family_id);
    let whole = padded_pages(data, n);
    if data.len() == 0 {
        assert(block_list(image, n) =~= Seq::<Region>::empty());
        assert(overlay(mem, base as int, whole) =~= mem);
    } else {
        assert(image.len() / 512 == n) by {
            law_image_blocks(data, base, stated_count(data.len()), family_id, n);
        }
        assert(block_regions(image, n) == seq![(base, whole)]) by {
            law_uf2_round_trip(data, base, family_id);
        }
        law_regions_keep_blocks(mem, image, n);
        lemma_one_region(mem, base, whole);
    }
}

proof fn lemma_one_region(mem: Memory, base: u32, data: Seq<u8>)
    ensures
        overlay_all(mem, seq![(base, data)]) == overlay(mem, base as int, data),
{
    let one: Seq<Region> = seq![(base, data)];
    assert(one.drop_last() =~= Seq::<Region>::empty());
    assert(one.last() == (base, data));
    assert(overlay_all(mem, one.drop_last()) == mem);
}

/// A UF2 file made of several binaries, read block by block, writes every binary at its
/// address, filled up with zeros to whole pages, in the given order.
pub proof fn law_images_write_regions(mem: Memory, regions: Seq<Region>, family_id: u32, k: nat)
    requires
        k <= regions.len(),
        images_fit(regions, k),
    ensures
        overlay_all(mem, block_list(images(regions, family_id, k), block_total(regions, k)))
            == overlay_all(mem, padded_regions(regions.take(k as int))),
    decreases k,
{
    let padded = padded_regions(regions.take(k as int));
    if k == 0 {
        assert(block_list(images(regions, family_id, 0), 0) =~= Seq::<Region>::empty());
        assert(padded =~= Seq::<Region>::empty());
    } else {
        let r = regions[k - 1];
        let rest = images(regions, family_id, (k - 1) as nat);
        let image = uf2_image(r.1, r.0, family_id);
        let n = page_count(r.1.len());
        let m = block_total(regions, (k - 1) as nat);
        law_images_write_regions(mem, regions, family_id, (k - 1) as nat);
        lemma_images_len(regions, family_id, (k - 1) as nat);
        law_image_blocks(r.1, r.0, stated_count(r.1.len()), family_id, n);
        lemma_block_list_joined(rest, image, m, n);
        let before = overlay_all(mem, block_list(rest, m));
        lemma_overlay_all_concat(mem, block_list(rest, m), block_list(image, n));
        lemma_image_in_memory(before, r.1, r.0, family_id);
        assert(padded.drop_last() =~= padded_regions(regions.take(k - 1)));
        assert(padded.last() == (r.0, padded_pages(r.1, n)));
    }
}

proof fn lemma_all_blocks_valid(data: Seq<u8>, k: nat)
    ensures
        first_block_error(data, k) is None <==> forall|i: int|
            0 <= i < k ==> (#[trigger] block_error(data, i)) is None,
    decreases k,
{
    if k > 0 {
        lemma_all_blocks_valid(data, (k - 1) as nat);
        if forall|i: int| 0 <= i < k ==> (#[trigger] block_error(data, i)) is None {
            assert(block_error(data, k - 1) is None);
        }
    }
}

proof fn lemma_valid_joined(a: Seq<u8>, b: Seq<u8>, na: nat, nb: nat)
    requires
        a.len() == 512 * na,
        b.len() == 512 * nb,
        first_block_error(a, na) is None,
        first_block_error(b, nb) is None,
    ensures
        first_block_error(a + b, na + nb) is None,
{
    let whole = a + b;
    lemma_all_blocks_valid(a, na);
    lemma_all_blocks_valid(b, nb);
    lemma_all_blocks_valid(whole, na + nb);
    assert forall|i: int| 0 <= i < na + nb implies (#[trigger] block_error(whole, i)) is None by {
        if i < na {
            assert(block_at(whole, i) =~= block_at(a, i));
            assert(block_error(a, i) is None);
        } else {
            assert(block_at(whole, i) =~= block_at(b, i - na));
            assert(block_error(b, i - na) is None);
        }
    }
}

/// The blocks of several binaries are a valid UF2 file.
proof fn lemma_images_valid(regions: Seq<Region>, family_id: u32, k: nat)
    requires
        k <= regions.len(),
        images_fit(regions, k),
    ensures
        images(regions, family_id, k).len() == 512 * block_total(regions, k),
        first_block_error(images(regions, family_id, k), block_total(regions, k)) is None,
    decreases k,
{
    lemma_images_len(regions, family_id, k);
    if k > 0 {
        let r = regions[k - 1];
        let image = uf2_image(r.1, r.0, family_id);
        let n = page_count(r.1.len());
        lemma_images_valid(regions, family_id, (k - 1) as nat);
        law_image_blocks(r.1, r.0, stated_count(r.1.len()), family_id, n);
        assert(image.len() == 512 * n);
        assert(first_block_error(image, n) is None) by {
            if r.1.len() > 0 {
                law_uf2_round_trip(r.1, r.0, family_id);
                assert(image.len() / 512 == n);
            }
        }
        lemma_valid_joined(
            images(regions, family_id, (k - 1) as nat),
            image,
            block_total(regions, (k - 1) as nat),
            n,
        );
    }
}

/// The UF2 file for several binaries, renumbered as one file, is valid, and flashing it
/// writes every binary at its address, filled up with zeros to whole pages, in the given
/// order.
pub proof fn law_file_writes_regions(mem: Memory, regions: Seq<Region>, family_id: u32)
    requires
        images_fit(regions, regions.len()),
    ensures
        ({
            let n = block_total(regions, regions.len());
            let file = renumbered(images(regions, family_id, regions.len()), 0, n as u32);
            &&& uf2_error(file) is None
            &&& overlay_all(mem, block_regions(file, n)) == overlay_all(
                mem,
                padded_regions(regions),
            )
        }),
{
    let n = block_total(regions, regions.len());
    let data = images(regions, family_id, regions.len());
    lemma_images_valid(regions, family_id, regions.len());
    assert(data.len() / 512 == n);
    law_renumber_keeps_regions(data, 0, n as u32, n);
    law_regions_keep_blocks(mem, data, n);
    law_images_write_regions(mem, regions, family_id, regions.len());
    assert(regions.take(regions.len() as int) =~= regions);
}

} // verus!
