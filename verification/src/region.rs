//! Writing one region of flash sector by sector, so that the bytes around it stay.

use vstd::prelude::*;

use crate::flash_ops::{
    align_down, align_up, device_step, erased, law_sector_of, lemma_program_erased, overlap_len,
    programmed, spec_overlap_len, FlashError, FlashOp, FlashOpView, FlashReply, FlashReplyView,
    FLASH_PAGE_SIZE, FLASH_SECTOR_SIZE,
};
use crate::le::{push_bytes, splice, write_at};
use crate::memory::{contents, overlay, Memory};

verus! {

/// What the writing of a region waits for.
#[derive(Debug, Clone, Copy, PartialEq, Eq, Structural)]
pub enum RegionPhase {
    /// Read the sector, which the region fills only in part.
    Read,
    /// Erase the sector.
    Erase,
    /// Write a page of the sector.
    Program(u32),
    /// All sectors are written.
    Done,
}

/// A region that is being written.
#[derive(Debug)]
pub struct RegionWriter {
    pub address: u32,
    pub data: Vec<u8>,
    /// The sector at hand.
    pub sector: u32,
    pub phase: RegionPhase,
    /// What the sector is to hold.
    pub buffer: Vec<u8>,
}

/// What a [`RegionWriter`] says.
#[verifier::ext_equal]
pub struct RegionView {
    pub address: int,
    pub data: Seq<u8>,
    pub sector: int,
    pub phase: RegionPhase,
    pub buffer: Seq<u8>,
}

impl View for RegionWriter {
    type V = RegionView;

    open spec fn view(&self) -> RegionView {
        RegionView {
            address: self.address as int,
            data: self.data@,
            sector: self.sector as int,
            phase: self.phase,
            buffer: self.buffer@,
        }
    }
}

impl RegionView {
    /// The address after the last byte.
    pub open spec fn end(self) -> int {
        self.address + self.data.len()
    }

    /// The address after the last sector.
    pub open spec fn sector_end(self) -> int {
        (self.end() + 4095) - (self.end() + 4095) % 4096
    }

    /// The first address of the sector at hand that belongs to the region.
    pub open spec fn from(self) -> int {
        if self.sector > self.address {
            self.sector
        } else {
            self.address
        }
    }

    /// The address after the last one of the sector at hand that belongs to the region.
    pub open spec fn to(self) -> int {
        if self.sector + 4096 < self.end() {
            self.sector + 4096
        } else {
            self.end()
        }
    }

    /// The part of the region that lies in the sector at hand.
    pub open spec fn piece(self) -> Seq<u8> {
        self.data.subrange(self.from() - self.address, self.to() - self.address)
    }

    /// Whether the region fills the sector at hand.
    pub open spec fn whole(self) -> bool {
        self.from() == self.sector && self.to() == self.sector + 4096
    }

    /// The region's sectors lie in the address space, the sector at hand is one of them
    /// or the one after, and the buffer holds a sector where one is to be written.
    pub open spec fn wf(self) -> bool {
        &&& 0 <= self.address
        &&& self.end() + 4095 <= u32::MAX
        &&& self.sector % 4096 == 0
        &&& self.address - self.address % 4096 <= self.sector <= self.sector_end()
        &&& self.phase is Done <==> self.sector == self.sector_end()
        &&& self.phase is Erase || self.phase is Program ==> self.buffer.len() == 4096
        &&& self.phase matches RegionPhase::Program(k) ==> k < 16
    }

    /// The region with `sector` at hand and nothing done to it.
    pub open spec fn at_sector(self, sector: int) -> RegionView {
        let v = RegionView { sector, phase: RegionPhase::Read, buffer: Seq::empty(), ..self };
        if sector >= v.sector_end() {
            RegionView { phase: RegionPhase::Done, ..v }
        } else if v.whole() {
            RegionView { phase: RegionPhase::Erase, buffer: v.piece(), ..v }
        } else {
            v
        }
    }

    /// The operation that comes next.
    pub open spec fn op(self) -> Option<FlashOpView> {
        match self.phase {
            RegionPhase::Read => Some(
                FlashOpView::Read { addr: self.sector as u32, len: FLASH_SECTOR_SIZE },
            ),
            RegionPhase::Erase => Some(
                FlashOpView::Erase { addr: self.sector as u32, len: FLASH_SECTOR_SIZE },
            ),
            RegionPhase::Program(k) => Some(
                FlashOpView::Write {
                    addr: (self.sector + 256 * k) as u32,
                    data: self.buffer.subrange(256 * k, 256 * k + 256),
                },
            ),
            RegionPhase::Done => None,
        }
    }

    /// The state after a reply.  A reply that does not answer the pending operation
    /// changes nothing.
    pub open spec fn next(self, reply: FlashReplyView) -> RegionView {
        match (self.phase, reply) {
            (RegionPhase::Read, FlashReplyView::Received(d)) => if d.len() == 4096 {
                RegionView {
                    phase: RegionPhase::Erase,
                    buffer: splice(d, self.from() - self.sector, self.piece()),
                    ..self
                }
            } else {
                self
            },
            (RegionPhase::Erase, FlashReplyView::Completed) => RegionView {
                phase: RegionPhase::Program(0),
                ..self
            },
            (RegionPhase::Program(k), FlashReplyView::Completed) => if k < 15 {
                RegionView { phase: RegionPhase::Program((k + 1) as u32), ..self }
            } else {
                self.at_sector(self.sector + 4096)
            },
            _ => self,
        }
    }

    /// How many bytes of the region a reply says were written.
    pub open spec fn progress(self, reply: FlashReplyView) -> int {
        match (self.phase, reply) {
            (RegionPhase::Program(k), FlashReplyView::Completed) => spec_overlap_len(
                (self.sector + 256 * k) as u32,
                FLASH_PAGE_SIZE,
                self.address as u32,
                self.end() as u32,
            ),
            _ => 0,
        }
    }

    /// The error when the pending operation fails.
    pub open spec fn failure(self) -> FlashError {
        match self.phase {
            RegionPhase::Read => FlashError::ReadSector { addr: self.sector as u32 },
            RegionPhase::Program(k) => FlashError::WritePage {
                addr: (self.sector + 256 * k) as u32,
            },
            _ => FlashError::EraseSector { addr: self.sector as u32 },
        }
    }

    /// An upper bound on the operations that are left.
    pub open spec fn steps_left(self) -> nat {
        let sectors = (self.sector_end() - self.sector) / 4096;
        match self.phase {
            RegionPhase::Read => (18 * sectors) as nat,
            RegionPhase::Erase => (18 * sectors - 1) as nat,
            RegionPhase::Program(k) => (18 * sectors - 2 - k) as nat,
            RegionPhase::Done => 0,
        }
    }
}

/// A region about to be written, or why it cannot be.
pub open spec fn region_start(address: u32, data: Seq<u8>) -> Result<RegionView, FlashError> {
    if data.len() > u32::MAX {
        Err(FlashError::TooLarge)
    } else if address + data.len() > u32::MAX {
        Err(FlashError::WriteRangeOverflow)
    } else if address + data.len() + 4095 > u32::MAX {
        Err(FlashError::AlignmentOverflow)
    } else {
        let v = RegionView {
            address: address as int,
            data,
            sector: 0,
            phase: RegionPhase::Done,
            buffer: Seq::empty(),
        };
        Ok(v.at_sector(address - address % 4096))
    }
}

proof fn lemma_at_sector_wf(v: RegionView, sector: int)
    requires
        0 <= v.address,
        v.end() + 4095 <= u32::MAX,
        sector % 4096 == 0,
        v.address - v.address % 4096 <= sector <= v.sector_end(),
    ensures
        v.at_sector(sector).wf(),
{
}

/// A region that starts is well-formed.
pub proof fn lemma_region_start_wf(address: u32, data: Seq<u8>)
    ensures
        region_start(address, data) matches Ok(v) ==> v.wf() && v.address == address && v.data
            == data,
        region_start(address, data) matches Ok(v) ==> (data.len() > 0 ==> !(v.phase is Done)),
{
    if address + data.len() + 4095 <= u32::MAX && data.len() <= u32::MAX {
        let v = RegionView {
            address: address as int,
            data,
            sector: 0,
            phase: RegionPhase::Done,
            buffer: Seq::empty(),
        };
        lemma_at_sector_wf(v, address - address % 4096);
    }
}

/// A step keeps a region well-formed.
pub proof fn law_region_step_wf(v: RegionView, reply: FlashReplyView)
    requires
        v.wf(),
    ensures
        v.next(reply).wf(),
        v.next(reply).address == v.address,
        v.next(reply).data == v.data,
{
    if v.phase matches RegionPhase::Program(k) && k >= 15 && reply is Completed {
        assert(v.sector + 4096 <= v.sector_end());
        lemma_at_sector_wf(v, v.sector + 4096);
    }
}

impl RegionWriter {
    /// Puts the next sector at hand.
    fn enter_sector(&mut self, sector: u32)
        requires
            old(self)@.end() + 4095 <= u32::MAX,
            sector % 4096 == 0,
            old(self).address - old(self).address % 4096 <= sector <= old(self)@.sector_end(),
        ensures
            final(self)@ == old(self)@.at_sector(sector as int),
    {
        let len: usize = self.data.len();
        let end: u32 = self.address + len as u32;
        self.sector = sector;
        self.buffer = Vec::new();
        self.phase = RegionPhase::Read;
        assert(self.buffer@ =~= Seq::<u8>::empty());
        let rounded: u32 = (end + 4095) - (end + 4095) % 4096;
        if sector >= rounded {
            self.phase = RegionPhase::Done;
            assert(self@ =~= old(self)@.at_sector(sector as int));
            return;
        }
        let from: u32 = if sector > self.address {
            sector
        } else {
            self.address
        };
        let to: u32 = if sector + 4096 < end {
            sector + 4096
        } else {
            end
        };
        if from == sector && to == sector + 4096 {
            let mut buffer: Vec<u8> = Vec::new();
            push_bytes(
                &mut buffer,
                self.data.as_slice(),
                (from - self.address) as usize,
                (to - self.address) as usize,
            );
            self.buffer = buffer;
            self.phase = RegionPhase::Erase;
            assert(self.buffer@ =~= self@.piece());
        }
        assert(self@ =~= old(self)@.at_sector(sector as int));
    }

    /// Gets ready to write `data` at `address`.
    pub fn start(address: u32, data: Vec<u8>) -> (r: Result<RegionWriter, FlashError>)
        ensures
            (match r {
                Ok(w) => region_start(address, data@) == Ok::<RegionView, FlashError>(w@) && w@.wf(),
                Err(e) => region_start(address, data@) == Err::<RegionView, FlashError>(e),
            }),
    {
        let size: usize = data.len();
        if size as u64 > u32::MAX as u64 {
            return Err(FlashError::TooLarge);
        }
        let end: u32 = match address.checked_add(size as u32) {
            None => {
                return Err(FlashError::WriteRangeOverflow);
            },
            Some(end) => end,
        };
        match align_up(end, FLASH_SECTOR_SIZE) {
            Err(e) => {
                return Err(e);
            },
            Ok(_) => {},
        }
        let sector: u32 = align_down(address, FLASH_SECTOR_SIZE);
        proof {
            law_sector_of(address);
            lemma_region_start_wf(address, data@);
        }
        let mut w = RegionWriter {
            address,
            data,
            sector: 0,
            phase: RegionPhase::Done,
            buffer: Vec::new(),
        };
        assert(w.buffer@ =~= Seq::<u8>::empty());
        w.enter_sector(sector);
        Ok(w)
    }

    /// The operation that comes next.
    pub fn next_op(&self) -> (r: Option<FlashOp>)
        requires
            self@.wf(),
        ensures
            (match r {
                Some(op) => self@.op() == Some(op@),
                None => self@.op() is None,
            }),
    {
        match self.phase {
            RegionPhase::Read => Some(
                FlashOp::Read { addr: self.sector, len: FLASH_SECTOR_SIZE },
            ),
            RegionPhase::Erase => Some(
                FlashOp::Erase { addr: self.sector, len: FLASH_SECTOR_SIZE },
            ),
            RegionPhase::Program(k) => {
                let mut page: Vec<u8> = Vec::new();
                push_bytes(
                    &mut page,
                    self.buffer.as_slice(),
                    256 * k as usize,
                    256 * k as usize + 256,
                );
                assert(page@ =~= self.buffer@.subrange(256 * k, 256 * k + 256));
                Some(FlashOp::Write { addr: self.sector + 256 * k, data: page })
            },
            RegionPhase::Done => None,
        }
    }

    /// The error when the pending operation fails.
    pub fn failure(&self) -> (r: FlashError)
        requires
            self@.wf(),
        ensures
            r == self@.failure(),
    {
        match self.phase {
            RegionPhase::Read => FlashError::ReadSector { addr: self.sector },
            RegionPhase::Program(k) => FlashError::WritePage { addr: self.sector + 256 * k },
            _ => FlashError::EraseSector { addr: self.sector },
        }
    }

    /// Takes note of the reply to the pending operation; returns how many bytes of the
    /// region it says were written.
    pub fn advance(&mut self, reply: FlashReply) -> (r: u32)
        requires
            old(self)@.wf(),
        ensures
            final(self)@ == old(self)@.next(reply@),
            final(self)@.wf(),
            r == old(self)@.progress(reply@),
    {
        proof {
            law_region_step_wf(self@, reply@);
        }
        let len: usize = self.data.len();
        let end: u32 = self.address + len as u32;
        let ghost before = self@;
        match (self.phase, reply) {
            (RegionPhase::Read, FlashReply::Received(data)) => {
                if data.len() == 4096 {
                    let from: u32 = if self.sector > self.address {
                        self.sector
                    } else {
                        self.address
                    };
                    let to: u32 = if self.sector + 4096 < end {
                        self.sector + 4096
                    } else {
                        end
                    };
                    let mut merged = data;
                    write_at(
                        &mut merged,
                        (from - self.sector) as usize,
                        self.data.as_slice(),
                        (from - self.address) as usize,
                        (to - self.address) as usize,
                    );
                    self.buffer = merged;
                    self.phase = RegionPhase::Erase;
                }
                assert(self@ =~= before.next(reply@));
                0
            },
            (RegionPhase::Erase, FlashReply::Completed) => {
                self.phase = RegionPhase::Program(0);
                0
            },
            (RegionPhase::Program(k), FlashReply::Completed) => {
                let count: u32 = overlap_len(
                    self.sector + 256 * k,
                    FLASH_PAGE_SIZE,
                    self.address,
                    end,
                );
                if k < 15 {
                    self.phase = RegionPhase::Program(k + 1);
                } else {
                    let next: u32 = self.sector + 4096;
                    self.enter_sector(next);
                }
                count
            },
            _ => 0,
        }
    }
}

// ---------------------------------------------------------------------------
// What the steps add up to
// ---------------------------------------------------------------------------

/// The region and the memory after at most `fuel` operations on a working device.
pub open spec fn run_region(v: RegionView, mem: Memory, fuel: nat) -> (RegionView, Memory)
    decreases fuel,
{
    match v.op() {
        Some(op) if fuel > 0 => {
            let (after, reply) = device_step(mem, op);
            run_region(v.next(reply), after, (fuel - 1) as nat)
        },
        _ => (v, mem),
    }
}

/// The bytes that at most `fuel` operations on a working device report as written.
pub open spec fn run_progress(v: RegionView, mem: Memory, fuel: nat) -> int
    decreases fuel,
{
    match v.op() {
        Some(op) if fuel > 0 => {
            let (after, reply) = device_step(mem, op);
            v.progress(reply) + run_progress(v.next(reply), after, (fuel - 1) as nat)
        },
        _ => 0,
    }
}

/// How the memory stands in the middle of writing a region over `before`.
spec fn midway(v: RegionView, mem: Memory, before: Memory) -> bool {
    let target = overlay(before, v.address, v.data);
    &&& v.wf()
    &&& forall|a: int| a < v.sector ==> #[trigger] mem(a) == target(a)
    &&& forall|a: int| a >= v.sector + 4096 ==> #[trigger] mem(a) == before(a)
    &&& match v.phase {
        RegionPhase::Read => forall|a: int|
            v.sector <= a < v.sector + 4096 ==> #[trigger] mem(a) == before(a),
        RegionPhase::Erase => forall|i: int|
            0 <= i < 4096 ==> #[trigger] v.buffer[i] == target(v.sector + i),
        RegionPhase::Program(k) => {
            &&& forall|i: int| 0 <= i < 4096 ==> #[trigger] v.buffer[i] == target(v.sector + i)
            &&& forall|a: int|
                v.sector <= a < v.sector + 256 * k ==> #[trigger] mem(a) == target(a)
            &&& forall|a: int|
                v.sector + 256 * k <= a < v.sector + 4096 ==> #[trigger] mem(a) == 0xFFu8
        },
        RegionPhase::Done => forall|a: int| a >= v.sector ==> #[trigger] mem(a) == before(a),
    }
}

proof fn lemma_midway_at_sector(v: RegionView, sector: int, mem: Memory, before: Memory)
    requires
        0 <= v.address,
        v.end() + 4095 <= u32::MAX,
        sector % 4096 == 0,
        v.address - v.address % 4096 <= sector <= v.sector_end(),
        forall|a: int|
            a < sector ==> #[trigger] mem(a) == overlay(before, v.address, v.data)(a),
        forall|a: int| a >= sector ==> #[trigger] mem(a) == before(a),
    ensures
        midway(v.at_sector(sector), mem, before),
{
    lemma_at_sector_wf(v, sector);
    let w = v.at_sector(sector);
    if w.phase is Erase {
        let target = overlay(before, v.address, v.data);
        assert forall|i: int| 0 <= i < 4096 implies #[trigger] w.buffer[i] == target(w.sector + i) by {
            assert(w.buffer[i] == v.data[sector - v.address + i]);
        }
    }
}

proof fn lemma_midway_step(v: RegionView, mem: Memory, before: Memory)
    requires
        midway(v, mem, before),
        v.op() is Some,
    ensures
        ({
            let (after, reply) = device_step(mem, v.op()->0);
            &&& midway(v.next(reply), after, before)
            &&& v.next(reply).steps_left() < v.steps_left()
            &&& v.next(reply).address == v.address
            &&& v.next(reply).data == v.data
        }),
{
    let (after, reply) = device_step(mem, v.op()->0);
    let target = overlay(before, v.address, v.data);
    let w = v.next(reply);
    law_region_step_wf(v, reply);
    assert(v.sector + 4096 <= v.sector_end());
    match v.phase {
        RegionPhase::Read => {
            let d = contents(mem, v.sector, 4096);
            assert(reply == FlashReplyView::Received(d));
            assert forall|i: int| 0 <= i < 4096 implies #[trigger] w.buffer[i] == target(
                w.sector + i,
            ) by {
                assert(d[i] == mem(v.sector + i));
                assert(mem(v.sector + i) == before(v.sector + i));
            }
        },
        RegionPhase::Erase => {
            assert(after == erased(mem, v.sector, 4096));
            assert forall|a: int| v.sector <= a < v.sector + 4096 implies #[trigger] after(a)
                == 0xFFu8 by {}
            assert forall|a: int| a < v.sector implies #[trigger] after(a) == target(a) by {
                assert(after(a) == mem(a));
            }
            assert forall|a: int| a >= v.sector + 4096 implies #[trigger] after(a) == before(a) by {
                assert(after(a) == mem(a));
            }
        },
        RegionPhase::Program(k) => {
            let page = v.buffer.subrange(256 * k, 256 * k + 256);
            assert(after == programmed(mem, v.sector + 256 * k, page));
            assert forall|a: int| v.sector + 256 * k <= a < v.sector + 256 * k + 256 implies
                #[trigger] after(a) == target(a) by {
                assert(mem(a) == 0xFFu8);
                lemma_program_erased(page[a - (v.sector + 256 * k)]);
                assert(page[a - (v.sector + 256 * k)] == v.buffer[a - v.sector]);
            }
            assert forall|a: int| !(v.sector + 256 * k <= a < v.sector + 256 * k + 256) implies
                #[trigger] after(a) == mem(a) by {}
            if k == 15 {
                assert forall|a: int| a < v.sector + 4096 implies #[trigger] after(a) == target(
                    a,
                ) by {
                    if a < v.sector + 256 * k {
                        assert(after(a) == mem(a));
                    }
                }
                assert forall|a: int| a >= v.sector + 4096 implies #[trigger] after(a) == before(
                    a,
                ) by {
                    assert(after(a) == mem(a));
                }
                lemma_midway_at_sector(v, v.sector + 4096, after, before);
                assert((v.sector_end() - (v.sector + 4096)) / 4096 == (v.sector_end() - v.sector)
                    / 4096 - 1);
            } else {
                assert forall|a: int| a < v.sector implies #[trigger] after(a) == target(a) by {
                    assert(after(a) == mem(a));
                }
                assert forall|a: int| a >= v.sector + 4096 implies #[trigger] after(a) == before(
                    a,
                ) by {
                    assert(after(a) == mem(a));
                }
                assert forall|a: int| v.sector <= a < v.sector + 256 * (k + 1) implies
                    #[trigger] after(a) == target(a) by {
                    if a < v.sector + 256 * k {
                        assert(after(a) == mem(a));
                    }
                }
                assert forall|a: int| v.sector + 256 * (k + 1) <= a < v.sector + 4096 implies
                    #[trigger] after(a) == 0xFFu8 by {
                    assert(after(a) == mem(a));
                }
            }
        },
        RegionPhase::Done => {},
    }
}

proof fn lemma_run_midway(v: RegionView, mem: Memory, before: Memory, fuel: nat)
    requires
        midway(v, mem, before),
        fuel >= v.steps_left(),
    ensures
        run_region(v, mem, fuel).0.phase is Done,
        run_region(v, mem, fuel).1 == overlay(before, v.address, v.data),
    decreases fuel,
{
    if v.op() is Some {
        lemma_midway_step(v, mem, before);
        let (after, reply) = device_step(mem, v.op()->0);
        assert(v.steps_left() > 0);
        lemma_run_midway(v.next(reply), after, before, (fuel - 1) as nat);
    } else {
        let target = overlay(before, v.address, v.data);
        assert forall|a: int| #[trigger] mem(a) == target(a) by {
            if a >= v.sector {
                assert(mem(a) == before(a));
            }
        }
        assert(mem =~= target);
    }
}

/// Writing a region on a working device leaves its data at its address and every
/// other byte as it was, though whole sectors are erased on the way.
pub proof fn law_region_written(address: u32, data: Seq<u8>, before: Memory, fuel: nat)
    requires
        region_start(address, data) is Ok,
        fuel >= (region_start(address, data)->Ok_0).steps_left(),
    ensures
        ({
            let v = region_start(address, data)->Ok_0;
            &&& run_region(v, before, fuel).0.phase is Done
            &&& run_region(v, before, fuel).1 == overlay(before, address as int, data)
        }),
{
    let v0 = RegionView {
        address: address as int,
        data,
        sector: 0,
        phase: RegionPhase::Done,
        buffer: Seq::empty(),
    };
    let sector = address - address % 4096;
    lemma_midway_at_sector(v0, sector, before, before);
    lemma_run_midway(v0.at_sector(sector), before, before, fuel);
}

/// Where writing stands: the address below which all pages are written.
spec fn position(v: RegionView) -> int {
    match v.phase {
        RegionPhase::Program(k) => v.sector + 256 * k,
        _ => v.sector,
    }
}

/// How many bytes of the region lie from `position` on.
spec fn bytes_left(v: RegionView) -> int {
    let from = if position(v) > v.address {
        position(v)
    } else {
        v.address
    };
    if v.end() > from {
        v.end() - from
    } else {
        0
    }
}

proof fn lemma_progress_step(v: RegionView, mem: Memory)
    requires
        v.wf(),
        v.op() is Some,
    ensures
        ({
            let reply = device_step(mem, v.op()->0).1;
            v.progress(reply) + bytes_left(v.next(reply)) == bytes_left(v)
        }),
{
    assert(v.sector + 4096 <= v.sector_end());
}

proof fn lemma_run_progress(v: RegionView, mem: Memory, before: Memory, fuel: nat)
    requires
        midway(v, mem, before),
        fuel >= v.steps_left(),
    ensures
        run_progress(v, mem, fuel) == bytes_left(v),
    decreases fuel,
{
    if v.op() is Some {
        lemma_midway_step(v, mem, before);
        lemma_progress_step(v, mem);
        let (after, reply) = device_step(mem, v.op()->0);
        lemma_run_progress(v.next(reply), after, before, (fuel - 1) as nat);
    }
}

/// The progress that is reported while a region is written adds up to its length.
pub proof fn law_region_progress(address: u32, data: Seq<u8>, before: Memory, fuel: nat)
    requires
        region_start(address, data) is Ok,
        fuel >= (region_start(address, data)->Ok_0).steps_left(),
    ensures
        run_progress(region_start(address, data)->Ok_0, before, fuel) == data.len(),
{
    let v0 = RegionView {
        address: address as int,
        data,
        sector: 0,
        phase: RegionPhase::Done,
        buffer: Seq::empty(),
    };
    let sector = address - address % 4096;
    lemma_midway_at_sector(v0, sector, before, before);
    lemma_run_progress(v0.at_sector(sector), before, before, fuel);
}

} // verus!
