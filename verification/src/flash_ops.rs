//! What the tool does to flash memory, command by command.

use vstd::prelude::*;

use crate::le::spells;
use crate::memory::{contents, overlay, Memory};
use crate::picoboot::{
    command_packet, law_packet_layout, law_range_command, law_reboot_command, range_packet,
    reboot2_packet, word_args, CommandRun, PicobootConnection, PicobootError, PC_EXIT_XIP, PC_FLASH_ERASE, PC_READ, PC_WRITE, REBOOT2_FLAG_REBOOT_TYPE_FLASH_UPDATE,
    REBOOT2_FLAG_REBOOT_TYPE_NORMAL, REBOOT_DELAY_MS,
};
use crate::text::{hex, push_hex};

verus! {

/// Size of the smallest piece of flash that can be written.
pub const FLASH_PAGE_SIZE: u32 = 256;

/// Size of the smallest piece of flash that can be erased.
pub const FLASH_SECTOR_SIZE: u32 = 4096;

/// Where flash memory starts.
pub const FLASH_START: u32 = 0x1000_0000;

// ---------------------------------------------------------------------------
// Operations and replies
// ---------------------------------------------------------------------------

/// One operation on a device in BOOTSEL mode.
#[derive(Debug)]
pub enum FlashOp {
    ExitXip,
    Read { addr: u32, len: u32 },
    Erase { addr: u32, len: u32 },
    Write { addr: u32, data: Vec<u8> },
    RebootFlashUpdate { addr: u32 },
    RebootApplication,
}

/// What a [`FlashOp`] says.
pub enum FlashOpView {
    ExitXip,
    Read { addr: u32, len: u32 },
    Erase { addr: u32, len: u32 },
    Write { addr: u32, data: Seq<u8> },
    RebootFlashUpdate { addr: u32 },
    RebootApplication,
}

impl View for FlashOp {
    type V = FlashOpView;

    open spec fn view(&self) -> FlashOpView {
        match self {
            FlashOp::ExitXip => FlashOpView::ExitXip,
            FlashOp::Read { addr, len } => FlashOpView::Read { addr: *addr, len: *len },
            FlashOp::Erase { addr, len } => FlashOpView::Erase { addr: *addr, len: *len },
            FlashOp::Write { addr, data } => FlashOpView::Write { addr: *addr, data: data@ },
            FlashOp::RebootFlashUpdate { addr } => FlashOpView::RebootFlashUpdate { addr: *addr },
            FlashOp::RebootApplication => FlashOpView::RebootApplication,
        }
    }
}

/// How an operation went.
#[derive(Debug)]
pub enum FlashReply {
    Completed,
    Received(Vec<u8>),
    Failed,
}

/// What a [`FlashReply`] says.
pub enum FlashReplyView {
    Completed,
    Received(Seq<u8>),
    Failed,
}

impl View for FlashReply {
    type V = FlashReplyView;

    open spec fn view(&self) -> FlashReplyView {
        match self {
            FlashReply::Completed => FlashReplyView::Completed,
            FlashReply::Received(data) => FlashReplyView::Received(data@),
            FlashReply::Failed => FlashReplyView::Failed,
        }
    }
}

/// The packet that carries out an operation.
pub open spec fn op_packet(op: FlashOpView, token: u32) -> Seq<u8> {
    match op {
        FlashOpView::ExitXip => command_packet(token, PC_EXIT_XIP, 0, 0, word_args(0, 0, 0, 0)),
        FlashOpView::Read { addr, len } => range_packet(token, PC_READ, addr, len, len),
        FlashOpView::Erase { addr, len } => range_packet(token, PC_FLASH_ERASE, addr, len, 0),
        FlashOpView::Write { addr, data } => range_packet(
            token,
            PC_WRITE,
            addr,
            data.len() as u32,
            data.len() as u32,
        ),
        FlashOpView::RebootFlashUpdate { addr } => reboot2_packet(
            token,
            REBOOT2_FLAG_REBOOT_TYPE_FLASH_UPDATE,
            REBOOT_DELAY_MS,
            addr,
            0,
        ),
        FlashOpView::RebootApplication => reboot2_packet(
            token,
            REBOOT2_FLAG_REBOOT_TYPE_NORMAL,
            REBOOT_DELAY_MS,
            0,
            0,
        ),
    }
}

/// The data that goes with an operation.
pub open spec fn op_data(op: FlashOpView) -> Option<Seq<u8>> {
    match op {
        FlashOpView::Write { data, .. } => Some(data),
        _ => None,
    }
}

/// Whether an operation counts as done though the device does not acknowledge it.
pub open spec fn op_is_reboot(op: FlashOpView) -> bool {
    op is RebootFlashUpdate || op is RebootApplication
}

/// Starts the command that carries out an operation.
pub fn start_op(connection: &mut PicobootConnection, op: FlashOp) -> (r: Result<
    CommandRun,
    PicobootError,
>)
    ensures
        (match op@ {
            FlashOpView::Write { data, .. } if data.len() > u32::MAX => r == Err::<
                CommandRun,
                PicobootError,
            >(PicobootError::WriteTooLarge) && *final(connection) == *old(connection),
            _ => {
                &&& *final(connection) == old(connection).after_command()
                &&& r matches Ok(run) && run.is_start(
                    op_packet(op@, old(connection).next_token),
                    op_data(op@),
                    op_is_reboot(op@),
                )
            },
        }),
{
    match op {
        FlashOp::ExitXip => Ok(connection.exit_xip()),
        FlashOp::Read { addr, len } => Ok(connection.read(addr, len)),
        FlashOp::Erase { addr, len } => Ok(connection.flash_erase(addr, len)),
        FlashOp::Write { addr, data } => connection.write(addr, data),
        FlashOp::RebootFlashUpdate { addr } => Ok(connection.reboot_flash_update(addr)),
        FlashOp::RebootApplication => Ok(connection.reboot_application()),
    }
}

// ---------------------------------------------------------------------------
// Errors
// ---------------------------------------------------------------------------

/// Why flash memory could not be read, written or erased.
#[derive(Debug, Clone, Copy, PartialEq, Eq, Structural)]
pub enum FlashError {
    ExitXip,
    /// A region has more bytes than there are addresses.
    TooLarge,
    /// A region ends beyond the address space.
    WriteRangeOverflow,
    /// The sector that a region ends in does.
    AlignmentOverflow,
    ReadSector { addr: u32 },
    EraseSector { addr: u32 },
    WritePage { addr: u32 },
    /// A range to erase ends beyond the address space.
    EraseRangeOverflow,
    ReadFlash { addr: u32 },
    /// A range to read reaches the end of the address space.
    ReadAddressOverflow,
    /// There is nothing to erase.
    ZeroSize,
    BaseUnaligned,
    SizeUnaligned,
}

impl FlashError {
    /// The error in words.
    pub open spec fn spec_message(self) -> Seq<char> {
        match self {
            FlashError::ExitXip => "Failed to exit XIP mode"@,
            FlashError::TooLarge => "Write target is too large"@,
            FlashError::WriteRangeOverflow => "Write range overflows u32 address space"@,
            FlashError::AlignmentOverflow => "Address alignment overflow"@,
            FlashError::ReadSector { addr } => "Failed to read flash sector at 0x"@ + hex(
                addr as nat,
                8,
            ),
            FlashError::EraseSector { addr } => "Failed to erase flash sector at 0x"@ + hex(
                addr as nat,
                8,
            ),
            FlashError::WritePage { addr } => "Failed to write flash page at 0x"@ + hex(
                addr as nat,
                8,
            ),
            FlashError::EraseRangeOverflow => "Erase range overflows u32 address space"@,
            FlashError::ReadFlash { addr } => "Failed to read flash at 0x"@ + hex(addr as nat, 8),
            FlashError::ReadAddressOverflow => "Read address overflow"@,
            FlashError::ZeroSize => "flash_size must be greater than zero"@,
            FlashError::BaseUnaligned => "base address must be 4096-byte aligned for direct erase"@,
            FlashError::SizeUnaligned => "flash size must be 4096-byte aligned for direct erase"@,
        }
    }

    /// The error in words.
    pub fn message(self) -> (r: String)
        ensures
            r@ == self.spec_message(),
    {
        match self {
            FlashError::ExitXip => "Failed to exit XIP mode".to_owned(),
            FlashError::TooLarge => "Write target is too large".to_owned(),
            FlashError::WriteRangeOverflow => "Write range overflows u32 address space".to_owned(),
            FlashError::AlignmentOverflow => "Address alignment overflow".to_owned(),
            FlashError::ReadSector { addr } => {
                let mut r = "Failed to read flash sector at 0x".to_owned();
                push_hex(&mut r, addr as u64, 8);
                r
            },
            FlashError::EraseSector { addr } => {
                let mut r = "Failed to erase flash sector at 0x".to_owned();
                push_hex(&mut r, addr as u64, 8);
                r
            },
            FlashError::WritePage { addr } => {
                let mut r = "Failed to write flash page at 0x".to_owned();
                push_hex(&mut r, addr as u64, 8);
                r
            },
            FlashError::EraseRangeOverflow => "Erase range overflows u32 address space".to_owned(),
            FlashError::ReadFlash { addr } => {
                let mut r = "Failed to read flash at 0x".to_owned();
                push_hex(&mut r, addr as u64, 8);
                r
            },
            FlashError::ReadAddressOverflow => "Read address overflow".to_owned(),
            FlashError::ZeroSize => "flash_size must be greater than zero".to_owned(),
            FlashError::BaseUnaligned =>
                "base address must be 4096-byte aligned for direct erase".to_owned(),
            FlashError::SizeUnaligned =>
                "flash size must be 4096-byte aligned for direct erase".to_owned(),
        }
    }
}

// ---------------------------------------------------------------------------
// A model of the device
// ---------------------------------------------------------------------------

/// Flash memory after a range was erased: every bit of it is set.
pub open spec fn erased(mem: Memory, addr: int, len: nat) -> Memory {
    overlay(mem, addr, Seq::new(len, |i: int| 0xFFu8))
}

/// Flash memory after `data` was written: writing can only clear bits.
pub open spec fn programmed(mem: Memory, addr: int, data: Seq<u8>) -> Memory {
    |a: int|
        if addr <= a < addr + data.len() {
            mem(a) & data[a - addr]
        } else {
            mem(a)
        }
}

/// What a working device does on an operation: its memory afterwards and its reply.
pub open spec fn device_step(mem: Memory, op: FlashOpView) -> (Memory, FlashReplyView) {
    match op {
        FlashOpView::Read { addr, len } => (
            mem,
            FlashReplyView::Received(contents(mem, addr as int, len as nat)),
        ),
        FlashOpView::Erase { addr, len } => (
            erased(mem, addr as int, len as nat),
            FlashReplyView::Completed,
        ),
        FlashOpView::Write { addr, data } => (
            programmed(mem, addr as int, data),
            FlashReplyView::Completed,
        ),
        _ => (mem, FlashReplyView::Completed),
    }
}

/// Writing to an erased byte leaves the byte that is written.
pub proof fn lemma_program_erased(b: u8)
    ensures
        0xFFu8 & b == b,
{
    assert(0xFFu8 & b == b) by (bit_vector);
}

// ---------------------------------------------------------------------------
// Alignment
// ---------------------------------------------------------------------------

/// `value` with the bits below `alignment` cleared.
pub open spec fn aligned_down(value: u32, alignment: u32) -> u32 {
    value & !((alignment - 1) as u32)
}

/// `value` with the bits below `alignment` cleared.
pub fn align_down(value: u32, alignment: u32) -> (r: u32)
    requires
        alignment > 0,
    ensures
        r == aligned_down(value, alignment),
{
    value & !(alignment - 1)
}

/// `value` rounded up to a multiple of `alignment`.
pub fn align_up(value: u32, alignment: u32) -> (r: Result<u32, FlashError>)
    requires
        alignment > 0,
    ensures
        r == (if value + (alignment - 1) > u32::MAX {
            Err::<u32, FlashError>(FlashError::AlignmentOverflow)
        } else {
            Ok::<u32, FlashError>(aligned_down((value + (alignment - 1)) as u32, alignment))
        }),
{
    let add: u32 = alignment - 1;
    match value.checked_add(add) {
        None => Err(FlashError::AlignmentOverflow),
        Some(rounded) => Ok(align_down(rounded, alignment)),
    }
}

/// Clearing the bits below a sector's size gives the address of the sector.
pub proof fn law_sector_of(value: u32)
    ensures
        aligned_down(value, FLASH_SECTOR_SIZE) == value - value % 4096,
{
    assert(value & !4095u32 == value - value % 4096) by (bit_vector);
}

/// How many of the `len` bytes from `addr` on lie between `start` and `end`.
pub open spec fn spec_overlap_len(addr: u32, len: u32, start: u32, end: u32) -> int {
    let page_end = if addr + len > u32::MAX {
        u32::MAX as int
    } else {
        addr + len
    };
    let to = if page_end < end {
        page_end
    } else {
        end as int
    };
    let from = if addr > start {
        addr
    } else {
        start
    };
    if to > from {
        to - from
    } else {
        0
    }
}

/// How many of the `len` bytes from `addr` on lie between `start` and `end`.
pub fn overlap_len(addr: u32, len: u32, start: u32, end: u32) -> (r: u32)
    ensures
        r == spec_overlap_len(addr, len, start, end),
{
    let page_end: u32 = if len > u32::MAX - addr {
        u32::MAX
    } else {
        addr + len
    };
    let to: u32 = if page_end < end {
        page_end
    } else {
        end
    };
    let from: u32 = if addr > start {
        addr
    } else {
        start
    };
    if to > from {
        to - from
    } else {
        0
    }
}

// ---------------------------------------------------------------------------
// Laws
// ---------------------------------------------------------------------------

/// What the bytes of a packet say: the command, the size of its arguments, the length of
/// its data and the four argument words.
pub open spec fn packet_says(
    p: Seq<u8>,
    token: u32,
    command_id: int,
    command_size: int,
    data_len: int,
    a: int,
    b: int,
    c: int,
    d: int,
) -> bool {
    &&& p.len() == 32
    &&& spells(p, 0, 0x431F_D10B)
    &&& spells(p, 4, token as int)
    &&& p[8] == command_id
    &&& p[9] == command_size
    &&& p[10] == 0 && p[11] == 0
    &&& spells(p, 12, data_len)
    &&& spells(p, 16, a)
    &&& spells(p, 20, b)
    &&& spells(p, 24, c)
    &&& spells(p, 28, d)
}

/// Each operation is sent as its command: 3 erases and 0x84 reads a range, 5 writes one, 6
/// leaves execute-in-place mode, and 10 reboots after half a second, with the address of
/// what was updated or into the application.
pub proof fn law_operation_packets(op: FlashOpView, token: u32)
    requires
        op matches FlashOpView::Write { data, .. } ==> data.len() <= u32::MAX,
    ensures
        ({
            let p = op_packet(op, token);
            match op {
                FlashOpView::ExitXip => packet_says(p, token, 6, 0, 0, 0, 0, 0, 0),
                FlashOpView::Read { addr, len } => packet_says(
                    p,
                    token,
                    0x84,
                    8,
                    len as int,
                    addr as int,
                    len as int,
                    0,
                    0,
                ),
                FlashOpView::Erase { addr, len } => packet_says(
                    p,
                    token,
                    3,
                    8,
                    0,
                    addr as int,
                    len as int,
                    0,
                    0,
                ),
                FlashOpView::Write { addr, data } => packet_says(
                    p,
                    token,
                    5,
                    8,
                    data.len() as int,
                    addr as int,
                    data.len() as int,
                    0,
                    0,
                ),
                FlashOpView::RebootFlashUpdate { addr } => packet_says(
                    p,
                    token,
                    10,
                    16,
                    0,
                    4,
                    500,
                    addr as int,
                    0,
                ),
                FlashOpView::RebootApplication => packet_says(p, token, 10, 16, 0, 0, 500, 0, 0),
            }
        }),
{
    match op {
        FlashOpView::ExitXip => {
            law_packet_layout(token, PC_EXIT_XIP, 0, 0, 0, 0, 0, 0);
        },
        FlashOpView::Read { addr, len } => {
            law_range_command(token, PC_READ, addr, len, len);
        },
        FlashOpView::Erase { addr, len } => {
            law_range_command(token, PC_FLASH_ERASE, addr, len, 0);
        },
        FlashOpView::Write { addr, data } => {
            law_range_command(token, PC_WRITE, addr, data.len() as u32, data.len() as u32);
        },
        FlashOpView::RebootFlashUpdate { addr } => {
            law_reboot_command(token, REBOOT2_FLAG_REBOOT_TYPE_FLASH_UPDATE, addr, 0);
        },
        FlashOpView::RebootApplication => {
            law_reboot_command(token, REBOOT2_FLAG_REBOOT_TYPE_NORMAL, 0, 0);
        },
    }
}

/// Only a write brings data along, and only a reboot needs no acknowledgement.
pub proof fn law_operation_data(addr: u32, len: u32, data: Seq<u8>)
    ensures
        op_data(FlashOpView::Write { addr, data }) == Some(data),
        op_data(FlashOpView::Read { addr, len }) is None,
        op_data(FlashOpView::Erase { addr, len }) is None,
        op_data(FlashOpView::ExitXip) is None,
        op_data(FlashOpView::RebootFlashUpdate { addr }) is None,
        op_data(FlashOpView::RebootApplication) is None,
        op_is_reboot(FlashOpView::RebootFlashUpdate { addr }),
        op_is_reboot(FlashOpView::RebootApplication),
        !op_is_reboot(FlashOpView::Write { addr, data }),
        !op_is_reboot(FlashOpView::Read { addr, len }),
        !op_is_reboot(FlashOpView::Erase { addr, len }),
        !op_is_reboot(FlashOpView::ExitXip),
{
}

/// Rounding down gives the largest multiple of a sector's or a page's size that is not
/// above the value.
pub proof fn law_rounded_down(value: u32)
    ensures
        aligned_down(value, 4096) % 4096 == 0,
        aligned_down(value, 4096) <= value < aligned_down(value, 4096) + 4096,
        aligned_down(value, 256) % 256 == 0,
        aligned_down(value, 256) <= value < aligned_down(value, 256) + 256,
{
    assert(value & !4095u32 == value - value % 4096) by (bit_vector);
    assert(value & !255u32 == value - value % 256) by (bit_vector);
}

/// Rounding up gives the smallest multiple that is not below the value.
pub proof fn law_rounded_up(value: u32)
    requires
        value + 4095 <= u32::MAX,
    ensures
        aligned_down((value + 4095) as u32, 4096) % 4096 == 0,
        value <= aligned_down((value + 4095) as u32, 4096) < value + 4096,
        aligned_down((value + 255) as u32, 256) % 256 == 0,
        value <= aligned_down((value + 255) as u32, 256) < value + 256,
{
    law_rounded_down((value + 4095) as u32);
    law_rounded_down((value + 255) as u32);
}

/// The overlap counts the addresses that lie in both ranges, which are a range themselves.
pub proof fn law_overlap(addr: u32, len: u32, start: u32, end: u32)
    ensures
        spec_overlap_len(addr, len, start, end) >= 0,
        ({
            let from = if addr > start {
                addr
            } else {
                start
            };
            forall|a: int|
                #![trigger in_both(addr, len, start, end, a)]
                in_both(addr, len, start, end, a) <==> from <= a < from + spec_overlap_len(
                    addr,
                    len,
                    start,
                    end,
                )
        }),
{
}

/// Whether an address is one of the `len` from `addr` on and lies between `start` and `end`.
pub open spec fn in_both(addr: u32, len: u32, start: u32, end: u32, a: int) -> bool {
    addr <= a < addr + len && start <= a < end
}

} // verus!
