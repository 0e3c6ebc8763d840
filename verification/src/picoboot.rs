//! The PICOBOOT protocol of the RP2xxx boot ROM: command packets, command status
//! and the order of the transfers that make up one command.

use vstd::prelude::*;

use crate::le::{
    law_word_round_trip, law_words_are_little_endian, le32, read_le, spells, to_le, word_at,
};
use crate::text::{decimal, hex, push_decimal, push_hex};
use crate::poll::{spec_poll_next, poll_next, PollEvent, PollState};
use crate::usb::{
    bootsel_selectors, candidate_selectors, select_unique_device, selection, UsbAltSetting, UsbDevice,
    UsbError, UsbErrorView, DEFAULT_VID,
};

verus! {

/// BOOTSEL/PICOBOOT product ID for RP2xxx boot ROM devices.
pub const PRODUCT_ID_RP_USBBOOT: u16 = 0x000F;

/// First word of every command packet.
pub const PICOBOOT_MAGIC: u32 = 0x431F_D10B;

/// Control request that reads the command status.
pub const PICOBOOT_IF_CMD_STATUS: u8 = 0x42;

pub const PC_FLASH_ERASE: u8 = 0x03;

pub const PC_READ: u8 = 0x84;

pub const PC_WRITE: u8 = 0x05;

pub const PC_EXIT_XIP: u8 = 0x06;

pub const PC_REBOOT2: u8 = 0x0A;

pub const REBOOT2_FLAG_REBOOT_TYPE_NORMAL: u32 = 0x00;

pub const REBOOT2_FLAG_REBOOT_TYPE_BOOTSEL: u32 = 0x02;

pub const REBOOT2_FLAG_REBOOT_TYPE_FLASH_UPDATE: u32 = 0x04;

pub const PICOBOOT_REBOOT2_CMD_SIZE: u8 = 16;

pub const PICOBOOT_RANGE_CMD_SIZE: u8 = 8;

/// Size of a command packet.
pub const COMMAND_PACKET_SIZE: usize = 32;

/// Time limit for a command packet and for its acknowledgement, in milliseconds.
pub const COMMAND_TIMEOUT_MS: u64 = 3000;

/// Time limit for the data of a command, in milliseconds.
pub const DATA_TIMEOUT_MS: u64 = 10000;

/// Time limit for reading the command status, in milliseconds.
pub const STATUS_TIMEOUT_MS: u64 = 1000;

/// Size of the packets on the bulk endpoints.
pub const BULK_PACKET_SIZE: usize = 64;

/// Delay before a reboot that was asked for, in milliseconds.
pub const REBOOT_DELAY_MS: u32 = 500;

/// What the device says of its last command.
#[derive(Debug, Clone, Copy, PartialEq, Eq, Structural)]
pub struct CommandStatus {
    pub token: u32,
    pub status_code: u32,
    pub command_id: u8,
    pub in_progress: bool,
}

// ---------------------------------------------------------------------------
// Errors
// ---------------------------------------------------------------------------

/// What went wrong with a PICOBOOT device or command.
#[derive(Debug, Clone, Copy, PartialEq, Eq, Structural)]
pub enum PicobootError {
    /// A status answer has the wrong length.
    StatusLength { got: usize },
    /// The data of a write command has more bytes than a command can announce.
    WriteTooLarge,
    /// A command announces data for the device but has none.
    MissingOutData,
    /// A command announces another amount of data than it has.
    OutDataLength { expected: usize, got: usize },
    /// The device reports that the command failed.
    CommandFailed { command_id: u8, status_code: u32 },
    /// The bulk OUT endpoint cannot be used.
    NoOutEndpoint,
    /// The bulk IN endpoint cannot be used.
    NoInEndpoint,
    /// The command packet cannot be written.
    PacketWrite,
    /// The command packet cannot be flushed.
    PacketFlush,
    /// The data from the device cannot be read.
    DataRead,
    /// The data for the device cannot be written.
    DataWrite,
    /// The data for the device cannot be flushed.
    DataFlush,
    /// The acknowledgement failed and the device gives no status.
    Acknowledgement,
    /// No interface of the device speaks PICOBOOT.
    InterfaceNotFound,
    /// No device appeared in time.
    TimedOut,
}

/// The name of a status code.
pub open spec fn spec_status_name(code: u32) -> Seq<char> {
    if code == 0 {
        "OK"@
    } else if code == 1 {
        "UNKNOWN_CMD"@
    } else if code == 2 {
        "INVALID_CMD_LENGTH"@
    } else if code == 3 {
        "INVALID_TRANSFER_LENGTH"@
    } else if code == 4 {
        "INVALID_ADDRESS"@
    } else if code == 5 {
        "BAD_ALIGNMENT"@
    } else if code == 6 {
        "INTERLEAVED_WRITE"@
    } else if code == 7 {
        "REBOOTING"@
    } else if code == 8 {
        "UNKNOWN_ERROR"@
    } else if code == 9 {
        "INVALID_STATE"@
    } else if code == 10 {
        "NOT_PERMITTED"@
    } else if code == 11 {
        "INVALID_ARG"@
    } else if code == 12 {
        "BUFFER_TOO_SMALL"@
    } else if code == 13 {
        "PRECONDITION_NOT_MET"@
    } else if code == 14 {
        "MODIFIED_DATA"@
    } else if code == 15 {
        "INVALID_DATA"@
    } else if code == 16 {
        "NOT_FOUND"@
    } else if code == 17 {
        "UNSUPPORTED_MODIFICATION"@
    } else {
        "UNKNOWN_STATUS"@
    }
}

/// The name of a status code.
pub fn status_name(code: u32) -> (r: &'static str)
    ensures
        r@ == spec_status_name(code),
{
    match code {
        0 => "OK",
        1 => "UNKNOWN_CMD",
        2 => "INVALID_CMD_LENGTH",
        3 => "INVALID_TRANSFER_LENGTH",
        4 => "INVALID_ADDRESS",
        5 => "BAD_ALIGNMENT",
        6 => "INTERLEAVED_WRITE",
        7 => "REBOOTING",
        8 => "UNKNOWN_ERROR",
        9 => "INVALID_STATE",
        10 => "NOT_PERMITTED",
        11 => "INVALID_ARG",
        12 => "BUFFER_TOO_SMALL",
        13 => "PRECONDITION_NOT_MET",
        14 => "MODIFIED_DATA",
        15 => "INVALID_DATA",
        16 => "NOT_FOUND",
        17 => "UNSUPPORTED_MODIFICATION",
        _ => "UNKNOWN_STATUS",
    }
}

impl PicobootError {
    /// The error in words.
    pub open spec fn spec_message(self) -> Seq<char> {
        match self {
            PicobootError::StatusLength { got } =>
                "PICOBOOT command status length mismatch: expected 16, got "@ + decimal(got as nat),
            PicobootError::WriteTooLarge => "PICOBOOT write is too large"@,
            PicobootError::MissingOutData => "PICOBOOT command requires OUT data"@,
            PicobootError::OutDataLength { expected, got } =>
                "PICOBOOT OUT data length mismatch: expected "@ + decimal(expected as nat)
                    + ", got "@ + decimal(got as nat),
            PicobootError::CommandFailed { command_id, status_code } => "PICOBOOT command 0x"@
                + hex(command_id as nat, 2) + " failed: status "@ + decimal(status_code as nat)
                + " ("@ + spec_status_name(status_code) + ")"@,
            PicobootError::NoOutEndpoint => "Failed to get PICOBOOT bulk OUT endpoint"@,
            PicobootError::NoInEndpoint => "Failed to get PICOBOOT bulk IN endpoint"@,
            PicobootError::PacketWrite => "Timed out writing PICOBOOT command packet"@,
            PicobootError::PacketFlush => "Timed out flushing PICOBOOT command packet"@,
            PicobootError::DataRead => "Timed out reading PICOBOOT IN data"@,
            PicobootError::DataWrite => "Timed out writing PICOBOOT OUT data"@,
            PicobootError::DataFlush => "Timed out flushing PICOBOOT OUT data"@,
            PicobootError::Acknowledgement => "PICOBOOT command was not acknowledged"@,
            PicobootError::InterfaceNotFound => "PICOBOOT interface not found on device"@,
            PicobootError::TimedOut => "Timed out waiting for PICOBOOT device"@,
        }
    }

    /// The error in words.
    pub fn message(self) -> (r: String)
        ensures
            r@ == self.spec_message(),
    {
        match self {
            PicobootError::StatusLength { got } => {
                let mut r =
                    "PICOBOOT command status length mismatch: expected 16, got ".to_owned();
                push_decimal(&mut r, got as u64);
                r
            },
            PicobootError::WriteTooLarge => "PICOBOOT write is too large".to_owned(),
            PicobootError::MissingOutData => "PICOBOOT command requires OUT data".to_owned(),
            PicobootError::OutDataLength { expected, got } => {
                let mut r = "PICOBOOT OUT data length mismatch: expected ".to_owned();
                push_decimal(&mut r, expected as u64);
                r.append(", got ");
                push_decimal(&mut r, got as u64);
                r
            },
            PicobootError::CommandFailed { command_id, status_code } => {
                let mut r = "PICOBOOT command 0x".to_owned();
                push_hex(&mut r, command_id as u64, 2);
                r.append(" failed: status ");
                push_decimal(&mut r, status_code as u64);
                r.append(" (");
                r.append(status_name(status_code));
                r.append(")");
                r
            },
            PicobootError::NoOutEndpoint => "Failed to get PICOBOOT bulk OUT endpoint".to_owned(),
            PicobootError::NoInEndpoint => "Failed to get PICOBOOT bulk IN endpoint".to_owned(),
            PicobootError::PacketWrite => "Timed out writing PICOBOOT command packet".to_owned(),
            PicobootError::PacketFlush => "Timed out flushing PICOBOOT command packet".to_owned(),
            PicobootError::DataRead => "Timed out reading PICOBOOT IN data".to_owned(),
            PicobootError::DataWrite => "Timed out writing PICOBOOT OUT data".to_owned(),
            PicobootError::DataFlush => "Timed out flushing PICOBOOT OUT data".to_owned(),
            PicobootError::Acknowledgement => "PICOBOOT command was not acknowledged".to_owned(),
            PicobootError::InterfaceNotFound => "PICOBOOT interface not found on device".to_owned(),
            PicobootError::TimedOut => "Timed out waiting for PICOBOOT device".to_owned(),
        }
    }
}

// ---------------------------------------------------------------------------
// Packets
// ---------------------------------------------------------------------------

/// The 32 bytes of a command packet.
pub open spec fn command_packet(
    token: u32,
    command_id: u8,
    command_size: u8,
    transfer_len: u32,
    args: Seq<u8>,
) -> Seq<u8> {
    le32(PICOBOOT_MAGIC) + le32(token) + seq![command_id, command_size, 0u8, 0u8] + le32(
        transfer_len,
    ) + args
}

/// Sixteen argument bytes made of four words.
pub open spec fn word_args(a: u32, b: u32, c: u32, d: u32) -> Seq<u8> {
    le32(a) + le32(b) + le32(c) + le32(d)
}

/// Builds a command packet.
pub fn build_command(
    token: u32,
    command_id: u8,
    command_size: u8,
    transfer_len: u32,
    args: [u8; 16],
) -> (r: [u8; 32])
    ensures
        r@ == command_packet(token, command_id, command_size, transfer_len, args@),
{
    let m = to_le(PICOBOOT_MAGIC);
    let t = to_le(token);
    let n = to_le(transfer_len);
    let r: [u8; 32] = [
        m[0],
        m[1],
        m[2],
        m[3],
        t[0],
        t[1],
        t[2],
        t[3],
        command_id,
        command_size,
        0,
        0,
        n[0],
        n[1],
        n[2],
        n[3],
        args[0],
        args[1],
        args[2],
        args[3],
        args[4],
        args[5],
        args[6],
        args[7],
        args[8],
        args[9],
        args[10],
        args[11],
        args[12],
        args[13],
        args[14],
        args[15],
    ];
    assert(r@ =~= command_packet(token, command_id, command_size, transfer_len, args@));
    r
}

fn args_of(a: u32, b: u32, c: u32, d: u32) -> (r: [u8; 16])
    ensures
        r@ == word_args(a, b, c, d),
{
    let a = to_le(a);
    let b = to_le(b);
    let c = to_le(c);
    let d = to_le(d);
    let r: [u8; 16] = [
        a[0],
        a[1],
        a[2],
        a[3],
        b[0],
        b[1],
        b[2],
        b[3],
        c[0],
        c[1],
        c[2],
        c[3],
        d[0],
        d[1],
        d[2],
        d[3],
    ];
    assert(r@ =~= a@ + b@ + c@ + d@);
    r
}

/// The packet of a command on an address range.
pub open spec fn range_packet(token: u32, command_id: u8, addr: u32, len: u32, transfer_len: u32) -> Seq<
    u8,
> {
    command_packet(
        token,
        command_id,
        PICOBOOT_RANGE_CMD_SIZE,
        transfer_len,
        word_args(addr, len, 0, 0),
    )
}

/// Builds the packet of a command on an address range.
pub fn build_range_command(
    token: u32,
    command_id: u8,
    addr: u32,
    len: u32,
    transfer_len: u32,
) -> (r: [u8; 32])
    ensures
        r@ == range_packet(token, command_id, addr, len, transfer_len),
{
    build_command(
        token,
        command_id,
        PICOBOOT_RANGE_CMD_SIZE,
        transfer_len,
        args_of(addr, len, 0, 0),
    )
}

/// The packet of a reboot command.
pub open spec fn reboot2_packet(
    token: u32,
    flags: u32,
    delay_ms: u32,
    param0: u32,
    param1: u32,
) -> Seq<u8> {
    command_packet(
        token,
        PC_REBOOT2,
        PICOBOOT_REBOOT2_CMD_SIZE,
        0,
        word_args(flags, delay_ms, param0, param1),
    )
}

/// Builds the packet of a reboot command.
pub fn build_reboot2_command(
    token: u32,
    flags: u32,
    delay_ms: u32,
    param0: u32,
    param1: u32,
) -> (r: [u8; 32])
    ensures
        r@ == reboot2_packet(token, flags, delay_ms, param0, param1),
{
    build_command(
        token,
        PC_REBOOT2,
        PICOBOOT_REBOOT2_CMD_SIZE,
        0,
        args_of(flags, delay_ms, param0, param1),
    )
}

/// What a status answer says.
pub open spec fn status_of(data: Seq<u8>) -> Result<CommandStatus, PicobootError> {
    if data.len() != 16 {
        Err(PicobootError::StatusLength { got: data.len() as usize })
    } else {
        Ok(
            CommandStatus {
                token: word_at(data, 0),
                status_code: word_at(data, 4),
                command_id: data[8],
                in_progress: data[9] != 0,
            },
        )
    }
}

/// Reads a status answer.
pub fn parse_command_status(data: &[u8]) -> (r: Result<CommandStatus, PicobootError>)
    ensures
        r == status_of(data@),
{
    if data.len() != 16 {
        return Err(PicobootError::StatusLength { got: data.len() });
    }
    Ok(
        CommandStatus {
            token: read_le(data, 0),
            status_code: read_le(data, 4),
            command_id: data[8],
            in_progress: data[9] != 0,
        },
    )
}

// ---------------------------------------------------------------------------
// One command
// ---------------------------------------------------------------------------

/// The transfer that a command waits for.
#[derive(Debug, Clone, Copy, PartialEq, Eq, Structural)]
pub enum CommandState {
    /// Write the packet to the OUT endpoint.
    WritePacket,
    /// Read the announced number of bytes from the IN endpoint.
    ReadData,
    /// Write the command's data to the OUT endpoint.
    WriteData,
    /// End the command with an empty packet on the OUT endpoint.
    SendAck,
    /// Wait for the device's empty packet on the IN endpoint.
    ReceiveAck,
    /// Ask for the command status.
    QueryStatus,
    /// The command is over.
    Finished,
    /// The command failed.
    Failed(PicobootError),
}

/// How the transfer went that a command waited for.
#[derive(Debug)]
pub enum CommandEvent {
    /// It is done.
    Completed,
    /// It is done and brought these bytes.
    Received(Vec<u8>),
    /// Its endpoint cannot be used.
    NoEndpoint,
    /// It failed.
    TransferFailed,
    /// Everything was written, but it cannot be flushed.
    FlushFailed,
}

/// A command on its way.
#[derive(Debug)]
pub struct CommandRun {
    pub packet: [u8; 32],
    pub out_data: Option<Vec<u8>>,
    pub ignore_ack_error: bool,
    pub in_data: Vec<u8>,
    pub state: CommandState,
}

/// The number of data bytes that a packet announces.
pub open spec fn transfer_len(packet: Seq<u8>) -> u32 {
    word_at(packet, 12)
}

/// Whether a command's data goes from the device to the host.
pub open spec fn is_in(packet: Seq<u8>) -> bool {
    packet[8] >= 0x80
}

/// The acknowledgement that ends a command.
pub open spec fn ack_state(packet: Seq<u8>) -> CommandState {
    if is_in(packet) {
        CommandState::SendAck
    } else {
        CommandState::ReceiveAck
    }
}

/// What follows the packet.
pub open spec fn after_packet(packet: Seq<u8>, out_len: Option<nat>) -> CommandState {
    if transfer_len(packet) == 0 {
        ack_state(packet)
    } else if is_in(packet) {
        CommandState::ReadData
    } else {
        match out_len {
            None => CommandState::Failed(PicobootError::MissingOutData),
            Some(n) => if n != transfer_len(packet) {
                CommandState::Failed(
                    PicobootError::OutDataLength {
                        expected: transfer_len(packet) as usize,
                        got: n as usize,
                    },
                )
            } else {
                CommandState::WriteData
            },
        }
    }
}

/// What follows an acknowledgement that failed.
pub open spec fn after_failed_ack(ignore_ack_error: bool) -> CommandState {
    if ignore_ack_error {
        CommandState::Finished
    } else {
        CommandState::QueryStatus
    }
}

/// What follows a status answer.
pub open spec fn after_status(data: Seq<u8>) -> CommandState {
    match status_of(data) {
        Err(_) => CommandState::Failed(PicobootError::Acknowledgement),
        Ok(status) => if status.status_code == 0 {
            CommandState::Finished
        } else {
            CommandState::Failed(
                PicobootError::CommandFailed {
                    command_id: status.command_id,
                    status_code: status.status_code,
                },
            )
        },
    }
}

impl CommandRun {
    /// The length of the data for the device.
    pub open spec fn out_len(self) -> Option<nat> {
        match self.out_data {
            Some(d) => Some(d@.len()),
            None => None,
        }
    }

    /// The state after `event`.  An event that does not answer the pending
    /// transfer changes nothing.
    pub open spec fn next_state(self, event: CommandEvent) -> CommandState {
        match (self.state, event) {
            (CommandState::WritePacket, CommandEvent::Completed) => after_packet(
                self.packet@,
                self.out_len(),
            ),
            (CommandState::WritePacket, CommandEvent::NoEndpoint) => CommandState::Failed(
                PicobootError::NoOutEndpoint,
            ),
            (CommandState::WritePacket, CommandEvent::TransferFailed) => CommandState::Failed(
                PicobootError::PacketWrite,
            ),
            (CommandState::WritePacket, CommandEvent::FlushFailed) => CommandState::Failed(
                PicobootError::PacketFlush,
            ),
            (CommandState::ReadData, CommandEvent::Received(_)) => CommandState::SendAck,
            (CommandState::ReadData, CommandEvent::NoEndpoint) => CommandState::Failed(
                PicobootError::NoInEndpoint,
            ),
            (CommandState::ReadData, CommandEvent::TransferFailed) => CommandState::Failed(
                PicobootError::DataRead,
            ),
            (CommandState::WriteData, CommandEvent::Completed) => CommandState::ReceiveAck,
            (CommandState::WriteData, CommandEvent::NoEndpoint) => CommandState::Failed(
                PicobootError::NoOutEndpoint,
            ),
            (CommandState::WriteData, CommandEvent::TransferFailed) => CommandState::Failed(
                PicobootError::DataWrite,
            ),
            (CommandState::WriteData, CommandEvent::FlushFailed) => CommandState::Failed(
                PicobootError::DataFlush,
            ),
            (CommandState::SendAck, CommandEvent::Completed) => CommandState::Finished,
            (CommandState::SendAck, CommandEvent::NoEndpoint) => CommandState::Failed(
                PicobootError::NoOutEndpoint,
            ),
            (CommandState::SendAck, CommandEvent::TransferFailed) => after_failed_ack(
                self.ignore_ack_error,
            ),
            (CommandState::ReceiveAck, CommandEvent::Completed) => CommandState::Finished,
            (CommandState::ReceiveAck, CommandEvent::NoEndpoint) => CommandState::Failed(
                PicobootError::NoInEndpoint,
            ),
            (CommandState::ReceiveAck, CommandEvent::TransferFailed) => after_failed_ack(
                self.ignore_ack_error,
            ),
            (CommandState::QueryStatus, CommandEvent::Received(data)) => after_status(data@),
            (CommandState::QueryStatus, CommandEvent::TransferFailed) => CommandState::Failed(
                PicobootError::Acknowledgement,
            ),
            (state, _) => state,
        }
    }

    /// The bytes from the device after `event`.
    pub open spec fn next_in_data(self, event: CommandEvent) -> Seq<u8> {
        match (self.state, event) {
            (CommandState::ReadData, CommandEvent::Received(data)) => data@,
            _ => self.in_data@,
        }
    }

    /// A command that starts by writing its packet.
    pub open spec fn is_start(
        self,
        packet: Seq<u8>,
        out_data: Option<Seq<u8>>,
        ignore_ack_error: bool,
    ) -> bool {
        &&& self.packet@ == packet
        &&& (match out_data {
            Some(d) => self.out_data matches Some(v) && v@ == d,
            None => self.out_data is None,
        })
        &&& self.ignore_ack_error == ignore_ack_error
        &&& self.in_data@ == Seq::<u8>::empty()
        &&& self.state is WritePacket
    }

    /// Starts a command.
    pub fn start(
        packet: [u8; 32],
        out_data: Option<Vec<u8>>,
        ignore_ack_error: bool,
    ) -> (r: CommandRun)
        ensures
            r.packet == packet,
            r.out_data == out_data,
            r.ignore_ack_error == ignore_ack_error,
            r.in_data@ == Seq::<u8>::empty(),
            r.state is WritePacket,
    {
        CommandRun {
            packet,
            out_data,
            ignore_ack_error,
            in_data: Vec::new(),
            state: CommandState::WritePacket,
        }
    }

    /// The number of bytes that the packet announces.
    pub fn announced(&self) -> (r: u32)
        ensures
            r == transfer_len(self.packet@),
    {
        read_le(self.packet.as_slice(), 12)
    }

    fn state_after_packet(&self) -> (r: CommandState)
        ensures
            r == after_packet(self.packet@, self.out_len()),
    {
        let len: u32 = self.announced();
        let incoming: bool = self.packet[8] >= 0x80;
        if len == 0 {
            if incoming {
                CommandState::SendAck
            } else {
                CommandState::ReceiveAck
            }
        } else if incoming {
            CommandState::ReadData
        } else {
            match &self.out_data {
                None => CommandState::Failed(PicobootError::MissingOutData),
                Some(data) => if data.len() != len as usize {
                    CommandState::Failed(
                        PicobootError::OutDataLength { expected: len as usize, got: data.len() },
                    )
                } else {
                    CommandState::WriteData
                },
            }
        }
    }

    /// Takes note of how the pending transfer went.
    pub fn advance(&mut self, event: CommandEvent)
        ensures
            final(self).packet == old(self).packet,
            final(self).out_data == old(self).out_data,
            final(self).ignore_ack_error == old(self).ignore_ack_error,
            final(self).state == old(self).next_state(event),
            final(self).in_data@ == old(self).next_in_data(event),
    {
        let failed_ack = if self.ignore_ack_error {
            CommandState::Finished
        } else {
            CommandState::QueryStatus
        };
        let next = match (self.state, event) {
            (CommandState::WritePacket, CommandEvent::Completed) => self.state_after_packet(),
            (CommandState::WritePacket, CommandEvent::NoEndpoint) => CommandState::Failed(
                PicobootError::NoOutEndpoint,
            ),
            (CommandState::WritePacket, CommandEvent::TransferFailed) => CommandState::Failed(
                PicobootError::PacketWrite,
            ),
            (CommandState::WritePacket, CommandEvent::FlushFailed) => CommandState::Failed(
                PicobootError::PacketFlush,
            ),
            (CommandState::ReadData, CommandEvent::Received(data)) => {
                self.in_data = data;
                CommandState::SendAck
            },
            (CommandState::ReadData, CommandEvent::NoEndpoint) => CommandState::Failed(
                PicobootError::NoInEndpoint,
            ),
            (CommandState::ReadData, CommandEvent::TransferFailed) => CommandState::Failed(
                PicobootError::DataRead,
            ),
            (CommandState::WriteData, CommandEvent::Completed) => CommandState::ReceiveAck,
            (CommandState::WriteData, CommandEvent::NoEndpoint) => CommandState::Failed(
                PicobootError::NoOutEndpoint,
            ),
            (CommandState::WriteData, CommandEvent::TransferFailed) => CommandState::Failed(
                PicobootError::DataWrite,
            ),
            (CommandState::WriteData, CommandEvent::FlushFailed) => CommandState::Failed(
                PicobootError::DataFlush,
            ),
            (CommandState::SendAck, CommandEvent::Completed) => CommandState::Finished,
            (CommandState::SendAck, CommandEvent::NoEndpoint) => CommandState::Failed(
                PicobootError::NoOutEndpoint,
            ),
            (CommandState::SendAck, CommandEvent::TransferFailed) => failed_ack,
            (CommandState::ReceiveAck, CommandEvent::Completed) => CommandState::Finished,
            (CommandState::ReceiveAck, CommandEvent::NoEndpoint) => CommandState::Failed(
                PicobootError::NoInEndpoint,
            ),
            (CommandState::ReceiveAck, CommandEvent::TransferFailed) => failed_ack,
            (CommandState::QueryStatus, CommandEvent::Received(data)) => {
                match parse_command_status(data.as_slice()) {
                    Err(_) => CommandState::Failed(PicobootError::Acknowledgement),
                    Ok(status) => if status.status_code == 0 {
                        CommandState::Finished
                    } else {
                        CommandState::Failed(
                            PicobootError::CommandFailed {
                                command_id: status.command_id,
                                status_code: status.status_code,
                            },
                        )
                    },
                }
            },
            (CommandState::QueryStatus, CommandEvent::TransferFailed) => CommandState::Failed(
                PicobootError::Acknowledgement,
            ),
            (state, _) => state,
        };
        self.state = next;
    }
}

// ---------------------------------------------------------------------------
// Opening
// ---------------------------------------------------------------------------

/// Pause between two looks for a device that was reset, in milliseconds.
pub const OPEN_INTERVAL_MS: u64 = 100;

/// What opening a device waits for.
#[derive(Debug, Clone, Copy, PartialEq, Eq, Structural)]
pub enum OpenState {
    /// Look for a device and open it.
    TryFirst,
    /// Reset the device into BOOTSEL mode.
    Reset,
    /// Look for the device until the time is up.
    Waiting(PollState),
    /// The device is open.
    Opened,
    /// Looking, opening or resetting failed.
    Failed,
    /// No device appeared in time.
    TimedOut,
}

/// How a step of opening a device went.
#[derive(Debug, Clone, Copy, PartialEq, Eq, Structural)]
pub enum OpenEvent {
    Opened,
    NoCandidate,
    Failed,
    ResetDone,
    /// How long the wait took so far, or the end of a pause.
    Clock(PollEvent),
}

/// The next step of opening a device that may have to be reset first.
pub open spec fn next_open_state(state: OpenState, event: OpenEvent) -> OpenState {
    match (state, event) {
        (OpenState::TryFirst, OpenEvent::Opened) => OpenState::Opened,
        (OpenState::TryFirst, OpenEvent::NoCandidate) => OpenState::Reset,
        (OpenState::TryFirst, OpenEvent::Failed) => OpenState::Failed,
        (OpenState::Reset, OpenEvent::ResetDone) => OpenState::Waiting(PollState::CheckTime),
        (OpenState::Reset, OpenEvent::Failed) => OpenState::Failed,
        (OpenState::Waiting(PollState::Probe), OpenEvent::Opened) => OpenState::Opened,
        (OpenState::Waiting(PollState::Probe), OpenEvent::NoCandidate) => OpenState::Waiting(
            PollState::Pause,
        ),
        (OpenState::Waiting(PollState::Probe), OpenEvent::Failed) => OpenState::Failed,
        (OpenState::Waiting(poll), OpenEvent::Clock(e)) => match spec_poll_next(poll, e) {
            PollState::TimedOut => OpenState::TimedOut,
            next => OpenState::Waiting(next),
        },
        (state, _) => state,
    }
}

// ---------------------------------------------------------------------------
// A connection
// ---------------------------------------------------------------------------

/// A claimed PICOBOOT interface and the token of its next command.
#[derive(Debug, Clone, Copy, PartialEq, Eq, Structural)]
pub struct PicobootConnection {
    pub interface_number: u8,
    pub out_ep: u8,
    pub in_ep: u8,
    pub next_token: u32,
}

/// The token that follows `token`; zero is left out.
pub open spec fn token_after(token: u32) -> u32 {
    if token == u32::MAX {
        1
    } else {
        (token + 1) as u32
    }
}

/// Whether an endpoint is the bulk endpoint of the given direction.
pub open spec fn is_bulk(alt: UsbAltSetting, k: int, input: bool) -> bool {
    0 <= k < alt.endpoints@.len() && alt.endpoints@[k].bulk && alt.endpoints@[k].input == input
}

/// The address of the first bulk endpoint of the given direction, from index `k` on.
pub open spec fn bulk_address(alt: UsbAltSetting, input: bool, k: int) -> Option<u8>
    decreases alt.endpoints@.len() - k,
{
    if k >= alt.endpoints@.len() {
        None
    } else if is_bulk(alt, k, input) {
        Some(alt.endpoints@[k].address)
    } else {
        bulk_address(alt, input, k + 1)
    }
}

/// Interface number, OUT and IN endpoint of the first vendor interface from index
/// `i` on that has a bulk endpoint each way.
pub open spec fn picoboot_interface(alts: Seq<UsbAltSetting>, i: int) -> Option<(u8, u8, u8)>
    decreases alts.len() - i,
{
    if i >= alts.len() {
        None
    } else {
        let alt = alts[i];
        if alt.class == 0xFF && bulk_address(alt, false, 0) is Some && bulk_address(alt, true, 0)
            is Some {
            Some(
                (
                    alt.interface_number,
                    bulk_address(alt, false, 0)->0,
                    bulk_address(alt, true, 0)->0,
                ),
            )
        } else {
            picoboot_interface(alts, i + 1)
        }
    }
}

fn find_bulk(alt: &UsbAltSetting, input: bool) -> (r: Option<u8>)
    ensures
        r == bulk_address(*alt, input, 0),
{
    let mut k: usize = 0;
    while k < alt.endpoints.len()
        invariant
            k <= alt.endpoints@.len(),
            bulk_address(*alt, input, 0) == bulk_address(*alt, input, k as int),
        decreases alt.endpoints@.len() - k,
    {
        let ep = alt.endpoints[k];
        if ep.bulk && ep.input == input {
            return Some(ep.address);
        }
        k += 1;
    }
    None
}

impl PicobootConnection {
    /// Picks the PICOBOOT interface of a device among its alternate settings.
    pub fn open_device(alts: &Vec<UsbAltSetting>) -> (r: Result<PicobootConnection, PicobootError>)
        ensures
            (match picoboot_interface(alts@, 0) {
                None => r == Err::<PicobootConnection, PicobootError>(
                    PicobootError::InterfaceNotFound,
                ),
                Some((interface_number, out_ep, in_ep)) => r == Ok::<
                    PicobootConnection,
                    PicobootError,
                >(PicobootConnection { interface_number, out_ep, in_ep, next_token: 1 }),
            }),
    {
        let mut i: usize = 0;
        while i < alts.len()
            invariant
                i <= alts@.len(),
                picoboot_interface(alts@, 0) == picoboot_interface(alts@, i as int),
            decreases alts@.len() - i,
        {
            let alt = &alts[i];
            if alt.class == 0xFF {
                match (find_bulk(alt, false), find_bulk(alt, true)) {
                    (Some(out_ep), Some(in_ep)) => {
                        return Ok(
                            PicobootConnection {
                                interface_number: alt.interface_number,
                                out_ep,
                                in_ep,
                                next_token: 1,
                            },
                        );
                    },
                    _ => {},
                }
            }
            i += 1;
        }
        Err(PicobootError::InterfaceNotFound)
    }

    /// Selects the boot ROM device of the given vendor, the default one where none is
    /// given.
    pub fn open(devices: &Vec<UsbDevice>, vid: Option<u16>) -> (r: Result<usize, UsbError>)
        ensures
            (match r {
                Ok(i) => selection(devices@, bootsel_selectors(vid)) == Ok::<
                    Option<usize>,
                    UsbErrorView,
                >(Some(i)),
                Err(e) => match selection(devices@, bootsel_selectors(vid)) {
                    Err(v) => e@ == v,
                    Ok(None) => e@ == (UsbErrorView::NoPicobootDevice {
                        vid: vid.unwrap_or(DEFAULT_VID),
                    }),
                    Ok(Some(_)) => false,
                },
            }),
    {
        let vid: u16 = vid.unwrap_or(DEFAULT_VID);
        let mut selectors: Vec<(u16, Option<u16>)> = Vec::new();
        selectors.push((vid, Some(PRODUCT_ID_RP_USBBOOT)));
        assert(selectors@ =~= bootsel_selectors(Some(vid)));
        match select_unique_device(devices, &selectors) {
            Ok(Some(i)) => Ok(i),
            Ok(None) => Err(UsbError::NoPicobootDevice { vid }),
            Err(e) => Err(e),
        }
    }

    /// Selects the boot ROM device to open: of the given vendor, or of the default and
    /// the fallback vendors where none is given.
    pub fn try_open_candidates(devices: &Vec<UsbDevice>, vid: Option<u16>) -> (r: Result<
        Option<usize>,
        UsbError,
    >)
        ensures
            (match r {
                Ok(o) => selection(devices@, candidate_selectors(vid)) == Ok::<
                    Option<usize>,
                    UsbErrorView,
                >(o),
                Err(e) => selection(devices@, candidate_selectors(vid)) == Err::<
                    Option<usize>,
                    UsbErrorView,
                >(e@),
            }),
    {
        let mut selectors: Vec<(u16, Option<u16>)> = Vec::new();
        selectors.push((vid.unwrap_or(DEFAULT_VID), Some(PRODUCT_ID_RP_USBBOOT)));
        if vid.is_none() {
            let fallback = crate::usb::fallback_vids();
            selectors.push((fallback[0], Some(PRODUCT_ID_RP_USBBOOT)));
            selectors.push((fallback[1], Some(PRODUCT_ID_RP_USBBOOT)));
        }
        assert(selectors@ =~= candidate_selectors(vid));
        select_unique_device(devices, &selectors)
    }

    /// The next step of opening a device that may have to be reset first.
    pub fn open_after_reset(state: OpenState, event: OpenEvent) -> (r: OpenState)
        ensures
            r == next_open_state(state, event),
    {
        match (state, event) {
            (OpenState::TryFirst, OpenEvent::Opened) => OpenState::Opened,
            (OpenState::TryFirst, OpenEvent::NoCandidate) => OpenState::Reset,
            (OpenState::TryFirst, OpenEvent::Failed) => OpenState::Failed,
            (OpenState::Reset, OpenEvent::ResetDone) => OpenState::Waiting(PollState::CheckTime),
            (OpenState::Reset, OpenEvent::Failed) => OpenState::Failed,
            (OpenState::Waiting(PollState::Probe), OpenEvent::Opened) => OpenState::Opened,
            (OpenState::Waiting(PollState::Probe), OpenEvent::NoCandidate) => OpenState::Waiting(
                PollState::Pause,
            ),
            (OpenState::Waiting(PollState::Probe), OpenEvent::Failed) => OpenState::Failed,
            (OpenState::Waiting(poll), OpenEvent::Clock(e)) => {
                match poll_next(poll, e) {
                    PollState::TimedOut => OpenState::TimedOut,
                    next => OpenState::Waiting(next),
                }
            },
            (state, _) => state,
        }
    }

    /// The same connection, one command later.
    pub open spec fn after_command(self) -> PicobootConnection {
        PicobootConnection { next_token: token_after(self.next_token), ..self }
    }

    /// Takes the token for a command.
    pub fn next_token(&mut self) -> (r: u32)
        ensures
            r == old(self).next_token,
            *final(self) == old(self).after_command(),
    {
        let token: u32 = self.next_token;
        let next: u32 = token.wrapping_add(1);
        self.next_token = if next < 1 {
            1
        } else {
            next
        };
        token
    }

    /// Reboots the device into BOOTSEL mode.  The device may be gone before it
    /// acknowledges the command.
    pub fn reboot_bootsel(&mut self) -> (r: CommandRun)
        ensures
            *final(self) == old(self).after_command(),
            r.is_start(
                reboot2_packet(
                    old(self).next_token,
                    REBOOT2_FLAG_REBOOT_TYPE_BOOTSEL,
                    REBOOT_DELAY_MS,
                    0,
                    0,
                ),
                None,
                true,
            ),
    {
        let token: u32 = self.next_token();
        let command = build_reboot2_command(
            token,
            REBOOT2_FLAG_REBOOT_TYPE_BOOTSEL,
            REBOOT_DELAY_MS,
            0,
            0,
        );
        CommandRun::start(command, None, true)
    }

    /// Reboots the device into its application.
    pub fn reboot_application(&mut self) -> (r: CommandRun)
        ensures
            *final(self) == old(self).after_command(),
            r.is_start(
                reboot2_packet(
                    old(self).next_token,
                    REBOOT2_FLAG_REBOOT_TYPE_NORMAL,
                    REBOOT_DELAY_MS,
                    0,
                    0,
                ),
                None,
                true,
            ),
    {
        let token: u32 = self.next_token();
        let command = build_reboot2_command(
            token,
            REBOOT2_FLAG_REBOOT_TYPE_NORMAL,
            REBOOT_DELAY_MS,
            0,
            0,
        );
        CommandRun::start(command, None, true)
    }

    /// Reboots the device after its flash was changed from `updated_addr` on.
    pub fn reboot_flash_update(&mut self, updated_addr: u32) -> (r: CommandRun)
        ensures
            *final(self) == old(self).after_command(),
            r.is_start(
                reboot2_packet(
                    old(self).next_token,
                    REBOOT2_FLAG_REBOOT_TYPE_FLASH_UPDATE,
                    REBOOT_DELAY_MS,
                    updated_addr,
                    0,
                ),
                None,
                true,
            ),
    {
        let token: u32 = self.next_token();
        let command = build_reboot2_command(
            token,
            REBOOT2_FLAG_REBOOT_TYPE_FLASH_UPDATE,
            REBOOT_DELAY_MS,
            updated_addr,
            0,
        );
        CommandRun::start(command, None, true)
    }

    /// Takes the flash out of execute-in-place mode.
    pub fn exit_xip(&mut self) -> (r: CommandRun)
        ensures
            *final(self) == old(self).after_command(),
            r.is_start(
                command_packet(
                    old(self).next_token,
                    PC_EXIT_XIP,
                    0,
                    0,
                    word_args(0, 0, 0, 0),
                ),
                None,
                false,
            ),
    {
        let token: u32 = self.next_token();
        let command = build_command(token, PC_EXIT_XIP, 0, 0, args_of(0, 0, 0, 0));
        CommandRun::start(command, None, false)
    }

    /// Erases `len` bytes of flash from `addr` on.
    pub fn flash_erase(&mut self, addr: u32, len: u32) -> (r: CommandRun)
        ensures
            *final(self) == old(self).after_command(),
            r.is_start(
                range_packet(old(self).next_token, PC_FLASH_ERASE, addr, len, 0),
                None,
                false,
            ),
    {
        let token: u32 = self.next_token();
        let command = build_range_command(token, PC_FLASH_ERASE, addr, len, 0);
        CommandRun::start(command, None, false)
    }

    /// Writes `data` from `addr` on.
    pub fn write(&mut self, addr: u32, data: Vec<u8>) -> (r: Result<CommandRun, PicobootError>)
        ensures
            data@.len() > u32::MAX ==> *final(self) == *old(self) && r == Err::<
                CommandRun,
                PicobootError,
            >(PicobootError::WriteTooLarge),
            data@.len() <= u32::MAX ==> *final(self) == old(self).after_command() && (r matches Ok(
                run,
            ) && run.is_start(
                range_packet(
                    old(self).next_token,
                    PC_WRITE,
                    addr,
                    data@.len() as u32,
                    data@.len() as u32,
                ),
                Some(data@),
                false,
            )),
    {
        let size: usize = data.len();
        if size as u64 > u32::MAX as u64 {
            return Err(PicobootError::WriteTooLarge);
        }
        let len: u32 = size as u32;
        let token: u32 = self.next_token();
        let command = build_range_command(token, PC_WRITE, addr, len, len);
        Ok(CommandRun::start(command, Some(data), false))
    }

    /// Reads `len` bytes from `addr` on.
    pub fn read(&mut self, addr: u32, len: u32) -> (r: CommandRun)
        ensures
            *final(self) == old(self).after_command(),
            r.is_start(range_packet(old(self).next_token, PC_READ, addr, len, len), None, false),
    {
        let token: u32 = self.next_token();
        let command = build_range_command(token, PC_READ, addr, len, len);
        CommandRun::start(command, None, false)
    }

    /// The control request that reads the command status: request, value, index and
    /// length.
    pub fn command_status(&self) -> (r: (u8, u16, u16, u16))
        ensures
            r == (PICOBOOT_IF_CMD_STATUS, 0u16, self.interface_number as u16, 16u16),
    {
        (PICOBOOT_IF_CMD_STATUS, 0, self.interface_number as u16, 16)
    }
}

// ---------------------------------------------------------------------------
// Laws
// ---------------------------------------------------------------------------

/// The fields of a packet are found at their fixed offsets.
pub proof fn law_packet_fields(
    token: u32,
    command_id: u8,
    command_size: u8,
    len: u32,
    args: Seq<u8>,
)
    requires
        args.len() == 16,
    ensures
        ({
            let p = command_packet(token, command_id, command_size, len, args);
            &&& p.len() == 32
            &&& word_at(p, 0) == PICOBOOT_MAGIC
            &&& word_at(p, 4) == token
            &&& p[8] == command_id
            &&& p[9] == command_size
            &&& transfer_len(p) == len
            &&& is_in(p) == (command_id >= 0x80)
            &&& p.subrange(16, 32) == args
        }),
{
    let p = command_packet(token, command_id, command_size, len, args);
    assert(p.subrange(0, 4) =~= le32(PICOBOOT_MAGIC));
    assert(p.subrange(4, 8) =~= le32(token));
    assert(p.subrange(12, 16) =~= le32(len));
    law_word_round_trip(p, 0, PICOBOOT_MAGIC);
    law_word_round_trip(p, 4, token);
    law_word_round_trip(p, 12, len);
    assert(p.subrange(16, 32) =~= args);
}

/// Tokens are never zero, and two successive commands have different ones.
pub proof fn law_tokens(token: u32)
    ensures
        token_after(token) != 0,
        token_after(token) != token,
{
}

/// A command whose transfers all succeed finishes with what its direction asks for:
/// packet, data where some is announced, acknowledgement.
pub proof fn law_smooth_command(run: CommandRun, data: Vec<u8>)
    requires
        run.state is WritePacket,
        !is_in(run.packet@) && transfer_len(run.packet@) != 0 ==> run.out_len() == Some(
            transfer_len(run.packet@) as nat,
        ),
    ensures
        ({
            let s1 = run.next_state(CommandEvent::Completed);
            if transfer_len(run.packet@) == 0 {
                s1 == ack_state(run.packet@)
            } else if is_in(run.packet@) {
                s1 is ReadData
            } else {
                s1 is WriteData
            }
        }),
        (CommandRun { state: CommandState::ReadData, ..run }).next_state(
            CommandEvent::Received(data),
        ) is SendAck,
        (CommandRun { state: CommandState::WriteData, ..run }).next_state(CommandEvent::Completed)
            is ReceiveAck,
        (CommandRun { state: ack_state(run.packet@), ..run }).next_state(CommandEvent::Completed)
            is Finished,
{
}

/// A reboot never fails for want of an acknowledgement.
pub proof fn law_reboot_ignores_ack(run: CommandRun)
    requires
        run.ignore_ack_error,
        run.state is SendAck || run.state is ReceiveAck,
    ensures
        run.next_state(CommandEvent::TransferFailed) is Finished,
{
}

/// A command that is over stays as it is.
pub proof fn law_command_over(run: CommandRun, event: CommandEvent)
    requires
        run.state is Finished || run.state is Failed,
    ensures
        run.next_state(event) == run.state,
        run.next_in_data(event) == run.in_data@,
{
}

/// A packet with four argument words has 32 bytes: the magic word, the token, the command's
/// number and the size of its arguments, two zeros, the length of its data, the arguments.
pub proof fn law_packet_layout(
    token: u32,
    command_id: u8,
    command_size: u8,
    len: u32,
    a: u32,
    b: u32,
    c: u32,
    d: u32,
)
    ensures
        ({
            let p = command_packet(token, command_id, command_size, len, word_args(a, b, c, d));
            &&& p.len() == 32
            &&& spells(p, 0, 0x431F_D10B)
            &&& spells(p, 4, token as int)
            &&& p[8] == command_id
            &&& p[9] == command_size
            &&& p[10] == 0
            &&& p[11] == 0
            &&& spells(p, 12, len as int)
            &&& spells(p, 16, a as int)
            &&& spells(p, 20, b as int)
            &&& spells(p, 24, c as int)
            &&& spells(p, 28, d as int)
        }),
{
    let w = word_args(a, b, c, d);
    let p = command_packet(token, command_id, command_size, len, w);
    assert(w.len() == 16);
    assert(p.len() == 32);
    lemma_word_in(p, 0, PICOBOOT_MAGIC);
    lemma_word_in(p, 4, token);
    lemma_word_in(p, 12, len);
    lemma_word_in(p, 16, a);
    lemma_word_in(p, 20, b);
    lemma_word_in(p, 24, c);
    lemma_word_in(p, 28, d);
}

proof fn lemma_word_in(p: Seq<u8>, at: int, x: u32)
    requires
        0 <= at,
        at + 4 <= p.len(),
        p[at] == le32(x)[0],
        p[at + 1] == le32(x)[1],
        p[at + 2] == le32(x)[2],
        p[at + 3] == le32(x)[3],
    ensures
        spells(p, at, x as int),
{
    law_words_are_little_endian(p, at, x);
}

/// A command on a range has eight bytes of arguments: address and length.
pub proof fn law_range_command(token: u32, command_id: u8, addr: u32, len: u32, data_len: u32)
    ensures
        ({
            let p = range_packet(token, command_id, addr, len, data_len);
            &&& p.len() == 32
            &&& spells(p, 0, 0x431F_D10B)
            &&& spells(p, 4, token as int)
            &&& p[8] == command_id
            &&& p[9] == 8
            &&& p[10] == 0 && p[11] == 0
            &&& spells(p, 12, data_len as int)
            &&& spells(p, 16, addr as int)
            &&& spells(p, 20, len as int)
            &&& spells(p, 24, 0)
            &&& spells(p, 28, 0)
        }),
{
    law_packet_layout(token, command_id, 8, data_len, addr, len, 0, 0);
}

/// A reboot is command 10, with sixteen bytes of arguments and no data: the kind of reboot
/// (0 for the application, 2 for BOOTSEL mode, 4 after an update of flash), half a second
/// of delay, and two parameters.
pub proof fn law_reboot_command(token: u32, flags: u32, param0: u32, param1: u32)
    ensures
        ({
            let p = reboot2_packet(token, flags, REBOOT_DELAY_MS, param0, param1);
            &&& p.len() == 32
            &&& spells(p, 0, 0x431F_D10B)
            &&& spells(p, 4, token as int)
            &&& p[8] == 0x0A
            &&& p[9] == 16
            &&& p[10] == 0 && p[11] == 0
            &&& spells(p, 12, 0)
            &&& spells(p, 16, flags as int)
            &&& spells(p, 20, 500)
            &&& spells(p, 24, param0 as int)
            &&& spells(p, 28, param1 as int)
        }),
        REBOOT2_FLAG_REBOOT_TYPE_NORMAL == 0,
        REBOOT2_FLAG_REBOOT_TYPE_BOOTSEL == 2,
        REBOOT2_FLAG_REBOOT_TYPE_FLASH_UPDATE == 4,
{
    law_packet_layout(token, 0x0A, 16, 0, flags, 500, param0, param1);
}

/// A status answer has 16 bytes: the token, the status, the command's number and whether it
/// is still under way.
pub proof fn law_status_answer(data: Seq<u8>)
    requires
        data.len() <= usize::MAX,
    ensures
        (match status_of(data) {
            Ok(s) => data.len() == 16 && spells(data, 0, s.token as int) && spells(
                data,
                4,
                s.status_code as int,
            ) && s.command_id == data[8] && (s.in_progress <==> data[9] != 0),
            Err(e) => data.len() != 16 && e == (PicobootError::StatusLength {
                got: data.len() as usize,
            }),
        }),
{
    law_words_are_little_endian(data, 0, 0);
    law_words_are_little_endian(data, 4, 0);
}

/// The names of the status codes.
pub proof fn law_status_names(code: u32)
    ensures
        spec_status_name(0) == "OK"@,
        spec_status_name(1) == "UNKNOWN_CMD"@,
        spec_status_name(2) == "INVALID_CMD_LENGTH"@,
        spec_status_name(3) == "INVALID_TRANSFER_LENGTH"@,
        spec_status_name(4) == "INVALID_ADDRESS"@,
        spec_status_name(5) == "BAD_ALIGNMENT"@,
        spec_status_name(6) == "INTERLEAVED_WRITE"@,
        spec_status_name(7) == "REBOOTING"@,
        spec_status_name(8) == "UNKNOWN_ERROR"@,
        spec_status_name(9) == "INVALID_STATE"@,
        spec_status_name(10) == "NOT_PERMITTED"@,
        spec_status_name(11) == "INVALID_ARG"@,
        spec_status_name(12) == "BUFFER_TOO_SMALL"@,
        spec_status_name(13) == "PRECONDITION_NOT_MET"@,
        spec_status_name(14) == "MODIFIED_DATA"@,
        spec_status_name(15) == "INVALID_DATA"@,
        spec_status_name(16) == "NOT_FOUND"@,
        spec_status_name(17) == "UNSUPPORTED_MODIFICATION"@,
        code > 17 ==> spec_status_name(code) == "UNKNOWN_STATUS"@,
{
}

/// Once its packet is written, a command without data is acknowledged: by the host where
/// the command's number has its highest bit set, by the device otherwise.  One with data
/// reads it in the first case.  In the second it writes it, and fails where there is none
/// or another amount.
pub proof fn law_after_packet(run: CommandRun, len: u32)
    requires
        run.state is WritePacket,
        spells(run.packet@, 12, len as int),
    ensures
        ({
            let next = run.next_state(CommandEvent::Completed);
            let id = run.packet@[8];
            &&& len == 0 && id >= 128 ==> next is SendAck
            &&& len == 0 && id < 128 ==> next is ReceiveAck
            &&& len > 0 && id >= 128 ==> next is ReadData
            &&& len > 0 && id < 128 ==> (match run.out_data {
                None => next == CommandState::Failed(PicobootError::MissingOutData),
                Some(d) => if d@.len() == len {
                    next is WriteData
                } else {
                    next == CommandState::Failed(
                        PicobootError::OutDataLength {
                            expected: len as usize,
                            got: d@.len() as usize,
                        },
                    )
                },
            })
        }),
{
    law_words_are_little_endian(run.packet@, 12, 0);
}

/// Data that was read is kept, and then acknowledged by the host; data that was written is
/// acknowledged by the device; an acknowledgement ends the command.
pub proof fn law_data_then_acknowledgement(run: CommandRun, data: Vec<u8>)
    ensures
        run.state is ReadData ==> run.next_state(CommandEvent::Received(data)) is SendAck
            && run.next_in_data(CommandEvent::Received(data)) == data@,
        run.state is WriteData ==> run.next_state(CommandEvent::Completed) is ReceiveAck,
        run.state is SendAck || run.state is ReceiveAck ==> run.next_state(CommandEvent::Completed)
            is Finished,
        !(run.state is ReadData) ==> run.next_in_data(CommandEvent::Received(data))
            == run.in_data@,
        run.next_in_data(CommandEvent::Completed) == run.in_data@,
        run.next_in_data(CommandEvent::TransferFailed) == run.in_data@,
{
}

/// A transfer that fails fails the command, with an error that names it.
pub proof fn law_failed_transfers(run: CommandRun)
    ensures
        run.state is WritePacket ==> {
            &&& run.next_state(CommandEvent::NoEndpoint) == CommandState::Failed(
                PicobootError::NoOutEndpoint,
            )
            &&& run.next_state(CommandEvent::TransferFailed) == CommandState::Failed(
                PicobootError::PacketWrite,
            )
            &&& run.next_state(CommandEvent::FlushFailed) == CommandState::Failed(
                PicobootError::PacketFlush,
            )
        },
        run.state is ReadData ==> {
            &&& run.next_state(CommandEvent::NoEndpoint) == CommandState::Failed(
                PicobootError::NoInEndpoint,
            )
            &&& run.next_state(CommandEvent::TransferFailed) == CommandState::Failed(
                PicobootError::DataRead,
            )
        },
        run.state is WriteData ==> {
            &&& run.next_state(CommandEvent::NoEndpoint) == CommandState::Failed(
                PicobootError::NoOutEndpoint,
            )
            &&& run.next_state(CommandEvent::TransferFailed) == CommandState::Failed(
                PicobootError::DataWrite,
            )
            &&& run.next_state(CommandEvent::FlushFailed) == CommandState::Failed(
                PicobootError::DataFlush,
            )
        },
        run.state is SendAck ==> run.next_state(CommandEvent::NoEndpoint) == CommandState::Failed(
            PicobootError::NoOutEndpoint,
        ),
        run.state is ReceiveAck ==> run.next_state(CommandEvent::NoEndpoint)
            == CommandState::Failed(PicobootError::NoInEndpoint),
{
}

/// An acknowledgement that fails does not matter where it need not come.  Otherwise the
/// status decides: zero is success, another one is the command's error, and without a
/// status of 16 bytes the command was not acknowledged.
pub proof fn law_failed_acknowledgement(run: CommandRun, status: Vec<u8>, code: u32)
    requires
        status@.len() == 16 ==> spells(status@, 4, code as int),
    ensures
        run.state is SendAck || run.state is ReceiveAck ==> {
            let next = run.next_state(CommandEvent::TransferFailed);
            &&& run.ignore_ack_error ==> next is Finished
            &&& !run.ignore_ack_error ==> next is QueryStatus
        },
        run.state is QueryStatus ==> {
            let next = run.next_state(CommandEvent::Received(status));
            &&& status@.len() == 16 && code == 0 ==> next is Finished
            &&& status@.len() == 16 && code != 0 ==> next == CommandState::Failed(
                PicobootError::CommandFailed { command_id: status@[8], status_code: code },
            )
            &&& status@.len() != 16 ==> next == CommandState::Failed(PicobootError::Acknowledgement)
        },
        run.state is QueryStatus ==> run.next_state(CommandEvent::TransferFailed)
            == CommandState::Failed(PicobootError::Acknowledgement),
{
    law_words_are_little_endian(status@, 4, 0);
}

/// What does not answer the transfer that a command waits for changes nothing.
pub proof fn law_unasked_answers(run: CommandRun, data: Vec<u8>)
    ensures
        !(run.state is ReadData || run.state is QueryStatus) ==> run.next_state(
            CommandEvent::Received(data),
        ) == run.state,
        run.state is ReadData || run.state is QueryStatus ==> run.next_state(
            CommandEvent::Completed,
        ) == run.state,
        !(run.state is WritePacket || run.state is WriteData) ==> run.next_state(
            CommandEvent::FlushFailed,
        ) == run.state,
        run.state is QueryStatus ==> run.next_state(CommandEvent::NoEndpoint) == run.state,
{
}

/// Tokens count up by one and start again with one.
pub proof fn law_tokens_count(token: u32)
    ensures
        token < 0xFFFF_FFFF ==> token_after(token) == token + 1,
        token == 0xFFFF_FFFF ==> token_after(token) == 1,
{
}

/// Whether an alternate setting is a vendor interface with a bulk endpoint each way.
pub open spec fn speaks_picoboot(alt: UsbAltSetting) -> bool {
    &&& alt.class == 0xFF
    &&& exists|k: int|
        0 <= k < alt.endpoints@.len() && (#[trigger] alt.endpoints@[k]).bulk
            && !alt.endpoints@[k].input
    &&& exists|k: int|
        0 <= k < alt.endpoints@.len() && (#[trigger] alt.endpoints@[k]).bulk
            && alt.endpoints@[k].input
}

/// Whether `address` is that of the first bulk endpoint of the given direction.
pub open spec fn first_bulk(alt: UsbAltSetting, input: bool, address: u8) -> bool {
    exists|k: int|
        0 <= k < alt.endpoints@.len() && (#[trigger] alt.endpoints@[k]).bulk
            && alt.endpoints@[k].input == input && alt.endpoints@[k].address == address && forall|
            m: int,
        |
            0 <= m < k ==> !((#[trigger] alt.endpoints@[m]).bulk && alt.endpoints@[m].input
                == input)
}

proof fn lemma_bulk_address(alt: UsbAltSetting, input: bool, k: int)
    requires
        0 <= k <= alt.endpoints@.len(),
        forall|m: int|
            0 <= m < k ==> !((#[trigger] alt.endpoints@[m]).bulk && alt.endpoints@[m].input
                == input),
    ensures
        (match bulk_address(alt, input, k) {
            Some(a) => first_bulk(alt, input, a),
            None => forall|m: int|
                0 <= m < alt.endpoints@.len() ==> !((#[trigger] alt.endpoints@[m]).bulk
                    && alt.endpoints@[m].input == input),
        }),
    decreases alt.endpoints@.len() - k,
{
    if k < alt.endpoints@.len() {
        if is_bulk(alt, k, input) {
            assert(alt.endpoints@[k].bulk && alt.endpoints@[k].input == input);
        } else {
            lemma_bulk_address(alt, input, k + 1);
        }
    }
}

/// The interface that is taken is the first vendor interface with a bulk endpoint each way,
/// with the first endpoint of either direction; it is found where there is one.
pub proof fn law_picoboot_interface(alts: Seq<UsbAltSetting>)
    ensures
        (match picoboot_interface(alts, 0) {
            Some((number, out_ep, in_ep)) => exists|i: int|
                0 <= i < alts.len() && speaks_picoboot(#[trigger] alts[i])
                    && alts[i].interface_number == number && first_bulk(alts[i], false, out_ep)
                    && first_bulk(alts[i], true, in_ep) && forall|m: int|
                    0 <= m < i ==> !speaks_picoboot(#[trigger] alts[m]),
            None => forall|m: int| 0 <= m < alts.len() ==> !speaks_picoboot(#[trigger] alts[m]),
        }),
{
    lemma_picoboot_interface(alts, 0);
}

proof fn lemma_picoboot_interface(alts: Seq<UsbAltSetting>, i: int)
    requires
        0 <= i <= alts.len(),
        forall|m: int| 0 <= m < i ==> !speaks_picoboot(#[trigger] alts[m]),
    ensures
        (match picoboot_interface(alts, i) {
            Some((number, out_ep, in_ep)) => exists|i: int|
                0 <= i < alts.len() && speaks_picoboot(#[trigger] alts[i])
                    && alts[i].interface_number == number && first_bulk(alts[i], false, out_ep)
                    && first_bulk(alts[i], true, in_ep) && forall|m: int|
                    0 <= m < i ==> !speaks_picoboot(#[trigger] alts[m]),
            None => forall|m: int| 0 <= m < alts.len() ==> !speaks_picoboot(#[trigger] alts[m]),
        }),
    decreases alts.len() - i,
{
    if i < alts.len() {
        let alt = alts[i];
        lemma_bulk_address(alt, false, 0);
        lemma_bulk_address(alt, true, 0);
        if alt.class == 0xFF && bulk_address(alt, false, 0) is Some && bulk_address(alt, true, 0)
            is Some {
            assert(speaks_picoboot(alts[i]));
        } else {
            assert(!speaks_picoboot(alts[i]));
            lemma_picoboot_interface(alts, i + 1);
        }
    }
}

/// A device that is there is opened.  One that is not is reset, and then looked for until
/// it is there or the time is up; what fails on the way ends it.
pub proof fn law_opening(elapsed_ms: u64, timeout_ms: u64)
    ensures
        next_open_state(OpenState::TryFirst, OpenEvent::Opened) is Opened,
        next_open_state(OpenState::TryFirst, OpenEvent::NoCandidate) is Reset,
        next_open_state(OpenState::TryFirst, OpenEvent::Failed) is Failed,
        next_open_state(OpenState::Reset, OpenEvent::ResetDone) == OpenState::Waiting(
            PollState::CheckTime,
        ),
        next_open_state(OpenState::Reset, OpenEvent::Failed) is Failed,
        next_open_state(
            OpenState::Waiting(PollState::CheckTime),
            OpenEvent::Clock(PollEvent::Elapsed { elapsed_ms, timeout_ms }),
        ) == (if elapsed_ms < timeout_ms {
            OpenState::Waiting(PollState::Probe)
        } else {
            OpenState::TimedOut
        }),
        next_open_state(OpenState::Waiting(PollState::Probe), OpenEvent::Opened) is Opened,
        next_open_state(OpenState::Waiting(PollState::Probe), OpenEvent::Failed) is Failed,
        next_open_state(OpenState::Waiting(PollState::Probe), OpenEvent::NoCandidate)
            == OpenState::Waiting(PollState::Pause),
        next_open_state(
            OpenState::Waiting(PollState::Pause),
            OpenEvent::Clock(PollEvent::Rested),
        ) == OpenState::Waiting(PollState::CheckTime),
{
}

/// Opening that is over stays over.
pub proof fn law_opening_over(state: OpenState, event: OpenEvent)
    requires
        state is Opened || state is Failed || state is TimedOut,
    ensures
        next_open_state(state, event) == state,
{
}

} // verus!
