//! Flashing and debugging RP2040 and RP2350 devices over USB.
//!
//! The library holds the formats, rules and protocols: UF2 files, ELF images, the
//! PICOBOOT protocol, the choice of devices and serial ports, and the order of the
//! steps of each operation.  Files, USB transfers, serial ports and the terminal are
//! left to the program around it.

pub mod attach;
pub mod bootsel;
pub mod cli;
pub mod driver;
pub mod elf2uf2;
pub mod elf_laws;
pub mod event;
pub mod flash;
pub mod flash_ops;
pub mod le;
pub mod memory;
pub mod message_laws;
pub mod pages;
pub mod pick;
pub mod picoboot;
pub mod poll;
pub mod progress;
pub mod region;
pub mod text;
pub mod uf2;
pub mod uf2_laws;
pub mod usb;
pub mod write;
pub mod write_laws;

/// Re-export the UF2 family enum used by the flash and write APIs.
pub use uf2::Family;
