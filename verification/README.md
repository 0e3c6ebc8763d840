# probe-rp-usb

A USB-only flash and debug utility for RP2040 and RP2350 devices, written as a verified
library with a thin command-line tool around it.

## Layout

- `src/` is the library.  Its functions carry contracts that Verus proves: the UF2
  format, ELF conversion, the PICOBOOT command protocol, device selection, the sessions
  that write, erase and read flash memory, the steps on a BOOTSEL drive, the choice of a
  serial port and the command line.
- `tests/` runs the library on concrete values.
- `app/` is the tool: USB and serial transfers, files, progress bars and arguments.  It
  performs the actions that the library's sessions ask for and hands back what came of
  them.

## Sessions

Whatever needs a device, a drive or a clock is a state machine in the library.  A session
names the operation that comes next, the tool performs it, and `advance` takes the reply:

```rust
let mut session = probe_rp_usb::write::read_flash(0x1000_0000, 0x1000);
while let Some(op) = session.next_op() {
    let reply = connection.perform(op);
    session.advance(reply);
}
```

What the sessions add up to on a working device is proved with them: `law_regions_written`
for writing, `law_range_erased` for erasing, `law_range_read` for reading,
`law_elf_flashing_ends` for flashing an ELF file.

## Trusted parts

The `elf` crate opens ELF files and the `defmt-decoder` crate reads defmt tables.  The
functions that call them, and the few functions of the standard library that have no
contract of their own, say in their doc comments what is taken for granted.
