//! The drive that a device in BOOTSEL mode shows.

use vstd::prelude::*;

use crate::pick::{first_from, law_first_from};

verus! {

/// Pause between two looks for the drive, in milliseconds.
pub const DRIVE_INTERVAL_MS: u64 = 250;

/// How long a device may take to leave BOOTSEL mode after it was written, in
/// milliseconds.
pub const UNMOUNT_TIMEOUT_MS: u64 = 15000;

/// A mounted volume, and whether it holds the file `INFO_UF2.TXT`.
#[derive(Debug)]
pub struct Mount {
    pub path: String,
    pub has_info_file: bool,
}

/// The file that marks the drive of a device in BOOTSEL mode.
pub fn info_file_name() -> (r: &'static str)
    ensures
        r@ == "INFO_UF2.TXT"@,
{
    "INFO_UF2.TXT"
}

/// The file that is written to the drive.
pub fn output_file_name() -> (r: &'static str)
    ensures
        r@ == "out.uf2"@,
{
    "out.uf2"
}

/// Find a BOOTSEL USB storage drive by looking for the INFO_UF2.TXT sentinel file.
pub fn find_bootsel_drive(mounts: &Vec<Mount>) -> (r: Option<usize>)
    ensures
        r == first_from(|i: int| mounts@[i].has_info_file, 0, mounts@.len() as int),
{
    let ghost wanted = |i: int| mounts@[i].has_info_file;
    let mut i: usize = 0;
    while i < mounts.len()
        invariant
            i <= mounts@.len(),
            wanted == (|i: int| mounts@[i].has_info_file),
            first_from(wanted, 0, mounts@.len() as int) == first_from(
                wanted,
                i as int,
                mounts@.len() as int,
            ),
        decreases mounts@.len() - i,
    {
        assert(wanted(i as int) == mounts@[i as int].has_info_file);
        if mounts[i].has_info_file {
            return Some(i);
        }
        i += 1;
    }
    None
}

/// The drive that is found is the first mounted volume with the file that marks it.
pub proof fn law_first_marked_drive(mounts: Seq<Mount>, i: usize)
    requires
        mounts.len() <= usize::MAX,
        i < mounts.len(),
        mounts[i as int].has_info_file,
        forall|k: int| 0 <= k < i ==> !(#[trigger] mounts[k]).has_info_file,
    ensures
        first_from(|k: int| mounts[k].has_info_file, 0, mounts.len() as int) == Some(i),
{
    let marked = |k: int| mounts[k].has_info_file;
    law_first_from(marked, 0, mounts.len() as int);
    assert(marked(i as int));
    match first_from(marked, 0, mounts.len() as int) {
        Some(k) => {
            assert(marked(k as int));
            if k < i {
                assert(!mounts[k as int].has_info_file);
            }
        },
        None => {},
    }
}

} // verus!
