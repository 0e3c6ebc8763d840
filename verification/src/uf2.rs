//! The UF2 container: 512-byte blocks that each carry one 256-byte page and its address.

use vstd::prelude::*;

use crate::le::{
    byte_of, law_word_round_trip, le32, push_bytes, push_fill, push_le, read_le, to_le, word_at,
    write_at,
};
use crate::memory::{lemma_overlay_joins, overlay_all, region_views, Memory, Region};
use crate::text::{decimal, hex, push_decimal, push_hex};

verus! {

/// First word of every block.
pub const UF2_MAGIC_START0: u32 = 0x0A32_4655;

/// Second word of every block.
pub const UF2_MAGIC_START1: u32 = 0x9E5D_5157;

/// Last word of every block.
pub const UF2_MAGIC_END: u32 = 0x0AB1_6F30;

/// Flag word: the block names a device family.
pub const UF2_FLAG_FAMILY_ID_PRESENT: u32 = 0x0000_2000;

/// Number of data bytes carried per block.
pub const UF2_PAYLOAD_SIZE: u32 = 256;

/// Size of a block's data field (payload and zero padding).
pub const UF2_DATA_FIELD_SIZE: usize = 476;

/// Size of a whole block.
pub const UF2_BLOCK_SIZE: usize = 512;

/// The device families that a UF2 block can name.
#[allow(non_camel_case_types)]
#[derive(Debug, Clone, Copy, PartialEq, Eq, Structural)]
pub enum Family {
    RP2040,
    RP2XXX_ABSOLUTE,
    RP2XXX_DATA,
    RP2350_ARM_S,
    RP2350_RISCV,
    RP2350_ARM_NS,
}

impl Family {
    /// The number that stands for the family in a block.
    pub open spec fn spec_id(self) -> u32 {
        match self {
            Family::RP2040 => 0xE48B_FF56,
            Family::RP2XXX_ABSOLUTE => 0xE48B_FF57,
            Family::RP2XXX_DATA => 0xE48B_FF58,
            Family::RP2350_ARM_S => 0xE48B_FF59,
            Family::RP2350_RISCV => 0xE48B_FF5A,
            Family::RP2350_ARM_NS => 0xE48B_FF5B,
        }
    }

    /// The number that stands for the family in a block.
    pub fn id(self) -> (r: u32)
        ensures
            r == self.spec_id(),
    {
        match self {
            Family::RP2040 => 0xE48B_FF56,
            Family::RP2XXX_ABSOLUTE => 0xE48B_FF57,
            Family::RP2XXX_DATA => 0xE48B_FF58,
            Family::RP2350_ARM_S => 0xE48B_FF59,
            Family::RP2350_RISCV => 0xE48B_FF5A,
            Family::RP2350_ARM_NS => 0xE48B_FF5B,
        }
    }
}

// ---------------------------------------------------------------------------
// One block
// ---------------------------------------------------------------------------

/// The data field of a block: at most 256 bytes of `payload`, then zeros.
pub open spec fn data_field(payload: Seq<u8>) -> Seq<u8> {
    Seq::new(
        476,
        |i: int|
            if i < payload.len() && i < 256 {
                payload[i]
            } else {
                0u8
            },
    )
}

/// The eight header words of a block.
pub open spec fn block_header(target_addr: u32, block_no: u32, num_blocks: u32, family_id: u32) -> Seq<
    u8,
> {
    le32(UF2_MAGIC_START0) + le32(UF2_MAGIC_START1) + le32(UF2_FLAG_FAMILY_ID_PRESENT) + le32(
        target_addr,
    ) + le32(UF2_PAYLOAD_SIZE) + le32(block_no) + le32(num_blocks) + le32(family_id)
}

/// The 512 bytes of one block.
#[verifier::opaque]
pub open spec fn block(
    target_addr: u32,
    payload: Seq<u8>,
    block_no: u32,
    num_blocks: u32,
    family_id: u32,
) -> Seq<u8> {
    block_header(target_addr, block_no, num_blocks, family_id) + data_field(payload) + le32(
        UF2_MAGIC_END,
    )
}

/// Appends one block to `output`.
pub fn write_block(
    output: &mut Vec<u8>,
    target_addr: u32,
    payload: &[u8],
    block_no: u32,
    num_blocks: u32,
    family_id: u32,
)
    ensures
        final(output)@ == old(output)@ + block(
            target_addr,
            payload@,
            block_no,
            num_blocks,
            family_id,
        ),
{
    push_le(output, UF2_MAGIC_START0);
    push_le(output, UF2_MAGIC_START1);
    push_le(output, UF2_FLAG_FAMILY_ID_PRESENT);
    push_le(output, target_addr);
    push_le(output, UF2_PAYLOAD_SIZE);
    push_le(output, block_no);
    push_le(output, num_blocks);
    push_le(output, family_id);
    assert(output@ =~= old(output)@ + block_header(target_addr, block_no, num_blocks, family_id));

    let copy_len: usize = if payload.len() < 256 {
        payload.len()
    } else {
        256
    };
    let ghost head = output@;
    push_bytes(output, payload, 0, copy_len);
    push_fill(output, 0, UF2_DATA_FIELD_SIZE - copy_len);
    assert(output@ =~= head + data_field(payload@));
    push_le(output, UF2_MAGIC_END);
    reveal(block);
    assert(output@ =~= old(output)@ + block(
        target_addr,
        payload@,
        block_no,
        num_blocks,
        family_id,
    ));
}

// ---------------------------------------------------------------------------
// Raw binary to UF2
// ---------------------------------------------------------------------------

/// How many 256-byte pages `len` bytes fill, the last one perhaps in part.
pub open spec fn page_count(len: nat) -> nat {
    (len + 255) / 256
}

/// The part of `data` that goes into page `i`.
pub open spec fn page(data: Seq<u8>, i: int) -> Seq<u8> {
    data.subrange(
        256 * i,
        if 256 * i + 256 < data.len() {
            256 * i + 256
        } else {
            data.len() as int
        },
    )
}

/// The first `k` blocks for `data` at `base_addr`, each saying that there are `num_blocks`.
pub open spec fn page_blocks(
    data: Seq<u8>,
    base_addr: u32,
    num_blocks: u32,
    family_id: u32,
    k: nat,
) -> Seq<u8>
    decreases k,
{
    if k == 0 {
        Seq::empty()
    } else {
        page_blocks(data, base_addr, num_blocks, family_id, (k - 1) as nat) + block(
            (base_addr + 256 * (k - 1)) as u32,
            page(data, k - 1),
            (k - 1) as u32,
            num_blocks,
            family_id,
        )
    }
}

/// The block count that is written for `len` bytes: that of the length's low 32 bits.
pub open spec fn stated_count(len: nat) -> u32 {
    (((len as u32) + 255) / 256) as u32
}

/// The UF2 form of `data` placed at `base_addr`.
pub open spec fn uf2_image(data: Seq<u8>, base_addr: u32, family_id: u32) -> Seq<u8> {
    page_blocks(data, base_addr, stated_count(data.len()), family_id, page_count(data.len()))
}

/// Whether every page of `len` bytes at `base_addr` has a 32-bit address.
pub open spec fn pages_addressable(len: nat, base_addr: u32) -> bool {
    page_count(len) > 0 ==> base_addr + 256 * (page_count(len) - 1) <= u32::MAX
}

/// Whether every page of `len` bytes at `base_addr` has a 32-bit address.
pub fn pages_fit(len: usize, base_addr: u32) -> (r: bool)
    ensures
        r == pages_addressable(len as nat, base_addr),
{
    if len == 0 {
        return true;
    }
    let last: usize = (len - 1) / 256;
    assert(last == page_count(len as nat) - 1);
    last as u64 <= ((u32::MAX - base_addr) / 256) as u64
}

/// Convert a raw binary blob to UF2 format and append it to `output`.
///
/// The binary is split into 256-byte pages starting at `base_addr`.  Each page
/// is written as a 512-byte UF2 block.  `family_id` should be the numeric
/// value of the target device's UF2 family.
pub fn bin2uf2(input: &[u8], output: &mut Vec<u8>, base_addr: u32, family_id: u32)
    requires
        pages_addressable(input@.len(), base_addr),
    ensures
        final(output)@ == old(output)@ + uf2_image(input@, base_addr, family_id),
{
    let len: usize = input.len();
    let low: u32 = len as u32;
    let num_blocks: u32 = if low % 256 == 0 {
        low / 256
    } else {
        low / 256 + 1
    };
    assert(num_blocks == stated_count(input@.len()));
    let pages: usize = if len % 256 == 0 {
        len / 256
    } else {
        len / 256 + 1
    };
    assert(pages == page_count(input@.len()));

    let mut i: usize = 0;
    assert(output@ =~= old(output)@ + page_blocks(input@, base_addr, num_blocks, family_id, 0));
    while i < pages
        invariant
            i <= pages,
            len == input@.len(),
            pages == page_count(len as nat),
            pages_addressable(len as nat, base_addr),
            output@ == old(output)@ + page_blocks(
                input@,
                base_addr,
                num_blocks,
                family_id,
                i as nat,
            ),
        decreases pages - i,
    {
        let from: usize = 256 * i;
        let to: usize = if len - from > 256 {
            from + 256
        } else {
            len
        };
        let block_no: u32 = i as u32;
        let target_addr: u32 = base_addr + block_no * UF2_PAYLOAD_SIZE;
        let ghost before = output@;
        write_block(
            output,
            target_addr,
            vstd::slice::slice_subrange(input, from, to),
            block_no,
            num_blocks,
            family_id,
        );
        i += 1;
        assert(output@ =~= old(output)@ + page_blocks(
            input@,
            base_addr,
            num_blocks,
            family_id,
            i as nat,
        ));
    }
}

// ---------------------------------------------------------------------------
// Renumbering
// ---------------------------------------------------------------------------

/// `data` with the block number and the block count of every whole 512-byte block replaced.
pub open spec fn renumbered(data: Seq<u8>, start_block: u32, num_blocks: u32) -> Seq<u8> {
    Seq::new(
        data.len(),
        |j: int|
            if j / 512 >= data.len() / 512 {
                data[j]
            } else if 20 <= j % 512 < 24 {
                byte_of((start_block + j / 512) as u32, j % 512 - 20)
            } else if 24 <= j % 512 < 28 {
                byte_of(num_blocks, j % 512 - 24)
            } else {
                data[j]
            },
    )
}

/// `data` after its first `k` blocks were renumbered.
spec fn renumbered_upto(data: Seq<u8>, start_block: u32, num_blocks: u32, k: int) -> Seq<u8> {
    Seq::new(
        data.len(),
        |j: int|
            if j / 512 >= k {
                data[j]
            } else {
                renumbered(data, start_block, num_blocks)[j]
            },
    )
}

/// Re-numbers every 512-byte UF2 block in `data` in-place.
///
/// After combining several independent UF2 byte buffers (each with their own
/// block numbering) into one, call this to stamp the correct sequential
/// `block_no` (starting at `start_block`) and the global `num_blocks` count
/// across all blocks.
pub fn renumber_blocks(data: &mut [u8], start_block: u32, num_blocks: u32)
    requires
        start_block + old(data)@.len() / 512 <= u32::MAX + 1,
    ensures
        final(data)@ == renumbered(old(data)@, start_block, num_blocks),
{
    let len: usize = data.len();
    let blocks: usize = len / 512;
    let count = to_le(num_blocks);
    let mut i: usize = 0;
    assert(data@ =~= renumbered_upto(old(data)@, start_block, num_blocks, 0));
    while i < blocks
        invariant
            i <= blocks,
            len == old(data)@.len(),
            blocks == len / 512,
            start_block + blocks <= u32::MAX + 1,
            count@ == le32(num_blocks),
            data@ == renumbered_upto(old(data)@, start_block, num_blocks, i as int),
        decreases blocks - i,
    {
        let at: usize = 512 * i;
        let block_no: u32 = start_block + i as u32;
        let number = to_le(block_no);
        let ghost before = data@;
        write_at(data, at + 20, number.as_slice(), 0, 4);
        write_at(data, at + 24, count.as_slice(), 0, 4);
        proof {
            assert(number@.subrange(0, 4) =~= le32(block_no));
            assert(count@.subrange(0, 4) =~= le32(num_blocks));
            let after = renumbered_upto(old(data)@, start_block, num_blocks, i + 1);
            assert forall|j: int| 0 <= j < len implies data@[j] == after[j] by {
                if j / 512 == i {
                    assert(j == at + j % 512);
                    if 20 <= j % 512 < 24 {
                        assert(data@[j] == le32(block_no)[j % 512 - 20]);
                    } else if 24 <= j % 512 < 28 {
                        assert(data@[j] == le32(num_blocks)[j % 512 - 24]);
                    } else {
                        assert(data@[j] == before[j]);
                    }
                } else {
                    assert(data@[j] == before[j]);
                }
            }
            assert(data@ =~= after);
        }
        i += 1;
    }
    assert(data@ =~= renumbered(old(data)@, start_block, num_blocks));
}

// ---------------------------------------------------------------------------
// Merging raw regions
// ---------------------------------------------------------------------------

/// Why regions cannot be merged.
#[derive(Debug, Clone, Copy, PartialEq, Eq, Structural)]
pub enum MergeError {
    /// There is nothing to merge.
    NoRegions,
    /// A region that is followed by another one ends beyond the address space.
    AddressOverflow { addr: u32 },
    /// A region reaches into the next one.
    Overlap { addr_a: u32, end_a: u32, addr_b: u32 },
    /// The last region ends beyond the address space.
    LastRegionOverflow,
}

impl MergeError {
    /// The reason in words.
    pub open spec fn spec_message(self) -> Seq<char> {
        match self {
            MergeError::NoRegions => "no binary regions to merge"@,
            MergeError::AddressOverflow { addr } => "address overflow in region at 0x"@ + hex(
                addr as nat,
                8,
            ),
            MergeError::Overlap { addr_a, end_a, addr_b } => "overlapping binary regions: 0x"@
                + hex(addr_a as nat, 8) + "..0x"@ + hex(end_a as nat, 8) + " and 0x"@ + hex(
                addr_b as nat,
                8,
            ),
            MergeError::LastRegionOverflow => "address overflow in last region"@,
        }
    }

    /// The reason in words.
    pub fn message(self) -> (r: String)
        ensures
            r@ == self.spec_message(),
    {
        match self {
            MergeError::NoRegions => "no binary regions to merge".to_owned(),
            MergeError::AddressOverflow { addr } => {
                let mut r = "address overflow in region at 0x".to_owned();
                push_hex(&mut r, addr as u64, 8);
                r
            },
            MergeError::Overlap { addr_a, end_a, addr_b } => {
                let mut r = "overlapping binary regions: 0x".to_owned();
                push_hex(&mut r, addr_a as u64, 8);
                r.append("..0x");
                push_hex(&mut r, end_a as u64, 8);
                r.append(" and 0x");
                push_hex(&mut r, addr_b as u64, 8);
                r
            },
            MergeError::LastRegionOverflow => "address overflow in last region".to_owned(),
        }
    }
}

/// `sorted` with `r` put behind all regions whose address is not larger.
pub open spec fn insert_region(sorted: Seq<Region>, r: Region) -> Seq<Region>
    decreases sorted.len(),
{
    if sorted.len() == 0 || sorted.last().0 <= r.0 {
        sorted.push(r)
    } else {
        insert_region(sorted.drop_last(), r).push(sorted.last())
    }
}

/// `regions` ordered by address; regions with the same address keep their order.
pub open spec fn by_address(regions: Seq<Region>) -> Seq<Region>
    decreases regions.len(),
{
    if regions.len() == 0 {
        Seq::empty()
    } else {
        insert_region(by_address(regions.drop_last()), regions.last())
    }
}

/// The address after the last byte of `r`, its length taken as a 32-bit number.
pub open spec fn region_end(r: Region) -> int {
    r.0 + (r.1.len() as u32)
}

/// The first complaint about the ordered regions `s` from index `i` on.
pub open spec fn merge_complaint(s: Seq<Region>, i: int) -> Option<MergeError>
    decreases s.len() - i,
{
    if i + 1 >= s.len() {
        if region_end(s.last()) > u32::MAX {
            Some(MergeError::LastRegionOverflow)
        } else {
            None
        }
    } else if region_end(s[i]) > u32::MAX {
        Some(MergeError::AddressOverflow { addr: s[i].0 })
    } else if s[i + 1].0 < region_end(s[i]) {
        Some(
            MergeError::Overlap {
                addr_a: s[i].0,
                end_a: region_end(s[i]) as u32,
                addr_b: s[i + 1].0,
            },
        )
    } else {
        merge_complaint(s, i + 1)
    }
}

/// Why `regions` cannot be merged, or nothing where they can.
pub open spec fn merge_error(regions: Seq<Region>) -> Option<MergeError> {
    if regions.len() == 0 {
        Some(MergeError::NoRegions)
    } else {
        merge_complaint(by_address(regions), 0)
    }
}

/// The byte that `regions` give for address `a`, or `fill` where none covers it.
pub open spec fn byte_at(regions: Seq<Region>, a: int, fill: u8) -> u8
    decreases regions.len(),
{
    if regions.len() == 0 {
        fill
    } else if regions.last().0 <= a < regions.last().0 + regions.last().1.len() {
        regions.last().1[a - regions.last().0]
    } else {
        byte_at(regions.drop_last(), a, fill)
    }
}

/// The flat buffer from the first address of the ordered regions `s` to their last end.
pub open spec fn merged_bytes(s: Seq<Region>, fill: u8) -> Seq<u8> {
    Seq::new(
        (region_end(s.last()) - s[0].0) as nat,
        |j: int| byte_at(s, s[0].0 + j, fill),
    )
}

/// Whether no region is longer than 32 bits can say.
pub open spec fn lengths_fit(regions: Seq<Region>) -> bool {
    forall|i: int| 0 <= i < regions.len() ==> (#[trigger] regions[i]).1.len() <= u32::MAX
}

proof fn lemma_insert_region(t: Seq<Region>, r: Region, pos: int)
    requires
        0 <= pos <= t.len(),
        forall|k: int| pos <= k < t.len() ==> (#[trigger] t[k]).0 > r.0,
        pos > 0 ==> t[pos - 1].0 <= r.0,
    ensures
        insert_region(t, r) == t.insert(pos, r),
    decreases t.len(),
{
    if t.len() == 0 || pos == t.len() {
        assert(t.insert(pos, r) =~= t.push(r));
    } else {
        assert(t.last().0 > r.0);
        lemma_insert_region(t.drop_last(), r, pos);
        assert(t.drop_last().insert(pos, r).push(t.last()) =~= t.insert(pos, r));
    }
}

proof fn lemma_insert_region_len(t: Seq<Region>, r: Region)
    ensures
        insert_region(t, r).len() == t.len() + 1,
    decreases t.len(),
{
    if t.len() > 0 && t.last().0 > r.0 {
        lemma_insert_region_len(t.drop_last(), r);
    }
}

proof fn lemma_insert_region_contains(t: Seq<Region>, r: Region, x: Region)
    ensures
        insert_region(t, r).contains(x) <==> t.contains(x) || x == r,
    decreases t.len(),
{
    let u = insert_region(t, r);
    lemma_insert_region_len(t, r);
    if t.len() == 0 || t.last().0 <= r.0 {
        assert(u == t.push(r));
        assert(u[t.len() as int] == r);
        if t.contains(x) {
            let k = choose|k: int| 0 <= k < t.len() && t[k] == x;
            assert(u[k] == x);
        }
        if u.contains(x) && x != r {
            let k = choose|k: int| 0 <= k < u.len() && u[k] == x;
            assert(t[k] == x);
        }
    } else {
        let t0 = t.drop_last();
        let u0 = insert_region(t0, r);
        lemma_insert_region_contains(t0, r, x);
        lemma_insert_region_len(t0, r);
        assert(u == u0.push(t.last()));
        assert(u[u0.len() as int] == t.last());
        if t.contains(x) && x != t.last() {
            let k = choose|k: int| 0 <= k < t.len() && t[k] == x;
            assert(t0[k] == x);
        }
        if t0.contains(x) {
            let k = choose|k: int| 0 <= k < t0.len() && t0[k] == x;
            assert(t[k] == x);
        }
        if u0.contains(x) {
            let k = choose|k: int| 0 <= k < u0.len() && u0[k] == x;
            assert(u[k] == x);
        }
        if u.contains(x) && x != t.last() {
            let k = choose|k: int| 0 <= k < u.len() && u[k] == x;
            assert(u0[k] == x);
        }
        assert(t[t.len() - 1] == t.last());
    }
}

/// Ordering by address keeps the number of regions and which ones there are.
pub proof fn lemma_by_address_keeps(regions: Seq<Region>)
    ensures
        by_address(regions).len() == regions.len(),
        forall|x: Region| by_address(regions).contains(x) <==> regions.contains(x),
    decreases regions.len(),
{
    if regions.len() > 0 {
        let rest = regions.drop_last();
        lemma_by_address_keeps(rest);
        lemma_insert_region_len(by_address(rest), regions.last());
        assert forall|x: Region| by_address(regions).contains(x) <==> regions.contains(x) by {
            lemma_insert_region_contains(by_address(rest), regions.last(), x);
            if rest.contains(x) {
                let k = choose|k: int| 0 <= k < rest.len() && rest[k] == x;
                assert(regions[k] == x);
            }
            if regions.contains(x) && x != regions.last() {
                let k = choose|k: int| 0 <= k < regions.len() && regions[k] == x;
                assert(rest[k] == x);
            }
            assert(regions[regions.len() - 1] == regions.last());
        }
    } else {
        assert(by_address(regions) =~= regions);
    }
}

/// What `merge_complaint` found nothing wrong with: each region ends where the
/// next one starts or before it.
proof fn lemma_no_complaint(s: Seq<Region>, i: int, k: int)
    requires
        0 <= i <= k < s.len(),
        merge_complaint(s, i) is None,
    ensures
        region_end(s[k]) <= u32::MAX,
        k + 1 < s.len() ==> region_end(s[k]) <= s[k + 1].0,
    decreases s.len() - i,
{
    if i + 1 < s.len() {
        if i < k {
            lemma_no_complaint(s, i + 1, k);
        }
    }
}

/// In ordered regions without complaint, addresses and ends do not decrease.
proof fn lemma_regions_ascend(s: Seq<Region>, i: int, k: int)
    requires
        0 <= i <= k < s.len(),
        merge_complaint(s, 0) is None,
    ensures
        s[i].0 <= s[k].0,
        i < k ==> region_end(s[i]) <= s[k].0,
        region_end(s[i]) <= region_end(s[k]),
    decreases k - i,
{
    if i < k {
        lemma_no_complaint(s, 0, i);
        lemma_regions_ascend(s, i + 1, k);
    }
}

proof fn lemma_byte_at_step(s: Seq<Region>, k: int, a: int, fill: u8)
    requires
        0 <= k < s.len(),
    ensures
        byte_at(s.take(k + 1), a, fill) == (if s[k].0 <= a < s[k].0 + s[k].1.len() {
            s[k].1[a - s[k].0]
        } else {
            byte_at(s.take(k), a, fill)
        }),
{
    assert(s.take(k + 1).drop_last() =~= s.take(k));
    assert(s.take(k + 1).last() == s[k]);
}

fn sort_regions(regions: Vec<(u32, Vec<u8>)>) -> (r: Vec<(u32, Vec<u8>)>)
    ensures
        region_views(r@) == by_address(region_views(regions@)),
{
    let ghost all = region_views(regions@);
    let mut rest = regions;
    let mut sorted: Vec<(u32, Vec<u8>)> = Vec::new();
    let ghost mut k: int = 0;
    assert(region_views(sorted@) =~= by_address(all.take(0)));
    assert(region_views(rest@) =~= all.skip(0));
    while rest.len() > 0
        invariant
            0 <= k <= all.len(),
            region_views(sorted@) == by_address(all.take(k)),
            region_views(rest@) == all.skip(k),
        decreases rest@.len(),
    {
        proof {
            assert(region_views(rest@).len() == rest@.len());
            assert(all.skip(k).len() == all.len() - k);
            assert(region_views(rest@)[0] == all[k]);
        }
        let ghost rest0 = rest@;
        let item = rest.remove(0);
        let mut pos: usize = sorted.len();
        while pos > 0 && sorted[pos - 1].0 > item.0
            invariant
                pos <= sorted@.len(),
                forall|j: int| pos <= j < sorted@.len() ==> (#[trigger] sorted@[j]).0 > item.0,
            decreases pos,
        {
            pos -= 1;
        }
        let ghost sorted0 = sorted@;
        proof {
            let t = region_views(sorted0);
            assert(all[k] == (item.0, item.1@));
            lemma_insert_region(t, all[k], pos as int);
            assert(all.take(k + 1).drop_last() =~= all.take(k));
            assert(all.take(k + 1).last() == all[k]);
        }
        sorted.insert(pos, item);
        proof {
            assert(region_views(sorted@) =~= region_views(sorted0).insert(pos as int, all[k]));
            assert(region_views(rest@) =~= all.skip(k + 1)) by {
                assert forall|j: int| 0 <= j < rest@.len() implies region_views(rest@)[j]
                    == all.skip(k + 1)[j] by {
                    assert(rest@[j] == rest0[j + 1]);
                    assert(region_views(rest0)[j + 1] == all.skip(k)[j + 1]);
                }
                assert(region_views(rest0).len() == rest0.len());
            }
            k = k + 1;
        }
    }
    proof {
        assert(region_views(rest@).len() == 0);
        assert(k == all.len());
        assert(all.take(k) =~= all);
    }
    sorted
}

/// Merges a list of `(base_address, data)` raw binary regions into a single
/// contiguous flat buffer.
///
/// Regions are sorted by address.  Any gaps between them are filled with
/// `fill_byte` (typically `0xff` to match erased flash).  Returns
/// `(merged_base_address, merged_data)`.
///
/// Returns an error if any two regions overlap.
pub fn merge_regions(regions: Vec<(u32, Vec<u8>)>, fill_byte: u8) -> (r: Result<
    (u32, Vec<u8>),
    MergeError,
>)
    requires
        merge_error(region_views(regions@)) is None ==> lengths_fit(region_views(regions@)),
    ensures
        (match r {
            Err(e) => merge_error(region_views(regions@)) == Some(e),
            Ok((base, data)) => {
                let s = by_address(region_views(regions@));
                &&& merge_error(region_views(regions@)) is None
                &&& base == s[0].0
                &&& data@ == merged_bytes(s, fill_byte)
            },
        }),
{
    let ghost all = region_views(regions@);
    if regions.len() == 0 {
        return Err(MergeError::NoRegions);
    }
    let sorted = sort_regions(regions);
    let ghost s = by_address(all);
    proof {
        lemma_by_address_keeps(all);
        assert(region_views(sorted@).len() == sorted@.len());
    }
    let n: usize = sorted.len();
    let mut i: usize = 0;
    while i + 1 < n
        invariant
            0 < n == sorted@.len() == s.len(),
            i + 1 <= n,
            region_views(sorted@) == s,
            s == by_address(all),
            all == region_views(regions@),
            all.len() > 0,
            merge_complaint(s, 0) == merge_complaint(s, i as int),
        decreases n - i,
    {
        assert(s[i as int] == (sorted@[i as int].0, sorted@[i as int].1@));
        assert(s[i + 1] == (sorted@[i + 1].0, sorted@[i + 1].1@));
        let addr_a: u32 = sorted[i].0;
        let len_a: u32 = sorted[i].1.len() as u32;
        let addr_b: u32 = sorted[i + 1].0;
        match addr_a.checked_add(len_a) {
            None => {
                return Err(MergeError::AddressOverflow { addr: addr_a });
            },
            Some(end_a) => {
                if addr_b < end_a {
                    return Err(MergeError::Overlap { addr_a, end_a, addr_b });
                }
            },
        }
        i += 1;
    }
    assert(s[0] == (sorted@[0].0, sorted@[0].1@));
    assert(s[n - 1] == (sorted@[n - 1].0, sorted@[n - 1].1@));
    let base: u32 = sorted[0].0;
    let last_len: u32 = sorted[n - 1].1.len() as u32;
    let end: u32 = match sorted[n - 1].0.checked_add(last_len) {
        None => {
            return Err(MergeError::LastRegionOverflow);
        },
        Some(end) => end,
    };
    proof {
        assert(merge_complaint(s, 0) is None);
        lemma_regions_ascend(s, 0, n - 1);
    }
    let total_len: usize = (end - base) as usize;
    let mut buf: Vec<u8> = Vec::new();
    push_fill(&mut buf, fill_byte, total_len);
    let mut k: usize = 0;
    while k < n
        invariant
            0 < n == sorted@.len() == s.len(),
            k <= n,
            region_views(sorted@) == s,
            s == by_address(all),
            lengths_fit(all),
            merge_complaint(s, 0) is None,
            base == s[0].0,
            end == region_end(s[n - 1]),
            base <= end,
            total_len == end - base,
            buf@.len() == total_len,
            forall|j: int| 0 <= j < total_len ==> #[trigger] buf@[j] == byte_at(
                s.take(k as int),
                base + j,
                fill_byte,
            ),
        decreases n - k,
    {
        proof {
            assert(s[k as int] == (sorted@[k as int].0, sorted@[k as int].1@));
            lemma_regions_ascend(s, 0, k as int);
            lemma_regions_ascend(s, k as int, n - 1);
            lemma_by_address_keeps(all);
            assert(s.contains(s[k as int]));
            assert(all.contains(s[k as int]));
        }
        let addr: u32 = sorted[k].0;
        let offset: usize = (addr - base) as usize;
        let ghost before = buf@;
        let data = &sorted[k].1;
        assert(data@.len() <= u32::MAX);
        write_at(&mut buf, offset, data.as_slice(), 0, data.len());
        proof {
            assert(data@.subrange(0, data@.len() as int) =~= data@);
            assert forall|j: int| 0 <= j < total_len implies #[trigger] buf@[j] == byte_at(
                s.take(k + 1),
                base + j,
                fill_byte,
            ) by {
                lemma_byte_at_step(s, k as int, base + j, fill_byte);
                assert(before[j] == byte_at(s.take(k as int), base + j, fill_byte));
            }
        }
        k += 1;
    }
    proof {
        assert(s.take(n as int) =~= s);
        assert(buf@ =~= merged_bytes(s, fill_byte));
    }
    Ok((base, buf))
}

/// What a successful merge gives: it starts at the lowest address and reaches to
/// the highest end, each region's bytes stand at their place, and every byte that
/// belongs to no region is `fill`.
pub proof fn law_merge_places_regions(regions: Seq<Region>, fill: u8)
    requires
        merge_error(regions) is None,
        lengths_fit(regions),
    ensures
        ({
            let s = by_address(regions);
            let base = s[0].0;
            let data = merged_bytes(s, fill);
            &&& exists|i: int| 0 <= i < regions.len() && (#[trigger] regions[i]).0 == base
            &&& exists|i: int|
                0 <= i < regions.len() && (#[trigger] regions[i]).0 + regions[i].1.len() == base
                    + data.len()
            &&& forall|i: int|
                0 <= i < regions.len() ==> base <= (#[trigger] regions[i]).0 && regions[i].0
                    + regions[i].1.len() <= base + data.len() && data.subrange(
                    regions[i].0 - base,
                    regions[i].0 - base + regions[i].1.len(),
                ) == regions[i].1
            &&& forall|j: int|
                0 <= j < data.len() && (forall|i: int|
                    0 <= i < regions.len() ==> !((#[trigger] regions[i]).0 <= base + j
                        < regions[i].0 + regions[i].1.len())) ==> #[trigger] data[j] == fill
        }),
{
    let s = by_address(regions);
    let base = s[0].0;
    let data = merged_bytes(s, fill);
    let n = s.len() as int;
    lemma_by_address_keeps(regions);
    assert(s.contains(s[0]));
    assert(regions.contains(s[0]));
    let i0 = choose|i: int| 0 <= i < regions.len() && regions[i] == s[0];
    assert(regions[i0].0 == base);
    assert(s.contains(s[n - 1]));
    assert(regions.contains(s[n - 1]));
    let i1 = choose|i: int| 0 <= i < regions.len() && regions[i] == s[n - 1];
    lemma_regions_ascend(s, 0, n - 1);
    assert(s.take(n) =~= s);
    assert forall|k: int| 0 <= k < s.len() implies (#[trigger] s[k]).1.len() <= u32::MAX by {
        assert(s.contains(s[k]));
        assert(regions.contains(s[k]));
    }
    assert(regions[i1].0 + regions[i1].1.len() == base + data.len());
    assert forall|i: int| 0 <= i < regions.len() implies base <= (#[trigger] regions[i]).0
        && regions[i].0 + regions[i].1.len() <= base + data.len() && data.subrange(
        regions[i].0 - base,
        regions[i].0 - base + regions[i].1.len(),
    ) == regions[i].1 by {
        assert(regions.contains(regions[i]));
        assert(s.contains(regions[i]));
        let k = choose|k: int| 0 <= k < s.len() && s[k] == regions[i];
        lemma_regions_ascend(s, 0, k);
        lemma_regions_ascend(s, k, n - 1);
        assert forall|j: int| 0 <= j < regions[i].1.len() implies data[regions[i].0 - base + j]
            == #[trigger] regions[i].1[j] by {
            lemma_byte_of_region(s, k, n, s[k].0 + j, fill);
            assert(s.take(n) =~= s);
        }
        assert(data.subrange(
            regions[i].0 - base,
            regions[i].0 - base + regions[i].1.len(),
        ) =~= regions[i].1);
    }
    assert forall|j: int|
        0 <= j < data.len() && (forall|i: int|
            0 <= i < regions.len() ==> !((#[trigger] regions[i]).0 <= base + j < regions[i].0
                + regions[i].1.len())) implies #[trigger] data[j] == fill by {
        assert forall|k: int| 0 <= k < s.len() implies !((#[trigger] s[k]).0 <= base + j < s[k].0
            + s[k].1.len()) by {
            assert(s.contains(s[k]));
            assert(regions.contains(s[k]));
            let i = choose|i: int| 0 <= i < regions.len() && regions[i] == s[k];
            assert(regions[i] == s[k]);
        }
        lemma_byte_of_gap(s, base + j, fill);
    }
}

proof fn lemma_byte_of_region(s: Seq<Region>, k: int, n: int, a: int, fill: u8)
    requires
        0 <= k < n <= s.len(),
        merge_complaint(s, 0) is None,
        lengths_fit(s.take(n)),
        s[k].0 <= a < s[k].0 + s[k].1.len(),
    ensures
        byte_at(s.take(n), a, fill) == s[k].1[a - s[k].0],
    decreases n,
{
    lemma_byte_at_step(s, n - 1, a, fill);
    assert(s.take(n)[k] == s[k]);
    if k < n - 1 {
        lemma_regions_ascend(s, k, n - 1);
        assert forall|i: int| 0 <= i < n - 1 implies (#[trigger] s.take(n - 1)[i]).1.len()
            <= u32::MAX by {
            assert(s.take(n)[i] == s.take(n - 1)[i]);
        }
        lemma_byte_of_region(s, k, n - 1, a, fill);
    }
}

proof fn lemma_byte_of_gap(s: Seq<Region>, a: int, fill: u8)
    requires
        forall|k: int|
            0 <= k < s.len() ==> !((#[trigger] s[k]).0 <= a < s[k].0 + s[k].1.len()),
    ensures
        byte_at(s, a, fill) == fill,
    decreases s.len(),
{
    if s.len() > 0 {
        assert(s.last() == s[s.len() - 1]);
        assert forall|k: int| 0 <= k < s.drop_last().len() implies !((
        #[trigger] s.drop_last()[k]).0 <= a < s.drop_last()[k].0 + s.drop_last()[k].1.len()) by {
            assert(s.drop_last()[k] == s[k]);
        }
        lemma_byte_of_gap(s.drop_last(), a, fill);
    }
}

/// Where a region is put.
pub proof fn lemma_insert_region_place(t: Seq<Region>, r: Region) -> (pos: int)
    ensures
        0 <= pos <= t.len(),
        insert_region(t, r) == t.insert(pos, r),
    decreases t.len(),
{
    if t.len() == 0 || t.last().0 <= r.0 {
        assert(t.insert(t.len() as int, r) =~= t.push(r));
        t.len() as int
    } else {
        let pos = lemma_insert_region_place(t.drop_last(), r);
        assert(t.drop_last().insert(pos, r).push(t.last()) =~= t.insert(pos, r));
        pos
    }
}

/// Where two of the regions stand once they are ordered.
proof fn lemma_two_places(regions: Seq<Region>, i: int, j: int) -> (places: (int, int))
    requires
        0 <= i < j < regions.len(),
    ensures
        ({
            let s = by_address(regions);
            let (p, q) = places;
            &&& p != q
            &&& 0 <= p < s.len() && s[p] == regions[i]
            &&& 0 <= q < s.len() && s[q] == regions[j]
        }),
    decreases regions.len(),
{
    let rest = regions.drop_last();
    let t = by_address(rest);
    lemma_by_address_keeps(rest);
    let pos = lemma_insert_region_place(t, regions.last());
    let (p, q): (int, int) = if j == regions.len() - 1 {
        assert(rest.contains(rest[i]));
        assert(t.contains(rest[i]));
        (choose|k: int| 0 <= k < t.len() && t[k] == rest[i], -1int)
    } else {
        lemma_two_places(rest, i, j)
    };
    let p2 = if p < pos {
        p
    } else {
        p + 1
    };
    let q2 = if q == -1 {
        pos
    } else if q < pos {
        q
    } else {
        q + 1
    };
    (p2, q2)
}

/// Regions of which two have a byte in common are never merged.
pub proof fn law_merge_rejects_overlap(regions: Seq<Region>, i: int, j: int, a: int)
    requires
        lengths_fit(regions),
        0 <= i < j < regions.len(),
        regions[i].0 <= a < regions[i].0 + regions[i].1.len(),
        regions[j].0 <= a < regions[j].0 + regions[j].1.len(),
    ensures
        merge_error(regions) is Some,
{
    let s = by_address(regions);
    let (p, q) = lemma_two_places(regions, i, j);
    if merge_complaint(s, 0) is None {
        if p < q {
            lemma_regions_ascend(s, p, q);
        } else {
            lemma_regions_ascend(s, q, p);
        }
    }
}

// ---------------------------------------------------------------------------
// UF2 to regions
// ---------------------------------------------------------------------------

/// Why a byte buffer is no UF2 file.
#[derive(Debug, Clone, Copy, PartialEq, Eq, Structural)]
pub enum Uf2Error {
    /// The length is no multiple of the block size.
    BadLength { len: usize },
    /// A block does not hold the three magic words.
    BadMagic { block: usize },
    /// A block claims more payload than its data field holds.
    BadPayloadSize { block: usize, size: u32 },
}

impl Uf2Error {
    /// The reason in words.
    pub open spec fn spec_message(self) -> Seq<char> {
        match self {
            Uf2Error::BadLength { len } => "UF2 data length is not a multiple of 512: "@ + decimal(
                len as nat,
            ),
            Uf2Error::BadMagic { block } => "invalid UF2 magic in block "@ + decimal(block as nat),
            Uf2Error::BadPayloadSize { block, size } => "invalid UF2 payload size in block "@
                + decimal(block as nat) + ": "@ + decimal(size as nat),
        }
    }

    /// The reason in words.
    pub fn message(self) -> (r: String)
        ensures
            r@ == self.spec_message(),
    {
        match self {
            Uf2Error::BadLength { len } => {
                let mut r = "UF2 data length is not a multiple of 512: ".to_owned();
                push_decimal(&mut r, len as u64);
                r
            },
            Uf2Error::BadMagic { block } => {
                let mut r = "invalid UF2 magic in block ".to_owned();
                push_decimal(&mut r, block as u64);
                r
            },
            Uf2Error::BadPayloadSize { block, size } => {
                let mut r = "invalid UF2 payload size in block ".to_owned();
                push_decimal(&mut r, block as u64);
                r.append(": ");
                push_decimal(&mut r, size as u64);
                r
            },
        }
    }
}

/// Block `i` of the UF2 bytes `data`.
pub open spec fn block_at(data: Seq<u8>, i: int) -> Seq<u8> {
    data.subrange(512 * i, 512 * i + 512)
}

/// What is wrong with block `i`, or nothing.
pub open spec fn block_error(data: Seq<u8>, i: int) -> Option<Uf2Error> {
    let b = block_at(data, i);
    if word_at(b, 0) != UF2_MAGIC_START0 || word_at(b, 4) != UF2_MAGIC_START1 || word_at(b, 508)
        != UF2_MAGIC_END {
        Some(Uf2Error::BadMagic { block: i as usize })
    } else if word_at(b, 16) > 476 {
        Some(Uf2Error::BadPayloadSize { block: i as usize, size: word_at(b, 16) })
    } else {
        None
    }
}

/// What is wrong with the first faulty block among the first `k`, or nothing.
pub open spec fn first_block_error(data: Seq<u8>, k: nat) -> Option<Uf2Error>
    decreases k,
{
    if k == 0 {
        None
    } else {
        match first_block_error(data, (k - 1) as nat) {
            Some(e) => Some(e),
            None => block_error(data, k - 1),
        }
    }
}

/// Why `data` is no UF2 file, or nothing where it is one.
pub open spec fn uf2_error(data: Seq<u8>) -> Option<Uf2Error> {
    if data.len() % 512 != 0 {
        Some(Uf2Error::BadLength { len: data.len() as usize })
    } else {
        first_block_error(data, data.len() / 512)
    }
}

/// Address and payload of block `i`.
pub open spec fn block_region(data: Seq<u8>, i: int) -> Region {
    let b = block_at(data, i);
    (word_at(b, 12), b.subrange(32, 32 + word_at(b, 16)))
}

/// `regions` followed by `r`, joined to the last one where it starts at its end.
pub open spec fn append_region(regions: Seq<Region>, r: Region) -> Seq<Region> {
    if regions.len() > 0 && regions.last().0 + regions.last().1.len() == r.0 {
        regions.drop_last().push((regions.last().0, regions.last().1 + r.1))
    } else {
        regions.push(r)
    }
}

/// The regions that the first `k` blocks describe.
pub open spec fn block_regions(data: Seq<u8>, k: nat) -> Seq<Region>
    decreases k,
{
    if k == 0 {
        Seq::empty()
    } else {
        append_region(block_regions(data, (k - 1) as nat), block_region(data, k - 1))
    }
}

proof fn lemma_block_words(data: Seq<u8>, i: int, at: int)
    requires
        0 <= i,
        512 * i + 512 <= data.len(),
        0 <= at <= 508,
    ensures
        word_at(block_at(data, i), at) == word_at(data, 512 * i + at),
{
}

proof fn lemma_first_block_error_stays(data: Seq<u8>, k: nat, n: nat)
    requires
        k <= n,
        first_block_error(data, k) is Some,
    ensures
        first_block_error(data, n) == first_block_error(data, k),
    decreases n,
{
    if k < n {
        lemma_first_block_error_stays(data, k, (n - 1) as nat);
    }
}

/// Splits a UF2 file into contiguous `(address, data)` regions.
///
/// Every block contributes its payload at its target address; a block that
/// starts where the one before it ended is joined to it.
pub fn uf2_to_regions(data: &[u8]) -> (r: Result<Vec<(u32, Vec<u8>)>, Uf2Error>)
    ensures
        (match r {
            Err(e) => uf2_error(data@) == Some(e),
            Ok(v) => uf2_error(data@) is None && region_views(v@) == block_regions(
                data@,
                data@.len() / 512,
            ),
        }),
{
    let len: usize = data.len();
    if len % 512 != 0 {
        return Err(Uf2Error::BadLength { len });
    }
    let blocks: usize = len / 512;
    let mut regions: Vec<(u32, Vec<u8>)> = Vec::new();
    assert(region_views(regions@) =~= block_regions(data@, 0));
    let mut i: usize = 0;
    while i < blocks
        invariant
            len == data@.len(),
            len % 512 == 0,
            blocks == len / 512,
            i <= blocks,
            first_block_error(data@, i as nat) is None,
            region_views(regions@) == block_regions(data@, i as nat),
        decreases blocks - i,
    {
        let at: usize = 512 * i;
        proof {
            lemma_block_words(data@, i as int, 0);
            lemma_block_words(data@, i as int, 4);
            lemma_block_words(data@, i as int, 12);
            lemma_block_words(data@, i as int, 16);
            lemma_block_words(data@, i as int, 508);
            if first_block_error(data@, (i + 1) as nat) is Some {
                lemma_first_block_error_stays(data@, (i + 1) as nat, blocks as nat);
            }
        }
        if read_le(data, at) != UF2_MAGIC_START0 || read_le(data, at + 4) != UF2_MAGIC_START1
            || read_le(data, at + 508) != UF2_MAGIC_END {
            return Err(Uf2Error::BadMagic { block: i });
        }
        let size: u32 = read_le(data, at + 16);
        if size > 476 {
            return Err(Uf2Error::BadPayloadSize { block: i, size });
        }
        let addr: u32 = read_le(data, at + 12);
        let from: usize = at + 32;
        let to: usize = from + size as usize;
        let ghost reg = block_region(data@, i as int);
        let ghost before = regions@;
        proof {
            assert(reg.0 == addr);
            assert(reg.1 =~= data@.subrange(from as int, to as int));
            assert(region_views(before).len() == before.len());
        }
        let count: usize = regions.len();
        let joins: bool = if count > 0 {
            assert(region_views(before)[count - 1] == (before[count - 1].0, before[count - 1].1@));
            let last = &regions[count - 1];
            addr >= last.0 && (addr - last.0) as usize == last.1.len()
        } else {
            false
        };
        if joins {
            let (start, mut bytes) = match regions.pop() {
                Some(last) => last,
                None => (addr, Vec::new()),
            };
            let ghost head = bytes@;
            push_bytes(&mut bytes, data, from, to);
            regions.push((start, bytes));
            assert(bytes@ == head + reg.1);
        } else {
            let mut bytes: Vec<u8> = Vec::new();
            push_bytes(&mut bytes, data, from, to);
            assert(bytes@ =~= reg.1);
            regions.push((addr, bytes));
        }
        assert(region_views(regions@) =~= append_region(region_views(before), reg));
        i += 1;
    }
    Ok(regions)
}

// ---------------------------------------------------------------------------
// Laws
// ---------------------------------------------------------------------------

/// The words and the payload of a block are found at their fixed offsets.
pub proof fn law_block_fields(
    target_addr: u32,
    payload: Seq<u8>,
    block_no: u32,
    num_blocks: u32,
    family_id: u32,
)
    ensures
        ({
            let b = block(target_addr, payload, block_no, num_blocks, family_id);
            &&& b.len() == 512
            &&& word_at(b, 0) == UF2_MAGIC_START0
            &&& word_at(b, 4) == UF2_MAGIC_START1
            &&& word_at(b, 8) == UF2_FLAG_FAMILY_ID_PRESENT
            &&& word_at(b, 12) == target_addr
            &&& word_at(b, 16) == UF2_PAYLOAD_SIZE
            &&& word_at(b, 20) == block_no
            &&& word_at(b, 24) == num_blocks
            &&& word_at(b, 28) == family_id
            &&& word_at(b, 508) == UF2_MAGIC_END
            &&& b.subrange(32, 508) == data_field(payload)
        }),
{
    let b = block(target_addr, payload, block_no, num_blocks, family_id);
    let h = block_header(target_addr, block_no, num_blocks, family_id);
    lemma_header_fields(target_addr, block_no, num_blocks, family_id);
    assert(b.len() == 512 && b.subrange(0, 32) == h && b.subrange(32, 508) == data_field(payload)
        && b.subrange(508, 512) == le32(UF2_MAGIC_END)) by {
        reveal(block);
        assert(h.len() == 32);
        assert(b.subrange(0, 32) =~= h);
        assert(b.subrange(32, 508) =~= data_field(payload));
        assert(b.subrange(508, 512) =~= le32(UF2_MAGIC_END));
    }
    law_word_round_trip(b, 508, UF2_MAGIC_END);
    assert forall|j: int| 0 <= j < 32 implies b[j] == h[j] by {
        assert(b.subrange(0, 32)[j] == b[j]);
    }
}

proof fn lemma_header_fields(target_addr: u32, block_no: u32, num_blocks: u32, family_id: u32)
    ensures
        ({
            let h = block_header(target_addr, block_no, num_blocks, family_id);
            &&& h.len() == 32
            &&& word_at(h, 0) == UF2_MAGIC_START0
            &&& word_at(h, 4) == UF2_MAGIC_START1
            &&& word_at(h, 8) == UF2_FLAG_FAMILY_ID_PRESENT
            &&& word_at(h, 12) == target_addr
            &&& word_at(h, 16) == UF2_PAYLOAD_SIZE
            &&& word_at(h, 20) == block_no
            &&& word_at(h, 24) == num_blocks
            &&& word_at(h, 28) == family_id
        }),
{
    let h = block_header(target_addr, block_no, num_blocks, family_id);
    assert(h.subrange(0, 4) =~= le32(UF2_MAGIC_START0));
    assert(h.subrange(4, 8) =~= le32(UF2_MAGIC_START1));
    assert(h.subrange(8, 12) =~= le32(UF2_FLAG_FAMILY_ID_PRESENT));
    assert(h.subrange(12, 16) =~= le32(target_addr));
    assert(h.subrange(16, 20) =~= le32(UF2_PAYLOAD_SIZE));
    assert(h.subrange(20, 24) =~= le32(block_no));
    assert(h.subrange(24, 28) =~= le32(num_blocks));
    assert(h.subrange(28, 32) =~= le32(family_id));
    law_word_round_trip(h, 0, UF2_MAGIC_START0);
    law_word_round_trip(h, 4, UF2_MAGIC_START1);
    law_word_round_trip(h, 8, UF2_FLAG_FAMILY_ID_PRESENT);
    law_word_round_trip(h, 12, target_addr);
    law_word_round_trip(h, 16, UF2_PAYLOAD_SIZE);
    law_word_round_trip(h, 20, block_no);
    law_word_round_trip(h, 24, num_blocks);
    law_word_round_trip(h, 28, family_id);
}

/// Block `i` of the first `k` blocks for `data` carries page `i` at its address.
pub proof fn law_image_blocks(
    data: Seq<u8>,
    base_addr: u32,
    num_blocks: u32,
    family_id: u32,
    k: nat,
)
    ensures
        page_blocks(data, base_addr, num_blocks, family_id, k).len() == 512 * k,
        forall|i: int|
            0 <= i < k ==> #[trigger] block_at(
                page_blocks(data, base_addr, num_blocks, family_id, k),
                i,
            ) == block(
                (base_addr + 256 * i) as u32,
                page(data, i),
                i as u32,
                num_blocks,
                family_id,
            ),
    decreases k,
{
    if k > 0 {
        let rest = page_blocks(data, base_addr, num_blocks, family_id, (k - 1) as nat);
        let all = page_blocks(data, base_addr, num_blocks, family_id, k);
        law_image_blocks(data, base_addr, num_blocks, family_id, (k - 1) as nat);
        law_block_fields(
            (base_addr + 256 * (k - 1)) as u32,
            page(data, k - 1),
            (k - 1) as u32,
            num_blocks,
            family_id,
        );
        assert forall|i: int| 0 <= i < k implies #[trigger] block_at(all, i) == block(
            (base_addr + 256 * i) as u32,
            page(data, i),
            i as u32,
            num_blocks,
            family_id,
        ) by {
            if i < k - 1 {
                assert(block_at(all, i) =~= block_at(rest, i));
            } else {
                assert(block_at(all, i) =~= block(
                    (base_addr + 256 * i) as u32,
                    page(data, i),
                    i as u32,
                    num_blocks,
                    family_id,
                ));
            }
        }
    }
}

/// `data` with zeros up to a whole number of pages.
pub open spec fn padded_pages(data: Seq<u8>, pages: nat) -> Seq<u8> {
    Seq::new(
        256 * pages,
        |j: int|
            if j < data.len() {
                data[j]
            } else {
                0u8
            },
    )
}

/// What a written block says to a reader: a valid block with one page of payload.
pub proof fn lemma_block_read_back(
    data: Seq<u8>,
    i: int,
    target_addr: u32,
    payload: Seq<u8>,
    block_no: u32,
    num_blocks: u32,
    family_id: u32,
)
    requires
        block_at(data, i) == block(target_addr, payload, block_no, num_blocks, family_id),
    ensures
        block_error(data, i) is None,
        block_region(data, i) == (target_addr, padded_pages(payload, 1)),
{
    law_block_fields(target_addr, payload, block_no, num_blocks, family_id);
    let b = block_at(data, i);
    let field = data_field(payload);
    let bytes = b.subrange(32, 288);
    assert forall|j: int| 0 <= j < 256 implies bytes[j] == field[j] by {
        assert(b.subrange(32, 508)[j] == b[32 + j]);
    }
    assert(bytes =~= padded_pages(payload, 1));
}

proof fn lemma_image_regions(
    data: Seq<u8>,
    base_addr: u32,
    num_blocks: u32,
    family_id: u32,
    n: nat,
    k: nat,
)
    requires
        0 < k <= n == page_count(data.len()),
        pages_addressable(data.len(), base_addr),
    ensures
        ({
            let image = page_blocks(data, base_addr, num_blocks, family_id, n);
            &&& first_block_error(image, k) is None
            &&& block_regions(image, k) == seq![(base_addr, padded_pages(data, k))]
        }),
    decreases k,
{
    let image = page_blocks(data, base_addr, num_blocks, family_id, n);
    let i = k - 1;
    law_image_blocks(data, base_addr, num_blocks, family_id, n);
    let addr = (base_addr + 256 * i) as u32;
    let reg = block_region(image, i);
    lemma_block_read_back(image, i, addr, page(data, i), i as u32, num_blocks, family_id);
    assert(reg.1 =~= Seq::new(
        256,
        |j: int|
            if 256 * i + j < data.len() {
                data[256 * i + j]
            } else {
                0u8
            },
    ));
    if k == 1 {
        assert(first_block_error(image, 0) is None);
        assert(block_regions(image, 0) =~= Seq::<Region>::empty());
        assert(reg.1 =~= padded_pages(data, 1));
        assert(block_regions(image, k) =~= seq![(base_addr, padded_pages(data, k))]);
    } else {
        lemma_image_regions(data, base_addr, num_blocks, family_id, n, (k - 1) as nat);
        let rest = block_regions(image, (k - 1) as nat);
        assert(rest.last() == (base_addr, padded_pages(data, (k - 1) as nat)));
        assert(padded_pages(data, (k - 1) as nat) + reg.1 =~= padded_pages(data, k));
        assert(block_regions(image, k) =~= seq![(base_addr, padded_pages(data, k))]);
    }
}

/// Reading back the UF2 form of `data` gives one region: `data` at its address,
/// filled up with zeros to a whole number of pages.
pub proof fn law_uf2_round_trip(data: Seq<u8>, base_addr: u32, family_id: u32)
    requires
        data.len() > 0,
        pages_addressable(data.len(), base_addr),
    ensures
        ({
            let image = uf2_image(data, base_addr, family_id);
            &&& uf2_error(image) is None
            &&& block_regions(image, image.len() / 512) == seq![
                (base_addr, padded_pages(data, page_count(data.len()))),
            ]
        }),
{
    let n = page_count(data.len());
    let num_blocks = stated_count(data.len());
    let image = page_blocks(data, base_addr, num_blocks, family_id, n);
    assert(image.len() == 512 * n) by {
        law_image_blocks(data, base_addr, num_blocks, family_id, n);
    }
    lemma_image_regions(data, base_addr, num_blocks, family_id, n, n);
    assert(image.len() / 512 == n);
}

/// The address and payload of each of the first `k` blocks, in file order.
pub open spec fn block_list(data: Seq<u8>, k: nat) -> Seq<Region> {
    Seq::new(k, |i: int| block_region(data, i))
}

/// Joining blocks into regions changes nothing in memory: writing the regions
/// leaves what writing every block by itself leaves.
pub proof fn law_regions_keep_blocks(mem: Memory, data: Seq<u8>, k: nat)
    ensures
        overlay_all(mem, block_regions(data, k)) == overlay_all(mem, block_list(data, k)),
    decreases k,
{
    if k > 0 {
        let rest = block_regions(data, (k - 1) as nat);
        let r = block_region(data, k - 1);
        law_regions_keep_blocks(mem, data, (k - 1) as nat);
        assert(block_list(data, k).drop_last() =~= block_list(data, (k - 1) as nat));
        assert(block_list(data, k).last() == r);
        let all = block_regions(data, k);
        if rest.len() > 0 && rest.last().0 + rest.last().1.len() == r.0 {
            let head = rest.drop_last();
            assert(all.drop_last() =~= head);
            lemma_overlay_joins(
                overlay_all(mem, head),
                rest.last().0 as int,
                rest.last().1,
                r.1,
            );
        } else {
            assert(all.drop_last() =~= rest);
        }
    } else {
        assert(block_regions(data, k) =~= block_list(data, k));
    }
}

/// Renumbering gives every whole block its number and the count, and leaves its
/// address, its payload and all else as they were.
pub proof fn law_renumbered_blocks(data: Seq<u8>, start_block: u32, num_blocks: u32, i: int)
    requires
        0 <= i < data.len() / 512,
        start_block + data.len() / 512 <= u32::MAX + 1,
    ensures
        ({
            let before = block_at(data, i);
            let after = block_at(renumbered(data, start_block, num_blocks), i);
            &&& after.len() == 512
            &&& word_at(after, 20) == start_block + i
            &&& word_at(after, 24) == num_blocks
            &&& after.subrange(0, 20) == before.subrange(0, 20)
            &&& after.subrange(28, 512) == before.subrange(28, 512)
        }),
{
    let before = block_at(data, i);
    let out = renumbered(data, start_block, num_blocks);
    let after = block_at(out, i);
    assert forall|j: int| 0 <= j < 512 implies #[trigger] after[j] == (if 20 <= j < 24 {
        byte_of((start_block + i) as u32, j - 20)
    } else if 24 <= j < 28 {
        byte_of(num_blocks, j - 24)
    } else {
        before[j]
    }) by {
        assert((512 * i + j) / 512 == i && (512 * i + j) % 512 == j);
        assert(after[j] == out[512 * i + j]);
    }
    assert(after.subrange(20, 24) =~= le32((start_block + i) as u32));
    assert(after.subrange(24, 28) =~= le32(num_blocks));
    law_word_round_trip(after, 20, (start_block + i) as u32);
    law_word_round_trip(after, 24, num_blocks);
    assert(after.subrange(0, 20) =~= before.subrange(0, 20));
    assert(after.subrange(28, 512) =~= before.subrange(28, 512));
}

/// Renumbering twice is renumbering once, with the second numbers.
pub proof fn law_renumber_again(data: Seq<u8>, start_a: u32, count_a: u32, start_b: u32, count_b: u32)
    ensures
        renumbered(renumbered(data, start_a, count_a), start_b, count_b) == renumbered(
            data,
            start_b,
            count_b,
        ),
{
    assert(renumbered(renumbered(data, start_a, count_a), start_b, count_b) =~= renumbered(
        data,
        start_b,
        count_b,
    ));
}

/// Renumbering keeps every block's address and payload, so it changes neither
/// whether a file is valid nor the regions that a valid file describes.
pub proof fn law_renumber_keeps_regions(data: Seq<u8>, start_block: u32, num_blocks: u32, k: nat)
    requires
        k <= data.len() / 512,
        start_block + data.len() / 512 <= u32::MAX + 1,
    ensures
        first_block_error(renumbered(data, start_block, num_blocks), k) == first_block_error(
            data,
            k,
        ),
        first_block_error(data, k) is None ==> block_regions(
            renumbered(data, start_block, num_blocks),
            k,
        ) == block_regions(data, k),
    decreases k,
{
    if k > 0 {
        law_renumber_keeps_regions(data, start_block, num_blocks, (k - 1) as nat);
        lemma_renumber_keeps_block(data, start_block, num_blocks, k - 1);
    }
}

proof fn lemma_renumber_keeps_block(data: Seq<u8>, start_block: u32, num_blocks: u32, i: int)
    requires
        0 <= i < data.len() / 512,
        start_block + data.len() / 512 <= u32::MAX + 1,
    ensures
        block_error(renumbered(data, start_block, num_blocks), i) == block_error(data, i),
        block_error(data, i) is None ==> block_region(
            renumbered(data, start_block, num_blocks),
            i,
        ) == block_region(data, i),
{
    law_renumbered_blocks(data, start_block, num_blocks, i);
    let before = block_at(data, i);
    let after = block_at(renumbered(data, start_block, num_blocks), i);
    lemma_same_words(before, after, 0, 20, 0);
    lemma_same_words(before, after, 0, 20, 4);
    lemma_same_words(before, after, 0, 20, 12);
    lemma_same_words(before, after, 0, 20, 16);
    lemma_same_words(before, after, 28, 512, 508);
    if block_error(data, i) is None {
        let size = word_at(before, 16) as int;
        assert(before.subrange(28, 512).subrange(4, 4 + size) =~= before.subrange(32, 32 + size));
        assert(after.subrange(28, 512).subrange(4, 4 + size) =~= after.subrange(32, 32 + size));
    }
}

proof fn lemma_same_words(a: Seq<u8>, b: Seq<u8>, from: int, to: int, at: int)
    requires
        a.len() == b.len(),
        0 <= from <= at,
        at + 4 <= to <= a.len(),
        a.subrange(from, to) == b.subrange(from, to),
    ensures
        word_at(a, at) == word_at(b, at),
{
    assert forall|j: int| at <= j < at + 4 implies a[j] == b[j] by {
        assert(a.subrange(from, to)[j - from] == a[j]);
        assert(b.subrange(from, to)[j - from] == b[j]);
    }
}

/// The UF2 form of one binary is numbered already: renumbering it from zero with
/// its own block count changes nothing.
#[verifier::rlimit(40)]
pub proof fn law_image_is_numbered(data: Seq<u8>, base_addr: u32, family_id: u32)
    requires
        data.len() <= u32::MAX,
    ensures
        ({
            let image = uf2_image(data, base_addr, family_id);
            renumbered(image, 0, (image.len() / 512) as u32) == image
        }),
{
    let n = page_count(data.len());
    let num_blocks = stated_count(data.len());
    let image = uf2_image(data, base_addr, family_id);
    law_image_blocks(data, base_addr, num_blocks, family_id, n);
    assert(num_blocks == n);
    let out = renumbered(image, 0, n as u32);
    assert forall|j: int| 0 <= j < image.len() implies out[j] == image[j] by {
        let i = j / 512;
        let m = j % 512;
        let b = block_at(image, i);
        assert(b[m] == image[j]);
        let whole = block(
            (base_addr + 256 * i) as u32,
            page(data, i),
            i as u32,
            num_blocks,
            family_id,
        );
        assert(b == whole);
        reveal(block);
        if 20 <= m < 24 {
            assert(whole[m] == le32(i as u32)[m - 20]);
        } else if 24 <= m < 28 {
            assert(whole[m] == le32(num_blocks)[m - 24]);
        }
    }
    assert(out =~= image);
}

/// The bytes of a block that tell its number and the block count, and that the others do
/// not depend on them.
proof fn lemma_block_numbers(
    target_addr: u32,
    payload: Seq<u8>,
    block_no: u32,
    num_blocks: u32,
    family_id: u32,
    m: int,
)
    requires
        0 <= m < 512,
    ensures
        block(target_addr, payload, block_no, num_blocks, family_id)[m] == (if 20 <= m < 24 {
            byte_of(block_no, m - 20)
        } else if 24 <= m < 28 {
            byte_of(num_blocks, m - 24)
        } else {
            block(target_addr, payload, 0, 0, family_id)[m]
        }),
{
    reveal(block);
    let b = block(target_addr, payload, block_no, num_blocks, family_id);
    if 20 <= m < 24 {
        assert(b[m] == le32(block_no)[m - 20]);
    } else if 24 <= m < 28 {
        assert(b[m] == le32(num_blocks)[m - 24]);
    }
}

/// Page `i` of two binaries joined at a page boundary.
proof fn lemma_joined_page(a: Seq<u8>, b: Seq<u8>, i: int)
    requires
        a.len() % 256 == 0,
        0 <= i < page_count(a.len() + b.len()),
    ensures
        page_count(a.len() + b.len()) == page_count(a.len()) + page_count(b.len()),
        256 * page_count(a.len()) == a.len(),
        page(a + b, i) == (if i < page_count(a.len()) {
            page(a, i)
        } else {
            page(b, i - page_count(a.len()))
        }),
{
    let na = page_count(a.len());
    assert(256 * na == a.len());
    if i < na {
        assert(page(a + b, i) =~= page(a, i));
    } else {
        assert(page(a + b, i) =~= page(b, i - na));
    }
}

/// Converting a binary at once is converting its two parts, joining the files and
/// renumbering the blocks of both as one file, where the first part ends at a page
/// boundary.
#[verifier::rlimit(40)]
pub proof fn law_joined_images(a: Seq<u8>, b: Seq<u8>, base_addr: u32, family_id: u32)
    requires
        a.len() % 256 == 0,
        a.len() + b.len() <= u32::MAX,
        pages_addressable(a.len() + b.len(), base_addr),
    ensures
        ({
            let joined = uf2_image(a, base_addr, family_id) + uf2_image(
                b,
                (base_addr + a.len()) as u32,
                family_id,
            );
            uf2_image(a + b, base_addr, family_id) == renumbered(
                joined,
                0,
                (joined.len() / 512) as u32,
            )
        }),
{
    let na = page_count(a.len());
    let nb = page_count(b.len());
    let n = page_count(a.len() + b.len());
    let next = (base_addr + a.len()) as u32;
    let oa = uf2_image(a, base_addr, family_id);
    let ob = uf2_image(b, next, family_id);
    let joined = oa + ob;
    let whole = uf2_image(a + b, base_addr, family_id);
    law_image_blocks(a, base_addr, stated_count(a.len()), family_id, na);
    law_image_blocks(b, next, stated_count(b.len()), family_id, nb);
    law_image_blocks(a + b, base_addr, stated_count(a.len() + b.len()), family_id, n);
    assert(n == na + nb);
    assert(stated_count(a.len() + b.len()) == n);
    let out = renumbered(joined, 0, n as u32);
    assert forall|j: int| 0 <= j < whole.len() implies whole[j] == out[j] by {
        let i = j / 512;
        let m = j % 512;
        let addr = (base_addr + 256 * i) as u32;
        let content = page(a + b, i);
        lemma_joined_page(a, b, i);
        lemma_block_numbers(addr, content, i as u32, n as u32, family_id, m);
        assert(block_at(whole, i)[m] == whole[j]);
        if i < na {
            lemma_block_numbers(addr, content, i as u32, stated_count(a.len()), family_id, m);
            assert(block_at(oa, i)[m] == oa[j]);
        } else {
            let k = i - na;
            assert(next == base_addr + a.len());
            assert((next + 256 * k) as u32 == addr);
            lemma_block_numbers(addr, content, k as u32, stated_count(b.len()), family_id, m);
            assert(block_at(ob, k)[m] == ob[j - oa.len()]);
        }
    }
    assert(whole =~= out);
}

} // verus!
