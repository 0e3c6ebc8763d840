//! What UF2 files and merged regions are, byte by byte.

use vstd::prelude::*;

use crate::le::{law_words_are_little_endian, spells, word_at};
use crate::memory::{law_covered_byte, law_uncovered_byte_stays, overlay_all, Memory, Region};
use crate::uf2::{
    block, block_at, block_error, block_list, block_region, block_regions, by_address, data_field,
    first_block_error, insert_region, law_block_fields, law_image_blocks, law_regions_keep_blocks,
    lemma_by_address_keeps, lemma_insert_region_place, lengths_fit, merge_complaint, merge_error, page, page_count,
    pages_addressable, region_end, stated_count, uf2_error, uf2_image, MergeError, Uf2Error,
};

verus! {

// ---------------------------------------------------------------------------
// Writing
// ---------------------------------------------------------------------------

/// A block has 512 bytes: eight words (two magic words, the flag of a family, the address,
/// 256 for the payload's size, the block's number, the block count and the family), 476
/// bytes that hold at most 256 bytes of payload and zeros, and a last magic word.
pub proof fn law_block_layout(
    target_addr: u32,
    payload: Seq<u8>,
    block_no: u32,
    num_blocks: u32,
    family_id: u32,
)
    ensures
        ({
            let b = block(target_addr, payload, block_no, num_blocks, family_id);
            &&& b.len() == 512
            &&& spells(b, 0, 0x0A32_4655)
            &&& spells(b, 4, 0x9E5D_5157)
            &&& spells(b, 8, 0x2000)
            &&& spells(b, 12, target_addr as int)
            &&& spells(b, 16, 256)
            &&& spells(b, 20, block_no as int)
            &&& spells(b, 24, num_blocks as int)
            &&& spells(b, 28, family_id as int)
            &&& spells(b, 508, 0x0AB1_6F30)
            &&& forall|j: int|
                0 <= j < 476 ==> #[trigger] b[32 + j] == (if j < 256 && j < payload.len() {
                    payload[j]
                } else {
                    0u8
                })
        }),
{
    let b = block(target_addr, payload, block_no, num_blocks, family_id);
    law_block_fields(target_addr, payload, block_no, num_blocks, family_id);
    law_words_are_little_endian(b, 0, 0);
    law_words_are_little_endian(b, 4, 0);
    law_words_are_little_endian(b, 8, 0);
    law_words_are_little_endian(b, 12, 0);
    law_words_are_little_endian(b, 16, 0);
    law_words_are_little_endian(b, 20, 0);
    law_words_are_little_endian(b, 24, 0);
    law_words_are_little_endian(b, 28, 0);
    law_words_are_little_endian(b, 508, 0);
    assert forall|j: int| 0 <= j < 476 implies #[trigger] b[32 + j] == (if j < 256 && j
        < payload.len() {
        payload[j]
    } else {
        0u8
    }) by {
        assert(b.subrange(32, 508)[j] == b[32 + j]);
        assert(data_field(payload)[j] == b[32 + j]);
    }
}

/// The words of block `i` of a file: what they say besides the magic words.
pub open spec fn block_says(
    file: Seq<u8>,
    i: int,
    addr: int,
    number: int,
    count: int,
    family: int,
) -> bool {
    &&& spells(file, 512 * i, 0x0A32_4655)
    &&& spells(file, 512 * i + 4, 0x9E5D_5157)
    &&& spells(file, 512 * i + 8, 0x2000)
    &&& spells(file, 512 * i + 12, addr)
    &&& spells(file, 512 * i + 16, 256)
    &&& spells(file, 512 * i + 20, number)
    &&& spells(file, 512 * i + 24, count)
    &&& spells(file, 512 * i + 28, family)
    &&& spells(file, 512 * i + 508, 0x0AB1_6F30)
}

/// A binary that is converted takes one block for every 256 bytes begun.  Block `i`
/// carries bytes `256 * i` to `256 * i + 255` for the address that lies as far behind the
/// base address, zeros behind the binary's end, its own number and the count of them all.
pub proof fn law_converted_binary(data: Seq<u8>, base_addr: u32, family_id: u32)
    requires
        data.len() <= u32::MAX,
        pages_addressable(data.len(), base_addr),
    ensures
        ({
            let file = uf2_image(data, base_addr, family_id);
            let n = file.len() / 512;
            &&& file.len() % 512 == 0
            &&& 256 * n - 256 < data.len() <= 256 * n
            &&& forall|i: int|
                0 <= i < n ==> #[trigger] block_says(
                    file,
                    i,
                    base_addr + 256 * i,
                    i,
                    n as int,
                    family_id as int,
                )
            &&& forall|i: int, j: int|
                0 <= i < n && 0 <= j < 476 ==> #[trigger] file[512 * i + (32 + j)] == (if j < 256
                    && 256 * i + j < data.len() {
                    data[256 * i + j]
                } else {
                    0u8
                })
        }),
{
    let file = uf2_image(data, base_addr, family_id);
    let count = stated_count(data.len());
    let n = page_count(data.len());
    law_image_blocks(data, base_addr, count, family_id, n);
    assert(count == n);
    assert(file.len() / 512 == n);
    assert forall|i: int| 0 <= i < n implies #[trigger] block_says(
        file,
        i,
        base_addr + 256 * i,
        i,
        n as int,
        family_id as int,
    ) by {
        let b = block_at(file, i);
        let addr = (base_addr + 256 * i) as u32;
        law_block_layout(addr, page(data, i), i as u32, count, family_id);
        assert(b == block(addr, page(data, i), i as u32, count, family_id));
        lemma_block_spells(file, i);
    }
    assert forall|i: int, j: int| 0 <= i < n && 0 <= j < 476 implies #[trigger] file[512 * i + (32
        + j)] == (if j < 256 && 256 * i + j < data.len() {
        data[256 * i + j]
    } else {
        0u8
    }) by {
        let b = block_at(file, i);
        let addr = (base_addr + 256 * i) as u32;
        law_block_layout(addr, page(data, i), i as u32, count, family_id);
        assert(b == block(addr, page(data, i), i as u32, count, family_id));
        assert(b[32 + j] == file[512 * i + (32 + j)]);
    }
}

proof fn lemma_block_spells(file: Seq<u8>, i: int)
    requires
        0 <= i,
        512 * i + 512 <= file.len(),
    ensures
        forall|at: int, x: int|
            0 <= at <= 508 ==> #[trigger] spells(block_at(file, i), at, x) == spells(
                file,
                512 * i + at,
                x,
            ),
{
    let b = block_at(file, i);
    assert forall|at: int, x: int| 0 <= at <= 508 implies #[trigger] spells(b, at, x) == spells(
        file,
        512 * i + at,
        x,
    ) by {
        assert(b[at] == file[512 * i + at]);
        assert(b[at + 1] == file[512 * i + at + 1]);
        assert(b[at + 2] == file[512 * i + at + 2]);
        assert(b[at + 3] == file[512 * i + at + 3]);
    }
}

/// A binary can be converted where each of its pages starts at a 32-bit address.
pub proof fn law_convertible_binary(len: nat, base_addr: u32)
    ensures
        pages_addressable(len, base_addr) <==> (len > 0 ==> base_addr + (len - 1) - (len - 1) % 256
            <= 0xFFFF_FFFF),
{
}

// ---------------------------------------------------------------------------
// Reading
// ---------------------------------------------------------------------------

/// Whether block `i` of a file has its three magic words.
pub open spec fn has_magic(file: Seq<u8>, i: int) -> bool {
    &&& spells(file, 512 * i, 0x0A32_4655)
    &&& spells(file, 512 * i + 4, 0x9E5D_5157)
    &&& spells(file, 512 * i + 508, 0x0AB1_6F30)
}

/// Whether block `i` of a file carries `size` bytes for address `addr`.
pub open spec fn carries(file: Seq<u8>, i: int, addr: int, size: int) -> bool {
    spells(file, 512 * i + 12, addr) && spells(file, 512 * i + 16, size)
}

proof fn lemma_block_reads(file: Seq<u8>, i: int)
    requires
        0 <= i,
        512 * i + 512 <= file.len(),
    ensures
        has_magic(file, i) <==> !(block_error(file, i) is Some && block_error(file, i)->0
            is BadMagic),
        block_error(file, i) is Some && block_error(file, i)->0 is BadMagic ==> block_error(file, i)
            == Some(Uf2Error::BadMagic { block: i as usize }),
        has_magic(file, i) ==> (forall|size: u32| #[trigger]
            spells(file, 512 * i + 16, size as int) ==> block_error(file, i) == (if size > 476 {
                Some(Uf2Error::BadPayloadSize { block: i as usize, size })
            } else {
                None
            })),
        exists|size: u32| #[trigger] spells(file, 512 * i + 16, size as int),
        forall|addr: u32, size: u32| #[trigger]
            carries(file, i, addr as int, size as int) ==> block_region(file, i) == (
                addr,
                block_at(file, i).subrange(32, 32 + size),
            ),
        carries(file, i, block_region(file, i).0 as int, word_at(block_at(file, i), 16) as int),
{
    let b = block_at(file, i);
    lemma_block_spells(file, i);
    law_words_are_little_endian(b, 0, 0);
    law_words_are_little_endian(b, 4, 0);
    law_words_are_little_endian(b, 12, 0);
    law_words_are_little_endian(b, 16, 0);
    law_words_are_little_endian(b, 508, 0);
    assert(spells(b, 0, word_at(b, 0) as int));
    assert(spells(b, 4, word_at(b, 4) as int));
    assert(spells(b, 12, word_at(b, 12) as int));
    assert(spells(b, 16, word_at(b, 16) as int));
    assert(spells(b, 508, word_at(b, 508) as int));
    assert(spells(b, 0, 0x0A32_4655) == spells(file, 512 * i, 0x0A32_4655));
    assert(spells(b, 4, 0x9E5D_5157) == spells(file, 512 * i + 4, 0x9E5D_5157));
    assert(spells(b, 508, 0x0AB1_6F30) == spells(file, 512 * i + 508, 0x0AB1_6F30));
    assert(spells(file, 512 * i + 16, word_at(b, 16) as int));
}

/// A file is a UF2 file where it is made of whole blocks, each with its three magic words
/// and with no more payload than its 476 bytes of data.
#[verifier::rlimit(40)]
pub proof fn law_valid_files(file: Seq<u8>)
    ensures
        uf2_error(file) is None <==> file.len() % 512 == 0 && (forall|i: int|
            0 <= i < file.len() / 512 ==> #[trigger] has_magic(file, i) && (exists|size: int|
                size <= 476 && #[trigger] spells(file, 512 * i + 16, size))),
{
    let n = file.len() / 512;
    if file.len() % 512 == 0 {
        lemma_no_block_error(file, n);
        assert forall|i: int| 0 <= i < n implies (block_error(file, i) is None <==>
            #[trigger] has_magic(file, i) && (exists|size: int|
            size <= 476 && #[trigger] spells(file, 512 * i + 16, size))) by {
            lemma_block_reads(file, i);
            let size = choose|size: u32| #[trigger] spells(file, 512 * i + 16, size as int);
            assert(spells(file, 512 * i + 16, size as int));
        }
        if first_block_error(file, n) is None {
            assert forall|i: int| 0 <= i < n implies #[trigger] has_magic(file, i) && (exists|
                size: int,
            | size <= 476 && #[trigger] spells(file, 512 * i + 16, size)) by {
                assert(block_error(file, i) is None);
            }
        }
        if forall|i: int|
            0 <= i < n ==> #[trigger] has_magic(file, i) && (exists|size: int|
                size <= 476 && #[trigger] spells(file, 512 * i + 16, size)) {
            assert forall|i: int| 0 <= i < n implies #[trigger] block_error(file, i) is None by {
                assert(has_magic(file, i));
            }
        }
    }
}

proof fn lemma_no_block_error(file: Seq<u8>, k: nat)
    ensures
        first_block_error(file, k) is None <==> (forall|i: int|
            0 <= i < k ==> #[trigger] block_error(file, i) is None),
    decreases k,
{
    if k > 0 {
        lemma_no_block_error(file, (k - 1) as nat);
        if first_block_error(file, k) is None {
            assert forall|i: int| 0 <= i < k implies #[trigger] block_error(file, i) is None by {}
        }
    }
}

proof fn lemma_first_error(file: Seq<u8>, i: int, k: nat)
    requires
        0 <= i < k,
        block_error(file, i) is Some,
        forall|m: int| 0 <= m < i ==> #[trigger] block_error(file, m) is None,
    ensures
        first_block_error(file, k) == block_error(file, i),
    decreases k,
{
    if k == i + 1 {
        lemma_no_block_error(file, i as nat);
    } else {
        lemma_first_error(file, i, (k - 1) as nat);
    }
}

/// A file that is not made of whole blocks is refused with its length.  Of the faulty
/// blocks the first one is named, with its size where the magic words are in order.
pub proof fn law_refused_files(file: Seq<u8>, i: int, size: u32)
    requires
        file.len() <= usize::MAX,
        file.len() % 512 == 0 ==> {
            &&& 0 <= i < file.len() / 512
            &&& spells(file, 512 * i + 16, size as int)
            &&& !has_magic(file, i) || size > 476
            &&& forall|m: int|
                0 <= m < i ==> #[trigger] has_magic(file, m) && (exists|z: int|
                    z <= 476 && #[trigger] spells(file, 512 * m + 16, z))
        },
    ensures
        file.len() % 512 != 0 ==> uf2_error(file) == Some(
            Uf2Error::BadLength { len: file.len() as usize },
        ),
        file.len() % 512 == 0 && !has_magic(file, i) ==> uf2_error(file) == Some(
            Uf2Error::BadMagic { block: i as usize },
        ),
        file.len() % 512 == 0 && has_magic(file, i) ==> uf2_error(file) == Some(
            Uf2Error::BadPayloadSize { block: i as usize, size },
        ),
{
    if file.len() % 512 == 0 {
        lemma_block_reads(file, i);
        assert(spells(file, 512 * i + 16, size as int));
        assert forall|m: int| 0 <= m < i implies #[trigger] block_error(file, m) is None by {
            lemma_block_reads(file, m);
            assert(has_magic(file, m));
            let z = choose|z: int| z <= 476 && #[trigger] spells(file, 512 * m + 16, z);
            assert(spells(file, 512 * m + 16, (z as u32) as int));
        }
        lemma_first_error(file, i, file.len() / 512);
    }
}

/// Writing the regions of a valid file leaves, at each address, the byte of the last block
/// that carries one for it; an address that no block carries a byte for keeps its byte.
pub proof fn law_file_in_memory(mem: Memory, file: Seq<u8>, a: int)
    requires
        uf2_error(file) is None,
    ensures
        forall|i: int, addr: u32, size: u32|
            0 <= i < file.len() / 512 && #[trigger] carries(file, i, addr as int, size as int)
                && addr <= a < addr + size && (forall|m: int, addr2: u32, size2: u32|
                i < m < file.len() / 512 && #[trigger] carries(
                    file,
                    m,
                    addr2 as int,
                    size2 as int,
                ) ==> !(addr2 <= a < addr2 + size2)) ==> overlay_all(
                mem,
                block_regions(file, file.len() / 512),
            )(a) == file[512 * i + 32 + (a - addr)],
        (forall|m: int, addr: u32, size: u32|
            0 <= m < file.len() / 512 && #[trigger] carries(file, m, addr as int, size as int)
                ==> !(addr <= a < addr + size)) ==> overlay_all(
            mem,
            block_regions(file, file.len() / 512),
        )(a) == mem(a),
{
    let n = file.len() / 512;
    let list = block_list(file, n);
    law_regions_keep_blocks(mem, file, n);
    lemma_no_block_error(file, n);
    assert forall|m: int| 0 <= m < n implies ({
        let (addr, bytes) = #[trigger] list[m];
        &&& bytes.len() <= 476
        &&& carries(file, m, addr as int, bytes.len() as int)
    }) by {
        lemma_block_reads(file, m);
        assert(block_error(file, m) is None);
        assert(list[m] == block_region(file, m));
    }
    assert forall|i: int, addr: u32, size: u32|
        0 <= i < n && #[trigger] carries(file, i, addr as int, size as int) && addr <= a < addr
            + size && (forall|m: int, addr2: u32, size2: u32|
            i < m < n && #[trigger] carries(file, m, addr2 as int, size2 as int) ==> !(addr2 <= a
                < addr2 + size2)) implies overlay_all(mem, block_regions(file, n))(a) == file[512
        * i + 32 + (a - addr)] by {
        lemma_block_reads(file, i);
        assert(block_error(file, i) is None);
        assert(list[i] == block_region(file, i));
        assert forall|m: int| i < m < list.len() implies !((#[trigger] list[m]).0 <= a < list[m].0
            + list[m].1.len()) by {
            let (addr2, bytes) = list[m];
            assert(carries(file, m, addr2 as int, (bytes.len() as u32) as int));
        }
        law_covered_byte(mem, list, i, a);
        assert(list[i].1 == block_at(file, i).subrange(32, 32 + size));
        assert(size <= 476);
        assert(list[i].1[a - addr] == file[512 * i + 32 + (a - addr)]);
    }
    if forall|m: int, addr: u32, size: u32|
        0 <= m < n && #[trigger] carries(file, m, addr as int, size as int) ==> !(addr <= a < addr
            + size) {
        assert forall|m: int| 0 <= m < list.len() implies !((#[trigger] list[m]).0 <= a < list[m].0
            + list[m].1.len()) by {
            let (addr2, bytes) = list[m];
            assert(carries(file, m, addr2 as int, (bytes.len() as u32) as int));
        }
        law_uncovered_byte_stays(mem, list, a);
    }
}

/// The regions of a file are as long as can be: none starts where the one before it ends.
pub proof fn law_regions_are_joined(file: Seq<u8>, k: nat)
    ensures
        forall|i: int|
            0 < i < block_regions(file, k).len() ==> block_regions(file, k)[i - 1].0
                + block_regions(file, k)[i - 1].1.len() != (#[trigger] block_regions(file, k)[i]).0,
        block_regions(file, k).len() <= k,
        k > 0 ==> block_regions(file, k).len() > 0,
    decreases k,
{
    if k > 0 {
        law_regions_are_joined(file, (k - 1) as nat);
        let rest = block_regions(file, (k - 1) as nat);
        let all = block_regions(file, k);
        assert forall|i: int| 0 < i < all.len() implies all[i - 1].0 + all[i - 1].1.len() != (
        #[trigger] all[i]).0 by {
            if i < rest.len() {
                assert(rest[i - 1].0 + rest[i - 1].1.len() != rest[i].0);
            }
        }
    }
}

// ---------------------------------------------------------------------------
// Merging
// ---------------------------------------------------------------------------

/// Whether a region ends at or before the start of another one.
pub open spec fn ends_before(a: Region, b: Region) -> bool {
    a.0 + a.1.len() <= b.0
}

proof fn lemma_inserted(t: Seq<Region>, r: Region)
    requires
        forall|k: int| 0 < k < t.len() ==> t[k - 1].0 <= (#[trigger] t[k]).0,
    ensures
        insert_region(t, r).len() == t.len() + 1,
        forall|k: int|
            0 < k < t.len() + 1 ==> insert_region(t, r)[k - 1].0 <= (#[trigger] insert_region(
                t,
                r,
            )[k]).0,
        t.len() > 0 ==> insert_region(t, r).last().0 >= t.last().0,
        t.len() > 0 && t.last().0 > r.0 ==> insert_region(t, r).last() == t.last(),
    decreases t.len(),
{
    if t.len() > 0 && t.last().0 > r.0 {
        let t0 = t.drop_last();
        assert forall|k: int| 0 < k < t0.len() implies t0[k - 1].0 <= (#[trigger] t0[k]).0 by {
            assert(t[k - 1].0 <= t[k].0);
        }
        lemma_inserted(t0, r);
        let u = insert_region(t, r);
        let u0 = insert_region(t0, r);
        assert(u == u0.push(t.last()));
        assert forall|k: int| 0 < k < t.len() + 1 implies u[k - 1].0 <= (#[trigger] u[k]).0 by {
            if k < t.len() {
                assert(u0[k - 1].0 <= u0[k].0);
            } else if t0.len() > 0 {
                assert(t[t.len() - 2].0 <= t[t.len() - 1].0);
                if t0.last().0 > r.0 {
                    assert(u0.last() == t0.last());
                } else {
                    assert(u0 == t0.push(r));
                }
            } else {
                assert(u0 == t0.push(r));
            }
        }
    }
}

/// Ordered regions are ordered by address.
pub proof fn law_ordered_by_address(regions: Seq<Region>)
    ensures
        by_address(regions).len() == regions.len(),
        forall|k: int|
            0 < k < regions.len() ==> by_address(regions)[k - 1].0 <= (#[trigger] by_address(
                regions,
            )[k]).0,
    decreases regions.len(),
{
    lemma_by_address_keeps(regions);
    if regions.len() > 0 {
        let rest = regions.drop_last();
        law_ordered_by_address(rest);
        lemma_inserted(by_address(rest), regions.last());
    }
}

/// Which two of the regions stand at two places of the ordered ones.
proof fn lemma_two_origins(regions: Seq<Region>, p: int, q: int) -> (r: (int, int))
    requires
        0 <= p < regions.len(),
        0 <= q < regions.len(),
        p != q,
    ensures
        r.0 != r.1,
        0 <= r.0 < regions.len(),
        0 <= r.1 < regions.len(),
        regions[r.0] == by_address(regions)[p],
        regions[r.1] == by_address(regions)[q],
    decreases regions.len(),
{
    let rest = regions.drop_last();
    let t = by_address(rest);
    lemma_by_address_keeps(rest);
    let pos = lemma_insert_region_place(t, regions.last());
    let last = regions.len() - 1;
    let p0 = if p < pos {
        p
    } else {
        p - 1
    };
    let q0 = if q < pos {
        q
    } else {
        q - 1
    };
    if p == pos {
        (last, lemma_origin(rest, q0))
    } else if q == pos {
        (lemma_origin(rest, p0), last)
    } else {
        lemma_two_origins(rest, p0, q0)
    }
}

proof fn lemma_origin(regions: Seq<Region>, p: int) -> (i: int)
    requires
        0 <= p < regions.len(),
    ensures
        0 <= i < regions.len(),
        regions[i] == by_address(regions)[p],
{
    lemma_by_address_keeps(regions);
    assert(by_address(regions).contains(by_address(regions)[p]));
    assert(regions.contains(by_address(regions)[p]));
    choose|i: int| 0 <= i < regions.len() && regions[i] == by_address(regions)[p]
}

proof fn lemma_complaint_free(s: Seq<Region>, i: int)
    requires
        0 <= i < s.len(),
        forall|k: int| i <= k < s.len() ==> region_end(#[trigger] s[k]) <= u32::MAX,
        forall|k: int| i < k < s.len() ==> region_end(s[k - 1]) <= (#[trigger] s[k]).0,
    ensures
        merge_complaint(s, i) is None,
    decreases s.len() - i,
{
    if i + 1 < s.len() {
        assert(region_end(s[i]) <= s[i + 1].0);
        lemma_complaint_free(s, i + 1);
    }
}

/// Regions that hold something, end within the address space and keep clear of each other
/// are merged.
pub proof fn law_merge_succeeds(regions: Seq<Region>)
    requires
        regions.len() > 0,
        forall|i: int|
            0 <= i < regions.len() ==> (#[trigger] regions[i]).1.len() > 0 && regions[i].0
                + regions[i].1.len() <= u32::MAX,
        forall|i: int, j: int|
            0 <= i < regions.len() && 0 <= j < regions.len() && i != j ==> ends_before(
                #[trigger] regions[i],
                #[trigger] regions[j],
            ) || ends_before(regions[j], regions[i]),
    ensures
        merge_error(regions) is None,
{
    let s = by_address(regions);
    law_ordered_by_address(regions);
    assert forall|k: int| 0 <= k < s.len() implies region_end(#[trigger] s[k]) <= u32::MAX by {
        let i = lemma_origin(regions, k);
        assert(regions[i] == s[k]);
    }
    assert forall|k: int| 0 < k < s.len() implies region_end(s[k - 1]) <= (#[trigger] s[k]).0 by {
        let (i, j) = lemma_two_origins(regions, k - 1, k);
        assert(regions[i] == s[k - 1] && regions[j] == s[k]);
        assert(s[k - 1].0 <= s[k].0);
    }
    lemma_complaint_free(s, 0);
}

/// A complaint names its cause: regions that are not there, one that ends beyond the
/// address space, or one that starts before another one, of an address not above its own,
/// has ended.
pub proof fn law_merge_complaints(regions: Seq<Region>)
    requires
        lengths_fit(regions),
    ensures
        merge_error(regions) == Some(MergeError::NoRegions) <==> regions.len() == 0,
        merge_error(regions) matches Some(MergeError::AddressOverflow { addr }) ==> exists|i: int|
            0 <= i < regions.len() && (#[trigger] regions[i]).0 == addr && addr
                + regions[i].1.len() > u32::MAX,
        merge_error(regions) == Some(MergeError::LastRegionOverflow) ==> exists|i: int|
            0 <= i < regions.len() && (#[trigger] regions[i]).0 + regions[i].1.len() > u32::MAX
                && forall|j: int|
                0 <= j < regions.len() ==> (#[trigger] regions[j]).0 <= regions[i].0,
        merge_error(regions) matches Some(MergeError::Overlap { addr_a, end_a, addr_b }) ==> addr_a
            <= addr_b < end_a && exists|i: int, j: int|
            0 <= i < regions.len() && 0 <= j < regions.len() && i != j
                && (#[trigger] regions[i]).0 == addr_a && addr_a + regions[i].1.len() == end_a
                && (#[trigger] regions[j]).0 == addr_b,
{
    if regions.len() > 0 {
        let s = by_address(regions);
        law_ordered_by_address(regions);
        lemma_complaint_place(s, 0);
        match merge_complaint(s, 0) {
            None => {},
            Some(MergeError::NoRegions) => {},
            Some(MergeError::AddressOverflow { addr }) => {
                let k = choose|k: int|
                    0 <= k < s.len() && (#[trigger] s[k]).0 == addr && region_end(s[k]) > u32::MAX;
                let i = lemma_origin(regions, k);
                assert(regions[i] == s[k]);
            },
            Some(MergeError::LastRegionOverflow) => {
                let k = s.len() - 1;
                let i = lemma_origin(regions, k);
                assert(regions[i] == s[k]);
                assert forall|j: int| 0 <= j < regions.len() implies (#[trigger] regions[j]).0
                    <= regions[i].0 by {
                    lemma_by_address_keeps(regions);
                    assert(regions.contains(regions[j]));
                    assert(s.contains(regions[j]));
                    let m = choose|m: int| 0 <= m < s.len() && s[m] == regions[j];
                    lemma_ascending(s, m, k);
                }
            },
            Some(MergeError::Overlap { addr_a, end_a, addr_b }) => {
                let k = choose|k: int|
                    0 < k < s.len() && s[k - 1].0 == addr_a && region_end(s[k - 1]) == end_a && (
                    #[trigger] s[k]).0 == addr_b && addr_b < end_a;
                let (i, j) = lemma_two_origins(regions, k - 1, k);
                assert(regions[i] == s[k - 1] && regions[j] == s[k]);
                assert(s[k - 1].0 <= s[k].0);
            },
        }
    }
}

proof fn lemma_ascending(s: Seq<Region>, m: int, k: int)
    requires
        0 <= m <= k < s.len(),
        forall|i: int| 0 < i < s.len() ==> s[i - 1].0 <= (#[trigger] s[i]).0,
    ensures
        s[m].0 <= s[k].0,
    decreases k - m,
{
    if m < k {
        lemma_ascending(s, m, k - 1);
        assert(s[k - 1].0 <= s[k].0);
    }
}

proof fn lemma_complaint_place(s: Seq<Region>, i: int)
    requires
        0 <= i < s.len(),
    ensures
        !(merge_complaint(s, i) == Some(MergeError::NoRegions)),
        merge_complaint(s, i) matches Some(MergeError::AddressOverflow { addr }) ==> exists|k: int|
            i <= k < s.len() && (#[trigger] s[k]).0 == addr && region_end(s[k]) > u32::MAX,
        merge_complaint(s, i) == Some(MergeError::LastRegionOverflow) ==> region_end(s.last())
            > u32::MAX,
        merge_complaint(s, i) matches Some(MergeError::Overlap { addr_a, end_a, addr_b })
            ==> exists|k: int|
            i < k < s.len() && s[k - 1].0 == addr_a && region_end(s[k - 1]) == end_a && (
            #[trigger] s[k]).0 == addr_b && addr_b < end_a,
    decreases s.len() - i,
{
    if i + 1 < s.len() {
        if region_end(s[i]) > u32::MAX {
            assert(s[i].0 == s[i].0);
        } else if s[i + 1].0 < region_end(s[i]) {
            assert(s[i + 1].0 == s[i + 1].0);
        } else {
            lemma_complaint_place(s, i + 1);
        }
    }
}

} // verus!
