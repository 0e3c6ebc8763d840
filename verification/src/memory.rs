//! Byte-addressed memory as a mathematical function, and data laid over it.

use vstd::prelude::*;

verus! {

/// The contents of a memory: the byte at each address.
pub type Memory = spec_fn(int) -> u8;

/// A run of bytes and the address at which it starts.
pub type Region = (u32, Seq<u8>);

/// `mem` with `data` written from address `addr` on.
pub open spec fn overlay(mem: Memory, addr: int, data: Seq<u8>) -> Memory {
    |a: int|
        if addr <= a < addr + data.len() {
            data[a - addr]
        } else {
            mem(a)
        }
}

/// `mem` with every region written in turn, the first one first.
pub open spec fn overlay_all(mem: Memory, regions: Seq<Region>) -> Memory
    decreases regions.len(),
{
    if regions.len() == 0 {
        mem
    } else {
        overlay(
            overlay_all(mem, regions.drop_last()),
            regions.last().0 as int,
            regions.last().1,
        )
    }
}

/// What stands in `mem` from address `addr` on, `len` bytes long.
pub open spec fn contents(mem: Memory, addr: int, len: nat) -> Seq<u8> {
    Seq::new(len, |i: int| mem(addr + i))
}

/// Address and data of each of the regions `v`.
pub open spec fn region_views(v: Seq<(u32, Vec<u8>)>) -> Seq<Region> {
    v.map_values(|r: (u32, Vec<u8>)| (r.0, r.1@))
}

/// Writing a region and reading it back gives its data.
pub proof fn law_read_back(mem: Memory, addr: int, data: Seq<u8>)
    ensures
        contents(overlay(mem, addr, data), addr, data.len()) == data,
{
    assert(contents(overlay(mem, addr, data), addr, data.len()) =~= data);
}

/// Two adjacent pieces written one after the other are one piece.
pub proof fn lemma_overlay_joins(mem: Memory, addr: int, first: Seq<u8>, second: Seq<u8>)
    ensures
        overlay(overlay(mem, addr, first), addr + first.len(), second) == overlay(
            mem,
            addr,
            first + second,
        ),
{
    assert(overlay(overlay(mem, addr, first), addr + first.len(), second) =~= overlay(
        mem,
        addr,
        first + second,
    ));
}

/// Writing two lists of regions one after the other is writing the joined list.
pub proof fn lemma_overlay_all_concat(mem: Memory, a: Seq<Region>, b: Seq<Region>)
    ensures
        overlay_all(mem, a + b) == overlay_all(overlay_all(mem, a), b),
    decreases b.len(),
{
    if b.len() == 0 {
        assert(a + b =~= a);
    } else {
        lemma_overlay_all_concat(mem, a, b.drop_last());
        assert((a + b).drop_last() =~= a + b.drop_last());
        assert((a + b).last() == b.last());
    }
}

/// What regions leave at an address that none of them covers.
pub proof fn law_uncovered_byte_stays(mem: Memory, regions: Seq<Region>, a: int)
    requires
        forall|i: int|
            0 <= i < regions.len() ==> !((#[trigger] regions[i]).0 <= a < regions[i].0
                + regions[i].1.len()),
    ensures
        overlay_all(mem, regions)(a) == mem(a),
    decreases regions.len(),
{
    if regions.len() > 0 {
        let rest = regions.drop_last();
        assert forall|i: int| 0 <= i < rest.len() implies !((#[trigger] rest[i]).0 <= a < rest[i].0
            + rest[i].1.len()) by {
            assert(rest[i] == regions[i]);
        }
        law_uncovered_byte_stays(mem, rest, a);
        assert(regions.last() == regions[regions.len() - 1]);
    }
}

/// What regions leave at an address that one of them covers and no later one does.
pub proof fn law_covered_byte(mem: Memory, regions: Seq<Region>, k: int, a: int)
    requires
        0 <= k < regions.len(),
        regions[k].0 <= a < regions[k].0 + regions[k].1.len(),
        forall|i: int|
            k < i < regions.len() ==> !((#[trigger] regions[i]).0 <= a < regions[i].0
                + regions[i].1.len()),
    ensures
        overlay_all(mem, regions)(a) == regions[k].1[a - regions[k].0],
    decreases regions.len(),
{
    let rest = regions.drop_last();
    assert(regions.last() == regions[regions.len() - 1]);
    if k < regions.len() - 1 {
        assert(rest[k] == regions[k]);
        assert forall|i: int| k < i < rest.len() implies !((#[trigger] rest[i]).0 <= a < rest[i].0
            + rest[i].1.len()) by {
            assert(rest[i] == regions[i]);
        }
        law_covered_byte(mem, rest, k, a);
    }
}

} // verus!
