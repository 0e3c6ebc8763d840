//! Pages of 256 bytes and the pieces of program segments that fill them.

use std::collections::BTreeMap;
use vstd::prelude::*;
use vstd::std_specs::btree::increasing_seq;
use vstd::std_specs::cmp::OrdSpec;
use vstd::std_specs::iter::IteratorSpec;

verus! {

/// One entry of an ELF file's program header table.
#[derive(Debug, Clone, Copy, PartialEq, Eq, Structural)]
pub struct ElfSegment {
    pub p_type: u32,
    pub p_offset: u64,
    pub p_vaddr: u64,
    pub p_paddr: u64,
    pub p_filesz: u64,
    pub p_memsz: u64,
    pub p_flags: u32,
    pub p_align: u64,
}

/// A piece of a segment's file data and its place on a page.
#[derive(Debug, Clone, Copy, PartialEq, Eq, Structural)]
pub struct PageFragment {
    pub segment: ElfSegment,
    /// Where the piece starts in the segment's data.
    pub segment_offset: u64,
    /// Where the piece starts on the page.
    pub page_offset: u64,
    pub bytes: u64,
}

impl PageFragment {
    /// Whether the piece lies inside the page and inside the segment's file data.
    pub open spec fn fits(self) -> bool {
        &&& self.bytes > 0
        &&& self.page_offset + self.bytes <= 256
        &&& self.segment_offset + self.bytes <= self.segment.p_filesz
    }

    /// Whether two pieces of one page share a byte of it.
    pub open spec fn meets(self, other: PageFragment) -> bool {
        self.page_offset < other.page_offset + other.bytes && other.page_offset < self.page_offset
            + self.bytes
    }
}

/// A page's address and its pieces.
pub type PageEntry = (u64, Seq<PageFragment>);

/// The pieces of each page, by the page's address.
#[derive(Debug)]
pub struct PageMap {
    pub pages: BTreeMap<u64, Vec<PageFragment>>,
}

/// Whether all of `f` fit.
pub open spec fn all_fit(f: Seq<PageFragment>) -> bool {
    forall|k: int| 0 <= k < f.len() ==> (#[trigger] f[k]).fits()
}

/// The pieces that `m` lists for the page at `p`, none where it has no such page.
pub open spec fn pieces_at(m: Map<int, Seq<PageFragment>>, p: int) -> Seq<PageFragment> {
    if m.dom().contains(p) {
        m[p]
    } else {
        Seq::empty()
    }
}

impl PageMap {
    /// Every piece fits.
    pub open spec fn wf(self) -> bool {
        forall|addr: u64| #[trigger]
            self.pages@.contains_key(addr) ==> all_fit(self.pages@[addr]@)
    }
}

impl View for PageMap {
    type V = Map<int, Seq<PageFragment>>;

    open spec fn view(&self) -> Map<int, Seq<PageFragment>> {
        Map::new(
            |p: int| 0 <= p <= u64::MAX && self.pages@.contains_key(p as u64),
            |p: int| self.pages@[p as u64]@,
        )
    }
}

impl PageMap {
    /// A map without pages.
    pub fn new() -> (r: PageMap)
        ensures
            r.wf(),
            r@ == Map::<int, Seq<PageFragment>>::empty(),
    {
        let r = PageMap { pages: BTreeMap::new() };
        assert(r@ =~= Map::<int, Seq<PageFragment>>::empty());
        r
    }

    /// Whether there is no page.
    pub fn is_empty(&self) -> (r: bool)
        ensures
            r == !(exists|p: int| self@.dom().contains(p)),
    {
        let r: bool = self.pages.is_empty();
        proof {
            if r {
                assert forall|p: int| !#[trigger] self@.dom().contains(p) by {
                    assert(!self.pages@.dom().contains(p as u64));
                }
            } else {
                let addr = self.pages@.dom().choose();
                assert(self@.dom().contains(addr as int));
            }
        }
        r
    }

    /// The pieces of the page at `addr`.
    pub fn get(&self, addr: u64) -> (r: Option<&Vec<PageFragment>>)
        requires
            self.wf(),
        ensures
            (match r {
                Some(f) => {
                    &&& self@.dom().contains(addr as int)
                    &&& f@ == self@[addr as int]
                    &&& all_fit(f@)
                },
                None => !self@.dom().contains(addr as int),
            }),
    {
        self.pages.get(&addr)
    }

    /// Adds a piece behind those that the page at `addr` has, and the page where it is new.
    pub fn add(&mut self, addr: u64, fragment: PageFragment)
        requires
            old(self).wf(),
            fragment.fits(),
        ensures
            final(self).wf(),
            final(self)@ == old(self)@.insert(
                addr as int,
                pieces_at(old(self)@, addr as int).push(fragment),
            ),
    {
        let mut fragments: Vec<PageFragment> = match self.pages.remove(&addr) {
            Some(fragments) => fragments,
            None => Vec::new(),
        };
        assert(fragments@ =~= pieces_at(old(self)@, addr as int));
        fragments.push(fragment);
        self.pages.insert(addr, fragments);
        assert(self@ =~= old(self)@.insert(addr as int, fragments@));
    }

    /// Adds a page without pieces at `addr` unless there is a page already.
    pub fn add_empty(&mut self, addr: u64)
        requires
            old(self).wf(),
        ensures
            final(self).wf(),
            old(self)@.dom().contains(addr as int) ==> final(self)@ == old(self)@,
            !old(self)@.dom().contains(addr as int) ==> final(self)@ == old(self)@.insert(
                addr as int,
                Seq::<PageFragment>::empty(),
            ),
    {
        if !self.pages.contains_key(&addr) {
            let fragments: Vec<PageFragment> = Vec::new();
            self.pages.insert(addr, fragments);
            assert(self@ =~= old(self)@.insert(addr as int, fragments@));
        }
    }

    /// The addresses of all pages, in ascending order.
    pub fn addresses(&self) -> (r: Vec<u64>)
        ensures
            r@ == page_addresses(self@),
    {
        let mut r: Vec<u64> = Vec::new();
        let entries = self.pages.iter();
        let ghost all = entries.remaining();
        for entry in it: entries
            invariant
                it.seq() == all,
                r@.len() == it.index(),
                forall|i: int| 0 <= i < r@.len() ==> r@[i] == *all[i].0,
        {
            r.push(*entry.0);
        }
        proof {
            let keys = all.map_values(|kv: (&u64, &Vec<PageFragment>)| *kv.0);
            assert(r@ =~= keys);
            lemma_increasing(keys);
            law_page_addresses(self@);
            let want = page_addresses(self@);
            assert forall|x: u64| #[trigger] r@.contains(x) <==> want.contains(x) by {
                if r@.contains(x) {
                    let i = choose|i: int| 0 <= i < r@.len() && r@[i] == x;
                    assert(self.pages@.contains_key(*all[i].0));
                    assert(self@.dom().contains(x as int));
                }
                if want.contains(x) {
                    let i = choose|i: int| 0 <= i < want.len() && want[i] == x;
                    assert(self@.dom().contains(want[i] as int));
                    assert(self.pages@.contains_key(x));
                    assert(all.contains((&x, &self.pages@[x])));
                    let j = choose|j: int|
                        0 <= j < all.len() && all[j] == (&x, &self.pages@[x]);
                    assert(r@[j] == x);
                }
            }
            lemma_same_ascending(r@, want);
        }
        r
    }
}

// ---------------------------------------------------------------------------
// Pages in ascending order
// ---------------------------------------------------------------------------

/// The addresses below `k` at which `m` has a page, in ascending order.
pub open spec fn addresses_below(m: Map<int, Seq<PageFragment>>, k: nat) -> Seq<u64>
    decreases k,
{
    if k == 0 {
        Seq::empty()
    } else {
        let rest = addresses_below(m, (k - 1) as nat);
        if m.dom().contains(k - 1) {
            rest.push((k - 1) as u64)
        } else {
            rest
        }
    }
}

/// The 64-bit addresses at which `m` has a page, in ascending order.
pub open spec fn page_addresses(m: Map<int, Seq<PageFragment>>) -> Seq<u64> {
    addresses_below(m, 0x1_0000_0000_0000_0000)
}

/// The pages of `m` in ascending order of their 64-bit addresses.
pub open spec fn page_list(m: Map<int, Seq<PageFragment>>) -> Seq<PageEntry> {
    page_addresses(m).map_values(|a: u64| (a, m[a as int]))
}

proof fn lemma_addresses_below(m: Map<int, Seq<PageFragment>>, k: nat)
    requires
        k <= 0x1_0000_0000_0000_0000,
    ensures
        ({
            let a = addresses_below(m, k);
            &&& forall|i: int, j: int|
                0 <= i < j < a.len() ==> (#[trigger] a[i]) < (#[trigger] a[j])
            &&& forall|i: int|
                0 <= i < a.len() ==> (#[trigger] a[i]) < k && m.dom().contains(a[i] as int)
            &&& forall|p: int|
                #![trigger m.dom().contains(p)]
                0 <= p < k && m.dom().contains(p) ==> a.contains(p as u64)
        }),
    decreases k,
{
    if k > 0 {
        let rest = addresses_below(m, (k - 1) as nat);
        let a = addresses_below(m, k);
        lemma_addresses_below(m, (k - 1) as nat);
        assert forall|p: int|
            #![trigger m.dom().contains(p)]
            0 <= p < k && m.dom().contains(p) implies a.contains(p as u64) by {
            if p == k - 1 {
                assert(a[a.len() - 1] == p as u64);
            } else {
                assert(rest.contains(p as u64));
                let i = choose|i: int| 0 <= i < rest.len() && rest[i] == p as u64;
                assert(a[i] == p as u64);
            }
        }
    }
}

/// The listed addresses ascend strictly, `m` has a page at each of them, and every page
/// of `m` at a 64-bit address is listed.
pub proof fn law_page_addresses(m: Map<int, Seq<PageFragment>>)
    ensures
        ({
            let a = page_addresses(m);
            &&& forall|i: int, j: int|
                0 <= i < j < a.len() ==> (#[trigger] a[i]) < (#[trigger] a[j])
            &&& forall|i: int| 0 <= i < a.len() ==> m.dom().contains((#[trigger] a[i]) as int)
            &&& forall|p: int|
                #![trigger m.dom().contains(p)]
                0 <= p <= u64::MAX && m.dom().contains(p) ==> a.contains(p as u64)
        }),
{
    lemma_addresses_below(m, 0x1_0000_0000_0000_0000);
}

proof fn lemma_increasing(s: Seq<u64>)
    requires
        increasing_seq(s),
    ensures
        forall|i: int, j: int| 0 <= i < j < s.len() ==> (#[trigger] s[i]) < (#[trigger] s[j]),
{
    assert forall|i: int, j: int| 0 <= i < j < s.len() implies (#[trigger] s[i]) < (
    #[trigger] s[j]) by {
        assert(s[i].cmp_spec(&s[j]) is Less);
    }
}

/// Two strictly ascending lists with the same members are the same list.
proof fn lemma_same_ascending(a: Seq<u64>, b: Seq<u64>)
    requires
        forall|i: int, j: int| 0 <= i < j < a.len() ==> (#[trigger] a[i]) < (#[trigger] a[j]),
        forall|i: int, j: int| 0 <= i < j < b.len() ==> (#[trigger] b[i]) < (#[trigger] b[j]),
        forall|x: u64| #[trigger] a.contains(x) <==> b.contains(x),
    ensures
        a == b,
    decreases a.len(),
{
    if a.len() == 0 {
        if b.len() > 0 {
            assert(b.contains(b[0]));
            assert(a.contains(b[0]));
        }
        assert(a =~= b);
    } else {
        assert(a.contains(a.last()));
        assert(b.contains(a.last()));
        let ib = choose|i: int| 0 <= i < b.len() && b[i] == a.last();
        assert(b.contains(b.last()));
        assert(a.contains(b.last()));
        let ia = choose|i: int| 0 <= i < a.len() && a[i] == b.last();
        assert(a[ia] <= a.last());
        assert(b[ib] <= b.last());
        assert(a.last() == b.last());
        let a0 = a.drop_last();
        let b0 = b.drop_last();
        assert forall|x: u64| #[trigger] a0.contains(x) <==> b0.contains(x) by {
            if a0.contains(x) {
                let i = choose|i: int| 0 <= i < a0.len() && a0[i] == x;
                assert(a[i] == x);
                assert(a.contains(x));
                assert(b.contains(x));
                let j = choose|j: int| 0 <= j < b.len() && b[j] == x;
                assert(j != b.len() - 1);
                assert(b0[j] == x);
            }
            if b0.contains(x) {
                let i = choose|i: int| 0 <= i < b0.len() && b0[i] == x;
                assert(b[i] == x);
                assert(b.contains(x));
                assert(a.contains(x));
                let j = choose|j: int| 0 <= j < a.len() && a[j] == x;
                assert(j != a.len() - 1);
                assert(a0[j] == x);
            }
        }
        lemma_same_ascending(a0, b0);
        assert(a =~= a0.push(a.last()));
        assert(b =~= b0.push(b.last()));
    }
}

} // verus!
