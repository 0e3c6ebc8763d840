//! Little-endian 32-bit words and plain byte copies.

use vstd::prelude::*;

verus! {

/// The byte of weight `256^i` in `x`, for `i < 4`.
pub open spec fn byte_of(x: u32, i: int) -> u8 {
    if i == 0 {
        (x % 256) as u8
    } else if i == 1 {
        ((x / 256) % 256) as u8
    } else if i == 2 {
        ((x / 65536) % 256) as u8
    } else {
        (x / 16777216) as u8
    }
}

/// The four bytes of `x`, least significant first.
pub open spec fn le32(x: u32) -> Seq<u8> {
    seq![byte_of(x, 0), byte_of(x, 1), byte_of(x, 2), byte_of(x, 3)]
}

/// The word whose little-endian bytes stand at `s[at]` to `s[at + 3]`.
pub open spec fn word_at(s: Seq<u8>, at: int) -> u32 {
    (s[at] + 256 * s[at + 1] + 65536 * s[at + 2] + 16777216 * s[at + 3]) as u32
}

/// Reading a word back from its four bytes gives the word, wherever the bytes stand.
pub proof fn law_word_round_trip(s: Seq<u8>, at: int, x: u32)
    requires
        0 <= at,
        at + 4 <= s.len(),
        s.subrange(at, at + 4) == le32(x),
    ensures
        word_at(s, at) == x,
{
    assert forall|i: int| 0 <= i < 4 implies s[at + i] == byte_of(x, i) by {
        assert(s[at + i] == s.subrange(at, at + 4)[i]);
        assert(le32(x)[i] == byte_of(x, i));
    }
    assert(s[at + 0] == byte_of(x, 0));
    assert(s[at + 1] == byte_of(x, 1));
    assert(s[at + 2] == byte_of(x, 2));
    assert(s[at + 3] == byte_of(x, 3));
}

/// Whether the four bytes from index `at` on write the number `x`, the lowest byte first.
pub open spec fn spells(s: Seq<u8>, at: int, x: int) -> bool {
    s[at] + 0x100 * s[at + 1] + 0x1_0000 * s[at + 2] + 0x100_0000 * s[at + 3] == x
}

/// Words are written and read with the lowest byte first.
pub proof fn law_words_are_little_endian(s: Seq<u8>, at: int, x: u32)
    ensures
        le32(x).len() == 4,
        spells(le32(x), 0, x as int),
        spells(s, at, word_at(s, at) as int),
{
}

/// The four bytes of `x`, least significant first.
pub fn to_le(x: u32) -> (r: [u8; 4])
    ensures
        r@ == le32(x),
{
    let r: [u8; 4] = [
        (x % 256) as u8,
        ((x / 256) % 256) as u8,
        ((x / 65536) % 256) as u8,
        (x / 16777216) as u8,
    ];
    assert(r@ =~= le32(x));
    r
}

/// Reads the little-endian word at index `at`.
pub fn read_le(s: &[u8], at: usize) -> (r: u32)
    requires
        at + 4 <= s@.len(),
    ensures
        r == word_at(s@, at as int),
{
    let a: u32 = s[at] as u32;
    let b: u32 = s[at + 1] as u32;
    let c: u32 = s[at + 2] as u32;
    let d: u32 = s[at + 3] as u32;
    a + 256 * b + 65536 * c + 16777216 * d
}

/// Appends the four little-endian bytes of `x` to `out`.
pub fn push_le(out: &mut Vec<u8>, x: u32)
    ensures
        final(out)@ == old(out)@ + le32(x),
{
    let b = to_le(x);
    out.push(b[0]);
    out.push(b[1]);
    out.push(b[2]);
    out.push(b[3]);
    assert(out@ =~= old(out)@ + le32(x));
}

/// Appends `s[from]` to `s[to - 1]` to `out`.
pub fn push_bytes(out: &mut Vec<u8>, s: &[u8], from: usize, to: usize)
    requires
        from <= to <= s@.len(),
    ensures
        final(out)@ == old(out)@ + s@.subrange(from as int, to as int),
{
    let mut i: usize = from;
    while i < to
        invariant
            from <= i <= to <= s@.len(),
            out@ == old(out)@ + s@.subrange(from as int, i as int),
        decreases to - i,
    {
        out.push(s[i]);
        i += 1;
        assert(out@ =~= old(out)@ + s@.subrange(from as int, i as int));
    }
    assert(out@ =~= old(out)@ + s@.subrange(from as int, to as int));
}

/// Appends `n` copies of `b` to `out`.
pub fn push_fill(out: &mut Vec<u8>, b: u8, n: usize)
    ensures
        final(out)@ == old(out)@ + Seq::new(n as nat, |i: int| b),
{
    let mut i: usize = 0;
    while i < n
        invariant
            i <= n,
            out@ == old(out)@ + Seq::new(i as nat, |k: int| b),
        decreases n - i,
    {
        out.push(b);
        i += 1;
        assert(out@ =~= old(out)@ + Seq::new(i as nat, |k: int| b));
    }
    assert(out@ =~= old(out)@ + Seq::new(n as nat, |i: int| b));
}

/// The bytes `s` with those from index `at` on replaced by `data`.
pub open spec fn splice(s: Seq<u8>, at: int, data: Seq<u8>) -> Seq<u8> {
    Seq::new(
        s.len(),
        |i: int|
            if at <= i < at + data.len() {
                data[i - at]
            } else {
                s[i]
            },
    )
}

/// Overwrites `buf[at]` and what follows with `src[from]` to `src[to - 1]`.
pub fn write_at(buf: &mut [u8], at: usize, src: &[u8], from: usize, to: usize)
    requires
        from <= to <= src@.len(),
        at + (to - from) <= old(buf)@.len(),
    ensures
        final(buf)@ == splice(old(buf)@, at as int, src@.subrange(from as int, to as int)),
{
    let n: usize = to - from;
    let len: usize = buf.len();
    let mut i: usize = 0;
    while i < n
        invariant
            n == to - from,
            len == old(buf)@.len(),
            i <= n,
            from <= to <= src@.len(),
            at + n <= old(buf)@.len(),
            buf@ == splice(old(buf)@, at as int, src@.subrange(from as int, from + i)),
        decreases n - i,
    {
        buf[at + i] = src[from + i];
        i += 1;
        assert(buf@ =~= splice(old(buf)@, at as int, src@.subrange(from as int, from + i)));
    }
    assert(src@.subrange(from as int, from + i) =~= src@.subrange(from as int, to as int));
    assert(buf@ =~= splice(old(buf)@, at as int, src@.subrange(from as int, to as int)));
}

} // verus!
