//! Text helpers: characters of strings, numbers to and from text, searching and ASCII case.

use vstd::prelude::*;

verus! {

/// `String::push` appends one character.
pub assume_specification[ String::push ](s: &mut String, c: char)
    ensures
        final(s)@ == old(s)@.push(c),
;

/// What `str::to_lowercase` returns for a text: its Unicode lower-case form.
pub uninterp spec fn unicode_lowercase(s: Seq<char>) -> Seq<char>;

/// `str::to_lowercase` returns a text that depends on its argument alone.
pub assume_specification[ str::to_lowercase ](s: &str) -> (r: String)
    ensures
        r@ == unicode_lowercase(s@),
;

// ---------------------------------------------------------------------------
// Characters
// ---------------------------------------------------------------------------

/// The characters of `s` as a vector.
pub fn to_chars(s: &str) -> (r: Vec<char>)
    ensures
        r@ == s@,
{
    let mut r: Vec<char> = Vec::new();
    for c in it: s.chars()
        invariant
            it.seq() == s@,
            r@ == s@.take(it.index()),
    {
        r.push(c);
        assert(r@ =~= s@.take(it.index() + 1));
    }
    assert(r@ =~= s@);
    r
}

/// The text made of `c[from]` to `c[to - 1]`.
pub fn from_chars(c: &Vec<char>, from: usize, to: usize) -> (r: String)
    requires
        from <= to <= c@.len(),
    ensures
        r@ == c@.subrange(from as int, to as int),
{
    let mut r = String::new();
    let mut i: usize = from;
    while i < to
        invariant
            from <= i <= to <= c@.len(),
            r@ == c@.subrange(from as int, i as int),
        decreases to - i,
    {
        r.push(c[i]);
        i += 1;
        assert(r@ =~= c@.subrange(from as int, i as int));
    }
    r
}

// ---------------------------------------------------------------------------
// Numbers as text
// ---------------------------------------------------------------------------

/// The digit of value `d` (letters in lower case), for `d < 16`.
pub open spec fn digit_char(d: int) -> char {
    if d < 10 {
        ('0' as int + d) as char
    } else {
        ('a' as int + (d - 10)) as char
    }
}

/// `value` in base `base`, zero-padded on the left to at least `width` digits.
pub open spec fn padded(value: nat, base: nat, width: nat) -> Seq<char>
    decreases value,
{
    if value == 0 || base < 2 {
        Seq::new(width, |i: int| '0')
    } else {
        proof {
            lemma_quotient_smaller(value, base);
        }
        padded(
            value / base,
            base,
            (if width == 0 {
                0
            } else {
                width - 1
            }) as nat,
        ).push(digit_char((value % base) as int))
    }
}

/// A quotient by two or more is smaller than what was divided.
pub proof fn lemma_quotient_smaller(value: nat, base: nat)
    requires
        value > 0,
        base >= 2,
    ensures
        value / base < value,
{
    assert(value / base < value) by (nonlinear_arith)
        requires
            value > 0,
            base >= 2,
    ;
}

/// `value` in decimal.
pub open spec fn decimal(value: nat) -> Seq<char> {
    padded(value, 10, 1)
}

/// `value` in lower-case hexadecimal with at least `width` digits.
pub open spec fn hex(value: nat, width: nat) -> Seq<char> {
    padded(value, 16, width)
}

fn digit(d: u64) -> (c: char)
    requires
        d < 16,
    ensures
        c == digit_char(d as int),
{
    if d < 10 {
        (48u8 + d as u8) as char
    } else {
        (97u8 + (d - 10) as u8) as char
    }
}

fn push_padded(out: &mut String, value: u64, base: u64, width: usize)
    requires
        2 <= base <= 16,
    ensures
        final(out)@ == old(out)@ + padded(value as nat, base as nat, width as nat),
    decreases value,
{
    if value == 0 {
        let mut i: usize = 0;
        while i < width
            invariant
                i <= width,
                out@ == old(out)@ + Seq::new(i as nat, |k: int| '0'),
            decreases width - i,
        {
            out.push('0');
            i += 1;
            assert(out@ =~= old(out)@ + Seq::new(i as nat, |k: int| '0'));
        }
        assert(out@ =~= old(out)@ + padded(0, base as nat, width as nat));
        return;
    }
    proof {
        lemma_quotient_smaller(value as nat, base as nat);
    }
    let rest: usize = if width == 0 {
        0
    } else {
        width - 1
    };
    push_padded(out, value / base, base, rest);
    out.push(digit(value % base));
    assert(out@ =~= old(out)@ + padded(value as nat, base as nat, width as nat));
}

/// Appends `value` in decimal.
pub fn push_decimal(out: &mut String, value: u64)
    ensures
        final(out)@ == old(out)@ + decimal(value as nat),
{
    push_padded(out, value, 10, 1)
}

/// Appends `value` in lower-case hexadecimal, with at least `width` digits.
pub fn push_hex(out: &mut String, value: u64, width: usize)
    ensures
        final(out)@ == old(out)@ + hex(value as nat, width as nat),
{
    push_padded(out, value, 16, width)
}

/// Appends `value` in decimal, with at least `width` digits.
pub fn push_padded_decimal(out: &mut String, value: u64, width: usize)
    ensures
        final(out)@ == old(out)@ + padded(value as nat, 10, width as nat),
{
    push_padded(out, value, 10, width)
}

/// Appends `value` in upper-case hexadecimal, with at least `width` digits.
pub fn push_upper_hex(out: &mut String, value: u64, width: usize)
    ensures
        final(out)@ == old(out)@ + upper_text(hex(value as nat, width as nat)),
{
    let mut lower = String::new();
    push_hex(&mut lower, value, width);
    assert(lower@ =~= hex(value as nat, width as nat));
    let upper = upper_chars(lower.as_str());
    out.append(from_chars(&upper, 0, upper.len()).as_str());
    assert(upper@.subrange(0, upper@.len() as int) =~= upper@);
}

/// The parts one after the other with `sep` between them.
pub open spec fn joined(parts: Seq<Seq<char>>, sep: Seq<char>) -> Seq<char>
    decreases parts.len(),
{
    if parts.len() == 0 {
        Seq::empty()
    } else if parts.len() == 1 {
        parts[0]
    } else {
        joined(parts.drop_last(), sep) + sep + parts.last()
    }
}

/// The characters of each of `v`.
pub open spec fn texts(v: Seq<String>) -> Seq<Seq<char>> {
    v.map_values(|s: String| s@)
}

/// The parts one after the other with `sep` between them.
pub fn join_texts(parts: &Vec<String>, sep: &str) -> (r: String)
    ensures
        r@ == joined(texts(parts@), sep@),
{
    let ghost all = texts(parts@);
    let mut r = String::new();
    let mut i: usize = 0;
    assert(r@ =~= joined(all.take(0), sep@));
    while i < parts.len()
        invariant
            i <= parts@.len(),
            all == texts(parts@),
            r@ == joined(all.take(i as int), sep@),
        decreases parts@.len() - i,
    {
        proof {
            assert(all[i as int] == parts@[i as int]@);
            assert(all.take(i + 1).drop_last() =~= all.take(i as int));
            assert(all.take(i + 1).last() == all[i as int]);
        }
        if i > 0 {
            r.append(sep);
        }
        r.append(parts[i].as_str());
        assert(r@ =~= joined(all.take(i + 1), sep@));
        i += 1;
    }
    assert(all.take(i as int) =~= all);
    r
}

// ---------------------------------------------------------------------------
// Text to numbers
// ---------------------------------------------------------------------------

/// Why a text is not a number that fits.
#[derive(Debug, Clone, Copy, PartialEq, Eq, Structural)]
pub enum NumberError {
    Empty,
    InvalidDigit,
    TooLarge,
}

impl NumberError {
    /// The reason in words.
    pub open spec fn spec_message(self) -> Seq<char> {
        match self {
            NumberError::Empty => "cannot parse integer from empty string"@,
            NumberError::InvalidDigit => "invalid digit found in string"@,
            NumberError::TooLarge => "number too large to fit in target type"@,
        }
    }

    /// The reason in words.
    pub fn message(self) -> (r: String)
        ensures
            r@ == self.spec_message(),
    {
        match self {
            NumberError::Empty => "cannot parse integer from empty string".to_owned(),
            NumberError::InvalidDigit => "invalid digit found in string".to_owned(),
            NumberError::TooLarge => "number too large to fit in target type".to_owned(),
        }
    }
}

/// The value of `c` as a digit of base `base` (letters in either case).
pub open spec fn digit_value(c: char, base: int) -> Option<int> {
    let v: int = if '0' <= c && c <= '9' {
        c as int - '0' as int
    } else if 'a' <= c && c <= 'z' {
        c as int - 'a' as int + 10
    } else if 'A' <= c && c <= 'Z' {
        c as int - 'A' as int + 10
    } else {
        base
    };
    if v < base {
        Some(v)
    } else {
        None
    }
}

/// The number that the digits `s` write in base `base`, with the error of the
/// first character at which reading from the left has to stop.
pub open spec fn digits_value(s: Seq<char>, base: int, max: int) -> Result<int, NumberError>
    decreases s.len(),
{
    if s.len() == 0 {
        Ok(0)
    } else {
        match digits_value(s.drop_last(), base, max) {
            Err(e) => Err(e),
            Ok(v) => match digit_value(s.last(), base) {
                None => Err(NumberError::InvalidDigit),
                Some(d) => if v * base + d > max {
                    Err(NumberError::TooLarge)
                } else {
                    Ok(v * base + d)
                },
            },
        }
    }
}

/// The number that `s` writes in base `base`: one or more digits after an
/// optional plus sign, at most `max`.
pub open spec fn number_value(s: Seq<char>, base: int, max: int) -> Result<int, NumberError> {
    if s.len() == 0 {
        Err(NumberError::Empty)
    } else if s[0] == '+' {
        if s.len() == 1 {
            Err(NumberError::InvalidDigit)
        } else {
            digits_value(s.skip(1), base, max)
        }
    } else {
        digits_value(s, base, max)
    }
}

fn digit_of(c: char, base: u32) -> (r: Option<u32>)
    requires
        2 <= base <= 36,
    ensures
        (match r {
            Some(v) => digit_value(c, base as int) == Some(v as int),
            None => digit_value(c, base as int) is None,
        }),
{
    let code: u32 = c as u32;
    let v: u32 = if '0' <= c && c <= '9' {
        code - 48
    } else if 'a' <= c && c <= 'z' {
        code - 97 + 10
    } else if 'A' <= c && c <= 'Z' {
        code - 65 + 10
    } else {
        base
    };
    if v < base {
        Some(v)
    } else {
        None
    }
}

proof fn lemma_digits_error_stays(s: Seq<char>, n: int, base: int, max: int)
    requires
        0 <= n <= s.len(),
        digits_value(s.take(n), base, max) is Err,
    ensures
        digits_value(s, base, max) == digits_value(s.take(n), base, max),
    decreases s.len() - n,
{
    if n < s.len() {
        assert(s.take(n + 1).drop_last() =~= s.take(n));
        lemma_digits_error_stays(s, n + 1, base, max);
    } else {
        assert(s.take(n) =~= s);
    }
}

/// Reads the digits `c[from]` to `c[to - 1]` as a number of base `base`.
pub fn parse_digits(c: &Vec<char>, from: usize, to: usize, base: u32, max: u64) -> (r: Result<
    u64,
    NumberError,
>)
    requires
        from <= to <= c@.len(),
        2 <= base <= 36,
    ensures
        (match r {
            Ok(v) => digits_value(c@.subrange(from as int, to as int), base as int, max as int)
                == Ok::<int, NumberError>(v as int),
            Err(e) => digits_value(c@.subrange(from as int, to as int), base as int, max as int)
                == Err::<int, NumberError>(e),
        }),
{
    let ghost s = c@.subrange(from as int, to as int);
    let mut value: u64 = 0;
    let mut i: usize = from;
    assert(s.take(0) =~= Seq::<char>::empty());
    while i < to
        invariant
            from <= i <= to <= c@.len(),
            2 <= base <= 36,
            s == c@.subrange(from as int, to as int),
            digits_value(s.take(i - from), base as int, max as int) == Ok::<int, NumberError>(
                value as int,
            ),
        decreases to - i,
    {
        proof {
            assert(s.take(i - from + 1).drop_last() =~= s.take(i - from));
            assert(s.take(i - from + 1).last() == c@[i as int]);
        }
        match digit_of(c[i], base) {
            None => {
                proof {
                    lemma_digits_error_stays(s, i - from + 1, base as int, max as int);
                }
                return Err(NumberError::InvalidDigit);
            },
            Some(d) => {
                assert(value as u128 * base as u128 <= 0xffff_ffff_ffff_ffff * 36) by (nonlinear_arith)
                    requires
                        value <= 0xffff_ffff_ffff_ffff,
                        base <= 36,
                ;
                let next: u128 = value as u128 * base as u128 + d as u128;
                if next > max as u128 {
                    proof {
                        lemma_digits_error_stays(s, i - from + 1, base as int, max as int);
                    }
                    return Err(NumberError::TooLarge);
                }
                value = next as u64;
            },
        }
        i += 1;
    }
    assert(s.take(i - from) =~= s);
    Ok(value)
}

/// Reads `c[from]` and all that follows as a number of base `base` that is at most `max`.
pub fn parse_number(c: &Vec<char>, from: usize, base: u32, max: u64) -> (r: Result<
    u64,
    NumberError,
>)
    requires
        from <= c@.len(),
        2 <= base <= 36,
    ensures
        (match r {
            Ok(v) => number_value(c@.skip(from as int), base as int, max as int) == Ok::<
                int,
                NumberError,
            >(v as int),
            Err(e) => number_value(c@.skip(from as int), base as int, max as int) == Err::<
                int,
                NumberError,
            >(e),
        }),
{
    let n: usize = c.len();
    assert(c@.skip(from as int) =~= c@.subrange(from as int, n as int));
    if from == n {
        return Err(NumberError::Empty);
    }
    if c[from] == '+' {
        if n - from == 1 {
            return Err(NumberError::InvalidDigit);
        }
        assert(c@.skip(from as int).skip(1) =~= c@.subrange(from + 1, n as int));
        return parse_digits(c, from + 1, n, base, max);
    }
    parse_digits(c, from, n, base, max)
}

// ---------------------------------------------------------------------------
// Searching and ASCII case
// ---------------------------------------------------------------------------

/// Whether `needle` stands in `hay` at index `at`.
pub open spec fn stands_at(hay: Seq<char>, needle: Seq<char>, at: int) -> bool {
    0 <= at && at + needle.len() <= hay.len() && hay.subrange(at, at + needle.len()) == needle
}

/// Whether `needle` stands anywhere in `hay`.
pub open spec fn contains_text(hay: Seq<char>, needle: Seq<char>) -> bool {
    exists|at: int| stands_at(hay, needle, at)
}

/// `c` with an ASCII upper-case letter replaced by its lower-case one.
pub open spec fn ascii_lower(c: char) -> char {
    if 'A' <= c && c <= 'Z' {
        (c as int + 32) as char
    } else {
        c
    }
}

/// `c` with an ASCII lower-case letter replaced by its upper-case one.
pub open spec fn ascii_upper(c: char) -> char {
    if 'a' <= c && c <= 'z' {
        (c as int - 32) as char
    } else {
        c
    }
}

/// `s` with every ASCII letter in lower case.
pub open spec fn lower_text(s: Seq<char>) -> Seq<char> {
    s.map_values(|c: char| ascii_lower(c))
}

/// `s` with every ASCII letter in upper case.
pub open spec fn upper_text(s: Seq<char>) -> Seq<char> {
    s.map_values(|c: char| ascii_upper(c))
}

/// `s` with every ASCII letter in lower case.
pub fn lower_chars(s: &str) -> (r: Vec<char>)
    ensures
        r@ == lower_text(s@),
{
    let mut r: Vec<char> = Vec::new();
    for c in it: s.chars()
        invariant
            it.seq() == s@,
            r@ == lower_text(s@).take(it.index()),
    {
        let code: u32 = c as u32;
        if 'A' <= c && c <= 'Z' {
            r.push((code as u8 + 32u8) as char);
        } else {
            r.push(c);
        }
        assert(r@ =~= lower_text(s@).take(it.index() + 1));
    }
    assert(r@ =~= lower_text(s@));
    r
}

/// `s` with every ASCII letter in upper case.
pub fn upper_chars(s: &str) -> (r: Vec<char>)
    ensures
        r@ == upper_text(s@),
{
    let mut r: Vec<char> = Vec::new();
    for c in it: s.chars()
        invariant
            it.seq() == s@,
            r@ == upper_text(s@).take(it.index()),
    {
        let code: u32 = c as u32;
        if 'a' <= c && c <= 'z' {
            r.push((code as u8 - 32u8) as char);
        } else {
            r.push(c);
        }
        assert(r@ =~= upper_text(s@).take(it.index() + 1));
    }
    assert(r@ =~= upper_text(s@));
    r
}

/// Whether `needle` stands in `hay` at index `at`.
pub fn chars_stand_at(hay: &Vec<char>, needle: &Vec<char>, at: usize) -> (r: bool)
    ensures
        r == stands_at(hay@, needle@, at as int),
{
    if at > hay.len() || needle.len() > hay.len() - at {
        return false;
    }
    let n: usize = needle.len();
    let len: usize = hay.len();
    let mut i: usize = 0;
    while i < n
        invariant
            n == needle@.len(),
            len == hay@.len(),
            i <= n,
            at + n <= len,
            forall|k: int| 0 <= k < i ==> hay@[at + k] == needle@[k],
        decreases n - i,
    {
        if hay[at + i] != needle[i] {
            assert(hay@.subrange(at as int, at + n)[i as int] != needle@[i as int]);
            return false;
        }
        i += 1;
    }
    assert(hay@.subrange(at as int, at + n) =~= needle@);
    true
}

/// Whether `needle` stands anywhere in `hay`.
pub fn chars_contain(hay: &Vec<char>, needle: &str) -> (r: bool)
    ensures
        r == contains_text(hay@, needle@),
{
    let pattern = to_chars(needle);
    if pattern.len() > hay.len() {
        return false;
    }
    let last: usize = hay.len() - pattern.len();
    let mut at: usize = 0;
    while at < last
        invariant
            at <= last,
            pattern@ == needle@,
            last == hay@.len() - needle@.len(),
            forall|k: int| 0 <= k < at ==> !stands_at(hay@, needle@, k),
        decreases last - at,
    {
        if chars_stand_at(hay, &pattern, at) {
            return true;
        }
        at += 1;
    }
    chars_stand_at(hay, &pattern, at)
}

proof fn lemma_zeros_value(n: nat, base: int, max: int)
    requires
        2 <= base <= 16,
        max >= 0,
    ensures
        digits_value(Seq::new(n, |i: int| '0'), base, max) == Ok::<int, NumberError>(0),
    decreases n,
{
    let s = Seq::new(n, |i: int| '0');
    if n > 0 {
        lemma_zeros_value((n - 1) as nat, base, max);
        assert(s.drop_last() =~= Seq::new((n - 1) as nat, |i: int| '0'));
        assert(s.last() == '0');
        assert(0 * base + 0 == 0);
    }
}

/// The digits of a number write that number, however they are padded.
pub proof fn law_digits_round_trip(value: nat, base: nat, width: nat, max: int)
    requires
        2 <= base <= 16,
        value <= max,
    ensures
        digits_value(padded(value, base, width), base as int, max) == Ok::<int, NumberError>(
            value as int,
        ),
    decreases value,
{
    if value == 0 {
        lemma_zeros_value(width, base as int, max);
    } else {
        lemma_quotient_smaller(value, base);
        let rest_width: nat = if width == 0 {
            0
        } else {
            (width - 1) as nat
        };
        let s = padded(value, base, width);
        let d = (value % base) as int;
        law_digits_round_trip(value / base, base, rest_width, max);
        assert(s.drop_last() =~= padded(value / base, base, rest_width));
        assert(s.last() == digit_char(d));
        assert((value / base) * base + value % base == value) by (nonlinear_arith)
            requires
                base >= 2,
        ;
        assert(0 <= d < base) by (nonlinear_arith)
            requires
                base >= 2,
                d == value % base,
        ;
        assert(digit_value(digit_char(d), base as int) == Some(d));
    }
}

/// Every character of a written number is a digit of its base.
pub proof fn lemma_padded_digits(value: nat, base: nat, width: nat)
    requires
        2 <= base <= 16,
    ensures
        forall|i: int|
            0 <= i < padded(value, base, width).len() ==> digit_value(
                #[trigger] padded(value, base, width)[i],
                base as int,
            ) is Some,
    decreases value,
{
    if value > 0 {
        lemma_quotient_smaller(value, base);
        let rest_width: nat = if width == 0 {
            0
        } else {
            (width - 1) as nat
        };
        let d = (value % base) as int;
        assert(0 <= d < base) by (nonlinear_arith)
            requires
                base >= 2,
                d == value % base,
        ;
        lemma_padded_digits(value / base, base, rest_width);
        assert(digit_value(digit_char(d), base as int) == Some(d));
    }
}

/// A number is written without zeros in front beyond the width that is asked for, and with
/// at least that many digits.
pub proof fn law_padded_width(value: nat, base: nat, width: nat)
    requires
        2 <= base <= 16,
    ensures
        padded(value, base, width).len() >= width,
        padded(value, base, width).len() > width ==> padded(value, base, width)[0] != '0',
        padded(value, base, width).len() == 0 ==> value == 0,
    decreases value,
{
    if value > 0 {
        lemma_quotient_smaller(value, base);
        let rest_width: nat = if width == 0 {
            0
        } else {
            (width - 1) as nat
        };
        let rest = padded(value / base, base, rest_width);
        law_padded_width(value / base, base, rest_width);
        let d = (value % base) as int;
        assert(0 <= d < base) by (nonlinear_arith)
            requires
                base >= 2,
                d == value % base,
        ;
        if rest.len() == 0 {
            assert(value == (value / base) * base + value % base) by (nonlinear_arith)
                requires
                    base >= 2,
            ;
            assert(value / base == 0);
            assert(0 * base == 0);
            assert(d == value);
            assert(padded(value, base, width)[0] == digit_char(d));
        } else {
            assert(padded(value, base, width)[0] == rest[0]);
        }
    }
}

/// The digits are `0` to `9`, then the letters from `a` on.
pub proof fn law_digit_characters(d: int)
    requires
        0 <= d < 16,
    ensures
        d == 0 <==> digit_char(d) == '0',
        d == 9 <==> digit_char(d) == '9',
        d == 10 <==> digit_char(d) == 'a',
        d == 15 <==> digit_char(d) == 'f',
        0 < d < 10 || 10 < d ==> digit_char(d) as int == digit_char(d - 1) as int + 1,
        digit_value(digit_char(d), 16) == Some(d),
        d < 10 ==> digit_value(digit_char(d), 10) == Some(d),
        d < 10 ==> digit_value(ascii_upper(digit_char(d)), 16) == Some(d),
        digit_value(ascii_upper(digit_char(d)), 16) == Some(d),
        d >= 10 ==> digit_value(digit_char(d), 10) is None,
{
}

/// A text that is read as a number has nothing but digits in it, behind a plus sign at
/// most, and writes a number that is not too large.
pub proof fn law_read_numbers(s: Seq<char>, base: int, max: int)
    requires
        2 <= base,
        max >= 0,
    ensures
        number_value(s, base, max) matches Ok(v) ==> {
            &&& 0 <= v <= max
            &&& s.len() > 0
            &&& s[0] == '+' ==> s.len() > 1
            &&& forall|i: int|
                0 < i < s.len() ==> digit_value(#[trigger] s[i], base) is Some
            &&& s[0] != '+' ==> digit_value(s[0], base) is Some
        },
        s.len() == 0 ==> number_value(s, base, max) == Err::<int, NumberError>(NumberError::Empty),
        s.len() == 1 && s[0] == '+' ==> number_value(s, base, max) == Err::<int, NumberError>(
            NumberError::InvalidDigit,
        ),
{
    if s.len() > 1 && s[0] == '+' {
        lemma_digits_all(s.skip(1), base, max);
        if number_value(s, base, max) is Ok {
            assert forall|i: int| 0 < i < s.len() implies digit_value(#[trigger] s[i], base)
                is Some by {
                assert(s.skip(1)[i - 1] == s[i]);
            }
        }
    } else {
        lemma_digits_all(s, base, max);
    }
}

proof fn lemma_digits_all(s: Seq<char>, base: int, max: int)
    requires
        2 <= base,
        max >= 0,
    ensures
        digits_value(s, base, max) matches Ok(v) ==> 0 <= v <= max && forall|i: int|
            0 <= i < s.len() ==> digit_value(#[trigger] s[i], base) is Some,
    decreases s.len(),
{
    if s.len() > 0 {
        let t = s.drop_last();
        lemma_digits_all(t, base, max);
        if digits_value(s, base, max) is Ok {
            let v = digits_value(t, base, max)->Ok_0;
            assert(0 <= v * base) by (nonlinear_arith)
                requires
                    0 <= v,
                    2 <= base,
            ;
            assert forall|i: int| 0 <= i < s.len() implies digit_value(#[trigger] s[i], base)
                is Some by {
                if i < t.len() {
                    assert(t[i] == s[i]);
                }
            }
        }
    }
}

/// A digit more makes the number `base` times as large and adds the digit, unless it then
/// is too large.  Another character more makes it no number.
pub proof fn law_one_more_digit(s: Seq<char>, c: char, base: int, max: int, v: int)
    requires
        s.len() > 0,
        s != seq!['+'],
        number_value(s, base, max) == Ok::<int, NumberError>(v),
    ensures
        (match digit_value(c, base) {
            Some(d) => number_value(s.push(c), base, max) == (if v * base + d <= max {
                Ok::<int, NumberError>(v * base + d)
            } else {
                Err::<int, NumberError>(NumberError::TooLarge)
            }),
            None => number_value(s.push(c), base, max) == Err::<int, NumberError>(
                NumberError::InvalidDigit,
            ),
        }),
{
    let t = s.push(c);
    assert(t[0] == s[0]);
    if s[0] == '+' {
        assert(s.len() > 1) by {
            if s.len() == 1 {
                assert(s =~= seq!['+']);
            }
        }
        assert(t.skip(1) =~= s.skip(1).push(c));
        assert(s.skip(1).push(c).drop_last() =~= s.skip(1));
    } else {
        assert(t.drop_last() =~= s);
    }
}

/// Only the ASCII letters have their case changed, each to its counterpart, and changing it
/// back and forth keeps what is there.
pub proof fn law_letter_case(c: char)
    ensures
        'A' <= c && c <= 'Z' ==> 'a' <= ascii_lower(c) && ascii_lower(c) <= 'z'
            && ascii_upper(ascii_lower(c)) == c,
        !('A' <= c && c <= 'Z') ==> ascii_lower(c) == c,
        'a' <= c && c <= 'z' ==> 'A' <= ascii_upper(c) && ascii_upper(c) <= 'Z'
            && ascii_lower(ascii_upper(c)) == c,
        !('a' <= c && c <= 'z') ==> ascii_upper(c) == c,
        ascii_lower('A') == 'a' && ascii_lower('Z') == 'z',
        ascii_upper('a') == 'A' && ascii_upper('z') == 'Z',
{
}

/// Changing the case of a text changes the case of each of its characters.
pub proof fn law_text_case(s: Seq<char>, i: int)
    requires
        0 <= i < s.len(),
    ensures
        lower_text(s).len() == s.len() && lower_text(s)[i] == ascii_lower(s[i]),
        upper_text(s).len() == s.len() && upper_text(s)[i] == ascii_upper(s[i]),
{
}

/// A text stands in another one where the other is made of something, the text and
/// something.
pub proof fn law_contained_text(before: Seq<char>, needle: Seq<char>, after: Seq<char>)
    ensures
        contains_text(before + needle + after, needle),
        stands_at(before + needle + after, needle, before.len() as int),
{
    let hay = before + needle + after;
    assert(hay.subrange(
        before.len() as int,
        (before.len() + needle.len()) as int,
    ) =~= needle);
    assert(stands_at(hay, needle, before.len() as int));
}

/// A text that stands in another one leaves a part before it and a part behind it.
pub proof fn law_containing_text(hay: Seq<char>, needle: Seq<char>)
    requires
        contains_text(hay, needle),
    ensures
        exists|before: Seq<char>, after: Seq<char>| hay == #[trigger] (before + needle + after),
{
    let at = choose|at: int| stands_at(hay, needle, at);
    let before = hay.take(at);
    let after = hay.skip(at + needle.len());
    assert forall|i: int| 0 <= i < hay.len() implies hay[i] == (before + needle + after)[i] by {
        if at <= i < at + needle.len() {
            assert(hay.subrange(at, at + needle.len())[i - at] == hay[i]);
        }
    }
    assert(hay =~= before + needle + after);
}

/// Joining puts the separator between each two parts and nowhere else.
pub proof fn law_joined_parts(parts: Seq<Seq<char>>, part: Seq<char>, sep: Seq<char>)
    ensures
        joined(Seq::<Seq<char>>::empty(), sep).len() == 0,
        joined(seq![part], sep) == part,
        parts.len() > 0 ==> joined(parts.push(part), sep) == joined(parts, sep) + sep + part,
{
    assert(parts.push(part).drop_last() =~= parts);
}

/// What is written in decimal reads back as the number and has no zeros in front; what is
/// written in hexadecimal does too, but for the zeros that fill it up to its width.
pub proof fn law_written_numbers(v: nat, width: nat, max: int)
    requires
        v <= max,
    ensures
        number_value(decimal(v), 10, max) == Ok::<int, NumberError>(v as int),
        decimal(v).len() > 1 ==> decimal(v)[0] != '0',
        width > 0 ==> number_value(hex(v, width), 16, max) == Ok::<int, NumberError>(v as int),
        hex(v, width).len() >= width,
        hex(v, width).len() > width ==> hex(v, width)[0] != '0',
{
    law_digits_round_trip(v, 10, 1, max);
    law_digits_round_trip(v, 16, width, max);
    law_padded_width(v, 10, 1);
    law_padded_width(v, 16, width);
    lemma_padded_digits(v, 10, 1);
    lemma_padded_digits(v, 16, width);
    assert(digit_value(decimal(v)[0], 10) is Some);
    if width > 0 {
        assert(digit_value(hex(v, width)[0], 16) is Some);
    }
}

/// The digits of a number that is too large are refused as such, however they are padded.
pub proof fn law_digits_too_large(value: nat, base: nat, width: nat, max: int)
    requires
        2 <= base <= 16,
        0 <= max < value,
    ensures
        digits_value(padded(value, base, width), base as int, max) == Err::<int, NumberError>(
            NumberError::TooLarge,
        ),
    decreases value,
{
    lemma_quotient_smaller(value, base);
    let rest_width: nat = if width == 0 {
        0
    } else {
        (width - 1) as nat
    };
    let s = padded(value, base, width);
    let d = (value % base) as int;
    assert(s.drop_last() =~= padded(value / base, base, rest_width));
    if value / base > max {
        law_digits_too_large(value / base, base, rest_width, max);
    } else {
        law_digits_round_trip(value / base, base, rest_width, max);
        assert(s.last() == digit_char(d));
        assert((value / base) * base + value % base == value) by (nonlinear_arith)
            requires
                base >= 2,
        ;
        assert(0 <= d < base) by (nonlinear_arith)
            requires
                base >= 2,
                d == value % base,
        ;
        assert(digit_value(digit_char(d), base as int) == Some(d));
    }
}

} // verus!
