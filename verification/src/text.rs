//! Text handling: decimal rendering, NUL-terminated buffers, and the
//! decoding of UTF-8 and UTF-16 data into strings.

use vstd::prelude::*;
use vstd::utf8::*;

verus! {

/// The character for one decimal digit.
pub open spec fn digit_char(d: nat) -> char {
    if d == 0 {
        '0'
    } else if d == 1 {
        '1'
    } else if d == 2 {
        '2'
    } else if d == 3 {
        '3'
    } else if d == 4 {
        '4'
    } else if d == 5 {
        '5'
    } else if d == 6 {
        '6'
    } else if d == 7 {
        '7'
    } else if d == 8 {
        '8'
    } else {
        '9'
    }
}

/// The decimal notation of `n`, most significant digit first, without
/// leading zeros.
pub open spec fn decimal(n: nat) -> Seq<char>
    decreases n,
{
    if n < 10 {
        seq![digit_char(n)]
    } else {
        decimal(n / 10).push(digit_char(n % 10))
    }
}

/// The character for one decimal digit.
fn digit(d: u32) -> (c: char)
    requires
        d < 10,
    ensures
        c == digit_char(d as nat),
{
    if d == 0 {
        '0'
    } else if d == 1 {
        '1'
    } else if d == 2 {
        '2'
    } else if d == 3 {
        '3'
    } else if d == 4 {
        '4'
    } else if d == 5 {
        '5'
    } else if d == 6 {
        '6'
    } else if d == 7 {
        '7'
    } else if d == 8 {
        '8'
    } else {
        '9'
    }
}

/// Appends the decimal notation of `n` to `out`.
pub fn push_decimal(out: &mut Vec<char>, n: u32)
    ensures
        final(out)@ == old(out)@ + decimal(n as nat),
    decreases n,
{
    if n >= 10 {
        push_decimal(out, n / 10);
    }
    out.push(digit(n % 10));
}

/// Builds a string from characters with `String::from_iter`: the string
/// holds exactly the given characters, in order.
#[verifier::external_body]
pub(crate) fn string_from_chars(chars: &Vec<char>) -> (s: String)
    ensures
        s@ == chars@,
{
    chars.iter().collect()
}

/// The number of items of `s` that stand before the first `stop`, or the
/// length of `s` where it holds none.
pub open spec fn terminator_index<T>(s: Seq<T>, stop: T) -> int
    decreases s.len(),
{
    if s.len() == 0 || s[0] == stop {
        0
    } else {
        1 + terminator_index(s.skip(1), stop)
    }
}

/// What stands before the first `stop` in `s`.
pub open spec fn before_terminator<T>(s: Seq<T>, stop: T) -> Seq<T> {
    s.take(terminator_index(s, stop))
}

/// `terminator_index` is the one position up to which nothing equals
/// `stop` and at which `s` ends or holds `stop`.
pub proof fn lemma_terminator_index<T>(s: Seq<T>, stop: T)
    ensures
        0 <= terminator_index(s, stop) <= s.len(),
        forall|i: int| 0 <= i < terminator_index(s, stop) ==> s[i] != stop,
        terminator_index(s, stop) == s.len() || s[terminator_index(s, stop)] == stop,
    decreases s.len(),
{
    if s.len() == 0 || s[0] == stop {
    } else {
        let rest = s.skip(1);
        lemma_terminator_index(rest, stop);
        let k = terminator_index(rest, stop);
        assert forall|i: int| 0 <= i < 1 + k implies s[i] != stop by {
            if i > 0 {
                assert(rest[i - 1] == s[i]);
            }
        }
        if k < rest.len() {
            assert(rest[k] == s[k + 1]);
        }
    }
}

/// A position that satisfies what `lemma_terminator_index` states is the
/// terminator index.
pub proof fn lemma_terminator_index_unique<T>(s: Seq<T>, stop: T, k: int)
    requires
        0 <= k <= s.len(),
        forall|i: int| 0 <= i < k ==> s[i] != stop,
        k == s.len() || s[k] == stop,
    ensures
        terminator_index(s, stop) == k,
{
    lemma_terminator_index(s, stop);
    let t = terminator_index(s, stop);
    if t < k {
        assert(s[t] != stop);
    } else if k < t {
        assert(s[k] != stop);
    }
}

/// The index of the first zero byte of `bytes`, or its length.
fn first_nul_byte(bytes: &[u8]) -> (n: usize)
    ensures
        n == terminator_index(bytes@, 0u8),
{
    let mut n: usize = 0;
    while n < bytes.len() && bytes[n] != 0
        invariant
            n <= bytes.len(),
            forall|i: int| 0 <= i < n ==> bytes@[i] != 0u8,
        decreases bytes.len() - n,
    {
        n += 1;
    }
    proof {
        lemma_terminator_index_unique(bytes@, 0u8, n as int);
    }
    n
}

/// `std::str::from_utf8`, with the result copied into a `String`: it is
/// `Some` exactly where the bytes are well-formed UTF-8, and then holds the
/// characters that they encode.
#[verifier::external_body]
fn utf8_to_string(bytes: &[u8]) -> (text: Option<String>)
    ensures
        text is Some <==> valid_utf8(bytes@),
        text matches Some(s) ==> s@ == decode_utf8(bytes@),
{
    match std::str::from_utf8(bytes) {
        Ok(s) => Some(s.to_string()),
        Err(_) => None,
    }
}

/// The text of a NUL-terminated UTF-8 buffer: what stands before the first
/// zero byte (the whole buffer where it holds none), decoded. `None` where
/// that is not well-formed UTF-8.
pub fn str_from_u8_checked(bytes: &[u8]) -> (text: Option<String>)
    ensures
        text is Some <==> valid_utf8(before_terminator(bytes@, 0u8)),
        text matches Some(s) ==> s@ == decode_utf8(before_terminator(bytes@, 0u8)),
{
    let n = first_nul_byte(bytes);
    proof {
        lemma_terminator_index(bytes@, 0u8);
    }
    let head = vstd::slice::slice_subrange(bytes, 0, n);
    assert(head@ =~= before_terminator(bytes@, 0u8));
    utf8_to_string(head)
}

/// The text of a NUL-terminated UTF-8 buffer whose text is well-formed.
pub fn str_from_u8(bytes: &[u8]) -> (text: String)
    requires
        valid_utf8(before_terminator(bytes@, 0u8)),
    ensures
        text@ == decode_utf8(before_terminator(bytes@, 0u8)),
{
    match str_from_u8_checked(bytes) {
        Some(s) => s,
        None => {
            assert(false);
            String::new()
        },
    }
}

/// True for the code units that open a surrogate pair.
pub open spec fn is_high_surrogate(u: u16) -> bool {
    0xD800 <= u <= 0xDBFF
}

/// True for the code units that close a surrogate pair.
pub open spec fn is_low_surrogate(u: u16) -> bool {
    0xDC00 <= u <= 0xDFFF
}

/// The code point that a surrogate pair stands for.
pub open spec fn pair_code_point(high: u16, low: u16) -> u32 {
    (0x10000 + (high - 0xD800) * 0x400 + (low - 0xDC00)) as u32
}

/// The characters that UTF-16 code units encode, or `None` where a
/// surrogate stands without its partner.
pub open spec fn utf16_decode(units: Seq<u16>) -> Option<Seq<char>>
    decreases units.len(),
{
    if units.len() == 0 {
        Some(Seq::empty())
    } else if !is_high_surrogate(units[0]) && !is_low_surrogate(units[0]) {
        match utf16_decode(units.skip(1)) {
            Some(rest) => Some(seq![units[0] as char] + rest),
            None => None,
        }
    } else if is_high_surrogate(units[0]) && units.len() >= 2 && is_low_surrogate(units[1]) {
        match utf16_decode(units.skip(2)) {
            Some(rest) => Some(seq![pair_code_point(units[0], units[1]) as char] + rest),
            None => None,
        }
    } else {
        None
    }
}

/// `char::from_u32`: the character with the given code point, for every
/// code point that is a Unicode scalar value, and `None` for the others.
#[verifier::external_body]
fn char_from_code_point(code: u32) -> (c: Option<char>)
    ensures
        c == (if is_scalar(code) {
            Some(code as char)
        } else {
            None
        }),
{
    char::from_u32(code)
}

/// What is left to decode of `units` from `i` on, put behind `done`.
spec fn decode_rest(units: Seq<u16>, i: int, done: Seq<char>) -> Option<Seq<char>> {
    match utf16_decode(units.skip(i)) {
        Some(rest) => Some(done + rest),
        None => None,
    }
}

/// Decodes UTF-16 code units into characters.
pub fn utf16_chars(units: &Vec<u16>) -> (chars: Option<Vec<char>>)
    ensures
        chars is Some <==> utf16_decode(units@) is Some,
        chars matches Some(v) ==> utf16_decode(units@) == Some(v@),
{
    let mut out: Vec<char> = Vec::new();
    let mut i: usize = 0;
    assert(units@.skip(0) =~= units@);
    assert(Seq::<char>::empty() + utf16_decode(units@)->0 =~= utf16_decode(units@)->0);
    while i < units.len()
        invariant
            i <= units.len(),
            decode_rest(units@, i as int, out@) == utf16_decode(units@),
        decreases units.len() - i,
    {
        let u = units[i];
        let ghost tail = units@.skip(i as int);
        assert(tail.len() > 0 && tail[0] == u);
        if u < 0xD800 || u > 0xDFFF {
            let c = char_from_code_point(u as u32);
            match c {
                Some(ch) => {
                    proof {
                        assert(tail.skip(1) =~= units@.skip(i + 1));
                        let rest = utf16_decode(units@.skip(i + 1));
                        if rest is Some {
                            assert(out@.push(ch) + rest->0 =~= out@ + (seq![ch] + rest->0));
                        }
                    }
                    out.push(ch);
                    i += 1;
                },
                None => {
                    assert(false);
                    return None;
                },
            }
        } else if u <= 0xDBFF && i + 1 < units.len() && 0xDC00 <= units[i + 1] && units[i + 1]
            <= 0xDFFF {
            let low = units[i + 1];
            assert(tail[1] == low);
            let code: u32 = 0x10000 + (u as u32 - 0xD800) * 0x400 + (low as u32 - 0xDC00);
            assert(code == pair_code_point(u, low));
            let c = char_from_code_point(code);
            match c {
                Some(ch) => {
                    proof {
                        assert(tail.skip(2) =~= units@.skip(i + 2));
                        let rest = utf16_decode(units@.skip(i + 2));
                        if rest is Some {
                            assert(out@.push(ch) + rest->0 =~= out@ + (seq![ch] + rest->0));
                        }
                    }
                    out.push(ch);
                    i += 2;
                },
                None => {
                    assert(false);
                    return None;
                },
            }
        } else {
            if i + 1 < units.len() {
                assert(tail[1] == units@[i + 1]);
            }
            assert(utf16_decode(tail) is None);
            return None;
        }
    }
    assert(units@.skip(i as int) =~= Seq::<u16>::empty());
    assert(out@ + Seq::<char>::empty() =~= out@);
    Some(out)
}

/// The 16-bit code units that `bytes` hold in little-endian order. A last
/// single byte counts as the low half of a unit whose high half is zero.
pub open spec fn wide_units(bytes: Seq<u8>) -> Seq<u16> {
    Seq::new(
        ((bytes.len() + 1) / 2) as nat,
        |i: int|
            if 2 * i + 1 < bytes.len() {
                (bytes[2 * i] + 256 * bytes[2 * i + 1]) as u16
            } else {
                bytes[2 * i] as u16
            },
    )
}

/// The text that a buffer of little-endian UTF-16 holds before its first
/// zero unit, or `None` where that is not well-formed UTF-16.
pub open spec fn wide_text(bytes: Seq<u8>) -> Option<Seq<char>> {
    utf16_decode(before_terminator(wide_units(bytes), 0u16))
}

/// Pairs bytes into little-endian 16-bit units and stops before the first
/// zero unit.
fn units_before_nul(bytes: &[u8]) -> (units: Vec<u16>)
    ensures
        units@ == before_terminator(wide_units(bytes@), 0u16),
{
    let ghost all = wide_units(bytes@);
    let n = bytes.len();
    let count: usize = n / 2 + n % 2;
    let mut units: Vec<u16> = Vec::new();
    let mut k: usize = 0;
    while k < count
        invariant
            n == bytes.len(),
            all == wide_units(bytes@),
            count == all.len(),
            k <= count,
            units@.len() == k,
            forall|j: int| 0 <= j < k ==> units@[j] == all[j] && all[j] != 0u16,
        decreases count - k,
    {
        let low = bytes[2 * k];
        let unit: u16 = if 2 * k + 1 < n {
            low as u16 + 256 * (bytes[2 * k + 1] as u16)
        } else {
            low as u16
        };
        assert(unit == all[k as int]);
        if unit == 0 {
            proof {
                lemma_terminator_index_unique(all, 0u16, k as int);
                assert(units@ =~= all.take(k as int));
            }
            return units;
        }
        units.push(unit);
        k += 1;
    }
    proof {
        lemma_terminator_index_unique(all, 0u16, k as int);
        assert(units@ =~= all.take(k as int));
    }
    units
}

/// Decodes a buffer of little-endian UTF-16 up to its first zero unit.
pub fn decode_wide(bytes: &[u8]) -> (text: Option<String>)
    ensures
        text is Some <==> wide_text(bytes@) is Some,
        text matches Some(s) ==> wide_text(bytes@) == Some(s@),
{
    let units = units_before_nul(bytes);
    match utf16_chars(&units) {
        Some(chars) => Some(string_from_chars(&chars)),
        None => None,
    }
}

} // verus!
