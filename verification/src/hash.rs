//! Fixed-size byte hashes: equality and hexadecimal text.

use vstd::prelude::*;
use vstd::string::StrSliceExecFns;
use vstd::string::StringExecFns;

verus! {

/// The value of a hexadecimal digit, in either case; `None` for any other
/// character.
pub open spec fn hex_digit_value(c: char) -> Option<u8> {
    if '0' <= c <= '9' {
        Some((c as u8 - 48) as u8)
    } else if 'a' <= c <= 'f' {
        Some((c as u8 - 87) as u8)
    } else if 'A' <= c <= 'F' {
        Some((c as u8 - 55) as u8)
    } else {
        None
    }
}

/// The lower-case hexadecimal digit for a value below 16.
pub open spec fn hex_digit_char(n: u8) -> char {
    if n < 10 {
        (n + 48) as char
    } else {
        (n + 87) as char
    }
}

/// Every character is a hexadecimal digit and they come in pairs.
pub open spec fn is_hex(s: Seq<char>) -> bool {
    &&& s.len() % 2 == 0
    &&& forall|i: int| 0 <= i < s.len() ==> (#[trigger] hex_digit_value(s[i])) is Some
}

/// The byte written by the `i`-th pair of digits of `s`.
pub open spec fn hex_byte(s: Seq<char>, i: int) -> u8 {
    (hex_digit_value(s[2 * i])->0 * 16 + hex_digit_value(s[2 * i + 1])->0) as u8
}

/// The bytes that a hexadecimal text stands for.
pub open spec fn hex_bytes(s: Seq<char>) -> Seq<u8> {
    Seq::new((s.len() / 2) as nat, |i: int| hex_byte(s, i))
}

/// The lower-case hexadecimal text of a byte string, two digits per byte,
/// high nibble first.
pub open spec fn hex_string(b: Seq<u8>) -> Seq<char> {
    Seq::new(
        2 * b.len(),
        |i: int|
            hex_digit_char(
                if i % 2 == 0 {
                    b[i / 2] / 16
                } else {
                    b[i / 2] % 16
                },
            ),
    )
}

/// Decoding the encoding of a byte string gives the byte string back.
pub proof fn lemma_hex_round_trip(b: Seq<u8>)
    ensures
        is_hex(hex_string(b)),
        hex_bytes(hex_string(b)) == b,
{
    let s = hex_string(b);
    assert forall|i: int| 0 <= i < s.len() implies (#[trigger] hex_digit_value(s[i])) is Some by {
        let n: u8 = if i % 2 == 0 {
            b[i / 2] / 16
        } else {
            b[i / 2] % 16
        };
        assert(n < 16);
        assert(s[i] == hex_digit_char(n));
    }
    assert forall|i: int| 0 <= i < b.len() implies hex_byte(s, i) == b[i] by {
        assert(s[2 * i] == hex_digit_char(b[i] / 16));
        assert(s[2 * i + 1] == hex_digit_char(b[i] % 16));
    }
    assert(hex_bytes(s) =~= b);
}

/// Whether two byte arrays hold the same bytes.
pub fn bytes_equal<const N: usize>(a: &[u8; N], b: &[u8; N]) -> (r: bool)
    ensures
        r == (*a == *b),
{
    let mut i: usize = 0;
    while i < N
        invariant
            i <= N,
            forall|j: int| 0 <= j < i ==> a@[j] == b@[j],
        decreases N - i,
    {
        if a[i] != b[i] {
            return false;
        }
        i += 1;
    }
    assert(*a =~= *b);
    true
}

/// The characters of a string slice, in order.
pub fn chars_of(s: &str) -> (v: Vec<char>)
    ensures
        v@ == s@,
{
    let mut v: Vec<char> = Vec::new();
    for c in it: s.chars()
        invariant
            v@ == it.seq().take(it.index() as int),
            it.seq() == s@,
    {
        v.push(c);
    }
    v
}

/// The value of one hexadecimal digit.
pub fn hex_digit(c: char) -> (r: Option<u8>)
    ensures
        r == hex_digit_value(c),
        r matches Some(n) ==> n < 16,
{
    if c >= '0' && c <= '9' {
        Some(c as u8 - 48)
    } else if c >= 'a' && c <= 'f' {
        Some(c as u8 - 87)
    } else if c >= 'A' && c <= 'F' {
        Some(c as u8 - 55)
    } else {
        None
    }
}

/// Reads exactly `N` bytes from `2 * N` hexadecimal digits.
///
/// Digits of either case are accepted. Any other length, and any character
/// that is not a hexadecimal digit, gives `None`.
pub fn decode_hex<const N: usize>(s: &Vec<char>) -> (r: Option<[u8; N]>)
    ensures
        r is Some <==> (s@.len() == 2 * N && is_hex(s@)),
        r matches Some(b) ==> b@ == hex_bytes(s@),
{
    if s.len() % 2 != 0 || s.len() / 2 != N {
        return None;
    }
    let len: usize = s.len();
    let mut out: [u8; N] = [0u8; N];
    let mut i: usize = 0;
    while i < N
        invariant
            i <= N,
            len == 2 * N,
            s@.len() == len,
            forall|j: int| 0 <= j < 2 * i ==> (#[trigger] hex_digit_value(s@[j])) is Some,
            forall|j: int| 0 <= j < i ==> out@[j] == hex_byte(s@, j),
        decreases N - i,
    {
        let hi: Option<u8> = hex_digit(s[2 * i]);
        let lo: Option<u8> = hex_digit(s[2 * i + 1]);
        match (hi, lo) {
            (Some(h), Some(l)) => {
                out[i] = h * 16 + l;
            },
            _ => {
                assert(!is_hex(s@)) by {
                    if is_hex(s@) {
                        assert(hex_digit_value(s@[2 * i]) is Some);
                        assert(hex_digit_value(s@[2 * i + 1]) is Some);
                    }
                }
                return None;
            },
        }
        i += 1;
    }
    assert(out@ =~= hex_bytes(s@));
    Some(out)
}

/// The lower-case digit of a value below 16, as a one-character string.
fn hex_digit_str(n: u8) -> (r: &'static str)
    requires
        n < 16,
    ensures
        r@ == seq![hex_digit_char(n)],
{
    let digits: &'static str = "0123456789abcdef";
    proof {
        reveal_strlit("0123456789abcdef");
    }
    let r = digits.substring_ascii(n as usize, n as usize + 1);
    assert(r@ =~= seq![hex_digit_char(n)]);
    r
}

/// Writes `N` bytes as `2 * N` lower-case hexadecimal digits.
pub fn encode_hex<const N: usize>(b: &[u8; N]) -> (r: String)
    ensures
        r@ == hex_string(b@),
{
    let mut out: String = String::new();
    let mut i: usize = 0;
    while i < N
        invariant
            i <= N,
            out@ == hex_string(b@).take(2 * i),
        decreases N - i,
    {
        let byte: u8 = b[i];
        out.append(hex_digit_str(byte / 16));
        out.append(hex_digit_str(byte % 16));
        i += 1;
        assert(out@ =~= hex_string(b@).take(2 * i));
    }
    assert(out@ =~= hex_string(b@));
    out
}

} // verus!
