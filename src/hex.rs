use vstd::prelude::*;

use crate::text::push_char;
use vstd::string::StringSliceAdditionalSpecFns;

verus! {

use vstd::utf8::encode_utf8;

broadcast use vstd::utf8::group_utf8_lib;

/// Errors returned from `unhexlify`.
#[derive(Clone, Copy, Debug, PartialEq, Eq, Structural)]
pub enum FromHexError {
    InvalidLength(usize),
    InvalidHexCharacter(usize, u8),
}

/// The sixteen lowercase hexadecimal digits, in order.
pub open spec fn hex_chars() -> Seq<char> {
    seq!['0', '1', '2', '3', '4', '5', '6', '7', '8', '9', 'a', 'b', 'c', 'd', 'e', 'f']
}

/// Two lowercase digits per byte, high nibble first.
pub open spec fn hex_of(b: Seq<u8>) -> Seq<char> {
    Seq::new(
        2 * b.len(),
        |i: int|
            if i % 2 == 0 {
                hex_chars()[b[i / 2] as int / 16]
            } else {
                hex_chars()[b[i / 2] as int % 16]
            },
    )
}

/// The value of one lowercase hexadecimal digit byte.
pub open spec fn hex_value(c: u8) -> Option<u8> {
    if 48 <= c <= 57 {
        Some((c - 48) as u8)
    } else if 97 <= c <= 102 {
        Some((c - 87) as u8)
    } else {
        None
    }
}

/// The bytes that an even-length run of valid digits stands for.
pub open spec fn unhex_of(s: Seq<u8>) -> Seq<u8> {
    Seq::new(
        s.len() / 2,
        |k: int| (hex_value(s[2 * k]).unwrap() * 16 + hex_value(s[2 * k + 1]).unwrap()) as u8,
    )
}

/// Every byte of `s` is a lowercase hexadecimal digit.
pub open spec fn all_hex(s: Seq<u8>) -> bool {
    forall|i: int| 0 <= i < s.len() ==> (#[trigger] hex_value(s[i])) is Some
}

/// What `unhexlify` gives for the bytes `s` of its input.
pub open spec fn unhexlify_result(s: Seq<u8>) -> Result<Seq<u8>, FromHexError> {
    if s.len() % 2 != 0 {
        Err(FromHexError::InvalidLength(s.len() as usize))
    } else if all_hex(s) {
        Ok(unhex_of(s))
    } else {
        let i = choose|i: int|
            0 <= i < s.len() && hex_value(s[i]) is None && forall|j: int|
                0 <= j < i ==> (#[trigger] hex_value(s[j])) is Some;
        Err(FromHexError::InvalidHexCharacter(i as usize, s[i]))
    }
}

fn hex_char(n: u8) -> (c: char)
    requires
        n < 16,
    ensures
        c == hex_chars()[n as int],
{
    match n {
        0 => '0',
        1 => '1',
        2 => '2',
        3 => '3',
        4 => '4',
        5 => '5',
        6 => '6',
        7 => '7',
        8 => '8',
        9 => '9',
        10 => 'a',
        11 => 'b',
        12 => 'c',
        13 => 'd',
        14 => 'e',
        _ => 'f',
    }
}

/// Convert an array of bytes to a string formed of lowercase hexadecimal characters.
pub fn hexlify(bytes: &[u8]) -> (r: String)
    ensures
        r@ == hex_of(bytes@),
{
    let mut result = String::new();
    let mut i: usize = 0;
    while i < bytes.len()
        invariant
            i <= bytes.len(),
            result@ == hex_of(bytes@.subrange(0, i as int)),
        decreases bytes.len() - i,
    {
        let byte = bytes[i];
        assert(byte >> 4 == byte / 16 && byte & 0xf == byte % 16) by (bit_vector);
        push_char(&mut result, hex_char(byte >> 4));
        push_char(&mut result, hex_char(byte & 0xf));
        i = i + 1;
        assert(result@ =~= hex_of(bytes@.subrange(0, i as int)));
    }
    assert(bytes@.subrange(0, i as int) =~= bytes@);
    result
}

proof fn lemma_first_invalid(s: Seq<u8>, i: int)
    requires
        s.len() % 2 == 0,
        0 <= i < s.len(),
        hex_value(s[i]) is None,
        forall|j: int| 0 <= j < i ==> (#[trigger] hex_value(s[j])) is Some,
    ensures
        unhexlify_result(s) == Err::<Seq<u8>, FromHexError>(
            FromHexError::InvalidHexCharacter(i as usize, s[i]),
        ),
{
    assert(!all_hex(s));
    let c = choose|c: int|
        0 <= c < s.len() && hex_value(s[c]) is None && forall|j: int|
            0 <= j < c ==> (#[trigger] hex_value(s[j])) is Some;
    if c < i {
        assert(hex_value(s[c]) is Some);
    } else if c > i {
        assert(hex_value(s[i]) is Some);
    }
}

/// The value of an ASCII digit byte `c` in `0-9a-f`.
fn digit_value(c: u8) -> (r: Option<u8>)
    ensures
        r == hex_value(c),
{
    if 48 <= c && c <= 57 {
        Some(c - 48)
    } else if 97 <= c && c <= 102 {
        Some(c - 87)
    } else {
        None
    }
}

/// Convert a string formed of lowercase hexadecimal characters to an array of bytes.
///
/// If the string contains an odd number of bytes, `InvalidLength` is returned.
/// If it contains a byte that is not a lowercase hexadecimal digit,
/// `InvalidHexCharacter` is returned for the first one.
pub fn unhexlify(input: &str) -> (r: Result<Vec<u8>, FromHexError>)
    ensures
        match r {
            Ok(v) => unhexlify_result(input.spec_bytes()) == Ok::<Seq<u8>, FromHexError>(v@),
            Err(e) => unhexlify_result(input.spec_bytes()) == Err::<Seq<u8>, FromHexError>(e),
        },
{
    let bytes = input.as_bytes();
    let ghost s = bytes@;
    if bytes.len() % 2 != 0 {
        return Err(FromHexError::InvalidLength(bytes.len()));
    }
    let mut result: Vec<u8> = Vec::new();
    let mut k: usize = 0;
    while k < bytes.len() / 2
        invariant
            s == bytes@,
            s == input.spec_bytes(),
            s.len() % 2 == 0,
            k <= s.len() / 2,
            forall|j: int| 0 <= j < 2 * k ==> (#[trigger] hex_value(s[j])) is Some,
            result@ == unhex_of(s.subrange(0, 2 * k)),
        decreases bytes.len() / 2 - k,
    {
        let high = match digit_value(bytes[2 * k]) {
            Some(h) => h,
            None => {
                let r = Err(FromHexError::InvalidHexCharacter(2 * k, bytes[2 * k]));
                proof {
                    lemma_first_invalid(s, 2 * k as int);
                }
                return r;
            },
        };
        let low = match digit_value(bytes[2 * k + 1]) {
            Some(l) => l,
            None => {
                let r = Err(FromHexError::InvalidHexCharacter(2 * k + 1, bytes[2 * k + 1]));
                proof {
                    lemma_first_invalid(s, 2 * k + 1);
                }
                return r;
            },
        };
        result.push(high * 16 + low);
        k = k + 1;
        assert(result@ =~= unhex_of(s.subrange(0, 2 * k)));
    }
    assert(s.subrange(0, 2 * k as int) =~= s);
    Ok(result)
}

proof fn lemma_nibble(n: int)
    requires
        0 <= n < 16,
    ensures
        '\0' <= hex_chars()[n] <= '\u{7f}',
        hex_value(hex_chars()[n] as u8) == Some(n as u8),
{
    assert(n == 0 || n == 1 || n == 2 || n == 3 || n == 4 || n == 5 || n == 6 || n == 7 || n == 8
        || n == 9 || n == 10 || n == 11 || n == 12 || n == 13 || n == 14 || n == 15);
}

proof fn lemma_digit_char(c: char)
    requires
        hex_chars().contains(c),
    ensures
        '\0' <= c <= '\u{7f}',
        hex_value(c as u8) is Some,
        hex_chars()[hex_value(c as u8).unwrap() as int] == c,
{
    let n = choose|n: int| 0 <= n < 16 && hex_chars()[n] == c;
    lemma_nibble(n);
}

/// Decoding the hex text of any bytes gives those bytes back.
pub proof fn lemma_unhexlify_hexlify(b: Seq<u8>)
    ensures
        unhexlify_result(encode_utf8(hex_of(b))) == Ok::<Seq<u8>, FromHexError>(b),
{
    let h = hex_of(b);
    assert forall|i: int| 0 <= i < h.len() implies '\0' <= #[trigger] h[i] <= '\u{7f}' && hex_value(
        h[i] as u8,
    ) is Some by {
        if i % 2 == 0 {
            lemma_nibble(b[i / 2] as int / 16);
        } else {
            lemma_nibble(b[i / 2] as int % 16);
        }
    }
    assert(vstd::utf8::is_ascii_chars(h));
    let e = encode_utf8(h);
    assert(all_hex(e));
    assert forall|k: int| 0 <= k < b.len() implies #[trigger] unhex_of(e)[k] == b[k] by {
        lemma_nibble(b[k] as int / 16);
        lemma_nibble(b[k] as int % 16);
        assert(e[2 * k] == h[2 * k] as u8);
        assert(e[2 * k + 1] == h[2 * k + 1] as u8);
    }
    assert(unhex_of(e) =~= b);
}

/// Every character of `s` is a lowercase hexadecimal digit.
pub open spec fn is_lower_hex(s: Seq<char>) -> bool {
    forall|i: int| 0 <= i < s.len() ==> hex_chars().contains(#[trigger] s[i])
}

/// Encoding the bytes of any valid even-length lowercase hex text gives that text back.
pub proof fn lemma_hexlify_unhexlify(s: Seq<char>)
    requires
        s.len() % 2 == 0,
        is_lower_hex(s),
    ensures
        unhexlify_result(encode_utf8(s)) is Ok,
        hex_of(unhexlify_result(encode_utf8(s)).unwrap()) == s,
{
    assert forall|i: int| 0 <= i < s.len() implies '\0' <= #[trigger] s[i] <= '\u{7f}' by {
        lemma_digit_char(s[i]);
    }
    assert(vstd::utf8::is_ascii_chars(s));
    let e = encode_utf8(s);
    assert forall|i: int| 0 <= i < e.len() implies (#[trigger] hex_value(e[i])) is Some by {
        lemma_digit_char(s[i]);
        assert(e[i] == s[i] as u8);
    }
    let v = unhex_of(e);
    assert forall|i: int| 0 <= i < s.len() implies #[trigger] hex_of(v)[i] == s[i] by {
        let k = i / 2;
        lemma_digit_char(s[2 * k]);
        lemma_digit_char(s[2 * k + 1]);
        assert(e[2 * k] == s[2 * k] as u8);
        assert(e[2 * k + 1] == s[2 * k + 1] as u8);
        let hi = hex_value(e[2 * k]).unwrap();
        let lo = hex_value(e[2 * k + 1]).unwrap();
        assert(v[k] == (hi * 16 + lo) as u8);
        assert(hi < 16 && lo < 16);
        assert((hi * 16 + lo) / 16 == hi && (hi * 16 + lo) % 16 == lo) by (nonlinear_arith)
            requires
                hi < 16,
                lo < 16,
        ;
    }
    assert(hex_of(v) =~= s);
}

} // verus!
