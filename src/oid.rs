use vstd::prelude::*;

use crate::error::{Error, ErrorKind, Result};
use crate::text::push_char;
use vstd::string::StringSliceAdditionalSpecFns;
use vstd::utf8::encode_utf8;

verus! {

/// The ten decimal digits, in order.
pub open spec fn decimal_chars() -> Seq<char> {
    seq!['0', '1', '2', '3', '4', '5', '6', '7', '8', '9']
}

/// `n` written in decimal, without leading zeros.
pub open spec fn dec(n: nat) -> Seq<char>
    decreases n,
{
    if n < 10 {
        seq![decimal_chars()[n as int]]
    } else {
        dec(n / 10).push(decimal_chars()[(n % 10) as int])
    }
}

/// The arcs written in decimal and joined by dots.
pub open spec fn dotted(arcs: Seq<nat>) -> Seq<char>
    decreases arcs.len(),
{
    if arcs.len() == 0 {
        seq![]
    } else if arcs.len() == 1 {
        dec(arcs[0])
    } else {
        dotted(arcs.drop_last()) + seq!['.'] + dec(arcs.last())
    }
}

/// The largest accumulated arc value that can take seven more bits within 32 bits.
pub open spec fn arc_limit() -> nat {
    0x1FFFFFF
}

/// The arcs that the base-128 bytes `s` encode, given `acc` already accumulated
/// for the current arc. A trailing unterminated arc is left out.
pub open spec fn arcs_from(s: Seq<u8>, acc: nat) -> core::result::Result<Seq<nat>, ErrorKind>
    decreases s.len(),
{
    if s.len() == 0 {
        Ok(seq![])
    } else if acc > arc_limit() {
        Err(ErrorKind::ArcTooLarge)
    } else if s[0] == 0x80 && acc == 0 {
        Err(ErrorKind::IllegalPadding)
    } else if s[0] < 128 {
        match arcs_from(s.drop_first(), 0) {
            Ok(rest) => Ok(seq![acc * 128 + s[0] as nat] + rest),
            Err(k) => Err(k),
        }
    } else {
        arcs_from(s.drop_first(), acc * 128 + (s[0] - 128) as nat)
    }
}

/// The two arcs packed in the first byte of an encoded OID.
pub open spec fn first_arcs(b: u8) -> Seq<nat> {
    seq![(b / 40) as nat, (b % 40) as nat]
}

/// The dotted text of the encoded OID `s`, or why it has none.
pub open spec fn oid_text(s: Seq<u8>) -> core::result::Result<Seq<char>, ErrorKind> {
    if s.len() == 0 {
        Err(ErrorKind::EmptyOid)
    } else {
        match arcs_from(s.drop_first(), 0) {
            Ok(arcs) => Ok(dotted(first_arcs(s[0]) + arcs)),
            Err(k) => Err(k),
        }
    }
}

spec fn prepend(e: Seq<nat>, r: core::result::Result<Seq<nat>, ErrorKind>) -> core::result::Result<
    Seq<nat>,
    ErrorKind,
> {
    match r {
        Ok(x) => Ok(e + x),
        Err(k) => Err(k),
    }
}

fn decimal_char(d: u32) -> (c: char)
    requires
        d < 10,
    ensures
        c == decimal_chars()[d as int],
{
    match d {
        0 => '0',
        1 => '1',
        2 => '2',
        3 => '3',
        4 => '4',
        5 => '5',
        6 => '6',
        7 => '7',
        8 => '8',
        _ => '9',
    }
}

/// Appends `n` in decimal.
fn push_decimal(s: &mut String, n: u32)
    ensures
        final(s)@ == old(s)@ + dec(n as nat),
    decreases n,
{
    if n >= 10 {
        push_decimal(s, n / 10);
    }
    push_char(s, decimal_char(n % 10));
    assert(final(s)@ =~= old(s)@ + dec(n as nat));
}

/// Converts a BER-encoded OID to its dotted string representation.
///
/// The limit for every arc value is 4294967295. If the BER-encoding
/// representation of the OID doesn't respect that, the function fails.
pub fn stringify(input: &[u8]) -> (r: Result<String>)
    ensures
        match oid_text(input@) {
            Ok(t) => r is Ok && r.unwrap()@ == t,
            Err(k) => r == Err::<String, Error>(Error(k)),
        },
{
    if input.len() == 0 {
        return Err(Error(ErrorKind::EmptyOid));
    }
    let ghost s = input@.drop_first();
    let ghost first = first_arcs(input[0]);
    let mut result = String::new();
    push_decimal(&mut result, (input[0] / 40) as u32);
    push_char(&mut result, '.');
    push_decimal(&mut result, (input[0] % 40) as u32);
    proof {
        assert(first.drop_last() =~= seq![first[0]]);
        assert(dotted(first.drop_last()) == dec(first[0]));
        assert(result@ =~= dotted(first));
        assert(s.subrange(0, s.len() as int) =~= s);
    }
    let ghost mut emitted: Seq<nat> = seq![];
    let mut value: u32 = 0;
    let mut i: usize = 1;
    while i < input.len()
        invariant
            1 <= i <= input.len(),
            s == input@.drop_first(),
            first == first_arcs(input@[0]),
            result@ == dotted(first + emitted),
            arcs_from(s, 0) == prepend(emitted, arcs_from(s.subrange(i - 1, s.len() as int), value as nat)),
        decreases input.len() - i,
    {
        let byte = input[i];
        let ghost t = s.subrange(i - 1, s.len() as int);
        assert(t[0] == byte);
        assert(t.drop_first() =~= s.subrange(i as int, s.len() as int));
        if value > 0x1FFFFFF {
            return Err(Error(ErrorKind::ArcTooLarge));
        }
        if byte == 0x80 && value == 0 {
            return Err(Error(ErrorKind::IllegalPadding));
        }
        let ghost old_value = value as nat;
        let ghost old_emitted = emitted;
        value = value * 128 + (byte % 128) as u32;
        if byte < 128 {
            assert(arcs_from(t, old_value) == prepend(seq![value as nat], arcs_from(t.drop_first(), 0)));
            push_char(&mut result, '.');
            push_decimal(&mut result, value);
            proof {
                let all = first + emitted.push(value as nat);
                assert(all.drop_last() =~= first + emitted);
                assert(result@ =~= dotted(all));
                emitted = emitted.push(value as nat);
                assert(arcs_from(s, 0) == prepend(emitted, arcs_from(s.subrange(i as int, s.len() as int), 0)))
                    by {
                    match arcs_from(s.subrange(i as int, s.len() as int), 0) {
                        Ok(x) => {
                            assert(old_emitted + (seq![value as nat] + x) =~= emitted + x);
                        },
                        Err(_) => {},
                    }
                }
            }
            value = 0;
        }
        i = i + 1;
    }
    proof {
        assert(s.subrange(i - 1, s.len() as int).len() == 0);
        assert(emitted + seq![] =~= emitted);
    }
    Ok(result)
}

/// The pieces of `s` between dots, in order.
pub open spec fn split_dots(s: Seq<u8>) -> Seq<Seq<u8>>
    decreases s.len(),
{
    if s.len() == 0 {
        seq![seq![]]
    } else {
        let r = split_dots(s.drop_last());
        if s.last() == 46 {
            r.push(seq![])
        } else {
            r.update(r.len() - 1, r.last().push(s.last()))
        }
    }
}

/// An ASCII decimal digit.
pub open spec fn is_digit(c: u8) -> bool {
    48 <= c <= 57
}

/// The value of a run of ASCII decimal digits.
pub open spec fn digits_value(p: Seq<u8>) -> nat
    decreases p.len(),
{
    if p.len() == 0 {
        0
    } else {
        digits_value(p.drop_last()) * 10 + (p.last() - 48) as nat
    }
}

/// The digits of an unsigned number's text, past an optional leading `+`.
pub open spec fn unsigned_digits(p: Seq<u8>) -> Seq<u8> {
    if p.len() > 0 && p[0] == 43 {
        p.drop_first()
    } else {
        p
    }
}

/// The value of the text `p` read as an unsigned integer no larger than `max`.
pub open spec fn number(p: Seq<u8>, max: nat) -> Option<nat> {
    let d = unsigned_digits(p);
    if d.len() > 0 && (forall|i: int| 0 <= i < d.len() ==> #[trigger] is_digit(d[i]))
        && digits_value(d) <= max {
        Some(digits_value(d))
    } else {
        None
    }
}

/// The leading base-128 groups of a value, each with its continuation bit set.
pub open spec fn base128_high(v: nat) -> Seq<u8>
    decreases v,
{
    if v == 0 {
        seq![]
    } else {
        base128_high(v / 128).push((v % 128 + 128) as u8)
    }
}

/// The shortest base-128 encoding of one arc, most significant group first.
pub open spec fn base128(v: nat) -> Seq<u8> {
    base128_high(v / 128).push((v % 128) as u8)
}

/// The arcs encoded one after the other.
pub open spec fn encode_arcs(arcs: Seq<nat>) -> Seq<u8>
    decreases arcs.len(),
{
    if arcs.len() == 0 {
        seq![]
    } else {
        base128(arcs[0]) + encode_arcs(arcs.drop_first())
    }
}

/// The largest value of an arc.
pub open spec fn u32_max() -> nat {
    0xFFFF_FFFF
}

/// The arcs after the first two of a dotted OID split into `p`.
pub open spec fn later_arcs(p: Seq<Seq<u8>>) -> Seq<nat> {
    Seq::new((p.len() - 2) as nat, |i: int| number(p[i + 2], u32_max()).unwrap())
}

/// The BER encoding of the dotted OID whose bytes are `s`, or why it has none.
pub open spec fn oid_bytes(s: Seq<u8>) -> core::result::Result<Seq<u8>, ErrorKind> {
    let p = split_dots(s);
    if s.len() == 0 {
        Err(ErrorKind::EmptyOid)
    } else if p.len() < 2 {
        Err(ErrorKind::SingleArc)
    } else if number(p[0], 255) is None || number(p[1], 255) is None {
        Err(ErrorKind::InvalidNumber)
    } else if number(p[0], 255).unwrap() > 5 || number(p[1], 255).unwrap() > 39 {
        Err(ErrorKind::InvalidFirstArcs)
    } else if exists|i: int| 2 <= i < p.len() && (#[trigger] number(p[i], u32_max())) is None {
        Err(ErrorKind::InvalidNumber)
    } else {
        Ok(
            seq![(number(p[0], 255).unwrap() * 40 + number(p[1], 255).unwrap()) as u8]
                + encode_arcs(later_arcs(p)),
        )
    }
}

proof fn lemma_encode_arcs_push(arcs: Seq<nat>, x: nat)
    ensures
        encode_arcs(arcs.push(x)) == encode_arcs(arcs) + base128(x),
    decreases arcs.len(),
{
    if arcs.len() == 0 {
        assert(arcs.push(x).drop_first() =~= seq![]);
        assert(encode_arcs(arcs.push(x).drop_first()) == Seq::<u8>::empty());
        assert(encode_arcs(arcs) == Seq::<u8>::empty());
        assert(encode_arcs(arcs.push(x)) =~= encode_arcs(arcs) + base128(x));
    } else {
        assert(arcs.push(x).drop_first() =~= arcs.drop_first().push(x));
        lemma_encode_arcs_push(arcs.drop_first(), x);
        assert(encode_arcs(arcs.push(x)) == base128(arcs[0]) + encode_arcs(arcs.drop_first().push(x)));
        assert(encode_arcs(arcs) == base128(arcs[0]) + encode_arcs(arcs.drop_first()));
        assert(encode_arcs(arcs.push(x)) =~= encode_arcs(arcs) + base128(x));
    }
}

/// Appends the leading groups of `v`.
fn push_base128_high(out: &mut Vec<u8>, v: u32)
    ensures
        final(out)@ == old(out)@ + base128_high(v as nat),
    decreases v,
{
    if v > 0 {
        push_base128_high(out, v / 128);
        out.push((v % 128 + 128) as u8);
        assert(final(out)@ =~= old(out)@ + base128_high(v as nat));
    } else {
        assert(final(out)@ =~= old(out)@ + base128_high(v as nat));
    }
}

/// Appends the base-128 encoding of one arc.
fn push_base128(out: &mut Vec<u8>, v: u32)
    ensures
        final(out)@ == old(out)@ + base128(v as nat),
{
    push_base128_high(out, v / 128);
    out.push((v % 128) as u8);
    assert(final(out)@ =~= old(out)@ + base128(v as nat));
}

/// Reads `b[start..end]` as an unsigned integer no larger than `max`.
fn parse_number(b: &[u8], start: usize, end: usize, max: u32) -> (r: Option<u32>)
    requires
        start <= end <= b@.len(),
    ensures
        match number(b@.subrange(start as int, end as int), max as nat) {
            Some(n) => r == Some(n as u32),
            None => r is None,
        },
{
    let ghost p = b@.subrange(start as int, end as int);
    let mut j: usize = start;
    if j < end && b[j] == 43 {
        j = j + 1;
    }
    let ghost j0 = j as int;
    let ghost d = unsigned_digits(p);
    assert(d =~= b@.subrange(j0, end as int));
    if j == end {
        return None;
    }
    let mut value: u64 = 0;
    while j < end
        invariant
            start <= j0 <= j <= end <= b@.len(),
            d == b@.subrange(j0, end as int),
            d == unsigned_digits(b@.subrange(start as int, end as int)),
            forall|k: int| 0 <= k < j - j0 ==> #[trigger] is_digit(d[k]),
            value as nat == if digits_value(d.subrange(0, j - j0)) <= max as nat {
                digits_value(d.subrange(0, j - j0))
            } else {
                max as nat + 1
            },
        decreases end - j,
    {
        let c = b[j];
        if c < 48 || c > 57 {
            assert(c == b@[j as int]);
            assert(j - j0 < d.len());
            assert(d[j - j0] == b@[j as int]);
            assert(!is_digit(d[j - j0]));
            return None;
        }
        let ghost x = digits_value(d.subrange(0, j - j0));
        let ghost y = digits_value(d.subrange(0, j + 1 - j0));
        assert(d.subrange(0, j + 1 - j0).drop_last() =~= d.subrange(0, j - j0));
        assert(y == x * 10 + (c - 48) as nat);
        let prev = value;
        let next = value * 10 + (c - 48) as u64;
        if next > max as u64 {
            value = max as u64 + 1;
        } else {
            value = next;
        }
        assert(value as nat == if y <= max as nat { y } else { max as nat + 1 }) by (nonlinear_arith)
            requires
                y == x * 10 + (c - 48) as nat,
                x <= max as nat ==> prev as nat == x,
                x > max as nat ==> prev as nat == max as nat + 1,
                next == prev * 10 + (c - 48) as u64,
                next > max as u64 ==> value as nat == max as nat + 1,
                next <= max as u64 ==> value == next,
                48 <= c <= 57,
        ;
        j = j + 1;
    }
    assert(d.subrange(0, j - j0) =~= d);
    if value > max as u64 {
        None
    } else {
        Some(value as u32)
    }
}

/// Converts a dotted OID to its BER-encoded representation.
///
/// The limit for every arc value is 4294967295.
pub fn parse_oid(input: &str) -> (r: Result<Vec<u8>>)
    ensures
        match oid_bytes(input.spec_bytes()) {
            Ok(v) => r is Ok && r.unwrap()@ == v,
            Err(k) => r == Err::<Vec<u8>, Error>(Error(k)),
        },
{
    let bytes = input.as_bytes();
    let ghost s = bytes@;
    if bytes.len() == 0 {
        return Err(Error(ErrorKind::EmptyOid));
    }
    // Where each piece between dots starts and ends.
    let mut ranges: Vec<(usize, usize)> = Vec::new();
    let mut cur: usize = 0;
    let mut i: usize = 0;
    assert(split_dots(s.subrange(0, 0)) =~~= Seq::new(
        ranges@.len() + 1,
        |k: int|
            if k < ranges@.len() {
                s.subrange(ranges@[k].0 as int, ranges@[k].1 as int)
            } else {
                s.subrange(cur as int, i as int)
            },
    ));
    while i < bytes.len()
        invariant
            s == bytes@,
            s == input.spec_bytes(),
            cur <= i <= s.len(),
            forall|k: int| 0 <= k < ranges@.len() ==> (#[trigger] ranges@[k]).0 <= ranges@[k].1 <= cur,
            split_dots(s.subrange(0, i as int)) == Seq::new(
                ranges@.len() + 1,
                |k: int|
                    if k < ranges@.len() {
                        s.subrange(ranges@[k].0 as int, ranges@[k].1 as int)
                    } else {
                        s.subrange(cur as int, i as int)
                    },
            ),
        decreases s.len() - i,
    {
        let ghost before = split_dots(s.subrange(0, i as int));
        assert(s.subrange(0, i + 1).drop_last() =~= s.subrange(0, i as int));
        if bytes[i] == 46 {
            ranges.push((cur, i));
            cur = i + 1;
        }
        i = i + 1;
        assert(split_dots(s.subrange(0, i as int)) =~~= Seq::new(
            ranges@.len() + 1,
            |k: int|
                if k < ranges@.len() {
                    s.subrange(ranges@[k].0 as int, ranges@[k].1 as int)
                } else {
                    s.subrange(cur as int, i as int)
                },
        ));
    }
    ranges.push((cur, bytes.len()));
    let ghost p = split_dots(s);
    assert(s.subrange(0, s.len() as int) =~= s);
    assert(p.len() == ranges@.len());
    assert(forall|k: int|
        0 <= k < p.len() ==> p[k] == s.subrange(ranges@[k].0 as int, ranges@[k].1 as int));
    if ranges.len() < 2 {
        return Err(Error(ErrorKind::SingleArc));
    }
    let b1 = match parse_number(bytes, ranges[0].0, ranges[0].1, 255) {
        Some(n) => n,
        None => {
            return Err(Error(ErrorKind::InvalidNumber));
        },
    };
    let b2 = match parse_number(bytes, ranges[1].0, ranges[1].1, 255) {
        Some(n) => n,
        None => {
            return Err(Error(ErrorKind::InvalidNumber));
        },
    };
    if 5 < b1 || 39 < b2 {
        return Err(Error(ErrorKind::InvalidFirstArcs));
    }
    let mut result: Vec<u8> = Vec::new();
    result.push((b1 * 40 + b2) as u8);
    let ghost mut arcs: Seq<nat> = seq![];
    let mut k: usize = 2;
    while k < ranges.len()
        invariant
            s == bytes@,
            s == input.spec_bytes(),
            s.len() > 0,
            p == split_dots(s),
            number(p[0], 255) == Some(b1 as nat),
            number(p[1], 255) == Some(b2 as nat),
            b1 <= 5 && b2 <= 39,
            2 <= k <= ranges@.len() == p.len(),
            forall|j: int| 0 <= j < p.len() ==> p[j] == s.subrange(#[trigger] ranges@[j].0 as int, ranges@[j].1 as int),
            forall|j: int| 0 <= j < p.len() ==> (#[trigger] ranges@[j]).0 <= ranges@[j].1 <= s.len(),
            arcs == later_arcs(p).subrange(0, k - 2),
            forall|j: int| 2 <= j < k ==> (#[trigger] number(p[j], u32_max())) is Some,
            result@ == seq![(b1 * 40 + b2) as u8] + encode_arcs(arcs),
        decreases ranges.len() - k,
    {
        let v = match parse_number(bytes, ranges[k].0, ranges[k].1, 0xFFFF_FFFF) {
            Some(n) => n,
            None => {
                assert(number(p[k as int], u32_max()) is None);
                return Err(Error(ErrorKind::InvalidNumber));
            },
        };
        push_base128(&mut result, v);
        proof {
            lemma_encode_arcs_push(arcs, v as nat);
            arcs = arcs.push(v as nat);
            assert(arcs =~= later_arcs(p).subrange(0, k - 1));
        }
        k = k + 1;
        assert(result@ =~= seq![(b1 * 40 + b2) as u8] + encode_arcs(arcs));
    }
    assert(arcs =~= later_arcs(p));
    Ok(result)
}

/// The bytes of a text made of ASCII characters.
pub open spec fn ascii_bytes(t: Seq<char>) -> Seq<u8> {
    t.map_values(|c: char| c as u8)
}

/// No byte of `w` is a dot.
pub open spec fn no_dot(w: Seq<u8>) -> bool {
    forall|i: int| 0 <= i < w.len() ==> w[i] != 46
}

proof fn lemma_dec(n: nat)
    ensures
        dec(n).len() > 0,
        forall|i: int| 0 <= i < dec(n).len() ==> '0' <= #[trigger] dec(n)[i] <= '9',
        forall|i: int| 0 <= i < dec(n).len() ==> is_digit(#[trigger] ascii_bytes(dec(n))[i]),
        digits_value(ascii_bytes(dec(n))) == n,
    decreases n,
{
    let d = (n % 10) as int;
    assert(d == 0 || d == 1 || d == 2 || d == 3 || d == 4 || d == 5 || d == 6 || d == 7 || d == 8
        || d == 9);
    assert('0' <= decimal_chars()[d] <= '9' && decimal_chars()[d] as u8 == 48 + d);
    let x = ascii_bytes(dec(n));
    if n < 10 {
        assert(x.drop_last() =~= seq![]);
        assert(x.last() == 48 + d);
        assert(digits_value(x) == digits_value(x.drop_last()) * 10 + (x.last() - 48) as nat);
    } else {
        lemma_dec(n / 10);
        assert(x.drop_last() =~= ascii_bytes(dec(n / 10)));
        assert(x.last() == 48 + d);
        assert(digits_value(x) == digits_value(x.drop_last()) * 10 + (x.last() - 48) as nat);
        assert(n == (n / 10) * 10 + n % 10);
        assert(forall|i: int|
            0 <= i < dec(n).len() ==> '0' <= #[trigger] dec(n)[i] <= '9');
    }
}

proof fn lemma_split_no_dot(w: Seq<u8>)
    requires
        no_dot(w),
    ensures
        split_dots(w) == seq![w],
    decreases w.len(),
{
    if w.len() == 0 {
        assert(split_dots(w) =~~= seq![w]);
    } else {
        lemma_split_no_dot(w.drop_last());
        assert(w.drop_last().push(w.last()) =~= w);
        assert(split_dots(w) =~~= seq![w]);
    }
}

proof fn lemma_split_after_dot(u: Seq<u8>, w: Seq<u8>)
    requires
        no_dot(w),
    ensures
        split_dots(u + seq![46u8] + w) == split_dots(u).push(w),
    decreases w.len(),
{
    let x = u + seq![46u8] + w;
    if w.len() == 0 {
        assert(x.drop_last() =~= u);
        assert(split_dots(x) =~~= split_dots(u).push(w));
    } else {
        lemma_split_after_dot(u, w.drop_last());
        assert(x.drop_last() =~= u + seq![46u8] + w.drop_last());
        assert(w.drop_last().push(w.last()) =~= w);
        assert(split_dots(x) =~~= split_dots(u).push(w));
    }
}

proof fn lemma_dotted(xs: Seq<nat>)
    requires
        xs.len() > 0,
    ensures
        forall|i: int|
            0 <= i < dotted(xs).len() ==> #[trigger] dotted(xs)[i] == '.' || '0' <= dotted(xs)[i]
                <= '9',
        dotted(xs).len() > 0,
        split_dots(ascii_bytes(dotted(xs))) == xs.map_values(|x: nat| ascii_bytes(dec(x))),
    decreases xs.len(),
{
    lemma_dec(xs.last());
    let w = ascii_bytes(dec(xs.last()));
    assert(no_dot(w));
    if xs.len() == 1 {
        lemma_split_no_dot(w);
        assert(xs.map_values(|x: nat| ascii_bytes(dec(x))) =~~= seq![w]);
    } else {
        let init = xs.drop_last();
        lemma_dotted(init);
        let u = ascii_bytes(dotted(init));
        assert(ascii_bytes(dotted(xs)) =~= u + seq![46u8] + w);
        lemma_split_after_dot(u, w);
        assert(xs.map_values(|x: nat| ascii_bytes(dec(x))) =~~= init.map_values(
            |x: nat| ascii_bytes(dec(x)),
        ).push(w));
        let t = dotted(xs);
        assert forall|i: int| 0 <= i < t.len() implies #[trigger] t[i] == '.' || '0' <= t[i] <= '9' by {
            if i < dotted(init).len() {
                assert(t[i] == dotted(init)[i]);
            } else if i > dotted(init).len() {
                assert(t[i] == dec(xs.last())[i - dotted(init).len() - 1]);
            }
        }
    }
}

proof fn lemma_number_of_dec(n: nat, max: nat)
    requires
        n <= max,
    ensures
        number(ascii_bytes(dec(n)), max) == Some(n),
{
    lemma_dec(n);
    let b = ascii_bytes(dec(n));
    assert(is_digit(b[0]));
    assert(unsigned_digits(b) == b);
}

proof fn lemma_arcs_bounded(s: Seq<u8>, acc: nat)
    requires
        acc <= u32_max(),
        arcs_from(s, acc) is Ok,
    ensures
        forall|i: int|
            0 <= i < arcs_from(s, acc).unwrap().len() ==> #[trigger] arcs_from(s, acc).unwrap()[i]
                <= u32_max(),
    decreases s.len(),
{
    if s.len() > 0 {
        let v = acc * 128 + (s[0] % 128) as nat;
        assert(v <= u32_max()) by (nonlinear_arith)
            requires
                acc <= 0x1FFFFFF,
                v == acc * 128 + (s[0] % 128) as nat,
        ;
        if s[0] < 128 {
            lemma_arcs_bounded(s.drop_first(), 0);
            let rest = arcs_from(s.drop_first(), 0).unwrap();
            assert(arcs_from(s, acc).unwrap() == seq![v] + rest);
        } else {
            lemma_arcs_bounded(s.drop_first(), v);
        }
    }
}

proof fn lemma_encode_arcs_from(s: Seq<u8>, acc: nat)
    requires
        arcs_from(s, acc) is Ok,
        s.len() == 0 ==> acc == 0,
        s.len() > 0 ==> s.last() < 128,
    ensures
        encode_arcs(arcs_from(s, acc).unwrap()) == base128_high(acc) + s,
    decreases s.len(),
{
    if s.len() == 0 {
        assert(base128_high(0) + s =~= seq![]);
    } else if s[0] < 128 {
        let v = acc * 128 + s[0] as nat;
        let rest = s.drop_first();
        lemma_encode_arcs_from(rest, 0);
        let tail = arcs_from(rest, 0).unwrap();
        assert(arcs_from(s, acc).unwrap() == seq![v] + tail);
        assert((seq![v] + tail)[0] == v);
        assert((seq![v] + tail).drop_first() =~= tail);
        assert(v / 128 == acc && v % 128 == s[0]) by (nonlinear_arith)
            requires
                v == acc * 128 + s[0] as nat,
                s[0] < 128,
        ;
        assert(base128_high(0) + rest =~= rest);
        assert(encode_arcs(seq![v] + tail) =~= base128_high(acc) + s);
    } else {
        let v = acc * 128 + (s[0] - 128) as nat;
        let rest = s.drop_first();
        assert(rest.len() > 0);
        lemma_encode_arcs_from(rest, v);
        assert(v > 0);
        assert(v / 128 == acc && v % 128 == s[0] - 128) by (nonlinear_arith)
            requires
                v == acc * 128 + (s[0] - 128) as nat,
                128 <= s[0] < 256,
        ;
        assert(base128_high(v) == base128_high(acc).push(s[0]));
        assert(base128_high(v) + rest =~= base128_high(acc) + s);
    }
}

/// Encoding the dotted text of a well-formed encoded OID gives back its bytes,
/// for an OID whose first arc is at most 5 (first byte below 240) and whose
/// last arc is terminated.
pub proof fn lemma_oid_round_trip(a: Seq<u8>)
    requires
        oid_text(a) is Ok,
        a[0] < 240,
        a.len() > 1 ==> a.last() < 128,
    ensures
        oid_bytes(encode_utf8(oid_text(a).unwrap())) == Ok::<Seq<u8>, ErrorKind>(a),
{
    let s = a.drop_first();
    let arcs = arcs_from(s, 0).unwrap();
    let all = first_arcs(a[0]) + arcs;
    let t = dotted(all);
    lemma_dotted(all);
    assert forall|i: int| 0 <= i < t.len() implies '\0' <= #[trigger] t[i] <= '\u{7f}' by {}
    assert(vstd::utf8::is_ascii_chars(t));
    vstd::utf8::is_ascii_chars_encode_utf8(t);
    assert(encode_utf8(t) =~= ascii_bytes(t));
    let b = ascii_bytes(t);
    let p = split_dots(b);
    assert(p == all.map_values(|x: nat| ascii_bytes(dec(x))));
    lemma_dec(all[0]);
    lemma_number_of_dec(all[0], 255);
    lemma_number_of_dec(all[1], 255);
    lemma_arcs_bounded(s, 0);
    assert forall|i: int| 2 <= i < p.len() implies #[trigger] number(p[i], u32_max()) == Some(
        all[i],
    ) by {
        assert(all[i] == arcs[i - 2]);
        lemma_number_of_dec(all[i], u32_max());
    }
    assert(later_arcs(p) =~= arcs);
    if s.len() > 0 {
        assert(s.last() == a.last());
    }
    lemma_encode_arcs_from(s, 0);
    assert(base128_high(0) + s =~= s);
    assert(seq![((a[0] / 40) * 40 + a[0] % 40) as u8] + s =~= a);
}

} // verus!
