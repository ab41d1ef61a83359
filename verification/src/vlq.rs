//! Base64 VLQ codec used by the `mappings` field of a source map, plus the
//! plain base64 codec used for inline maps.

use vstd::prelude::*;
use vstd::string::StringSliceAdditionalSpecFns;
use crate::text::push_char;

verus! {

/// The base64 alphabet, as characters.
pub open spec fn spec_base64_char(v: int) -> char {
    if 0 <= v < 26 {
        (65 + v) as char
    } else if 26 <= v < 52 {
        (97 + (v - 26)) as char
    } else if 52 <= v < 62 {
        (48 + (v - 52)) as char
    } else if v == 62 {
        '+'
    } else {
        '/'
    }
}

/// The value of a base64 digit, or `None` for any other byte.
pub open spec fn spec_base64_value(b: u8) -> Option<int> {
    if 65 <= b <= 90 {
        Some(b - 65)
    } else if 97 <= b <= 122 {
        Some(b - 97 + 26)
    } else if 48 <= b <= 57 {
        Some(b - 48 + 52)
    } else if b == 43 {
        Some(62)
    } else if b == 47 {
        Some(63)
    } else {
        None
    }
}

/// Zigzag mapping of a signed value onto the VLQ magnitude: the sign goes
/// into the lowest bit.
pub open spec fn spec_zigzag(value: int) -> nat {
    if value < 0 {
        ((-value) * 2 + 1) as nat
    } else {
        (value * 2) as nat
    }
}

/// Base64 digits of a VLQ magnitude, least significant group first, with the
/// continuation bit set on every digit but the last.
pub open spec fn spec_vlq_digits(n: nat) -> Seq<char>
    decreases n,
{
    if n / 32 > 0 {
        seq![spec_base64_char((n % 32 + 32) as int)] + spec_vlq_digits(n / 32)
    } else {
        seq![spec_base64_char((n % 32) as int)]
    }
}

/// The base64 VLQ encoding of a signed value.
pub open spec fn spec_encode_vlq(value: int) -> Seq<char> {
    spec_vlq_digits(spec_zigzag(value))
}

fn base64_char(v: u64) -> (c: char)
    requires
        v < 64,
    ensures
        c == spec_base64_char(v as int),
{
    if v < 26 {
        ((65 + v) as u8) as char
    } else if v < 52 {
        ((97 + (v - 26)) as u8) as char
    } else if v < 62 {
        ((48 + (v - 52)) as u8) as char
    } else if v == 62 {
        '+'
    } else {
        '/'
    }
}

/// Appends the base64 VLQ encoding of a signed integer.
///
/// The magnitude must leave room for the sign bit in an `i64`.
pub fn encode_vlq(value: i64, out: &mut String)
    requires
        -0x4000_0000_0000_0000 < value < 0x4000_0000_0000_0000,
    ensures
        final(out)@ == old(out)@ + spec_encode_vlq(value as int),
{
    let mut vlq: u64 = if value < 0 {
        ((-value) as u64) * 2 + 1
    } else {
        (value as u64) * 2
    };
    let ghost start = old(out)@;
    let ghost total = spec_zigzag(value as int);
    assert(vlq == total);
    loop
        invariant_except_break
            start + spec_vlq_digits(total) == out@ + spec_vlq_digits(vlq as nat),
        ensures
            start + spec_vlq_digits(total) == out@,
        decreases vlq,
    {
        let mut digit = vlq % 32;
        let rest = vlq / 32;
        if rest > 0 {
            digit = digit + 32;
        }
        let c = base64_char(digit);
        proof {
            let n = vlq as nat;
            assert(spec_vlq_digits(n) == seq![c] + if rest > 0 { spec_vlq_digits(rest as nat) } else { Seq::<char>::empty() });
        }
        let ghost before = out@;
        push_char(out, c);
        vlq = rest;
        if vlq == 0 {
            assert(start + spec_vlq_digits(total) == out@);
            break;
        }
        assert(out@ + spec_vlq_digits(vlq as nat) == before + (seq![c] + spec_vlq_digits(vlq as nat)));
    }
}


/// Reads the digits of one VLQ magnitude from the front of `bytes`, giving
/// the magnitude and the number of digits read, or `None` when the bytes run
/// out before a digit without the continuation bit, or hold a non-base64
/// byte first.
pub open spec fn spec_vlq_read(bytes: Seq<u8>) -> Option<(nat, nat)>
    decreases bytes.len(),
{
    if bytes.len() == 0 {
        None
    } else {
        match spec_base64_value(bytes[0]) {
            None => None,
            Some(v) => if v >= 32 {
                match spec_vlq_read(bytes.drop_first()) {
                    Some((m, c)) => Some((((v - 32) + 32 * m) as nat, c + 1)),
                    None => None,
                }
            } else {
                Some((v as nat, 1))
            },
        }
    }
}

/// Undoes the zigzag mapping.
pub open spec fn spec_unzigzag(m: nat) -> int {
    if m % 2 == 1 {
        -((m / 2) as int)
    } else {
        (m / 2) as int
    }
}

/// The value and length of the VLQ at the front of `bytes`, when it is
/// complete and takes at most 12 digits (so that it fits in an `i64`).
pub open spec fn spec_decode_vlq(bytes: Seq<u8>) -> Option<(int, nat)> {
    match spec_vlq_read(bytes) {
        Some((m, c)) => if c <= 12 {
            Some((spec_unzigzag(m), c))
        } else {
            None
        },
        None => None,
    }
}

fn base64_decode_char(byte: u8) -> (r: Option<i64>)
    ensures
        r matches Some(v) ==> spec_base64_value(byte) == Some(v as int),
        r is None ==> spec_base64_value(byte) is None,
{
    if 65 <= byte && byte <= 90 {
        Some((byte - 65) as i64)
    } else if 97 <= byte && byte <= 122 {
        Some((byte - 97 + 26) as i64)
    } else if 48 <= byte && byte <= 57 {
        Some((byte - 48 + 52) as i64)
    } else if byte == 43 {
        Some(62)
    } else if byte == 47 {
        Some(63)
    } else {
        None
    }
}

proof fn lemma_vlq_read_bound(bytes: Seq<u8>)
    ensures
        spec_vlq_read(bytes) matches Some((m, c)) ==> c >= 1,
    decreases bytes.len(),
{
    if bytes.len() > 0 {
        lemma_vlq_read_bound(bytes.drop_first());
    }
}

/// A complete read takes at least one digit and at most the whole input, and
/// a value of at most 12 digits stays below 2^60.
pub proof fn lemma_vlq_read_len(bytes: Seq<u8>)
    ensures
        spec_decode_vlq(bytes) matches Some((v, n)) ==> 1 <= n <= bytes.len()
            && -0x1000_0000_0000_0000 < v < 0x1000_0000_0000_0000,
{
    lemma_vlq_read_bound(bytes);
    lemma_vlq_read_le(bytes);
    match spec_vlq_read(bytes) {
        Some((m, c)) => {
            if c <= 12 {
                lemma_vlq_read_magnitude(bytes);
                vstd::arithmetic::power::lemma_pow_increases(32, c, 12);
                assert(vstd::arithmetic::power::pow(32, 12) == 0x1000_0000_0000_0000) by {
                    reveal_with_fuel(vstd::arithmetic::power::pow, 13);
                }
            }
        },
        None => {},
    }
}

proof fn lemma_vlq_read_le(bytes: Seq<u8>)
    ensures
        spec_vlq_read(bytes) matches Some((m, c)) ==> c <= bytes.len(),
    decreases bytes.len(),
{
    if bytes.len() > 0 {
        lemma_vlq_read_le(bytes.drop_first());
    }
}

proof fn lemma_vlq_read_magnitude(bytes: Seq<u8>)
    ensures
        spec_vlq_read(bytes) matches Some((m, c)) ==> m < vstd::arithmetic::power::pow(32, c),
    decreases bytes.len(),
{
    if bytes.len() > 0 {
        lemma_vlq_read_magnitude(bytes.drop_first());
        match spec_base64_value(bytes[0]) {
            Some(v) => {
                if v >= 32 {
                    match spec_vlq_read(bytes.drop_first()) {
                        Some((m, c)) => {
                            vstd::arithmetic::power::lemma_pow_adds(32, 1, c);
                            vstd::arithmetic::power::lemma_pow1(32);
                            assert((v - 32) + 32 * m < 32 * vstd::arithmetic::power::pow(32, c)) by (nonlinear_arith)
                                requires v - 32 < 32, 0 <= v - 32, m < vstd::arithmetic::power::pow(32, c);
                        },
                        None => {},
                    }
                } else {
                    vstd::arithmetic::power::lemma_pow1(32);
                }
            },
            None => {},
        }
    }
}

/// Decodes one base64 VLQ value, returning it with the number of bytes read.
///
/// Gives `None` when the bytes end inside the value, hold a byte outside the
/// base64 alphabet, or need more than 12 digits.
pub fn decode_vlq(bytes: &[u8]) -> (r: Option<(i64, usize)>)
    ensures
        r matches Some((v, n)) ==> spec_decode_vlq(bytes@) == Some((v as int, n as nat)),
        r is None ==> spec_decode_vlq(bytes@) is None,
{
    let mut result: u64 = 0;
    let mut scale: u64 = 1;
    let mut read: usize = 0;
    proof {
        assert(bytes@.skip(0) =~= bytes@);
        vstd::arithmetic::power::lemma_pow0(32);
    }
    loop
        invariant_except_break
            read <= 11,
            read < bytes@.len() + 1,
            scale == vstd::arithmetic::power::pow(32, read as nat),
            result < scale,
            spec_vlq_read(bytes@.skip(read as int)) matches Some((m, c)) ==>
                spec_vlq_read(bytes@) == Some(((result + scale * m) as nat, (read + c) as nat)),
            spec_vlq_read(bytes@.skip(read as int)) is None ==> spec_vlq_read(bytes@) is None,
        ensures
            1 <= read <= 12,
            result < 0x1000_0000_0000_0000,
            spec_vlq_read(bytes@) == Some((result as nat, read as nat)),
        decreases 12 - read,
    {
        let ghost rest = bytes@.skip(read as int);
        if read >= bytes.len() {
            assert(rest.len() == 0);
            return None;
        }
        let byte = bytes[read];
        assert(rest[0] == byte);
        let digit = match base64_decode_char(byte) {
            Some(d) => d,
            None => {
                return None;
            },
        };
        assert(rest.drop_first() =~= bytes@.skip(read + 1));
        let low = (digit % 32) as u64;
        proof {
            vstd::arithmetic::power::lemma_pow_adds(32, read as nat, 1);
            vstd::arithmetic::power::lemma_pow1(32);
            assert(result + scale * low < scale * 32) by (nonlinear_arith)
                requires result < scale, low < 32;
            assert(scale * 32 <= 0x1000_0000_0000_0000) by {
                vstd::arithmetic::power::lemma_pow_increases(32, (read + 1) as nat, 12);
                reveal_with_fuel(vstd::arithmetic::power::pow, 13);
                assert(vstd::arithmetic::power::pow(32, 12) == 0x1000_0000_0000_0000);
            }
            assert(scale * low <= scale * 31) by (nonlinear_arith)
                requires low < 32;
        }
        let new_result = result + scale * low;
        if digit < 32 {
            read = read + 1;
            result = new_result;
            proof {
                assert(spec_vlq_read(rest) == Some((low as nat, 1nat)));
            }
            break;
        }
        if read == 11 {
            proof {
                // A twelfth digit still carries the continuation bit.
                lemma_vlq_read_bound(rest.drop_first());
                match spec_vlq_read(rest.drop_first()) {
                    Some((m2, c2)) => {
                        assert(spec_vlq_read(rest) == Some(((low + 32 * m2) as nat, (c2 + 1) as nat)));
                    },
                    None => {},
                }
            }
            return None;
        }
        proof {
            match spec_vlq_read(rest.drop_first()) {
                Some((m2, c2)) => {
                    assert(spec_vlq_read(rest) == Some(((low + 32 * m2) as nat, (c2 + 1) as nat)));
                    assert(result + scale * (low + 32 * m2) == new_result + (scale * 32) * m2) by (nonlinear_arith)
                        requires new_result == result + scale * low;
                },
                None => {},
            }
        }
        result = new_result;
        scale = scale * 32;
        read = read + 1;
    }
    let negative = result % 2 == 1;
    let half = (result / 2) as i64;
    let value = if negative { -half } else { half };
    Some((value, read))
}


/// The bytes of a string of ASCII characters.
pub open spec fn spec_ascii_bytes(chars: Seq<char>) -> Seq<u8> {
    chars.map_values(|c: char| c as u8)
}

proof fn lemma_base64_char_value(v: int)
    requires
        0 <= v < 64,
    ensures
        spec_base64_value(spec_base64_char(v) as u8) == Some(v),
        (spec_base64_char(v) as u32) < 128,
{
}

proof fn lemma_vlq_digits_read(n: nat, rest: Seq<u8>)
    ensures
        spec_vlq_read(spec_ascii_bytes(spec_vlq_digits(n)) + rest) == Some((n, spec_vlq_digits(n).len())),
    decreases n,
{
    let bytes = spec_ascii_bytes(spec_vlq_digits(n)) + rest;
    if n / 32 > 0 {
        lemma_base64_char_value((n % 32 + 32) as int);
        lemma_vlq_digits_read(n / 32, rest);
        let tail = spec_ascii_bytes(spec_vlq_digits(n / 32)) + rest;
        assert(bytes.drop_first() =~= tail);
        assert(bytes[0] == spec_base64_char((n % 32 + 32) as int) as u8);
    } else {
        lemma_base64_char_value((n % 32) as int);
        assert(bytes[0] == spec_base64_char((n % 32) as int) as u8);
    }
}

proof fn lemma_vlq_digits_len(n: nat, k: nat)
    requires
        n < vstd::arithmetic::power::pow(32, k),
        k >= 1,
    ensures
        spec_vlq_digits(n).len() <= k,
        spec_vlq_digits(n).len() >= 1,
    decreases n,
{
    vstd::arithmetic::power::lemma_pow_positive(32, k);
    if k == 0 {
        vstd::arithmetic::power::lemma_pow0(32);
    } else {
        vstd::arithmetic::power::lemma_pow_adds(32, (k - 1) as nat, 1);
        vstd::arithmetic::power::lemma_pow1(32);
    }
    if n / 32 > 0 {
        if k == 0 {
            assert(false);
        } else {
            let p = vstd::arithmetic::power::pow(32, (k - 1) as nat);
            assert(n / 32 < p) by (nonlinear_arith)
                requires n < p * 32;
            if k == 1 {
                vstd::arithmetic::power::lemma_pow0(32);
            }
            lemma_vlq_digits_len(n / 32, (k - 1) as nat);
        }
    }
}

/// Every digit of a VLQ encoding is an ASCII base64 character.
pub proof fn lemma_encode_vlq_ascii(value: int)
    ensures
        forall|i: int| 0 <= i < spec_encode_vlq(value).len() ==> (#[trigger] spec_encode_vlq(value)[i] as u32) < 128,
{
    lemma_vlq_digits_ascii(spec_zigzag(value));
}

proof fn lemma_vlq_digits_ascii(n: nat)
    ensures
        forall|i: int| 0 <= i < spec_vlq_digits(n).len() ==> (#[trigger] spec_vlq_digits(n)[i] as u32) < 128,
    decreases n,
{
    if n / 32 > 0 {
        lemma_vlq_digits_ascii(n / 32);
        lemma_base64_char_value((n % 32 + 32) as int);
        assert forall|i: int| 0 <= i < spec_vlq_digits(n).len() implies (#[trigger] spec_vlq_digits(n)[i] as u32) < 128 by {
            if i > 0 {
                assert(spec_vlq_digits(n)[i] == spec_vlq_digits(n / 32)[i - 1]);
            }
        }
    } else {
        lemma_base64_char_value((n % 32) as int);
    }
}

/// Decoding an encoded value gives the value back, with the length of its
/// encoding, whatever follows it — for every value small enough that its
/// encoding takes at most 12 digits.
pub proof fn lemma_vlq_round_trip(value: int, rest: Seq<u8>)
    requires
        -0x0800_0000_0000_0000 < value < 0x0800_0000_0000_0000,
    ensures
        spec_decode_vlq(spec_ascii_bytes(spec_encode_vlq(value)) + rest)
            == Some((value, spec_encode_vlq(value).len())),
{
    let n = spec_zigzag(value);
    lemma_vlq_digits_read(n, rest);
    reveal_with_fuel(vstd::arithmetic::power::pow, 13);
    assert(vstd::arithmetic::power::pow(32, 12) == 0x1000_0000_0000_0000);
    lemma_vlq_digits_len(n, 12);
}


/// The four 6-bit values of a 3-byte group.
pub open spec fn spec_group_values(b0: u8, b1: u8, b2: u8) -> (int, int, int, int) {
    ((b0 / 4) as int, (b0 % 4) * 16 + b1 / 16, (b1 % 16) * 4 + b2 / 64, (b2 % 64) as int)
}

/// The 6-bit values that encode `data`: four per full group of three bytes,
/// three for a final group of two, two for a final single byte.
pub open spec fn spec_encode_values(data: Seq<u8>) -> Seq<int>
    decreases data.len(),
{
    if data.len() == 0 {
        Seq::empty()
    } else {
        let b0 = data[0];
        let b1: u8 = if data.len() > 1 { data[1] } else { 0 };
        let b2: u8 = if data.len() > 2 { data[2] } else { 0 };
        let (v0, v1, v2, v3) = spec_group_values(b0, b1, b2);
        if data.len() == 1 {
            seq![v0, v1]
        } else if data.len() == 2 {
            seq![v0, v1, v2]
        } else {
            seq![v0, v1, v2, v3] + spec_encode_values(data.skip(3))
        }
    }
}

/// Standard base64 text of `data`, padded with `=`.
pub open spec fn spec_base64_encode(data: Seq<u8>) -> Seq<char>
    decreases data.len(),
{
    if data.len() == 0 {
        Seq::empty()
    } else {
        let b0 = data[0];
        let b1: u8 = if data.len() > 1 { data[1] } else { 0 };
        let b2: u8 = if data.len() > 2 { data[2] } else { 0 };
        let (v0, v1, v2, v3) = spec_group_values(b0, b1, b2);
        let c2 = if data.len() > 1 { spec_base64_char(v2) } else { '=' };
        let c3 = if data.len() > 2 { spec_base64_char(v3) } else { '=' };
        let group = seq![spec_base64_char(v0), spec_base64_char(v1), c2, c3];
        if data.len() > 3 {
            group + spec_base64_encode(data.skip(3))
        } else {
            group
        }
    }
}

/// Bytes `base64_decode` skips.
pub open spec fn spec_is_base64_space(b: u8) -> bool {
    b == 10 || b == 13 || b == 32 || b == 9
}

/// The 6-bit values of base64 text up to the first `=`, skipping whitespace;
/// `None` when another byte outside the alphabet comes first.
pub open spec fn spec_base64_values(bytes: Seq<u8>) -> Option<Seq<int>>
    decreases bytes.len(),
{
    if bytes.len() == 0 {
        Some(Seq::empty())
    } else if bytes[0] == 61 {
        Some(Seq::empty())
    } else if spec_is_base64_space(bytes[0]) {
        spec_base64_values(bytes.drop_first())
    } else {
        match spec_base64_value(bytes[0]) {
            None => None,
            Some(v) => match spec_base64_values(bytes.drop_first()) {
                Some(rest) => Some(seq![v] + rest),
                None => None,
            },
        }
    }
}

/// The bytes 6-bit values stand for: three per group of four values, two for
/// a final three, one for a final two, none for a final single value.
pub open spec fn spec_decode_values(vs: Seq<int>) -> Seq<u8>
    decreases vs.len(),
{
    if vs.len() < 2 {
        Seq::empty()
    } else {
        let b0 = (vs[0] * 4 + vs[1] / 16) as u8;
        if vs.len() == 2 {
            seq![b0]
        } else {
            let b1 = ((vs[1] % 16) * 16 + vs[2] / 4) as u8;
            if vs.len() == 3 {
                seq![b0, b1]
            } else {
                let b2 = ((vs[2] % 4) * 64 + vs[3]) as u8;
                seq![b0, b1, b2] + spec_decode_values(vs.skip(4))
            }
        }
    }
}

/// What standard base64 decoding gives for `bytes`.
pub open spec fn spec_base64_decode(bytes: Seq<u8>) -> Option<Seq<u8>> {
    match spec_base64_values(bytes) {
        Some(vs) => Some(spec_decode_values(vs)),
        None => None,
    }
}

/// Standard base64 encoding, for `data:application/json;base64,` maps.
pub fn base64_encode(data: &[u8]) -> (out: String)
    ensures
        out@ == spec_base64_encode(data@),
{
    let mut out = String::new();
    let mut i: usize = 0;
    let len = data.len();
    proof {
        assert(data@.skip(0) =~= data@);
    }
    while i < len
        invariant
            len == data@.len(),
            i <= len,
            i < len ==> out@ + spec_base64_encode(data@.skip(i as int)) == spec_base64_encode(data@),
            i >= len ==> out@ == spec_base64_encode(data@),
        decreases len - i,
    {
        let ghost rest = data@.skip(i as int);
        let b0 = data[i];
        let b1: u8 = if len - i > 1 { data[i + 1] } else { 0 };
        let b2: u8 = if len - i > 2 { data[i + 2] } else { 0 };
        let v0 = (b0 / 4) as u64;
        let v1 = ((b0 % 4) as u64) * 16 + (b1 / 16) as u64;
        let v2 = ((b1 % 16) as u64) * 4 + (b2 / 64) as u64;
        let v3 = (b2 % 64) as u64;
        let ghost before = out@;
        push_char(&mut out, base64_char(v0));
        push_char(&mut out, base64_char(v1));
        if len - i > 1 {
            push_char(&mut out, base64_char(v2));
        } else {
            push_char(&mut out, '=');
        }
        if len - i > 2 {
            push_char(&mut out, base64_char(v3));
        } else {
            push_char(&mut out, '=');
        }
        proof {
            assert(rest[0] == b0);
            assert(len - i > 1 ==> rest[1] == b1);
            assert(len - i > 2 ==> rest[2] == b2);
            let group = out@.subrange(before.len() as int, out@.len() as int);
            assert(out@ =~= before + group);
            if len - i > 3 {
                assert(rest.skip(3) =~= data@.skip(i + 3));
                assert(spec_base64_encode(rest) == group + spec_base64_encode(rest.skip(3)));
                assert(out@ + spec_base64_encode(data@.skip(i + 3)) =~= before + spec_base64_encode(rest));
            } else {
                assert(spec_base64_encode(rest) == group);
            }
        }
        if len - i > 3 {
            i = i + 3;
        } else {
            i = len;
        }
    }
    out
}


/// The byte one more value adds to the decoding of `vs`.
pub open spec fn spec_decode_step(vs: Seq<int>, v: int) -> Seq<u8> {
    if vs.len() % 4 == 0 {
        Seq::empty()
    } else if vs.len() % 4 == 1 {
        seq![(vs.last() * 4 + v / 16) as u8]
    } else if vs.len() % 4 == 2 {
        seq![((vs.last() % 16) * 16 + v / 4) as u8]
    } else {
        seq![((vs.last() % 4) * 64 + v) as u8]
    }
}

proof fn lemma_decode_values_push(vs: Seq<int>, v: int)
    ensures
        spec_decode_values(vs.push(v)) == spec_decode_values(vs) + spec_decode_step(vs, v),
    decreases vs.len(),
{
    if vs.len() >= 4 {
        assert(vs.push(v).skip(4) =~= vs.skip(4).push(v));
        lemma_decode_values_push(vs.skip(4), v);
        assert(vs.skip(4).len() % 4 == vs.len() % 4);
        if vs.skip(4).len() > 0 {
            assert(vs.skip(4).last() == vs.last());
        }
        let b = seq![(vs[0] * 4 + vs[1] / 16) as u8, ((vs[1] % 16) * 16 + vs[2] / 4) as u8, ((vs[2] % 4) * 64 + vs[3]) as u8];
        assert(spec_decode_values(vs.push(v)) == b + spec_decode_values(vs.push(v).skip(4)));
        assert(spec_decode_values(vs) == b + spec_decode_values(vs.skip(4)));
        assert(spec_decode_values(vs.push(v)) =~= spec_decode_values(vs) + spec_decode_step(vs, v));
    } else if vs.len() == 3 {
        assert(spec_decode_values(vs.push(v).skip(4)) =~= Seq::<u8>::empty());
        assert(spec_decode_values(vs.push(v)) =~= spec_decode_values(vs) + spec_decode_step(vs, v));
    } else if vs.len() == 2 {
        assert(spec_decode_values(vs.push(v)) =~= spec_decode_values(vs) + spec_decode_step(vs, v));
    } else if vs.len() == 1 {
        assert(spec_decode_values(vs.push(v)) =~= spec_decode_values(vs) + spec_decode_step(vs, v));
    } else {
        assert(spec_decode_values(vs.push(v)) =~= spec_decode_values(vs) + spec_decode_step(vs, v));
    }
}

/// Standard base64 decoding. Whitespace is ignored and decoding stops at the
/// first `=`; returns `None` when another byte outside the alphabet comes
/// first.
pub fn base64_decode(text: &str) -> (r: Option<Vec<u8>>)
    ensures
        r matches Some(out) ==> spec_base64_decode(text.spec_bytes()) == Some(out@),
        r is None ==> spec_base64_decode(text.spec_bytes()) is None,
{
    let bytes = text.as_bytes();
    let len = bytes.len();
    let mut buffer: u32 = 0;
    let mut bits: u32 = 0;
    let mut out: Vec<u8> = Vec::new();
    let mut i: usize = 0;
    let ghost mut consumed: Seq<int> = Seq::empty();
    proof {
        assert(bytes@.skip(0) =~= bytes@);
        assert(consumed + Seq::<int>::empty() =~= consumed);
    }
    loop
        invariant_except_break
            len == bytes@.len(),
            bytes@ == text.spec_bytes(),
            i <= len,
            out@ == spec_decode_values(consumed),
            forall|k: int| 0 <= k < consumed.len() ==> 0 <= #[trigger] consumed[k] < 64,
            consumed.len() % 4 == 0 ==> bits == 0 && buffer == 0,
            consumed.len() % 4 == 1 ==> bits == 6 && buffer == consumed.last(),
            consumed.len() % 4 == 2 ==> bits == 4 && buffer == consumed.last() % 16,
            consumed.len() % 4 == 3 ==> bits == 2 && buffer == consumed.last() % 4,
            spec_base64_values(bytes@.skip(i as int)) matches Some(vs2) ==>
                spec_base64_values(bytes@) == Some(consumed + vs2),
            spec_base64_values(bytes@.skip(i as int)) is None ==> spec_base64_values(bytes@) is None,
        ensures
            spec_base64_values(bytes@) == Some(consumed),
            out@ == spec_decode_values(consumed),
        decreases len - i,
    {
        if i >= len {
            proof {
                assert(bytes@.skip(i as int) =~= Seq::<u8>::empty());
                assert(consumed + Seq::<int>::empty() =~= consumed);
            }
            break;
        }
        let ghost rest = bytes@.skip(i as int);
        let byte = bytes[i];
        assert(rest[0] == byte);
        assert(rest.drop_first() =~= bytes@.skip(i + 1));
        if byte == 61 {
            assert(consumed + Seq::<int>::empty() =~= consumed);
            break;
        }
        if byte == 10 || byte == 13 || byte == 32 || byte == 9 {
            i = i + 1;
            continue;
        }
        let value = match base64_decode_char(byte) {
            Some(v) => v as u32,
            None => {
                assert(spec_base64_values(rest) is None);
                assert(spec_base64_values(bytes@) is None);
                assert(spec_base64_decode(text.spec_bytes()) is None);
                return None;
            },
        };
        proof {
            match spec_base64_values(rest.drop_first()) {
                Some(vs3) => {
                    assert(consumed + (seq![value as int] + vs3) =~= consumed.push(value as int) + vs3);
                },
                None => {},
            }
            lemma_decode_values_push(consumed, value as int);
        }
        let ghost old_consumed = consumed;
        let ghost old_buffer = buffer;
        buffer = (buffer << 6) | value;
        bits = bits + 6;
        if bits >= 8 {
            bits = bits - 8;
            let byte_out = (buffer >> bits) as u8;
            proof {
                let last = old_consumed.last();
                if old_consumed.len() % 4 == 1 {
                    assert(((old_buffer << 6u32) | value) >> 4u32 == old_buffer * 4 + value / 16) by (bit_vector)
                        requires old_buffer < 64, value < 64;
                    assert((((old_buffer << 6u32) | value) & 15u32) == value % 16) by (bit_vector)
                        requires old_buffer < 64, value < 64;
                } else if old_consumed.len() % 4 == 2 {
                    assert(((old_buffer << 6u32) | value) >> 2u32 == old_buffer * 16 + value / 4) by (bit_vector)
                        requires old_buffer < 16, value < 64;
                    assert((((old_buffer << 6u32) | value) & 3u32) == value % 4) by (bit_vector)
                        requires old_buffer < 16, value < 64;
                } else {
                    assert(((old_buffer << 6u32) | value) >> 0u32 == old_buffer * 64 + value) by (bit_vector)
                        requires old_buffer < 4, value < 64;
                    assert((((old_buffer << 6u32) | value) & 0u32) == 0) by (bit_vector);
                }
            }
            out.push(byte_out);
            proof {
                if old_consumed.len() % 4 == 1 {
                    assert((1u32 << 4u32) == 16) by (bit_vector);
                } else if old_consumed.len() % 4 == 2 {
                    assert((1u32 << 2u32) == 4) by (bit_vector);
                } else {
                    assert((1u32 << 0u32) == 1) by (bit_vector);
                }
            }
            buffer = buffer & ((1u32 << bits) - 1);
        } else {
            proof {
                assert(((old_buffer << 6u32) | value) == value) by (bit_vector)
                    requires old_buffer == 0, value < 64;
            }
        }
        proof {
            consumed = consumed.push(value as int);
        }
        i = i + 1;
    }
    Some(out)
}


proof fn lemma_group_round_trip(b0: u8, b1: u8, b2: u8)
    ensures
        ({
            let (v0, v1, v2, v3) = spec_group_values(b0, b1, b2);
            &&& 0 <= v0 < 64 && 0 <= v1 < 64 && 0 <= v2 < 64 && 0 <= v3 < 64
            &&& (v0 * 4 + v1 / 16) as u8 == b0
            &&& ((v1 % 16) * 16 + v2 / 4) as u8 == b1
            &&& ((v2 % 4) * 64 + v3) as u8 == b2
        }),
{
    let (v0, v1, v2, v3) = spec_group_values(b0, b1, b2);
    assert(v1 / 16 == b0 % 4);
    assert(v1 % 16 == b1 / 16);
    assert(v2 / 4 == b1 % 16);
    assert(v2 % 4 == b2 / 64);
}

proof fn lemma_encode_values_valid(data: Seq<u8>)
    ensures
        forall|k: int| 0 <= k < spec_encode_values(data).len() ==> 0 <= #[trigger] spec_encode_values(data)[k] < 64,
    decreases data.len(),
{
    if data.len() > 0 {
        let b1: u8 = if data.len() > 1 { data[1] } else { 0 };
        let b2: u8 = if data.len() > 2 { data[2] } else { 0 };
        lemma_group_round_trip(data[0], b1, b2);
        if data.len() > 2 {
            lemma_encode_values_valid(data.skip(3));
            let (v0, v1, v2, v3) = spec_group_values(data[0], b1, b2);
            let tail = spec_encode_values(data.skip(3));
            assert forall|k: int| 0 <= k < spec_encode_values(data).len() implies 0 <= #[trigger] spec_encode_values(data)[k] < 64 by {
                if k >= 4 {
                    assert(spec_encode_values(data)[k] == tail[k - 4]);
                }
            }
        }
    }
}

proof fn lemma_values_of_encoding(data: Seq<u8>)
    ensures
        spec_base64_values(spec_ascii_bytes(spec_base64_encode(data))) == Some(spec_encode_values(data)),
    decreases data.len(),
{
    if data.len() == 0 {
        assert(spec_ascii_bytes(spec_base64_encode(data)) =~= Seq::<u8>::empty());
    } else {
        let b0 = data[0];
        let b1: u8 = if data.len() > 1 { data[1] } else { 0 };
        let b2: u8 = if data.len() > 2 { data[2] } else { 0 };
        let (v0, v1, v2, v3) = spec_group_values(b0, b1, b2);
        lemma_group_round_trip(b0, b1, b2);
        lemma_base64_char_value(v0);
        lemma_base64_char_value(v1);
        lemma_base64_char_value(v2);
        lemma_base64_char_value(v3);
        let bytes = spec_ascii_bytes(spec_base64_encode(data));
        let s1 = bytes.drop_first();
        let s2 = s1.drop_first();
        let s3 = s2.drop_first();
        let s4 = s3.drop_first();
        assert(bytes[0] == spec_base64_char(v0) as u8);
        assert(s1[0] == spec_base64_char(v1) as u8);
        if data.len() == 1 {
            assert(s2[0] == 61);
            assert(spec_base64_values(s2) == Some(Seq::<int>::empty()));
            lemma_values_cons(s1, v1);
            lemma_values_cons(bytes, v0);
            assert(seq![v0] + (seq![v1] + Seq::<int>::empty()) =~= spec_encode_values(data));
        } else if data.len() == 2 {
            assert(s2[0] == spec_base64_char(v2) as u8);
            assert(s3[0] == 61);
            assert(spec_base64_values(s3) == Some(Seq::<int>::empty()));
            lemma_values_cons(s2, v2);
            lemma_values_cons(s1, v1);
            lemma_values_cons(bytes, v0);
            assert(seq![v0] + (seq![v1] + (seq![v2] + Seq::<int>::empty()))
                =~= spec_encode_values(data));
        } else {
            assert(s2[0] == spec_base64_char(v2) as u8);
            assert(s3[0] == spec_base64_char(v3) as u8);
            let tail: Seq<int> = if data.len() > 3 {
                lemma_values_of_encoding(data.skip(3));
                assert(s4 =~= spec_ascii_bytes(spec_base64_encode(data.skip(3))));
                spec_encode_values(data.skip(3))
            } else {
                assert(s4 =~= Seq::<u8>::empty());
                assert(data.skip(3) =~= Seq::<u8>::empty());
                assert(spec_encode_values(data.skip(3)) =~= Seq::<int>::empty());
                Seq::<int>::empty()
            };
            assert(spec_base64_values(s4) == Some(tail));
            lemma_values_cons(s3, v3);
            lemma_values_cons(s2, v2);
            lemma_values_cons(s1, v1);
            lemma_values_cons(bytes, v0);
            assert(spec_encode_values(data) == seq![v0, v1, v2, v3] + spec_encode_values(data.skip(3)));
            assert(seq![v0] + (seq![v1] + (seq![v2] + (seq![v3] + tail))) =~= spec_encode_values(data));
        }
    }
}

proof fn lemma_values_cons(bytes: Seq<u8>, v: int)
    requires
        bytes.len() > 0,
        0 <= v < 64,
        bytes[0] == spec_base64_char(v) as u8,
        spec_base64_values(bytes.drop_first()) is Some,
    ensures
        spec_base64_values(bytes) == Some(seq![v] + spec_base64_values(bytes.drop_first())->0),
{
    lemma_base64_char_value(v);
}

proof fn lemma_decode_encode_values(data: Seq<u8>)
    ensures
        spec_decode_values(spec_encode_values(data)) == data,
    decreases data.len(),
{
    if data.len() > 0 {
        let b0 = data[0];
        let b1: u8 = if data.len() > 1 { data[1] } else { 0 };
        let b2: u8 = if data.len() > 2 { data[2] } else { 0 };
        lemma_group_round_trip(b0, b1, b2);
        let vs = spec_encode_values(data);
        if data.len() == 1 {
            assert(spec_decode_values(vs) =~= data);
        } else if data.len() == 2 {
            assert(spec_decode_values(vs) =~= data);
        } else {
            lemma_decode_encode_values(data.skip(3));
            assert(vs.skip(4) =~= spec_encode_values(data.skip(3)));
            assert(spec_decode_values(vs) =~= data);
        }
    } else {
        assert(spec_decode_values(spec_encode_values(data)) =~= data);
    }
}

/// Decoding the base64 text of any byte string gives the bytes back.
pub proof fn lemma_base64_round_trip(data: Seq<u8>)
    ensures
        spec_base64_decode(spec_ascii_bytes(spec_base64_encode(data))) == Some(data),
{
    lemma_values_of_encoding(data);
    lemma_decode_encode_values(data);
}

/// Every character of a base64 encoding is ASCII.
pub proof fn lemma_base64_encode_ascii(data: Seq<u8>)
    ensures
        forall|i: int| 0 <= i < spec_base64_encode(data).len() ==> (#[trigger] spec_base64_encode(data)[i] as u32) < 128,
    decreases data.len(),
{
    if data.len() > 0 {
        let b1: u8 = if data.len() > 1 { data[1] } else { 0 };
        let b2: u8 = if data.len() > 2 { data[2] } else { 0 };
        let (v0, v1, v2, v3) = spec_group_values(data[0], b1, b2);
        lemma_group_round_trip(data[0], b1, b2);
        lemma_base64_char_value(v0);
        lemma_base64_char_value(v1);
        lemma_base64_char_value(v2);
        lemma_base64_char_value(v3);
        if data.len() > 3 {
            lemma_base64_encode_ascii(data.skip(3));
            let tail = spec_base64_encode(data.skip(3));
            assert forall|i: int| 0 <= i < spec_base64_encode(data).len() implies (#[trigger] spec_base64_encode(data)[i] as u32) < 128 by {
                if i >= 4 {
                    assert(spec_base64_encode(data)[i] == tail[i - 4]);
                }
            }
        }
    }
}

/// Bytes without the whitespace base64 decoding skips.
pub open spec fn spec_without_spaces(bytes: Seq<u8>) -> Seq<u8>
    decreases bytes.len(),
{
    if bytes.len() == 0 {
        Seq::empty()
    } else if spec_is_base64_space(bytes[0]) {
        spec_without_spaces(bytes.drop_first())
    } else {
        seq![bytes[0]] + spec_without_spaces(bytes.drop_first())
    }
}

proof fn lemma_values_ignore_spaces(bytes: Seq<u8>)
    ensures
        spec_base64_values(bytes) == spec_base64_values(spec_without_spaces(bytes)),
    decreases bytes.len(),
{
    if bytes.len() > 0 {
        lemma_values_ignore_spaces(bytes.drop_first());
        if !spec_is_base64_space(bytes[0]) {
            let w = seq![bytes[0]] + spec_without_spaces(bytes.drop_first());
            assert(w[0] == bytes[0]);
            assert(w.drop_first() =~= spec_without_spaces(bytes.drop_first()));
        }
    }
}

/// Whitespace anywhere in base64 text changes nothing: text that is an
/// encoding of `data` once its whitespace is dropped decodes to `data`.
pub proof fn lemma_base64_round_trip_spaced(data: Seq<u8>, text: Seq<u8>)
    requires
        spec_without_spaces(text) == spec_ascii_bytes(spec_base64_encode(data)),
    ensures
        spec_base64_decode(text) == Some(data),
{
    lemma_values_ignore_spaces(text);
    lemma_base64_round_trip(data);
}

/// Base64 text with a byte outside the alphabet and whitespace before its
/// first `=` does not decode.
pub proof fn lemma_base64_rejects(bytes: Seq<u8>, j: int)
    requires
        0 <= j < bytes.len(),
        spec_base64_value(bytes[j]) is None,
        !spec_is_base64_space(bytes[j]),
        bytes[j] != 61,
        forall|i: int| 0 <= i < j ==> bytes[i] != 61,
    ensures
        spec_base64_decode(bytes) is None,
    decreases j,
{
    if j > 0 {
        let rest = bytes.drop_first();
        assert forall|i: int| 0 <= i < j - 1 implies rest[i] != 61 by {
            assert(rest[i] == bytes[i + 1]);
        }
        lemma_base64_rejects(rest, j - 1);
        assert(bytes[0] != 61);
    }
}

} // verus!
