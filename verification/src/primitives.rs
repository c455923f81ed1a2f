//! Low-level wire primitives: little-endian integers, 7-bit variable-length
//! integers, length-prefixed strings, bit-packed booleans and 16-bit packed
//! colors, each with its mathematical encoding and a parse function that is
//! exactly inverse to it.
use vstd::prelude::*;

verus! {

// ---------------------------------------------------------------------------
// Little-endian integers
// ---------------------------------------------------------------------------

/// The two little-endian bytes of a 16-bit word.
pub open spec fn enc_u16(x: u16) -> Seq<u8> {
    seq![(x & 0xff) as u8, ((x >> 8) & 0xff) as u8]
}

/// The four little-endian bytes of a 32-bit word.
pub open spec fn enc_u32(x: u32) -> Seq<u8> {
    seq![
        (x & 0xff) as u8,
        ((x >> 8) & 0xff) as u8,
        ((x >> 16) & 0xff) as u8,
        ((x >> 24) & 0xff) as u8,
    ]
}

/// A signed 16-bit word travels as the unsigned word with the same bits.
pub open spec fn enc_i16(x: i16) -> Seq<u8> {
    enc_u16(x as u16)
}

/// Reads one byte at `i`; `None` past the end.
pub open spec fn p_u8(s: Seq<u8>, i: int) -> Option<(int, u8)> {
    if 0 <= i && i + 1 <= s.len() {
        Some((i + 1, s[i]))
    } else {
        None
    }
}

/// Reads a little-endian 16-bit word at `i`.
pub open spec fn p_u16(s: Seq<u8>, i: int) -> Option<(int, u16)> {
    if 0 <= i && i + 2 <= s.len() {
        Some((i + 2, (s[i] + s[i + 1] * 0x100) as u16))
    } else {
        None
    }
}

/// Reads a little-endian 32-bit word at `i`.
pub open spec fn p_u32(s: Seq<u8>, i: int) -> Option<(int, u32)> {
    if 0 <= i && i + 4 <= s.len() {
        Some(
            (
                i + 4,
                (s[i] + s[i + 1] * 0x100 + s[i + 2] * 0x1_0000 + s[i + 3] * 0x100_0000) as u32,
            ),
        )
    } else {
        None
    }
}

/// Reads a little-endian signed 16-bit word at `i`.
pub open spec fn p_i16(s: Seq<u8>, i: int) -> Option<(int, i16)> {
    match p_u16(s, i) {
        Some((j, w)) => Some((j, w as i16)),
        None => None,
    }
}

pub proof fn lemma_u16_round(x: u16)
    ensures
        (x & 0xff) + ((x >> 8) & 0xff) * 0x100 == x,
        x & 0xff < 0x100,
        (x >> 8) & 0xff < 0x100,
        enc_u16(x).len() == 2,
{
    assert((x & 0xff) + ((x >> 8) & 0xff) * 0x100 == x && x & 0xff < 0x100 && (x >> 8) & 0xff
        < 0x100) by (bit_vector);
}

pub proof fn lemma_u32_round(x: u32)
    ensures
        (x & 0xff) + ((x >> 8) & 0xff) * 0x100 + ((x >> 16) & 0xff) * 0x1_0000 + ((x >> 24)
            & 0xff) * 0x100_0000 == x,
        x & 0xff < 0x100,
        (x >> 8) & 0xff < 0x100,
        (x >> 16) & 0xff < 0x100,
        (x >> 24) & 0xff < 0x100,
        enc_u32(x).len() == 4,
{
    assert((x & 0xff) + ((x >> 8) & 0xff) * 0x100 + ((x >> 16) & 0xff) * 0x1_0000 + ((x >> 24)
        & 0xff) * 0x100_0000 == x && x & 0xff < 0x100 && (x >> 8) & 0xff < 0x100 && (x >> 16)
        & 0xff < 0x100 && (x >> 24) & 0xff < 0x100) by (bit_vector);
}

/// A 16-bit parse at the start of its own encoding gives the word back.
pub proof fn lemma_p_u16(s: Seq<u8>, i: int, x: u16)
    requires
        0 <= i,
        i + 2 <= s.len(),
        s.subrange(i, i + 2) == enc_u16(x),
    ensures
        p_u16(s, i) == Some((i + 2, x)),
{
    assert(s[i] == enc_u16(x)[0] && s[i + 1] == enc_u16(x)[1]) by {
        assert(s.subrange(i, i + 2)[0] == s[i]);
        assert(s.subrange(i, i + 2)[1] == s[i + 1]);
    }
    lemma_u16_round(x);
    assert(s[i] + s[i + 1] * 0x100 == x);
    assert((s[i] + s[i + 1] * 0x100) as u16 == x);
}

pub proof fn lemma_p_u32(s: Seq<u8>, i: int, x: u32)
    requires
        0 <= i,
        i + 4 <= s.len(),
        s.subrange(i, i + 4) == enc_u32(x),
    ensures
        p_u32(s, i) == Some((i + 4, x)),
{
    assert(s[i] == enc_u32(x)[0] && s[i + 1] == enc_u32(x)[1] && s[i + 2] == enc_u32(x)[2] && s[i
        + 3] == enc_u32(x)[3]) by {
        assert(s.subrange(i, i + 4)[0] == s[i]);
        assert(s.subrange(i, i + 4)[1] == s[i + 1]);
        assert(s.subrange(i, i + 4)[2] == s[i + 2]);
        assert(s.subrange(i, i + 4)[3] == s[i + 3]);
    }
    lemma_u32_round(x);
    assert(s[i] + s[i + 1] * 0x100 + s[i + 2] * 0x1_0000 + s[i + 3] * 0x100_0000 == x);
    assert((s[i] + s[i + 1] * 0x100 + s[i + 2] * 0x1_0000 + s[i + 3] * 0x100_0000) as u32 == x);
}

pub proof fn lemma_p_i16(s: Seq<u8>, i: int, x: i16)
    requires
        0 <= i,
        i + 2 <= s.len(),
        s.subrange(i, i + 2) == enc_i16(x),
    ensures
        p_i16(s, i) == Some((i + 2, x)),
{
    lemma_p_u16(s, i, x as u16);
    assert((x as u16) as i16 == x) by (bit_vector);
}

/// Appends the two little-endian bytes of `x`.
pub fn put_u16(out: &mut Vec<u8>, x: u16)
    ensures
        final(out)@ == old(out)@ + enc_u16(x),
{
    out.push((x & 0xff) as u8);
    out.push(((x >> 8) & 0xff) as u8);
    assert(out@ =~= old(out)@ + enc_u16(x));
}

/// Appends the four little-endian bytes of `x`.
pub fn put_u32(out: &mut Vec<u8>, x: u32)
    ensures
        final(out)@ == old(out)@ + enc_u32(x),
{
    out.push((x & 0xff) as u8);
    out.push(((x >> 8) & 0xff) as u8);
    out.push(((x >> 16) & 0xff) as u8);
    out.push(((x >> 24) & 0xff) as u8);
    assert(out@ =~= old(out)@ + enc_u32(x));
}

/// Appends the two little-endian bytes of the signed word `x`.
pub fn put_i16(out: &mut Vec<u8>, x: i16)
    ensures
        final(out)@ == old(out)@ + enc_i16(x),
{
    put_u16(out, x as u16);
}

/// Reads one byte, advancing the position; mirrors `p_u8`.
pub fn get_u8(s: &[u8], pos: usize) -> (r: Option<(usize, u8)>)
    ensures
        match r {
            Some((j, x)) => p_u8(s@, pos as int) == Some((j as int, x)),
            None => p_u8(s@, pos as int) is None,
        },
{
    if pos < s.len() {
        Some((pos + 1, s[pos]))
    } else {
        None
    }
}

/// Reads a little-endian 16-bit word, advancing the position; mirrors `p_u16`.
pub fn get_u16(s: &[u8], pos: usize) -> (r: Option<(usize, u16)>)
    ensures
        match r {
            Some((j, x)) => p_u16(s@, pos as int) == Some((j as int, x)),
            None => p_u16(s@, pos as int) is None,
        },
{
    if pos < s.len() && 2 <= s.len() - pos {
        let b0 = s[pos];
        let b1 = s[pos + 1];
        Some((pos + 2, (b0 as u16) + (b1 as u16) * 0x100))
    } else {
        None
    }
}

/// Reads a little-endian 32-bit word, advancing the position; mirrors `p_u32`.
pub fn get_u32(s: &[u8], pos: usize) -> (r: Option<(usize, u32)>)
    ensures
        match r {
            Some((j, x)) => p_u32(s@, pos as int) == Some((j as int, x)),
            None => p_u32(s@, pos as int) is None,
        },
{
    if pos < s.len() && 4 <= s.len() - pos {
        let b0 = s[pos];
        let b1 = s[pos + 1];
        let b2 = s[pos + 2];
        let b3 = s[pos + 3];
        Some(
            (
                pos + 4,
                (b0 as u32) + (b1 as u32) * 0x100 + (b2 as u32) * 0x1_0000 + (b3 as u32)
                    * 0x100_0000,
            ),
        )
    } else {
        None
    }
}

/// Reads a little-endian signed 16-bit word; mirrors `p_i16`.
pub fn get_i16(s: &[u8], pos: usize) -> (r: Option<(usize, i16)>)
    ensures
        match r {
            Some((j, x)) => p_i16(s@, pos as int) == Some((j as int, x)),
            None => p_i16(s@, pos as int) is None,
        },
{
    match get_u16(s, pos) {
        Some((j, w)) => Some((j, w as i16)),
        None => None,
    }
}

// ---------------------------------------------------------------------------
// 7-bit variable-length integers
// ---------------------------------------------------------------------------

/// The 7-bit variable-length encoding: each byte carries seven data bits,
/// lowest bits first, and the high bit says another byte follows.
pub open spec fn enc_varint(n: u64) -> Seq<u8>
    decreases n,
{
    if n < 0x80 {
        seq![n as u8]
    } else {
        seq![((n % 0x80) + 0x80) as u8] + enc_varint(n / 0x80)
    }
}

/// Reads a 7-bit variable-length integer whose low bits are already in `acc`.
/// The read fails past the end of the stream, when the value would exceed 64
/// bits, and on a padded (non-minimal) encoding.
pub open spec fn p_varint_rec(s: Seq<u8>, i: int, shift: nat, acc: u64) -> Option<(int, u64)>
    decreases s.len() - i,
{
    if i < 0 || i >= s.len() {
        None
    } else {
        let b = s[i];
        let data = (b & 0x7f) as u64;
        if shift >= 64 {
            None
        } else if data * vstd::arithmetic::power2::pow2(shift) + acc > u64::MAX {
            None
        } else {
            let acc2 = (acc + data * vstd::arithmetic::power2::pow2(shift)) as u64;
            if b & 0x80 == 0 {
                if b == 0 && shift > 0 {
                    None
                } else {
                    Some((i + 1, acc2))
                }
            } else {
                p_varint_rec(s, i + 1, (shift + 7) as nat, acc2)
            }
        }
    }
}

/// Reads a 7-bit variable-length integer at `i`.
pub open spec fn p_varint(s: Seq<u8>, i: int) -> Option<(int, u64)> {
    p_varint_rec(s, i, 0, 0)
}

proof fn lemma_p_varint_rec(s: Seq<u8>, i: int, shift: nat, acc: u64, n: u64)
    requires
        0 <= i,
        i + enc_varint(n).len() <= s.len(),
        s.subrange(i, i + enc_varint(n).len()) == enc_varint(n),
        n * vstd::arithmetic::power2::pow2(shift) + acc <= u64::MAX,
        n > 0 || shift == 0,
        shift < 64,
    ensures
        p_varint_rec(s, i, shift, acc) == Some(
            (
                i + enc_varint(n).len(),
                (acc + n * vstd::arithmetic::power2::pow2(shift)) as u64,
            ),
        ),
    decreases n,
{
    vstd::arithmetic::power2::lemma_pow2_pos(shift);
    let p = vstd::arithmetic::power2::pow2(shift);
    let e = enc_varint(n);
    assert(s[i] == e[0]) by {
        assert(s.subrange(i, i + e.len() as int)[0] == s[i]);
    }
    if n < 0x80 {
        let b = n as u8;
        assert(s[i] == b);
        assert((b & 0x7f) == b && (b & 0x80) == 0) by (bit_vector)
            requires
                b < 0x80,
        ;
        assert((b & 0x7f) as u64 == n);
        assert(n * p + acc <= u64::MAX);
        if n == 0 {
            assert(shift == 0);
        }
    } else {
        let b = ((n % 0x80) + 0x80) as u8;
        let low = (n % 0x80) as u64;
        assert((b & 0x7f) as u64 == low && (b & 0x80) != 0) by (bit_vector)
            requires
                b == ((low + 0x80) as u8),
                low < 0x80,
        ;
        let rest = n / 0x80;
        assert(n == 0x80 * rest + low) by {
            vstd::arithmetic::div_mod::lemma_fundamental_div_mod(n as int, 0x80);
        }
        // the tail bits weigh 128 times more, one byte further on
        vstd::arithmetic::power2::lemma_pow2_adds(shift, 7);
        assert(vstd::arithmetic::power2::pow2(7) == 0x80) by {
            vstd::arithmetic::power2::lemma2_to64();
        }
        let p7 = vstd::arithmetic::power2::pow2((shift + 7) as nat);
        assert(p7 == p * 0x80);
        assert(rest * p7 == 0x80 * rest * p) by (nonlinear_arith)
            requires
                p7 == p * 0x80,
        ;
        assert(n * p == 0x80 * rest * p + low * p) by (nonlinear_arith)
            requires
                n == 0x80 * rest + low,
        ;
        assert(low * p + acc <= u64::MAX);
        let acc2 = (acc + low * p) as u64;
        assert(rest * p7 + acc2 == n * p + acc);
        if shift + 7 >= 64 {
            // a value that still continues here would not fit in 64 bits
            vstd::arithmetic::power2::lemma2_to64();
            vstd::arithmetic::power2::lemma2_to64_rest();
            if shift + 7 > 64 {
                vstd::arithmetic::power2::lemma_pow2_strictly_increases(64, (shift + 7) as nat);
            }
            assert(p7 >= 0x1_0000_0000_0000_0000);
            assert(rest >= 1);
            assert(rest * p7 >= p7) by (nonlinear_arith)
                requires
                    rest >= 1,
                    p7 > 0,
            ;
            assert(false);
        }
        assert(e =~= seq![b] + enc_varint(rest));
        assert(s.subrange(i + 1, i + 1 + enc_varint(rest).len()) =~= enc_varint(rest)) by {
            assert forall|k: int| 0 <= k < enc_varint(rest).len() implies s.subrange(
                i + 1,
                i + 1 + enc_varint(rest).len(),
            )[k] == enc_varint(rest)[k] by {
                assert(s.subrange(i, i + e.len() as int)[k + 1] == s[i + 1 + k]);
            }
        }
        lemma_p_varint_rec(s, i + 1, (shift + 7) as nat, acc2, rest);
    }
}

/// A variable-length parse at the start of its own encoding gives the value
/// back.
pub proof fn lemma_p_varint(s: Seq<u8>, i: int, n: u64)
    requires
        0 <= i,
        i + enc_varint(n).len() <= s.len(),
        s.subrange(i, i + enc_varint(n).len()) == enc_varint(n),
    ensures
        p_varint(s, i) == Some((i + enc_varint(n).len(), n)),
{
    assert(vstd::arithmetic::power2::pow2(0) == 1) by {
        vstd::arithmetic::power2::lemma2_to64();
    }
    lemma_p_varint_rec(s, i, 0, 0, n);
}

/// Appends the variable-length encoding of `n`.
pub fn put_varint(out: &mut Vec<u8>, n: u64)
    ensures
        final(out)@ == old(out)@ + enc_varint(n),
    decreases n,
{
    if n < 0x80 {
        out.push(n as u8);
        assert(out@ =~= old(out)@ + enc_varint(n));
    } else {
        out.push(((n % 0x80) + 0x80) as u8);
        let ghost mid = out@;
        put_varint(out, n / 0x80);
        assert(out@ =~= old(out)@ + enc_varint(n));
    }
}

fn get_varint_rec(s: &[u8], pos: usize, shift: u32, acc: u64) -> (r: Option<(usize, u64)>)
    requires
        pos <= s@.len(),
    ensures
        match r {
            Some((j, x)) => p_varint_rec(s@, pos as int, shift as nat, acc) == Some(
                (j as int, x),
            ) && pos < j <= s@.len(),
            None => p_varint_rec(s@, pos as int, shift as nat, acc) is None,
        },
    decreases s@.len() - pos,
{
    if pos >= s.len() {
        return None;
    }
    let b = s[pos];
    let data = (b & 0x7f) as u64;
    if shift >= 64 {
        return None;
    }
    let weight: u64 = 1u64 << shift;
    proof {
        vstd::bits::lemma_u64_pow2_no_overflow(shift as nat);
        vstd::bits::lemma_u64_shl_is_mul(1u64, shift as u64);
        assert((b & 0x7f) < 0x80) by (bit_vector);
        assert(data * weight <= 0x7f * 0xffff_ffff_ffff_ffffu128) by (nonlinear_arith)
            requires
                data < 0x80,
                weight <= 0xffff_ffff_ffff_ffffu64,
        ;
    }
    let worth: u128 = (data as u128) * (weight as u128);
    proof {
        assert(worth == data * vstd::arithmetic::power2::pow2(shift as nat));
    }
    if worth + (acc as u128) > u64::MAX as u128 {
        return None;
    }
    let acc2: u64 = acc + (worth as u64);
    if b & 0x80 == 0 {
        if b == 0 && shift > 0 {
            None
        } else {
            Some((pos + 1, acc2))
        }
    } else {
        get_varint_rec(s, pos + 1, shift + 7, acc2)
    }
}

/// Reads a 7-bit variable-length integer, advancing the position; mirrors
/// `p_varint`.
pub fn read_7bit_encoded_int(s: &[u8], pos: usize) -> (r: Option<(usize, u64)>)
    requires
        pos <= s@.len(),
    ensures
        match r {
            Some((j, x)) => p_varint(s@, pos as int) == Some((j as int, x)) && pos < j
                <= s@.len(),
            None => p_varint(s@, pos as int) is None,
        },
{
    get_varint_rec(s, pos, 0, 0)
}

// ---------------------------------------------------------------------------
// Length-prefixed strings
// ---------------------------------------------------------------------------

/// A string on the wire: its UTF-8 byte count as a variable-length integer,
/// then the bytes themselves.
pub open spec fn enc_string(t: Seq<char>) -> Seq<u8> {
    enc_varint(vstd::utf8::encode_utf8(t).len() as u64) + vstd::utf8::encode_utf8(t)
}

/// Reads a length-prefixed string at `i`; fails when the bytes are not
/// valid UTF-8.
pub open spec fn p_string(s: Seq<u8>, i: int) -> Option<(int, Seq<char>)> {
    match p_varint(s, i) {
        Some((j, n)) => {
            if j + n <= s.len() && vstd::utf8::valid_utf8(s.subrange(j, j + n)) {
                Some((j + n, vstd::utf8::decode_utf8(s.subrange(j, j + n))))
            } else {
                None
            }
        },
        None => None,
    }
}

/// A string parse at the start of its own encoding gives the text back.
pub proof fn lemma_p_string(s: Seq<u8>, i: int, t: Seq<char>)
    requires
        0 <= i,
        i + enc_string(t).len() <= s.len(),
        s.subrange(i, i + enc_string(t).len()) == enc_string(t),
        vstd::utf8::encode_utf8(t).len() <= u64::MAX,
    ensures
        p_string(s, i) == Some((i + enc_string(t).len(), t)),
{
    let bytes = vstd::utf8::encode_utf8(t);
    let n = bytes.len() as u64;
    let vl = enc_varint(n).len() as int;
    assert(s.subrange(i, i + vl) =~= enc_varint(n)) by {
        assert forall|k: int| 0 <= k < vl implies s.subrange(i, i + vl)[k] == enc_varint(n)[k] by {
            assert(s.subrange(i, i + enc_string(t).len() as int)[k] == s[i + k]);
        }
    }
    lemma_p_varint(s, i, n);
    let j = i + vl;
    assert(s.subrange(j, j + bytes.len() as int) =~= bytes) by {
        assert forall|k: int| 0 <= k < bytes.len() implies s.subrange(
            j,
            j + bytes.len() as int,
        )[k] == bytes[k] by {
            assert(s.subrange(i, i + enc_string(t).len() as int)[vl + k] == s[j + k]);
        }
    }
    vstd::utf8::encode_utf8_valid_utf8(t);
    vstd::utf8::encode_utf8_decode_utf8(t);
}

/// Relies on `String::from_utf8`: it succeeds exactly on UTF-8 input, and
/// the returned string's bytes are the input bytes.
#[verifier::external_body]
pub(crate) fn string_from_utf8(bytes: Vec<u8>) -> (r: Option<String>)
    ensures
        match r {
            Some(t) => vstd::utf8::valid_utf8(bytes@) && vstd::utf8::encode_utf8(t@) == bytes@,
            None => !vstd::utf8::valid_utf8(bytes@),
        },
{
    match String::from_utf8(bytes) {
        Ok(t) => Some(t),
        Err(_) => None,
    }
}

/// Appends the length-prefixed UTF-8 bytes of `t`.
pub fn write_string_7bit(out: &mut Vec<u8>, t: &str)
    ensures
        final(out)@ == old(out)@ + enc_string(t@),
{
    let bytes: &[u8] = t.as_bytes();
    put_varint(out, bytes.len() as u64);
    out.extend_from_slice(bytes);
    assert(out@ =~= old(out)@ + enc_string(t@));
}

/// Reads a length-prefixed string, advancing the position; mirrors
/// `p_string`.
pub fn read_string_7bit(s: &[u8], pos: usize) -> (r: Option<(usize, String)>)
    requires
        pos <= s@.len(),
    ensures
        match r {
            Some((j, t)) => p_string(s@, pos as int) == Some((j as int, t@)) && pos < j
                <= s@.len(),
            None => p_string(s@, pos as int) is None,
        },
{
    match read_7bit_encoded_int(s, pos) {
        Some((j, n)) => {
            if n <= (s.len() - j) as u64 {
                let end = j + (n as usize);
                let body = vstd::slice::slice_subrange(s, j, end);
                let copy = vstd::slice::slice_to_vec(body);
                match string_from_utf8(copy) {
                    Some(t) => {
                        proof {
                            vstd::utf8::encode_utf8_decode_utf8(t@);
                        }
                        Some((end, t))
                    },
                    None => None,
                }
            } else {
                None
            }
        },
        None => None,
    }
}

// ---------------------------------------------------------------------------
// Bit-packed booleans
// ---------------------------------------------------------------------------

/// The weight of one flag inside its byte.
pub open spec fn bit_u8(b: bool) -> u8 {
    if b {
        1
    } else {
        0
    }
}

/// The flag at position `k`, where positions past the end count as clear.
pub open spec fn flag_at(bs: Seq<bool>, k: int) -> bool {
    0 <= k < bs.len() && bs[k]
}

/// One byte holding flags `8*c .. 8*c+8`, first flag in the lowest bit.
#[verifier::opaque]
pub open spec fn bools_byte(bs: Seq<bool>, c: int) -> u8 {
    (bit_u8(flag_at(bs, 8 * c)) + bit_u8(flag_at(bs, 8 * c + 1)) * 2 + bit_u8(
        flag_at(bs, 8 * c + 2),
    ) * 4 + bit_u8(flag_at(bs, 8 * c + 3)) * 8 + bit_u8(flag_at(bs, 8 * c + 4)) * 16 + bit_u8(
        flag_at(bs, 8 * c + 5),
    ) * 32 + bit_u8(flag_at(bs, 8 * c + 6)) * 64 + bit_u8(flag_at(bs, 8 * c + 7)) * 128) as u8
}

/// The bytes of `bs` packed eight flags to a byte, lowest bit first; the last
/// byte is padded with clear bits.
pub open spec fn enc_bools(bs: Seq<bool>) -> Seq<u8> {
    Seq::new(((bs.len() + 7) / 8) as nat, |c: int| bools_byte(bs, c))
}

/// Whether bit `k` of `x` is set.
pub open spec fn nth_bit(x: u8, k: int) -> bool {
    x >> (k as u8) & 1 == 1
}

pub proof fn lemma_bools_byte_bits(bs: Seq<bool>, c: int, k: int)
    requires
        0 <= k < 8,
    ensures
        nth_bit(bools_byte(bs, c), k) == flag_at(bs, 8 * c + k),
{
    reveal(bools_byte);
    let b0 = bit_u8(flag_at(bs, 8 * c));
    let b1 = bit_u8(flag_at(bs, 8 * c + 1));
    let b2 = bit_u8(flag_at(bs, 8 * c + 2));
    let b3 = bit_u8(flag_at(bs, 8 * c + 3));
    let b4 = bit_u8(flag_at(bs, 8 * c + 4));
    let b5 = bit_u8(flag_at(bs, 8 * c + 5));
    let b6 = bit_u8(flag_at(bs, 8 * c + 6));
    let b7 = bit_u8(flag_at(bs, 8 * c + 7));
    let x = bools_byte(bs, c);
    let ku = k as u8;
    assert((x >> ku & 1) == (if ku == 0 {
        b0
    } else if ku == 1 {
        b1
    } else if ku == 2 {
        b2
    } else if ku == 3 {
        b3
    } else if ku == 4 {
        b4
    } else if ku == 5 {
        b5
    } else if ku == 6 {
        b6
    } else {
        b7
    })) by (bit_vector)
        requires
            x == (b0 + b1 * 2 + b2 * 4 + b3 * 8 + b4 * 16 + b5 * 32 + b6 * 64 + b7 * 128) as u8,
            b0 <= 1 && b1 <= 1 && b2 <= 1 && b3 <= 1 && b4 <= 1 && b5 <= 1 && b6 <= 1 && b7 <= 1,
            ku < 8,
    ;
}

/// The flags recovered from packed bytes: flag `k` is bit `k % 8` of byte
/// `k / 8`.
pub open spec fn p_bools(bytes: Seq<u8>, count: nat) -> Seq<bool> {
    Seq::new(count, |k: int| nth_bit(bytes[k / 8], k % 8))
}

/// Unpacking the packed bytes gives the flags back, and the padding bits of
/// the last byte are clear.
#[verifier::rlimit(100)]
pub proof fn lemma_bools_round(bs: Seq<bool>)
    ensures
        p_bools(enc_bools(bs), bs.len()) == bs,
        forall|k: int|
            bs.len() <= k < 8 * enc_bools(bs).len() ==> !nth_bit(
                #[trigger] enc_bools(bs)[k / 8],
                k % 8,
            ),
{
    let bytes = enc_bools(bs);
    assert forall|k: int| 0 <= k < bs.len() implies p_bools(bytes, bs.len())[k] == bs[k] by {
        assert(0 <= k % 8 < 8 && k == 8 * (k / 8) + k % 8) by (nonlinear_arith)
            requires
                k >= 0,
        ;
        assert(0 <= k / 8 < bytes.len()) by (nonlinear_arith)
            requires
                0 <= k < 8 * bytes.len(),
        ;
        assert(bytes[k / 8] == bools_byte(bs, k / 8));
        lemma_bools_byte_bits(bs, k / 8, k % 8);
    }
    assert(p_bools(bytes, bs.len()) =~= bs);
    assert forall|k: int| bs.len() <= k < 8 * enc_bools(bs).len() implies !nth_bit(
        #[trigger] enc_bools(bs)[k / 8],
        k % 8,
    ) by {
        assert(0 <= k % 8 < 8 && k == 8 * (k / 8) + k % 8) by (nonlinear_arith)
            requires
                k >= 0,
        ;
        assert(0 <= k / 8 < bytes.len()) by (nonlinear_arith)
            requires
                0 <= k < 8 * bytes.len(),
        ;
        assert(bytes[k / 8] == bools_byte(bs, k / 8));
        lemma_bools_byte_bits(bs, k / 8, k % 8);
    }
}

/// Packs flags eight to a byte, first flag in the lowest bit; the final
/// byte is padded with clear bits.
pub fn pack_bools(bools: &Vec<bool>) -> (r: Vec<u8>)
    requires
        bools@.len() + 7 <= usize::MAX,
    ensures
        r@ == enc_bools(bools@),
{
    let n = bools.len();
    let mut out: Vec<u8> = Vec::new();
    let count = n / 8 + if n % 8 != 0 {
        1
    } else {
        0
    };
    assert(count == (n + 7) / 8);
    let mut c: usize = 0;
    while c < count
        invariant
            n == bools@.len(),
            n + 7 <= usize::MAX,
            count == (bools@.len() + 7) / 8,
            c <= count,
            out@ =~= enc_bools(bools@).subrange(0, c as int),
        decreases count - c,
    {
        let base = 8 * c;
        let mut byte: u8 = 0;
        if base < n && bools[base] {
            byte = byte + 1;
        }
        if base + 1 < n && bools[base + 1] {
            byte = byte + 2;
        }
        if base + 2 < n && bools[base + 2] {
            byte = byte + 4;
        }
        if base + 3 < n && bools[base + 3] {
            byte = byte + 8;
        }
        if base + 4 < n && bools[base + 4] {
            byte = byte + 16;
        }
        if base + 5 < n && bools[base + 5] {
            byte = byte + 32;
        }
        if base + 6 < n && bools[base + 6] {
            byte = byte + 64;
        }
        if base + 7 < n && bools[base + 7] {
            byte = byte + 128;
        }
        out.push(byte);
        proof {
            reveal(bools_byte);
        }
        assert(byte == bools_byte(bools@, c as int));
        assert(out@ =~= enc_bools(bools@).subrange(0, c + 1));
        c = c + 1;
    }
    assert(out@ =~= enc_bools(bools@));
    out
}

/// Recovers `count` flags from packed bytes, ignoring any padding bits in
/// the final byte; the packed slice must hold at least `count` flags.
pub fn unpack_bools(bytes: &[u8], count: usize) -> (r: Vec<bool>)
    requires
        count <= 8 * bytes@.len(),
    ensures
        r@ == p_bools(bytes@, count as nat),
{
    let mut out: Vec<bool> = Vec::new();
    let mut k: usize = 0;
    while k < count
        invariant
            k <= count,
            count <= 8 * bytes@.len(),
            out@ =~= p_bools(bytes@, count as nat).subrange(0, k as int),
        decreases count - k,
    {
        let byte = bytes[k / 8];
        let bit = (byte >> ((k % 8) as u8)) & 1;
        out.push(bit == 1);
        assert(out@ =~= p_bools(bytes@, count as nat).subrange(0, k + 1));
        k = k + 1;
    }
    assert(out@ =~= p_bools(bytes@, count as nat));
    out
}

// ---------------------------------------------------------------------------
// 16-bit packed colors
// ---------------------------------------------------------------------------

/// The 16-bit color word: five high bits of red, six of green, five of blue.
pub open spec fn spec_pack_color(r: u8, g: u8, b: u8) -> u16 {
    (((r & 0xF8) as u16) << 8 | ((g & 0xFC) as u16) << 3 | ((b & 0xF8) as u16) >> 3) as u16
}

/// The channels recovered from a 16-bit color word, low bits cleared.
pub open spec fn spec_unpack_color(c: u16) -> (u8, u8, u8) {
    (((c >> 8) & 0xF8) as u8, ((c >> 3) & 0xFC) as u8, ((c << 3) & 0xF8) as u8)
}

/// Packs 8-bit channels into the 16-bit color word, keeping the high bits
/// of each channel.
pub fn pack_color(color: [u8; 3]) -> (r: u16)
    ensures
        r == spec_pack_color(color[0], color[1], color[2]),
{
    let r = color[0];
    let g = color[1];
    let b = color[2];
    ((r & 0xF8) as u16) << 8 | ((g & 0xFC) as u16) << 3 | ((b & 0xF8) as u16) >> 3
}

/// Unpacks a 16-bit color word into 8-bit channels with zero-filled low bits.
pub fn unpack_color(rgb565: u16) -> (r: [u8; 3])
    ensures
        (r[0], r[1], r[2]) == spec_unpack_color(rgb565),
{
    [
        ((rgb565 >> 8) & 0xF8) as u8,
        ((rgb565 >> 3) & 0xFC) as u8,
        ((rgb565 << 3) & 0xF8) as u8,
    ]
}

/// A channel triple that the 16-bit word represents exactly.
pub open spec fn color_canonical(r: u8, g: u8, b: u8) -> bool {
    r & 0x07 == 0 && g & 0x03 == 0 && b & 0x07 == 0
}

/// Unpacking gives back exactly the canonical triples.
pub proof fn lemma_color_round(r: u8, g: u8, b: u8)
    ensures
        spec_unpack_color(spec_pack_color(r, g, b)) == (r, g, b) <==> color_canonical(r, g, b),
{
    let c = spec_pack_color(r, g, b);
    assert(((c >> 8) & 0xF8) as u8 == (r & 0xF8) && ((c >> 3) & 0xFC) as u8 == (g & 0xFC) && ((c
        << 3) & 0xF8) as u8 == (b & 0xF8)) by (bit_vector)
        requires
            c == (((r & 0xF8) as u16) << 8 | ((g & 0xFC) as u16) << 3 | ((b & 0xF8) as u16)
                >> 3) as u16,
    ;
    assert((r & 0xF8 == r) == (r & 0x07 == 0)) by (bit_vector);
    assert((g & 0xFC == g) == (g & 0x03 == 0)) by (bit_vector);
    assert((b & 0xF8 == b) == (b & 0x07 == 0)) by (bit_vector);
}

/// One lossy trip settles a color: packing what was unpacked changes nothing.
pub proof fn lemma_color_pack_idempotent(r: u8, g: u8, b: u8)
    ensures
        ({
            let (r2, g2, b2) = spec_unpack_color(spec_pack_color(r, g, b));
            spec_pack_color(r2, g2, b2) == spec_pack_color(r, g, b)
        }),
{
    let c = spec_pack_color(r, g, b);
    let (r2, g2, b2) = spec_unpack_color(c);
    assert((((((c >> 8) & 0xF8) as u8) & 0xF8) as u16) << 8 | (((((c >> 3) & 0xFC) as u8)
        & 0xFC) as u16) << 3 | (((((c << 3) & 0xF8) as u8) & 0xF8) as u16) >> 3 == c)
        by (bit_vector)
        requires
            c == (((r & 0xF8) as u16) << 8 | ((g & 0xFC) as u16) << 3 | ((b & 0xF8) as u16)
                >> 3) as u16,
    ;
}

} // verus!
