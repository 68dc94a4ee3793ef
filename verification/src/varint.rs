//! Base-128 varints (the protobuf length-delimiter format): seven payload
//! bits per byte, least-significant group first, the high bit marking a
//! continuation byte.  Data files store key and value lengths and the
//! transaction number prefix of every on-disk key in this encoding.

use vstd::prelude::*;

verus! {

/// The byte of `s` at index `i`, reading 0 beyond either end: a data file is
/// modelled as if it were followed by an endless tail of zero bytes, which is
/// what a positioned read of a file yields past the end of the file.
pub open spec fn byte_at(s: Seq<u8>, i: int) -> u8 {
    if 0 <= i < s.len() {
        s[i]
    } else {
        0
    }
}

/// The varint encoding of `n`.
pub open spec fn varint_enc(n: nat) -> Seq<u8>
    decreases n,
{
    if n < 128 {
        seq![n as u8]
    } else {
        seq![((n % 128) + 128) as u8] + varint_enc(n / 128)
    }
}

/// Parse a varint from `s` starting at `off`, reading at most `max` bytes.
/// The result is the decoded value and the count of bytes consumed; `None`
/// means the varint did not terminate within `max` bytes.
pub open spec fn parse_varint(s: Seq<u8>, off: int, max: nat) -> Option<(nat, nat)>
    decreases max,
{
    if max == 0 {
        None
    } else {
        let b = byte_at(s, off);
        if b < 128 {
            Some((b as nat, 1))
        } else {
            match parse_varint(s, off + 1, (max - 1) as nat) {
                Some((v, n)) => Some((((b - 128) as nat + 128 * v) as nat, (n + 1) as nat)),
                None => None,
            }
        }
    }
}

/// Parsing as done by the executable reader, which holds values in a `u64`:
/// a terminated varint whose value does not fit 64 bits is rejected.
pub open spec fn parse_varint_u64(s: Seq<u8>, off: int, max: nat) -> Option<(nat, nat)> {
    match parse_varint(s, off, max) {
        Some((v, n)) => if v <= u64::MAX as nat {
            Some((v, n))
        } else {
            None
        },
        None => None,
    }
}

/// Concrete values of `pow128` needed by the length bounds.
proof fn lemma_pow128_values()
    ensures
        pow128(1) == 0x80,
        pow128(5) == 0x8_0000_0000,
        pow128(10) == 0x40_0000_0000_0000_0000,
{
    assert(pow128(0) == 1);
    assert(pow128(1) == 128 * pow128(0));
    assert(pow128(2) == 128 * pow128(1));
    assert(pow128(3) == 128 * pow128(2));
    assert(pow128(4) == 128 * pow128(3));
    assert(pow128(5) == 128 * pow128(4));
    assert(pow128(6) == 128 * pow128(5));
    assert(pow128(7) == 128 * pow128(6));
    assert(pow128(8) == 128 * pow128(7));
    assert(pow128(9) == 128 * pow128(8));
    assert(pow128(10) == 128 * pow128(9));
}

/// An encoded varint takes one byte for every started group of seven bits.
pub proof fn lemma_varint_enc_len(n: nat)
    ensures
        1 <= varint_enc(n).len(),
        n < 0x80 ==> varint_enc(n).len() == 1,
        n < 0x8_0000_0000 ==> varint_enc(n).len() <= 5,
        n <= u64::MAX as nat ==> varint_enc(n).len() <= 10,
{
    lemma_pow128_values();
    if n < 0x80 {
        lemma_varint_enc_len_pow(n, 1);
    } else if n < 0x8_0000_0000 {
        lemma_varint_enc_len_pow(n, 5);
    } else if n <= u64::MAX as nat {
        lemma_varint_enc_len_pow(n, 10);
    }
}

/// General bound: a value below 128^k encodes in at most k bytes.
proof fn lemma_varint_enc_len_pow(n: nat, k: nat)
    requires
        k >= 1,
        n < pow128(k),
    ensures
        varint_enc(n).len() <= k,
    decreases n,
{
    if n >= 128 {
        assert(pow128(k) == 128 * pow128((k - 1) as nat));
        assert(n / 128 < pow128((k - 1) as nat)) by {
            if n / 128 >= pow128((k - 1) as nat) {
                assert(n >= 128 * (n / 128)) by (nonlinear_arith);
                assert(128 * (n / 128) >= 128 * pow128((k - 1) as nat)) by (nonlinear_arith)
                    requires n / 128 >= pow128((k - 1) as nat);
            }
        }
        lemma_varint_enc_len_pow(n / 128, (k - 1) as nat);
    }
}

/// 128 raised to `k`.
pub open spec fn pow128(k: nat) -> nat
    decreases k,
{
    if k == 0 {
        1
    } else {
        128 * pow128((k - 1) as nat)
    }
}

/// A parsed varint's value is below 128^n where n bytes were consumed, and
/// at least one and at most `max` bytes are consumed.
pub proof fn lemma_parse_varint_bound(s: Seq<u8>, off: int, max: nat)
    requires
        parse_varint(s, off, max) is Some,
    ensures
        ({
            let (v, n) = parse_varint(s, off, max)->Some_0;
            &&& 1 <= n <= max
            &&& v < pow128(n)
        }),
    decreases max,
{
    let b = byte_at(s, off);
    if b < 128 {
        assert(pow128(1) == 128 * pow128(0));
    } else {
        lemma_parse_varint_bound(s, off + 1, (max - 1) as nat);
        let (v, n) = parse_varint(s, off + 1, (max - 1) as nat)->Some_0;
        assert((b - 128) as nat + 128 * v < pow128((n + 1) as nat)) by {
            assert(pow128((n + 1) as nat) == 128 * pow128(n));
            assert(v <= pow128(n) - 1);
            assert(128 * v <= 128 * (pow128(n) - 1)) by (nonlinear_arith)
                requires v <= pow128(n) - 1;
        }
    }
}

/// A five-byte varint holds a value below 2^35.
pub proof fn lemma_parse_varint5(s: Seq<u8>, off: int)
    requires
        parse_varint(s, off, 5) is Some,
    ensures
        ({
            let (v, n) = parse_varint(s, off, 5)->Some_0;
            &&& 1 <= n <= 5
            &&& v < 0x8_0000_0000
        }),
{
    lemma_parse_varint_bound(s, off, 5);
    lemma_pow128_values();
    let (v, n) = parse_varint(s, off, 5)->Some_0;
    lemma_pow128_le(n, 5);
}

/// `pow128` is monotone.
proof fn lemma_pow128_le(a: nat, b: nat)
    requires
        a <= b,
    ensures
        pow128(a) <= pow128(b),
    decreases b,
{
    if a < b {
        lemma_pow128_le(a, (b - 1) as nat);
        assert(pow128(b) == 128 * pow128((b - 1) as nat));
        assert(pow128((b - 1) as nat) <= 128 * pow128((b - 1) as nat)) by (nonlinear_arith)
            requires pow128((b - 1) as nat) >= 0;
    }
}

/// If a window of `s` starting at `off` holds exactly the encoding of `n`,
/// parsing there yields `n`.
pub proof fn lemma_parse_varint_enc(s: Seq<u8>, off: int, n: nat, max: nat)
    requires
        varint_enc(n).len() <= max,
        forall|k: int| 0 <= k < varint_enc(n).len() ==> #[trigger] byte_at(s, off + k) == varint_enc(n)[k],
    ensures
        parse_varint(s, off, max) == Some((n, varint_enc(n).len() as nat)),
    decreases n,
{
    if n < 128 {
        assert(byte_at(s, off + 0) == varint_enc(n)[0]);
        assert(byte_at(s, off) == varint_enc(n)[0]);
    } else {
        let first = ((n % 128) + 128) as u8;
        assert(byte_at(s, off + 0) == varint_enc(n)[0]);
        assert(byte_at(s, off) == first);
        assert forall|k: int| 0 <= k < varint_enc(n / 128).len()
            implies byte_at(s, off + 1 + k) == #[trigger] varint_enc(n / 128)[k] by {
            assert(varint_enc(n)[k + 1] == varint_enc(n / 128)[k]);
            assert(byte_at(s, off + (k + 1)) == varint_enc(n)[k + 1]);
        }
        lemma_parse_varint_enc(s, off + 1, n / 128, (max - 1) as nat);
        assert((first - 128) as nat + 128 * (n / 128) == n) by {
            assert(n % 128 + 128 * (n / 128) == n) by (nonlinear_arith);
        }
    }
}

/// Parsing reads only the `max`-byte window: two starting points whose
/// windows agree byte for byte parse alike.
pub proof fn lemma_parse_varint_window(s1: Seq<u8>, o1: int, s2: Seq<u8>, o2: int, max: nat)
    requires
        forall|k: int| 0 <= k < max ==> #[trigger] byte_at(s1, o1 + k) == byte_at(s2, o2 + k),
    ensures
        parse_varint(s1, o1, max) == parse_varint(s2, o2, max),
    decreases max,
{
    if max > 0 {
        assert(byte_at(s1, o1 + 0) == byte_at(s2, o2 + 0));
        assert forall|k: int| 0 <= k < max - 1
            implies #[trigger] byte_at(s1, (o1 + 1) + k) == byte_at(s2, (o2 + 1) + k) by {
            assert(byte_at(s1, o1 + (k + 1)) == byte_at(s2, o2 + (k + 1)));
        }
        lemma_parse_varint_window(s1, o1 + 1, s2, o2 + 1, (max - 1) as nat);
    }
}

/// Two values with the same encoding are the same value.
pub proof fn lemma_varint_enc_injective(a: u64, b: u64)
    ensures
        varint_enc(a as nat) == varint_enc(b as nat) ==> a == b,
{
    if varint_enc(a as nat) == varint_enc(b as nat) {
        let enc = varint_enc(a as nat);
        lemma_varint_enc_len(a as nat);
        lemma_varint_enc_len(b as nat);
        assert(forall|k: int| 0 <= k < enc.len() ==> #[trigger] byte_at(enc, 0 + k) == enc[k]);
        lemma_parse_varint_enc(enc, 0, a as nat, 10);
        lemma_parse_varint_enc(enc, 0, b as nat, 10);
    }
}

/// Read the byte of `buf` at `pos`, with the zero tail beyond the end.
pub fn read_byte_at(buf: &Vec<u8>, pos: usize) -> (r: u8)
    ensures
        r == byte_at(buf@, pos as int),
{
    if pos < buf.len() {
        buf[pos]
    } else {
        0
    }
}

/// Read a varint of at most `max` bytes from `buf` at `pos`, where bytes past
/// the end of `buf` read as zero.  Returns the value and the count of bytes
/// consumed, or `None` on an unterminated varint or 64-bit overflow.
pub fn read_varint(buf: &Vec<u8>, pos: usize, max: u8) -> (r: Option<(u64, usize)>)
    requires
        pos + max <= usize::MAX,
    ensures
        match r {
            Some((v, n)) => parse_varint_u64(buf@, pos as int, max as nat) == Some((v as nat, n as nat)),
            None => parse_varint_u64(buf@, pos as int, max as nat) is None,
        },
    decreases max,
{
    if max == 0 {
        return None;
    }
    let b = read_byte_at(buf, pos);
    if b < 128 {
        Some((b as u64, 1))
    } else {
        match read_varint(buf, pos + 1, max - 1) {
            Some((v, n)) => {
                proof {
                    lemma_parse_varint_bound(buf@, pos as int + 1, (max - 1) as nat);
                }
                if v < 0x0200_0000_0000_0000 {
                    Some(((b - 128) as u64 + 128 * v, n + 1))
                } else {
                    proof {
                        let (sv, _sn) = parse_varint(buf@, pos as int + 1, (max - 1) as nat)->Some_0;
                        assert(128 * sv >= 128 * 0x0200_0000_0000_0000) by (nonlinear_arith)
                            requires sv >= 0x0200_0000_0000_0000;
                    }
                    None
                }
            },
            None => None,
        }
    }
}

/// Append the varint encoding of `n` to `buf`.
pub fn write_varint(buf: &mut Vec<u8>, n: u64)
    ensures
        final(buf)@ == old(buf)@ + varint_enc(n as nat),
    decreases n,
{
    if n < 128 {
        buf.push(n as u8);
    } else {
        buf.push((n % 128 + 128) as u8);
        write_varint(buf, n / 128);
        proof {
            assert(old(buf)@ + varint_enc(n as nat)
                == (old(buf)@ + seq![((n as nat % 128) + 128) as u8]) + varint_enc((n / 128) as nat));
        }
    }
}

} // verus!
