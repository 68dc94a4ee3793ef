//! The record codec.  A record is framed on disk as
//!
//! ```text
//! +------+-----------+------------+-----+-------+------+
//! | type | key_len   | value_len  | key | value | crc  |
//! | 1 B  | varint<=5B| varint<=5B | var | var   | 4 B  |
//! +------+-----------+------------+-----+-------+------+
//! ```
//!
//! where the lengths are base-128 varints and the trailing CRC is the IEEE
//! CRC-32 of every byte that precedes it, stored big-endian.  A header whose
//! two lengths are both zero marks the end of a file during recovery.

use vstd::prelude::*;

use crate::crc::crc32;
use crate::crc::crc32_of;
use crate::varint::byte_at;
use crate::varint::lemma_parse_varint_bound;
use crate::varint::lemma_parse_varint_enc;
use crate::varint::lemma_parse_varint_window;
use crate::varint::lemma_varint_enc_len;
use crate::varint::parse_varint;
use crate::varint::varint_enc;
use crate::varint::write_varint;

verus! {

/// The largest key an engine accepts, in bytes: the on-disk key adds a
/// varint transaction prefix of at most ten bytes, and the framed key's
/// length must still encode in the five varint bytes the frame header
/// allows.
pub const MAX_KEY_SIZE: u64 = 0x7_ffff_fff5;

/// The largest value an engine accepts, in bytes: its length must encode
/// in the five varint bytes the frame header allows.
pub const MAX_VALUE_SIZE: u64 = 0x7_ffff_ffff;

/// Where a record lives on disk: a data file and a byte offset in it.
#[derive(Clone, Copy, Debug, PartialEq, Eq, Structural)]
pub struct LogRecordPos {
    pub file_id: u32,
    pub offset: u64,
}

/// The kind of a record: a live key/value pair, a tombstone, or the marker
/// that seals a transaction batch.
#[derive(Clone, Copy, Debug, PartialEq, Eq, Structural)]
pub enum LogRecordType {
    NORMAL,
    DELETE,
    TXNFINISHED,
}

/// One record as written to a data file.  `key` is the on-disk key: the
/// user key prefixed with the varint of its transaction number.
#[derive(Clone, Debug, PartialEq, Eq)]
pub struct LogRecord {
    pub key: Vec<u8>,
    pub value: Vec<u8>,
    pub record_type: LogRecordType,
}

/// A record read back from a data file together with the byte size of its
/// whole frame.
#[derive(Debug)]
pub struct ReadLogRecord {
    pub record: LogRecord,
    pub size: usize,
}

/// A record buffered during recovery until its transaction's closing marker
/// is seen.
#[derive(Debug)]
pub struct TransactionRecord {
    pub record: LogRecord,
    pub pos: LogRecordPos,
}

/// The byte that stands for a record type in the frame.
pub open spec fn type_code(t: LogRecordType) -> u8 {
    match t {
        LogRecordType::NORMAL => 1,
        LogRecordType::DELETE => 2,
        LogRecordType::TXNFINISHED => 3,
    }
}

/// The record type a frame byte stands for, if any.
pub open spec fn type_from_code(b: u8) -> Option<LogRecordType> {
    if b == 1 {
        Some(LogRecordType::NORMAL)
    } else if b == 2 {
        Some(LogRecordType::DELETE)
    } else if b == 3 {
        Some(LogRecordType::TXNFINISHED)
    } else {
        None
    }
}

/// The record type a byte stands for, or `None` for any other byte.
pub fn log_record_type_from_code(b: u8) -> (r: Option<LogRecordType>)
    ensures
        r == type_from_code(b),
{
    if b == 1 {
        Some(LogRecordType::NORMAL)
    } else if b == 2 {
        Some(LogRecordType::DELETE)
    } else if b == 3 {
        Some(LogRecordType::TXNFINISHED)
    } else {
        None
    }
}

/// A `u32` as four big-endian bytes.
pub open spec fn u32_be(n: u32) -> Seq<u8> {
    seq![
        (n / 0x100_0000) as u8,
        ((n / 0x1_0000) % 0x100) as u8,
        ((n / 0x100) % 0x100) as u8,
        (n % 0x100) as u8,
    ]
}

/// Append `n` to `buf` as four big-endian bytes.
fn push_u32_be(buf: &mut Vec<u8>, n: u32)
    ensures
        final(buf)@ == old(buf)@ + u32_be(n),
{
    buf.push((n / 0x100_0000) as u8);
    buf.push(((n / 0x1_0000) % 0x100) as u8);
    buf.push(((n / 0x100) % 0x100) as u8);
    buf.push((n % 0x100) as u8);
    proof {
        assert(final(buf)@ =~= old(buf)@ + u32_be(n));
    }
}

/// The bytes of a frame that the CRC covers: everything before the CRC.
pub open spec fn frame_body(rt: LogRecordType, key: Seq<u8>, value: Seq<u8>) -> Seq<u8> {
    seq![type_code(rt)] + varint_enc(key.len()) + varint_enc(value.len()) + key + value
}

/// The full on-disk frame of a record.
pub open spec fn frame_bytes(rt: LogRecordType, key: Seq<u8>, value: Seq<u8>) -> Seq<u8> {
    frame_body(rt, key, value) + u32_be(crc32_of(frame_body(rt, key, value)))
}

/// What parsing a frame at some offset of a file yields.
pub ghost enum FrameParse {
    /// A well-formed frame: its type, on-disk key, value, and total size.
    Frame { rtype: LogRecordType, key: Seq<u8>, value: Seq<u8>, size: nat },
    /// A header whose two lengths are zero: the end of the file.
    Eof,
    /// A structurally complete frame whose stored CRC does not match.
    BadCrc,
    /// An unterminated length varint or an unknown type byte.
    Corrupt,
}

/// The window of `len` bytes of `s` starting at `off`, zero-padded past the
/// end of `s`.
pub open spec fn read_window(s: Seq<u8>, off: int, len: nat) -> Seq<u8> {
    Seq::new(len, |k: int| byte_at(s, off + k))
}

/// Whether the frame whose header sits at `off` is small enough to be held
/// in this machine's memory; a frame is at most a few dozen gigabytes, so
/// this can only fail on an address space narrower than 64 bits.
pub open spec fn frame_fits_arch(s: Seq<u8>, off: int) -> bool {
    match parse_varint(s, off + 1, 5) {
        Some((kl, n1)) => match parse_varint(s, off + 1 + n1, 5) {
            Some((vl, n2)) => kl + vl + 15 <= usize::MAX,
            None => true,
        },
        None => true,
    }
}

/// Parse one frame of `s` at `off`.  Bytes past the end of `s` read as zero,
/// so parsing at or past the end yields `Eof`.
pub open spec fn parse_frame(s: Seq<u8>, off: int) -> FrameParse {
    match parse_varint(s, off + 1, 5) {
        None => FrameParse::Corrupt,
        Some((kl, n1)) => match parse_varint(s, off + 1 + n1, 5) {
            None => FrameParse::Corrupt,
            Some((vl, n2)) => {
                if kl == 0 && vl == 0 {
                    FrameParse::Eof
                } else {
                    let hs = 1 + n1 + n2;
                    let body = read_window(s, off, (hs + kl + vl) as nat);
                    let stored = read_window(s, off + hs + kl + vl, 4);
                    if stored != u32_be(crc32_of(body)) {
                        FrameParse::BadCrc
                    } else {
                        match type_from_code(byte_at(s, off)) {
                            Some(rt) => FrameParse::Frame {
                                rtype: rt,
                                key: read_window(s, off + hs, kl),
                                value: read_window(s, off + hs + kl, vl),
                                size: (hs + kl + vl + 4) as nat,
                            },
                            None => FrameParse::Corrupt,
                        }
                    }
                }
            },
        },
    }
}

impl LogRecord {
    /// Encode the record as a frame, exactly as laid out above.
    pub fn encode(&self) -> (r: Vec<u8>)
        requires
            self.key@.len() <= MAX_KEY_SIZE + 10,
            self.value@.len() <= MAX_VALUE_SIZE,
        ensures
            r@ == frame_bytes(self.record_type, self.key@, self.value@),
    {
        let (buf, _) = self.encode_and_get_crc();
        buf
    }

    /// The CRC that seals the record's frame.
    pub fn get_crc(&self) -> (r: u32)
        requires
            self.key@.len() <= MAX_KEY_SIZE + 10,
            self.value@.len() <= MAX_VALUE_SIZE,
        ensures
            r == crc32_of(frame_body(self.record_type, self.key@, self.value@)),
    {
        let (_, crc) = self.encode_and_get_crc();
        crc
    }

    fn encode_and_get_crc(&self) -> (r: (Vec<u8>, u32))
        requires
            self.key@.len() <= MAX_KEY_SIZE + 10,
            self.value@.len() <= MAX_VALUE_SIZE,
        ensures
            r.0@ == frame_bytes(self.record_type, self.key@, self.value@),
            r.1 == crc32_of(frame_body(self.record_type, self.key@, self.value@)),
    {
        let mut buf: Vec<u8> = Vec::new();
        let type_byte: u8 = match self.record_type {
            LogRecordType::NORMAL => 1,
            LogRecordType::DELETE => 2,
            LogRecordType::TXNFINISHED => 3,
        };
        buf.push(type_byte);
        write_varint(&mut buf, self.key.len() as u64);
        write_varint(&mut buf, self.value.len() as u64);
        buf.extend_from_slice(self.key.as_slice());
        buf.extend_from_slice(self.value.as_slice());
        proof {
            assert(buf@ =~= frame_body(self.record_type, self.key@, self.value@));
        }
        let crc = crc32(&buf);
        push_u32_be(&mut buf, crc);
        (buf, crc)
    }
}

/// The largest header a frame can have: the type byte and two five-byte
/// length varints.
pub fn max_log_record_header_size() -> (r: usize)
    ensures
        r == 11,
{
    11
}

/// A frame is at least eight bytes: header, at least one key or value byte,
/// and the CRC.
pub proof fn lemma_frame_size_bounds(s: Seq<u8>, off: int)
    requires
        parse_frame(s, off) is Frame,
    ensures
        8 <= parse_frame(s, off)->size < 0x11_0000_0000,
{
    let (kl, n1) = parse_varint(s, off + 1, 5)->Some_0;
    crate::varint::lemma_parse_varint5(s, off + 1);
    crate::varint::lemma_parse_varint5(s, off + 1 + n1);
    let (vl, n2) = parse_varint(s, off + 1 + n1, 5)->Some_0;
    assert(!(kl == 0 && vl == 0));
    assert(parse_frame(s, off)->size == 1 + n1 + n2 + kl + vl + 4);
}

/// Parsing at or past the end of the file sees only the zero tail and
/// reports the end of the file.
pub proof fn lemma_parse_frame_beyond(s: Seq<u8>, off: int)
    requires
        off >= s.len(),
    ensures
        parse_frame(s, off) == FrameParse::Eof,
{
    assert(byte_at(s, off + 1) == 0);
    assert(parse_varint(s, off + 1, 5) == Some((0nat, 1nat)));
    assert(byte_at(s, off + 1 + 1) == 0);
    assert(parse_varint(s, off + 2, 5) == Some((0nat, 1nat)));
}

/// A frame parse reads only the `size` bytes of the frame: two starting
/// points whose windows agree on those bytes parse to the same frame.
pub proof fn lemma_parse_frame_window(s1: Seq<u8>, o1: int, s2: Seq<u8>, o2: int)
    requires
        parse_frame(s1, o1) is Frame,
        forall|k: int| 0 <= k < parse_frame(s1, o1)->size
            ==> #[trigger] byte_at(s1, o1 + k) == byte_at(s2, o2 + k),
    ensures
        parse_frame(s2, o2) == parse_frame(s1, o1),
{
    let size = parse_frame(s1, o1)->size;
    let (kl, n1) = parse_varint(s1, o1 + 1, 5)->Some_0;
    lemma_parse_varint_bound(s1, o1 + 1, 5);
    let (vl, n2) = parse_varint(s1, o1 + 1 + n1, 5)->Some_0;
    lemma_parse_varint_bound(s1, o1 + 1 + n1, 5);
    let hs = 1 + n1 + n2;
    assert(size == hs + kl + vl + 4);

    // the first length varint sits in bytes 1..6 of the frame
    assert forall|k: int| 0 <= k < 5
        implies #[trigger] byte_at(s1, (o1 + 1) + k) == byte_at(s2, (o2 + 1) + k) by {
        assert(byte_at(s1, o1 + (1 + k)) == byte_at(s2, o2 + (1 + k)));
    }
    lemma_parse_varint_window(s1, o1 + 1, s2, o2 + 1, 5);

    // the second sits in bytes 1+n1..1+n1+5, still within the frame
    assert forall|k: int| 0 <= k < 5
        implies #[trigger] byte_at(s1, (o1 + 1 + n1) + k) == byte_at(s2, (o2 + 1 + n1) + k) by {
        assert(byte_at(s1, o1 + (1 + n1 + k)) == byte_at(s2, o2 + (1 + n1 + k)));
    }
    lemma_parse_varint_window(s1, o1 + 1 + n1, s2, o2 + 1 + n1, 5);

    assert(byte_at(s1, o1 + 0) == byte_at(s2, o2 + 0));
    assert(read_window(s1, o1, (hs + kl + vl) as nat) =~= read_window(s2, o2, (hs + kl + vl) as nat));
    assert forall|k: int| 0 <= k < 4
        implies #[trigger] byte_at(s1, (o1 + hs + kl + vl) + k) == byte_at(s2, (o2 + hs + kl + vl) + k) by {
        assert(byte_at(s1, o1 + (hs + kl + vl + k)) == byte_at(s2, o2 + (hs + kl + vl + k)));
    }
    assert(read_window(s1, o1 + hs + kl + vl, 4) =~= read_window(s2, o2 + hs + kl + vl, 4));
    assert forall|k: int| 0 <= k < kl
        implies #[trigger] byte_at(s1, (o1 + hs) + k) == byte_at(s2, (o2 + hs) + k) by {
        assert(byte_at(s1, o1 + (hs + k)) == byte_at(s2, o2 + (hs + k)));
    }
    assert(read_window(s1, o1 + hs, kl) =~= read_window(s2, o2 + hs, kl));
    assert forall|k: int| 0 <= k < vl
        implies #[trigger] byte_at(s1, (o1 + hs + kl) + k) == byte_at(s2, (o2 + hs + kl) + k) by {
        assert(byte_at(s1, o1 + (hs + kl + k)) == byte_at(s2, o2 + (hs + kl + k)));
    }
    assert(read_window(s1, o1 + hs + kl, vl) =~= read_window(s2, o2 + hs + kl, vl));
}

/// Two starting points whose windows agree everywhere to the right parse
/// alike, whatever the outcome.
pub proof fn lemma_parse_frame_shift(s1: Seq<u8>, o1: int, s2: Seq<u8>, o2: int)
    requires
        forall|k: int| 0 <= k ==> #[trigger] byte_at(s1, o1 + k) == byte_at(s2, o2 + k),
    ensures
        parse_frame(s2, o2) == parse_frame(s1, o1),
{
    assert forall|k: int| 0 <= k < 5
        implies #[trigger] byte_at(s1, (o1 + 1) + k) == byte_at(s2, (o2 + 1) + k) by {
        assert(byte_at(s1, o1 + (1 + k)) == byte_at(s2, o2 + (1 + k)));
    }
    lemma_parse_varint_window(s1, o1 + 1, s2, o2 + 1, 5);
    if parse_varint(s1, o1 + 1, 5) is Some {
        let (kl, n1) = parse_varint(s1, o1 + 1, 5)->Some_0;
        lemma_parse_varint_bound(s1, o1 + 1, 5);
        assert forall|k: int| 0 <= k < 5
            implies #[trigger] byte_at(s1, (o1 + 1 + n1) + k) == byte_at(s2, (o2 + 1 + n1) + k) by {
            assert(byte_at(s1, o1 + (1 + n1 + k)) == byte_at(s2, o2 + (1 + n1 + k)));
        }
        lemma_parse_varint_window(s1, o1 + 1 + n1, s2, o2 + 1 + n1, 5);
        if parse_varint(s1, o1 + 1 + n1, 5) is Some {
            let (vl, n2) = parse_varint(s1, o1 + 1 + n1, 5)->Some_0;
            let hs = 1 + n1 + n2;
            assert(byte_at(s1, o1 + 0) == byte_at(s2, o2 + 0));
            assert(read_window(s1, o1, (hs + kl + vl) as nat)
                =~= read_window(s2, o2, (hs + kl + vl) as nat)) by {
                assert forall|k: int| 0 <= k < hs + kl + vl
                    implies byte_at(s1, o1 + k) == #[trigger] byte_at(s2, o2 + k) by {
                    assert(byte_at(s1, o1 + k) == byte_at(s2, o2 + k));
                }
            }
            assert(read_window(s1, o1 + hs + kl + vl, 4)
                =~= read_window(s2, o2 + hs + kl + vl, 4)) by {
                assert forall|k: int| 0 <= k < 4
                    implies #[trigger] byte_at(s1, (o1 + hs + kl + vl) + k)
                        == byte_at(s2, (o2 + hs + kl + vl) + k) by {
                    assert(byte_at(s1, o1 + (hs + kl + vl + k)) == byte_at(s2, o2 + (hs + kl + vl + k)));
                }
            }
            assert(read_window(s1, o1 + hs, kl) =~= read_window(s2, o2 + hs, kl)) by {
                assert forall|k: int| 0 <= k < kl
                    implies #[trigger] byte_at(s1, (o1 + hs) + k) == byte_at(s2, (o2 + hs) + k) by {
                    assert(byte_at(s1, o1 + (hs + k)) == byte_at(s2, o2 + (hs + k)));
                }
            }
            assert(read_window(s1, o1 + hs + kl, vl) =~= read_window(s2, o2 + hs + kl, vl)) by {
                assert forall|k: int| 0 <= k < vl
                    implies #[trigger] byte_at(s1, (o1 + hs + kl) + k) == byte_at(s2, (o2 + hs + kl) + k) by {
                    assert(byte_at(s1, o1 + (hs + kl + k)) == byte_at(s2, o2 + (hs + kl + k)));
                }
            }
        }
    }
}

/// Parsing an encoded frame in place yields the record that was encoded.
pub proof fn lemma_parse_frame_encoding(
    s: Seq<u8>,
    off: int,
    rt: LogRecordType,
    key: Seq<u8>,
    value: Seq<u8>,
)
    requires
        key.len() + value.len() > 0,
        key.len() < 0x8_0000_0000,
        value.len() < 0x8_0000_0000,
        forall|k: int| 0 <= k < frame_bytes(rt, key, value).len()
            ==> #[trigger] byte_at(s, off + k) == frame_bytes(rt, key, value)[k],
    ensures
        parse_frame(s, off) == (FrameParse::Frame {
            rtype: rt,
            key: key,
            value: value,
            size: frame_bytes(rt, key, value).len() as nat,
        }),
{
    let fb = frame_bytes(rt, key, value);
    let body = frame_body(rt, key, value);
    let v1 = varint_enc(key.len());
    let v2 = varint_enc(value.len());
    lemma_varint_enc_len(key.len());
    lemma_varint_enc_len(value.len());
    let n1 = v1.len();
    let n2 = v2.len();
    let hs = 1 + n1 + n2;
    assert(body.len() == hs + key.len() + value.len());
    assert(fb.len() == body.len() + 4);

    // the type byte
    assert(byte_at(s, off + 0) == fb[0]);
    assert(fb[0] == type_code(rt));

    // the first length varint
    assert forall|k: int| 0 <= k < n1
        implies #[trigger] byte_at(s, (off + 1) + k) == v1[k] by {
        assert(byte_at(s, off + (1 + k)) == fb[1 + k]);
        assert(fb[1 + k] == v1[k]);
    }
    lemma_parse_varint_enc(s, off + 1, key.len(), 5);

    // the second length varint
    assert forall|k: int| 0 <= k < n2
        implies #[trigger] byte_at(s, (off + 1 + n1) + k) == v2[k] by {
        assert(byte_at(s, off + (1 + n1 + k)) == fb[1 + n1 + k]);
        assert(fb[1 + n1 + k] == v2[k]);
    }
    lemma_parse_varint_enc(s, off + 1 + n1, value.len(), 5);

    // the key, value, body and stored-CRC windows are the encoded segments
    assert(read_window(s, off, body.len()) =~= body) by {
        assert forall|k: int| 0 <= k < body.len()
            implies #[trigger] byte_at(s, off + k) == body[k] by {
            assert(byte_at(s, off + k) == fb[k]);
        }
    }
    assert(read_window(s, off + hs + key.len() + value.len(), 4)
        =~= u32_be(crc32_of(body))) by {
        assert forall|k: int| 0 <= k < 4
            implies #[trigger] byte_at(s, (off + hs + key.len() + value.len()) + k)
                == u32_be(crc32_of(body))[k] by {
            assert(byte_at(s, off + (body.len() + k)) == fb[body.len() + k]);
            assert(fb[body.len() + k] == u32_be(crc32_of(body))[k]);
        }
    }
    assert(read_window(s, off + hs, key.len()) =~= key) by {
        assert forall|k: int| 0 <= k < key.len()
            implies #[trigger] byte_at(s, (off + hs) + k) == key[k] by {
            assert(byte_at(s, off + (hs + k)) == fb[hs + k]);
            assert(fb[hs + k] == body[hs + k]);
            assert(body[hs + k] == key[k]);
        }
    }
    assert(read_window(s, off + hs + key.len(), value.len()) =~= value) by {
        assert forall|k: int| 0 <= k < value.len()
            implies #[trigger] byte_at(s, (off + hs + key.len()) + k) == value[k] by {
            assert(byte_at(s, off + (hs + key.len() + k)) == fb[hs + key.len() + k]);
            assert(fb[hs + key.len() + k] == body[hs + key.len() + k]);
            assert(body[hs + key.len() + k] == value[k]);
        }
    }
    assert(type_from_code(type_code(rt)) == Some(rt));
}

} // verus!
