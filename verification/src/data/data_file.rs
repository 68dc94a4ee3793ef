//! One append-only log segment: an I/O capability, a file id, and the
//! tracked write offset.  Reading a record back is verified against the
//! frame parser of the codec module.

use vstd::prelude::*;

use crate::data::log_record::frame_fits_arch;
use crate::data::log_record::max_log_record_header_size;
use crate::data::log_record::parse_frame;
use crate::data::log_record::read_window;
use crate::data::log_record::u32_be;
use crate::data::log_record::FrameParse;
use crate::data::log_record::LogRecord;
use crate::data::log_record::ReadLogRecord;
use crate::data::log_record::log_record_type_from_code;
use crate::crc::crc32;
use crate::crc::crc32_of;
use crate::error::Error;
use crate::fio::new_io_manager;
use crate::fio::IOManager;
use crate::fio::MAX_FILE_BYTES;
use crate::varint::byte_at;
use crate::varint::lemma_parse_varint5;
use crate::varint::lemma_parse_varint_window;
use crate::varint::parse_varint;
use crate::varint::read_varint;

verus! {

/// The suffix of every data file's name.
pub open spec fn data_file_suffix() -> Seq<u8> {
    seq![0x2eu8, 0x64u8, 0x61u8, 0x74u8, 0x61u8]  // ".data"
}

/// The decimal digits of `n`, `k` of them, most significant first, as ASCII.
pub open spec fn dec_digits(n: nat, k: nat) -> Seq<u8>
    decreases k,
{
    if k == 0 {
        Seq::empty()
    } else {
        dec_digits(n / 10, (k - 1) as nat) + seq![((n % 10) + 0x30) as u8]
    }
}

/// Append the `k` ASCII digits of `n`, most significant first.
fn push_dec_digits(out: &mut Vec<u8>, n: u32, k: usize)
    ensures
        final(out)@ == old(out)@ + dec_digits(n as nat, k as nat),
    decreases k,
{
    if k == 0 {
        proof {
            assert(old(out)@ + dec_digits(n as nat, 0) =~= old(out)@);
        }
    } else {
        push_dec_digits(out, n / 10, k - 1);
        out.push((n % 10) as u8 + 0x30);
        proof {
            assert((n % 10) as u8 + 0x30 == (((n as nat) % 10) + 0x30) as u8);
            assert(old(out)@ + dec_digits((n / 10) as nat, (k - 1) as nat)
                + seq![(((n as nat) % 10) + 0x30) as u8]
                =~= old(out)@ + dec_digits(n as nat, k as nat));
        }
    }
}

/// The full path of a data file: the directory, a slash, the nine-digit
/// zero-padded file id, and the `.data` suffix.
pub open spec fn data_file_path(dir: Seq<u8>, file_id: u32) -> Seq<u8> {
    dir + seq![0x2fu8] + dec_digits(file_id as nat, 9) + data_file_suffix()
}

/// Build the path of the data file with this id inside `dir_path`.
pub fn get_data_file_full_path(dir_path: &Vec<u8>, file_id: u32) -> (r: Vec<u8>)
    ensures
        r@ == data_file_path(dir_path@, file_id),
{
    let mut out: Vec<u8> = Vec::new();
    out.extend_from_slice(dir_path.as_slice());
    out.push(0x2f);
    push_dec_digits(&mut out, file_id, 9);
    out.push(0x2e);
    out.push(0x64);
    out.push(0x61);
    out.push(0x74);
    out.push(0x61);
    proof {
        assert(out@ =~= data_file_path(dir_path@, file_id));
    }
    out
}

/// Whether `name` ends with the `.data` suffix.
pub open spec fn has_data_suffix(name: Seq<u8>) -> bool {
    name.len() >= 5 && name.subrange(name.len() - 5, name.len() as int) == data_file_suffix()
}

/// The value of a string of ASCII decimal digits, most significant first.
pub open spec fn digits_value(s: Seq<u8>) -> nat
    decreases s.len(),
{
    if s.len() == 0 {
        0
    } else {
        digits_value(s.drop_last()) * 10 + (if 0x30 <= s.last() <= 0x39 {
            (s.last() - 0x30) as nat
        } else {
            0
        })
    }
}

/// Whether every byte of `s` is an ASCII decimal digit.
pub open spec fn all_digits(s: Seq<u8>) -> bool {
    forall|i: int| 0 <= i < s.len() ==> 0x30 <= #[trigger] s[i] <= 0x39
}

/// A longer digit string never has a smaller value.
proof fn lemma_digits_value_prefix(s: Seq<u8>, i: int)
    requires
        0 <= i <= s.len(),
    ensures
        digits_value(s.take(i)) <= digits_value(s),
    decreases s.len() - i,
{
    if i < s.len() {
        lemma_digits_value_prefix(s, i + 1);
        assert(s.take(i + 1).drop_last() =~= s.take(i));
        assert(digits_value(s.take(i)) <= digits_value(s.take(i + 1)));
    } else {
        assert(s.take(i) =~= s);
    }
}

/// Read a directory entry's name: `Ok(Some(id))` for a data file's name
/// (decimal digits before the first dot, the `.data` suffix after it),
/// `Ok(None)` for any other name, which the engine ignores, and an error
/// for a `.data` name whose leading digits do not read as a `u32`.
pub fn parse_data_file_name(name: &Vec<u8>) -> (r: Result<Option<u32>, Error>)
    ensures
        match r {
            Ok(Some(id)) => {
                &&& has_data_suffix(name@)
                &&& ({
                    let d = choose|d: int| 0 <= d < name@.len() && name@[d] == 0x2e
                        && (forall|q: int| 0 <= q < d ==> name@[q] != 0x2e);
                    &&& d >= 1
                    &&& all_digits(name@.take(d))
                    &&& digits_value(name@.take(d)) == id
                })
            },
            Ok(None) => !has_data_suffix(name@),
            Err(e) => e == Error::FailedToParseFileId && has_data_suffix(name@),
        },
        ({
            let d = choose|d: int| 0 <= d < name@.len() && name@[d] == 0x2e
                && (forall|q: int| 0 <= q < d ==> name@[q] != 0x2e);
            (has_data_suffix(name@) && 1 <= d && all_digits(name@.take(d))
                && digits_value(name@.take(d)) <= u32::MAX as nat)
                ==> (r matches Ok(o) && o matches Some(id2)
                    && id2 == digits_value(name@.take(d)))
        }),
{
    // the suffix
    if name.len() < 5 {
        proof {
            assert(!has_data_suffix(name@));
        }
        return Ok(None);
    }
    let n = name.len();
    let suffix_ok = name[n - 5] == 0x2e && name[n - 4] == 0x64 && name[n - 3] == 0x61
        && name[n - 2] == 0x74 && name[n - 1] == 0x61;
    proof {
        if suffix_ok {
            assert(name@.subrange(n - 5, n as int) =~= data_file_suffix());
        } else {
            if has_data_suffix(name@) {
                assert(name@.subrange(n - 5, n as int)[0] == name@[n - 5]);
                assert(name@.subrange(n - 5, n as int)[1] == name@[n - 4]);
                assert(name@.subrange(n - 5, n as int)[2] == name@[n - 3]);
                assert(name@.subrange(n - 5, n as int)[3] == name@[n - 2]);
                assert(name@.subrange(n - 5, n as int)[4] == name@[n - 1]);
            }
        }
    }
    if !suffix_ok {
        return Ok(None);
    }

    // the digits before the first dot
    let mut d: usize = 0;
    while d < n && name[d] != 0x2e
        invariant
            d <= n,
            n == name@.len(),
            has_data_suffix(name@),
            name@[n - 5] == 0x2e,
            forall|q: int| 0 <= q < d ==> name@[q] != 0x2e,
        decreases n - d,
    {
        d = d + 1;
    }
    proof {
        assert(name@[n - 5] == 0x2e);
        assert(d < n);
        assert(name@[d as int] == 0x2e);
        let dd = choose|dd: int| 0 <= dd < name@.len() && name@[dd] == 0x2e
            && (forall|q: int| 0 <= q < dd ==> name@[q] != 0x2e);
        assert(name@[d as int] == 0x2e && (forall|q: int| 0 <= q < d ==> name@[q] != 0x2e));
        assert(dd == d) by {
            if dd < d {
                assert(name@[dd] != 0x2e);
            } else if dd > d {
                assert(name@[d as int] != 0x2e);
            }
        }
    }
    if d == 0 {
        return Err(Error::FailedToParseFileId);
    }
    let ghost prefix = name@.take(d as int);
    let mut acc: u64 = 0;
    let mut i: usize = 0;
    while i < d
        invariant
            i <= d,
            d < n,
            n == name@.len(),
            has_data_suffix(name@),
            prefix == name@.take(d as int),
            ({
                let dd = choose|dd: int| 0 <= dd < name@.len() && name@[dd] == 0x2e
                    && (forall|q: int| 0 <= q < dd ==> name@[q] != 0x2e);
                dd == d as int
            }),
            all_digits(prefix.take(i as int)),
            acc == digits_value(prefix.take(i as int)),
            acc <= u32::MAX,
        decreases d - i,
    {
        let b = name[i];
        if b < 0x30 || b > 0x39 {
            proof {
                assert(prefix[i as int] == name@[i as int]);
                assert(!all_digits(prefix));
            }
            return Err(Error::FailedToParseFileId);
        }
        proof {
            assert(prefix.take(i + 1).drop_last() =~= prefix.take(i as int));
            assert(prefix.take(i + 1).last() == name@[i as int]);
            assert forall|q: int| 0 <= q < i + 1
                implies 0x30 <= #[trigger] prefix.take(i + 1)[q] <= 0x39 by {
                if q < i {
                    assert(prefix.take(i as int)[q] == prefix.take(i + 1)[q]);
                }
            }
        }
        acc = acc * 10 + (b - 0x30) as u64;
        i = i + 1;
        if acc > 0xffff_ffff {
            proof {
                lemma_digits_value_prefix(prefix, i as int);
            }
            return Err(Error::FailedToParseFileId);
        }
    }
    proof {
        assert(prefix.take(d as int) =~= prefix);
    }
    Ok(Some(acc as u32))
}

/// One append-only data file.
pub struct DataFile<IO: IOManager> {
    file_id: u32,
    write_offset: u64,
    io: IO,
}

impl<IO: IOManager> DataFile<IO> {
    /// The file's id.
    pub closed spec fn id(&self) -> u32 {
        self.file_id
    }

    /// The tracked write offset.
    pub closed spec fn off(&self) -> u64 {
        self.write_offset
    }

    /// The bytes the file holds.
    pub closed spec fn contents(&self) -> Seq<u8> {
        self.io.contents()
    }

    /// The prefix of the file already durably persisted.
    pub closed spec fn synced(&self) -> Seq<u8> {
        self.io.synced()
    }

    /// Create the data file with this id inside `dir_path`, empty.
    pub fn new(dir_path: &Vec<u8>, file_id: u32) -> (r: Result<Self, Error>)
        ensures
            match r {
                Ok(df) => {
                    &&& df.id() == file_id
                    &&& df.off() == 0
                    &&& df.contents() == Seq::<u8>::empty()
                    &&& df.synced() == df.contents()
                },
                Err(e) => e == Error::FailedToOpenDataFile,
            },
    {
        let path = get_data_file_full_path(dir_path, file_id);
        let io = new_io_manager::<IO>(&path)?;
        Ok(DataFile { file_id, write_offset: 0, io })
    }

    /// Wrap an already-open file, as the embedding does for the files it
    /// finds in the directory at startup.  The write offset starts at zero;
    /// recovery moves it to the true tail of the active file.
    pub fn from_io(file_id: u32, io: IO) -> (r: Self)
        ensures
            r.id() == file_id,
            r.off() == 0,
            r.contents() == io.contents(),
    {
        DataFile { file_id, write_offset: 0, io }
    }

    /// The tracked write offset.
    pub fn get_write_offset(&self) -> (r: u64)
        ensures
            r == self.off(),
    {
        self.write_offset
    }

    /// The file's id.
    pub fn get_file_id(&self) -> (r: u32)
        ensures
            r == self.id(),
    {
        self.file_id
    }

    /// The size of the file in bytes.
    pub fn file_size(&self) -> (r: Result<u64, Error>)
        ensures
            match r {
                Ok(n) => n == self.contents().len() && n <= MAX_FILE_BYTES,
                Err(e) => e == Error::FailedToReadFromDataFile,
            },
    {
        self.io.size()
    }

    /// Move the tracked write offset: recovery uses this to resume the
    /// active file at its true tail.
    pub fn set_write_offset(&mut self, offset: u64)
        ensures
            final(self).id() == old(self).id(),
            final(self).contents() == old(self).contents(),
            final(self).off() == offset,
    {
        self.write_offset = offset;
    }

    /// Append `buf` and advance the write offset by exactly the bytes
    /// written; a failed append changes nothing.
    pub fn write(&mut self, buf: &Vec<u8>) -> (r: Result<usize, Error>)
        requires
            old(self).off() <= old(self).contents().len(),
        ensures
            final(self).id() == old(self).id(),
            match r {
                Ok(n) => {
                    &&& n == buf@.len()
                    &&& final(self).contents() == old(self).contents() + buf@
                    &&& final(self).off() == old(self).off() + n
                    &&& old(self).contents().len() + buf@.len() <= MAX_FILE_BYTES
                },
                Err(e) => {
                    &&& e == Error::FailedToWriteToDataFile
                    &&& final(self).contents() == old(self).contents()
                    &&& final(self).off() == old(self).off()
                },
            },
    {
        match self.io.write(buf) {
            Ok(n) => {
                self.write_offset = self.write_offset + n as u64;
                Ok(n)
            },
            Err(e) => Err(e),
        }
    }

    /// Durably persist all appended bytes: on success the whole file is
    /// synced.
    pub fn sync(&mut self) -> (r: Result<(), Error>)
        ensures
            final(self).id() == old(self).id(),
            final(self).off() == old(self).off(),
            final(self).contents() == old(self).contents(),
            r is Ok ==> final(self).synced() == final(self).contents(),
            r matches Err(e) ==> e == Error::FailedToSyncDataFile,
    {
        self.io.sync()
    }

    /// Read the record framed at `offset`.  The result follows the frame
    /// parser: a well-formed frame comes back as the record and its size; a
    /// zero-length header is the end of the file; a stored CRC that does not
    /// match is `InvalidLogRecordCRC`; anything structurally broken (and a
    /// frame this machine cannot hold in memory) is `DirectoryCorrupted`.
    pub fn read_log_record(&self, offset: u64) -> (r: Result<ReadLogRecord, Error>)
        requires
            offset <= self.contents().len(),
            self.contents().len() <= MAX_FILE_BYTES,
        ensures
            match r {
                Ok(rlr) => parse_frame(self.contents(), offset as int)
                    matches FrameParse::Frame { rtype, key, value, size }
                    && rlr.record.record_type == rtype
                    && rlr.record.key@ == key
                    && rlr.record.value@ == value
                    && rlr.size == size,
                Err(e) => {
                    ||| (e == Error::ReadDataFileEOF
                        && parse_frame(self.contents(), offset as int) is Eof)
                    ||| (e == Error::InvalidLogRecordCRC
                        && parse_frame(self.contents(), offset as int) is BadCrc)
                    ||| (e == Error::DirectoryCorrupted
                        && (parse_frame(self.contents(), offset as int) is Corrupt
                            || !frame_fits_arch(self.contents(), offset as int)))
                    ||| e == Error::FailedToReadFromDataFile
                },
            },
    {
        let ghost s = self.contents();
        let ghost o = offset as int;

        let header = match self.io.read(offset, max_log_record_header_size()) {
            Ok(h) => h,
            Err(e) => {
                return Err(e);
            },
        };
        proof {
            assert(forall|k: int| 0 <= k < 11 ==> header@[k] == #[trigger] byte_at(s, o + k));
            assert forall|k: int| 0 <= k < 5
                implies #[trigger] byte_at(header@, 1 + k) == byte_at(s, (o + 1) + k) by {
                assert(header@[1 + k] == byte_at(s, o + (1 + k)));
            }
            lemma_parse_varint_window(header@, 1, s, o + 1, 5);
        }
        let (key_len, n1) = match read_varint(&header, 1, 5) {
            Some(p) => p,
            None => {
                proof {
                    if parse_varint(s, o + 1, 5) is Some {
                        lemma_parse_varint5(s, o + 1);
                    }
                }
                return Err(Error::DirectoryCorrupted);
            },
        };
        proof {
            lemma_parse_varint5(s, o + 1);
            assert forall|k: int| 0 <= k < 5
                implies #[trigger] byte_at(header@, (1 + n1 as int) + k)
                    == byte_at(s, (o + 1 + n1 as int) + k) by {
                assert(header@[1 + n1 as int + k] == byte_at(s, o + (1 + n1 + k)));
            }
            lemma_parse_varint_window(header@, 1 + n1 as int, s, o + 1 + n1 as int, 5);
        }
        let (value_len, n2) = match read_varint(&header, 1 + n1, 5) {
            Some(p) => p,
            None => {
                proof {
                    if parse_varint(s, o + 1 + n1 as int, 5) is Some {
                        lemma_parse_varint5(s, o + 1 + n1 as int);
                    }
                }
                return Err(Error::DirectoryCorrupted);
            },
        };
        proof {
            lemma_parse_varint5(s, o + 1 + n1 as int);
        }
        if key_len == 0 && value_len == 0 {
            return Err(Error::ReadDataFileEOF);
        }
        let header_size: usize = 1 + n1 + n2;

        // key_len and value_len are below 2^35; the whole frame must also fit
        // this machine's address space
        let kv_total: u64 = key_len + value_len + 4;
        if kv_total > usize::MAX as u64 - 11 {
            return Err(Error::DirectoryCorrupted);
        }
        let kv_len: usize = kv_total as usize;
        let kv_buf = match self.io.read(offset + header_size as u64, kv_len) {
            Ok(b) => b,
            Err(e) => {
                return Err(e);
            },
        };
        proof {
            assert(forall|k: int| 0 <= k < kv_len
                ==> kv_buf@[k] == #[trigger] byte_at(s, o + header_size + k));
        }

        // the CRC covers the header and the key and value bytes
        let kl = key_len as usize;
        let vl = value_len as usize;
        proof {
            assert(kv_len == kv_total);
            assert(kl == key_len && vl == value_len);
            assert(kl + vl + 4 == kv_len);
        }
        let mut body: Vec<u8> = Vec::new();
        let mut i: usize = 0;
        while i < header_size
            invariant
                i <= header_size,
                header_size <= 11,
                header@.len() == 11,
                body@ =~= header@.take(i as int),
            decreases header_size - i,
        {
            body.push(header[i]);
            i = i + 1;
        }
        let mut i: usize = 0;
        while i < kl + vl
            invariant
                i <= kl + vl,
                kl + vl <= usize::MAX - 4,
                kl + vl < kv_buf@.len(),
                header_size <= 11,
                header@.len() == 11,
                body@ =~= header@.take(header_size as int) + kv_buf@.take(i as int),
            decreases kl + vl - i,
        {
            body.push(kv_buf[i]);
            i = i + 1;
        }
        proof {
            assert(body@ =~= read_window(s, o, (header_size + kl + vl) as nat)) by {
                assert(forall|k: int| 0 <= k < header_size
                    ==> body@[k] == #[trigger] byte_at(s, o + k));
                assert forall|k: int| header_size <= k < header_size + kl + vl
                    implies body@[k] == #[trigger] byte_at(s, o + k) by {
                    assert(body@[k] == kv_buf@[k - header_size]);
                    assert(kv_buf@[k - header_size] == byte_at(s, o + header_size + (k - header_size)));
                }
            }
        }
        let crc = crc32(&body);

        let c0 = kv_buf[kl + vl];
        let c1 = kv_buf[kl + vl + 1];
        let c2 = kv_buf[kl + vl + 2];
        let c3 = kv_buf[kl + vl + 3];
        proof {
            assert(c0 == byte_at(s, o + header_size + (kl + vl)));
            assert(c1 == byte_at(s, o + header_size + (kl + vl + 1)));
            assert(c2 == byte_at(s, o + header_size + (kl + vl + 2)));
            assert(c3 == byte_at(s, o + header_size + (kl + vl + 3)));
            assert(read_window(s, o + header_size + kl + vl, 4) =~= seq![c0, c1, c2, c3]);
        }
        let e0 = (crc / 0x100_0000) as u8;
        let e1 = ((crc / 0x1_0000) % 0x100) as u8;
        let e2 = ((crc / 0x100) % 0x100) as u8;
        let e3 = (crc % 0x100) as u8;
        if !(c0 == e0 && c1 == e1 && c2 == e2 && c3 == e3) {
            proof {
                let stored = seq![c0, c1, c2, c3];
                assert(u32_be(crc)[0] == e0 && u32_be(crc)[1] == e1 && u32_be(crc)[2] == e2
                    && u32_be(crc)[3] == e3);
                assert(stored != u32_be(crc)) by {
                    if stored == u32_be(crc) {
                        assert(stored[0] == u32_be(crc)[0]);
                        assert(stored[1] == u32_be(crc)[1]);
                        assert(stored[2] == u32_be(crc)[2]);
                        assert(stored[3] == u32_be(crc)[3]);
                    }
                }
            }
            return Err(Error::InvalidLogRecordCRC);
        }
        proof {
            assert(seq![c0, c1, c2, c3] =~= u32_be(crc));
        }

        let rt = match log_record_type_from_code(header[0]) {
            Some(rt) => rt,
            None => {
                proof {
                    assert(byte_at(s, o + 0) == header@[0]);
                    assert(byte_at(s, o) == header@[0]);
                }
                return Err(Error::DirectoryCorrupted);
            },
        };

        let mut key: Vec<u8> = Vec::new();
        let mut i: usize = 0;
        while i < kl
            invariant
                i <= kl,
                kl < kv_buf@.len(),
                key@ =~= kv_buf@.take(i as int),
            decreases kl - i,
        {
            key.push(kv_buf[i]);
            i = i + 1;
        }
        let mut value: Vec<u8> = Vec::new();
        let mut i: usize = 0;
        while i < vl
            invariant
                i <= vl,
                kl + vl <= usize::MAX - 4,
                kl + vl < kv_buf@.len(),
                value@ =~= kv_buf@.subrange(kl as int, kl + i),
            decreases vl - i,
        {
            value.push(kv_buf[kl + i]);
            i = i + 1;
        }
        proof {
            assert(key@ =~= read_window(s, o + header_size, key_len as nat)) by {
                assert forall|k: int| 0 <= k < kl
                    implies key@[k] == #[trigger] byte_at(s, (o + header_size) + k) by {
                    assert(key@[k] == kv_buf@[k]);
                    assert(kv_buf@[k] == byte_at(s, o + header_size + k));
                }
            }
            assert(value@ =~= read_window(s, o + header_size + kl, value_len as nat)) by {
                assert forall|k: int| 0 <= k < vl
                    implies value@[k] == #[trigger] byte_at(s, (o + header_size + kl) + k) by {
                    assert(value@[k] == kv_buf@[kl + k]);
                    assert(kv_buf@[kl + k] == byte_at(s, o + header_size + (kl + k)));
                }
            }
        }

        proof {
            assert(byte_at(s, o + 0) == header@[0]);
            assert(byte_at(s, o) == header@[0]);
            assert(parse_varint(s, o + 1, 5) == Some((key_len as nat, n1 as nat)));
            assert(parse_varint(s, o + 1 + n1 as int, 5) == Some((value_len as nat, n2 as nat)));
            assert(parse_frame(s, o) matches FrameParse::Frame { rtype, key: pk, value: pv, size }
                && rtype == rt
                && pk == key@
                && pv == value@
                && size == header_size + kv_len);
        }
        Ok(ReadLogRecord {
            record: LogRecord { key, value, record_type: rt },
            size: header_size + kv_len,
        })
    }
}

} // verus!
