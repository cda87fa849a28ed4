//! SRAM images: a 64-byte header, a serialized Bloom filter and an array of
//! 64-byte lesson records.
//!
//! Header layout: magic `SRAM0001` (8 bytes), version (1 byte), flags (1 byte),
//! record count (big-endian `u32`), Bloom filter size in bytes (big-endian
//! `u32`), canary fingerprint (little-endian `u64`), 38 reserved bytes.
//! Record layout: fingerprint (little-endian `u64`), lesson id (little-endian
//! `u32`), flags (little-endian `u16`, bit 0 marks a canary), reserved
//! (little-endian `u16`), 48 bytes of padding.

use vstd::prelude::*;
use vstd::bytes::{
    lemma_auto_spec_u16_to_from_le_bytes, lemma_auto_spec_u32_to_from_le_bytes,
    lemma_auto_spec_u64_to_from_le_bytes, spec_u16_from_le_bytes, spec_u16_to_le_bytes,
    spec_u32_to_le_bytes, spec_u64_to_le_bytes, u16_from_le_bytes, u16_to_le_bytes,
    u32_from_le_bytes, u32_to_le_bytes, u64_from_le_bytes, u64_to_le_bytes,
};
use crate::bloom::{lemma_decoded_len, lemma_same_filter_same_answers, lemma_filled_admits_all, lemma_serialization_roundtrip, lemma_filled_step, lemma_serialized_len, bloom_bytes_complete, decodes_to, le_u32_at, le_u64_at, same_filter, BloomFilter};
use crate::bits::{count_ones, hamming, lemma_hamming_basics};
use crate::{Error, LessonId};

verus! {

/// Magic bytes at the start of every SRAM image: `SRAM0001`.
pub const SRAM_MAGIC: [u8; 8] = [0x53, 0x52, 0x41, 0x4D, 0x30, 0x30, 0x30, 0x31];

/// Version of the image format.
pub const SRAM_VERSION: u8 = 1;

/// Size of the image header in bytes.
pub const SRAM_HEADER_SIZE: usize = 64;

/// Size of one record in bytes.
pub const SRAM_RECORD_SIZE: usize = 64;

/// The magic bytes `SRAM0001`.
pub open spec fn magic_bytes() -> Seq<u8> {
    seq![0x53u8, 0x52u8, 0x41u8, 0x4Du8, 0x30u8, 0x30u8, 0x30u8, 0x31u8]
}

/// Big-endian encoding of a `u32`.
pub open spec fn be_u32_bytes(x: u32) -> Seq<u8> {
    seq![
        ((x >> 24u32) & 0xff) as u8,
        ((x >> 16u32) & 0xff) as u8,
        ((x >> 8u32) & 0xff) as u8,
        (x & 0xff) as u8,
    ]
}

/// Big-endian `u32` stored at `off` in `s`.
pub open spec fn be_u32_at(s: Seq<u8>, off: int) -> u32 {
    ((s[off] as u32) << 24u32) | ((s[off + 1] as u32) << 16u32) | ((s[off + 2] as u32) << 8u32) | (
    s[off + 3] as u32)
}

/// Little-endian `u16` stored at `off` in `s`.
pub open spec fn le_u16_at(s: Seq<u8>, off: int) -> u16 {
    spec_u16_from_le_bytes(s.subrange(off, off + 2))
}

/// The 64 bytes that store a record.
pub open spec fn record_bytes(r: SramRecord) -> Seq<u8> {
    spec_u64_to_le_bytes(r.fingerprint) + spec_u32_to_le_bytes(r.lesson_id) + spec_u16_to_le_bytes(
        r.flags,
    ) + spec_u16_to_le_bytes(r._reserved) + r.padding@
}

/// The stored records, one after the other.
pub open spec fn records_bytes(rs: Seq<SramRecord>) -> Seq<u8>
    decreases rs.len(),
{
    if rs.len() == 0 {
        seq![]
    } else {
        records_bytes(rs.drop_last()) + record_bytes(rs.last())
    }
}

/// The 64 header bytes of an image with the given fields.
pub open spec fn header_bytes(record_count: u32, bloom_size: u32, canary: u64) -> Seq<u8> {
    magic_bytes() + seq![SRAM_VERSION, 0u8] + be_u32_bytes(record_count) + be_u32_bytes(bloom_size)
        + spec_u64_to_le_bytes(canary) + Seq::new(38, |i: int| 0u8)
}

/// A 64-byte lesson record.
#[derive(Debug, Clone, Copy)]
pub struct SramRecord {
    /// Fingerprint of the lesson.
    pub fingerprint: u64,
    /// Lesson identifier.
    pub lesson_id: LessonId,
    /// Flags: bit 0 marks a canary record, bit 1 a protected one.
    pub flags: u16,
    /// Reserved.
    pub _reserved: u16,
    /// Padding up to 64 bytes.
    pub padding: [u8; 48],
}

impl SramRecord {
    /// Whether the record is a canary (flag bit 0 set).
    pub open spec fn canary_flag(self) -> bool {
        self.flags & 1u16 != 0u16
    }

    /// A lesson record with clear flags and zero padding.
    pub fn new(fingerprint: u64, lesson_id: LessonId) -> (r: Self)
        ensures
            r.fingerprint == fingerprint,
            r.lesson_id == lesson_id,
            r.flags == 0,
            r._reserved == 0,
            r.padding@ == Seq::new(48, |i: int| 0u8),
    {
        let r = SramRecord { fingerprint, lesson_id, flags: 0, _reserved: 0, padding: [0u8; 48] };
        assert(r.padding@ =~= Seq::new(48, |i: int| 0u8));
        r
    }

    /// A canary record: lesson 0, flag bit 0 set.
    pub fn canary(fingerprint: u64) -> (r: Self)
        ensures
            r.fingerprint == fingerprint,
            r.lesson_id == 0,
            r.flags == 1,
            r._reserved == 0,
            r.padding@ == Seq::new(48, |i: int| 0u8),
    {
        let r = SramRecord { fingerprint, lesson_id: 0, flags: 1, _reserved: 0, padding: [0u8; 48] };
        assert(r.padding@ =~= Seq::new(48, |i: int| 0u8));
        r
    }

    /// Whether this is a canary record.
    pub fn is_canary(&self) -> (canary: bool)
        ensures
            canary == self.canary_flag(),
    {
        self.flags & 1 != 0
    }

    /// The all-zero record.
    pub fn zero() -> (r: Self)
        ensures
            r.fingerprint == 0,
            r.lesson_id == 0,
            r.flags == 0,
            r._reserved == 0,
            r.padding@ == Seq::new(48, |i: int| 0u8),
    {
        let r = SramRecord { fingerprint: 0, lesson_id: 0, flags: 0, _reserved: 0, padding: [0u8; 48] };
        assert(r.padding@ =~= Seq::new(48, |i: int| 0u8));
        r
    }
}

/// The header of an SRAM image.
pub struct SramHeader {
    /// Magic bytes `SRAM0001`.
    pub magic: [u8; 8],
    /// Format version.
    pub version: u8,
    /// Flags (reserved).
    pub flags: u8,
    /// Number of records; stored big-endian.
    pub record_count: u32,
    /// Size of the serialized Bloom filter in bytes; stored big-endian.
    pub bloom_size: u32,
    /// Canary fingerprint; stored little-endian.
    pub canary: u64,
    /// Reserved.
    pub reserved: [u8; 38],
}

/// Message of the error for an unknown format version, formatted with `format!`;
/// nothing is stated of the text.
#[verifier::external_body]
fn unsupported_version_message(version: u8, expected: u8) -> String {
    format!("Unsupported SRAM version: {} (expected {})", version, expected)
}

impl SramHeader {
    /// The stored form of the header.
    pub open spec fn bytes_of(self) -> Seq<u8> {
        self.magic@ + seq![self.version, self.flags] + be_u32_bytes(self.record_count) + be_u32_bytes(
            self.bloom_size,
        ) + spec_u64_to_le_bytes(self.canary) + self.reserved@
    }

    /// A header of the current version for the given fields.
    pub fn new(record_count: u32, bloom_size: u32, canary: u64) -> (h: Self)
        ensures
            h.magic@ == magic_bytes(),
            h.version == SRAM_VERSION,
            h.flags == 0,
            h.record_count == record_count,
            h.bloom_size == bloom_size,
            h.canary == canary,
            h.reserved@ == Seq::new(38, |i: int| 0u8),
            h.bytes_of() == header_bytes(record_count, bloom_size, canary),
    {
        let h = SramHeader {
            magic: [0x53, 0x52, 0x41, 0x4D, 0x30, 0x30, 0x30, 0x31],
            version: SRAM_VERSION,
            flags: 0,
            record_count,
            bloom_size,
            canary,
            reserved: [0u8; 38],
        };
        assert(h.magic@ =~= magic_bytes());
        assert(h.reserved@ =~= Seq::new(38, |i: int| 0u8));
        assert(h.bytes_of() =~= header_bytes(record_count, bloom_size, canary));
        h
    }

    /// Checks the magic bytes and the version.
    pub fn validate(&self) -> (r: Result<(), Error>)
        ensures
            r is Ok <==> (self.magic@ == magic_bytes() && self.version == SRAM_VERSION),
            match r {
                Ok(_) => true,
                Err(e) => e is InvalidImage,
            },
    {
        let expected: [u8; 8] = [0x53, 0x52, 0x41, 0x4D, 0x30, 0x30, 0x30, 0x31];
        let mut i: usize = 0;
        while i < 8
            invariant
                i <= 8,
                expected@ == magic_bytes(),
                forall|j: int| 0 <= j < i ==> self.magic@[j] == magic_bytes()[j],
            decreases 8 - i,
        {
            if self.magic[i] != expected[i] {
                return Err(Error::InvalidImage("Invalid SRAM magic bytes".to_owned()));
            }
            i = i + 1;
        }
        assert(self.magic@ =~= magic_bytes());
        if self.version != SRAM_VERSION {
            return Err(Error::InvalidImage(unsupported_version_message(self.version, SRAM_VERSION)));
        }
        Ok(())
    }

    /// Serializes the header into its 64 bytes.
    pub fn to_bytes(&self) -> (bytes: Vec<u8>)
        ensures
            bytes@ == self.bytes_of(),
    {
        let mut bytes: Vec<u8> = Vec::new();
        let mut i: usize = 0;
        while i < 8
            invariant
                i <= 8,
                bytes@ == self.magic@.take(i as int),
            decreases 8 - i,
        {
            bytes.push(self.magic[i]);
            proof {
                assert(self.magic@.take(i + 1) =~= self.magic@.take(i as int).push(self.magic@[i as int]));
            }
            i = i + 1;
        }
        assert(self.magic@.take(8) =~= self.magic@);
        bytes.push(self.version);
        bytes.push(self.flags);
        push_be_u32(&mut bytes, self.record_count);
        push_be_u32(&mut bytes, self.bloom_size);
        let mut canary = u64_to_le_bytes(self.canary);
        bytes.append(&mut canary);
        let ghost prefix = bytes@;
        let mut k: usize = 0;
        while k < 38
            invariant
                k <= 38,
                bytes@ == prefix + self.reserved@.take(k as int),
            decreases 38 - k,
        {
            bytes.push(self.reserved[k]);
            proof {
                assert(self.reserved@.take(k + 1) =~= self.reserved@.take(k as int).push(self.reserved@[k as int]));
            }
            k = k + 1;
        }
        assert(self.reserved@.take(38) =~= self.reserved@);
        assert(bytes@ =~= self.bytes_of());
        bytes
    }

    /// Reads a header from the first 64 bytes of `data`.
    pub fn from_bytes(data: &[u8]) -> (h: Self)
        requires
            data@.len() >= 64,
        ensures
            h.magic@ == data@.subrange(0, 8),
            h.version == data@[8],
            h.flags == data@[9],
            h.record_count == be_u32_at(data@, 10),
            h.bloom_size == be_u32_at(data@, 14),
            h.canary == le_u64_at(data@, 18),
            h.reserved@ == data@.subrange(26, 64),
    {
        let mut magic = [0u8; 8];
        let mut i: usize = 0;
        while i < 8
            invariant
                i <= 8,
                data@.len() >= 64,
                magic@.len() == 8,
                forall|j: int| 0 <= j < i ==> #[trigger] magic@[j] == data@[j],
            decreases 8 - i,
        {
            magic[i] = data[i];
            i = i + 1;
        }
        let mut reserved = [0u8; 38];
        let mut k: usize = 0;
        while k < 38
            invariant
                k <= 38,
                data@.len() >= 64,
                reserved@.len() == 38,
                forall|j: int| 0 <= j < k ==> #[trigger] reserved@[j] == data@[26 + j],
            decreases 38 - k,
        {
            reserved[k] = data[26 + k];
            k = k + 1;
        }
        let h = SramHeader {
            magic,
            version: data[8],
            flags: data[9],
            record_count: read_be_u32(data, 10),
            bloom_size: read_be_u32(data, 14),
            canary: u64_from_le_bytes(&data[18..26]),
            reserved,
        };
        assert(h.magic@ =~= data@.subrange(0, 8));
        assert(h.reserved@ =~= data@.subrange(26, 64));
        h
    }
}

/// Appends the big-endian encoding of `x`.
fn push_be_u32(bytes: &mut Vec<u8>, x: u32)
    ensures
        final(bytes)@ == old(bytes)@ + be_u32_bytes(x),
{
    bytes.push(((x >> 24) & 0xff) as u8);
    bytes.push(((x >> 16) & 0xff) as u8);
    bytes.push(((x >> 8) & 0xff) as u8);
    bytes.push((x & 0xff) as u8);
    assert(bytes@ =~= old(bytes)@ + be_u32_bytes(x));
}

/// Reads the big-endian `u32` at `off`.
fn read_be_u32(data: &[u8], off: usize) -> (x: u32)
    requires
        off + 4 <= data@.len(),
    ensures
        x == be_u32_at(data@, off as int),
{
    ((data[off] as u32) << 24) | ((data[off + 1] as u32) << 16) | ((data[off + 2] as u32) << 8) | (
    data[off + 3] as u32)
}

/// Reading back a big-endian encoding gives the value.
pub proof fn lemma_be_u32_roundtrip(x: u32)
    ensures
        be_u32_bytes(x).len() == 4,
        be_u32_at(be_u32_bytes(x), 0) == x,
{
    let s = be_u32_bytes(x);
    let b0 = ((x >> 24u32) & 0xff) as u8;
    let b1 = ((x >> 16u32) & 0xff) as u8;
    let b2 = ((x >> 8u32) & 0xff) as u8;
    let b3 = (x & 0xff) as u8;
    assert((((b0 as u32) << 24u32) | ((b1 as u32) << 16u32) | ((b2 as u32) << 8u32) | (b3 as u32)) == x)
        by (bit_vector)
        requires
            b0 == ((x >> 24u32) & 0xff) as u8,
            b1 == ((x >> 16u32) & 0xff) as u8,
            b2 == ((x >> 8u32) & 0xff) as u8,
            b3 == (x & 0xff) as u8,
    ;
}

/// Record count stored in an image's header.
pub open spec fn stored_record_count(s: Seq<u8>) -> u32 {
    be_u32_at(s, 10)
}

/// Bloom filter size stored in an image's header.
pub open spec fn stored_bloom_size(s: Seq<u8>) -> u32 {
    be_u32_at(s, 14)
}

/// The bytes holding the serialized Bloom filter of an image.
pub open spec fn bloom_region(s: Seq<u8>) -> Seq<u8> {
    s.subrange(64, 64 + stored_bloom_size(s))
}

/// The header is present, with the right magic bytes and version, and the file is
/// long enough for the header, the declared Bloom filter bytes and the declared
/// records, one after the other.
pub open spec fn image_layout_ok(s: Seq<u8>) -> bool {
    &&& s.len() >= 64
    &&& s.subrange(0, 8) == magic_bytes()
    &&& s[8] == SRAM_VERSION
    &&& 64 + stored_bloom_size(s) + 64 * stored_record_count(s) <= s.len()
}

/// The bytes form a loadable image.
pub open spec fn image_bytes_valid(s: Seq<u8>) -> bool {
    image_layout_ok(s) && bloom_bytes_complete(bloom_region(s))
}

/// An SRAM image: the raw image bytes, with the header fields and the Bloom filter
/// decoded.
#[derive(Debug)]
pub struct SramImage {
    data: Vec<u8>,
    record_count: u32,
    bloom: BloomFilter,
    canary: u64,
}

impl SramImage {
    /// The raw bytes of the image.
    pub closed spec fn bytes(self) -> Seq<u8> {
        self.data@
    }

    /// Number of records.
    pub closed spec fn count(self) -> u32 {
        self.record_count
    }

    /// Canary fingerprint.
    pub closed spec fn canary_value(self) -> u64 {
        self.canary
    }

    /// The image's Bloom filter.
    pub closed spec fn bloom_filter(self) -> BloomFilter {
        self.bloom
    }

    /// The Bloom filter is well formed and every declared record lies within the
    /// image bytes.
    pub open spec fn well_formed(self) -> bool {
        &&& self.bloom_filter().well_formed()
        &&& self.records_fit()
    }

    /// Offset of the first record: after the header and the serialized filter.
    pub open spec fn records_start(self) -> int {
        64 + self.bloom_filter().serialized_len() as int
    }

    /// Offset of record `i`.
    pub open spec fn record_offset(self, i: int) -> int {
        self.records_start() + 64 * i
    }

    /// Record `i` lies within the image bytes.
    pub open spec fn record_fits(self, i: int) -> bool {
        self.record_offset(i) + 64 <= self.bytes().len()
    }

    /// All declared records lie within the image bytes.
    pub open spec fn records_fit(self) -> bool {
        self.records_start() + 64 * self.count() <= self.bytes().len()
    }

    /// Fingerprint of record `i`.
    pub open spec fn record_fingerprint(self, i: int) -> u64 {
        le_u64_at(self.bytes(), self.record_offset(i))
    }

    /// Lesson id of record `i`.
    pub open spec fn record_lesson(self, i: int) -> u32 {
        le_u32_at(self.bytes(), self.record_offset(i) + 8)
    }

    /// Flags of record `i`.
    pub open spec fn record_flags(self, i: int) -> u16 {
        le_u16_at(self.bytes(), self.record_offset(i) + 12)
    }

    /// Reserved field of record `i`.
    pub open spec fn record_reserved(self, i: int) -> u16 {
        le_u16_at(self.bytes(), self.record_offset(i) + 14)
    }

    /// Record `i` is a canary.
    pub open spec fn record_is_canary(self, i: int) -> bool {
        self.record_flags(i) & 1u16 != 0u16
    }

    /// Record `i` is a lesson record within distance `threshold` of `fp`.
    pub open spec fn hit(self, fp: u64, threshold: u32, i: int) -> bool {
        &&& !self.record_is_canary(i)
        &&& hamming(fp, self.record_fingerprint(i)) <= threshold
    }

    /// Lesson of the first hit at index `i` or later.
    pub open spec fn scan_from(self, fp: u64, threshold: u32, i: int) -> Option<u32>
        decreases self.count() - i,
    {
        if i >= self.count() {
            None
        } else if self.hit(fp, threshold, i) {
            Some(self.record_lesson(i))
        } else {
            self.scan_from(fp, threshold, i + 1)
        }
    }

    /// Answer of a judgment of `fp`: nothing when the Bloom filter rejects it,
    /// otherwise the lesson of the first non-canary record within `threshold`.
    pub open spec fn judge_outcome(self, fp: u64, threshold: u32) -> Option<u32> {
        if self.bloom_filter().admits(fp) {
            self.scan_from(fp, threshold, 0)
        } else {
            None
        }
    }

    /// Closest non-canary record among the first `n`: the smallest distance to
    /// `fp` and the lesson of the first record at that distance; `u32::MAX` and no
    /// lesson when there is no such record.
    pub open spec fn closest_upto(self, fp: u64, n: int) -> (u32, Option<u32>)
        decreases n,
    {
        if n <= 0 {
            (u32::MAX, None)
        } else {
            let prev = self.closest_upto(fp, n - 1);
            if self.record_is_canary(n - 1) {
                prev
            } else if hamming(fp, self.record_fingerprint(n - 1)) < prev.0 {
                (hamming(fp, self.record_fingerprint(n - 1)) as u32, Some(self.record_lesson(n - 1)))
            } else {
                prev
            }
        }
    }

    /// The closest-record search over the first `n` records finds the nearest
    /// record: with no non-canary record among them it reports distance
    /// `u32::MAX` and no lesson; otherwise its distance is the smallest Hamming
    /// distance from `fp` to a non-canary record, and its lesson is the lesson of
    /// the first non-canary record at that distance.
    pub proof fn lemma_closest_is_nearest(self, fp: u64, n: int)
        requires
            0 <= n,
        ensures
            (self.closest_upto(fp, n).1 is None) <==> (forall|j: int|
                0 <= j < n ==> #[trigger] self.record_is_canary(j)),
            self.closest_upto(fp, n).1 is None ==> self.closest_upto(fp, n).0 == u32::MAX,
            forall|j: int|
                0 <= j < n && !self.record_is_canary(j) ==> self.closest_upto(fp, n).0 <= #[trigger] hamming(
                    fp,
                    self.record_fingerprint(j),
                ),
            self.closest_upto(fp, n).1 matches Some(l) ==> exists|i: int|
                {
                    &&& 0 <= i < n
                    &&& !self.record_is_canary(i)
                    &&& #[trigger] self.record_lesson(i) == l
                    &&& hamming(fp, self.record_fingerprint(i)) == self.closest_upto(fp, n).0
                    &&& forall|j: int|
                        0 <= j < i && !self.record_is_canary(j) ==> #[trigger] hamming(
                            fp,
                            self.record_fingerprint(j),
                        ) > self.closest_upto(fp, n).0
                },
        decreases n,
    {
        if n > 0 {
            self.lemma_closest_is_nearest(fp, n - 1);
            let prev = self.closest_upto(fp, n - 1);
            let cur = self.closest_upto(fp, n);
            let h = hamming(fp, self.record_fingerprint(n - 1));
            lemma_hamming_basics(fp, self.record_fingerprint(n - 1));
            if self.record_is_canary(n - 1) {
                assert(cur == prev);
                if prev.1 is None {
                    assert forall|j: int| 0 <= j < n implies #[trigger] self.record_is_canary(j) by {
                        if j < n - 1 {
                            assert(self.record_is_canary(j));
                        }
                    }
                }
                if let Some(l) = prev.1 {
                    let i = choose|i: int|
                        {
                            &&& 0 <= i < n - 1
                            &&& !self.record_is_canary(i)
                            &&& #[trigger] self.record_lesson(i) == l
                            &&& hamming(fp, self.record_fingerprint(i)) == prev.0
                            &&& forall|j: int|
                                0 <= j < i && !self.record_is_canary(j) ==> #[trigger] hamming(
                                    fp,
                                    self.record_fingerprint(j),
                                ) > prev.0
                        };
                    assert(self.record_lesson(i) == l);
                }
            } else if h < prev.0 {
                assert(cur == (h as u32, Some(self.record_lesson(n - 1))));
                assert(!self.record_is_canary(n - 1));
                assert(self.record_lesson(n - 1) == self.record_lesson(n - 1));
            } else {
                assert(cur == prev);
                assert(!(forall|j: int| 0 <= j < n ==> #[trigger] self.record_is_canary(j)));
                if prev.1 is None {
                    assert(prev.0 == u32::MAX);
                    assert(false);
                }
                if let Some(l) = prev.1 {
                    let i = choose|i: int|
                        {
                            &&& 0 <= i < n - 1
                            &&& !self.record_is_canary(i)
                            &&& #[trigger] self.record_lesson(i) == l
                            &&& hamming(fp, self.record_fingerprint(i)) == prev.0
                            &&& forall|j: int|
                                0 <= j < i && !self.record_is_canary(j) ==> #[trigger] hamming(
                                    fp,
                                    self.record_fingerprint(j),
                                ) > prev.0
                        };
                    assert(self.record_lesson(i) == l);
                }
            }
        }
    }

    /// Once an exact match is found, later records do not change the closest one.
    pub proof fn lemma_closest_settled(self, fp: u64, n: int, m: int)
        requires
            0 <= n <= m,
            self.closest_upto(fp, n).0 == 0,
        ensures
            self.closest_upto(fp, m) == self.closest_upto(fp, n),
        decreases m - n,
    {
        if m > n {
            self.lemma_closest_settled(fp, n, m - 1);
        }
    }

    /// `self` was loaded from the bytes `s`.
    pub open spec fn loaded_from(self, s: Seq<u8>) -> bool {
        &&& self.well_formed()
        &&& self.bytes() == s
        &&& self.count() == stored_record_count(s)
        &&& self.canary_value() == le_u64_at(s, 18)
        &&& decodes_to(bloom_region(s), self.bloom_filter())
    }

    /// The bytes that saving the image writes: a fresh header, the serialized
    /// filter, then the bytes of the declared records.
    pub open spec fn saved_bytes(self) -> Seq<u8> {
        header_bytes(
            self.count(),
            self.bloom_filter().serialized_len() as u32,
            self.canary_value(),
        ) + self.bloom_filter().serialized() + self.bytes().subrange(
            self.records_start(),
            self.records_start() + 64 * self.count(),
        )
    }

    /// Loads an image from its bytes. Fails with `InvalidImage` when the header is
    /// missing or wrong or the header, the declared Bloom filter bytes and the
    /// declared records do not fit in the bytes, and with `Bloom` when the Bloom
    /// filter region is incomplete.
    pub fn from_bytes(data: &[u8]) -> (result: Result<SramImage, Error>)
        ensures
            match result {
                Ok(image) => image_bytes_valid(data@) && image.loaded_from(data@),
                Err(e) => !image_bytes_valid(data@) && (e is InvalidImage <==> !image_layout_ok(data@)) && (
                e is Bloom <==> image_layout_ok(data@)),
            },
    {
        if data.len() < SRAM_HEADER_SIZE {
            return Err(Error::InvalidImage("File too small for header".to_owned()));
        }
        let header = SramHeader::from_bytes(data);
        match header.validate() {
            Ok(_) => {},
            Err(e) => {
                return Err(e);
            },
        }
        let record_count = header.record_count;
        let bloom_size = header.bloom_size;
        let canary = header.canary;
        let bloom_end: u64 = 64 + bloom_size as u64;
        let min_size: u64 = bloom_end + (record_count as u64) * 64;
        if (data.len() as u64) < min_size {
            return Err(Error::InvalidImage("File too small for declared records".to_owned()));
        }
        let bloom_end = bloom_end as usize;
        let bloom = match BloomFilter::from_bytes(&data[SRAM_HEADER_SIZE..bloom_end]) {
            Ok(b) => b,
            Err(e) => {
                return Err(e);
            },
        };
        let image = SramImage { data: vstd::slice::slice_to_vec(data), record_count, bloom, canary };
        proof {
            lemma_decoded_len(bloom_region(data@), bloom);
        }
        Ok(image)
    }

    /// The bytes that saving the image to a file writes.
    pub fn to_bytes(&self) -> (bytes: Vec<u8>)
        requires
            self.well_formed(),
        ensures
            bytes@ == self.saved_bytes(),
    {
        let mut bloom_bytes = self.bloom.to_bytes();
        proof {
            lemma_serialized_len(self.bloom_filter());
        }
        let bloom_size = #[verifier::truncate] (bloom_bytes.len() as u32);
        let header = SramHeader::new(self.record_count, bloom_size, self.canary);
        let mut bytes = header.to_bytes();
        bytes.append(&mut bloom_bytes);
        let ghost prefix = bytes@;
        assert(prefix == header_bytes(self.count(), bloom_size, self.canary_value())
            + self.bloom_filter().serialized());
        let records_start = self.first_record_offset();
        let len = self.data.len();
        assert(len == self.bytes().len());
        assert(records_start + 64 * self.count() <= len);
        let records_end = records_start + (self.record_count as usize) * 64;
        let mut records = vstd::slice::slice_to_vec(&self.data.as_slice()[records_start..records_end]);
        assert(records@ == self.bytes().subrange(records_start as int, records_end as int));
        bytes.append(&mut records);
        assert(bytes@ =~= self.saved_bytes());
        bytes
    }

    /// Whether the canary fingerprint is `expected`.
    pub fn verify_canary(&self, expected: u64) -> (ok: bool)
        ensures
            ok == (self.canary_value() == expected),
    {
        self.canary == expected
    }

    /// Whether the Bloom filter admits `fingerprint`.
    pub fn bloom_contains(&self, fingerprint: u64) -> (present: bool)
        requires
            self.well_formed(),
            self.bloom_filter().usable(),
        ensures
            present == self.bloom_filter().admits(fingerprint),
    {
        self.bloom.contains(fingerprint)
    }

    /// The canary fingerprint.
    pub fn canary(&self) -> (c: u64)
        ensures
            c == self.canary_value(),
    {
        self.canary
    }

    /// The number of records.
    pub fn record_count(&self) -> (n: u32)
        ensures
            n == self.count(),
    {
        self.record_count
    }

    /// The Bloom filter.
    pub fn bloom(&self) -> (b: &BloomFilter)
        ensures
            *b == self.bloom_filter(),
    {
        &self.bloom
    }

    /// Offset of the first record.
    fn first_record_offset(&self) -> (off: usize)
        requires
            self.well_formed(),
        ensures
            off == self.records_start(),
    {
        let n = self.data.len();
        assert(n == self.bytes().len());
        SRAM_HEADER_SIZE + self.bloom.byte_len()
    }

    /// Decodes record `index`.
    fn read_record(&self, index: usize) -> (r: SramRecord)
        requires
            self.well_formed(),
            self.record_fits(index as int),
        ensures
            r.fingerprint == self.record_fingerprint(index as int),
            r.lesson_id == self.record_lesson(index as int),
            r.flags == self.record_flags(index as int),
            r._reserved == self.record_reserved(index as int),
            r.padding@ == self.bytes().subrange(
                self.record_offset(index as int) + 16,
                self.record_offset(index as int) + 64,
            ),
    {
        let data = self.data.as_slice();
        let len = data.len();
        assert(len == self.bytes().len());
        let offset = self.first_record_offset() + index * 64;
        assert(offset + 64 <= len);
        let mut padding = [0u8; 48];
        let mut k: usize = 0;
        while k < 48
            invariant
                k <= 48,
                len == data@.len(),
                offset + 64 <= len,
                padding@.len() == 48,
                forall|j: int| 0 <= j < k ==> #[trigger] padding@[j] == data@[offset + 16 + j],
            decreases 48 - k,
        {
            padding[k] = data[offset + 16 + k];
            k = k + 1;
        }
        let r = SramRecord {
            fingerprint: u64_from_le_bytes(&data[offset..offset + 8]),
            lesson_id: u32_from_le_bytes(&data[offset + 8..offset + 12]),
            flags: u16_from_le_bytes(&data[offset + 12..offset + 14]),
            _reserved: u16_from_le_bytes(&data[offset + 14..offset + 16]),
            padding,
        };
        assert(r.padding@ =~= self.bytes().subrange(
            self.record_offset(index as int) + 16,
            self.record_offset(index as int) + 64,
        ));
        r
    }

    /// Record `index`, or nothing past the declared records.
    pub fn get_record(&self, index: usize) -> (r: Option<SramRecord>)
        requires
            self.well_formed(),
        ensures
            index >= self.count() ==> r is None,
            index < self.count() ==> (r matches Some(rec) && rec.fingerprint
                == self.record_fingerprint(index as int) && rec.lesson_id == self.record_lesson(
                index as int,
            ) && rec.flags == self.record_flags(index as int) && rec._reserved
                == self.record_reserved(index as int) && rec.padding@ == self.bytes().subrange(
                self.record_offset(index as int) + 16,
                self.record_offset(index as int) + 64,
            )),
    {
        if index >= self.record_count as usize {
            return None;
        }
        proof {
            self.lemma_declared_records_fit(index as int);
        }
        Some(self.read_record(index))
    }

    /// Judges a fingerprint: nothing when the Bloom filter rejects it, otherwise
    /// the lesson of the first non-canary record within Hamming distance
    /// `threshold`.
    pub fn judge(&self, input_hash: u64, threshold: u32) -> (lesson: Option<LessonId>)
        requires
            self.well_formed(),
            self.bloom_filter().usable(),
        ensures
            lesson == self.judge_outcome(input_hash, threshold),
    {
        if !self.bloom.contains(input_hash) {
            return None;
        }
        self.scan_records(input_hash, threshold)
    }

    /// Scans the records in order for the first non-canary one within distance
    /// `threshold`.
    fn scan_records(&self, input_hash: u64, threshold: u32) -> (lesson: Option<LessonId>)
        requires
            self.well_formed(),
        ensures
            lesson == self.scan_from(input_hash, threshold, 0),
    {
        let num_records = self.record_count as usize;
        let mut i: usize = 0;
        while i < num_records
            invariant
                self.well_formed(),
                num_records == self.count(),
                i <= num_records,
                self.scan_from(input_hash, threshold, 0) == self.scan_from(input_hash, threshold, i as int),
            decreases num_records - i,
        {
            proof {
                self.lemma_declared_records_fit(i as int);
            }
            let record = self.read_record(i);
            if !record.is_canary() {
                let distance = count_ones(input_hash ^ record.fingerprint);
                if distance <= threshold {
                    return Some(record.lesson_id);
                }
            }
            i = i + 1;
        }
        None
    }

    /// Every declared record lies within the image bytes.
    pub proof fn lemma_declared_records_fit(self, i: int)
        requires
            self.well_formed(),
            0 <= i < self.count(),
        ensures
            self.record_fits(i),
    {
    }
}

/// The fingerprints of a sequence of records.
pub open spec fn record_fingerprints(rs: Seq<SramRecord>) -> Seq<u64> {
    Seq::new(rs.len(), |i: int| rs[i].fingerprint)
}

/// Appends the 64 stored bytes of a record.
fn push_record(bytes: &mut Vec<u8>, r: &SramRecord)
    ensures
        final(bytes)@ == old(bytes)@ + record_bytes(*r),
{
    let mut field = u64_to_le_bytes(r.fingerprint);
    bytes.append(&mut field);
    let mut field = u32_to_le_bytes(r.lesson_id);
    bytes.append(&mut field);
    let mut field = u16_to_le_bytes(r.flags);
    bytes.append(&mut field);
    let mut field = u16_to_le_bytes(r._reserved);
    bytes.append(&mut field);
    let ghost prefix = bytes@;
    let mut k: usize = 0;
    while k < 48
        invariant
            k <= 48,
            bytes@ == prefix + r.padding@.take(k as int),
        decreases 48 - k,
    {
        bytes.push(r.padding[k]);
        proof {
            assert(r.padding@.take(k + 1) =~= r.padding@.take(k as int).push(r.padding@[k as int]));
        }
        k = k + 1;
    }
    assert(r.padding@.take(48) =~= r.padding@);
    assert(bytes@ =~= old(bytes)@ + record_bytes(*r));
}

/// Builder of SRAM images from in-memory records.
#[derive(Debug)]
pub struct SramImageBuilder {
    records: Vec<SramRecord>,
    bloom: Option<BloomFilter>,
    canary: u64,
}

impl Default for SramImageBuilder {
    fn default() -> (builder: Self)
        ensures
            builder.records() == Seq::<SramRecord>::empty(),
            builder.chosen_bloom() is None,
            builder.canary_value() == 0,
    {
        SramImageBuilder::new()
    }
}

impl SramImageBuilder {
    /// The records added so far, in order.
    pub closed spec fn records(self) -> Seq<SramRecord> {
        self.records@
    }

    /// The Bloom filter set explicitly, if any.
    pub closed spec fn chosen_bloom(self) -> Option<BloomFilter> {
        self.bloom
    }

    /// The canary fingerprint.
    pub closed spec fn canary_value(self) -> u64 {
        self.canary
    }

    /// An explicitly set Bloom filter is well formed.
    pub open spec fn well_formed(self) -> bool {
        self.chosen_bloom() matches Some(b) ==> b.well_formed()
    }

    /// `image` is what building with `sized_bloom` as the filter to fill gives: the
    /// header, the chosen or filled Bloom filter, then every record, in order.
    pub open spec fn built(self, sized_bloom: BloomFilter, image: SramImage) -> bool {
        &&& image.count() == self.records().len() as u32
        &&& image.canary_value() == self.canary_value()
        &&& match self.chosen_bloom() {
            Some(b) => image.bloom_filter() == b,
            None => sized_bloom.filled(record_fingerprints(self.records()), image.bloom_filter()),
        }
        &&& image.bytes() == header_bytes(
            image.count(),
            image.bloom_filter().serialized_len() as u32,
            image.canary_value(),
        ) + image.bloom_filter().serialized() + records_bytes(self.records())
    }

    /// An empty builder: no records, no Bloom filter, canary 0.
    pub fn new() -> (builder: Self)
        ensures
            builder.records() == Seq::<SramRecord>::empty(),
            builder.chosen_bloom() is None,
            builder.canary_value() == 0,
    {
        SramImageBuilder { records: Vec::new(), bloom: None, canary: 0 }
    }

    /// Number of records added so far.
    pub fn record_count(&self) -> (n: usize)
        ensures
            n == self.records().len(),
    {
        self.records.len()
    }

    /// Sets the canary fingerprint.
    pub fn canary(self, canary: u64) -> (builder: Self)
        ensures
            builder.records() == self.records(),
            builder.chosen_bloom() == self.chosen_bloom(),
            builder.canary_value() == canary,
    {
        SramImageBuilder { records: self.records, bloom: self.bloom, canary }
    }

    /// Sets the Bloom filter; without one, building fills a filter with the
    /// records' fingerprints.
    pub fn bloom(self, bloom: BloomFilter) -> (builder: Self)
        ensures
            builder.records() == self.records(),
            builder.chosen_bloom() == Some(bloom),
            builder.canary_value() == self.canary_value(),
    {
        SramImageBuilder { records: self.records, bloom: Some(bloom), canary: self.canary }
    }

    /// Adds a lesson record: clear flags, zero padding.
    pub fn add_record(self, fingerprint: u64, lesson_id: LessonId) -> (builder: Self)
        ensures
            builder.records().len() == self.records().len() + 1,
            builder.records().drop_last() == self.records(),
            builder.records().last().fingerprint == fingerprint,
            builder.records().last().lesson_id == lesson_id,
            builder.records().last().flags == 0,
            builder.records().last()._reserved == 0,
            builder.records().last().padding@ == Seq::new(48, |i: int| 0u8),
            builder.chosen_bloom() == self.chosen_bloom(),
            builder.canary_value() == self.canary_value(),
    {
        let mut records = self.records;
        records.push(SramRecord::new(fingerprint, lesson_id));
        let builder = SramImageBuilder { records, bloom: self.bloom, canary: self.canary };
        assert(builder.records().drop_last() =~= self.records());
        builder
    }

    /// Builds the image. Without an explicitly set Bloom filter, `sized_bloom`
    /// (an empty filter sized for the records) is filled with every record's
    /// fingerprint and used.
    pub fn build(self, sized_bloom: BloomFilter) -> (result: Result<SramImage, Error>)
        requires
            self.well_formed(),
            sized_bloom.well_formed(),
            self.chosen_bloom() is None && self.records().len() > 0 ==> sized_bloom.usable(),
        ensures
            result matches Ok(image) && image.well_formed() && self.built(sized_bloom, image),
    {
        let ghost fps = record_fingerprints(self.records());
        let bloom = match self.bloom {
            Some(b) => b,
            None => {
                let mut b = sized_bloom;
                let mut i: usize = 0;
                assert(fps.take(0) =~= Seq::<u64>::empty());
                assert(sized_bloom.filled(fps.take(0), b));
                while i < self.records.len()
                    invariant
                        i <= self.records@.len(),
                        fps == record_fingerprints(self.records@),
                        b.well_formed(),
                        self.records@.len() > 0 ==> sized_bloom.usable(),
                        b.hash_count() == sized_bloom.hash_count(),
                        b.size_in_bits() == sized_bloom.size_in_bits(),
                        sized_bloom.filled(fps.take(i as int), b),
                    decreases self.records@.len() - i,
                {
                    let ghost before = b;
                    b.insert(self.records[i].fingerprint);
                    proof {
                        lemma_filled_step(sized_bloom, fps.take(i as int), before, fps[i as int], b);
                        assert(fps.take(i as int).push(fps[i as int]) =~= fps.take(i + 1));
                    }
                    i = i + 1;
                }
                assert(fps.take(self.records@.len() as int) =~= fps);
                b
            },
        };
        let record_count = #[verifier::truncate] (self.records.len() as u32);
        let mut bloom_bytes = bloom.to_bytes();
        proof {
            lemma_serialized_len(bloom);
        }
        let bloom_size = #[verifier::truncate] (bloom_bytes.len() as u32);
        let header = SramHeader::new(record_count, bloom_size, self.canary);
        let mut data = header.to_bytes();
        data.append(&mut bloom_bytes);
        let ghost prefix = data@;
        let mut i: usize = 0;
        while i < self.records.len()
            invariant
                i <= self.records@.len(),
                data@ == prefix + records_bytes(self.records@.take(i as int)),
            decreases self.records@.len() - i,
        {
            push_record(&mut data, &self.records[i]);
            proof {
                assert(self.records@.take(i + 1).drop_last() =~= self.records@.take(i as int));
            }
            i = i + 1;
        }
        assert(self.records@.take(self.records@.len() as int) =~= self.records@);
        let image = SramImage { data, record_count, bloom, canary: self.canary };
        proof {
            lemma_built_image_records(self, sized_bloom, image);
        }
        Ok(image)
    }
}

/// Two images with the same header fields, the same Bloom filter and the same
/// records.
pub open spec fn same_image(a: SramImage, b: SramImage) -> bool {
    &&& a.count() == b.count()
    &&& a.canary_value() == b.canary_value()
    &&& same_filter(a.bloom_filter(), b.bloom_filter())
    &&& forall|i: int|
        0 <= i < a.count() ==> {
            &&& #[trigger] a.record_fingerprint(i) == b.record_fingerprint(i)
            &&& a.record_lesson(i) == b.record_lesson(i)
            &&& a.record_flags(i) == b.record_flags(i)
            &&& a.record_reserved(i) == b.record_reserved(i)
        }
}

/// Field layout of a stored record.
pub proof fn lemma_record_bytes_fields(r: SramRecord)
    ensures
        record_bytes(r).len() == 64,
        le_u64_at(record_bytes(r), 0) == r.fingerprint,
        le_u32_at(record_bytes(r), 8) == r.lesson_id,
        le_u16_at(record_bytes(r), 12) == r.flags,
        le_u16_at(record_bytes(r), 14) == r._reserved,
        record_bytes(r).subrange(16, 64) == r.padding@,
{
    lemma_auto_spec_u16_to_from_le_bytes();
    lemma_auto_spec_u32_to_from_le_bytes();
    lemma_auto_spec_u64_to_from_le_bytes();
    let rb = record_bytes(r);
    assert(rb.subrange(0, 8) =~= spec_u64_to_le_bytes(r.fingerprint));
    assert(rb.subrange(8, 12) =~= spec_u32_to_le_bytes(r.lesson_id));
    assert(rb.subrange(12, 14) =~= spec_u16_to_le_bytes(r.flags));
    assert(rb.subrange(14, 16) =~= spec_u16_to_le_bytes(r._reserved));
    assert(rb.subrange(16, 64) =~= r.padding@);
}

/// Stored records follow each other, 64 bytes apart.
pub proof fn lemma_records_layout(rs: Seq<SramRecord>)
    ensures
        records_bytes(rs).len() == 64 * rs.len(),
        forall|j: int|
            0 <= j < rs.len() ==> #[trigger] records_bytes(rs).subrange(64 * j, 64 * j + 64)
                == record_bytes(rs[j]),
    decreases rs.len(),
{
    if rs.len() > 0 {
        let prev = rs.drop_last();
        lemma_records_layout(prev);
        lemma_record_bytes_fields(rs.last());
        let all = records_bytes(rs);
        assert forall|j: int| 0 <= j < rs.len() implies #[trigger] all.subrange(64 * j, 64 * j + 64)
            == record_bytes(rs[j]) by {
            if j < rs.len() - 1 {
                assert(all.subrange(64 * j, 64 * j + 64) =~= records_bytes(prev).subrange(64 * j, 64 * j + 64));
            } else {
                assert(all.subrange(64 * j, 64 * j + 64) =~= record_bytes(rs.last()));
            }
        }
    }
}

/// Field layout of a stored header.
pub proof fn lemma_header_fields(record_count: u32, bloom_size: u32, canary: u64)
    ensures
        header_bytes(record_count, bloom_size, canary).len() == 64,
        header_bytes(record_count, bloom_size, canary).subrange(0, 8) == magic_bytes(),
        header_bytes(record_count, bloom_size, canary)[8] == SRAM_VERSION,
        be_u32_at(header_bytes(record_count, bloom_size, canary), 10) == record_count,
        be_u32_at(header_bytes(record_count, bloom_size, canary), 14) == bloom_size,
        le_u64_at(header_bytes(record_count, bloom_size, canary), 18) == canary,
{
    lemma_auto_spec_u64_to_from_le_bytes();
    lemma_be_u32_roundtrip(record_count);
    lemma_be_u32_roundtrip(bloom_size);
    let h = header_bytes(record_count, bloom_size, canary);
    assert(h.subrange(0, 8) =~= magic_bytes());
    assert(h.subrange(10, 14) =~= be_u32_bytes(record_count));
    assert(h.subrange(14, 18) =~= be_u32_bytes(bloom_size));
    assert(be_u32_at(h, 10) == be_u32_at(h.subrange(10, 14), 0));
    assert(be_u32_at(h, 14) == be_u32_at(h.subrange(14, 18), 0));
    assert(h.subrange(18, 26) =~= spec_u64_to_le_bytes(canary));
}

/// The fields of record `j` of an image whose bytes hold, after `offset` bytes,
/// the stored records `rs`.
proof fn lemma_image_records(image: SramImage, rs: Seq<SramRecord>, j: int)
    requires
        image.records_start() + records_bytes(rs).len() <= image.bytes().len(),
        image.bytes().subrange(image.records_start(), image.records_start() + records_bytes(rs).len())
            == records_bytes(rs),
        0 <= j < rs.len(),
    ensures
        image.record_fits(j),
        image.record_fingerprint(j) == rs[j].fingerprint,
        image.record_lesson(j) == rs[j].lesson_id,
        image.record_flags(j) == rs[j].flags,
        image.record_reserved(j) == rs[j]._reserved,
{
    lemma_records_layout(rs);
    lemma_record_bytes_fields(rs[j]);
    let bytes = image.bytes();
    let off = image.record_offset(j);
    let rb = record_bytes(rs[j]);
    assert(bytes.subrange(off, off + 64) =~= records_bytes(rs).subrange(64 * j, 64 * j + 64));
    assert(bytes.subrange(off, off + 8) =~= rb.subrange(0, 8));
    assert(bytes.subrange(off + 8, off + 12) =~= rb.subrange(8, 12));
    assert(bytes.subrange(off + 12, off + 14) =~= rb.subrange(12, 14));
    assert(bytes.subrange(off + 14, off + 16) =~= rb.subrange(14, 16));
}

/// A built image holds every added record, in order, within its bytes.
pub proof fn lemma_built_image_records(builder: SramImageBuilder, sized_bloom: BloomFilter, image: SramImage)
    requires
        builder.built(sized_bloom, image),
    ensures
        image.records_fit(),
        forall|j: int|
            0 <= j < builder.records().len() ==> {
                &&& #[trigger] image.record_fingerprint(j) == builder.records()[j].fingerprint
                &&& image.record_lesson(j) == builder.records()[j].lesson_id
                &&& image.record_flags(j) == builder.records()[j].flags
                &&& image.record_reserved(j) == builder.records()[j]._reserved
            },
{
    let rs = builder.records();
    let b = image.bloom_filter();
    lemma_serialized_len(b);
    lemma_records_layout(rs);
    lemma_header_fields(image.count(), b.serialized_len() as u32, image.canary_value());
    let head = header_bytes(image.count(), b.serialized_len() as u32, image.canary_value());
    assert(image.bytes().subrange(image.records_start(), image.records_start() + records_bytes(rs).len())
        =~= records_bytes(rs));
    assert forall|j: int| 0 <= j < rs.len() implies {
        &&& #[trigger] image.record_fingerprint(j) == rs[j].fingerprint
        &&& image.record_lesson(j) == rs[j].lesson_id
        &&& image.record_flags(j) == rs[j].flags
        &&& image.record_reserved(j) == rs[j]._reserved
    } by {
        lemma_image_records(image, rs, j);
    }
}

impl SramImage {
    /// A scan from `i` answers with a lesson when a hit lies at or after `i`.
    pub proof fn lemma_scan_finds_hit(self, fp: u64, threshold: u32, i: int, j: int)
        requires
            0 <= i <= j < self.count(),
            self.hit(fp, threshold, j),
        ensures
            self.scan_from(fp, threshold, i) is Some,
        decreases j - i,
    {
        if i < j && !self.hit(fp, threshold, i) {
            self.lemma_scan_finds_hit(fp, threshold, i + 1, j);
        }
    }

    proof fn lemma_same_scans(self, other: SramImage, fp: u64, threshold: u32, i: int)
        requires
            same_image(self, other),
            0 <= i,
        ensures
            self.scan_from(fp, threshold, i) == other.scan_from(fp, threshold, i),
        decreases self.count() - i,
    {
        if i < self.count() {
            self.lemma_same_scans(other, fp, threshold, i + 1);
            assert(self.record_fingerprint(i) == other.record_fingerprint(i));
        }
    }

    proof fn lemma_same_closest(self, other: SramImage, fp: u64, n: int)
        requires
            same_image(self, other),
            n <= self.count(),
        ensures
            self.closest_upto(fp, n) == other.closest_upto(fp, n),
        decreases n,
    {
        if n > 0 {
            self.lemma_same_closest(other, fp, n - 1);
            assert(self.record_fingerprint(n - 1) == other.record_fingerprint(n - 1));
        }
    }
}

/// Images with the same header fields, filter and records give the same answers:
/// the same judgment and the same closest record, and both filters are usable or
/// neither is.
pub proof fn lemma_same_image_same_answers(a: SramImage, b: SramImage, fp: u64, threshold: u32)
    requires
        same_image(a, b),
    ensures
        a.judge_outcome(fp, threshold) == b.judge_outcome(fp, threshold),
        a.bloom_filter().usable() == b.bloom_filter().usable(),
        a.closest_upto(fp, a.count() as int) == b.closest_upto(fp, b.count() as int),
{
    a.lemma_same_scans(b, fp, threshold, 0);
    a.lemma_same_closest(b, fp, a.count() as int);
    lemma_same_filter_same_answers(a.bloom_filter(), b.bloom_filter(), fp);
}

/// Every lesson added to a builder without an explicit Bloom filter is found when
/// the built image judges the lesson's own fingerprint, at any threshold: the
/// filter admits it and the scan meets a record within the threshold.
pub proof fn lemma_built_image_finds_records(
    builder: SramImageBuilder,
    sized_bloom: BloomFilter,
    image: SramImage,
    j: int,
    threshold: u32,
)
    requires
        builder.chosen_bloom() is None,
        sized_bloom.well_formed(),
        sized_bloom.usable(),
        builder.built(sized_bloom, image),
        builder.records().len() <= u32::MAX,
        forall|k: int| 0 <= k < builder.records().len() ==> !(#[trigger] builder.records()[k]).canary_flag(),
        0 <= j < builder.records().len(),
    ensures
        image.bloom_filter().usable(),
        image.judge_outcome(builder.records()[j].fingerprint, threshold) is Some,
{
    let rs = builder.records();
    let fp = rs[j].fingerprint;
    lemma_built_image_records(builder, sized_bloom, image);
    lemma_filled_admits_all(sized_bloom, record_fingerprints(rs), image.bloom_filter(), j);
    assert(image.record_fingerprint(j) == fp);
    lemma_hamming_basics(fp, fp);
    assert(!rs[j].canary_flag());
    assert(image.hit(fp, threshold, j));
    image.lemma_scan_finds_hit(fp, threshold, 0, j);
}

/// Saving an image whose filter parameters fit in 32 bits gives bytes that load,
/// and the loaded image has the same header fields, filter and records.
pub proof fn lemma_saved_image_reloads(image: SramImage, loaded: SramImage)
    requires
        image.well_formed(),
        image.bloom_filter().hash_count() <= u32::MAX,
        image.bloom_filter().size_in_bits() <= u32::MAX,
        image.bloom_filter().expected_capacity() <= u32::MAX,
    ensures
        image_bytes_valid(image.saved_bytes()),
        loaded.loaded_from(image.saved_bytes()) ==> same_image(image, loaded),
{
    let b = image.bloom_filter();
    lemma_serialized_len(b);
    lemma_serialization_roundtrip(b, b);
    assert(b.serialized_len() <= u32::MAX) by {
        crate::bloom::lemma_serialized_len_bound(b);
    }
    let bs = b.serialized_len() as u32;
    let head = header_bytes(image.count(), bs, image.canary_value());
    lemma_header_fields(image.count(), bs, image.canary_value());
    let start = 64 + bs;
    let end = start + 64 * image.count();
    let recs = image.bytes().subrange(start, end);
    let s = image.saved_bytes();
    assert(s == head + b.serialized() + recs);
    assert(s.subrange(0, 8) =~= head.subrange(0, 8));
    assert(s.subrange(10, 14) =~= head.subrange(10, 14));
    assert(be_u32_at(s, 10) == be_u32_at(head, 10));
    assert(be_u32_at(s, 14) == be_u32_at(head, 14));
    assert(s.subrange(18, 26) =~= head.subrange(18, 26));
    assert(bloom_region(s) =~= b.serialized());
    if loaded.loaded_from(s) {
        lemma_serialization_roundtrip(b, loaded.bloom_filter());
        assert(same_filter(b, loaded.bloom_filter()));
        assert(loaded.bloom_filter().serialized_len() == b.serialized_len());
        assert(loaded.records_start() == image.records_start());
        assert(s.len() == 64 + b.serialized_len() + 64 * image.count());
        assert(loaded.records_fit());
        assert(loaded.count() == image.count());
        assert(loaded.canary_value() == image.canary_value());
        assert forall|i: int| 0 <= i < image.count() implies {
            &&& #[trigger] image.record_fingerprint(i) == loaded.record_fingerprint(i)
            &&& image.record_lesson(i) == loaded.record_lesson(i)
            &&& image.record_flags(i) == loaded.record_flags(i)
            &&& image.record_reserved(i) == loaded.record_reserved(i)
        } by {
            let off = image.record_offset(i);
            assert(s.subrange(off, off + 64) =~= image.bytes().subrange(off, off + 64));
            assert(s.subrange(off, off + 8) =~= image.bytes().subrange(off, off + 8));
            assert(s.subrange(off + 8, off + 12) =~= image.bytes().subrange(off + 8, off + 12));
            assert(s.subrange(off + 12, off + 14) =~= image.bytes().subrange(off + 12, off + 14));
            assert(s.subrange(off + 14, off + 16) =~= image.bytes().subrange(off + 14, off + 16));
        }
    }
}

} // verus!
