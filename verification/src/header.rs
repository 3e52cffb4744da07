//! Fixed chunk header written ahead of the records and the sparse index.
use vstd::prelude::*;
use vstd::bytes::*;
use crate::codec::{u64_at, read_u64_at, push_u64, lemma_le_lengths};
use crate::error::{FastKError, Result, invalid_data};

verus! {

/// The eight magic bytes `FASTK001` that open every chunk.
pub const CHUNK_MAGIC: [u8; 8] = [70, 65, 83, 84, 75, 48, 48, 49];

pub const CHUNK_VERSION_V1: u32 = 1;
pub const CHUNK_VERSION_V2: u32 = 2;
pub const CHUNK_VERSION_CURRENT: u32 = 2;
pub const CHUNK_FLAG_HAS_SPARSE_INDEX: u64 = 1;

pub open spec fn chunk_magic() -> Seq<u8> {
    seq![70u8, 65u8, 83u8, 84u8, 75u8, 48u8, 48u8, 49u8]
}

/// Fixed chunk header written ahead of all records and sparse index side data.
#[derive(Debug, Clone, Copy, PartialEq, Eq)]
pub struct ChunkHeader {
    pub magic: [u8; 8],
    pub version: u32,
    pub header_size: u32,
    pub record_size: u32,
    pub schema_id: u32,
    pub series_id: u64,
    pub chunk_id: u64,
    pub generation: u64,
    pub timeframe_ms: i64,
    pub start_ts: i64,
    pub end_ts: i64,
    pub count: u64,
    pub flags: u64,
    pub index_offset: u64,
    pub index_len: u64,
    pub sparse_index_every: u64,
}

/// Size of the fixed header of the given layout version, if the version is known.
pub open spec fn header_size_for_version(version: u32) -> Option<nat> {
    if version == 1 {
        Some(88)
    } else if version == 2 {
        Some(128)
    } else {
        None
    }
}

impl ChunkHeader {
    pub const BYTE_SIZE_V1: usize = 88;
    pub const BYTE_SIZE_V2: usize = 128;

    /// The fifteen 8-byte words that follow the magic, in write order.
    pub open spec fn words(&self) -> Seq<u64> {
        seq![
            self.version as u64,
            self.header_size as u64,
            self.record_size as u64,
            self.schema_id as u64,
            self.series_id,
            self.chunk_id,
            self.generation,
            self.timeframe_ms as u64,
            self.start_ts as u64,
            self.end_ts as u64,
            self.count,
            self.flags,
            self.index_offset,
            self.index_len,
            self.sparse_index_every,
        ]
    }

    /// Number of whole words that fit after the magic in `header_size` bytes (at most 15).
    pub open spec fn words_written(&self) -> nat {
        let fit = (self.header_size as nat - 8) / 8;
        if fit < 15 { fit as nat } else { 15 }
    }

    /// Byte `p` of the encoded header: magic, then whole little-endian words while they fit,
    /// then zeros.
    pub open spec fn image_byte(&self, p: int) -> u8 {
        if p < 8 {
            self.magic@[p]
        } else if p < 8 + 8 * self.words_written() {
            spec_u64_to_le_bytes(self.words()[(p - 8) / 8])[(p - 8) % 8]
        } else {
            0
        }
    }

    /// The encoded header, `header_size` bytes long.
    pub open spec fn image(&self) -> Seq<u8> {
        Seq::new(self.header_size as nat, |p: int| self.image_byte(p))
    }

    /// The conditions `validate` checks.
    pub open spec fn valid(&self) -> bool {
        &&& self.magic@ == chunk_magic()
        &&& header_size_for_version(self.version) == Some(self.header_size as nat)
        &&& !(self.count > 0 && self.start_ts > self.end_ts)
        &&& !(self.version >= 2 && (self.flags & 1) != 0 && self.sparse_index_every == 0)
    }

    /// Encodes the header into `header_size` bytes.
    pub fn to_le_bytes(&self) -> (r: Vec<u8>)
        requires
            self.header_size >= 8,
        ensures
            r@ == self.image(),
    {
        let size = self.header_size as usize;
        let mut buf: Vec<u8> = Vec::new();
        let mut i: usize = 0;
        while i < 8
            invariant
                i <= 8,
                buf@ =~= self.magic@.subrange(0, i as int),
            decreases 8 - i,
        {
            buf.push(self.magic[i]);
            i = i + 1;
        }
        let words: [u64; 15] = [
            self.version as u64,
            self.header_size as u64,
            self.record_size as u64,
            self.schema_id as u64,
            self.series_id,
            self.chunk_id,
            self.generation,
            self.timeframe_ms as u64,
            self.start_ts as u64,
            self.end_ts as u64,
            self.count,
            self.flags,
            self.index_offset,
            self.index_len,
            self.sparse_index_every,
        ];
        assert(words@ =~= self.words());
        let mut k: usize = 0;
        while k < 15 && buf.len() + 8 <= size
            invariant
                k <= 15,
                size == self.header_size,
                words@ == self.words(),
                buf@.len() == 8 + 8 * k,
                buf@.len() <= size,
                k <= self.words_written(),
                forall|p: int| 0 <= p < buf@.len() ==> #[trigger] buf@[p] == self.image_byte(p),
            decreases 15 - k,
        {
            let ghost before = buf@;
            push_u64(&mut buf, words[k]);
            proof {
                lemma_le_lengths(words[k as int], 0, 0, 0);
                assert forall|p: int| 0 <= p < buf@.len() implies #[trigger] buf@[p]
                    == self.image_byte(p) by {
                    if p >= before.len() {
                        assert((p - 8) / 8 == k);
                        assert((p - 8) % 8 == p - before.len());
                    } else {
                        assert(buf@[p] == before[p]);
                    }
                }
            }
            k = k + 1;
        }
        assert(k == self.words_written()) by {
            if k < 15 {
                assert(buf@.len() + 8 > size);
            }
        }
        while buf.len() < size
            invariant
                size == self.header_size,
                buf@.len() <= size,
                buf@.len() >= 8 + 8 * self.words_written(),
                forall|p: int| 0 <= p < buf@.len() ==> #[trigger] buf@[p] == self.image_byte(p),
            decreases size - buf@.len(),
        {
            buf.push(0u8);
        }
        assert(buf@ =~= self.image());
        buf
    }

    /// Checks magic, version, size, timestamp span and sparse-index declaration.
    pub fn validate(&self) -> (r: Result<()>)
        ensures
            r is Ok <==> self.valid(),
            r is Err ==> r matches Err(FastKError::InvalidData(_)),
    {
        if !magic_matches(&self.magic) {
            return Err(invalid_data("invalid chunk magic"));
        }
        if self.version == CHUNK_VERSION_V1 {
            if self.header_size as usize != Self::BYTE_SIZE_V1 {
                return Err(invalid_data("unexpected header size"));
            }
        } else if self.version == CHUNK_VERSION_V2 {
            if self.header_size as usize != Self::BYTE_SIZE_V2 {
                return Err(invalid_data("unexpected header size"));
            }
        } else {
            return Err(invalid_data("unsupported chunk version"));
        }
        if self.count > 0 && self.start_ts > self.end_ts {
            return Err(invalid_data("chunk start_ts is after end_ts"));
        }
        if self.version >= CHUNK_VERSION_V2 && (self.flags & CHUNK_FLAG_HAS_SPARSE_INDEX) != 0
            && self.sparse_index_every == 0 {
            return Err(invalid_data("chunk declares sparse index but sparse_index_every=0"));
        }
        Ok(())
    }
}

/// Whether `magic` equals `FASTK001`.
fn magic_matches(magic: &[u8; 8]) -> (r: bool)
    ensures
        r == (magic@ == chunk_magic()),
{
    let mut i: usize = 0;
    while i < 8
        invariant
            i <= 8,
            magic@.len() == 8,
            forall|j: int| 0 <= j < i ==> magic@[j] == chunk_magic()[j],
        decreases 8 - i,
    {
        if magic[i] != CHUNK_MAGIC[i] {
            return false;
        }
        i = i + 1;
    }
    assert(magic@ =~= chunk_magic());
    true
}

/// Reads the 8-byte little-endian word at the start of `bytes`.
pub fn read_word(bytes: &[u8]) -> (r: Result<u64>)
    ensures
        bytes@.len() == 8 ==> r == Ok::<u64, FastKError>(u64_at(bytes@, 0)),
        bytes@.len() != 8 ==> r matches Err(FastKError::InvalidData(_)),
{
    if bytes.len() != 8 {
        return Err(invalid_data("invalid 8-byte word"));
    }
    Ok(read_u64_at(bytes, 0))
}

} // verus!

verus! {

/// The 8-byte array holding the first eight bytes of `b`.
pub open spec fn magic_of(b: Seq<u8>) -> [u8; 8] {
    choose|a: [u8; 8]| a@ == b.subrange(0, 8)
}

/// The header decoded from `b`, which holds a V1 (88-byte) or V2 (128-byte) image.
pub open spec fn decode_header_image(b: Seq<u8>) -> ChunkHeader {
    let version = u64_at(b, 8) as u32;
    let header_size = u64_at(b, 16) as u32;
    let w = |k: int| u64_at(b, 24 + 8 * k);
    if version >= 2 {
        ChunkHeader {
            magic: magic_of(b),
            version,
            header_size,
            record_size: w(0) as u32,
            schema_id: w(1) as u32,
            series_id: w(2),
            chunk_id: w(3),
            generation: w(4),
            timeframe_ms: w(5) as i64,
            start_ts: w(6) as i64,
            end_ts: w(7) as i64,
            count: w(8),
            flags: w(9),
            index_offset: w(10),
            index_len: w(11),
            sparse_index_every: w(12),
        }
    } else {
        ChunkHeader {
            magic: magic_of(b),
            version,
            header_size,
            record_size: w(0) as u32,
            schema_id: w(1) as u32,
            series_id: w(2),
            chunk_id: 0,
            generation: 0,
            timeframe_ms: w(3) as i64,
            start_ts: w(4) as i64,
            end_ts: w(5) as i64,
            count: w(6),
            flags: w(7),
            index_offset: header_size as u64,
            index_len: 0,
            sparse_index_every: 0,
        }
    }
}

} // verus!

verus! {

/// Whether decoding `b` reads past its end (a 88-byte image that claims version 2 or later).
pub open spec fn decode_overruns(b: Seq<u8>) -> bool {
    b.len() == 88 && (u64_at(b, 8) as u32) >= 2
}

/// Reads the word at `off`.
fn word_at(bytes: &[u8], off: usize) -> (r: u64)
    requires
        off + 8 <= bytes@.len(),
    ensures
        r == u64_at(bytes@, off as int),
{
    read_u64_at(bytes, off)
}

impl ChunkHeader {
    /// Decodes and validates a V1 (88-byte) or V2 (128-byte) header image.
    pub fn from_le_bytes(bytes: &[u8]) -> (r: Result<Self>)
        requires
            !decode_overruns(bytes@),
        ensures
            bytes@.len() != 88 && bytes@.len() != 128 ==> r matches Err(FastKError::InvalidData(_)),
            bytes@.len() == 88 || bytes@.len() == 128 ==> {
                let h = decode_header_image(bytes@);
                &&& h.valid() ==> r == Ok::<ChunkHeader, FastKError>(h)
                &&& !h.valid() ==> r matches Err(FastKError::InvalidData(_))
            },
    {
        if bytes.len() != Self::BYTE_SIZE_V1 && bytes.len() != Self::BYTE_SIZE_V2 {
            return Err(invalid_data("unexpected chunk header byte length"));
        }
        let magic: [u8; 8] = crate::codec::to_array::<8>(&bytes[0..8]);
        proof {
            let a = magic_of(bytes@);
            assert(exists|x: [u8; 8]| x@ == bytes@.subrange(0, 8)) by {
                assert(magic@ == bytes@.subrange(0, 8));
            }
            assert(a@ == magic@);
            assert(a == magic);
        }
        let version = word_at(bytes, 8) as u32;
        let header_size = word_at(bytes, 16) as u32;
        let header = if version >= CHUNK_VERSION_V2 {
            ChunkHeader {
                magic,
                version,
                header_size,
                record_size: word_at(bytes, 24) as u32,
                schema_id: word_at(bytes, 32) as u32,
                series_id: word_at(bytes, 40),
                chunk_id: word_at(bytes, 48),
                generation: word_at(bytes, 56),
                timeframe_ms: word_at(bytes, 64) as i64,
                start_ts: word_at(bytes, 72) as i64,
                end_ts: word_at(bytes, 80) as i64,
                count: word_at(bytes, 88),
                flags: word_at(bytes, 96),
                index_offset: word_at(bytes, 104),
                index_len: word_at(bytes, 112),
                sparse_index_every: word_at(bytes, 120),
            }
        } else {
            ChunkHeader {
                magic,
                version,
                header_size,
                record_size: word_at(bytes, 24) as u32,
                schema_id: word_at(bytes, 32) as u32,
                series_id: word_at(bytes, 40),
                chunk_id: 0,
                generation: 0,
                timeframe_ms: word_at(bytes, 48) as i64,
                start_ts: word_at(bytes, 56) as i64,
                end_ts: word_at(bytes, 64) as i64,
                count: word_at(bytes, 72),
                flags: word_at(bytes, 80),
                index_offset: header_size as u64,
                index_len: 0,
                sparse_index_every: 0,
            }
        };
        assert(header == decode_header_image(bytes@));
        header.validate()?;
        Ok(header)
    }

    /// Reads a header from the leading bytes of a chunk file.
    ///
    /// `bytes` holds what the file offers from offset 0 (at least the header when the file is
    /// intact). The 24-byte prefix decides the expected size; a shorter buffer is an I/O error,
    /// as a short read would be.
    pub fn read_from(bytes: &[u8]) -> (r: Result<Self>)
        ensures
            bytes@.len() < 24 ==> r matches Err(FastKError::Io(_)),
            bytes@.len() >= 24 ==> {
                let version = u64_at(bytes@, 8) as u32;
                let size = u64_at(bytes@, 16);
                if bytes@.subrange(0, 8) != chunk_magic() || header_size_for_version(version) is None
                    || header_size_for_version(version) != Some(size as nat) {
                    r matches Err(FastKError::InvalidData(_))
                } else if bytes@.len() < size {
                    r matches Err(FastKError::Io(_))
                } else {
                    let h = decode_header_image(bytes@.subrange(0, size as int));
                    &&& h.valid() ==> r == Ok::<ChunkHeader, FastKError>(h)
                    &&& !h.valid() ==> r matches Err(FastKError::InvalidData(_))
                }
            },
    {
        if bytes.len() < 24 {
            return Err(FastKError::Io("failed to fill whole buffer".to_owned()));
        }
        let magic: [u8; 8] = crate::codec::to_array::<8>(&bytes[0..8]);
        let version = word_at(bytes, 8) as u32;
        let header_size = word_at(bytes, 16);
        if !magic_matches(&magic) {
            return Err(invalid_data("invalid chunk magic"));
        }
        let expected: u64 = if version == CHUNK_VERSION_V1 {
            88
        } else if version == CHUNK_VERSION_V2 {
            128
        } else {
            return Err(invalid_data("unsupported chunk version"));
        };
        if header_size != expected {
            return Err(invalid_data("unexpected header size for version"));
        }
        if (bytes.len() as u64) < expected {
            return Err(FastKError::Io("failed to fill whole buffer".to_owned()));
        }
        let image = &bytes[0..expected as usize];
        proof {
            assert(image@ =~= bytes@.subrange(0, expected as int));
            assert(image@.subrange(8, 16) =~= bytes@.subrange(8, 16));
        }
        Self::from_le_bytes(image)
    }
}

} // verus!

verus! {

pub(crate) proof fn lemma_image_word(h: ChunkHeader, k: int)
    requires
        h.header_size == 128,
        0 <= k < 15,
    ensures
        u64_at(h.image(), 8 + 8 * k) == h.words()[k],
{
    let img = h.image();
    lemma_le_lengths(h.words()[k], 0, 0, 0);
    assert forall|i: int| 0 <= i < 8 implies #[trigger] img.subrange(8 + 8 * k, 16 + 8 * k)[i]
        == spec_u64_to_le_bytes(h.words()[k])[i] by {
        assert((8 * k + i) / 8 == k && (8 * k + i) % 8 == i) by (nonlinear_arith)
            requires
                0 <= i < 8,
                0 <= k,
        ;
        assert(h.words_written() == 15);
    }
    assert(img.subrange(8 + 8 * k, 16 + 8 * k) =~= spec_u64_to_le_bytes(h.words()[k]));
    crate::codec::lemma_u64_at(img, 8 + 8 * k, h.words()[k]);
}

/// A valid version-2 header decodes back from its own encoding.
///
/// `ChunkHeader::to_le_bytes` always writes the version-2 word order, so the law is stated for
/// version-2 headers; version-1 images are only ever read.
pub proof fn header_encode_decode_roundtrip(h: ChunkHeader)
    requires
        h.valid(),
        h.version == 2,
    ensures
        h.image().len() == 128,
        !decode_overruns(h.image()),
        decode_header_image(h.image()) == h,
{
    let img = h.image();
    assert(h.header_size == 128);
    lemma_image_word(h, 0);
    lemma_image_word(h, 1);
    lemma_image_word(h, 2);
    lemma_image_word(h, 3);
    lemma_image_word(h, 4);
    lemma_image_word(h, 5);
    lemma_image_word(h, 6);
    lemma_image_word(h, 7);
    lemma_image_word(h, 8);
    lemma_image_word(h, 9);
    lemma_image_word(h, 10);
    lemma_image_word(h, 11);
    lemma_image_word(h, 12);
    lemma_image_word(h, 13);
    lemma_image_word(h, 14);
    assert(u64_at(img, 8) == h.words()[0]);
    assert(u64_at(img, 16) == h.words()[1]);
    assert(img.subrange(0, 8) =~= h.magic@);
    let m = magic_of(img);
    assert(m@ == img.subrange(0, 8));
    assert(m == h.magic);
    let d = decode_header_image(img);
    assert(u64_at(img, 24) == h.words()[2]);
    assert(u64_at(img, 32) == h.words()[3]);
    assert(u64_at(img, 40) == h.words()[4]);
    assert(u64_at(img, 48) == h.words()[5]);
    assert(u64_at(img, 56) == h.words()[6]);
    assert(u64_at(img, 64) == h.words()[7]);
    assert(u64_at(img, 72) == h.words()[8]);
    assert(u64_at(img, 80) == h.words()[9]);
    assert(u64_at(img, 88) == h.words()[10]);
    assert(u64_at(img, 96) == h.words()[11]);
    assert(u64_at(img, 104) == h.words()[12]);
    assert(u64_at(img, 112) == h.words()[13]);
    assert(u64_at(img, 120) == h.words()[14]);
    crate::codec::lemma_i64_u64_roundtrip(h.timeframe_ms);
    crate::codec::lemma_i64_u64_roundtrip(h.start_ts);
    crate::codec::lemma_i64_u64_roundtrip(h.end_ts);
    assert(((h.version as u64) as u32) == h.version);
    assert(((h.record_size as u64) as u32) == h.record_size);
    assert(((h.schema_id as u64) as u32) == h.schema_id);
    assert(d == h);
}

} // verus!
