//! Fixed-width timestamped records and their little-endian layouts.
use vstd::prelude::*;
use vstd::bytes::*;
use crate::codec::{lemma_i8_u8_roundtrip, lemma_i16_u16_roundtrip, i64_le, i64_at, u16_at, u32_at, push_i64, push_u16, push_u32, read_i64_at, read_u16_at, read_u32_at, lemma_i64_at, lemma_u16_at, lemma_u32_at, lemma_le_lengths, to_array};
use crate::error::{FastKError, Result, invalid_data, invalid_input};
use crate::meta::RecordType;

verus! {

pub const KLINE_SCHEMA_ID: u32 = 1;
pub const SCALAR_SCHEMA_ID: u32 = 2;
pub const TRADE_SCHEMA_ID: u32 = 10;
pub const BBO_SCHEMA_ID: u32 = 11;
pub const BOOK_DELTA_SCHEMA_ID: u32 = 12;

/// Contract shared by all fixed-width timestamped records stored in chunks.
pub trait FixedRecord: Sized + Copy {
    spec fn spec_ts(&self) -> i64;

    spec fn spec_byte_size() -> nat;

    spec fn spec_schema_id() -> u32;

    spec fn spec_record_type() -> RecordType;

    spec fn spec_allow_equal_timestamps() -> bool;

    /// The record's little-endian encoding.
    spec fn spec_encode(&self) -> Seq<u8>;

    /// The record read back from `bytes` (meaningful when `bytes` has the record size).
    spec fn spec_decode(bytes: Seq<u8>) -> Self;

    fn ts(&self) -> (r: i64)
        ensures
            r == self.spec_ts(),
    ;

    fn byte_size() -> (r: usize)
        ensures
            r == Self::spec_byte_size(),
    ;

    fn schema_id() -> (r: u32)
        ensures
            r == Self::spec_schema_id(),
    ;

    fn record_type() -> (r: RecordType)
        ensures
            r == Self::spec_record_type(),
    ;

    fn allow_equal_timestamps() -> (r: bool)
        ensures
            r == Self::spec_allow_equal_timestamps(),
    ;

    fn encode_le(&self, out: &mut Vec<u8>)
        ensures
            final(out)@ == old(out)@ + self.spec_encode(),
    ;

    fn decode_le(bytes: &[u8]) -> (r: Result<Self>)
        ensures
            bytes@.len() == Self::spec_byte_size() ==> r == Ok::<Self, FastKError>(
                Self::spec_decode(bytes@),
            ),
            bytes@.len() != Self::spec_byte_size() ==> r matches Err(FastKError::InvalidData(_)),
    ;

    /// Encoding has the record size and decodes back to the same record.
    proof fn lemma_roundtrip(&self)
        ensures
            self.spec_encode().len() == Self::spec_byte_size(),
            Self::spec_decode(self.spec_encode()) == *self,
    ;
}

/// Adjacent timestamps increase (or, where equal stamps are allowed, do not decrease).
pub open spec fn ts_ordered<R: FixedRecord>(s: Seq<R>) -> bool {
    forall|i: int, j: int|
        0 <= i < j < s.len() ==> if R::spec_allow_equal_timestamps() {
            s[i].spec_ts() <= s[j].spec_ts()
        } else {
            s[i].spec_ts() < s[j].spec_ts()
        }
}

/// Checks that `records` is non-empty and ordered by timestamp.
pub fn validate_strict_order<R: FixedRecord>(records: &[R]) -> (r: Result<()>)
    ensures
        r is Ok <==> (records@.len() > 0 && ts_ordered(records@)),
        r is Err ==> r matches Err(FastKError::InvalidInput(_)),
{
    if records.len() == 0 {
        return Err(invalid_input("fixed-record chunk must contain at least one record"));
    }
    let allow_equal = R::allow_equal_timestamps();
    let mut k: usize = 1;
    while k < records.len()
        invariant
            1 <= k <= records@.len(),
            allow_equal == R::spec_allow_equal_timestamps(),
            ts_ordered(records@.subrange(0, k as int)),
        decreases records@.len() - k,
    {
        let prev = records[k - 1].ts();
        let next = records[k].ts();
        let violates = if allow_equal {
            prev > next
        } else {
            prev >= next
        };
        if violates {
            assert(!ts_ordered(records@)) by {
                assert(records@[k - 1] == records@[k as int - 1]);
            }
            return Err(invalid_input("timestamps must be ordered"));
        }
        proof {
            let s = records@.subrange(0, k + 1);
            assert forall|i: int, j: int| 0 <= i < j < s.len() implies (if R::spec_allow_equal_timestamps() {
                s[i].spec_ts() <= s[j].spec_ts()
            } else {
                s[i].spec_ts() < s[j].spec_ts()
            }) by {
                let p = records@.subrange(0, k as int);
                if j < k {
                    assert(s[i] == p[i] && s[j] == p[j]);
                } else if i < k - 1 {
                    assert(s[i] == p[i] && s[k - 1] == p[k - 1]);
                }
            }
        }
        k = k + 1;
    }
    assert(records@.subrange(0, k as int) =~= records@);
    Ok(())
}

/// Fixed-width OHLCV bar.
#[derive(Debug, Clone, Copy, PartialEq, Eq, Structural)]
pub struct KlineRecord {
    pub ts: i64,
    pub open: i64,
    pub high: i64,
    pub low: i64,
    pub close: i64,
    pub volume: i64,
}

/// Fixed-width scalar observation (indicator, feature, factor, signal, ...).
#[derive(Debug, Clone, Copy, PartialEq, Eq, Structural)]
pub struct ScalarRecord {
    pub ts: i64,
    pub value: i64,
}

/// Fixed-width trade print.
#[derive(Debug, Clone, Copy, PartialEq, Eq)]
pub struct TradeRecord {
    pub ts: i64,
    pub recv_ts: i64,
    pub trade_id: i64,
    pub price: i64,
    pub qty: i64,
    pub side: i8,
    pub flags: u8,
}

/// Fixed-width best bid/offer record.
#[derive(Debug, Clone, Copy, PartialEq, Eq, Structural)]
pub struct BboRecord {
    pub ts: i64,
    pub recv_ts: i64,
    pub bid_price: i64,
    pub bid_qty: i64,
    pub ask_price: i64,
    pub ask_qty: i64,
    pub sequence: i64,
}

/// Fixed-width L2 order book delta record.
#[derive(Debug, Clone, Copy, PartialEq, Eq, Structural)]
pub struct BookDeltaRecord {
    pub ts: i64,
    pub recv_ts: i64,
    pub sequence: i64,
    pub price: i64,
    pub qty: i64,
    pub side: i8,
    pub action: i8,
    pub level: i16,
    pub flags: u32,
}

} // verus!

verus! {

impl KlineRecord {
    pub const BYTE_SIZE: usize = 48;

    /// Encodes the record into its fixed-width little-endian bytes.
    pub fn to_le_bytes(&self) -> (r: [u8; 48])
        ensures
            r@ == self.spec_encode(),
    {
        let mut out: Vec<u8> = Vec::new();
        self.encode_le(&mut out);
        proof { self.lemma_roundtrip(); }
        to_array::<48>(out.as_slice())
    }

    /// Decodes a record from its fixed-width little-endian bytes.
    pub fn from_le_bytes(bytes: [u8; 48]) -> (r: Self)
        ensures
            r == Self::spec_decode(bytes@),
    {
        Self::decode_fields(bytes.as_slice())
    }

    fn decode_fields(bytes: &[u8]) -> (r: Self)
        requires
            bytes@.len() == 48,
        ensures
            r == Self::spec_decode(bytes@),
    {
        KlineRecord {
            ts: read_i64_at(bytes, 0),
            open: read_i64_at(bytes, 8),
            high: read_i64_at(bytes, 16),
            low: read_i64_at(bytes, 24),
            close: read_i64_at(bytes, 32),
            volume: read_i64_at(bytes, 40),
        }
    }

    /// Checks that `records` is non-empty and ordered by timestamp.
    pub fn validate_strict_order(records: &[Self]) -> (r: Result<()>)
        ensures
            r is Ok <==> (records@.len() > 0 && ts_ordered(records@)),
            r is Err ==> r matches Err(FastKError::InvalidInput(_)),
    {
        validate_strict_order(records)
    }
}

impl FixedRecord for KlineRecord {
    open spec fn spec_ts(&self) -> i64 {
        self.ts
    }

    open spec fn spec_byte_size() -> nat {
        48
    }

    open spec fn spec_schema_id() -> u32 {
        KLINE_SCHEMA_ID
    }

    open spec fn spec_record_type() -> RecordType {
        RecordType::Kline
    }

    open spec fn spec_allow_equal_timestamps() -> bool {
        false
    }

    open spec fn spec_encode(&self) -> Seq<u8> {
        i64_le(self.ts) + i64_le(self.open) + i64_le(self.high) + i64_le(self.low) + i64_le(self.close) + i64_le(self.volume)
    }

    open spec fn spec_decode(bytes: Seq<u8>) -> Self {
        KlineRecord {
            ts: i64_at(bytes, 0),
            open: i64_at(bytes, 8),
            high: i64_at(bytes, 16),
            low: i64_at(bytes, 24),
            close: i64_at(bytes, 32),
            volume: i64_at(bytes, 40),
        }
    }

    fn ts(&self) -> i64 {
        self.ts
    }

    fn byte_size() -> usize {
        48
    }

    fn schema_id() -> u32 {
        KLINE_SCHEMA_ID
    }

    fn record_type() -> RecordType {
        RecordType::Kline
    }

    fn allow_equal_timestamps() -> bool {
        false
    }

    fn encode_le(&self, out: &mut Vec<u8>) {
        let ghost start = out@;
        push_i64(out, self.ts);
        push_i64(out, self.open);
        push_i64(out, self.high);
        push_i64(out, self.low);
        push_i64(out, self.close);
        push_i64(out, self.volume);
        assert(out@ =~= start + self.spec_encode());
    }

    fn decode_le(bytes: &[u8]) -> Result<Self> {
        if bytes.len() != 48 {
            return Err(invalid_data("unexpected record byte length"));
        }
        Ok(Self::decode_fields(bytes))
    }

    proof fn lemma_roundtrip(&self) {
        lemma_le_lengths(0, self.ts, 0, 0);
        lemma_le_lengths(0, self.open, 0, 0);
        lemma_le_lengths(0, self.high, 0, 0);
        lemma_le_lengths(0, self.low, 0, 0);
        lemma_le_lengths(0, self.close, 0, 0);
        lemma_le_lengths(0, self.volume, 0, 0);
        let e = self.spec_encode();
        assert(e.subrange(0, 8) =~= i64_le(self.ts));
        lemma_i64_at(e, 0, self.ts);
        assert(e.subrange(8, 16) =~= i64_le(self.open));
        lemma_i64_at(e, 8, self.open);
        assert(e.subrange(16, 24) =~= i64_le(self.high));
        lemma_i64_at(e, 16, self.high);
        assert(e.subrange(24, 32) =~= i64_le(self.low));
        lemma_i64_at(e, 24, self.low);
        assert(e.subrange(32, 40) =~= i64_le(self.close));
        lemma_i64_at(e, 32, self.close);
        assert(e.subrange(40, 48) =~= i64_le(self.volume));
        lemma_i64_at(e, 40, self.volume);
    }
}

impl ScalarRecord {
    pub const BYTE_SIZE: usize = 16;

    /// Encodes the record into its fixed-width little-endian bytes.
    pub fn to_le_bytes(&self) -> (r: [u8; 16])
        ensures
            r@ == self.spec_encode(),
    {
        let mut out: Vec<u8> = Vec::new();
        self.encode_le(&mut out);
        proof { self.lemma_roundtrip(); }
        to_array::<16>(out.as_slice())
    }

    /// Decodes a record from its fixed-width little-endian bytes.
    pub fn from_le_bytes(bytes: [u8; 16]) -> (r: Self)
        ensures
            r == Self::spec_decode(bytes@),
    {
        Self::decode_fields(bytes.as_slice())
    }

    fn decode_fields(bytes: &[u8]) -> (r: Self)
        requires
            bytes@.len() == 16,
        ensures
            r == Self::spec_decode(bytes@),
    {
        ScalarRecord {
            ts: read_i64_at(bytes, 0),
            value: read_i64_at(bytes, 8),
        }
    }

    /// Checks that `records` is non-empty and ordered by timestamp.
    pub fn validate_strict_order(records: &[Self]) -> (r: Result<()>)
        ensures
            r is Ok <==> (records@.len() > 0 && ts_ordered(records@)),
            r is Err ==> r matches Err(FastKError::InvalidInput(_)),
    {
        validate_strict_order(records)
    }
}

impl FixedRecord for ScalarRecord {
    open spec fn spec_ts(&self) -> i64 {
        self.ts
    }

    open spec fn spec_byte_size() -> nat {
        16
    }

    open spec fn spec_schema_id() -> u32 {
        SCALAR_SCHEMA_ID
    }

    open spec fn spec_record_type() -> RecordType {
        RecordType::Scalar
    }

    open spec fn spec_allow_equal_timestamps() -> bool {
        false
    }

    open spec fn spec_encode(&self) -> Seq<u8> {
        i64_le(self.ts) + i64_le(self.value)
    }

    open spec fn spec_decode(bytes: Seq<u8>) -> Self {
        ScalarRecord {
            ts: i64_at(bytes, 0),
            value: i64_at(bytes, 8),
        }
    }

    fn ts(&self) -> i64 {
        self.ts
    }

    fn byte_size() -> usize {
        16
    }

    fn schema_id() -> u32 {
        SCALAR_SCHEMA_ID
    }

    fn record_type() -> RecordType {
        RecordType::Scalar
    }

    fn allow_equal_timestamps() -> bool {
        false
    }

    fn encode_le(&self, out: &mut Vec<u8>) {
        let ghost start = out@;
        push_i64(out, self.ts);
        push_i64(out, self.value);
        assert(out@ =~= start + self.spec_encode());
    }

    fn decode_le(bytes: &[u8]) -> Result<Self> {
        if bytes.len() != 16 {
            return Err(invalid_data("unexpected record byte length"));
        }
        Ok(Self::decode_fields(bytes))
    }

    proof fn lemma_roundtrip(&self) {
        lemma_le_lengths(0, self.ts, 0, 0);
        lemma_le_lengths(0, self.value, 0, 0);
        let e = self.spec_encode();
        assert(e.subrange(0, 8) =~= i64_le(self.ts));
        lemma_i64_at(e, 0, self.ts);
        assert(e.subrange(8, 16) =~= i64_le(self.value));
        lemma_i64_at(e, 8, self.value);
    }
}

impl BboRecord {
    pub const BYTE_SIZE: usize = 56;

    /// Encodes the record into its fixed-width little-endian bytes.
    pub fn to_le_bytes(&self) -> (r: [u8; 56])
        ensures
            r@ == self.spec_encode(),
    {
        let mut out: Vec<u8> = Vec::new();
        self.encode_le(&mut out);
        proof { self.lemma_roundtrip(); }
        to_array::<56>(out.as_slice())
    }

    /// Decodes a record from its fixed-width little-endian bytes.
    pub fn from_le_bytes(bytes: [u8; 56]) -> (r: Self)
        ensures
            r == Self::spec_decode(bytes@),
    {
        Self::decode_fields(bytes.as_slice())
    }

    fn decode_fields(bytes: &[u8]) -> (r: Self)
        requires
            bytes@.len() == 56,
        ensures
            r == Self::spec_decode(bytes@),
    {
        BboRecord {
            ts: read_i64_at(bytes, 0),
            recv_ts: read_i64_at(bytes, 8),
            bid_price: read_i64_at(bytes, 16),
            bid_qty: read_i64_at(bytes, 24),
            ask_price: read_i64_at(bytes, 32),
            ask_qty: read_i64_at(bytes, 40),
            sequence: read_i64_at(bytes, 48),
        }
    }

    /// Checks that `records` is non-empty and ordered by timestamp.
    pub fn validate_strict_order(records: &[Self]) -> (r: Result<()>)
        ensures
            r is Ok <==> (records@.len() > 0 && ts_ordered(records@)),
            r is Err ==> r matches Err(FastKError::InvalidInput(_)),
    {
        validate_strict_order(records)
    }
}

impl FixedRecord for BboRecord {
    open spec fn spec_ts(&self) -> i64 {
        self.ts
    }

    open spec fn spec_byte_size() -> nat {
        56
    }

    open spec fn spec_schema_id() -> u32 {
        BBO_SCHEMA_ID
    }

    open spec fn spec_record_type() -> RecordType {
        RecordType::Bbo
    }

    open spec fn spec_allow_equal_timestamps() -> bool {
        false
    }

    open spec fn spec_encode(&self) -> Seq<u8> {
        i64_le(self.ts) + i64_le(self.recv_ts) + i64_le(self.bid_price) + i64_le(self.bid_qty) + i64_le(self.ask_price) + i64_le(self.ask_qty) + i64_le(self.sequence)
    }

    open spec fn spec_decode(bytes: Seq<u8>) -> Self {
        BboRecord {
            ts: i64_at(bytes, 0),
            recv_ts: i64_at(bytes, 8),
            bid_price: i64_at(bytes, 16),
            bid_qty: i64_at(bytes, 24),
            ask_price: i64_at(bytes, 32),
            ask_qty: i64_at(bytes, 40),
            sequence: i64_at(bytes, 48),
        }
    }

    fn ts(&self) -> i64 {
        self.ts
    }

    fn byte_size() -> usize {
        56
    }

    fn schema_id() -> u32 {
        BBO_SCHEMA_ID
    }

    fn record_type() -> RecordType {
        RecordType::Bbo
    }

    fn allow_equal_timestamps() -> bool {
        false
    }

    fn encode_le(&self, out: &mut Vec<u8>) {
        let ghost start = out@;
        push_i64(out, self.ts);
        push_i64(out, self.recv_ts);
        push_i64(out, self.bid_price);
        push_i64(out, self.bid_qty);
        push_i64(out, self.ask_price);
        push_i64(out, self.ask_qty);
        push_i64(out, self.sequence);
        assert(out@ =~= start + self.spec_encode());
    }

    fn decode_le(bytes: &[u8]) -> Result<Self> {
        if bytes.len() != 56 {
            return Err(invalid_data("unexpected record byte length"));
        }
        Ok(Self::decode_fields(bytes))
    }

    proof fn lemma_roundtrip(&self) {
        lemma_le_lengths(0, self.ts, 0, 0);
        lemma_le_lengths(0, self.recv_ts, 0, 0);
        lemma_le_lengths(0, self.bid_price, 0, 0);
        lemma_le_lengths(0, self.bid_qty, 0, 0);
        lemma_le_lengths(0, self.ask_price, 0, 0);
        lemma_le_lengths(0, self.ask_qty, 0, 0);
        lemma_le_lengths(0, self.sequence, 0, 0);
        let e = self.spec_encode();
        assert(e.subrange(0, 8) =~= i64_le(self.ts));
        lemma_i64_at(e, 0, self.ts);
        assert(e.subrange(8, 16) =~= i64_le(self.recv_ts));
        lemma_i64_at(e, 8, self.recv_ts);
        assert(e.subrange(16, 24) =~= i64_le(self.bid_price));
        lemma_i64_at(e, 16, self.bid_price);
        assert(e.subrange(24, 32) =~= i64_le(self.bid_qty));
        lemma_i64_at(e, 24, self.bid_qty);
        assert(e.subrange(32, 40) =~= i64_le(self.ask_price));
        lemma_i64_at(e, 32, self.ask_price);
        assert(e.subrange(40, 48) =~= i64_le(self.ask_qty));
        lemma_i64_at(e, 40, self.ask_qty);
        assert(e.subrange(48, 56) =~= i64_le(self.sequence));
        lemma_i64_at(e, 48, self.sequence);
    }
}

} // verus!

verus! {

impl TradeRecord {
    pub const BYTE_SIZE: usize = 48;

    /// Encodes the record; the six trailing padding bytes are written as zero.
    pub fn to_le_bytes(&self) -> (r: [u8; 48])
        ensures
            r@ == self.spec_encode(),
    {
        let mut out: Vec<u8> = Vec::new();
        self.encode_le(&mut out);
        proof { self.lemma_roundtrip(); }
        to_array::<48>(out.as_slice())
    }

    /// Decodes a record; the padding bytes are ignored.
    pub fn from_le_bytes(bytes: [u8; 48]) -> (r: Self)
        ensures
            r == Self::spec_decode(bytes@),
    {
        Self::decode_fields(bytes.as_slice())
    }

    fn decode_fields(bytes: &[u8]) -> (r: Self)
        requires
            bytes@.len() == 48,
        ensures
            r == Self::spec_decode(bytes@),
    {
        TradeRecord {
            ts: read_i64_at(bytes, 0),
            recv_ts: read_i64_at(bytes, 8),
            trade_id: read_i64_at(bytes, 16),
            price: read_i64_at(bytes, 24),
            qty: read_i64_at(bytes, 32),
            side: bytes[40] as i8,
            flags: bytes[41],
        }
    }

    /// Checks that `records` is non-empty and ordered by timestamp.
    pub fn validate_strict_order(records: &[Self]) -> (r: Result<()>)
        ensures
            r is Ok <==> (records@.len() > 0 && ts_ordered(records@)),
            r is Err ==> r matches Err(FastKError::InvalidInput(_)),
    {
        validate_strict_order(records)
    }
}

impl FixedRecord for TradeRecord {
    open spec fn spec_ts(&self) -> i64 {
        self.ts
    }

    open spec fn spec_byte_size() -> nat {
        48
    }

    open spec fn spec_schema_id() -> u32 {
        TRADE_SCHEMA_ID
    }

    open spec fn spec_record_type() -> RecordType {
        RecordType::Trade
    }

    open spec fn spec_allow_equal_timestamps() -> bool {
        true
    }

    open spec fn spec_encode(&self) -> Seq<u8> {
        i64_le(self.ts) + i64_le(self.recv_ts) + i64_le(self.trade_id) + i64_le(self.price)
            + i64_le(self.qty) + seq![self.side as u8, self.flags] + Seq::new(6, |i: int| 0u8)
    }

    open spec fn spec_decode(bytes: Seq<u8>) -> Self {
        TradeRecord {
            ts: i64_at(bytes, 0),
            recv_ts: i64_at(bytes, 8),
            trade_id: i64_at(bytes, 16),
            price: i64_at(bytes, 24),
            qty: i64_at(bytes, 32),
            side: bytes[40] as i8,
            flags: bytes[41],
        }
    }

    fn ts(&self) -> i64 {
        self.ts
    }

    fn byte_size() -> usize {
        48
    }

    fn schema_id() -> u32 {
        TRADE_SCHEMA_ID
    }

    fn record_type() -> RecordType {
        RecordType::Trade
    }

    fn allow_equal_timestamps() -> bool {
        true
    }

    fn encode_le(&self, out: &mut Vec<u8>) {
        let ghost start = out@;
        push_i64(out, self.ts);
        push_i64(out, self.recv_ts);
        push_i64(out, self.trade_id);
        push_i64(out, self.price);
        push_i64(out, self.qty);
        out.push(self.side as u8);
        out.push(self.flags);
        let mut i: usize = 0;
        let ghost mid = out@;
        while i < 6
            invariant
                i <= 6,
                out@ == mid + Seq::new(i as nat, |j: int| 0u8),
            decreases 6 - i,
        {
            out.push(0u8);
            i = i + 1;
            assert(out@ =~= mid + Seq::new(i as nat, |j: int| 0u8));
        }
        assert(out@ =~= start + self.spec_encode());
    }

    fn decode_le(bytes: &[u8]) -> Result<Self> {
        if bytes.len() != 48 {
            return Err(invalid_data("unexpected trade record byte length"));
        }
        Ok(Self::decode_fields(bytes))
    }

    proof fn lemma_roundtrip(&self) {
        lemma_le_lengths(0, self.ts, 0, 0);
        lemma_le_lengths(0, self.recv_ts, 0, 0);
        lemma_le_lengths(0, self.trade_id, 0, 0);
        lemma_le_lengths(0, self.price, 0, 0);
        lemma_le_lengths(0, self.qty, 0, 0);
        let e = self.spec_encode();
        assert(e.subrange(0, 8) =~= i64_le(self.ts));
        lemma_i64_at(e, 0, self.ts);
        assert(e.subrange(8, 16) =~= i64_le(self.recv_ts));
        lemma_i64_at(e, 8, self.recv_ts);
        assert(e.subrange(16, 24) =~= i64_le(self.trade_id));
        lemma_i64_at(e, 16, self.trade_id);
        assert(e.subrange(24, 32) =~= i64_le(self.price));
        lemma_i64_at(e, 24, self.price);
        assert(e.subrange(32, 40) =~= i64_le(self.qty));
        lemma_i64_at(e, 32, self.qty);
        assert(e[40] == self.side as u8);
        assert(e[41] == self.flags);
        lemma_i8_u8_roundtrip(self.side);
    }
}

impl BookDeltaRecord {
    pub const BYTE_SIZE: usize = 48;

    /// Encodes the record into its fixed-width little-endian bytes.
    pub fn to_le_bytes(&self) -> (r: [u8; 48])
        ensures
            r@ == self.spec_encode(),
    {
        let mut out: Vec<u8> = Vec::new();
        self.encode_le(&mut out);
        proof { self.lemma_roundtrip(); }
        to_array::<48>(out.as_slice())
    }

    /// Decodes a record from its fixed-width little-endian bytes.
    pub fn from_le_bytes(bytes: [u8; 48]) -> (r: Self)
        ensures
            r == Self::spec_decode(bytes@),
    {
        Self::decode_fields(bytes.as_slice())
    }

    fn decode_fields(bytes: &[u8]) -> (r: Self)
        requires
            bytes@.len() == 48,
        ensures
            r == Self::spec_decode(bytes@),
    {
        BookDeltaRecord {
            ts: read_i64_at(bytes, 0),
            recv_ts: read_i64_at(bytes, 8),
            sequence: read_i64_at(bytes, 16),
            price: read_i64_at(bytes, 24),
            qty: read_i64_at(bytes, 32),
            side: bytes[40] as i8,
            action: bytes[41] as i8,
            level: read_u16_at(bytes, 42) as i16,
            flags: read_u32_at(bytes, 44),
        }
    }

    /// Checks that `records` is non-empty and ordered by timestamp (equal stamps allowed).
    pub fn validate_strict_order(records: &[Self]) -> (r: Result<()>)
        ensures
            r is Ok <==> (records@.len() > 0 && ts_ordered(records@)),
            r is Err ==> r matches Err(FastKError::InvalidInput(_)),
    {
        validate_strict_order(records)
    }
}

impl FixedRecord for BookDeltaRecord {
    open spec fn spec_ts(&self) -> i64 {
        self.ts
    }

    open spec fn spec_byte_size() -> nat {
        48
    }

    open spec fn spec_schema_id() -> u32 {
        BOOK_DELTA_SCHEMA_ID
    }

    open spec fn spec_record_type() -> RecordType {
        RecordType::BookDelta
    }

    open spec fn spec_allow_equal_timestamps() -> bool {
        true
    }

    open spec fn spec_encode(&self) -> Seq<u8> {
        i64_le(self.ts) + i64_le(self.recv_ts) + i64_le(self.sequence) + i64_le(self.price)
            + i64_le(self.qty) + seq![self.side as u8, self.action as u8] + spec_u16_to_le_bytes(
            self.level as u16,
        ) + spec_u32_to_le_bytes(self.flags)
    }

    open spec fn spec_decode(bytes: Seq<u8>) -> Self {
        BookDeltaRecord {
            ts: i64_at(bytes, 0),
            recv_ts: i64_at(bytes, 8),
            sequence: i64_at(bytes, 16),
            price: i64_at(bytes, 24),
            qty: i64_at(bytes, 32),
            side: bytes[40] as i8,
            action: bytes[41] as i8,
            level: u16_at(bytes, 42) as i16,
            flags: u32_at(bytes, 44),
        }
    }

    fn ts(&self) -> i64 {
        self.ts
    }

    fn byte_size() -> usize {
        48
    }

    fn schema_id() -> u32 {
        BOOK_DELTA_SCHEMA_ID
    }

    fn record_type() -> RecordType {
        RecordType::BookDelta
    }

    fn allow_equal_timestamps() -> bool {
        true
    }

    fn encode_le(&self, out: &mut Vec<u8>) {
        let ghost start = out@;
        push_i64(out, self.ts);
        push_i64(out, self.recv_ts);
        push_i64(out, self.sequence);
        push_i64(out, self.price);
        push_i64(out, self.qty);
        out.push(self.side as u8);
        out.push(self.action as u8);
        push_u16(out, self.level as u16);
        push_u32(out, self.flags);
        assert(out@ =~= start + self.spec_encode());
    }

    fn decode_le(bytes: &[u8]) -> Result<Self> {
        if bytes.len() != 48 {
            return Err(invalid_data("unexpected book delta record byte length"));
        }
        Ok(Self::decode_fields(bytes))
    }

    proof fn lemma_roundtrip(&self) {
        lemma_le_lengths(0, self.ts, 0, 0);
        lemma_le_lengths(0, self.recv_ts, 0, 0);
        lemma_le_lengths(0, self.sequence, 0, 0);
        lemma_le_lengths(0, self.price, 0, 0);
        lemma_le_lengths(0, self.qty, self.flags, self.level as u16);
        let e = self.spec_encode();
        assert(e.subrange(0, 8) =~= i64_le(self.ts));
        lemma_i64_at(e, 0, self.ts);
        assert(e.subrange(8, 16) =~= i64_le(self.recv_ts));
        lemma_i64_at(e, 8, self.recv_ts);
        assert(e.subrange(16, 24) =~= i64_le(self.sequence));
        lemma_i64_at(e, 16, self.sequence);
        assert(e.subrange(24, 32) =~= i64_le(self.price));
        lemma_i64_at(e, 24, self.price);
        assert(e.subrange(32, 40) =~= i64_le(self.qty));
        lemma_i64_at(e, 32, self.qty);
        assert(e[40] == self.side as u8);
        assert(e[41] == self.action as u8);
        assert(e.subrange(42, 44) =~= spec_u16_to_le_bytes(self.level as u16));
        lemma_u16_at(e, 42, self.level as u16);
        assert(e.subrange(44, 48) =~= spec_u32_to_le_bytes(self.flags));
        lemma_u32_at(e, 44, self.flags);
        lemma_i8_u8_roundtrip(self.side);
        lemma_i8_u8_roundtrip(self.action);
        lemma_i16_u16_roundtrip(self.level);
    }
}

} // verus!
