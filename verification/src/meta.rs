//! Series and chunk metadata: the manifest's in-memory model.
use vstd::prelude::*;
use crate::error::{FastKError, Result, invalid_data};
use crate::text::{is_blank, is_blank_chars, str_eq};

verus! {

/// Logical record family carried by a series.
#[derive(Debug, Clone, Copy, PartialEq, Eq, Structural)]
pub enum RecordType {
    Kline,
    Scalar,
    Trade,
    Bbo,
    BookDelta,
}

impl RecordType {
    /// The numeric code persisted for each record family.
    pub open spec fn code(self) -> u32 {
        match self {
            RecordType::Kline => 1,
            RecordType::Scalar => 2,
            RecordType::Trade => 10,
            RecordType::Bbo => 11,
            RecordType::BookDelta => 12,
        }
    }

    /// The record family persisted under `value`, if any.
    pub open spec fn from_code(value: u32) -> Option<RecordType> {
        if value == 1 {
            Some(RecordType::Kline)
        } else if value == 2 {
            Some(RecordType::Scalar)
        } else if value == 10 {
            Some(RecordType::Trade)
        } else if value == 11 {
            Some(RecordType::Bbo)
        } else if value == 12 {
            Some(RecordType::BookDelta)
        } else {
            None
        }
    }

    /// Decodes a persisted record-family code.
    pub fn from_u32(value: u32) -> (r: Result<Self>)
        ensures
            r is Ok <==> Self::from_code(value) is Some,
            r matches Ok(t) ==> Self::from_code(value) == Some(t),
            r is Err ==> r matches Err(FastKError::InvalidData(_)),
    {
        match value {
            1 => Ok(RecordType::Kline),
            2 => Ok(RecordType::Scalar),
            10 => Ok(RecordType::Trade),
            11 => Ok(RecordType::Bbo),
            12 => Ok(RecordType::BookDelta),
            _ => Err(invalid_data("unsupported record type")),
        }
    }

    /// The persisted record-family code.
    pub fn as_u32(self) -> (r: u32)
        ensures
            r == self.code(),
    {
        match self {
            RecordType::Kline => 1,
            RecordType::Scalar => 2,
            RecordType::Trade => 10,
            RecordType::Bbo => 11,
            RecordType::BookDelta => 12,
        }
    }
}

/// Every record family's code decodes back to the same family.
pub proof fn record_type_code_roundtrip(t: RecordType)
    ensures
        RecordType::from_code(t.code()) == Some(t),
{
}

/// Logical partition unit used to derive chunk keys.
#[derive(Debug, Clone, Copy, PartialEq, Eq, Structural)]
pub enum PartitionUnit {
    Month,
    Day,
    Hour,
    Rows,
    Bytes,
}

impl PartitionUnit {
    /// The persisted name of each unit.
    pub open spec fn name(self) -> Seq<char> {
        match self {
            PartitionUnit::Month => seq!['m', 'o', 'n', 't', 'h'],
            PartitionUnit::Day => seq!['d', 'a', 'y'],
            PartitionUnit::Hour => seq!['h', 'o', 'u', 'r'],
            PartitionUnit::Rows => seq!['r', 'o', 'w', 's'],
            PartitionUnit::Bytes => seq!['b', 'y', 't', 'e', 's'],
        }
    }

    /// The unit persisted under `s`, if any.
    pub open spec fn from_name(s: Seq<char>) -> Option<PartitionUnit> {
        if s == PartitionUnit::Month.name() {
            Some(PartitionUnit::Month)
        } else if s == PartitionUnit::Day.name() {
            Some(PartitionUnit::Day)
        } else if s == PartitionUnit::Hour.name() {
            Some(PartitionUnit::Hour)
        } else if s == PartitionUnit::Rows.name() {
            Some(PartitionUnit::Rows)
        } else if s == PartitionUnit::Bytes.name() {
            Some(PartitionUnit::Bytes)
        } else {
            None
        }
    }

    pub open spec fn time_based(self) -> bool {
        self is Month || self is Day || self is Hour
    }

    /// The persisted name of this unit.
    pub fn as_str(self) -> (r: &'static str)
        ensures
            r@ == self.name(),
    {
        match self {
            PartitionUnit::Month => {
                proof { reveal_strlit("month"); }
                "month"
            },
            PartitionUnit::Day => {
                proof { reveal_strlit("day"); }
                "day"
            },
            PartitionUnit::Hour => {
                proof { reveal_strlit("hour"); }
                "hour"
            },
            PartitionUnit::Rows => {
                proof { reveal_strlit("rows"); }
                "rows"
            },
            PartitionUnit::Bytes => {
                proof { reveal_strlit("bytes"); }
                "bytes"
            },
        }
    }

    /// Parses a persisted unit name.
    pub fn from_str(value: &str) -> (r: Result<Self>)
        ensures
            r is Ok <==> Self::from_name(value@) is Some,
            r matches Ok(u) ==> Self::from_name(value@) == Some(u),
            r is Err ==> r matches Err(FastKError::InvalidData(_)),
    {
        if str_eq(value, PartitionUnit::Month.as_str()) {
            Ok(PartitionUnit::Month)
        } else if str_eq(value, PartitionUnit::Day.as_str()) {
            Ok(PartitionUnit::Day)
        } else if str_eq(value, PartitionUnit::Hour.as_str()) {
            Ok(PartitionUnit::Hour)
        } else if str_eq(value, PartitionUnit::Rows.as_str()) {
            Ok(PartitionUnit::Rows)
        } else if str_eq(value, PartitionUnit::Bytes.as_str()) {
            Ok(PartitionUnit::Bytes)
        } else {
            Err(invalid_data("unsupported partition unit"))
        }
    }

    /// Whether keys of this unit are derived from timestamps.
    pub fn is_time_based(self) -> (r: bool)
        ensures
            r == self.time_based(),
    {
        match self {
            PartitionUnit::Month | PartitionUnit::Day | PartitionUnit::Hour => true,
            _ => false,
        }
    }
}

/// Every unit's name parses back to the same unit.
pub proof fn partition_unit_name_roundtrip(u: PartitionUnit)
    ensures
        PartitionUnit::from_name(u.name()) == Some(u),
{
    assert(PartitionUnit::Month.name() != PartitionUnit::Day.name());
    assert(PartitionUnit::Month.name()[0] != PartitionUnit::Hour.name()[0]);
    assert(PartitionUnit::Month.name()[0] != PartitionUnit::Rows.name()[0]);
    assert(PartitionUnit::Month.name()[0] != PartitionUnit::Bytes.name()[0]);
    assert(PartitionUnit::Day.name()[0] != PartitionUnit::Hour.name()[0]);
    assert(PartitionUnit::Day.name()[0] != PartitionUnit::Rows.name()[0]);
    assert(PartitionUnit::Day.name()[0] != PartitionUnit::Bytes.name()[0]);
    assert(PartitionUnit::Hour.name()[0] != PartitionUnit::Rows.name()[0]);
    assert(PartitionUnit::Hour.name()[0] != PartitionUnit::Bytes.name()[0]);
    assert(PartitionUnit::Rows.name()[0] != PartitionUnit::Bytes.name()[0]);
}

/// Chunk partition policy for a series.
#[derive(Debug, Clone, PartialEq, Eq)]
pub struct PartitionPolicy {
    pub unit: PartitionUnit,
    pub max_rows: Option<u64>,
    pub max_bytes: Option<u64>,
    pub max_duration_ms: Option<i64>,
}

impl PartitionPolicy {
    /// Monthly partitions.
    pub fn month() -> (r: Self)
        ensures
            r == Self::plain(PartitionUnit::Month),
    {
        Self::new(PartitionUnit::Month)
    }

    /// Daily partitions.
    pub fn day() -> (r: Self)
        ensures
            r == Self::plain(PartitionUnit::Day),
    {
        Self::new(PartitionUnit::Day)
    }

    /// Hourly partitions.
    pub fn hour() -> (r: Self)
        ensures
            r == Self::plain(PartitionUnit::Hour),
    {
        Self::new(PartitionUnit::Hour)
    }

    pub open spec fn plain(unit: PartitionUnit) -> Self {
        PartitionPolicy { unit, max_rows: None, max_bytes: None, max_duration_ms: None }
    }

    /// A policy for `unit` with no row, byte or duration limits.
    pub fn new(unit: PartitionUnit) -> (r: Self)
        ensures
            r == Self::plain(unit),
    {
        Self { unit, max_rows: None, max_bytes: None, max_duration_ms: None }
    }
}

/// Lifecycle state for a chunk entry.
#[derive(Debug, Clone, Copy, PartialEq, Eq, Structural)]
pub enum ChunkState {
    Active,
    Sealed,
    Merging,
    Replaced,
}

impl ChunkState {
    pub open spec fn code(self) -> u8 {
        match self {
            ChunkState::Active => 1,
            ChunkState::Sealed => 2,
            ChunkState::Merging => 3,
            ChunkState::Replaced => 4,
        }
    }

    pub open spec fn from_code(value: u8) -> Option<ChunkState> {
        if value == 1 {
            Some(ChunkState::Active)
        } else if value == 2 {
            Some(ChunkState::Sealed)
        } else if value == 3 {
            Some(ChunkState::Merging)
        } else if value == 4 {
            Some(ChunkState::Replaced)
        } else {
            None
        }
    }

    pub open spec fn readable(self) -> bool {
        !(self is Replaced)
    }

    /// Decodes a persisted chunk state.
    pub fn from_u8(value: u8) -> (r: Result<Self>)
        ensures
            r is Ok <==> Self::from_code(value) is Some,
            r matches Ok(s) ==> Self::from_code(value) == Some(s),
            r is Err ==> r matches Err(FastKError::InvalidData(_)),
    {
        match value {
            1 => Ok(ChunkState::Active),
            2 => Ok(ChunkState::Sealed),
            3 => Ok(ChunkState::Merging),
            4 => Ok(ChunkState::Replaced),
            _ => Err(invalid_data("unsupported chunk state")),
        }
    }

    /// The persisted chunk-state code.
    pub fn as_u8(self) -> (r: u8)
        ensures
            r == self.code(),
    {
        match self {
            ChunkState::Active => 1,
            ChunkState::Sealed => 2,
            ChunkState::Merging => 3,
            ChunkState::Replaced => 4,
        }
    }

    /// Whether rows of a chunk in this state are served to readers.
    pub fn is_readable(self) -> (r: bool)
        ensures
            r == self.readable(),
    {
        match self {
            ChunkState::Replaced => false,
            _ => true,
        }
    }
}

/// Every chunk state's code decodes back to the same state.
pub proof fn chunk_state_code_roundtrip(s: ChunkState)
    ensures
        ChunkState::from_code(s.code()) == Some(s),
{
}

/// Sidecar metadata attached to a chunk.
#[derive(Debug, Clone, PartialEq, Eq)]
pub struct SidecarMeta {
    pub kind: String,
    pub relative_path: String,
    pub generation: u32,
    pub checksum: u64,
    pub block_size: u32,
    pub record_count: u64,
}

/// Abstract value of a sidecar entry, with its strings as characters.
pub struct SidecarView {
    pub kind: Seq<char>,
    pub relative_path: Seq<char>,
    pub generation: u32,
    pub checksum: u64,
    pub block_size: u32,
    pub record_count: u64,
}

impl View for SidecarMeta {
    type V = SidecarView;

    open spec fn view(&self) -> SidecarView {
        SidecarView {
            kind: self.kind@,
            relative_path: self.relative_path@,
            generation: self.generation,
            checksum: self.checksum,
            block_size: self.block_size,
            record_count: self.record_count,
        }
    }
}

/// Per-chunk metadata stored inside the series manifest.
#[derive(Debug, Clone, PartialEq, Eq)]
pub struct ChunkMeta {
    pub chunk_id: u64,
    pub month_key: String,
    pub start_ts: i64,
    pub end_ts: i64,
    pub count: u64,
    pub state: ChunkState,
    pub layout_version: u32,
    pub header_len: u32,
    pub sparse_index_every: u32,
    pub sparse_index_offset: u64,
    pub sparse_index_len: u32,
    pub chunk_checksum: u64,
    pub generation: u32,
    pub relative_path: String,
    pub sidecars: Vec<SidecarMeta>,
}

/// Abstract value of a chunk entry, with its strings as characters.
pub struct ChunkView {
    pub chunk_id: u64,
    pub month_key: Seq<char>,
    pub start_ts: i64,
    pub end_ts: i64,
    pub count: u64,
    pub state: ChunkState,
    pub layout_version: u32,
    pub header_len: u32,
    pub sparse_index_every: u32,
    pub sparse_index_offset: u64,
    pub sparse_index_len: u32,
    pub chunk_checksum: u64,
    pub generation: u32,
    pub relative_path: Seq<char>,
    pub sidecars: Seq<SidecarView>,
}

/// The views of a list of sidecars.
pub open spec fn sidecar_views(s: Seq<SidecarMeta>) -> Seq<SidecarView> {
    s.map_values(|x: SidecarMeta| x@)
}

impl View for ChunkMeta {
    type V = ChunkView;

    open spec fn view(&self) -> ChunkView {
        ChunkView {
            chunk_id: self.chunk_id,
            month_key: self.month_key@,
            start_ts: self.start_ts,
            end_ts: self.end_ts,
            count: self.count,
            state: self.state,
            layout_version: self.layout_version,
            header_len: self.header_len,
            sparse_index_every: self.sparse_index_every,
            sparse_index_offset: self.sparse_index_offset,
            sparse_index_len: self.sparse_index_len,
            chunk_checksum: self.chunk_checksum,
            generation: self.generation,
            relative_path: self.relative_path@,
            sidecars: sidecar_views(self.sidecars@),
        }
    }
}

impl ChunkMeta {
    /// The conditions `validate` checks.
    pub open spec fn valid(&self) -> bool {
        &&& !(self.count > 0 && self.start_ts > self.end_ts)
        &&& !is_blank_chars(self.relative_path@)
        &&& self.sparse_index_every != 0
    }

    /// Checks the timestamp span, the path and the sparse-index frequency.
    pub fn validate(&self) -> (r: Result<()>)
        ensures
            r is Ok <==> self.valid(),
            r is Err ==> r matches Err(FastKError::InvalidData(_)),
    {
        if self.count > 0 && self.start_ts > self.end_ts {
            return Err(invalid_data("chunk has start_ts after end_ts"));
        }
        if is_blank(self.relative_path.as_str()) {
            return Err(invalid_data("chunk relative_path must not be empty"));
        }
        if self.sparse_index_every == 0 {
            return Err(invalid_data("chunk has sparse_index_every=0"));
        }
        Ok(())
    }
}

/// Each chunk starts after the previous one ends.
pub open spec fn chunks_ordered(chunks: Seq<ChunkMeta>) -> bool {
    forall|k: int| 1 <= k < chunks.len() ==> chunks[k - 1].end_ts < #[trigger] chunks[k].start_ts
}

/// Chunk start and end timestamps never decrease along the list.
pub open spec fn chunk_bounds_sorted(chunks: Seq<ChunkMeta>) -> bool {
    forall|i: int, j: int|
        0 <= i <= j < chunks.len() ==> chunks[i].start_ts <= chunks[j].start_ts
            && chunks[i].end_ts <= chunks[j].end_ts
}

/// Every chunk ends before any later chunk starts.
pub open spec fn chunks_disjoint(chunks: Seq<ChunkMeta>) -> bool {
    forall|i: int, j: int| 0 <= i < j < chunks.len() ==> chunks[i].end_ts < chunks[j].start_ts
}

/// `ts` lies within the chunk's timestamp span.
pub open spec fn chunk_covers(c: ChunkMeta, ts: i64) -> bool {
    c.start_ts <= ts <= c.end_ts
}

/// Chunk start timestamps never decrease along the list.
pub open spec fn chunk_starts_sorted(chunks: Seq<ChunkMeta>) -> bool {
    forall|i: int, j: int| 0 <= i <= j < chunks.len() ==> chunks[i].start_ts <= chunks[j].start_ts
}

/// Series-level metadata cached at runtime and persisted via a binary manifest.
#[derive(Debug, Clone, PartialEq, Eq)]
pub struct SeriesMeta {
    pub symbol: String,
    pub category: String,
    pub name: String,
    pub timeframe_ms: i64,
    pub record_type: RecordType,
    pub record_size: u32,
    pub schema_id: u32,
    pub price_scale: i64,
    pub volume_scale: i64,
    pub chunk_unit: String,
    pub series_id: u64,
    pub manifest_seq: u64,
    pub created_at: i64,
    pub updated_at: i64,
    pub flags: u32,
    pub active_chunk_id: Option<u64>,
    pub chunks: Vec<ChunkMeta>,
}

/// Abstract value of a series manifest, with its strings as characters.
pub struct SeriesView {
    pub symbol: Seq<char>,
    pub category: Seq<char>,
    pub name: Seq<char>,
    pub timeframe_ms: i64,
    pub record_type: RecordType,
    pub record_size: u32,
    pub schema_id: u32,
    pub price_scale: i64,
    pub volume_scale: i64,
    pub chunk_unit: Seq<char>,
    pub series_id: u64,
    pub manifest_seq: u64,
    pub created_at: i64,
    pub updated_at: i64,
    pub flags: u32,
    pub active_chunk_id: Option<u64>,
    pub chunks: Seq<ChunkView>,
}

/// The views of a list of chunks.
pub open spec fn chunk_views(s: Seq<ChunkMeta>) -> Seq<ChunkView> {
    s.map_values(|x: ChunkMeta| x@)
}

impl View for SeriesMeta {
    type V = SeriesView;

    open spec fn view(&self) -> SeriesView {
        SeriesView {
            symbol: self.symbol@,
            category: self.category@,
            name: self.name@,
            timeframe_ms: self.timeframe_ms,
            record_type: self.record_type,
            record_size: self.record_size,
            schema_id: self.schema_id,
            price_scale: self.price_scale,
            volume_scale: self.volume_scale,
            chunk_unit: self.chunk_unit@,
            series_id: self.series_id,
            manifest_seq: self.manifest_seq,
            created_at: self.created_at,
            updated_at: self.updated_at,
            flags: self.flags,
            active_chunk_id: self.active_chunk_id,
            chunks: chunk_views(self.chunks@),
        }
    }
}

impl SeriesMeta {
    /// The conditions `validate` checks.
    pub open spec fn valid(&self) -> bool {
        &&& !is_blank_chars(self.symbol@)
        &&& !is_blank_chars(self.category@)
        &&& !is_blank_chars(self.name@)
        &&& self.record_size > 0
        &&& PartitionUnit::from_name(self.chunk_unit@) matches Some(u) && u.time_based()
        &&& forall|i: int| 0 <= i < self.chunks@.len() ==> #[trigger] self.chunks@[i].valid()
        &&& chunks_ordered(self.chunks@)
    }

    /// Checks identity fields, record size, partition unit and chunk ordering.
    pub fn validate(&self) -> (r: Result<()>)
        ensures
            r is Ok <==> self.valid(),
            r is Err ==> r matches Err(FastKError::InvalidData(_)),
    {
        if is_blank(self.symbol.as_str()) || is_blank(self.category.as_str()) || is_blank(
            self.name.as_str(),
        ) {
            return Err(invalid_data("series identity fields must not be empty"));
        }
        if self.record_size == 0 {
            return Err(invalid_data("record_size must be greater than zero"));
        }
        let partition_unit = PartitionUnit::from_str(self.chunk_unit.as_str())?;
        if !partition_unit.is_time_based() {
            return Err(invalid_data("partition unit is declared but not implemented yet"));
        }
        let mut k: usize = 0;
        while k < self.chunks.len()
            invariant
                k <= self.chunks@.len(),
                forall|i: int| 0 <= i < k ==> #[trigger] self.chunks@[i].valid(),
                chunks_ordered(self.chunks@.subrange(0, k as int)),
            decreases self.chunks@.len() - k,
        {
            self.chunks[k].validate()?;
            if k > 0 && self.chunks[k].start_ts <= self.chunks[k - 1].end_ts {
                assert(!chunks_ordered(self.chunks@)) by {
                    assert(self.chunks@[k as int - 1].end_ts >= self.chunks@[k as int].start_ts);
                }
                return Err(invalid_data("series has overlapping or unsorted chunks"));
            }
            k = k + 1;
            assert(chunks_ordered(self.chunks@.subrange(0, k as int))) by {
                assert forall|j: int| 1 <= j < k implies self.chunks@.subrange(0, k as int)[j
                    - 1].end_ts < #[trigger] self.chunks@.subrange(0, k as int)[j].start_ts by {
                    if j < k - 1 {
                        assert(self.chunks@.subrange(0, k - 1)[j] == self.chunks@[j]);
                        assert(self.chunks@.subrange(0, k - 1)[j - 1] == self.chunks@[j - 1]);
                    }
                }
            }
        }
        assert(self.chunks@.subrange(0, k as int) =~= self.chunks@);
        Ok(())
    }
}

} // verus!

verus! {

impl SeriesMeta {
    /// Index of the chunk whose `[start_ts, end_ts]` contains `ts`.
    ///
    /// The search assumes chunks sorted by start; it finds the last chunk starting at or
    /// before `ts` and reports it only when that chunk also covers `ts`.
    pub fn find_chunk_for_ts(&self, ts: i64) -> (r: Option<usize>)
        ensures
            r matches Some(i) ==> i < self.chunks@.len() && self.chunks@[i as int].start_ts <= ts
                <= self.chunks@[i as int].end_ts,
            chunk_starts_sorted(self.chunks@) && chunks_disjoint(self.chunks@) ==> (r is None
                <==> !exists|i: int| 0 <= i < self.chunks@.len() && chunk_covers(self.chunks@[i], ts)),
    {
        if self.chunks.len() == 0 {
            return None;
        }
        let mut left: usize = 0;
        let mut right: usize = self.chunks.len();
        while left < right
            invariant
                left <= right <= self.chunks@.len(),
                chunk_starts_sorted(self.chunks@) ==> forall|i: int|
                    0 <= i < left ==> #[trigger] self.chunks@[i].start_ts <= ts,
                chunk_starts_sorted(self.chunks@) ==> forall|i: int|
                    right <= i < self.chunks@.len() ==> #[trigger] self.chunks@[i].start_ts > ts,
            decreases right - left,
        {
            let mid = left + (right - left) / 2;
            if self.chunks[mid].start_ts <= ts {
                left = mid + 1;
            } else {
                right = mid;
            }
        }
        if left == 0 {
            proof {
                if chunk_starts_sorted(self.chunks@) {
                    assert forall|i: int| 0 <= i < self.chunks@.len() implies !chunk_covers(
                        self.chunks@[i],
                        ts,
                    ) by {
                        assert(self.chunks@[i].start_ts > ts);
                    }
                }
            }
            return None;
        }
        let index = left - 1;
        if self.chunks[index].start_ts <= ts && self.chunks[index].end_ts >= ts {
            Some(index)
        } else {
            proof {
                if chunk_starts_sorted(self.chunks@) && chunks_disjoint(self.chunks@) {
                    assert forall|i: int| 0 <= i < self.chunks@.len() implies !chunk_covers(
                        self.chunks@[i],
                        ts,
                    ) by {
                        if i > index {
                            assert(self.chunks@[i].start_ts > ts);
                        } else if i < index {
                            assert(self.chunks@[i].end_ts < self.chunks@[index as int].start_ts);
                        }
                    }
                }
            }
            None
        }
    }

    /// Number of leading chunks whose `end_ts` is below `ts`, on end-sorted chunks.
    fn first_chunk_with_end_ge(&self, ts: i64) -> (r: usize)
        ensures
            r <= self.chunks@.len(),
            chunk_bounds_sorted(self.chunks@) ==> (forall|i: int|
                0 <= i < r ==> #[trigger] self.chunks@[i].end_ts < ts),
            chunk_bounds_sorted(self.chunks@) ==> (forall|i: int|
                r <= i < self.chunks@.len() ==> #[trigger] self.chunks@[i].end_ts >= ts),
    {
        let mut left: usize = 0;
        let mut right: usize = self.chunks.len();
        while left < right
            invariant
                left <= right <= self.chunks@.len(),
                chunk_bounds_sorted(self.chunks@) ==> forall|i: int|
                    0 <= i < left ==> #[trigger] self.chunks@[i].end_ts < ts,
                chunk_bounds_sorted(self.chunks@) ==> forall|i: int|
                    right <= i < self.chunks@.len() ==> #[trigger] self.chunks@[i].end_ts >= ts,
            decreases right - left,
        {
            let mid = left + (right - left) / 2;
            if self.chunks[mid].end_ts < ts {
                left = mid + 1;
            } else {
                right = mid;
            }
        }
        left
    }

    /// Number of leading chunks whose `start_ts` is at or below `ts`, on start-sorted chunks.
    fn first_chunk_with_start_gt(&self, ts: i64) -> (r: usize)
        ensures
            r <= self.chunks@.len(),
            chunk_bounds_sorted(self.chunks@) ==> (forall|i: int|
                0 <= i < r ==> #[trigger] self.chunks@[i].start_ts <= ts),
            chunk_bounds_sorted(self.chunks@) ==> (forall|i: int|
                r <= i < self.chunks@.len() ==> #[trigger] self.chunks@[i].start_ts > ts),
    {
        let mut left: usize = 0;
        let mut right: usize = self.chunks.len();
        while left < right
            invariant
                left <= right <= self.chunks@.len(),
                chunk_bounds_sorted(self.chunks@) ==> forall|i: int|
                    0 <= i < left ==> #[trigger] self.chunks@[i].start_ts <= ts,
                chunk_bounds_sorted(self.chunks@) ==> forall|i: int|
                    right <= i < self.chunks@.len() ==> #[trigger] self.chunks@[i].start_ts > ts,
            decreases right - left,
        {
            let mid = left + (right - left) / 2;
            if self.chunks[mid].start_ts <= ts {
                left = mid + 1;
            } else {
                right = mid;
            }
        }
        left
    }

    /// Index range of the chunks that overlap `[start_ts, end_ts]`; `0..0` when none does.
    pub fn find_chunks_for_range(&self, start_ts: i64, end_ts: i64) -> (r: core::ops::Range<usize>)
        ensures
            r.start <= r.end <= self.chunks@.len(),
            r.start == r.end ==> r.start == 0,
            chunk_bounds_sorted(self.chunks@) ==> forall|i: int|
                0 <= i < self.chunks@.len() ==> ((r.start <= i < r.end) <==> (start_ts <= end_ts
                    && #[trigger] self.chunks@[i].end_ts >= start_ts && self.chunks@[i].start_ts
                    <= end_ts)),
    {
        if start_ts > end_ts || self.chunks.len() == 0 {
            return 0..0;
        }
        let start_index = self.first_chunk_with_end_ge(start_ts);
        if start_index >= self.chunks.len() {
            return 0..0;
        }
        let end_exclusive = self.first_chunk_with_start_gt(end_ts);
        if start_index >= end_exclusive {
            return 0..0;
        }
        start_index..end_exclusive
    }

    /// Index of the last chunk, if any.
    pub fn latest_chunk_index(&self) -> (r: Option<usize>)
        ensures
            self.chunks@.len() == 0 ==> r is None,
            self.chunks@.len() > 0 ==> r == Some((self.chunks@.len() - 1) as usize),
    {
        self.chunks.len().checked_sub(1)
    }

    /// Indices of the chunks in the given month, in list order.
    pub fn chunk_indices_for_month(&self, month_key: &str) -> (r: Vec<usize>)
        ensures
            indices_with_key(self.chunks@, month_key@, r@),
    {
        self.chunk_indices_for_partition(month_key)
    }

    /// Indices of the chunks whose partition key equals `partition_key`, in list order.
    pub fn chunk_indices_for_partition(&self, partition_key: &str) -> (r: Vec<usize>)
        ensures
            indices_with_key(self.chunks@, partition_key@, r@),
    {
        let mut out: Vec<usize> = Vec::new();
        let mut k: usize = 0;
        while k < self.chunks.len()
            invariant
                k <= self.chunks@.len(),
                forall|a: int, b: int| 0 <= a < b < out@.len() ==> out@[a] < out@[b],
                forall|a: int| 0 <= a < out@.len() ==> #[trigger] out@[a] < k,
                forall|a: int|
                    0 <= a < out@.len() ==> self.chunks@[#[trigger] out@[a] as int].month_key@
                        == partition_key@,
                forall|i: int|
                    0 <= i < k && #[trigger] self.chunks@[i].month_key@ == partition_key@
                        ==> out@.contains(i as usize),
            decreases self.chunks@.len() - k,
        {
            let ghost before = out@;
            if str_eq(self.chunks[k].month_key.as_str(), partition_key) {
                out.push(k);
                assert(out@[out@.len() - 1] == k);
                assert forall|i: int|
                    0 <= i < k + 1 && #[trigger] self.chunks@[i].month_key@ == partition_key@
                        implies out@.contains(i as usize) by {
                    if i < k {
                        let j = choose|j: int| 0 <= j < before.len() && before[j] == i as usize;
                        assert(out@[j] == i as usize);
                    }
                }
            }
            k = k + 1;
        }
        out
    }
}

/// `idx` lists, in increasing order, exactly the chunk indices whose key is `key`.
pub open spec fn indices_with_key(chunks: Seq<ChunkMeta>, key: Seq<char>, idx: Seq<usize>) -> bool {
    &&& forall|a: int, b: int| 0 <= a < b < idx.len() ==> idx[a] < idx[b]
    &&& forall|a: int| 0 <= a < idx.len() ==> #[trigger] idx[a] < chunks.len()
    &&& forall|a: int| 0 <= a < idx.len() ==> chunks[#[trigger] idx[a] as int].month_key@ == key
    &&& forall|i: int|
        0 <= i < chunks.len() && #[trigger] chunks[i].month_key@ == key ==> idx.contains(i as usize)
}

} // verus!

verus! {

impl SidecarMeta {
    /// A copy with the same strings and numbers.
    pub fn duplicate(&self) -> (r: Self)
        ensures
            r@ == self@,
    {
        SidecarMeta {
            kind: crate::text::owned(self.kind.as_str()),
            relative_path: crate::text::owned(self.relative_path.as_str()),
            generation: self.generation,
            checksum: self.checksum,
            block_size: self.block_size,
            record_count: self.record_count,
        }
    }
}

impl ChunkMeta {
    /// A copy with the same strings, numbers and sidecars.
    pub fn duplicate(&self) -> (r: Self)
        ensures
            r@ == self@,
    {
        let mut sidecars: Vec<SidecarMeta> = Vec::new();
        let mut k: usize = 0;
        while k < self.sidecars.len()
            invariant
                k <= self.sidecars@.len(),
                sidecars@.len() == k,
                forall|i: int| 0 <= i < k ==> (#[trigger] sidecars@[i])@ == self.sidecars@[i]@,
            decreases self.sidecars@.len() - k,
        {
            sidecars.push(self.sidecars[k].duplicate());
            k = k + 1;
        }
        let r = ChunkMeta {
            chunk_id: self.chunk_id,
            month_key: crate::text::owned(self.month_key.as_str()),
            start_ts: self.start_ts,
            end_ts: self.end_ts,
            count: self.count,
            state: self.state,
            layout_version: self.layout_version,
            header_len: self.header_len,
            sparse_index_every: self.sparse_index_every,
            sparse_index_offset: self.sparse_index_offset,
            sparse_index_len: self.sparse_index_len,
            chunk_checksum: self.chunk_checksum,
            generation: self.generation,
            relative_path: crate::text::owned(self.relative_path.as_str()),
            sidecars,
        };
        assert(sidecar_views(r.sidecars@) =~= sidecar_views(self.sidecars@));
        r
    }
}

/// Ordered chunks that each start no later than they end lie apart, in order.
proof fn lemma_ordered_apart(chunks: Seq<ChunkMeta>, i: int, j: int)
    requires
        chunks_ordered(chunks),
        forall|k: int| 0 <= k < chunks.len() ==> (#[trigger] chunks[k]).start_ts <= chunks[k].end_ts,
        0 <= i < j < chunks.len(),
    ensures
        chunks[i].end_ts < chunks[j].start_ts,
    decreases j - i,
{
    if j > i + 1 {
        lemma_ordered_apart(chunks, i, j - 1);
        assert(chunks[j - 1].start_ts <= chunks[j - 1].end_ts);
        assert(chunks[j - 1].end_ts < chunks[j].start_ts);
    } else {
        assert(chunks[j - 1].end_ts < chunks[j].start_ts);
    }
}

proof fn lemma_ordered_sorted(c: Seq<ChunkMeta>)
    requires
        chunks_ordered(c),
        forall|k: int| 0 <= k < c.len() ==> (#[trigger] c[k]).start_ts <= c[k].end_ts,
    ensures
        chunk_bounds_sorted(c),
        chunks_disjoint(c),
        chunk_starts_sorted(c),
{
    assert forall|i: int, j: int| 0 <= i < j < c.len() implies c[i].end_ts < c[j].start_ts by {
        lemma_ordered_apart(c, i, j);
    }
    assert forall|i: int, j: int| 0 <= i <= j < c.len() implies c[i].start_ts <= c[j].start_ts && c[i].end_ts <= c[j].end_ts by {
        if i < j {
            lemma_ordered_apart(c, i, j);
            assert(c[i].start_ts <= c[i].end_ts && c[j].start_ts <= c[j].end_ts);
        }
    }
}

/// In a valid series whose chunks each start no later than they end, chunk bounds are sorted
/// and chunks lie apart; so `find_chunks_for_range` selects exactly the chunks that meet the
/// window, and `find_chunk_for_ts` the one that covers the timestamp.
pub proof fn valid_series_chunks_sorted(meta: SeriesMeta)
    requires
        meta.valid(),
        forall|k: int| 0 <= k < meta.chunks@.len() ==> (#[trigger] meta.chunks@[k]).start_ts <= meta.chunks@[k].end_ts,
    ensures
        chunk_bounds_sorted(meta.chunks@),
        chunks_disjoint(meta.chunks@),
        chunk_starts_sorted(meta.chunks@),
{
    assert(chunks_ordered(meta.chunks@));
    lemma_ordered_sorted(meta.chunks@);
}

} // verus!
