//! Namespaces for derived scalar series: canonical categories and timeframe-scoped names.
//!
//! A scoped scalar name is `timeframe@@name`; the timeframe is read back as everything
//! before the first `@@`.
use vstd::prelude::*;
use vstd::utf8::*;
use vstd::string::StringSliceAdditionalSpecFns;
use crate::predicate::ScalarSeriesKey;
use crate::text::{concat3, owned};

verus! {

/// Canonical category used for derived indicator series.
pub const INDICATOR_CATEGORY: &'static str = "indicator";
/// Canonical category for feature scalar series.
pub const FEATURE_CATEGORY: &'static str = "feature";
/// Canonical category for factor scalar series.
pub const FACTOR_CATEGORY: &'static str = "factor";
/// Canonical category for strategy signal scalar series.
pub const SIGNAL_CATEGORY: &'static str = "signal";
/// Canonical category for portfolio-level scalar series.
pub const PORTFOLIO_CATEGORY: &'static str = "portfolio";
/// Canonical category for risk scalar series.
pub const RISK_CATEGORY: &'static str = "risk";
/// Canonical category for runtime or query metric scalar series.
pub const METRIC_CATEGORY: &'static str = "metric";

/// Symbol under which portfolio-level series are kept.
pub const PORTFOLIO_SYMBOL: &'static str = "__portfolio__";

/// Separator between the timeframe and the name of a scoped scalar name.
pub const SCALAR_SCOPE_SEPARATOR: &'static str = "@@";

/// The separator's characters.
pub open spec fn scope_sep() -> Seq<char> {
    seq!['@', '@']
}

/// The persisted name of `name` scoped to `timeframe`.
pub open spec fn scoped_name(timeframe: Seq<char>, name: Seq<char>) -> Seq<char> {
    timeframe + scope_sep() + name
}

/// `i` is the first position in `b` of two consecutive `@` bytes.
pub open spec fn first_scope_sep(b: Seq<u8>, i: int) -> bool {
    &&& 0 <= i
    &&& i + 1 < b.len()
    &&& b[i] == 64
    &&& b[i + 1] == 64
    &&& forall|j: int| 0 <= j < i ==> !(#[trigger] b[j] == 64 && b[j + 1] == 64)
}

/// The `(timeframe, name)` a persisted scalar name splits into at its first `@@`.
pub open spec fn split_scoped(name: Seq<char>) -> Option<(Seq<char>, Seq<char>)> {
    let b = encode_utf8(name);
    if exists|i: int| first_scope_sep(b, i) {
        let i = choose|i: int| first_scope_sep(b, i);
        Some((decode_utf8(b.subrange(0, i)), decode_utf8(b.subrange(i + 2, b.len() as int))))
    } else {
        None
    }
}

/// In the bytes `b`, every `@` is followed by a byte other than `@`: appending `@@` and
/// anything else puts the first `@@` right after `b`.
pub open spec fn scope_free(b: Seq<u8>) -> bool {
    forall|i: int| 0 <= i < b.len() && #[trigger] b[i] == 64 ==> i + 1 < b.len() && b[i + 1] != 64
}

/// Logical binding used by backtest-facing APIs to scope scalar series by timeframe.
#[derive(Debug, Clone, PartialEq, Eq, Hash)]
pub struct ScopedScalarBinding {
    pub symbol: String,
    pub timeframe: String,
    pub category: String,
    pub name: String,
}

/// The binding holds exactly these strings.
pub open spec fn binding_is(b: ScopedScalarBinding, symbol: Seq<char>, timeframe: Seq<char>, category: Seq<char>, name: Seq<char>) -> bool {
    b.symbol@ == symbol && b.timeframe@ == timeframe && b.category@ == category && b.name@ == name
}

/// The key is the scalar-series key of the scoped binding with these strings.
pub open spec fn scoped_key_is(k: ScalarSeriesKey, symbol: Seq<char>, timeframe: Seq<char>, category: Seq<char>, name: Seq<char>) -> bool {
    k.symbol@ == symbol && k.category@ == category && k.name@ == scoped_name(timeframe, name)
}

impl ScopedScalarBinding {
    /// Creates a new scoped binding.
    pub fn new(symbol: &str, timeframe: &str, category: &str, name: &str) -> (r: Self)
        ensures
            binding_is(r, symbol@, timeframe@, category@, name@),
    {
        ScopedScalarBinding {
            symbol: owned(symbol),
            timeframe: owned(timeframe),
            category: owned(category),
            name: owned(name),
        }
    }

    /// Creates a binding for an indicator series.
    pub fn indicator(symbol: &str, timeframe: &str, indicator_name: &str) -> (r: Self)
        ensures
            binding_is(r, symbol@, timeframe@, INDICATOR_CATEGORY@, indicator_name@),
    {
        Self::new(symbol, timeframe, INDICATOR_CATEGORY, indicator_name)
    }

    /// Creates a binding for a feature series.
    pub fn feature(symbol: &str, timeframe: &str, feature_name: &str) -> (r: Self)
        ensures
            binding_is(r, symbol@, timeframe@, FEATURE_CATEGORY@, feature_name@),
    {
        Self::new(symbol, timeframe, FEATURE_CATEGORY, feature_name)
    }

    /// Creates a binding for a factor series.
    pub fn factor(symbol: &str, timeframe: &str, factor_name: &str) -> (r: Self)
        ensures
            binding_is(r, symbol@, timeframe@, FACTOR_CATEGORY@, factor_name@),
    {
        Self::new(symbol, timeframe, FACTOR_CATEGORY, factor_name)
    }

    /// Creates a binding for a strategy signal series.
    pub fn signal(symbol: &str, timeframe: &str, signal_name: &str) -> (r: Self)
        ensures
            binding_is(r, symbol@, timeframe@, SIGNAL_CATEGORY@, signal_name@),
    {
        Self::new(symbol, timeframe, SIGNAL_CATEGORY, signal_name)
    }

    /// Creates a binding for a portfolio-level series.
    pub fn portfolio(timeframe: &str, series_name: &str) -> (r: Self)
        ensures
            binding_is(r, PORTFOLIO_SYMBOL@, timeframe@, PORTFOLIO_CATEGORY@, series_name@),
    {
        Self::new(PORTFOLIO_SYMBOL, timeframe, PORTFOLIO_CATEGORY, series_name)
    }

    /// Creates a binding for a risk series.
    pub fn risk(symbol: &str, timeframe: &str, risk_name: &str) -> (r: Self)
        ensures
            binding_is(r, symbol@, timeframe@, RISK_CATEGORY@, risk_name@),
    {
        Self::new(symbol, timeframe, RISK_CATEGORY, risk_name)
    }

    /// Creates a binding for a runtime metric series.
    pub fn metric(symbol: &str, timeframe: &str, metric_name: &str) -> (r: Self)
        ensures
            binding_is(r, symbol@, timeframe@, METRIC_CATEGORY@, metric_name@),
    {
        Self::new(symbol, timeframe, METRIC_CATEGORY, metric_name)
    }

    /// Returns the underlying scalar-series key used by the store.
    pub fn to_series_key(&self) -> (r: ScalarSeriesKey)
        ensures
            scoped_key_is(r, self.symbol@, self.timeframe@, self.category@, self.name@),
    {
        scoped_scalar_series_key(self.symbol.as_str(), self.timeframe.as_str(), self.category.as_str(), self.name.as_str())
    }
}

/// Builds the scalar-series key used for a scoped scalar binding.
pub fn scoped_scalar_series_key(symbol: &str, timeframe: &str, category: &str, name: &str) -> (r: ScalarSeriesKey)
    ensures
        scoped_key_is(r, symbol@, timeframe@, category@, name@),
{
    ScalarSeriesKey { symbol: owned(symbol), category: owned(category), name: encode_scoped_scalar_name(timeframe, name) }
}

/// Builds the canonical scalar-series key for an indicator series.
pub fn indicator_series_key(symbol: &str, timeframe: &str, indicator_name: &str) -> (r: ScalarSeriesKey)
    ensures
        scoped_key_is(r, symbol@, timeframe@, INDICATOR_CATEGORY@, indicator_name@),
{
    scoped_scalar_series_key(symbol, timeframe, INDICATOR_CATEGORY, indicator_name)
}

/// Builds the canonical scalar-series key for a feature series.
pub fn feature_series_key(symbol: &str, timeframe: &str, feature_name: &str) -> (r: ScalarSeriesKey)
    ensures
        scoped_key_is(r, symbol@, timeframe@, FEATURE_CATEGORY@, feature_name@),
{
    scoped_scalar_series_key(symbol, timeframe, FEATURE_CATEGORY, feature_name)
}

/// Builds the canonical scalar-series key for a factor series.
pub fn factor_series_key(symbol: &str, timeframe: &str, factor_name: &str) -> (r: ScalarSeriesKey)
    ensures
        scoped_key_is(r, symbol@, timeframe@, FACTOR_CATEGORY@, factor_name@),
{
    scoped_scalar_series_key(symbol, timeframe, FACTOR_CATEGORY, factor_name)
}

/// Builds the canonical scalar-series key for a signal series.
pub fn signal_series_key(symbol: &str, timeframe: &str, signal_name: &str) -> (r: ScalarSeriesKey)
    ensures
        scoped_key_is(r, symbol@, timeframe@, SIGNAL_CATEGORY@, signal_name@),
{
    scoped_scalar_series_key(symbol, timeframe, SIGNAL_CATEGORY, signal_name)
}

/// Builds the canonical scalar-series key for a portfolio-level series.
pub fn portfolio_series_key(timeframe: &str, series_name: &str) -> (r: ScalarSeriesKey)
    ensures
        scoped_key_is(r, PORTFOLIO_SYMBOL@, timeframe@, PORTFOLIO_CATEGORY@, series_name@),
{
    scoped_scalar_series_key(PORTFOLIO_SYMBOL, timeframe, PORTFOLIO_CATEGORY, series_name)
}

/// Builds the canonical scalar-series key for a risk series.
pub fn risk_series_key(symbol: &str, timeframe: &str, risk_name: &str) -> (r: ScalarSeriesKey)
    ensures
        scoped_key_is(r, symbol@, timeframe@, RISK_CATEGORY@, risk_name@),
{
    scoped_scalar_series_key(symbol, timeframe, RISK_CATEGORY, risk_name)
}

/// Builds the canonical scalar-series key for a runtime metric series.
pub fn metric_series_key(symbol: &str, timeframe: &str, metric_name: &str) -> (r: ScalarSeriesKey)
    ensures
        scoped_key_is(r, symbol@, timeframe@, METRIC_CATEGORY@, metric_name@),
{
    scoped_scalar_series_key(symbol, timeframe, METRIC_CATEGORY, metric_name)
}

/// The scalar categories reserved by the namespace helpers, in this order.
pub fn reserved_scalar_categories() -> (r: Vec<&'static str>)
    ensures
        r@.len() == 7,
        r@[0]@ == INDICATOR_CATEGORY@,
        r@[1]@ == FEATURE_CATEGORY@,
        r@[2]@ == FACTOR_CATEGORY@,
        r@[3]@ == SIGNAL_CATEGORY@,
        r@[4]@ == PORTFOLIO_CATEGORY@,
        r@[5]@ == RISK_CATEGORY@,
        r@[6]@ == METRIC_CATEGORY@,
{
    let mut v: Vec<&'static str> = Vec::new();
    v.push(INDICATOR_CATEGORY);
    v.push(FEATURE_CATEGORY);
    v.push(FACTOR_CATEGORY);
    v.push(SIGNAL_CATEGORY);
    v.push(PORTFOLIO_CATEGORY);
    v.push(RISK_CATEGORY);
    v.push(METRIC_CATEGORY);
    v
}

/// Encodes a timeframe/name pair into the persisted scalar `name`: `timeframe@@name`.
pub fn encode_scoped_scalar_name(timeframe: &str, name: &str) -> (r: String)
    ensures
        r@ == scoped_name(timeframe@, name@),
{
    proof {
        reveal_strlit("@@");
    }
    concat3(timeframe, SCALAR_SCOPE_SEPARATOR, name)
}

/// Past a character boundary on an ASCII byte, the next position is a boundary too.
pub proof fn lemma_boundary_after_ascii(b: Seq<u8>, k: int)
    requires
        valid_utf8(b),
        0 <= k < b.len(),
        is_char_boundary(b, k),
        b[k] <= 0x7f,
    ensures
        is_char_boundary(b, k + 1),
    decreases b.len(),
{
    reveal_with_fuel(is_char_boundary, 2);
    if k > 0 {
        let l = length_of_first_scalar(b);
        let p = pop_first_scalar(b);
        assert(p[k - l] == b[k]);
        lemma_boundary_after_ascii(p, k - l);
    }
}

/// Splits a persisted scalar name at its first `@@` into `(timeframe, name)`.
pub fn decode_scoped_scalar_name(name: &str) -> (r: Option<(&str, &str)>)
    ensures
        match split_scoped(name@) {
            Some((t, n)) => r matches Some((a, b)) && a@ == t && b@ == n,
            None => r is None,
        },
{
    let bytes = name.as_bytes();
    let ghost b = bytes@;
    assert(b == encode_utf8(name@));
    let n = bytes.len();
    let mut i: usize = 0;
    while n > 0 && i < n - 1
        invariant
            i <= n,
            n == b.len(),
            b == bytes@,
            b == encode_utf8(name@),
            forall|j: int| 0 <= j < i ==> !(#[trigger] b[j] == 64 && b[j + 1] == 64),
        decreases n - i,
    {
        if bytes[i] == 64 && bytes[i + 1] == 64 {
            proof {
                assert(first_scope_sep(b, i as int));
                encode_utf8_valid_utf8(name@);
                is_char_boundary_iff_not_is_continuation_byte(b, i as int);
            }
            let (head, rest) = name.split_at(i);
            let ghost rb = rest.spec_bytes();
            proof {
                assert(rb =~= b.subrange(i as int, b.len() as int));
                encode_utf8_valid_utf8(rest@);
                reveal_with_fuel(is_char_boundary, 2);
                assert(is_char_boundary(rb, 0));
                lemma_boundary_after_ascii(rb, 0);
                lemma_boundary_after_ascii(rb, 1);
            }
            let (_sep, tail) = rest.split_at(2);
            proof {
                assert(tail.spec_bytes() =~= b.subrange(i + 2, b.len() as int));
                encode_utf8_decode_utf8(head@);
                encode_utf8_decode_utf8(tail@);
                let k = choose|k: int| first_scope_sep(b, k);
                if k < i {
                    assert(b[k] == 64 && b[k + 1] == 64);
                } else if k > i {
                    assert(!(b[i as int] == 64 && b[i + 1] == 64));
                }
            }
            return Some((head, tail));
        }
        i = i + 1;
    }
    proof {
        if exists|k: int| first_scope_sep(b, k) {
            let k = choose|k: int| first_scope_sep(b, k);
            assert(k < i);
            assert(b[k] == 64 && b[k + 1] == 64);
        }
    }
    None
}

/// Attempts to decode a persisted scalar key back into a scoped binding.
pub fn decode_scoped_scalar_key(series_key: &ScalarSeriesKey) -> (r: Option<ScopedScalarBinding>)
    ensures
        match split_scoped(series_key.name@) {
            Some((t, n)) => r matches Some(b) && binding_is(b, series_key.symbol@, t, series_key.category@, n),
            None => r is None,
        },
{
    let (timeframe, name) = decode_scoped_scalar_name(series_key.name.as_str())?;
    Some(
        ScopedScalarBinding {
            symbol: owned(series_key.symbol.as_str()),
            timeframe: owned(timeframe),
            category: owned(series_key.category.as_str()),
            name: owned(name),
        },
    )
}

} // verus!

verus! {

/// UTF-8 encoding distributes over concatenation.
pub proof fn lemma_encode_utf8_concat(a: Seq<char>, b: Seq<char>)
    ensures
        encode_utf8(a + b) == encode_utf8(a) + encode_utf8(b),
    decreases a.len(),
{
    if a.len() == 0 {
        assert(a + b =~= b);
        assert(encode_utf8(a) + encode_utf8(b) =~= encode_utf8(b));
    } else {
        lemma_encode_utf8_concat(a.drop_first(), b);
        assert((a + b).drop_first() =~= a.drop_first() + b);
        assert((a + b)[0] == a[0]);
        assert(encode_utf8(a + b) =~= encode_utf8(a) + encode_utf8(b));
    }
}

/// Scoping a name and splitting it again gives back the timeframe and the name, unless the
/// timeframe itself holds `@@` or ends in `@` (the first `@@` would then come earlier).
pub proof fn scoped_name_roundtrip(timeframe: Seq<char>, name: Seq<char>)
    requires
        scope_free(encode_utf8(timeframe)),
    ensures
        split_scoped(scoped_name(timeframe, name)) == Some((timeframe, name)),
{
    let et = encode_utf8(timeframe);
    let en = encode_utf8(name);
    lemma_encode_utf8_concat(timeframe, scope_sep());
    lemma_encode_utf8_concat(timeframe + scope_sep(), name);
    assert(encode_utf8(scope_sep()) =~= seq![64u8, 64u8]) by {
        let c: u32 = '@' as u32;
        assert(c == 64);
        assert((c & 0x7F) as u8 == 64u8) by (bit_vector)
            requires
                c == 64,
        ;
        assert(encode_scalar(c) =~= seq![64u8]);
        reveal_with_fuel(encode_utf8, 3);
        assert(scope_sep().drop_first() =~= seq!['@']);
        assert(scope_sep().drop_first().drop_first() =~= Seq::<char>::empty());
    }
    let e = encode_utf8(scoped_name(timeframe, name));
    assert(e == et + seq![64u8, 64u8] + en);
    let i0 = et.len() as int;
    assert(e[i0] == 64 && e[i0 + 1] == 64);
    assert forall|j: int| 0 <= j < i0 implies !(#[trigger] e[j] == 64 && e[j + 1] == 64) by {
        assert(e[j] == et[j]);
        if et[j] == 64 {
            assert(j + 1 < et.len() && et[j + 1] != 64);
            assert(e[j + 1] == et[j + 1]);
        }
    }
    assert(first_scope_sep(e, i0));
    let k = choose|k: int| first_scope_sep(e, k);
    if k < i0 {
        assert(e[k] == 64 && e[k + 1] == 64);
    } else if k > i0 {
        assert(!(e[i0] == 64 && e[i0 + 1] == 64));
    }
    assert(k == i0);
    assert(e.subrange(0, i0) =~= et);
    assert(e.subrange(i0 + 2, e.len() as int) =~= en);
    encode_utf8_decode_utf8(timeframe);
    encode_utf8_decode_utf8(name);
}

} // verus!

verus! {

/// The key of a scoped binding decodes back to the binding's strings, unless its timeframe
/// holds `@@` or ends in `@`.
pub proof fn scoped_binding_roundtrip(b: ScopedScalarBinding, k: ScalarSeriesKey)
    requires
        scoped_key_is(k, b.symbol@, b.timeframe@, b.category@, b.name@),
        scope_free(encode_utf8(b.timeframe@)),
    ensures
        split_scoped(k.name@) == Some((b.timeframe@, b.name@)),
        k.symbol@ == b.symbol@,
        k.category@ == b.category@,
{
    scoped_name_roundtrip(b.timeframe@, b.name@);
}

} // verus!

verus! {

/// Request shape handed to external derived-series materializers.
#[derive(Debug, Clone, PartialEq, Eq)]
pub struct DerivedSeriesRequest {
    pub symbol: String,
    pub timeframe: String,
    pub start_ts: i64,
    pub end_ts: i64,
}

/// Integration-facing shape for "read source rows, write scalar rows" flows, implemented by
/// callers; the storage layer itself computes no derived values.
pub trait DerivedSeriesBuilder {
    /// Returns the output binding that will receive persisted scalar rows.
    fn output_binding(&self, symbol: &str, timeframe: &str) -> ScopedScalarBinding;

    /// Returns how many source rows the caller should fetch before the requested start.
    fn required_lookback(&self) -> (r: usize)
        default_ensures
            r == 0,
    {
        0
    }

    /// Builds derived scalar rows from already-fetched kline records.
    fn materialize_range(&self, request: &DerivedSeriesRequest, klines: &[crate::records::KlineRecord]) -> crate::error::Result<Vec<crate::records::ScalarRecord>>;
}

} // verus!
