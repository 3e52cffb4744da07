//! Scalar series keys and value predicates used by zone-map, value-index and scan queries.
use vstd::prelude::*;
use crate::error::{FastKError, Result, invalid_input};

verus! {

/// Identity of a scalar series: `(symbol, category, name)`.
#[derive(Debug, Clone, PartialEq, Eq, Hash)]
pub struct ScalarSeriesKey {
    pub symbol: String,
    pub category: String,
    pub name: String,
}

/// Comparison operator of a single-value scalar predicate.
#[derive(Debug, Clone, Copy, PartialEq, Eq, Structural)]
pub enum CompareOp {
    Gt,
    Gte,
    Lt,
    Lte,
    Eq,
    Between,
}

/// Single-value predicate; `Between` reads `[value, value2]`.
#[derive(Debug, Clone, Copy, PartialEq, Eq, Structural)]
pub struct ScalarPredicate {
    pub op: CompareOp,
    pub value: i64,
    pub value2: Option<i64>,
}

impl ScalarPredicate {
    /// Whether the predicate is well formed: a `Between` needs an upper bound not below `value`.
    pub open spec fn well_formed(self) -> bool {
        self.op is Between ==> (self.value2 matches Some(u) && self.value <= u)
    }

    /// Whether `v` satisfies the (well-formed) predicate.
    pub open spec fn holds(self, v: i64) -> bool {
        match self.op {
            CompareOp::Gt => v > self.value,
            CompareOp::Gte => v >= self.value,
            CompareOp::Lt => v < self.value,
            CompareOp::Lte => v <= self.value,
            CompareOp::Eq => v == self.value,
            CompareOp::Between => self.value <= v && v <= self.value2.unwrap(),
        }
    }

    /// The inclusive bounds `[value, value2]` of a `Between` predicate.
    pub fn bounds(&self) -> (r: Result<(i64, i64)>)
        ensures
            (self.value2 matches Some(u) && self.value <= u) ==> r == Ok::<(i64, i64), FastKError>((self.value, self.value2.unwrap())),
            !(self.value2 matches Some(u) && self.value <= u) ==> r matches Err(FastKError::InvalidInput(_)),
    {
        match self.value2 {
            Some(upper) => {
                if self.value <= upper {
                    Ok((self.value, upper))
                } else {
                    Err(invalid_input("between predicate lower bound exceeds upper bound"))
                }
            },
            None => Err(invalid_input("between predicate requires value2")),
        }
    }

    /// Evaluates the predicate on `v`.
    pub fn matches(&self, v: i64) -> (r: Result<bool>)
        ensures
            self.well_formed() ==> r == Ok::<bool, FastKError>(self.holds(v)),
            !self.well_formed() ==> r matches Err(FastKError::InvalidInput(_)),
    {
        match self.op {
            CompareOp::Gt => Ok(v > self.value),
            CompareOp::Gte => Ok(v >= self.value),
            CompareOp::Lt => Ok(v < self.value),
            CompareOp::Lte => Ok(v <= self.value),
            CompareOp::Eq => Ok(v == self.value),
            CompareOp::Between => {
                let (lower, upper) = self.bounds()?;
                Ok(lower <= v && v <= upper)
            },
        }
    }
}

/// What each single-value predicate keeps: `Gt`, `Gte`, `Lt`, `Lte` and `Eq` compare the value
/// with `value` (`Gte`, `Lte` including it), and a `Between` keeps values from `value` to
/// `value2`, both included.
pub proof fn scalar_predicate_compares(p: ScalarPredicate, v: i64)
    ensures
        p.op is Gt ==> (p.holds(v) <==> v > p.value),
        p.op is Gte ==> (p.holds(v) <==> v >= p.value),
        p.op is Lt ==> (p.holds(v) <==> v < p.value),
        p.op is Lte ==> (p.holds(v) <==> v <= p.value),
        p.op is Eq ==> (p.holds(v) <==> v == p.value),
        p.op is Between ==> (p.value2 matches Some(u) ==> (p.holds(v) <==> p.value <= v && v <= u)),
{
}

/// How the single-value predicates on one bound relate: `Lte x` keeps exactly what `Gt x`
/// drops and `Lt x` exactly what `Gte x` drops; `Eq x` keeps what both `Gte x` and `Lte x`
/// keep, so the bound itself passes `Gte`, `Lte` and `Eq`; a `Between [x, y]` keeps what both
/// `Gte x` and `Lte y` keep.
pub proof fn scalar_predicate_bounds_relate(x: i64, y: i64, v: i64)
    ensures
        (ScalarPredicate { op: CompareOp::Lte, value: x, value2: None }).holds(v)
            <==> !(ScalarPredicate { op: CompareOp::Gt, value: x, value2: None }).holds(v),
        (ScalarPredicate { op: CompareOp::Lt, value: x, value2: None }).holds(v)
            <==> !(ScalarPredicate { op: CompareOp::Gte, value: x, value2: None }).holds(v),
        (ScalarPredicate { op: CompareOp::Eq, value: x, value2: None }).holds(v)
            <==> (ScalarPredicate { op: CompareOp::Gte, value: x, value2: None }).holds(v)
            && (ScalarPredicate { op: CompareOp::Lte, value: x, value2: None }).holds(v),
        (ScalarPredicate { op: CompareOp::Lte, value: x, value2: None }).holds(x),
        (ScalarPredicate { op: CompareOp::Gte, value: x, value2: None }).holds(x),
        !(ScalarPredicate { op: CompareOp::Lt, value: x, value2: None }).holds(x),
        !(ScalarPredicate { op: CompareOp::Gt, value: x, value2: None }).holds(x),
        (ScalarPredicate { op: CompareOp::Between, value: x, value2: Some(y) }).holds(v)
            <==> (ScalarPredicate { op: CompareOp::Gte, value: x, value2: None }).holds(v)
            && (ScalarPredicate { op: CompareOp::Lte, value: y, value2: None }).holds(v),
{
}

/// What each predicate expression keeps: the comparisons against their bound (`Gte`, `Lte`
/// including it), membership or non-membership in the set, and a `Between` within its bounds,
/// both included when inclusive and both excluded otherwise.
pub proof fn scalar_predicate_expr_compares(p: ScalarPredicateExpr, v: i64)
    ensures
        p matches ScalarPredicateExpr::Eq(x) ==> (p.holds(v) <==> v == x),
        p matches ScalarPredicateExpr::Ne(x) ==> (p.holds(v) <==> v != x),
        p matches ScalarPredicateExpr::Gt(x) ==> (p.holds(v) <==> v > x),
        p matches ScalarPredicateExpr::Gte(x) ==> (p.holds(v) <==> v >= x),
        p matches ScalarPredicateExpr::Lt(x) ==> (p.holds(v) <==> v < x),
        p matches ScalarPredicateExpr::Lte(x) ==> (p.holds(v) <==> v <= x),
        p matches ScalarPredicateExpr::InSet(vs) ==> (p.holds(v) <==> exists|i: int| 0 <= i < vs@.len() && vs@[i] == v),
        p matches ScalarPredicateExpr::NotInSet(vs) ==> (p.holds(v) <==> forall|i: int| 0 <= i < vs@.len() ==> vs@[i] != v),
        p matches ScalarPredicateExpr::Between { min, max, inclusive } ==> (p.holds(v) <==> if inclusive {
            min <= v && v <= max
        } else {
            min < v && v < max
        }),
        // a negated predicate keeps exactly what its positive form drops
        p matches ScalarPredicateExpr::Ne(x) ==> (p.holds(v) <==> !ScalarPredicateExpr::Eq(x).holds(v)),
        p matches ScalarPredicateExpr::NotInSet(vs) ==> (p.holds(v) <==> !ScalarPredicateExpr::InSet(vs).holds(v)),
{
}

/// Value predicate of a scalar predicate query.
#[derive(Debug, Clone, PartialEq, Eq)]
pub enum ScalarPredicateExpr {
    Eq(i64),
    Ne(i64),
    InSet(Vec<i64>),
    NotInSet(Vec<i64>),
    Gt(i64),
    Gte(i64),
    Lt(i64),
    Lte(i64),
    Between { min: i64, max: i64, inclusive: bool },
}

impl ScalarPredicateExpr {
    /// Sets must be non-empty and `Between` bounds ordered.
    pub open spec fn well_formed(self) -> bool {
        match self {
            ScalarPredicateExpr::InSet(vs) => vs@.len() > 0,
            ScalarPredicateExpr::NotInSet(vs) => vs@.len() > 0,
            ScalarPredicateExpr::Between { min, max, .. } => min <= max,
            _ => true,
        }
    }

    /// Whether `v` satisfies the predicate.
    pub open spec fn holds(self, v: i64) -> bool {
        match self {
            ScalarPredicateExpr::Eq(x) => v == x,
            ScalarPredicateExpr::Ne(x) => v != x,
            ScalarPredicateExpr::InSet(vs) => vs@.contains(v),
            ScalarPredicateExpr::NotInSet(vs) => !vs@.contains(v),
            ScalarPredicateExpr::Gt(x) => v > x,
            ScalarPredicateExpr::Gte(x) => v >= x,
            ScalarPredicateExpr::Lt(x) => v < x,
            ScalarPredicateExpr::Lte(x) => v <= x,
            ScalarPredicateExpr::Between { min, max, inclusive } => if inclusive {
                min <= v && v <= max
            } else {
                min < v && v < max
            },
        }
    }

    /// Whether some value in `[lo, hi]` may satisfy the predicate.
    pub open spec fn may_match(self, lo: i64, hi: i64) -> bool {
        match self {
            ScalarPredicateExpr::Eq(x) => lo <= x && x <= hi,
            ScalarPredicateExpr::Ne(x) => !(lo == hi && hi == x),
            ScalarPredicateExpr::InSet(vs) => exists|i: int| 0 <= i < vs@.len() && lo <= #[trigger] vs@[i] <= hi,
            ScalarPredicateExpr::NotInSet(vs) => !(lo == hi && vs@.contains(lo)),
            ScalarPredicateExpr::Gt(x) => hi > x,
            ScalarPredicateExpr::Gte(x) => hi >= x,
            ScalarPredicateExpr::Lt(x) => lo < x,
            ScalarPredicateExpr::Lte(x) => lo <= x,
            ScalarPredicateExpr::Between { min, max, inclusive } => if inclusive {
                hi >= min && lo <= max
            } else {
                hi > min && lo < max
            },
        }
    }

    /// Rejects empty sets and reversed `Between` bounds.
    pub fn validate(&self) -> (r: Result<()>)
        ensures
            r is Ok <==> self.well_formed(),
            r is Err ==> r matches Err(FastKError::InvalidInput(_)),
    {
        match self {
            ScalarPredicateExpr::InSet(vs) => if vs.len() == 0 {
                Err(invalid_input("in_set predicate requires at least one value"))
            } else {
                Ok(())
            },
            ScalarPredicateExpr::NotInSet(vs) => if vs.len() == 0 {
                Err(invalid_input("not_in_set predicate requires at least one value"))
            } else {
                Ok(())
            },
            ScalarPredicateExpr::Between { min, max, .. } => if *min > *max {
                Err(invalid_input("between predicate min must be <= max"))
            } else {
                Ok(())
            },
            _ => Ok(()),
        }
    }

    /// Evaluates the predicate on `v`.
    pub fn matches(&self, v: i64) -> (r: bool)
        ensures
            r == self.holds(v),
    {
        match self {
            ScalarPredicateExpr::Eq(x) => v == *x,
            ScalarPredicateExpr::Ne(x) => v != *x,
            ScalarPredicateExpr::InSet(vs) => contains_value(vs, v),
            ScalarPredicateExpr::NotInSet(vs) => !contains_value(vs, v),
            ScalarPredicateExpr::Gt(x) => v > *x,
            ScalarPredicateExpr::Gte(x) => v >= *x,
            ScalarPredicateExpr::Lt(x) => v < *x,
            ScalarPredicateExpr::Lte(x) => v <= *x,
            ScalarPredicateExpr::Between { min, max, inclusive } => if *inclusive {
                *min <= v && v <= *max
            } else {
                *min < v && v < *max
            },
        }
    }

    /// Zone-map pruning test: can a block with values in `[lo, hi]` hold a match?
    pub fn may_match_value_range(&self, lo: i64, hi: i64) -> (r: bool)
        ensures
            r == self.may_match(lo, hi),
    {
        match self {
            ScalarPredicateExpr::Eq(x) => lo <= *x && *x <= hi,
            ScalarPredicateExpr::Ne(x) => !(lo == hi && hi == *x),
            ScalarPredicateExpr::InSet(vs) => any_in_range(vs, lo, hi),
            ScalarPredicateExpr::NotInSet(vs) => !(lo == hi && contains_value(vs, lo)),
            ScalarPredicateExpr::Gt(x) => hi > *x,
            ScalarPredicateExpr::Gte(x) => hi >= *x,
            ScalarPredicateExpr::Lt(x) => lo < *x,
            ScalarPredicateExpr::Lte(x) => lo <= *x,
            ScalarPredicateExpr::Between { min, max, inclusive } => if *inclusive {
                hi >= *min && lo <= *max
            } else {
                hi > *min && lo < *max
            },
        }
    }

    /// Equality and set-membership predicates, best served by the value index.
    pub open spec fn discrete(self) -> bool {
        self is Eq || self is InSet
    }

    /// Ordered-range predicates, best served by zone maps.
    pub open spec fn continuous(self) -> bool {
        self is Gt || self is Gte || self is Lt || self is Lte || self is Between
    }

    pub fn is_discrete_lookup_like(&self) -> (r: bool)
        ensures
            r == self.discrete(),
    {
        match self {
            ScalarPredicateExpr::Eq(_) | ScalarPredicateExpr::InSet(_) => true,
            _ => false,
        }
    }

    pub fn is_continuous_range_like(&self) -> (r: bool)
        ensures
            r == self.continuous(),
    {
        match self {
            ScalarPredicateExpr::Gt(_) | ScalarPredicateExpr::Gte(_) | ScalarPredicateExpr::Lt(_)
            | ScalarPredicateExpr::Lte(_) | ScalarPredicateExpr::Between { .. } => true,
            _ => false,
        }
    }
}

/// Whether some element of `vs` lies in `[lo, hi]`.
fn any_in_range(vs: &Vec<i64>, lo: i64, hi: i64) -> (r: bool)
    ensures
        r == exists|i: int| 0 <= i < vs@.len() && lo <= #[trigger] vs@[i] <= hi,
{
    let mut k: usize = 0;
    while k < vs.len()
        invariant
            k <= vs@.len(),
            forall|i: int| 0 <= i < k ==> !(lo <= #[trigger] vs@[i] <= hi),
        decreases vs@.len() - k,
    {
        if lo <= vs[k] && vs[k] <= hi {
            assert(lo <= vs@[k as int] <= hi);
            return true;
        }
        k = k + 1;
    }
    false
}

/// Whether `v` occurs in `vs`.
pub fn contains_value(vs: &Vec<i64>, v: i64) -> (r: bool)
    ensures
        r == vs@.contains(v),
{
    let mut k: usize = 0;
    while k < vs.len()
        invariant
            k <= vs@.len(),
            forall|i: int| 0 <= i < k ==> vs@[i] != v,
        decreases vs@.len() - k,
    {
        if vs[k] == v {
            assert(vs@[k as int] == v);
            return true;
        }
        k = k + 1;
    }
    false
}

/// Which index served (part of) a predicate query.
#[derive(Debug, Clone, Copy, PartialEq, Eq, Structural)]
pub enum ScalarIndexKind {
    FullScan,
    ZoneMap,
    ValueIndex,
    ZoneMapAndValueIndex,
}

/// A timestamp that matched, with its value when the query asked for values.
#[derive(Debug, Clone, Copy, PartialEq, Eq, Structural)]
pub struct ScalarPredicateMatch {
    pub ts: i64,
    pub value: Option<i64>,
}

/// Storage-level predicate query over one scalar series.
#[derive(Debug, Clone, PartialEq, Eq)]
pub struct ScalarPredicateQuery {
    pub key: ScalarSeriesKey,
    pub start_ts: i64,
    pub end_ts: i64,
    pub predicate: ScalarPredicateExpr,
    pub return_values: bool,
}

/// Work counters of one predicate query.
#[derive(Debug, Clone, Copy, PartialEq, Eq, Default)]
pub struct ScalarPredicateQueryStats {
    pub index_used: Option<ScalarIndexKind>,
    pub chunks_considered: u64,
    pub chunks_pruned: u64,
    pub chunks_scanned: u64,
    pub blocks_considered: u64,
    pub blocks_pruned: u64,
    pub blocks_scanned: u64,
    pub rows_checked: u64,
    pub rows_matched: u64,
    pub fallback_scan: bool,
}

/// Matches of a predicate query with its work counters.
#[derive(Debug, Clone, PartialEq, Eq)]
pub struct ScalarPredicateQueryResult {
    pub matches: Vec<ScalarPredicateMatch>,
    pub stats: ScalarPredicateQueryStats,
}

} // verus!
