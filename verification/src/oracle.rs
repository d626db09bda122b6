//! The oracle state and its operations: report ingestion, the quorum
//! check, price aggregation, and the owner-gated configuration calls.
//!
//! The host that drives the contract supplies two ambient values to every
//! operation, the calling account and the current clock reading; both are
//! taken here as explicit parameters so that the state transitions are
//! self-contained.

use vstd::prelude::*;
use crate::report::{PriceReport, ReportView};

verus! {

/// Why an operation was refused.
#[derive(Clone, Copy, Debug, PartialEq, Eq, Structural)]
pub enum OracleError {
    /// The caller is not the stored owner.
    Unauthorized,
    /// The aggregate price was asked for while only `actual` distinct
    /// sources had reported and `required` are needed.
    InsufficientSources { required: u8, actual: u8 },
    /// The sum of all stored prices does not fit the summation width.
    Overflow,
}

/// The oracle's state: the owner fixed at creation, the latest report per
/// source, the timestamp of the most recently accepted report, and the
/// quorum threshold.
///
/// The reports are held in a vector with at most one entry per source
/// label ([`OracleView::wf`]); the entry for a source is replaced in place
/// when that source reports again.
pub struct PriceOracle {
    owner: String,
    prices: Vec<PriceReport>,
    last_update: u64,
    min_sources: u8,
}

/// The mathematical value of a [`PriceOracle`].
pub ghost struct OracleView {
    pub owner: Seq<char>,
    pub reports: Seq<ReportView>,
    pub last_update: u64,
    pub min_sources: u8,
}

impl View for PriceOracle {
    type V = OracleView;

    closed spec fn view(&self) -> OracleView {
        OracleView {
            owner: self.owner@,
            reports: self.prices@.map_values(|r: PriceReport| r@),
            last_update: self.last_update,
            min_sources: self.min_sources,
        }
    }
}

/// The sum of the prices of a sequence of reports, as an unbounded integer.
pub open spec fn sum_prices(s: Seq<ReportView>) -> int
    decreases s.len(),
{
    if s.len() == 0 {
        0
    } else {
        sum_prices(s.drop_last()) + s.last().price_usd
    }
}

impl OracleView {
    /// The stored source labels, in storage order.
    pub open spec fn sources(self) -> Seq<Seq<char>> {
        self.reports.map_values(|r: ReportView| r.source)
    }

    /// The set of distinct stored source labels.
    pub open spec fn source_set(self) -> Set<Seq<char>> {
        self.sources().to_set()
    }

    /// Well-formed: no two stored reports carry the same source label.
    pub open spec fn wf(self) -> bool {
        forall|i: int, j: int|
            0 <= i < self.reports.len() && 0 <= j < self.reports.len() && i != j
                ==> self.reports[i].source != self.reports[j].source
    }

    /// Whether some stored report carries the label `source`.
    pub open spec fn has_source(self, source: Seq<char>) -> bool {
        self.sources().contains(source)
    }

    /// The position of the report labelled `source`; meaningful only when
    /// `has_source(source)` holds, and unique when `wf()` holds.
    pub open spec fn index_of_source(self, source: Seq<char>) -> int {
        choose|i: int| 0 <= i < self.reports.len() && self.reports[i].source == source
    }

    /// The stored report labelled `source`.
    pub open spec fn report_for(self, source: Seq<char>) -> ReportView {
        self.reports[self.index_of_source(source)]
    }

    /// The stored reports as a map keyed by source label.
    pub open spec fn as_map(self) -> Map<Seq<char>, ReportView> {
        Map::new(|s: Seq<char>| self.has_source(s), |s: Seq<char>| self.report_for(s))
    }

    /// The sum of all stored prices.
    pub open spec fn price_sum(self) -> int {
        sum_prices(self.reports)
    }

    /// What reading the aggregate price yields in this state: the quorum
    /// check first, then the truncating mean of all stored prices.
    pub open spec fn price_result(self) -> Result<u128, OracleError> {
        if self.reports.len() < self.min_sources {
            Err(OracleError::InsufficientSources {
                required: self.min_sources,
                actual: self.reports.len() as u8,
            })
        } else if self.price_sum() > u128::MAX {
            Err(OracleError::Overflow)
        } else {
            Ok((self.price_sum() / self.reports.len() as int) as u128)
        }
    }
}

/// The report that a `report_price` call by `caller` at host clock reading
/// `timestamp_ns` stores: the host's nanosecond clock is divided down to
/// whole seconds, truncating.
pub open spec fn made_report(
    caller: Seq<char>,
    timestamp_ns: u64,
    source: Seq<char>,
    price_usd: u128,
) -> ReportView {
    ReportView {
        source: source,
        price_usd: price_usd,
        timestamp: (timestamp_ns / 1_000_000_000) as u64,
        reporter: caller,
    }
}

/// The sum over a prefix one longer counts the next report's price.
proof fn lemma_sum_take_succ(s: Seq<ReportView>, i: int)
    requires
        0 <= i < s.len(),
    ensures
        sum_prices(s.take(i + 1)) == sum_prices(s.take(i)) + s[i].price_usd,
{
    assert(s.take(i + 1).drop_last() =~= s.take(i));
    assert(s.take(i + 1).last() == s[i]);
}

/// Prices are non-negative, so the sum over a prefix never exceeds the
/// sum over the whole sequence.
proof fn lemma_sum_take_le(s: Seq<ReportView>, i: int)
    requires
        0 <= i <= s.len(),
    ensures
        sum_prices(s.take(i)) <= sum_prices(s),
    decreases s.len() - i,
{
    if i == s.len() {
        assert(s.take(i) =~= s);
    } else {
        lemma_sum_take_succ(s, i);
        lemma_sum_take_le(s, i + 1);
    }
}

/// With distinct source labels, the position found for the label of a
/// stored report is the report's own position.
proof fn lemma_index_of_source_unique(v: OracleView, i: int)
    requires
        v.wf(),
        0 <= i < v.reports.len(),
    ensures
        v.has_source(v.reports[i].source),
        v.index_of_source(v.reports[i].source) == i,
        v.report_for(v.reports[i].source) == v.reports[i],
{
    let s = v.reports[i].source;
    assert(v.sources()[i] == s);
    let j = v.index_of_source(s);
    assert(0 <= j < v.reports.len() && v.reports[j].source == s);
}

/// Replacing the report at position `i` by one with the same source label
/// keeps the labels distinct, leaves the label sequence unchanged, and
/// acts on the report map as an insertion at that label.
proof fn lemma_effects_of_replace(v: OracleView, w: OracleView, i: int, rv: ReportView)
    requires
        v.wf(),
        0 <= i < v.reports.len(),
        v.reports[i].source == rv.source,
        w.reports == v.reports.update(i, rv),
    ensures
        w.wf(),
        w.sources() == v.sources(),
        w.source_set() == v.source_set().insert(rv.source),
        w.as_map() == v.as_map().insert(rv.source, rv),
{
    assert(w.sources() =~= v.sources());
    assert(w.wf());
    assert(v.has_source(rv.source)) by {
        assert(v.sources()[i] == rv.source);
    }
    assert(w.source_set() =~= v.source_set().insert(rv.source));
    assert(w.as_map() =~= v.as_map().insert(rv.source, rv)) by {
        lemma_index_of_source_unique(w, i);
        assert forall|s: Seq<char>| #![auto] w.has_source(s) && s != rv.source
            implies w.report_for(s) == v.report_for(s) by {
            let j = w.index_of_source(s);
            assert(0 <= j < w.reports.len() && w.reports[j].source == s);
            assert(j != i);
            assert(v.reports[j].source == s);
            lemma_index_of_source_unique(v, j);
            lemma_index_of_source_unique(w, j);
        }
    }
}

/// Appending a report whose source label is not yet stored keeps the
/// labels distinct and acts on the report map as an insertion.
proof fn lemma_effects_of_push(v: OracleView, w: OracleView, rv: ReportView)
    requires
        v.wf(),
        !v.has_source(rv.source),
        w.reports == v.reports.push(rv),
    ensures
        w.wf(),
        w.sources() == v.sources().push(rv.source),
        w.source_set() == v.source_set().insert(rv.source),
        w.as_map() == v.as_map().insert(rv.source, rv),
{
    assert(w.sources() =~= v.sources().push(rv.source));
    let n = v.reports.len() as int;
    assert forall|a: int, b: int|
        0 <= a < w.reports.len() && 0 <= b < w.reports.len() && a != b
        implies w.reports[a].source != w.reports[b].source by {
        if a < n && b < n {
        } else if a == n {
            assert(v.sources()[b] == v.reports[b].source);
        } else {
            assert(v.sources()[a] == v.reports[a].source);
        }
    }
    assert(w.source_set() =~= v.source_set().insert(rv.source)) by {
        assert forall|s: Seq<char>| #![auto] w.sources().contains(s)
            implies v.sources().contains(s) || s == rv.source by {
            let k = choose|k: int| 0 <= k < w.sources().len() && w.sources()[k] == s;
            if k < n {
                assert(v.sources()[k] == s);
            }
        }
        assert(w.sources()[n] == rv.source);
        assert forall|s: Seq<char>| #![auto] v.sources().contains(s)
            implies w.sources().contains(s) by {
            let k = choose|k: int| 0 <= k < v.sources().len() && v.sources()[k] == s;
            assert(w.sources()[k] == s);
        }
    }
    assert(w.as_map() =~= v.as_map().insert(rv.source, rv)) by {
        lemma_index_of_source_unique(w, n);
        assert forall|s: Seq<char>| #![auto] w.has_source(s) && s != rv.source
            implies v.has_source(s) && w.report_for(s) == v.report_for(s) by {
            let j = w.index_of_source(s);
            assert(0 <= j < w.reports.len() && w.reports[j].source == s);
            assert(j != n);
            assert(v.sources()[j] == s);
            lemma_index_of_source_unique(v, j);
            lemma_index_of_source_unique(w, j);
        }
        assert forall|s: Seq<char>| #![auto] v.has_source(s) implies w.has_source(s) by {
            let k = choose|k: int| 0 <= k < v.sources().len() && v.sources()[k] == s;
            assert(w.sources()[k] == s);
        }
    }
}

/// Law: a well-formed state stores no two reports under the same source
/// label, so a details listing never shows a duplicate label.
pub proof fn lemma_no_duplicate_sources(v: OracleView)
    requires
        v.wf(),
    ensures
        v.sources().no_duplicates(),
{
    assert forall|i: int, j: int|
        0 <= i < v.sources().len() && 0 <= j < v.sources().len() && i != j
        implies v.sources()[i] != v.sources()[j] by {
        assert(v.sources()[i] == v.reports[i].source);
        assert(v.sources()[j] == v.reports[j].source);
    }
}

/// Law: in a well-formed state the stored-report count equals the number
/// of distinct source labels stored, however often each label was
/// reported over.
pub proof fn lemma_count_is_distinct_sources(v: OracleView)
    requires
        v.wf(),
    ensures
        v.source_set().len() == v.reports.len(),
{
    lemma_no_duplicate_sources(v);
    v.sources().unique_seq_to_set();
}

/// Law: reading the aggregate price fails with `InsufficientSources`,
/// carrying the threshold and the stored-source count, exactly when fewer
/// sources are stored than the threshold asks for, and never otherwise.
pub proof fn lemma_price_requires_quorum(v: OracleView)
    ensures
        v.reports.len() < v.min_sources ==> v.price_result() == Err::<u128, OracleError>(
            OracleError::InsufficientSources {
                required: v.min_sources,
                actual: v.reports.len() as u8,
            },
        ),
        v.reports.len() >= v.min_sources ==> !(v.price_result() matches Err(
            OracleError::InsufficientSources { .. },
        )),
{
}

/// Law: with the quorum met and the sum of the stored prices
/// representable, the aggregate price is exactly the truncating mean
/// `sum / count` of the stored prices.
pub proof fn lemma_price_is_truncating_mean(v: OracleView)
    requires
        v.min_sources <= v.reports.len(),
        v.price_sum() <= u128::MAX,
    ensures
        v.price_result() == Ok::<u128, OracleError>(
            (v.price_sum() / v.reports.len() as int) as u128,
        ),
{
}

impl PriceOracle {
    /// Creates the oracle owned by `owner`, with no reports, the
    /// never-updated sentinel timestamp, and the default quorum of 3.
    pub fn new(owner: String) -> (r: Self)
        ensures
            r@.owner == owner@,
            r@.reports == Seq::<ReportView>::empty(),
            r@.last_update == 0,
            r@.min_sources == 3,
            r@.wf(),
    {
        let r = PriceOracle { owner, prices: Vec::new(), last_update: 0, min_sources: 3 };
        proof {
            assert(r@.reports =~= Seq::<ReportView>::empty());
        }
        r
    }

    /// Reconfigures the quorum threshold; only the owner may do so.
    pub fn init(&mut self, caller: &String, min_sources: u8) -> (r: Result<(), OracleError>)
        ensures
            caller@ == old(self)@.owner ==> r == Ok::<(), OracleError>(())
                && final(self)@ == (OracleView { min_sources, ..old(self)@ }),
            caller@ != old(self)@.owner ==> r == Err::<(), OracleError>(OracleError::Unauthorized)
                && final(self)@ == old(self)@,
    {
        if !(*caller == self.owner) {
            return Err(OracleError::Unauthorized);
        }
        self.min_sources = min_sources;
        Ok(())
    }

    /// Overwrites the quorum threshold; only the owner may do so.
    pub fn set_min_sources(&mut self, caller: &String, min_sources: u8) -> (r: Result<
        (),
        OracleError,
    >)
        ensures
            caller@ == old(self)@.owner ==> r == Ok::<(), OracleError>(())
                && final(self)@ == (OracleView { min_sources, ..old(self)@ }),
            caller@ != old(self)@.owner ==> r == Err::<(), OracleError>(OracleError::Unauthorized)
                && final(self)@ == old(self)@,
    {
        if !(*caller == self.owner) {
            return Err(OracleError::Unauthorized);
        }
        self.min_sources = min_sources;
        Ok(())
    }

    /// Empties the stored reports and resets the last-update timestamp to
    /// the never-updated sentinel; only the owner may do so.
    pub fn clear_prices(&mut self, caller: &String) -> (r: Result<(), OracleError>)
        ensures
            caller@ == old(self)@.owner ==> r == Ok::<(), OracleError>(())
                && final(self)@ == (OracleView {
                    reports: Seq::<ReportView>::empty(),
                    last_update: 0,
                    ..old(self)@
                }) && final(self)@.wf(),
            caller@ != old(self)@.owner ==> r == Err::<(), OracleError>(OracleError::Unauthorized)
                && final(self)@ == old(self)@,
    {
        if !(*caller == self.owner) {
            return Err(OracleError::Unauthorized);
        }
        self.prices.clear();
        self.last_update = 0;
        proof {
            assert(self@.reports =~= Seq::<ReportView>::empty());
        }
        Ok(())
    }

    /// The position of the stored report labelled `source`, if any.
    fn find_source(&self, source: &String) -> (r: Option<usize>)
        ensures
            match r {
                Some(i) => i < self@.reports.len() && self@.reports[i as int].source == source@
                    && self@.has_source(source@),
                None => !self@.has_source(source@),
            },
    {
        let n = self.prices.len();
        let mut i: usize = 0;
        while i < n
            invariant
                i <= n,
                n == self@.reports.len(),
                forall|k: int| 0 <= k < i ==> self@.reports[k].source != source@,
            decreases n - i,
        {
            if self.prices[i].source == *source {
                proof {
                    assert(self@.sources()[i as int] == source@);
                }
                return Some(i);
            }
            i += 1;
        }
        proof {
            assert forall|k: int| 0 <= k < self@.sources().len()
                implies self@.sources()[k] != source@ by {
                assert(self@.sources()[k] == self@.reports[k].source);
            }
        }
        None
    }

    /// Stores the report that `caller` submits at host clock reading
    /// `timestamp_ns` for `source`, replacing any prior report stored
    /// under the same source label, and advances the last-update
    /// timestamp to the new report's.
    ///
    /// No caller-identity restriction: any account may report under any
    /// source label.
    pub fn report_price(&mut self, caller: String, timestamp_ns: u64, source: String, price_usd: u128)
        requires
            old(self)@.wf(),
        ensures
            final(self)@.wf(),
            final(self)@.owner == old(self)@.owner,
            final(self)@.min_sources == old(self)@.min_sources,
            final(self)@.last_update == timestamp_ns / 1_000_000_000,
            old(self)@.has_source(source@) ==> final(self)@.reports == old(self)@.reports.update(
                old(self)@.index_of_source(source@),
                made_report(caller@, timestamp_ns, source@, price_usd),
            ),
            !old(self)@.has_source(source@) ==> final(self)@.reports == old(self)@.reports.push(
                made_report(caller@, timestamp_ns, source@, price_usd),
            ),
            final(self)@.as_map() == old(self)@.as_map().insert(
                source@,
                made_report(caller@, timestamp_ns, source@, price_usd),
            ),
            final(self)@.source_set() == old(self)@.source_set().insert(source@),
    {
        let ghost rv = made_report(caller@, timestamp_ns, source@, price_usd);
        let timestamp: u64 = timestamp_ns / 1_000_000_000;
        let report = PriceReport { source: source.clone(), price_usd, timestamp, reporter: caller };
        proof {
            assert(report@ == rv);
        }
        match self.find_source(&source) {
            Some(i) => {
                self.prices[i] = report;
                proof {
                    assert(self@.reports =~= old(self)@.reports.update(i as int, rv));
                    lemma_index_of_source_unique(old(self)@, i as int);
                    lemma_effects_of_replace(old(self)@, self@, i as int, rv);
                }
            }
            None => {
                self.prices.push(report);
                proof {
                    assert(self@.reports =~= old(self)@.reports.push(rv));
                    lemma_effects_of_push(old(self)@, self@, rv);
                }
            }
        }
        self.last_update = timestamp;
    }

    /// The aggregate price: the truncating mean, in micro-dollars, of the
    /// latest prices of all stored sources.
    ///
    /// Fails with [`OracleError::InsufficientSources`] exactly when fewer
    /// distinct sources are stored than the quorum threshold asks for,
    /// and with [`OracleError::Overflow`] exactly when the sum of the
    /// stored prices does not fit the summation width. The one state this
    /// cannot answer for is a zero threshold with nothing stored, where a
    /// mean does not exist.
    pub fn get_price(&self) -> (r: Result<u128, OracleError>)
        requires
            self@.min_sources > 0 || self@.reports.len() > 0,
        ensures
            r == self@.price_result(),
    {
        let n = self.prices.len();
        if n < self.min_sources as usize {
            return Err(OracleError::InsufficientSources {
                required: self.min_sources,
                actual: n as u8,
            });
        }
        let mut total: u128 = 0;
        let mut i: usize = 0;
        while i < n
            invariant
                i <= n,
                n == self@.reports.len(),
                n >= self@.min_sources,
                total == sum_prices(self@.reports.take(i as int)),
            decreases n - i,
        {
            proof {
                lemma_sum_take_succ(self@.reports, i as int);
            }
            match total.checked_add(self.prices[i].price_usd) {
                Some(t) => {
                    total = t;
                }
                None => {
                    proof {
                        lemma_sum_take_le(self@.reports, i + 1);
                    }
                    return Err(OracleError::Overflow);
                }
            }
            i += 1;
        }
        proof {
            assert(self@.reports.take(n as int) =~= self@.reports);
        }
        Ok(total / (n as u128))
    }

    /// Every currently stored report, one per source, in storage order.
    pub fn get_price_details(&self) -> (r: Vec<PriceReport>)
        ensures
            r@.map_values(|p: PriceReport| p@) == self@.reports,
    {
        let mut out: Vec<PriceReport> = Vec::new();
        let mut i: usize = 0;
        let n = self.prices.len();
        while i < n
            invariant
                i <= n,
                n == self@.reports.len(),
                out@.len() == i,
                out@.map_values(|p: PriceReport| p@) =~= self@.reports.take(i as int),
            decreases n - i,
        {
            out.push(self.prices[i].clone());
            proof {
                assert(out@[i as int]@ == self@.reports[i as int]);
                assert(out@.map_values(|p: PriceReport| p@) =~= self@.reports.take(i + 1));
            }
            i += 1;
        }
        proof {
            assert(self@.reports.take(n as int) =~= self@.reports);
        }
        out
    }

    /// The timestamp of the most recently accepted report, or 0 when no
    /// report has been accepted since creation or the last clearing.
    pub fn get_last_update(&self) -> (r: u64)
        ensures
            r == self@.last_update,
    {
        self.last_update
    }

    /// The current quorum threshold.
    pub fn get_min_sources(&self) -> (r: u8)
        ensures
            r == self@.min_sources,
    {
        self.min_sources
    }

    /// Whether enough distinct sources have reported for the aggregate
    /// price to be valid.
    pub fn is_valid(&self) -> (r: bool)
        ensures
            r == (self@.reports.len() >= self@.min_sources),
    {
        self.prices.len() >= self.min_sources as usize
    }

    /// The number of distinct sources currently stored, truncated to the
    /// width of the return type.
    pub fn get_source_count(&self) -> (r: u8)
        ensures
            r == self@.reports.len() % 256,
            self@.reports.len() <= u8::MAX ==> r == self@.reports.len(),
    {
        (self.prices.len() % 256) as u8
    }
}

} // verus!
