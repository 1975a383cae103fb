//! Shared state for sampled data available to readers: time series, the
//! data of each run, and the run registry.

use vstd::prelude::*;
use crate::reservoir::{Basin, StageReservoir, lemma_sampled, law_short_stream_kept_whole, sampled, strictly_ascending, valid_draws};
use crate::types::{Run, Step, Tag, WallTime};
use vstd::rwlock::{RwLock, RwLockPredicate};

verus! {

/// A value in a time series is corrupt and should be ignored.
///
/// A point may look reasonable when offered to the reservoir and only turn
/// out unusable when decoded at commit time. It keeps its slot as a
/// tombstone; `TimeSeries::valid_values` leaves it out.
#[derive(Debug, Clone, Copy, PartialEq, Eq, Structural)]
pub struct DataLoss;

/// The value of a scalar time series at a single point, held as the bit
/// pattern of a binary32 number.
#[derive(Debug, Clone, Copy, PartialEq, Eq, Structural)]
pub struct ScalarValue(pub u32);

/// Descriptive metadata of a time series, fixed when the series is created.
#[derive(Debug, Clone)]
pub struct SummaryMetadata {
    /// Name of the plugin that owns the series.
    pub plugin_name: String,
    /// Plugin-specific content, opaque here.
    pub plugin_content: Vec<u8>,
    /// Human-readable name of the series.
    pub display_name: String,
    /// Longer description of the series.
    pub summary_description: String,
    /// Kind of data the series holds, as its numeric code.
    pub data_class: i32,
}

impl Default for SummaryMetadata {
    fn default() -> (r: Self)
        ensures
            r.plugin_name@.len() == 0,
            r.plugin_content@.len() == 0,
            r.display_name@.len() == 0,
            r.summary_description@.len() == 0,
            r.data_class == 0,
    {
        SummaryMetadata {
            plugin_name: String::new(),
            plugin_content: Vec::new(),
            display_name: String::new(),
            summary_description: String::new(),
            data_class: 0,
        }
    }
}

/// An entry of a basin: a step, its wall time, and its value or a tombstone.
pub type Point<V> = (Step, (WallTime, Result<V, DataLoss>));

/// The read projection of a basin's entries: in the same order, each entry
/// that holds a value, as (step, wall time, value); tombstones left out.
pub open spec fn valid_points<V>(s: Seq<Point<V>>) -> Seq<(Step, WallTime, V)>
    decreases s.len(),
{
    if s.len() == 0 {
        Seq::empty()
    } else {
        let rest = valid_points(s.drop_last());
        match s.last().1.1 {
            Ok(v) => rest.push((s.last().0, s.last().1.0, v)),
            Err(_) => rest,
        }
    }
}

/// `r` lists the points of `p`, each value by reference.
pub open spec fn refers_to<V>(r: Seq<(Step, WallTime, &V)>, p: Seq<(Step, WallTime, V)>) -> bool {
    &&& r.len() == p.len()
    &&& forall|i: int| 0 <= i < r.len() ==> (#[trigger] r[i]).0 == p[i].0 && r[i].1 == p[i].1 && *r[i].2 == p[i].2
}

/// Steps strictly ascending along a read projection.
pub open spec fn points_ascending<V>(p: Seq<(Step, WallTime, V)>) -> bool {
    forall|i: int, j: int| 0 <= i < j < p.len() ==> p[i].0.0 < p[j].0.0
}

/// A time series: its metadata and the basin that readers see.
#[derive(Debug)]
pub struct TimeSeries<V> {
    /// Summary metadata for this time series.
    pub metadata: Box<SummaryMetadata>,
    /// Reservoir basin for the data points of this time series; see
    /// `TimeSeries::valid_values` for the view that omits tombstones.
    pub basin: Basin<(WallTime, Result<V, DataLoss>)>,
}

impl<V> TimeSeries<V> {
    /// Creates a new time series with the given summary metadata and an
    /// empty basin.
    pub fn new(metadata: Box<SummaryMetadata>) -> (r: Self)
        ensures
            r.metadata == metadata,
            r.basin.entries() == Seq::<Point<V>>::empty(),
    {
        TimeSeries { metadata, basin: Basin::new() }
    }

    /// The points of the basin that hold a value, ascending by step, as
    /// (step, wall time, value).
    pub fn valid_values(&self) -> (r: Vec<(Step, WallTime, &V)>)
        ensures
            refers_to(r@, valid_points(self.basin.entries())),
            points_ascending(valid_points(self.basin.entries())),
    {
        let entries = self.basin.as_slice();
        let mut out: Vec<(Step, WallTime, &V)> = Vec::new();
        let mut i: usize = 0;
        while i < entries.len()
            invariant
                entries@ == self.basin.entries(),
                strictly_ascending(entries@),
                i <= entries@.len(),
                refers_to(out@, valid_points(entries@.subrange(0, i as int))),
            decreases entries@.len() - i,
        {
            let ghost pre = entries@.subrange(0, i as int);
            assert(entries@.subrange(0, i + 1).drop_last() =~= pre);
            let (step, (wall_time, v)) = &entries[i];
            match v {
                Ok(value) => {
                    out.push((*step, *wall_time, value));
                },
                Err(_) => {},
            }
            i = i + 1;
        }
        assert(entries@.subrange(0, entries@.len() as int) =~= entries@);
        proof {
            lemma_valid_points_ascending(entries@);
        }
        out
    }
}

/// The read projection of strictly ascending entries is strictly ascending,
/// and each of its steps is at most the last entry's.
pub proof fn lemma_valid_points_ascending<V>(s: Seq<Point<V>>)
    requires
        strictly_ascending(s),
    ensures
        points_ascending(valid_points(s)),
        s.len() > 0 ==> forall|i: int| 0 <= i < valid_points(s).len() ==> (#[trigger] valid_points(s)[i]).0.0 <= s.last().0.0,
    decreases s.len(),
{
    if s.len() > 0 {
        let pre = s.drop_last();
        assert(strictly_ascending(pre));
        lemma_valid_points_ascending(pre);
        if pre.len() > 0 {
            assert(pre.last().0.0 < s.last().0.0);
        }
    }
}

/// Time series of one run, keyed by tag, each tag at most once.
pub type TagStore<V> = Vec<(Tag, TimeSeries<V>)>;

/// The series of a tag store as a map from tag name to series.
pub open spec fn tag_map<V>(s: Seq<(Tag, TimeSeries<V>)>) -> Map<Seq<char>, TimeSeries<V>>
    decreases s.len(),
{
    if s.len() == 0 {
        Map::empty()
    } else {
        tag_map(s.drop_last()).insert(s.last().0.0@, s.last().1)
    }
}

/// No tag occurs twice in a tag store.
pub open spec fn tags_unique<V>(s: Seq<(Tag, TimeSeries<V>)>) -> bool {
    forall|i: int, j: int| 0 <= i < j < s.len() ==> s[i].0.0@ != s[j].0.0@
}

/// A run's start time after a series is added to it: set from the series'
/// first valid point when it was unset, and never changed once set.
pub open spec fn start_time_after<V>(st: Option<WallTime>, e: Seq<Point<V>>) -> Option<WallTime> {
    if st.is_none() && valid_points(e).len() > 0 {
        Some(valid_points(e)[0].1)
    } else {
        st
    }
}

/// Data for a single run: its start time and its scalar time series.
#[derive(Debug)]
pub struct RunData {
    /// Wall time of the first valid point recorded for this run. Gives runs
    /// an order that stays stable as new runs are added.
    pub start_time: Option<WallTime>,
    /// Scalar time series of this run.
    pub scalars: TagStore<ScalarValue>,
}

impl RunData {
    /// Each tag names at most one series.
    pub open spec fn wf(&self) -> bool {
        tags_unique(self.scalars@)
    }

    /// The scalar series of this run by tag name.
    pub open spec fn series(&self) -> Map<Seq<char>, TimeSeries<ScalarValue>> {
        tag_map(self.scalars@)
    }

    /// Creates the data of a run with no start time and no series.
    pub fn new() -> (r: Self)
        ensures
            r.wf(),
            r.start_time.is_none(),
            r.series() == Map::<Seq<char>, TimeSeries<ScalarValue>>::empty(),
    {
        RunData { start_time: None, scalars: Vec::new() }
    }

    /// Position of the series with the given tag, if there is one.
    fn position(&self, tag: &String) -> (r: Option<usize>)
        requires
            self.wf(),
        ensures
            r.is_none() <==> !self.series().contains_key(tag@),
            r.is_some() ==> r.unwrap() < self.scalars@.len() && self.scalars@[r.unwrap() as int].0.0@ == tag@,
    {
        let mut i: usize = 0;
        while i < self.scalars.len()
            invariant
                self.wf(),
                i <= self.scalars@.len(),
                forall|j: int| 0 <= j < i ==> self.scalars@[j].0.0@ != tag@,
            decreases self.scalars@.len() - i,
        {
            if self.scalars[i].0.0 == *tag {
                proof {
                    lemma_tag_map_at(self.scalars@, i as int);
                }
                return Some(i);
            }
            i = i + 1;
        }
        proof {
            lemma_tag_map_keys(self.scalars@, tag@);
        }
        None
    }

    /// The scalar series with the given tag, if there is one.
    pub fn scalar_series(&self, tag: &String) -> (r: Option<&TimeSeries<ScalarValue>>)
        requires
            self.wf(),
        ensures
            r.is_none() <==> !self.series().contains_key(tag@),
            r.is_some() ==> *r.unwrap() == self.series()[tag@],
    {
        match self.position(tag) {
            Some(i) => {
                proof {
                    lemma_tag_map_at(self.scalars@, i as int);
                }
                Some(&self.scalars[i].1)
            },
            None => None,
        }
    }

    /// Adds a scalar series under `tag`, replacing any series there, and
    /// sets the run's start time from the series' first valid point if the
    /// run had none.
    pub fn insert_scalars(&mut self, tag: Tag, time_series: TimeSeries<ScalarValue>)
        requires
            old(self).wf(),
        ensures
            final(self).wf(),
            final(self).series() == old(self).series().insert(tag.0@, time_series),
            final(self).start_time == start_time_after(old(self).start_time, time_series.basin.entries()),
    {
        if self.start_time.is_none() {
            let first = {
                let vs = time_series.valid_values();
                if vs.len() > 0 {
                    Some(vs[0].1)
                } else {
                    None
                }
            };
            if first.is_some() {
                self.start_time = first;
            }
        }
        let ghost s0 = self.scalars@;
        let ghost key = tag.0@;
        let ghost ts = time_series;
        match self.position(&tag.0) {
            Some(i) => {
                self.scalars.set(i, (tag, time_series));
                proof {
                    lemma_tag_map_update(s0, i as int, key, ts);
                    assert(self.scalars@ == s0.update(i as int, self.scalars@[i as int]));
                }
            },
            None => {
                self.scalars.push((tag, time_series));
                proof {
                    assert(self.scalars@.drop_last() =~= s0);
                    lemma_tag_map_keys(s0, key);
                }
            },
        }
    }
}

/// A key is in the map of a tag store exactly when some entry has it.
pub proof fn lemma_tag_map_keys<V>(s: Seq<(Tag, TimeSeries<V>)>, k: Seq<char>)
    ensures
        tag_map(s).contains_key(k) <==> exists|i: int| 0 <= i < s.len() && (#[trigger] s[i]).0.0@ == k,
    decreases s.len(),
{
    if s.len() > 0 {
        let pre = s.drop_last();
        lemma_tag_map_keys(pre, k);
        if exists|i: int| 0 <= i < pre.len() && (#[trigger] pre[i]).0.0@ == k {
            let i = choose|i: int| 0 <= i < pre.len() && (#[trigger] pre[i]).0.0@ == k;
            assert(s[i] == pre[i]);
        }
        if exists|i: int| 0 <= i < s.len() && (#[trigger] s[i]).0.0@ == k {
            let i = choose|i: int| 0 <= i < s.len() && (#[trigger] s[i]).0.0@ == k;
            if i < pre.len() {
                assert(pre[i] == s[i]);
            }
        }
    }
}

/// In a store without repeated tags, the map sends each entry's tag to that
/// entry's series.
pub proof fn lemma_tag_map_at<V>(s: Seq<(Tag, TimeSeries<V>)>, i: int)
    requires
        tags_unique(s),
        0 <= i < s.len(),
    ensures
        tag_map(s).contains_key(s[i].0.0@),
        tag_map(s)[s[i].0.0@] == s[i].1,
    decreases s.len(),
{
    let pre = s.drop_last();
    if i < s.len() - 1 {
        assert(tags_unique(pre));
        lemma_tag_map_at(pre, i);
        assert(pre[i] == s[i]);
    }
}

/// Overwriting the entry of a tag in a store without repeated tags updates
/// the map at that tag alone.
pub proof fn lemma_tag_map_update<V>(s: Seq<(Tag, TimeSeries<V>)>, i: int, k: Seq<char>, x: TimeSeries<V>)
    requires
        tags_unique(s),
        0 <= i < s.len(),
        s[i].0.0@ == k,
    ensures
        forall|t: Tag| t.0@ == k ==> #[trigger] tag_map(s.update(i, (t, x))) == tag_map(s).insert(k, x),
        forall|t: Tag| t.0@ == k ==> #[trigger] tags_unique(s.update(i, (t, x))),
    decreases s.len(),
{
    let pre = s.drop_last();
    assert forall|t: Tag| t.0@ == k implies #[trigger] tag_map(s.update(i, (t, x))) == tag_map(s).insert(k, x)
        && tags_unique(s.update(i, (t, x))) by {
        let u = s.update(i, (t, x));
        if i == s.len() - 1 {
            assert(u.drop_last() =~= pre);
            assert(tag_map(u) =~= tag_map(s).insert(k, x));
        } else {
            assert(tags_unique(pre));
            lemma_tag_map_update(pre, i, k, x);
            assert(u.drop_last() =~= pre.update(i, (t, x)));
            assert(s[i].0.0@ != s[s.len() - 1].0.0@);
            assert(u.last() == s.last());
            assert(tag_map(u) == tag_map(pre.update(i, (t, x))).insert(s.last().0.0@, s.last().1));
            assert(tag_map(u) =~= tag_map(s).insert(k, x));
        }
        assert forall|a: int, b: int| 0 <= a < b < u.len() implies u[a].0.0@ != u[b].0.0@ by {
            if a != i && b != i {
                assert(u[a] == s[a] && u[b] == s[b]);
            } else if a == i {
                assert(u[b] == s[b]);
            } else {
                assert(u[a] == s[a]);
            }
        }
    }
}

/// Once a run has a start time, adding series never changes it.
pub proof fn law_start_time_fixed<V>(st: Option<WallTime>, e: Seq<Point<V>>)
    requires
        st.is_some(),
    ensures
        start_time_after(st, e) == st,
{
}

/// Adding series under two different tags gives the same series map in
/// either order, and the same start time unless the run had none and both
/// series hold a valid point, with different first wall times.
pub proof fn law_distinct_tags_commute<V>(
    st: Option<WallTime>,
    m: Map<Seq<char>, TimeSeries<V>>,
    a: Seq<char>,
    x: TimeSeries<V>,
    b: Seq<char>,
    y: TimeSeries<V>,
)
    requires
        a != b,
        st.is_some() || valid_points(x.basin.entries()).len() == 0 || valid_points(y.basin.entries()).len() == 0
            || valid_points(x.basin.entries())[0].1 == valid_points(y.basin.entries())[0].1,
    ensures
        m.insert(a, x).insert(b, y) == m.insert(b, y).insert(a, x),
        start_time_after(start_time_after(st, x.basin.entries()), y.basin.entries())
            == start_time_after(start_time_after(st, y.basin.entries()), x.basin.entries()),
{
    assert(m.insert(a, x).insert(b, y) =~= m.insert(b, y).insert(a, x));
}

/// Entries that all hold values project onto themselves, one for one.
pub proof fn lemma_all_valid<V>(s: Seq<Point<V>>)
    requires
        forall|i: int| 0 <= i < s.len() ==> (#[trigger] s[i]).1.1 is Ok,
    ensures
        valid_points(s).len() == s.len(),
        forall|i: int| 0 <= i < s.len() ==> #[trigger] valid_points(s)[i] == (s[i].0, s[i].1.0, s[i].1.1->Ok_0),
    decreases s.len(),
{
    if s.len() > 0 {
        let pre = s.drop_last();
        assert forall|i: int| 0 <= i < pre.len() implies (#[trigger] pre[i]).1.1 is Ok by {
            assert(pre[i] == s[i]);
        }
        lemma_all_valid(pre);
        assert(s.last() == s[s.len() - 1]);
        assert forall|i: int| 0 <= i < s.len() implies #[trigger] valid_points(s)[i] == (s[i].0, s[i].1.0, s[i].1.1->Ok_0) by {
            if i < pre.len() {
                assert(pre[i] == s[i]);
            }
        }
    }
}

/// Entries that are all tombstones project onto nothing.
pub proof fn lemma_all_lost<V>(s: Seq<Point<V>>)
    requires
        forall|i: int| 0 <= i < s.len() ==> (#[trigger] s[i]).1.1 is Err,
    ensures
        valid_points(s).len() == 0,
    decreases s.len(),
{
    if s.len() > 0 {
        let pre = s.drop_last();
        assert forall|i: int| 0 <= i < pre.len() implies (#[trigger] pre[i]).1.1 is Err by {
            assert(pre[i] == s[i]);
        }
        lemma_all_lost(pre);
        assert(s.last() == s[s.len() - 1]);
    }
}

/// A stream of valid points no longer than the capacity reads back whole:
/// every offered point, in the order offered, and no tombstone.
pub proof fn law_short_stream_reads_back<V>(cap: nat, items: Seq<Point<V>>, draws: Seq<int>)
    requires
        items.len() <= cap,
        draws.len() >= items.len(),
        forall|i: int| 0 <= i < items.len() ==> (#[trigger] items[i]).1.1 is Ok,
    ensures
        valid_points(sampled(cap, items, draws)).len() == items.len(),
        forall|i: int| 0 <= i < items.len() ==>
            #[trigger] valid_points(sampled(cap, items, draws))[i] == (items[i].0, items[i].1.0, items[i].1.1->Ok_0),
{
    law_short_stream_kept_whole(cap, items, draws);
    lemma_all_valid(items);
}

/// When decoding turns every kept slot into a tombstone, the read projection
/// is empty while the basin still holds `min(n, cap)` entries.
pub proof fn law_all_lost_reads_empty<T, V>(cap: nat, items: Seq<(Step, T)>, draws: Seq<int>, e: Seq<Point<V>>)
    requires
        cap >= 1,
        strictly_ascending(items),
        valid_draws(cap, items.len(), draws),
        e.len() == sampled(cap, items, draws).len(),
        forall|i: int| 0 <= i < e.len() ==> (#[trigger] e[i]).1.1 is Err,
    ensures
        valid_points(e).len() == 0,
        e.len() == if items.len() <= cap { items.len() } else { cap },
{
    lemma_sampled(cap, items, draws);
    lemma_all_lost(e);
}

/// What the lock around a run's data guarantees of it: each tag names at
/// most one series.
pub struct RunDataInv;

impl RwLockPredicate<RunData> for RunDataInv {
    open spec fn inv(self, v: RunData) -> bool {
        v.wf()
    }
}

/// The runs of a commit, each with the lock around its data.
pub type RunStore = Vec<(Run, RwLock<RunData, RunDataInv>)>;

/// No run occurs twice in a run store.
pub open spec fn runs_unique(s: Seq<(Run, RwLock<RunData, RunDataInv>)>) -> bool {
    forall|i: int, j: int| 0 <= i < j < s.len() ==> s[i].0.0@ != s[j].0.0@
}

/// What the outer lock of a commit guarantees of its run store.
pub struct RunStoreInv;

impl RwLockPredicate<RunStore> for RunStoreInv {
    open spec fn inv(self, v: RunStore) -> bool {
        runs_unique(v@)
    }
}

/// Current state of in-memory sampled data, shared by the single writer and
/// any number of readers.
///
/// Deadlock safety: every operation takes the outer lock (around the run
/// store) before an inner lock (around one run's data), and holds at most
/// one inner lock at a time. The methods here keep that order.
pub struct Commit {
    pub runs: RwLock<RunStore, RunStoreInv>,
}

/// Position of `run` in a run store, if it is there.
fn run_position(store: &RunStore, run: &String) -> (r: Option<usize>)
    ensures
        r.is_none() <==> forall|j: int| 0 <= j < store@.len() ==> store@[j].0.0@ != run@,
        r.is_some() ==> r.unwrap() < store@.len() && store@[r.unwrap() as int].0.0@ == run@,
{
    let mut i: usize = 0;
    while i < store.len()
        invariant
            i <= store@.len(),
            forall|j: int| 0 <= j < i ==> store@[j].0.0@ != run@,
        decreases store@.len() - i,
    {
        if store[i].0.0 == *run {
            return Some(i);
        }
        i = i + 1;
    }
    None
}

impl Commit {
    /// Creates a new, empty commit.
    pub fn new() -> (r: Self) {
        Commit { runs: RwLock::new(Vec::new(), Ghost(RunStoreInv)) }
    }

    /// Makes sure that `run` has data, creating it empty if it had none.
    /// Takes the outer lock exclusively only when the run is new.
    pub fn ensure_run(&self, run: &Run) {
        let present = {
            let h = self.runs.acquire_read();
            let found = run_position(h.borrow(), &run.0).is_some();
            h.release_read();
            found
        };
        if !present {
            let (mut store, h) = self.runs.acquire_write();
            if run_position(&store, &run.0).is_none() {
                let ghost s0 = store@;
                store.push((Run(run.0.clone()), RwLock::new(RunData::new(), Ghost(RunDataInv))));
                assert(store@.drop_last() =~= s0);
                assert(runs_unique(store@)) by {
                    assert forall|i: int, j: int| 0 <= i < j < store@.len() implies store@[i].0.0@ != store@[j].0.0@ by {
                        if j < s0.len() {
                            assert(store@[i] == s0[i] && store@[j] == s0[j]);
                        } else {
                            assert(store@[i] == s0[i]);
                        }
                    }
                }
            }
            h.release_write(store);
        }
    }

    /// Publishes a scalar series under `tag` in `run`, creating the run if
    /// needed and setting its start time from the series if it had none.
    /// Readers see either the series before or after, never a mixture.
    pub fn commit_scalars(&self, run: &Run, tag: Tag, time_series: TimeSeries<ScalarValue>) {
        self.ensure_run(run);
        let h = self.runs.acquire_read();
        let store = h.borrow();
        match run_position(store, &run.0) {
            Some(i) => {
                let (mut data, wh) = store[i].1.acquire_write();
                data.insert_scalars(tag, time_series);
                wh.release_write(data);
            },
            None => {},
        }
        h.release_read();
    }

    /// Sets the start time of `run`, creating the run if needed.
    pub fn set_start_time(&self, run: &Run, start_time: Option<WallTime>) {
        self.ensure_run(run);
        let h = self.runs.acquire_read();
        let store = h.borrow();
        match run_position(store, &run.0) {
            Some(i) => {
                let (mut data, wh) = store[i].1.acquire_write();
                data.start_time = start_time;
                wh.release_write(data);
            },
            None => {},
        }
        h.release_read();
    }

    /// The start time of `run`: `None` if the run is unknown.
    pub fn start_time(&self, run: &Run) -> (r: Option<Option<WallTime>>) {
        let h = self.runs.acquire_read();
        let store = h.borrow();
        let r = match run_position(store, &run.0) {
            Some(i) => {
                let rh = store[i].1.acquire_read();
                let st = rh.borrow().start_time;
                rh.release_read();
                Some(st)
            },
            None => None,
        };
        h.release_read();
        r
    }

    /// The read projection of the scalar series `tag` of `run`, as a
    /// snapshot taken under the run's lock: `None` if there is no such
    /// series. Its steps are strictly ascending.
    pub fn scalar_values(&self, run: &Run, tag: &Tag) -> (r: Option<Vec<(Step, WallTime, ScalarValue)>>)
        ensures
            r.is_some() ==> points_ascending(r.unwrap()@),
    {
        let h = self.runs.acquire_read();
        let store = h.borrow();
        let r = match run_position(store, &run.0) {
            Some(i) => {
                let rh = store[i].1.acquire_read();
                let data = rh.borrow();
                let out = match data.scalar_series(&tag.0) {
                    Some(ts) => Some(copy_points(ts)),
                    None => None,
                };
                rh.release_read();
                out
            },
            None => None,
        };
        h.release_read();
        r
    }

    /// The names of the runs, in the order in which they were created.
    pub fn run_names(&self) -> (r: Vec<Run>)
    {
        let h = self.runs.acquire_read();
        let store = h.borrow();
        let mut out: Vec<Run> = Vec::new();
        let mut i: usize = 0;
        while i < store.len()
            invariant
                i <= store@.len(),
            decreases store@.len() - i,
        {
            out.push(Run(store[i].0.0.clone()));
            i = i + 1;
        }
        h.release_read();
        out
    }
}

/// The read projection of a scalar series, values copied out.
fn copy_points(ts: &TimeSeries<ScalarValue>) -> (r: Vec<(Step, WallTime, ScalarValue)>)
    ensures
        r@ == valid_points(ts.basin.entries()),
        points_ascending(r@),
{
    let vs = ts.valid_values();
    let mut out: Vec<(Step, WallTime, ScalarValue)> = Vec::new();
    let mut i: usize = 0;
    while i < vs.len()
        invariant
            refers_to(vs@, valid_points(ts.basin.entries())),
            i <= vs@.len(),
            out@ == valid_points(ts.basin.entries()).subrange(0, i as int),
        decreases vs@.len() - i,
    {
        let (step, wall_time, value) = vs[i];
        out.push((step, wall_time, *value));
        assert(out@ =~= valid_points(ts.basin.entries()).subrange(0, i + 1));
        i = i + 1;
    }
    assert(out@ =~= valid_points(ts.basin.entries()));
    out
}

/// When a commit of a reservoir decodes every kept slot into a tombstone,
/// the basin reads back empty yet holds `min(seen, cap)` entries.
pub proof fn law_reservoir_all_lost<T, V>(r: &StageReservoir<T>, e: Seq<Point<V>>)
    requires
        r.wf(),
        e.len() == r.slots().len(),
        forall|i: int| 0 <= i < e.len() ==> (#[trigger] e[i]).1.1 is Err,
    ensures
        valid_points(e).len() == 0,
        e.len() == if r.seen() <= r.cap() { r.seen() } else { r.cap() },
{
    r.lemma_wf();
    lemma_all_lost(e);
}

} // verus!
