//! Utilities for constructing commits with given data.
//!
//! A `CommitBuilder` owns its runs outright, so it keeps them in a plain
//! vector and puts each under its lock only when the commit is built.

use vstd::prelude::*;
use crate::commit::{
    Commit, RunData, RunDataInv, RunStore, RunStoreInv, ScalarValue, TimeSeries, runs_unique,
    start_time_after, valid_points,
};
use crate::types::{Run, Tag, WallTime};
use vstd::rwlock::RwLock;

verus! {

/// What a run holds, seen from outside: its start time and its series by tag.
pub type RunModel = (Option<WallTime>, Map<Seq<char>, TimeSeries<ScalarValue>>);

/// The model of a run's data.
pub open spec fn run_model(d: RunData) -> RunModel {
    (d.start_time, d.series())
}

/// The runs of a builder's store as a map from run name to model.
pub open spec fn runs_view(s: Seq<(String, RunData)>) -> Map<Seq<char>, RunModel>
    decreases s.len(),
{
    if s.len() == 0 {
        Map::empty()
    } else {
        runs_view(s.drop_last()).insert(s.last().0@, run_model(s.last().1))
    }
}

/// No run name occurs twice.
pub open spec fn names_unique(s: Seq<(String, RunData)>) -> bool {
    forall|i: int, j: int| 0 <= i < j < s.len() ==> s[i].0@ != s[j].0@
}

/// The model of `run` in `m`; a run not yet there has no start time and no
/// series.
pub open spec fn run_or_empty(m: Map<Seq<char>, RunModel>, run: Seq<char>) -> RunModel {
    if m.contains_key(run) {
        m[run]
    } else {
        (None, Map::empty())
    }
}

/// The runs after the series `ts` is stored under `run` and `tag`: the run
/// is created if needed, the series replaces any under that tag, the start
/// time is set from the series if unset, and nothing else changes.
pub open spec fn with_series(
    m: Map<Seq<char>, RunModel>,
    run: Seq<char>,
    tag: Seq<char>,
    ts: TimeSeries<ScalarValue>,
) -> Map<Seq<char>, RunModel> {
    let old = run_or_empty(m, run);
    m.insert(run, (start_time_after(old.0, ts.basin.entries()), old.1.insert(tag, ts)))
}

/// The runs after the start time of `run` is set to `st`: the run is
/// created if needed, and its series are kept.
pub open spec fn with_start_time(m: Map<Seq<char>, RunModel>, run: Seq<char>, st: Option<WallTime>) -> Map<
    Seq<char>,
    RunModel,
> {
    m.insert(run, (st, run_or_empty(m, run).1))
}

/// Builds a commit one run or series at a time.
pub struct CommitBuilder {
    runs: Vec<(String, RunData)>,
}

impl CommitBuilder {
    /// Run names are unique and each run's data is well formed.
    pub closed spec fn wf(&self) -> bool {
        &&& names_unique(self.runs@)
        &&& forall|i: int| 0 <= i < self.runs@.len() ==> (#[trigger] self.runs@[i]).1.wf()
    }

    /// The runs built so far, by name.
    pub closed spec fn runs(&self) -> Map<Seq<char>, RunModel> {
        runs_view(self.runs@)
    }

    /// Creates a new builder for an empty commit.
    pub fn new() -> (r: Self)
        ensures
            r.wf(),
            r.runs() == Map::<Seq<char>, RunModel>::empty(),
    {
        CommitBuilder { runs: Vec::new() }
    }

    /// Position of the run named `run`, if it is there.
    fn position(&self, run: &String) -> (r: Option<usize>)
        requires
            self.wf(),
        ensures
            r.is_none() <==> !self.runs().contains_key(run@),
            r.is_some() ==> r.unwrap() < self.runs@.len() && self.runs@[r.unwrap() as int].0@ == run@,
    {
        let mut i: usize = 0;
        while i < self.runs.len()
            invariant
                i <= self.runs@.len(),
                forall|j: int| 0 <= j < i ==> self.runs@[j].0@ != run@,
            decreases self.runs@.len() - i,
        {
            if self.runs[i].0 == *run {
                proof {
                    lemma_runs_view_keys(self.runs@, run@);
                }
                return Some(i);
            }
            i = i + 1;
        }
        proof {
            lemma_runs_view_keys(self.runs@, run@);
        }
        None
    }

    /// Takes the data of the run at `i` out, leaving empty data in its place.
    fn take_at(&mut self, i: usize) -> (r: RunData)
        requires
            old(self).wf(),
            i < old(self).runs@.len(),
        ensures
            final(self).wf(),
            final(self).runs@.len() == old(self).runs@.len(),
            final(self).runs@[i as int].0@ == old(self).runs@[i as int].0@,
            r == old(self).runs@[i as int].1,
            r.wf(),
            old(self).runs().contains_key(old(self).runs@[i as int].0@),
            run_model(r) == old(self).runs()[old(self).runs@[i as int].0@],
            final(self).runs() == old(self).runs().insert(old(self).runs@[i as int].0@, (None, Map::empty())),
    {
        let ghost s0 = self.runs@;
        proof {
            lemma_runs_view_at(s0, i as int);
        }
        let (n, d) = self.runs.remove(i);
        self.runs.insert(i, (n, RunData::new()));
        proof {
            let e = self.runs@[i as int];
            assert(self.runs@ =~= s0.update(i as int, e));
            lemma_runs_view_update(s0, i as int, e);
            assert forall|j: int| 0 <= j < self.runs@.len() implies (#[trigger] self.runs@[j]).1.wf() by {
                if j != i {
                    assert(self.runs@[j] == s0[j]);
                }
            }
        }
        d
    }

    /// Puts `data` in as the data of the run at `i`.
    fn replace_at(&mut self, i: usize, name: String, data: RunData)
        requires
            old(self).wf(),
            i < old(self).runs@.len(),
            old(self).runs@[i as int].0@ == name@,
            data.wf(),
        ensures
            final(self).wf(),
            final(self).runs() == old(self).runs().insert(name@, run_model(data)),
    {
        let ghost s0 = self.runs@;
        self.runs.set(i, (name, data));
        proof {
            lemma_runs_view_update(s0, i as int, self.runs@[i as int]);
            assert(self.runs@ == s0.update(i as int, self.runs@[i as int]));
            assert forall|j: int| 0 <= j < self.runs@.len() implies (#[trigger] self.runs@[j]).1.wf() by {
                if j != i {
                    assert(self.runs@[j] == s0[j]);
                }
            }
        }
    }

    /// Adds a new run at the end of the store.
    fn push_run(&mut self, name: String, data: RunData)
        requires
            old(self).wf(),
            !old(self).runs().contains_key(name@),
            data.wf(),
        ensures
            final(self).wf(),
            final(self).runs() == old(self).runs().insert(name@, run_model(data)),
    {
        let ghost s0 = self.runs@;
        proof {
            lemma_runs_view_keys(s0, name@);
        }
        self.runs.push((name, data));
        proof {
            assert(self.runs@.drop_last() =~= s0);
            assert forall|a: int, b: int| 0 <= a < b < self.runs@.len() implies self.runs@[a].0@ != self.runs@[b].0@ by {
                assert(self.runs@[a] == s0[a] || b < s0.len());
                if b < s0.len() {
                    assert(self.runs@[a] == s0[a] && self.runs@[b] == s0[b]);
                } else {
                    assert(self.runs@[a] == s0[a]);
                }
            }
            assert forall|j: int| 0 <= j < self.runs@.len() implies (#[trigger] self.runs@[j]).1.wf() by {
                if j < s0.len() {
                    assert(self.runs@[j] == s0[j]);
                }
            }
        }
    }

    /// Adds a scalar time series, creating the run if it doesn't exist, and
    /// setting its start time from the series' first valid point if unset.
    /// A series already under the tag is replaced whole.
    pub fn scalars(self, run: &str, tag: &str, time_series: TimeSeries<ScalarValue>) -> (r: Self)
        requires
            self.wf(),
        ensures
            r.wf(),
            r.runs() == with_series(self.runs(), run@, tag@, time_series),
    {
        let mut b = self;
        let name = run.to_owned();
        match b.position(&name) {
            Some(i) => {
                let mut data = b.take_at(i);
                data.insert_scalars(Tag(tag.to_owned()), time_series);
                b.replace_at(i, name, data);
            },
            None => {
                let mut data = RunData::new();
                data.insert_scalars(Tag(tag.to_owned()), time_series);
                b.push_run(name, data);
            },
        }
        assert(b.runs() =~= with_series(self.runs(), run@, tag@, time_series));
        b
    }

    /// Ensures that a run is present and sets its start time, keeping its
    /// series.
    pub fn run(self, run: &str, start_time: Option<WallTime>) -> (r: Self)
        requires
            self.wf(),
        ensures
            r.wf(),
            r.runs() == with_start_time(self.runs(), run@, start_time),
    {
        let mut b = self;
        let name = run.to_owned();
        match b.position(&name) {
            Some(i) => {
                let mut d = b.take_at(i);
                d.start_time = start_time;
                b.replace_at(i, name, d);
            },
            None => {
                let mut data = RunData::new();
                data.start_time = start_time;
                b.push_run(name, data);
            },
        }
        assert(b.runs() =~= with_start_time(self.runs(), run@, start_time));
        b
    }

    /// Consumes this builder and returns the commit, each run under its own
    /// lock.
    pub fn build(self) -> (r: Commit)
        requires
            self.wf(),
    {
        let mut src = self.runs;
        let mut store: RunStore = Vec::new();
        while src.len() > 0
            invariant
                names_unique(src@),
                forall|i: int| 0 <= i < src@.len() ==> (#[trigger] src@[i]).1.wf(),
                runs_unique(store@),
                forall|i: int, j: int| 0 <= i < store@.len() && 0 <= j < src@.len() ==> store@[i].0.0@ != src@[j].0@,
            decreases src@.len(),
        {
            let ghost s0 = src@;
            let ghost t0 = store@;
            let (name, data) = src.remove(0);
            assert(s0[0].1.wf());
            store.push((Run(name), RwLock::new(data, Ghost(RunDataInv))));
            proof {
                assert(src@ =~= s0.subrange(1, s0.len() as int));
                assert forall|i: int, j: int| 0 <= i < store@.len() && 0 <= j < src@.len() implies store@[i].0.0@ != src@[j].0@ by {
                    assert(src@[j] == s0[j + 1]);
                    if i < t0.len() {
                        assert(store@[i] == t0[i]);
                    }
                }
                assert forall|i: int, j: int| 0 <= i < j < store@.len() implies store@[i].0.0@ != store@[j].0.0@ by {
                    if j < t0.len() {
                        assert(store@[i] == t0[i] && store@[j] == t0[j]);
                    } else {
                        assert(store@[i] == t0[i]);
                    }
                }
                assert forall|i: int| 0 <= i < src@.len() implies (#[trigger] src@[i]).1.wf() by {
                    assert(src@[i] == s0[i + 1]);
                }
            }
        }
        Commit { runs: RwLock::new(store, Ghost(RunStoreInv)) }
    }
}

/// A name is in the view of a store exactly when some entry has it.
pub proof fn lemma_runs_view_keys(s: Seq<(String, RunData)>, k: Seq<char>)
    ensures
        runs_view(s).contains_key(k) <==> exists|i: int| 0 <= i < s.len() && (#[trigger] s[i]).0@ == k,
    decreases s.len(),
{
    if s.len() > 0 {
        let pre = s.drop_last();
        lemma_runs_view_keys(pre, k);
        if exists|i: int| 0 <= i < pre.len() && (#[trigger] pre[i]).0@ == k {
            let i = choose|i: int| 0 <= i < pre.len() && (#[trigger] pre[i]).0@ == k;
            assert(s[i] == pre[i]);
        }
        if exists|i: int| 0 <= i < s.len() && (#[trigger] s[i]).0@ == k {
            let i = choose|i: int| 0 <= i < s.len() && (#[trigger] s[i]).0@ == k;
            if i < pre.len() {
                assert(pre[i] == s[i]);
            }
        }
    }
}

/// In a store without repeated names, the view sends each entry's name to
/// the model of that entry's data.
pub proof fn lemma_runs_view_at(s: Seq<(String, RunData)>, i: int)
    requires
        names_unique(s),
        0 <= i < s.len(),
    ensures
        runs_view(s).contains_key(s[i].0@),
        runs_view(s)[s[i].0@] == run_model(s[i].1),
    decreases s.len(),
{
    let pre = s.drop_last();
    if i < s.len() - 1 {
        assert(names_unique(pre));
        lemma_runs_view_at(pre, i);
        assert(pre[i] == s[i]);
    }
}

/// Overwriting the entry of a name in a store without repeated names updates
/// the view at that name alone.
pub proof fn lemma_runs_view_update(s: Seq<(String, RunData)>, i: int, e: (String, RunData))
    requires
        names_unique(s),
        0 <= i < s.len(),
        s[i].0@ == e.0@,
    ensures
        runs_view(s.update(i, e)) == runs_view(s).insert(e.0@, run_model(e.1)),
        names_unique(s.update(i, e)),
    decreases s.len(),
{
    let pre = s.drop_last();
    let u = s.update(i, e);
    if i == s.len() - 1 {
        assert(u.drop_last() =~= pre);
        assert(runs_view(u) =~= runs_view(s).insert(e.0@, run_model(e.1)));
    } else {
        assert(names_unique(pre));
        lemma_runs_view_update(pre, i, e);
        assert(u.drop_last() =~= pre.update(i, e));
        assert(s[i].0@ != s[s.len() - 1].0@);
        assert(u.last() == s.last());
        assert(runs_view(u) =~= runs_view(s).insert(e.0@, run_model(e.1)));
    }
    assert forall|a: int, b: int| 0 <= a < b < u.len() implies u[a].0@ != u[b].0@ by {
        if a != i && b != i {
            assert(u[a] == s[a] && u[b] == s[b]);
        } else if a == i {
            assert(u[b] == s[b]);
        } else {
            assert(u[a] == s[a]);
        }
    }
}

/// Storing two series under different (run, tag) pairs gives the same runs
/// in either order, unless both land in one run that has no start time yet
/// and both series hold a valid point, with different first wall times.
pub proof fn law_builder_commits_commute(
    m: Map<Seq<char>, RunModel>,
    r1: Seq<char>,
    t1: Seq<char>,
    x: TimeSeries<ScalarValue>,
    r2: Seq<char>,
    t2: Seq<char>,
    y: TimeSeries<ScalarValue>,
)
    requires
        r1 != r2 || t1 != t2,
        r1 == r2 ==> (run_or_empty(m, r1).0.is_some() || valid_points(x.basin.entries()).len() == 0
            || valid_points(y.basin.entries()).len() == 0 || valid_points(x.basin.entries())[0].1
            == valid_points(y.basin.entries())[0].1),
    ensures
        with_series(with_series(m, r1, t1, x), r2, t2, y) == with_series(with_series(m, r2, t2, y), r1, t1, x),
{
    let a = with_series(with_series(m, r1, t1, x), r2, t2, y);
    let b = with_series(with_series(m, r2, t2, y), r1, t1, x);
    if r1 == r2 {
        let o = run_or_empty(m, r1);
        assert(o.1.insert(t1, x).insert(t2, y) =~= o.1.insert(t2, y).insert(t1, x));
    }
    assert(a =~= b);
}

/// Storing the same series under the same run and tag twice leaves the runs
/// as storing it once.
pub proof fn law_builder_commit_idempotent(
    m: Map<Seq<char>, RunModel>,
    run: Seq<char>,
    tag: Seq<char>,
    ts: TimeSeries<ScalarValue>,
)
    ensures
        with_series(with_series(m, run, tag, ts), run, tag, ts) == with_series(m, run, tag, ts),
{
    let once = with_series(m, run, tag, ts);
    assert(once[run].1.insert(tag, ts) =~= once[run].1);
    assert(with_series(once, run, tag, ts) =~= once);
}

/// Once a run has a start time, storing series in it never changes it.
pub proof fn law_builder_start_time_fixed(
    m: Map<Seq<char>, RunModel>,
    run: Seq<char>,
    tag: Seq<char>,
    ts: TimeSeries<ScalarValue>,
)
    requires
        m.contains_key(run),
        m[run].0.is_some(),
    ensures
        with_series(m, run, tag, ts)[run].0 == m[run].0,
{
}

} // verus!
