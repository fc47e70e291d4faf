//! The launch history: for each application id, the times it was launched.
use vstd::prelude::*;

verus! {

/// The version of the history file format that is read and written.
pub const FILE_VERSION: u32 = 1;

/// The launches of one application, as Unix timestamps in seconds.
pub struct LaunchRecord {
    pub appid: String,
    pub launches: Vec<i64>,
}

/// Launch times per application id, and where they are kept on disk.
pub struct History {
    path: Option<String>,
    records: Vec<LaunchRecord>,
}

/// The map from application id to launch times held by `records`, a later
/// record for an id replacing an earlier one.
pub open spec fn records_map(records: Seq<LaunchRecord>) -> Map<Seq<char>, Seq<i64>>
    decreases records.len(),
{
    if records.len() == 0 {
        Map::empty()
    } else {
        records_map(records.drop_last()).insert(records.last().appid@, records.last().launches@)
    }
}

/// No two records share an application id.
pub open spec fn distinct_ids(records: Seq<LaunchRecord>) -> bool {
    forall|i: int, j: int|
        0 <= i < records.len() && 0 <= j < records.len() && i != j ==> records[i].appid@
            != records[j].appid@
}

/// The launches recorded for `appid` in `m` (none when it has no entry).
pub open spec fn launches_in(m: Map<Seq<char>, Seq<i64>>, appid: Seq<char>) -> Seq<i64> {
    if m.contains_key(appid) {
        m[appid]
    } else {
        seq![]
    }
}

/// The map that inserting the pairs one after another builds.
pub open spec fn pairs_map(pairs: Seq<(String, Vec<i64>)>) -> Map<Seq<char>, Seq<i64>>
    decreases pairs.len(),
{
    if pairs.len() == 0 {
        Map::empty()
    } else {
        pairs_map(pairs.drop_last()).insert(pairs.last().0@, pairs.last().1@)
    }
}

/// `m` after one more launch of `appid` at `timestamp`.
pub open spec fn with_launch(m: Map<Seq<char>, Seq<i64>>, appid: Seq<char>, timestamp: i64) -> Map<Seq<char>, Seq<i64>> {
    m.insert(appid, launches_in(m, appid).push(timestamp))
}

/// Recording a launch of `appid` adds exactly that launch at the end of its
/// launches, and leaves every other application's launches as they were.
pub proof fn lemma_with_launch(m: Map<Seq<char>, Seq<i64>>, appid: Seq<char>, timestamp: i64, other: Seq<char>)
    requires
        other != appid,
    ensures
        launches_in(with_launch(m, appid, timestamp), appid) == launches_in(m, appid).push(timestamp),
        launches_in(with_launch(m, appid, timestamp), other) == launches_in(m, other),
{
}

/// Launches of two different applications may be recorded in either order.
pub proof fn lemma_with_launch_commutes(
    m: Map<Seq<char>, Seq<i64>>,
    a: Seq<char>,
    t: i64,
    b: Seq<char>,
    u: i64,
)
    requires
        a != b,
    ensures
        with_launch(with_launch(m, a, t), b, u) == with_launch(with_launch(m, b, u), a, t),
{
    assert(with_launch(with_launch(m, a, t), b, u) =~= with_launch(with_launch(m, b, u), a, t));
}

/// The records as (application id, launches) texts.
pub open spec fn record_views(records: Seq<LaunchRecord>) -> Seq<(Seq<char>, Seq<i64>)> {
    records.map_values(|r: LaunchRecord| (r.appid@, r.launches@))
}

/// The pairs as (application id, launches) texts.
pub open spec fn pair_views(pairs: Seq<(String, Vec<i64>)>) -> Seq<(Seq<char>, Seq<i64>)> {
    pairs.map_values(|p: (String, Vec<i64>)| (p.0@, p.1@))
}

proof fn lemma_pairs_map(pairs: Seq<(String, Vec<i64>)>)
    requires
        forall|i: int, j: int|
            0 <= i < j < pairs.len() ==> #[trigger] pairs[i].0@ != #[trigger] pairs[j].0@,
    ensures
        forall|k: Seq<char>|
            #[trigger] pairs_map(pairs).contains_key(k) <==> exists|i: int|
                0 <= i < pairs.len() && pairs[i].0@ == k,
        forall|i: int| 0 <= i < pairs.len() ==> #[trigger] pairs_map(pairs)[pairs[i].0@] == pairs[i].1@,
    decreases pairs.len(),
{
    if pairs.len() > 0 {
        let rest = pairs.drop_last();
        assert forall|i: int, j: int| 0 <= i < j < rest.len() implies #[trigger] rest[i].0@ != #[trigger] rest[j].0@ by {
            assert(rest[i] == pairs[i] && rest[j] == pairs[j]);
        }
        lemma_pairs_map(rest);
        assert forall|k: Seq<char>| #[trigger] pairs_map(pairs).contains_key(k) <==> exists|i: int|
            0 <= i < pairs.len() && pairs[i].0@ == k by {
            if pairs_map(pairs).contains_key(k) && k != pairs.last().0@ {
                assert(pairs_map(rest).contains_key(k));
                let i = choose|i: int| 0 <= i < rest.len() && rest[i].0@ == k;
                assert(pairs[i] == rest[i]);
            }
            if exists|i: int| 0 <= i < pairs.len() && pairs[i].0@ == k {
                let i = choose|i: int| 0 <= i < pairs.len() && pairs[i].0@ == k;
                if i < pairs.len() - 1 {
                    assert(rest[i] == pairs[i]);
                    assert(pairs_map(rest).contains_key(k));
                }
            }
        }
        assert forall|i: int| 0 <= i < pairs.len() implies #[trigger] pairs_map(pairs)[pairs[i].0@] == pairs[i].1@ by {
            if i < pairs.len() - 1 {
                assert(rest[i] == pairs[i]);
                assert(pairs_map(rest)[rest[i].0@] == rest[i].1@);
            }
        }
    }
}

/// A history written out as its records and read back from the same pairs,
/// in any order, holds the same launches.
pub proof fn lemma_history_round_trip(records: Seq<LaunchRecord>, pairs: Seq<(String, Vec<i64>)>)
    requires
        distinct_ids(records),
        pair_views(pairs).to_multiset() == record_views(records).to_multiset(),
    ensures
        pairs_map(pairs) == records_map(records),
{
    broadcast use vstd::seq_lib::group_to_multiset_ensures;

    let pv = pair_views(pairs);
    let rv = record_views(records);
    assert(pv.len() == rv.len()) by {
        assert(pv.to_multiset().len() == rv.to_multiset().len());
    }
    assert forall|i: int, j: int| 0 <= i < j < pairs.len() implies #[trigger] pairs[i].0@ != #[trigger] pairs[j].0@ by {
        if pairs[i].0@ == pairs[j].0@ {
            lemma_in_both(pv, rv, i);
            lemma_in_both(pv, rv, j);
            let a = choose|a: int| 0 <= a < rv.len() && rv[a] == pv[i];
            let b = choose|b: int| 0 <= b < rv.len() && rv[b] == pv[j];
            if a == b {
                // the same record twice in the pairs is more than the records hold
                assert(pv[i] == pv[j]);
                lemma_twice_counts(pv, i, j);
                lemma_once_counts(rv, a);
                assert(false);
            } else {
                assert(records[a].appid@ == records[b].appid@);
            }
        }
    }
    lemma_pairs_map(pairs);
    lemma_records_map(records);
    assert forall|k: Seq<char>| #[trigger] pairs_map(pairs).contains_key(k) <==> records_map(records).contains_key(k) by {
        if pairs_map(pairs).contains_key(k) {
            let i = choose|i: int| 0 <= i < pairs.len() && pairs[i].0@ == k;
            lemma_in_both(pv, rv, i);
            let a = choose|a: int| 0 <= a < rv.len() && rv[a] == pv[i];
            assert(records[a].appid@ == k);
        }
        if records_map(records).contains_key(k) {
            let a = choose|a: int| 0 <= a < records.len() && records[a].appid@ == k;
            lemma_in_both(rv, pv, a);
            let i = choose|i: int| 0 <= i < pv.len() && pv[i] == rv[a];
            assert(pairs[i].0@ == k);
        }
    }
    assert forall|k: Seq<char>| #[trigger] pairs_map(pairs).contains_key(k) implies pairs_map(pairs)[k] == records_map(records)[k] by {
        let i = choose|i: int| 0 <= i < pairs.len() && pairs[i].0@ == k;
        lemma_in_both(pv, rv, i);
        let a = choose|a: int| 0 <= a < rv.len() && rv[a] == pv[i];
        assert(pairs_map(pairs)[pairs[i].0@] == pairs[i].1@);
        assert(records_map(records)[records[a].appid@] == records[a].launches@);
    }
    assert(pairs_map(pairs) =~= records_map(records));
}

/// An element of `a` is one of `b`, which has the same elements as often.
proof fn lemma_in_both(a: Seq<(Seq<char>, Seq<i64>)>, b: Seq<(Seq<char>, Seq<i64>)>, k: int)
    requires
        0 <= k < a.len(),
        a.to_multiset() == b.to_multiset(),
    ensures
        b.contains(a[k]),
{
    broadcast use vstd::seq_lib::group_to_multiset_ensures;

    assert(a.contains(a[k]));
    assert(a.to_multiset().count(a[k]) > 0);
    assert(b.to_multiset().count(a[k]) > 0);
}

proof fn lemma_twice_counts(s: Seq<(Seq<char>, Seq<i64>)>, i: int, j: int)
    requires
        0 <= i < j < s.len(),
        s[i] == s[j],
    ensures
        s.to_multiset().count(s[i]) >= 2,
{
    broadcast use vstd::seq_lib::group_to_multiset_ensures;

    let x = s[i];
    let t = s.remove(j);
    assert(t[i] == x);
    assert(t.contains(x));
    assert(t.to_multiset().count(x) > 0);
    assert(t.to_multiset() == s.to_multiset().remove(x));
}

proof fn lemma_once_counts(s: Seq<(Seq<char>, Seq<i64>)>, a: int)
    requires
        0 <= a < s.len(),
        forall|i: int, j: int| 0 <= i < j < s.len() ==> (#[trigger] s[i]).0 != (#[trigger] s[j]).0,
    ensures
        s.to_multiset().count(s[a]) == 1,
{
    broadcast use vstd::seq_lib::group_to_multiset_ensures;

    let x = s[a];
    let t = s.remove(a);
    assert(t.to_multiset() == s.to_multiset().remove(x));
    assert(!t.contains(x)) by {
        if t.contains(x) {
            let k = choose|k: int| 0 <= k < t.len() && t[k] == x;
            if k < a {
                assert(t[k] == s[k]);
            } else {
                assert(t[k] == s[k + 1]);
            }
        }
    }
    assert(t.to_multiset().count(x) == 0);
}

proof fn lemma_records_map(records: Seq<LaunchRecord>)
    requires
        distinct_ids(records),
    ensures
        forall|k: Seq<char>|
            #[trigger] records_map(records).contains_key(k) <==> exists|i: int|
                0 <= i < records.len() && records[i].appid@ == k,
        forall|i: int|
            0 <= i < records.len() ==> #[trigger] records_map(records)[records[i].appid@]
                == records[i].launches@,
    decreases records.len(),
{
    if records.len() > 0 {
        let rest = records.drop_last();
        assert(distinct_ids(rest));
        lemma_records_map(rest);
        assert forall|k: Seq<char>|
            #[trigger] records_map(records).contains_key(k) implies exists|i: int|
                0 <= i < records.len() && records[i].appid@ == k by {
            if k != records.last().appid@ {
                assert(records_map(rest).contains_key(k));
                let i = choose|i: int| 0 <= i < rest.len() && rest[i].appid@ == k;
                assert(records[i] == rest[i]);
            } else {
                assert(records[records.len() - 1].appid@ == k);
            }
        }
        assert forall|k: Seq<char>| (exists|i: int| 0 <= i < records.len() && records[i].appid@ == k)
            implies #[trigger] records_map(records).contains_key(k) by {
            let i = choose|i: int| 0 <= i < records.len() && records[i].appid@ == k;
            if i < records.len() - 1 {
                assert(rest[i] == records[i]);
                assert(records_map(rest).contains_key(k));
            }
        }
        assert forall|i: int| 0 <= i < records.len() implies #[trigger] records_map(
            records,
        )[records[i].appid@] == records[i].launches@ by {
            if i < records.len() - 1 {
                assert(records[i] == rest[i]);
                assert(records[i].appid@ != records[records.len() - 1].appid@);
                assert(records_map(rest)[rest[i].appid@] == rest[i].launches@);
            }
        }
    }
}

/// Replaces record `i` of `records`.
proof fn lemma_records_map_update(records: Seq<LaunchRecord>, i: int, r: LaunchRecord)
    requires
        distinct_ids(records),
        0 <= i < records.len(),
        r.appid@ == records[i].appid@,
    ensures
        distinct_ids(records.update(i, r)),
        records_map(records.update(i, r)) == records_map(records).insert(r.appid@, r.launches@),
{
    let updated = records.update(i, r);
    assert(distinct_ids(updated));
    lemma_records_map(records);
    lemma_records_map(updated);
    assert(records_map(updated) =~= records_map(records).insert(r.appid@, r.launches@)) by {
        assert forall|k: Seq<char>| #[trigger] records_map(updated).contains_key(k) <==> records_map(records).insert(r.appid@, r.launches@).contains_key(k) by {
            if records_map(updated).contains_key(k) {
                let j = choose|j: int| 0 <= j < updated.len() && updated[j].appid@ == k;
                if j != i {
                    assert(records[j] == updated[j]);
                }
            }
            if records_map(records).contains_key(k) {
                let j = choose|j: int| 0 <= j < records.len() && records[j].appid@ == k;
                if j != i {
                    assert(records[j] == updated[j]);
                } else {
                    assert(updated[i].appid@ == k);
                }
            }
            if k == r.appid@ {
                assert(updated[i].appid@ == k);
            }
        }
        assert forall|k: Seq<char>| #[trigger] records_map(updated).contains_key(k) implies records_map(updated)[k] == records_map(records).insert(r.appid@, r.launches@)[k] by {
            let j = choose|j: int| 0 <= j < updated.len() && updated[j].appid@ == k;
            if j != i {
                assert(records[j] == updated[j]);
            }
        }
    }
}

/// A copy of a list of timestamps.
fn copy_launches(v: &Vec<i64>) -> (r: Vec<i64>)
    ensures
        r@ == v@,
{
    let mut r: Vec<i64> = Vec::new();
    let mut i: usize = 0;
    while i < v.len()
        invariant
            i <= v@.len(),
            r@ == v@.take(i as int),
        decreases v.len() - i,
    {
        r.push(v[i]);
        i = i + 1;
        assert(r@ == v@.take(i as int));
    }
    assert(v@.take(v@.len() as int) == v@);
    r
}

/// The current time as seconds since the Unix epoch, when the clock is not
/// set before it (`SystemTime::now().duration_since(UNIX_EPOCH)`). Nothing is
/// claimed of the value: it is the machine's clock.
#[verifier::external_body]
fn clock_seconds() -> Option<u64> {
    std::time::SystemTime::now().duration_since(std::time::UNIX_EPOCH).ok().map(|d| d.as_secs())
}

/// The Unix time a clock reading stands for: its seconds (as `as i64`
/// converts them), 0 for a clock that reads before the epoch.
pub open spec fn clock_time(clock: Option<u64>) -> i64 {
    match clock {
        Some(seconds) => seconds as i64,
        None => 0,
    }
}

/// The Unix time of a clock reading (see `clock_time`).
pub fn seconds_from_clock(clock: Option<u64>) -> (r: i64)
    ensures
        r == clock_time(clock),
{
    match clock {
        Some(seconds) => seconds as i64,
        None => 0,
    }
}

/// The current Unix time in seconds; 0 when the clock reads before the epoch.
/// What it returns is the machine's clock, read through `seconds_from_clock`.
pub fn unix_seconds() -> (r: i64) {
    seconds_from_clock(clock_seconds())
}

impl View for History {
    type V = Map<Seq<char>, Seq<i64>>;

    closed spec fn view(&self) -> Map<Seq<char>, Seq<i64>> {
        records_map(self.records@)
    }
}

impl History {
    #[verifier::type_invariant]
    spec fn well_formed(self) -> bool {
        distinct_ids(self.records@)
    }

    /// Where the history is kept, if anywhere.
    pub closed spec fn spec_path(self) -> Option<Seq<char>> {
        self.path.deep_view()
    }

    /// An empty history kept at `path`.
    pub fn new(path: Option<String>) -> (r: Self)
        ensures
            r@ == Map::<Seq<char>, Seq<i64>>::empty(),
            r.spec_path() == path.deep_view(),
    {
        let r = History { path, records: Vec::new() };
        assert(r@ =~= Map::<Seq<char>, Seq<i64>>::empty());
        r
    }

    /// Where the history is kept.
    pub fn path(&self) -> (r: &Option<String>)
        ensures
            r.deep_view() == self.spec_path(),
    {
        &self.path
    }

    /// The records, one per application id.
    pub fn records(&self) -> (r: &Vec<LaunchRecord>)
        ensures
            distinct_ids(r@),
            records_map(r@) == self@,
    {
        proof {
            use_type_invariant(self);
        }
        &self.records
    }

    /// The launches of `appid`, if it was ever launched.
    pub fn launches(&self, appid: &str) -> (r: Option<&Vec<i64>>)
        ensures
            r matches Some(l) ==> self@.contains_key(appid@) && l@ == self@[appid@],
            r is None ==> !self@.contains_key(appid@),
    {
        proof {
            use_type_invariant(self);
            lemma_records_map(self.records@);
        }
        let key = String::from_str(appid);
        let mut i: usize = 0;
        while i < self.records.len()
            invariant
                i <= self.records@.len(),
                key@ == appid@,
                forall|j: int| 0 <= j < i ==> self.records@[j].appid@ != appid@,
                distinct_ids(self.records@),
            decreases self.records.len() - i,
        {
            if self.records[i].appid == key {
                proof {
                    lemma_records_map(self.records@);
                    assert(records_map(self.records@)[self.records@[i as int].appid@] == self.records@[i as int].launches@);
                }
                return Some(&self.records[i].launches);
            }
            i = i + 1;
        }
        None
    }

    /// Sets the launches of `appid`, replacing any it had.
    pub fn set_launches(&mut self, appid: &str, launches: Vec<i64>)
        ensures
            final(self)@ == old(self)@.insert(appid@, launches@),
            final(self).spec_path() == old(self).spec_path(),
    {
        proof {
            use_type_invariant(&*self);
        }
        let key = String::from_str(appid);
        let mut i: usize = 0;
        while i < self.records.len()
            invariant
                i <= self.records@.len(),
                key@ == appid@,
                forall|j: int| 0 <= j < i ==> self.records@[j].appid@ != appid@,
                distinct_ids(self.records@),
                self.records@ == old(self).records@,
                self.path == old(self).path,
            decreases self.records.len() - i,
        {
            if self.records[i].appid == key {
                let record = LaunchRecord { appid: key, launches };
                proof {
                    lemma_records_map_update(self.records@, i as int, record);
                }
                let mut records: Vec<LaunchRecord> = Vec::new();
                std::mem::swap(&mut records, &mut self.records);
                records.set(i, record);
                self.records = records;
                return;
            }
            i = i + 1;
        }
        let record = LaunchRecord { appid: key, launches };
        let ghost before = self.records@;
        let mut records: Vec<LaunchRecord> = Vec::new();
        std::mem::swap(&mut records, &mut self.records);
        records.push(record);
        assert(records@.drop_last() == before);
        assert(distinct_ids(records@));
        self.records = records;
    }

    /// Records one launch of `appid` at `timestamp`.
    pub fn record_launch_at(&mut self, appid: &str, timestamp: i64)
        ensures
            final(self)@ == with_launch(old(self)@, appid@, timestamp),
            final(self).spec_path() == old(self).spec_path(),
    {
        let mut launches = match self.launches(appid) {
            Some(l) => copy_launches(l),
            None => Vec::new(),
        };
        launches.push(timestamp);
        self.set_launches(appid, launches);
    }

    /// A history read back from a file of version `version` holding
    /// `launches`: the launches when the version is the one this program
    /// writes (a later pair for an id replacing an earlier one), and no
    /// launches for any other version.
    pub fn from_file(path: Option<String>, version: u32, launches: Vec<(String, Vec<i64>)>) -> (r: Self)
        ensures
            r.spec_path() == path.deep_view(),
            version == FILE_VERSION ==> r@ == pairs_map(launches@),
            version != FILE_VERSION ==> r@ == Map::<Seq<char>, Seq<i64>>::empty(),
    {
        let mut history = History::new(path);
        if version != FILE_VERSION {
            return history;
        }
        let ghost pairs = launches@;
        proof {
            broadcast use vstd::std_specs::vec::axiom_spec_into_iter;
        }
        assert(pairs_map(pairs.take(0)) =~= Map::<Seq<char>, Seq<i64>>::empty());
        for pair in it: launches.into_iter()
            invariant
                it.seq() == pairs,
                history@ == pairs_map(pairs.take(it.index() as int)),
                history.spec_path() == path.deep_view(),
        {
            assert(pairs.take(it.index() + 1).drop_last() == pairs.take(it.index() as int));
            assert(pairs.take(it.index() + 1).last() == pair);
            let (appid, times) = pair;
            history.set_launches(appid.as_str(), times);
        }
        assert(pairs.take(pairs.len() as int) == pairs);
        history
    }

    /// Records one launch of `appid` now.
    pub fn record_launch(&mut self, appid: &str)
        ensures
            exists|t: i64| final(self)@ == with_launch(old(self)@, appid@, t),
            final(self).spec_path() == old(self).spec_path(),
    {
        let now = unix_seconds();
        self.record_launch_at(appid, now);
    }
}

} // verus!
