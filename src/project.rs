//! The event-project coordinator: which frames to analyse, the table of
//! matches that their results build, and the clip requests it ends with.
use vstd::prelude::*;
use std::collections::VecDeque;
use crate::detection::MatchDetection;
use crate::match_key::{key_lt, lemma_key_order_total, parse_key_spec, KeyParseError, MatchKey};
use crate::model::{
    estimate, estimates, fresh_match, insert_by_time, is_during_phase, lemma_single_showing,
    repeated, result_segment_spec, sat, Match, MatchView, Segment, WithTime,
};
use crate::qr::{key_of_type, FTCEventsQR};

verus! {

/// Distance between two analysed frames: the match clock shows whole seconds.
pub const SCAN_STEP_US: i64 = 1_000_000;

/// Length of a match clip from the inferred start: the 150 s match and margin.
pub const MATCH_CLIP_US: i64 = 180_000_000;

/// Work handed to a worker.
#[derive(Debug, PartialEq, Eq, Structural, Clone, Copy, Hash)]
pub enum Task {
    /// Analyze a frame at the microsecond timestamp.
    AnalyzeFrame(i64),
    /// Check for a QR result code at the microsecond timestamp.
    CheckQROnly(i64),
    /// Cut the clip of one match: the match itself, then its results screen.
    ClipMatch { key: MatchKey, match_segment: Segment, result_segment: Option<Segment> },
    /// No more work: the worker stops.
    Done,
}

/// What a worker found.
#[derive(Debug, PartialEq, Clone)]
pub enum TaskResult {
    /// Nothing of interest in the frame.
    Nothing,
    MatchDetection(MatchDetection),
    MatchResultQR(FTCEventsQR),
    ClipDone,
    /// The frame could not be read or decoded.
    Error(String),
}

/// A finished task and its result.
#[derive(Debug, PartialEq, Clone)]
pub struct TaskSubmission {
    pub task: Task,
    pub time_us: i64,
    pub result: TaskResult,
}

#[derive(Debug, PartialEq, Eq, Structural, Clone, Copy, Hash)]
pub enum ProjectState {
    InitialScan,
    ClipMatches,
    Done,
}

/// Number of frames sampled from `start_us` (inclusive) to `duration_us`
/// (exclusive), one per second.
pub open spec fn scan_count(start_us: i64, duration_us: i64) -> nat {
    if duration_us <= start_us {
        0
    } else {
        ((duration_us - start_us + 999_999) / 1_000_000) as nat
    }
}

/// The analysis tasks that a scan of `[start_us, duration_us)` begins with.
pub open spec fn scan_tasks(start_us: i64, duration_us: i64) -> Seq<Task> {
    Seq::new(
        scan_count(start_us, duration_us),
        |i: int| Task::AnalyzeFrame((start_us + i * 1_000_000) as i64),
    )
}

pub open spec fn table_view(ms: Seq<Match>) -> Seq<MatchView> {
    ms.map_values(|m: Match| m@)
}

pub open spec fn has_key(t: Seq<MatchView>, k: MatchKey) -> bool {
    exists|i: int| 0 <= i < t.len() && t[i].key == k
}

/// Where an entry for `k` goes in a table ordered by key: after every entry
/// whose key comes before `k`.
pub open spec fn insert_pos(t: Seq<MatchView>, k: MatchKey) -> int
    decreases t.len(),
{
    if t.len() == 0 || !key_lt(t[0].key, k) {
        0
    } else {
        1 + insert_pos(t.drop_first(), k)
    }
}

proof fn lemma_insert_pos_at(t: Seq<MatchView>, k: MatchKey, p: int)
    requires
        0 <= p <= t.len(),
        forall|i: int| 0 <= i < p ==> key_lt(#[trigger] t[i].key, k),
        p == t.len() || !key_lt(t[p].key, k),
    ensures
        insert_pos(t, k) == p,
    decreases p,
{
    if p > 0 {
        let u = t.drop_first();
        assert forall|i: int| 0 <= i < p - 1 implies key_lt(#[trigger] u[i].key, k) by {
            assert(u[i] == t[i + 1]);
        }
        if p < t.len() {
            assert(u[p - 1] == t[p]);
        }
        assert(key_lt(t[0].key, k));
        lemma_insert_pos_at(u, k, p - 1);
    }
}

/// What a worker's result adds to one match.
pub enum Evidence {
    /// An overlay reading, with the time of its frame.
    Detection(WithTime<MatchDetection>),
    /// The time of a frame showing the match's results QR.
    ResultsScreen(i64),
}

pub open spec fn with_evidence(m: MatchView, e: Evidence) -> MatchView {
    match e {
        Evidence::Detection(d) => m.with_detection(d),
        Evidence::ResultsScreen(t) => m.with_results_screen(t),
    }
}

/// The table with `e` added to the entry for `k` (a fresh one, placed in
/// key order, if there is none).
pub open spec fn update_entry(t: Seq<MatchView>, k: MatchKey, e: Evidence) -> Seq<MatchView> {
    if has_key(t, k) {
        let i = choose|i: int| 0 <= i < t.len() && t[i].key == k;
        t.update(i, with_evidence(t[i], e))
    } else {
        t.insert(insert_pos(t, k), with_evidence(fresh_match(k), e))
    }
}

/// The table after a worker's result from the frame at `time_us`: a
/// detection whose name reads as a key goes to that key's match, a results
/// QR to the match it names; anything else changes nothing.
pub open spec fn fold_result(t: Seq<MatchView>, time_us: i64, r: TaskResult) -> Seq<MatchView> {
    match r {
        TaskResult::MatchDetection(d) => match parse_key_spec(d.name@) {
            Ok(k) => update_entry(
                t,
                k,
                Evidence::Detection(WithTime { frame_ts_us: time_us, value: d }),
            ),
            Err(_) => t,
        },
        TaskResult::MatchResultQR(q) => update_entry(
            t,
            key_of_type(q.match_type),
            Evidence::ResultsScreen(time_us),
        ),
        _ => t,
    }
}

pub open spec fn finalize_all(t: Seq<MatchView>) -> Seq<MatchView> {
    t.map_values(|m: MatchView| m.finalized())
}

pub open spec fn clip_task_of(m: MatchView) -> Task {
    Task::ClipMatch {
        key: m.key,
        match_segment: Segment {
            start_us: m.start_us->0,
            end_us: sat(m.start_us->0 + MATCH_CLIP_US),
        },
        result_segment: m.result_screen_segment,
    }
}

/// One clip task per match whose start is known, in table (key) order.
pub open spec fn clip_tasks(t: Seq<MatchView>) -> Seq<Task>
    decreases t.len(),
{
    if t.len() == 0 {
        seq![]
    } else {
        let rest = clip_tasks(t.drop_last());
        if t.last().start_us is Some {
            rest.push(clip_task_of(t.last()))
        } else {
            rest
        }
    }
}

proof fn lemma_clip_task_source(u: Seq<MatchView>, j: int)
    requires
        0 <= j < clip_tasks(u).len(),
    ensures
        exists|i: int|
            0 <= i < u.len() && u[i].start_us is Some && clip_tasks(u)[j] == #[trigger] clip_task_of(
                u[i],
            ),
    decreases u.len(),
{
    let rest = clip_tasks(u.drop_last());
    if j < rest.len() {
        lemma_clip_task_source(u.drop_last(), j);
        let i = choose|i: int|
            0 <= i < u.drop_last().len() && u.drop_last()[i].start_us is Some && rest[j]
                == #[trigger] clip_task_of(u.drop_last()[i]);
        assert(u[i] == u.drop_last()[i]);
        assert(clip_tasks(u)[j] == rest[j]);
    } else {
        assert(u[u.len() - 1] == u.last());
    }
}

/// A match seen only on its results screen, with no overlay reading, gets
/// no clip task; its results-screen window is still inferred.
pub proof fn lemma_no_clip_without_hud(t: Seq<MatchView>, k: MatchKey)
    requires
        forall|i: int|
            0 <= i < t.len() && t[i].key == k ==> t[i].during.len() == 0 && t[i].start_us is None,
    ensures
        forall|j: int|
            0 <= j < clip_tasks(finalize_all(t)).len() ==> (#[trigger] clip_tasks(
                finalize_all(t),
            )[j])->key != k,
        forall|i: int|
            0 <= i < t.len() && t[i].key == k ==> (#[trigger] finalize_all(t)[i]).start_us is None
                && finalize_all(t)[i].result_screen_segment == result_segment_spec(t[i].results),
{
    let f = finalize_all(t);
    assert forall|j: int| 0 <= j < clip_tasks(f).len() implies (#[trigger] clip_tasks(f)[j])->key
        != k by {
        lemma_clip_task_source(f, j);
        let i = choose|i: int|
            0 <= i < f.len() && f[i].start_us is Some && clip_tasks(f)[j] == #[trigger] clip_task_of(
                f[i],
            );
        assert(f[i] == t[i].finalized());
    }
    assert forall|i: int| 0 <= i < t.len() && t[i].key == k implies (#[trigger] f[i]).start_us is None
        && f[i].result_screen_segment == result_segment_spec(t[i].results) by {
        assert(f[i] == t[i].finalized());
    }
}

/// A scan that saw one match shown once ends with exactly one clip task: for
/// that match, from the start every during-match detection points back to,
/// 180 s long, followed by the inferred results-screen window.
pub proof fn lemma_single_match_clip(t: Seq<MatchView>, s: i64)
    requires
        t.len() == 1,
        t[0].during.len() > 0,
        estimates(t[0].during) == repeated(t[0].during.len(), s),
    ensures
        clip_tasks(finalize_all(t)) == seq![
            Task::ClipMatch {
                key: t[0].key,
                match_segment: Segment { start_us: s, end_us: sat(s + MATCH_CLIP_US) },
                result_segment: result_segment_spec(t[0].results),
            },
        ],
{
    lemma_single_showing(t[0].during, s);
    let f = finalize_all(t);
    assert(f[0] == t[0].finalized());
    assert(f.drop_last() =~= Seq::<MatchView>::empty());
    assert(clip_tasks(f.drop_last()) =~= Seq::<Task>::empty());
    assert(f.last() == f[0]);
    assert(clip_tasks(f) =~= seq![clip_task_of(f[0])]);
}

/// The table after the results `subs` (frame time, result), in order.
pub open spec fn fold_results(t: Seq<MatchView>, subs: Seq<(i64, TaskResult)>) -> Seq<MatchView>
    decreases subs.len(),
{
    if subs.len() == 0 {
        t
    } else {
        fold_result(fold_results(t, subs.drop_last()), subs.last().0, subs.last().1)
    }
}

/// The overlay readings among `subs`, with their frame times, in order.
pub open spec fn detections_of(subs: Seq<(i64, TaskResult)>) -> Seq<WithTime<MatchDetection>>
    decreases subs.len(),
{
    if subs.len() == 0 {
        seq![]
    } else {
        let rest = detections_of(subs.drop_last());
        match subs.last().1 {
            TaskResult::MatchDetection(d) => rest.push(WithTime { frame_ts_us: subs.last().0, value: d }),
            _ => rest,
        }
    }
}

/// A result of a scan that shows one match once: nothing, or a during-match
/// reading of the match named `k` that points back to the start `s`.
pub open spec fn shows_one_match(r: TaskResult, ts: i64, k: MatchKey, s: i64) -> bool {
    match r {
        TaskResult::Nothing => true,
        TaskResult::MatchDetection(d) => parse_key_spec(d.name@) == Ok::<MatchKey, KeyParseError>(k)
            && is_during_phase(d.phase) && estimate(WithTime { frame_ts_us: ts, value: d }) == s,
        _ => false,
    }
}

pub open spec fn scan_of_one_match(subs: Seq<(i64, TaskResult)>, k: MatchKey, s: i64) -> bool {
    &&& forall|i: int| 0 <= i < subs.len() ==> shows_one_match(#[trigger] subs[i].1, subs[i].0, k, s)
    &&& forall|i: int, j: int| 0 <= i < j < subs.len() ==> subs[i].0 < subs[j].0
}

pub open spec fn one_showing(k: MatchKey, during: Seq<WithTime<MatchDetection>>) -> MatchView {
    MatchView { during, ..fresh_match(k) }
}

proof fn lemma_detection_facts(subs: Seq<(i64, TaskResult)>, k: MatchKey, s: i64, x: int)
    requires
        scan_of_one_match(subs, k, s),
        forall|i: int| 0 <= i < subs.len() ==> #[trigger] subs[i].0 < x,
    ensures
        forall|j: int|
            0 <= j < detections_of(subs).len() ==> {
                let d = #[trigger] detections_of(subs)[j];
                &&& d.frame_ts_us < x
                &&& is_during_phase(d.value.phase)
                &&& estimate(d) == s
            },
    decreases subs.len(),
{
    if subs.len() > 0 {
        let p = subs.drop_last();
        assert forall|i: int| 0 <= i < p.len() implies #[trigger] p[i].0 < x by {
            assert(p[i] == subs[i]);
        }
        assert forall|i: int| 0 <= i < p.len() implies shows_one_match(#[trigger] p[i].1, p[i].0, k, s) by {
            assert(p[i] == subs[i]);
        }
        assert forall|i: int, j: int| 0 <= i < j < p.len() implies p[i].0 < p[j].0 by {
            assert(p[i] == subs[i] && p[j] == subs[j]);
        }
        lemma_detection_facts(p, k, s, x);
        assert(shows_one_match(subs[subs.len() - 1].1, subs[subs.len() - 1].0, k, s));
        assert(subs[subs.len() - 1] == subs.last());
    }
}

/// Folding a scan that shows one match once into an empty table gives one
/// entry, for that match, holding every reading in time order.
pub proof fn lemma_scan_of_one_match_table(subs: Seq<(i64, TaskResult)>, k: MatchKey, s: i64)
    requires
        scan_of_one_match(subs, k, s),
    ensures
        detections_of(subs).len() == 0 ==> fold_results(seq![], subs) == Seq::<MatchView>::empty(),
        detections_of(subs).len() > 0 ==> fold_results(seq![], subs) == seq![
            one_showing(k, detections_of(subs)),
        ],
    decreases subs.len(),
{
    if subs.len() > 0 {
        let p = subs.drop_last();
        assert forall|i: int| 0 <= i < p.len() implies shows_one_match(#[trigger] p[i].1, p[i].0, k, s) by {
            assert(p[i] == subs[i]);
        }
        assert forall|i: int, j: int| 0 <= i < j < p.len() implies p[i].0 < p[j].0 by {
            assert(p[i] == subs[i] && p[j] == subs[j]);
        }
        lemma_scan_of_one_match_table(p, k, s);
        let last = subs.last();
        assert(last == subs[subs.len() - 1]);
        assert(shows_one_match(last.1, last.0, k, s));
        let t = fold_results(seq![], p);
        let dp = detections_of(p);
        match last.1 {
            TaskResult::MatchDetection(d) => {
                let w = WithTime { frame_ts_us: last.0, value: d };
                if dp.len() == 0 {
                    assert(!has_key(t, k));
                    assert(insert_pos(t, k) == 0);
                    assert(insert_by_time(Seq::<WithTime<MatchDetection>>::empty(), w) == seq![w]);
                    assert(seq![w] =~= dp.push(w));
                    assert(t.insert(0, with_evidence(fresh_match(k), Evidence::Detection(w))) =~= seq![
                        one_showing(k, dp.push(w)),
                    ]);
                } else {
                    assert(t[0].key == k);
                    assert(has_key(t, k));
                    let c = choose|i: int| 0 <= i < t.len() && t[i].key == k;
                    assert(c == 0);
                    assert forall|i: int| 0 <= i < p.len() implies #[trigger] p[i].0 < last.0 by {
                        assert(p[i] == subs[i]);
                    }
                    lemma_detection_facts(p, k, s, last.0 as int);
                    crate::model::lemma_insert_by_time_at(dp, w, dp.len() as int);
                    assert(dp.insert(dp.len() as int, w) =~= dp.push(w));
                    assert(t.update(0, with_evidence(t[0], Evidence::Detection(w))) =~= seq![
                        one_showing(k, dp.push(w)),
                    ]);
                }
            },
            _ => {},
        }
    }
}

/// A whole scan that shows one match once, read at increasing frame
/// times, ends with exactly one clip task: for that match, from the start
/// its readings point back to, 180 s long, with no results-screen window.
pub proof fn lemma_single_match_scan(subs: Seq<(i64, TaskResult)>, k: MatchKey, s: i64)
    requires
        scan_of_one_match(subs, k, s),
        detections_of(subs).len() > 0,
    ensures
        clip_tasks(finalize_all(fold_results(seq![], subs))) == seq![
            Task::ClipMatch {
                key: k,
                match_segment: Segment { start_us: s, end_us: sat(s + MATCH_CLIP_US) },
                result_segment: None,
            },
        ],
{
    lemma_scan_of_one_match_table(subs, k, s);
    let d = detections_of(subs);
    let t = fold_results(seq![], subs);
    lemma_detection_facts(subs, k, s, i64::MAX + 1);
    assert(estimates(d) =~= repeated(d.len(), s));
    lemma_single_match_clip(t, s);
    assert(result_segment_spec(Seq::<i64>::empty()) is None);
}

/// The coordinator of one scan of a recording.
pub struct EventProject {
    pub state: ProjectState,
    pub start_us: i64,
    pub duration_us: i64,
    /// Tasks not yet handed out, in order
    pub next_tasks: VecDeque<Task>,
    /// Tasks handed out and not yet answered
    pub in_flight: Vec<Task>,
    /// One entry per match seen, in ascending key order
    pub matches: Vec<Match>,
}

impl EventProject {
    pub open spec fn wf(&self) -> bool {
        &&& forall|i: int| 0 <= i < self.matches@.len() ==> (#[trigger] self.matches@[i]).wf()
        &&& forall|i: int, j: int|
            0 <= i < j < self.matches@.len() ==> key_lt(self.matches@[i].key, self.matches@[j].key)
        &&& forall|i: int, j: int|
            0 <= i < j < self.in_flight@.len() ==> self.in_flight@[i] != self.in_flight@[j]
    }

    /// The tasks handed out and not yet answered.
    pub open spec fn pending(&self) -> Set<Task> {
        Set::new(|t: Task| self.in_flight@.contains(t))
    }

    pub open spec fn table(&self) -> Seq<MatchView> {
        table_view(self.matches@)
    }

    /// A coordinator that will sample `[start_us, duration_us)` once a second.
    pub fn new(start_us: i64, duration_us: i64) -> (r: EventProject)
        ensures
            r.wf(),
            r.state == ProjectState::InitialScan,
            r.start_us == start_us,
            r.duration_us == duration_us,
            r.next_tasks@ == scan_tasks(start_us, duration_us),
            r.in_flight@.len() == 0,
            r.matches@.len() == 0,
    {
        let mut tasks: VecDeque<Task> = VecDeque::new();
        if start_us < duration_us {
            let span: i128 = duration_us as i128 - start_us as i128;
            let n: u64 = ((span + 999_999) / 1_000_000) as u64;
            assert(n == scan_count(start_us, duration_us));
            let mut i: u64 = 0;
            while i < n
                invariant
                    i <= n,
                    n == scan_count(start_us, duration_us),
                    span == duration_us - start_us,
                    tasks@ =~= Seq::new(
                        i as nat,
                        |j: int| Task::AnalyzeFrame((start_us + j * 1_000_000) as i64),
                    ),
                decreases n - i,
            {
                assert(i * 1_000_000 < span) by (nonlinear_arith)
                    requires
                        i < n,
                        n == (span + 999_999) / 1_000_000,
                        span > 0,
                ;
                let t = (start_us as i128 + i as i128 * 1_000_000) as i64;
                tasks.push_back(Task::AnalyzeFrame(t));
                i = i + 1;
            }
        }
        assert(tasks@ =~= scan_tasks(start_us, duration_us));
        EventProject {
            state: ProjectState::InitialScan,
            start_us,
            duration_us,
            next_tasks: tasks,
            in_flight: Vec::new(),
            matches: Vec::new(),
        }
    }

    /// Index of the entry for `k`, if there is one.
    fn entry_index(&self, k: MatchKey) -> (r: Option<usize>)
        ensures
            r is Some ==> r->0 < self.matches@.len() && self.matches@[r->0 as int].key == k,
            r is None ==> forall|i: int| 0 <= i < self.matches@.len() ==> self.matches@[i].key != k,
    {
        let mut i: usize = 0;
        while i < self.matches.len()
            invariant
                i <= self.matches@.len(),
                forall|j: int| 0 <= j < i ==> self.matches@[j].key != k,
            decreases self.matches@.len() - i,
        {
            if self.matches[i].key == k {
                return Some(i);
            }
            i = i + 1;
        }
        None
    }

    /// Index of the entry for `k`, adding a fresh entry at the end if there is none.
    fn entry_for(&mut self, k: MatchKey) -> (r: usize)
        requires
            old(self).wf(),
        ensures
            final(self).wf(),
            r < final(self).matches@.len(),
            final(self).matches@[r as int].key == k,
            has_key(old(self).table(), k) ==> final(self).table() == old(self).table() && r == (
            choose|i: int| 0 <= i < old(self).table().len() && old(self).table()[i].key == k),
            !has_key(old(self).table(), k) ==> final(self).table() == old(self).table().insert(
                insert_pos(old(self).table(), k),
                fresh_match(k),
            ) && r == insert_pos(old(self).table(), k) && r <= old(self).table().len(),
            final(self).state == old(self).state,
            final(self).start_us == old(self).start_us,
            final(self).duration_us == old(self).duration_us,
            final(self).next_tasks@ == old(self).next_tasks@,
            final(self).in_flight@ == old(self).in_flight@,
    {
        let ghost t = self.table();
        assert(t.len() == self.matches@.len());
        assert(forall|i: int| 0 <= i < t.len() ==> #[trigger] t[i] == self.matches@[i]@);
        match self.entry_index(k) {
            Some(i) => {
                proof {
                    assert(t[i as int].key == k);
                    let c = choose|j: int| 0 <= j < t.len() && t[j].key == k;
                    lemma_key_order_total(k, k, k);
                    if c != i {
                        if c < i {
                            assert(self.matches@[c].key != self.matches@[i as int].key);
                        } else {
                            assert(self.matches@[i as int].key != self.matches@[c].key);
                        }
                    }
                }
                i
            },
            None => {
                assert(!has_key(t, k));
                let ghost ms = self.matches@;
                let mut p: usize = 0;
                while p < self.matches.len() && self.matches[p].key.precedes(&k)
                    invariant
                        ms == self.matches@,
                        p <= ms.len(),
                        forall|i: int| 0 <= i < p ==> key_lt(#[trigger] ms[i].key, k),
                    decreases ms.len() - p,
                {
                    p = p + 1;
                }
                proof {
                    lemma_insert_pos_at(t, k, p as int);
                }
                let m = Match::new(k);
                self.matches.insert(p, m);
                assert(self.table() =~= t.insert(p as int, fresh_match(k)));
                assert forall|i: int, j: int|
                    0 <= i < j < self.matches@.len() implies key_lt(
                    self.matches@[i].key,
                    self.matches@[j].key,
                ) by {
                    let a = self.matches@[i].key;
                    let b = self.matches@[j].key;
                    if p < ms.len() {
                        lemma_key_order_total(k, ms[p as int].key, ms[p as int].key);
                        assert(ms[p as int].key != k);
                        assert(key_lt(k, ms[p as int].key));
                    }
                    if j < p {
                        assert(a == ms[i].key && b == ms[j].key);
                    } else if j == p {
                        assert(a == ms[i].key);
                    } else if i < p {
                        assert(a == ms[i].key && b == ms[j - 1].key);
                        if j - 1 > p {
                            lemma_key_order_total(a, k, ms[p as int].key);
                            lemma_key_order_total(a, ms[p as int].key, b);
                        } else {
                            lemma_key_order_total(a, k, b);
                        }
                    } else if i == p {
                        assert(b == ms[j - 1].key);
                        if j - 1 > p {
                            lemma_key_order_total(k, ms[p as int].key, b);
                        }
                    } else {
                        assert(a == ms[i - 1].key && b == ms[j - 1].key);
                    }
                }
                p
            },
        }
    }

    /// Hands out the next task, or `None` while answers are awaited.
    /// When every scan task is answered, infers each match's start and
    /// results-screen window and queues one clip task per match with a known
    /// start; when those are answered too, the project is done.
    pub fn next(&mut self) -> (r: Option<Task>)
        requires
            old(self).wf(),
        ensures
            final(self).wf(),
            final(self).start_us == old(self).start_us,
            final(self).duration_us == old(self).duration_us,
            old(self).state is Done ==> r is None && final(self).state is Done
                && final(self).next_tasks@ == old(self).next_tasks@ && final(self).pending()
                == old(self).pending() && final(self).table() == old(self).table(),
            !(old(self).state is Done) && old(self).next_tasks@.len() > 0 ==> r == Some(
                old(self).next_tasks@[0],
            ) && final(self).next_tasks@ == old(self).next_tasks@.drop_first()
                && final(self).pending() == old(self).pending().insert(r->0)
                && final(self).table() == old(self).table() && final(self).state == old(self).state,
            !(old(self).state is Done) && old(self).next_tasks@.len() == 0
                && old(self).in_flight@.len() > 0 ==> r is None && final(self).next_tasks@
                == old(self).next_tasks@ && final(self).pending() == old(self).pending()
                && final(self).table() == old(self).table() && final(self).state == old(self).state,
            old(self).state is ClipMatches && old(self).next_tasks@.len() == 0
                && old(self).in_flight@.len() == 0 ==> r is None && final(self).state is Done
                && final(self).next_tasks@.len() == 0 && final(self).pending() == old(self).pending()
                && final(self).table() == old(self).table(),
            old(self).state is InitialScan && old(self).next_tasks@.len() == 0
                && old(self).in_flight@.len() == 0 ==> {
                let t = finalize_all(old(self).table());
                let q = clip_tasks(t);
                &&& final(self).table() == t
                &&& q.len() > 0 ==> r == Some(q[0]) && final(self).next_tasks@ == q.drop_first()
                    && final(self).pending() == Set::<Task>::empty().insert(q[0])
                    && final(self).state is ClipMatches
                &&& q.len() == 0 ==> r is None && final(self).next_tasks@.len() == 0
                    && final(self).pending() == Set::<Task>::empty() && final(self).state is Done
            },
    {
        if self.state == ProjectState::Done {
            return None;
        }
        if self.next_tasks.len() > 0 {
            return self.dispatch_front();
        }
        if self.in_flight.len() > 0 {
            return None;
        }
        if self.state == ProjectState::ClipMatches {
            self.state = ProjectState::Done;
            return None;
        }
        self.finalize_matches();
        if self.next_tasks.len() > 0 {
            self.state = ProjectState::ClipMatches;
            let r = self.dispatch_front();
            assert(self.pending() =~= Set::<Task>::empty().insert(r->0));
            r
        } else {
            self.state = ProjectState::Done;
            assert(self.pending() =~= Set::<Task>::empty());
            None
        }
    }

    fn dispatch_front(&mut self) -> (r: Option<Task>)
        requires
            old(self).wf(),
            old(self).next_tasks@.len() > 0,
        ensures
            final(self).wf(),
            r == Some(old(self).next_tasks@[0]),
            final(self).next_tasks@ == old(self).next_tasks@.drop_first(),
            final(self).pending() == old(self).pending().insert(r->0),
            final(self).in_flight@.len() > 0,
            old(self).in_flight@.len() == 0 ==> final(self).in_flight@ == seq![r->0],
            final(self).matches@ == old(self).matches@,
            final(self).state == old(self).state,
            final(self).start_us == old(self).start_us,
            final(self).duration_us == old(self).duration_us,
    {
        let t = self.next_tasks.pop_front().unwrap();
        assert(self.next_tasks@ =~= old(self).next_tasks@.drop_first());
        let ghost before = self.in_flight@;
        let mut i: usize = 0;
        let mut present = false;
        while i < self.in_flight.len()
            invariant
                before == self.in_flight@,
                i <= before.len(),
                present == exists|j: int| 0 <= j < i && before[j] == t,
            decreases before.len() - i,
        {
            if self.in_flight[i] == t {
                present = true;
            }
            i = i + 1;
        }
        if !present {
            self.in_flight.push(t);
            assert forall|a: int, b: int| 0 <= a < b < self.in_flight@.len() implies self.in_flight@[a]
                != self.in_flight@[b] by {
                if b == before.len() {
                    assert(self.in_flight@[a] == before[a]);
                } else {
                    assert(self.in_flight@[a] == before[a] && self.in_flight@[b] == before[b]);
                }
            }
            assert forall|x: Task| self.in_flight@.contains(x) <==> before.contains(x) || x == t by {
                if self.in_flight@.contains(x) {
                    let j = choose|j: int| 0 <= j < self.in_flight@.len() && self.in_flight@[j] == x;
                    if j < before.len() {
                        assert(before[j] == x);
                    }
                }
                if before.contains(x) {
                    let j = choose|j: int| 0 <= j < before.len() && before[j] == x;
                    assert(self.in_flight@[j] == x);
                }
                if x == t {
                    assert(self.in_flight@[before.len() as int] == t);
                }
            }
            assert(self.pending() =~= old(self).pending().insert(t));
            proof {
                if before.len() == 0 {
                    assert(self.in_flight@ =~= seq![t]);
                }
            }
        } else {
            assert(self.pending() =~= old(self).pending().insert(t));
        }
        Some(t)
    }

    /// Infers start and results-screen window of every match and queues
    /// the clip tasks.
    fn finalize_matches(&mut self)
        requires
            old(self).wf(),
            old(self).next_tasks@.len() == 0,
        ensures
            final(self).wf(),
            final(self).table() == finalize_all(old(self).table()),
            final(self).next_tasks@ == clip_tasks(finalize_all(old(self).table())),
            final(self).in_flight@ == old(self).in_flight@,
            final(self).state == old(self).state,
            final(self).start_us == old(self).start_us,
            final(self).duration_us == old(self).duration_us,
    {
        let ghost orig = self.matches@;
        let ghost ot = table_view(orig);
        let n = self.matches.len();
        let mut done: Vec<Match> = Vec::new();
        let mut k: usize = 0;
        assert(ot.subrange(0, 0) =~= Seq::<MatchView>::empty());
        assert(self.matches@ =~= orig.subrange(0, 0 + (n - 0)));
        while k < n
            invariant
                n == orig.len(),
                ot == table_view(orig),
                k <= n,
                self.matches@ =~= orig.subrange(k as int, n as int),
                table_view(done@) =~= finalize_all(ot.subrange(0, k as int)),
                self.next_tasks@ == clip_tasks(finalize_all(ot.subrange(0, k as int))),
                forall|i: int| 0 <= i < n ==> (#[trigger] orig[i]).wf(),
                forall|i: int| 0 <= i < done@.len() ==> (#[trigger] done@[i]).wf(),
                forall|i: int, j: int| 0 <= i < j < n ==> key_lt(orig[i].key, orig[j].key),
                done@.len() == k,
                forall|i: int| 0 <= i < k ==> (#[trigger] done@[i]).key == orig[i].key,
                self.in_flight@ == old(self).in_flight@,
                self.state == old(self).state,
                self.start_us == old(self).start_us,
                self.duration_us == old(self).duration_us,
            decreases n - k,
        {
            assert(self.matches@[0] == orig[k as int]);
            let mut m = self.matches.remove(0);
            assert(m@ == ot[k as int]);
            m.calc_start();
            let seg = m.calc_result_screen();
            assert(m@ == ot[k as int].finalized());
            let ghost fin_prev = finalize_all(ot.subrange(0, k as int));
            let ghost fin_next = finalize_all(ot.subrange(0, k + 1));
            assert(fin_next.drop_last() =~= fin_prev);
            assert(fin_next.last() == m@);
            match m.start_us {
                Some(s) => {
                    let end = if s > i64::MAX - MATCH_CLIP_US { i64::MAX } else { s + MATCH_CLIP_US };
                    let task = Task::ClipMatch {
                        key: m.key,
                        match_segment: Segment { start_us: s, end_us: end },
                        result_segment: seg,
                    };
                    assert(task == clip_task_of(m@));
                    self.next_tasks.push_back(task);
                },
                None => {},
            }
            let ghost old_done = done@;
            done.push(m);
            k = k + 1;
            assert forall|i: int| 0 <= i < done@.len() implies #[trigger] table_view(done@)[i]
                == fin_next[i] by {
                if i < old_done.len() {
                    assert(done@[i] == old_done[i]);
                    assert(table_view(old_done)[i] == fin_prev[i]);
                    assert(fin_next[i] == fin_prev[i]);
                }
            }
            assert(self.matches@ =~= orig.subrange(k as int, n as int));
            assert(table_view(done@) =~= fin_next);
        }
        assert(ot.subrange(0, n as int) == ot);
        self.matches = done;
        assert forall|i: int, j: int|
            0 <= i < j < self.matches@.len() implies key_lt(
            self.matches@[i].key,
            self.matches@[j].key,
        ) by {
            assert(self.matches@[i].key == orig[i].key);
            assert(self.matches@[j].key == orig[j].key);
        }
    }

    /// Takes a worker's answer: the task is no longer pending, and the
    /// result is folded into the match table (see `fold_result`).
    /// A worker's error is fatal to the scan and is not to be handed in.
    pub fn process_submission(&mut self, submission: TaskSubmission)
        requires
            old(self).wf(),
            !(submission.result is Error),
        ensures
            final(self).wf(),
            final(self).pending() == old(self).pending().remove(submission.task),
            final(self).table() == fold_result(
                old(self).table(),
                submission.time_us,
                submission.result,
            ),
            final(self).state == old(self).state,
            final(self).next_tasks@ == old(self).next_tasks@,
            final(self).start_us == old(self).start_us,
            final(self).duration_us == old(self).duration_us,
    {
        self.settle(submission.task);
        let time_us = submission.time_us;
        match submission.result {
            TaskResult::MatchDetection(d) => {
                match MatchKey::parse(d.name.as_str()) {
                    Ok(k) => self.file_evidence(k, Evidence::Detection(WithTime::new(time_us, d))),
                    Err(_) => {},
                }
            },
            TaskResult::MatchResultQR(q) => {
                self.file_evidence(q.match_type.key(), Evidence::ResultsScreen(time_us));
            },
            _ => {},
        }
    }

    /// Adds `e` to the entry for `k`, making a fresh entry in key order if
    /// there is none.
    fn file_evidence(&mut self, k: MatchKey, e: Evidence)
        requires
            old(self).wf(),
        ensures
            final(self).wf(),
            final(self).table() == update_entry(old(self).table(), k, e),
            final(self).in_flight@ == old(self).in_flight@,
            final(self).state == old(self).state,
            final(self).next_tasks@ == old(self).next_tasks@,
            final(self).start_us == old(self).start_us,
            final(self).duration_us == old(self).duration_us,
    {
        let ghost t0 = self.table();
        let ghost ev = e;
        let idx = self.entry_for(k);
        let ghost mid = self.matches@;
        let mut m = self.matches.remove(idx);
        assert(m@ == table_view(mid)[idx as int]);
        match e {
            Evidence::Detection(d) => m.add_detection(d),
            Evidence::ResultsScreen(t) => m.add_results_screen(t),
        }
        assert(m@ == with_evidence(table_view(mid)[idx as int], ev));
        self.matches.insert(idx, m);
        assert(self.matches@ =~= mid.update(idx as int, m));
        assert(self.table() =~= table_view(mid).update(idx as int, m@));
        proof {
            if has_key(t0, k) {
                assert(self.table() =~= t0.update(idx as int, with_evidence(t0[idx as int], ev)));
            } else {
                assert(table_view(mid) == t0.insert(idx as int, fresh_match(k)));
                assert(table_view(mid).len() == mid.len());
                assert(idx as int <= t0.len());
                assert(table_view(mid)[idx as int] == fresh_match(k));
                assert(self.table() =~= t0.insert(idx as int, with_evidence(fresh_match(k), ev)));
            }
        }
    }

    /// Removes `task` from the pending tasks.
    fn settle(&mut self, task: Task)
        requires
            old(self).wf(),
        ensures
            final(self).wf(),
            final(self).pending() == old(self).pending().remove(task),
            final(self).matches@ == old(self).matches@,
            final(self).state == old(self).state,
            final(self).next_tasks@ == old(self).next_tasks@,
            final(self).start_us == old(self).start_us,
            final(self).duration_us == old(self).duration_us,
    {
        let ghost before = self.in_flight@;
        let mut i: usize = 0;
        while i < self.in_flight.len() && self.in_flight[i] != task
            invariant
                before == self.in_flight@,
                i <= before.len(),
                forall|j: int| 0 <= j < i ==> before[j] != task,
            decreases before.len() - i,
        {
            i = i + 1;
        }
        if i == self.in_flight.len() {
            assert(!before.contains(task));
            assert(self.pending() =~= old(self).pending().remove(task));
            return;
        }
        self.in_flight.remove(i);
        assert(before[i as int] == task);
        assert forall|x: Task| self.in_flight@.contains(x) <==> before.contains(x) && x != task by {
            if self.in_flight@.contains(x) {
                let j = choose|j: int| 0 <= j < self.in_flight@.len() && self.in_flight@[j] == x;
                if j < i {
                    assert(before[j] == x);
                } else {
                    assert(before[j + 1] == x);
                    assert(before[i as int] != before[j + 1]);
                }
            }
            if before.contains(x) && x != task {
                let j = choose|j: int| 0 <= j < before.len() && before[j] == x;
                if j < i {
                    assert(self.in_flight@[j] == x);
                } else {
                    assert(j != i);
                    assert(self.in_flight@[j - 1] == x);
                }
            }
        }
        assert forall|a: int, b: int| 0 <= a < b < self.in_flight@.len() implies self.in_flight@[a]
            != self.in_flight@[b] by {
            let a2 = if a < i { a } else { a + 1 };
            let b2 = if b < i { b } else { b + 1 };
            assert(self.in_flight@[a] == before[a2]);
            assert(self.in_flight@[b] == before[b2]);
        }
        assert(self.pending() =~= old(self).pending().remove(task));
    }
}

/// The coordinator of an offline scan.
pub type OfflineEventProject = EventProject;

} // verus!
