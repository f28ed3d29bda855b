//! Per-match accumulation of detections, and the inference of each match's
//! start and results-screen window from them.
use vstd::prelude::*;
use crate::detection::{MatchDetection, MatchPhase};
use crate::match_key::MatchKey;

verus! {

/// A value seen in the frame at `frame_ts_us`.
#[derive(Debug, Clone)]
pub struct WithTime<T> {
    pub frame_ts_us: i64,
    pub value: T,
}

impl<T> WithTime<T> {
    pub fn new(frame_ts_us: i64, value: T) -> (r: Self)
        ensures
            r.frame_ts_us == frame_ts_us,
            r.value == value,
    {
        WithTime { frame_ts_us, value }
    }
}

/// A stretch of the source video, in microseconds.
#[derive(Debug, Clone, Copy, PartialEq, Eq, Structural, Hash)]
pub struct Segment {
    pub start_us: i64,
    pub end_us: i64,
}

/// Which element of the open cluster a new time is measured against.
#[derive(Debug, Clone, Copy, PartialEq, Eq, Structural)]
pub enum ClusterAnchor {
    First,
    Last,
}

pub open spec fn abs_int(x: int) -> int {
    if x < 0 { -x } else { x }
}

/// `x` clamped into the range of `i64`.
pub open spec fn sat(x: int) -> i64 {
    if x < i64::MIN { i64::MIN } else if x > i64::MAX { i64::MAX } else { x as i64 }
}

pub open spec fn anchor_of(c: Seq<i64>, anchor: ClusterAnchor) -> i64 {
    match anchor {
        ClusterAnchor::First => c[0],
        ClusterAnchor::Last => c.last(),
    }
}

/// Consecutive runs of `s`: a time opens a new run when it lies more than
/// `gap` from the anchor element of the open run.
pub open spec fn clusters_spec(s: Seq<i64>, gap: i64, anchor: ClusterAnchor) -> Seq<Seq<i64>>
    decreases s.len(),
{
    if s.len() == 0 {
        seq![]
    } else {
        let cs = clusters_spec(s.drop_last(), gap, anchor);
        let x = s.last();
        if cs.len() == 0 {
            seq![seq![x]]
        } else if abs_int(x - anchor_of(cs.last(), anchor)) > gap {
            cs.push(seq![x])
        } else {
            cs.update(cs.len() - 1, cs.last().push(x))
        }
    }
}

/// `x` placed before the first element greater than it.
pub open spec fn insert_sorted(s: Seq<i64>, x: i64) -> Seq<i64>
    decreases s.len(),
{
    if s.len() == 0 {
        seq![x]
    } else if x < s[0] {
        seq![x] + s
    } else {
        seq![s[0]] + insert_sorted(s.drop_first(), x)
    }
}

/// `s` in ascending order.
pub open spec fn sort_spec(s: Seq<i64>) -> Seq<i64>
    decreases s.len(),
{
    if s.len() == 0 {
        s
    } else {
        insert_sorted(sort_spec(s.drop_last()), s.last())
    }
}

/// `w` placed by its time; dropped when an element with the same time is
/// already there.
pub open spec fn insert_by_time<T>(s: Seq<WithTime<T>>, w: WithTime<T>) -> Seq<WithTime<T>>
    decreases s.len(),
{
    if s.len() == 0 {
        seq![w]
    } else if w.frame_ts_us < s[0].frame_ts_us {
        seq![w] + s
    } else if w.frame_ts_us == s[0].frame_ts_us {
        s
    } else {
        seq![s[0]] + insert_by_time(s.drop_first(), w)
    }
}

/// `x` added to the ascending set of times `s`.
pub open spec fn insert_time(s: Seq<i64>, x: i64) -> Seq<i64>
    decreases s.len(),
{
    if s.len() == 0 {
        seq![x]
    } else if x < s[0] {
        seq![x] + s
    } else if x == s[0] {
        s
    } else {
        seq![s[0]] + insert_time(s.drop_first(), x)
    }
}

pub open spec fn strictly_ascending(s: Seq<i64>) -> bool {
    forall|i: int, j: int| 0 <= i < j < s.len() ==> s[i] < s[j]
}

pub open spec fn is_during_phase(p: MatchPhase) -> bool {
    p is Autonomous || p is Transition || p is Teleop
}

/// Seconds of match time that had passed when the clock showed `time`.
pub open spec fn elapsed_seconds(phase: MatchPhase, time: i64) -> int {
    match phase {
        MatchPhase::Autonomous => 150 - time,
        MatchPhase::Transition => 38 - time,
        MatchPhase::Teleop => 158 - time,
        _ => 0,
    }
}

/// Start of the match that a during-match detection points back to.
pub open spec fn estimate(d: WithTime<MatchDetection>) -> i64 {
    sat(d.frame_ts_us - 1_000_000 * elapsed_seconds(d.value.phase, d.value.time))
}

pub open spec fn estimates(s: Seq<WithTime<MatchDetection>>) -> Seq<i64> {
    s.map_values(|d: WithTime<MatchDetection>| estimate(d))
}

pub open spec fn median(c: Seq<i64>) -> i64 {
    c[(c.len() / 2) as int]
}

/// Largest median among the clusters with at least `min_len` elements.
pub open spec fn max_median(cs: Seq<Seq<i64>>, min_len: nat) -> Option<i64>
    decreases cs.len(),
{
    if cs.len() == 0 {
        None
    } else {
        let rest = max_median(cs.drop_last(), min_len);
        let c = cs.last();
        if c.len() >= min_len {
            match rest {
                None => Some(median(c)),
                Some(m) => Some(if median(c) > m { median(c) } else { m }),
            }
        } else {
            rest
        }
    }
}

/// The inferred start from the sorted start estimates: their median when
/// they span under 10 s; otherwise the latest 5 s cluster's median, among
/// the clusters of 5 or more if there are any.
pub open spec fn start_from_sorted(s: Seq<i64>) -> Option<i64> {
    if s.len() == 0 {
        None
    } else if abs_int(s.last() - s[0]) < 10_000_000 {
        Some(median(s))
    } else {
        let cs = clusters_spec(s, 5_000_000, ClusterAnchor::First);
        if forall|i: int| 0 <= i < cs.len() ==> #[trigger] cs[i].len() < 5 {
            max_median(cs, 0)
        } else {
            max_median(cs, 5)
        }
    }
}

pub open spec fn start_spec(during: Seq<WithTime<MatchDetection>>) -> Option<i64> {
    start_from_sorted(sort_spec(estimates(during)))
}

/// The start after inference: with no during-match detection the previous
/// value stays.
pub open spec fn start_after(during: Seq<WithTime<MatchDetection>>, previous: Option<i64>) -> Option<
    i64,
> {
    if during.len() == 0 {
        previous
    } else {
        start_spec(during)
    }
}

/// Detections in strictly ascending order of time.
pub open spec fn ascending_times<T>(s: Seq<WithTime<T>>) -> bool {
    forall|i: int, j: int| 0 <= i < j < s.len() ==> s[i].frame_ts_us < s[j].frame_ts_us
}

/// The last cluster with at least `min_len` elements.
pub open spec fn last_big(cs: Seq<Seq<i64>>, min_len: nat) -> Option<Seq<i64>>
    decreases cs.len(),
{
    if cs.len() == 0 {
        None
    } else if cs.last().len() >= min_len {
        Some(cs.last())
    } else {
        last_big(cs.drop_last(), min_len)
    }
}

pub open spec fn min_int(a: int, b: int) -> int {
    if a < b { a } else { b }
}

/// The results-screen window from the times its QR was seen: the last run
/// of 3 or more (times within 5 s of the previous), from 13 s before its
/// first time to the earlier of 12 s after its first and 2 s before its last.
pub open spec fn result_segment_spec(times: Seq<i64>) -> Option<Segment> {
    match last_big(clusters_spec(times, 5_000_000, ClusterAnchor::Last), 3) {
        None => None,
        Some(c) => Some(
            Segment {
                start_us: sat(c[0] - 13_000_000),
                end_us: sat(min_int(c[0] + 12_000_000, c.last() - 2_000_000)),
            },
        ),
    }
}

proof fn lemma_clusters_nonempty(s: Seq<i64>, gap: i64, anchor: ClusterAnchor)
    ensures
        forall|i: int|
            0 <= i < clusters_spec(s, gap, anchor).len() ==> #[trigger] clusters_spec(
                s,
                gap,
                anchor,
            )[i].len() > 0,
        s.len() > 0 ==> clusters_spec(s, gap, anchor).len() > 0,
    decreases s.len(),
{
    if s.len() > 0 {
        lemma_clusters_nonempty(s.drop_last(), gap, anchor);
        let cs = clusters_spec(s.drop_last(), gap, anchor);
        let n = clusters_spec(s, gap, anchor);
        let x = s.last();
        if cs.len() > 0 {
            assert forall|i: int| 0 <= i < n.len() implies #[trigger] n[i].len() > 0 by {
                if i < cs.len() - 1 {
                    assert(n[i] == cs[i]);
                } else if i == cs.len() - 1 {
                    if abs_int(x - anchor_of(cs.last(), anchor)) > gap {
                        assert(n[i] == cs[i]);
                    } else {
                        assert(n[i] == cs.last().push(x));
                    }
                }
            }
        } else {
            assert(n[0] == seq![x]);
        }
    }
}

/// For ascending times every cluster is ascending and the last cluster
/// ends with the last time.
proof fn lemma_clusters_ascending(s: Seq<i64>, gap: i64, anchor: ClusterAnchor)
    requires
        strictly_ascending(s),
    ensures
        forall|i: int|
            0 <= i < clusters_spec(s, gap, anchor).len() ==> {
                let c = #[trigger] clusters_spec(s, gap, anchor)[i];
                c.len() > 0 && c[0] <= c.last()
            },
        s.len() > 0 ==> clusters_spec(s, gap, anchor).last().last() == s.last(),
    decreases s.len(),
{
    if s.len() > 0 {
        let p = s.drop_last();
        assert(strictly_ascending(p));
        lemma_clusters_ascending(p, gap, anchor);
        lemma_clusters_nonempty(p, gap, anchor);
        let cs = clusters_spec(p, gap, anchor);
        let x = s.last();
        if cs.len() > 0 {
            assert(p.len() > 0);
            assert(cs.last().last() == p.last());
            assert(p.last() < x);
            assert(cs.last()[0] <= cs.last().last());
            let n = clusters_spec(s, gap, anchor);
            assert forall|i: int| 0 <= i < n.len() implies {
                let c = #[trigger] n[i];
                c.len() > 0 && c[0] <= c.last()
            } by {
                if i < cs.len() - 1 {
                    assert(n[i] == cs[i]);
                } else if i == cs.len() - 1 {
                    if abs_int(x - anchor_of(cs.last(), anchor)) > gap {
                        assert(n[i] == cs[i]);
                    } else {
                        assert(n[i] == cs.last().push(x));
                    }
                }
            }
        }
    }
}

proof fn lemma_max_median_member(cs: Seq<Seq<i64>>, min_len: nat)
    ensures
        max_median(cs, min_len) is Some ==> exists|i: int|
            0 <= i < cs.len() && cs[i].len() >= min_len && #[trigger] median(cs[i]) == max_median(
                cs,
                min_len,
            )->0,
    decreases cs.len(),
{
    if cs.len() > 0 {
        lemma_max_median_member(cs.drop_last(), min_len);
        if max_median(cs.drop_last(), min_len) is Some {
            let i = choose|i: int|
                0 <= i < cs.drop_last().len() && cs.drop_last()[i].len() >= min_len && #[trigger] median(
                    cs.drop_last()[i],
                ) == max_median(cs.drop_last(), min_len)->0;
            assert(cs[i] == cs.drop_last()[i]);
        }
        if max_median(cs, min_len) is Some && cs.last().len() >= min_len && max_median(
            cs,
            min_len,
        )->0 == median(cs.last()) {
            assert(cs[cs.len() - 1] == cs.last());
        }
    }
}

proof fn lemma_max_median_bound(cs: Seq<Seq<i64>>, min_len: nat, i: int)
    requires
        0 <= i < cs.len(),
        cs[i].len() >= min_len,
    ensures
        max_median(cs, min_len) is Some,
        median(cs[i]) <= max_median(cs, min_len)->0,
    decreases cs.len(),
{
    if i < cs.len() - 1 {
        assert(cs[i] == cs.drop_last()[i]);
        lemma_max_median_bound(cs.drop_last(), min_len, i);
    } else {
        assert(cs[i] == cs.last());
    }
}

/// Without a replay, the start is the median of the estimates: when the
/// sorted start estimates span less than 10 s, the inferred start is their
/// median.
pub proof fn lemma_start_without_replay(during: Seq<WithTime<MatchDetection>>)
    requires
        ({
            let s = sort_spec(estimates(during));
            s.len() > 0 && abs_int(s.last() - s[0]) < 10_000_000
        }),
    ensures
        start_spec(during) == Some(median(sort_spec(estimates(during)))),
{
}

/// With a replay, the later broadcast wins: when the sorted start estimates
/// span 10 s or more and some 5 s cluster holds at least 5 of them, the
/// inferred start is the median of such a cluster, and no other cluster of
/// at least 5 has a later median.
pub proof fn lemma_replay_prefers_latest(during: Seq<WithTime<MatchDetection>>)
    requires
        ({
            let s = sort_spec(estimates(during));
            let cs = clusters_spec(s, 5_000_000, ClusterAnchor::First);
            &&& s.len() > 0
            &&& abs_int(s.last() - s[0]) >= 10_000_000
            &&& exists|i: int| 0 <= i < cs.len() && #[trigger] cs[i].len() >= 5
        }),
    ensures
        ({
            let s = sort_spec(estimates(during));
            let cs = clusters_spec(s, 5_000_000, ClusterAnchor::First);
            &&& start_spec(during) is Some
            &&& exists|i: int|
                0 <= i < cs.len() && cs[i].len() >= 5 && #[trigger] median(cs[i]) == start_spec(
                    during,
                )->0
            &&& forall|i: int|
                0 <= i < cs.len() && cs[i].len() >= 5 ==> #[trigger] median(cs[i]) <= start_spec(
                    during,
                )->0
        }),
{
    let s = sort_spec(estimates(during));
    let cs = clusters_spec(s, 5_000_000, ClusterAnchor::First);
    let i = choose|i: int| 0 <= i < cs.len() && #[trigger] cs[i].len() >= 5;
    assert(!(forall|j: int| 0 <= j < cs.len() ==> #[trigger] cs[j].len() < 5));
    assert(start_spec(during) == max_median(cs, 5));
    lemma_max_median_bound(cs, 5, i);
    lemma_max_median_member(cs, 5);
    assert forall|j: int|
        0 <= j < cs.len() && cs[j].len() >= 5 implies #[trigger] median(cs[j]) <= max_median(
        cs,
        5,
    )->0 by {
        lemma_max_median_bound(cs, 5, j);
    }
}

pub open spec fn non_decreasing(s: Seq<i64>) -> bool {
    forall|i: int, j: int| 0 <= i < j < s.len() ==> s[i] <= s[j]
}

/// `n` copies of `v`.
pub open spec fn repeated(n: nat, v: i64) -> Seq<i64> {
    Seq::new(n, |i: int| v)
}

proof fn lemma_sort_of_sorted(s: Seq<i64>)
    requires
        non_decreasing(s),
    ensures
        sort_spec(s) == s,
    decreases s.len(),
{
    if s.len() > 0 {
        let p = s.drop_last();
        assert(non_decreasing(p));
        lemma_sort_of_sorted(p);
        assert forall|i: int| 0 <= i < p.len() implies p[i] <= s.last() by {
            assert(p[i] == s[i]);
        }
        lemma_insert_sorted_at(p, s.last(), p.len() as int);
        assert(p.insert(p.len() as int, s.last()) =~= s);
    }
}

proof fn lemma_clusters_of_two_runs(s1: i64, s2: i64, a: nat, b: nat, k: nat)
    requires
        a >= 1,
        s2 > s1 + 5_000_000,
        k <= a + b,
    ensures
        ({
            let s = (repeated(a, s1) + repeated(b, s2)).subrange(0, k as int);
            let cs = clusters_spec(s, 5_000_000, ClusterAnchor::First);
            &&& 1 <= k <= a ==> cs == seq![repeated(k, s1)]
            &&& a < k ==> cs == seq![repeated(a, s1), repeated((k - a) as nat, s2)]
        }),
    decreases k,
{
    let full = repeated(a, s1) + repeated(b, s2);
    let s = full.subrange(0, k as int);
    if k >= 1 {
        lemma_clusters_of_two_runs(s1, s2, a, b, (k - 1) as nat);
        assert(s.drop_last() =~= full.subrange(0, k - 1));
        let x = s.last();
        assert(x == full[k - 1]);
        let prev = clusters_spec(full.subrange(0, k - 1), 5_000_000, ClusterAnchor::First);
        if k <= a {
            assert(full[k - 1] == repeated(a, s1)[k - 1]);
            assert(x == s1);
            if k == 1 {
                assert(full.subrange(0, 0) =~= Seq::<i64>::empty());
                assert(seq![x] =~= repeated(1, s1));
            } else {
                assert(prev.last() == repeated((k - 1) as nat, s1));
                assert(anchor_of(prev.last(), ClusterAnchor::First) == s1);
                assert(abs_int(x - s1) == 0);
                assert(repeated((k - 1) as nat, s1).push(x) =~= repeated(k, s1));
                assert(prev.update(0, prev.last().push(x)) =~= seq![repeated(k, s1)]);
            }
        } else {
            assert(full[k - 1] == repeated(b, s2)[k - 1 - a]);
            assert(x == s2);
            if k == a + 1 {
                assert(prev.last() == repeated(a, s1));
                assert(anchor_of(prev.last(), ClusterAnchor::First) == s1);
                assert(abs_int(x - s1) > 5_000_000);
                assert(seq![x] =~= repeated(1, s2));
                assert(seq![repeated(a, s1)].push(seq![x]) =~= seq![repeated(a, s1), repeated(1, s2)]);
            } else {
                assert(prev.last() == repeated((k - 1 - a) as nat, s2));
                assert(anchor_of(prev.last(), ClusterAnchor::First) == s2);
                assert(abs_int(x - s2) == 0);
                assert(repeated((k - 1 - a) as nat, s2).push(x) =~= repeated((k - a) as nat, s2));
                assert(seq![repeated(a, s1), repeated((k - 1 - a) as nat, s2)].update(
                    1,
                    repeated((k - 1 - a) as nat, s2).push(x),
                ) =~= seq![repeated(a, s1), repeated((k - a) as nat, s2)]);
            }
        }
    }
}

proof fn lemma_two_runs_sorted(s1: i64, s2: i64, a: nat, b: nat)
    requires
        s1 <= s2,
    ensures
        non_decreasing(repeated(a, s1) + repeated(b, s2)),
{
    let e = repeated(a, s1) + repeated(b, s2);
    assert forall|i: int, j: int| 0 <= i < j < e.len() implies e[i] <= e[j] by {
        if i < a {
            assert(e[i] == s1);
        } else {
            assert(e[i] == repeated(b, s2)[i - a]);
        }
        if j < a {
            assert(e[j] == s1);
        } else {
            assert(e[j] == repeated(b, s2)[j - a]);
        }
    }
}

/// A match shown once: when every during-match detection points back to
/// the same start `s`, that is the inferred start.
pub proof fn lemma_single_showing(during: Seq<WithTime<MatchDetection>>, s: i64)
    requires
        during.len() > 0,
        estimates(during) == repeated(during.len(), s),
    ensures
        start_spec(during) == Some(s),
{
    let e = estimates(during);
    lemma_sort_of_sorted(e);
}

/// A replayed match: when the during-match detections point back to a start
/// `s1` (five or more of them) and then to a start `s2` at least 10 s later
/// (five or more), the inferred start is the later one, `s2`.
pub proof fn lemma_replay_two_showings(
    during: Seq<WithTime<MatchDetection>>,
    s1: i64,
    s2: i64,
    a: nat,
    b: nat,
)
    requires
        a >= 5,
        b >= 5,
        s2 >= s1 + 10_000_000,
        estimates(during) == repeated(a, s1) + repeated(b, s2),
    ensures
        start_spec(during) == Some(s2),
{
    let e = estimates(during);
    lemma_two_runs_sorted(s1, s2, a, b);
    lemma_sort_of_sorted(e);
    assert(e[0] == repeated(a, s1)[0]);
    assert(e.last() == repeated(b, s2)[b - 1]);
    lemma_clusters_of_two_runs(s1, s2, a, b, a + b);
    assert(e.subrange(0, (a + b) as int) =~= e);
    let cs = clusters_spec(e, 5_000_000, ClusterAnchor::First);
    assert(cs == seq![repeated(a, s1), repeated(b, s2)]);
    assert(cs[1].len() >= 5);
    assert(!(forall|i: int| 0 <= i < cs.len() ==> #[trigger] cs[i].len() < 5));
    assert(median(repeated(a, s1)) == s1);
    assert(median(repeated(b, s2)) == s2);
    assert(cs.drop_last().drop_last() =~= Seq::<Seq<i64>>::empty());
    assert(cs.drop_last() =~= seq![repeated(a, s1)]);
    assert(max_median(cs.drop_last().drop_last(), 5) is None);
    assert(max_median(cs.drop_last(), 5) == Some(s1));
    assert(max_median(cs, 5) == Some(s2));
    assert(abs_int(e.last() - e[0]) >= 10_000_000);
    assert(start_from_sorted(e) == max_median(cs, 5));
}

/// Recording the same results-screen time twice records it once.
pub proof fn lemma_results_screen_idempotent(s: Seq<i64>, x: i64)
    ensures
        insert_time(insert_time(s, x), x) == insert_time(s, x),
    decreases s.len(),
{
    if s.len() > 0 && x > s[0] {
        lemma_results_screen_idempotent(s.drop_first(), x);
        let r = insert_time(s.drop_first(), x);
        assert((seq![s[0]] + r)[0] == s[0]);
        assert((seq![s[0]] + r).drop_first() =~= r);
    } else if s.len() == 0 || x < s[0] {
        assert((seq![x] + s)[0] == x);
    }
}

/// A second detection at a time already filed changes nothing.
pub proof fn lemma_detection_idempotent<T>(s: Seq<WithTime<T>>, w: WithTime<T>, w2: WithTime<T>)
    requires
        w2.frame_ts_us == w.frame_ts_us,
    ensures
        insert_by_time(insert_by_time(s, w), w2) == insert_by_time(s, w),
    decreases s.len(),
{
    if s.len() > 0 && w.frame_ts_us > s[0].frame_ts_us {
        lemma_detection_idempotent(s.drop_first(), w, w2);
        let r = insert_by_time(s.drop_first(), w);
        assert((seq![s[0]] + r)[0] == s[0]);
        assert((seq![s[0]] + r).drop_first() =~= r);
    } else if s.len() == 0 || w.frame_ts_us < s[0].frame_ts_us {
        assert((seq![w] + s)[0] == w);
    }
}

proof fn lemma_insert_sorted_at(s: Seq<i64>, x: i64, p: int)
    requires
        0 <= p <= s.len(),
        forall|i: int| 0 <= i < p ==> s[i] <= x,
        p == s.len() || x < s[p],
    ensures
        insert_sorted(s, x) == s.insert(p, x),
    decreases p,
{
    if p == 0 {
        if s.len() == 0 {
            assert(s.insert(0, x) =~= seq![x]);
        } else {
            assert(s.insert(0, x) =~= seq![x] + s);
        }
    } else {
        let t = s.drop_first();
        assert forall|i: int| 0 <= i < p - 1 implies t[i] <= x by {
            assert(t[i] == s[i + 1]);
        }
        if p < s.len() {
            assert(t[p - 1] == s[p]);
        }
        lemma_insert_sorted_at(t, x, p - 1);
        assert(seq![s[0]] + t.insert(p - 1, x) =~= s.insert(p, x));
    }
}

pub proof fn lemma_insert_by_time_at<T>(s: Seq<WithTime<T>>, w: WithTime<T>, p: int)
    requires
        0 <= p <= s.len(),
        forall|i: int| 0 <= i < p ==> s[i].frame_ts_us < w.frame_ts_us,
        p == s.len() || w.frame_ts_us <= s[p].frame_ts_us,
    ensures
        p < s.len() && s[p].frame_ts_us == w.frame_ts_us ==> insert_by_time(s, w) == s,
        !(p < s.len() && s[p].frame_ts_us == w.frame_ts_us) ==> insert_by_time(s, w) == s.insert(
            p,
            w,
        ),
    decreases p,
{
    if p == 0 {
        if s.len() == 0 {
            assert(s.insert(0, w) =~= seq![w]);
        } else {
            assert(s.insert(0, w) =~= seq![w] + s);
        }
    } else {
        let t = s.drop_first();
        assert forall|i: int| 0 <= i < p - 1 implies t[i].frame_ts_us < w.frame_ts_us by {
            assert(t[i] == s[i + 1]);
        }
        if p < s.len() {
            assert(t[p - 1] == s[p]);
        }
        lemma_insert_by_time_at(t, w, p - 1);
        assert(seq![s[0]] + t =~= s);
        assert(seq![s[0]] + t.insert(p - 1, w) =~= s.insert(p, w));
    }
}

proof fn lemma_insert_time_at(s: Seq<i64>, x: i64, p: int)
    requires
        0 <= p <= s.len(),
        forall|i: int| 0 <= i < p ==> s[i] < x,
        p == s.len() || x <= s[p],
    ensures
        p < s.len() && s[p] == x ==> insert_time(s, x) == s,
        !(p < s.len() && s[p] == x) ==> insert_time(s, x) == s.insert(p, x),
    decreases p,
{
    if p == 0 {
        if s.len() == 0 {
            assert(s.insert(0, x) =~= seq![x]);
        } else {
            assert(s.insert(0, x) =~= seq![x] + s);
        }
    } else {
        let t = s.drop_first();
        assert forall|i: int| 0 <= i < p - 1 implies t[i] < x by {
            assert(t[i] == s[i + 1]);
        }
        if p < s.len() {
            assert(t[p - 1] == s[p]);
        }
        lemma_insert_time_at(t, x, p - 1);
        assert(seq![s[0]] + t =~= s);
        assert(seq![s[0]] + t.insert(p - 1, x) =~= s.insert(p, x));
    }
}

/// Splits `times` into consecutive clusters: a time opens a new cluster when
/// it lies more than `gap` microseconds from the open cluster's first
/// (`ClusterAnchor::First`) or last (`ClusterAnchor::Last`) element.
pub fn cluster_times(times: &Vec<i64>, gap: i64, anchor: ClusterAnchor) -> (r: Vec<Vec<i64>>)
    ensures
        r@.map_values(|c: Vec<i64>| c@) == clusters_spec(times@, gap, anchor),
{
    let mut r: Vec<Vec<i64>> = Vec::new();
    let mut i: usize = 0;
    assert(r@.map_values(|c: Vec<i64>| c@) =~= clusters_spec(times@.subrange(0, 0), gap, anchor));
    while i < times.len()
        invariant
            i <= times@.len(),
            r@.map_values(|c: Vec<i64>| c@) == clusters_spec(times@.subrange(0, i as int), gap, anchor),
        decreases times@.len() - i,
    {
        let x = times[i];
        let ghost pre = times@.subrange(0, i as int);
        let ghost cur = times@.subrange(0, i + 1);
        assert(cur.drop_last() == pre);
        assert(cur.last() == x);
        let ghost old_r = r@;
        let ghost m = old_r.map_values(|c: Vec<i64>| c@);
        proof {
            lemma_clusters_nonempty(pre, gap, anchor);
        }
        assert(m.len() == old_r.len());
        if r.len() == 0 {
            r.push(vec![x]);
            assert(r@.map_values(|c: Vec<i64>| c@) =~= clusters_spec(cur, gap, anchor)) by {
                assert(r@[0]@ =~= seq![x]);
            }
        } else {
            let last = r.len() - 1;
            assert(m[last as int] == old_r[last as int]@);
            assert(m.last().len() > 0);
            let a = match anchor {
                ClusterAnchor::First => r[last][0],
                ClusterAnchor::Last => r[last][r[last].len() - 1],
            };
            assert(a == anchor_of(m.last(), anchor));
            let d = x as i128 - a as i128;
            let far = if d < 0 { -d > gap as i128 } else { d > gap as i128 };
            if far {
                let c = vec![x];
                assert(c@ =~= seq![x]);
                r.push(c);
                assert(r@ == old_r.push(c));
            } else {
                let mut c = r.pop().unwrap();
                c.push(x);
                r.push(c);
                assert(r@ == old_r.drop_last().push(c));
                assert(c@ == m.last().push(x));
            }
            assert(r@.map_values(|c: Vec<i64>| c@) =~= clusters_spec(cur, gap, anchor)) by {
                let n = r@.map_values(|c: Vec<i64>| c@);
                assert forall|k: int| 0 <= k < n.len() implies n[k] == clusters_spec(
                    cur,
                    gap,
                    anchor,
                )[k] by {
                    if k < old_r.len() - 1 {
                        assert(n[k] == old_r[k]@);
                        assert(m[k] == old_r[k]@);
                    } else if k == old_r.len() - 1 && far {
                        assert(n[k] == old_r[k]@);
                        assert(m[k] == old_r[k]@);
                    }
                }
            }
        }
        i = i + 1;
    }
    assert(times@.subrange(0, times@.len() as int) == times@);
    r
}

/// `v` in ascending order.
pub fn sort_times(v: &Vec<i64>) -> (r: Vec<i64>)
    ensures
        r@ == sort_spec(v@),
{
    let mut r: Vec<i64> = Vec::new();
    let mut i: usize = 0;
    assert(v@.subrange(0, 0) =~= Seq::<i64>::empty());
    while i < v.len()
        invariant
            i <= v@.len(),
            r@ == sort_spec(v@.subrange(0, i as int)),
        decreases v@.len() - i,
    {
        let x = v[i];
        assert(v@.subrange(0, i + 1).drop_last() == v@.subrange(0, i as int));
        assert(v@.subrange(0, i + 1).last() == x);
        let mut p: usize = 0;
        while p < r.len() && r[p] <= x
            invariant
                p <= r@.len(),
                forall|k: int| 0 <= k < p ==> r@[k] <= x,
            decreases r@.len() - p,
        {
            p = p + 1;
        }
        proof {
            lemma_insert_sorted_at(r@, x, p as int);
        }
        r.insert(p, x);
        i = i + 1;
    }
    assert(v@.subrange(0, v@.len() as int) == v@);
    r
}

fn median_of(c: &Vec<i64>) -> (r: i64)
    requires
        c@.len() > 0,
    ensures
        r == median(c@),
{
    c[c.len() / 2]
}

fn max_median_exec(cs: &Vec<Vec<i64>>, min_len: usize) -> (r: Option<i64>)
    requires
        forall|i: int| 0 <= i < cs@.len() ==> #[trigger] cs@[i]@.len() > 0,
    ensures
        r == max_median(cs@.map_values(|c: Vec<i64>| c@), min_len as nat),
{
    let ghost m = cs@.map_values(|c: Vec<i64>| c@);
    let mut best: Option<i64> = None;
    let mut i: usize = 0;
    assert(m.subrange(0, 0) =~= Seq::<Seq<i64>>::empty());
    while i < cs.len()
        invariant
            i <= cs@.len(),
            m == cs@.map_values(|c: Vec<i64>| c@),
            forall|i: int| 0 <= i < cs@.len() ==> #[trigger] cs@[i]@.len() > 0,
            best == max_median(m.subrange(0, i as int), min_len as nat),
        decreases cs@.len() - i,
    {
        assert(m.subrange(0, i + 1).drop_last() == m.subrange(0, i as int));
        assert(m.subrange(0, i + 1).last() == cs@[i as int]@);
        if cs[i].len() >= min_len {
            let md = median_of(&cs[i]);
            best = match best {
                None => Some(md),
                Some(b) => Some(if md > b { md } else { b }),
            };
        }
        i = i + 1;
    }
    assert(m.subrange(0, cs@.len() as int) == m);
    best
}

fn clamp_i128(x: i128) -> (r: i64)
    ensures
        r == sat(x as int),
{
    if x < i64::MIN as i128 {
        i64::MIN
    } else if x > i64::MAX as i128 {
        i64::MAX
    } else {
        x as i64
    }
}

/// Mathematical picture of a `Match`.
pub struct MatchView {
    pub key: MatchKey,
    pub before: Seq<WithTime<MatchDetection>>,
    pub during: Seq<WithTime<MatchDetection>>,
    pub after: Seq<WithTime<MatchDetection>>,
    pub results: Seq<i64>,
    pub start_us: Option<i64>,
    pub result_screen_segment: Option<Segment>,
}

/// A match with nothing seen yet.
pub open spec fn fresh_match(key: MatchKey) -> MatchView {
    MatchView {
        key,
        before: seq![],
        during: seq![],
        after: seq![],
        results: seq![],
        start_us: None,
        result_screen_segment: None,
    }
}

impl MatchView {
    /// The match after `d` is filed in the bucket of its phase.
    pub open spec fn with_detection(self, d: WithTime<MatchDetection>) -> MatchView {
        MatchView {
            before: if d.value.phase is NotStarted {
                insert_by_time(self.before, d)
            } else {
                self.before
            },
            during: if is_during_phase(d.value.phase) {
                insert_by_time(self.during, d)
            } else {
                self.during
            },
            after: if d.value.phase is Ended {
                insert_by_time(self.after, d)
            } else {
                self.after
            },
            ..self
        }
    }

    /// The match after its results QR is seen at `t`.
    pub open spec fn with_results_screen(self, t: i64) -> MatchView {
        MatchView { results: insert_time(self.results, t), ..self }
    }

    /// The match with its start and results-screen window inferred.
    pub open spec fn finalized(self) -> MatchView {
        MatchView {
            start_us: start_after(self.during, self.start_us),
            result_screen_segment: result_segment_spec(self.results),
            ..self
        }
    }
}

/// Per-match aggregate of everything seen of one match.
#[derive(Debug)]
pub struct Match {
    pub key: MatchKey,
    /// Pre-match detects
    pub before_detects: Vec<WithTime<MatchDetection>>,
    /// During-match detects
    pub during_detects: Vec<WithTime<MatchDetection>>,
    /// After-match detects
    pub after_detects: Vec<WithTime<MatchDetection>>,
    /// Times at which this match's results QR was seen, ascending
    pub result_screen_detects: Vec<i64>,
    /// Inferred match start
    pub start_us: Option<i64>,
    /// Inferred results-screen window
    pub result_screen_segment: Option<Segment>,
}

impl View for Match {
    type V = MatchView;

    open spec fn view(&self) -> MatchView {
        MatchView {
            key: self.key,
            before: self.before_detects@,
            during: self.during_detects@,
            after: self.after_detects@,
            results: self.result_screen_detects@,
            start_us: self.start_us,
            result_screen_segment: self.result_screen_segment,
        }
    }
}

impl Match {
    /// Each bucket holds only detections of its phases, in strictly
    /// ascending order of time, and the results screen times ascend without
    /// repetition.
    pub open spec fn wf(&self) -> bool {
        &&& forall|i: int|
            0 <= i < self.before_detects@.len() ==> (#[trigger] self.before_detects@[i]).value.phase
                is NotStarted
        &&& forall|i: int|
            0 <= i < self.during_detects@.len() ==> is_during_phase(
                (#[trigger] self.during_detects@[i]).value.phase,
            )
        &&& forall|i: int|
            0 <= i < self.after_detects@.len() ==> (#[trigger] self.after_detects@[i]).value.phase
                is Ended
        &&& ascending_times(self.before_detects@)
        &&& ascending_times(self.during_detects@)
        &&& ascending_times(self.after_detects@)
        &&& strictly_ascending(self.result_screen_detects@)
    }

    pub fn new(key: MatchKey) -> (r: Match)
        ensures
            r.wf(),
            r@ == fresh_match(key),
            r.key == key,
            r.before_detects@.len() == 0,
            r.during_detects@.len() == 0,
            r.after_detects@.len() == 0,
            r.result_screen_detects@.len() == 0,
            r.start_us is None,
            r.result_screen_segment is None,
    {
        Match {
            key,
            before_detects: Vec::new(),
            during_detects: Vec::new(),
            after_detects: Vec::new(),
            result_screen_detects: Vec::new(),
            start_us: None,
            result_screen_segment: None,
        }
    }

    /// Files a detection in the bucket of its phase; one whose time is
    /// already in that bucket is dropped.
    pub fn add_detection(&mut self, detection: WithTime<MatchDetection>)
        requires
            old(self).wf(),
        ensures
            final(self).wf(),
            final(self)@ == old(self)@.with_detection(detection),
            final(self).key == old(self).key,
            final(self).before_detects@ == if detection.value.phase is NotStarted {
                insert_by_time(old(self).before_detects@, detection)
            } else {
                old(self).before_detects@
            },
            final(self).during_detects@ == if is_during_phase(detection.value.phase) {
                insert_by_time(old(self).during_detects@, detection)
            } else {
                old(self).during_detects@
            },
            final(self).after_detects@ == if detection.value.phase is Ended {
                insert_by_time(old(self).after_detects@, detection)
            } else {
                old(self).after_detects@
            },
            final(self).result_screen_detects@ == old(self).result_screen_detects@,
            final(self).start_us == old(self).start_us,
            final(self).result_screen_segment == old(self).result_screen_segment,
    {
        match detection.value.phase {
            MatchPhase::NotStarted => {
                insert_detection(&mut self.before_detects, detection);
            },
            MatchPhase::Autonomous | MatchPhase::Transition | MatchPhase::Teleop => {
                insert_detection(&mut self.during_detects, detection);
            },
            MatchPhase::Ended => {
                insert_detection(&mut self.after_detects, detection);
            },
        }
    }

    /// Records that this match's results QR was seen at `time_us`.
    pub fn add_results_screen(&mut self, time_us: i64)
        requires
            old(self).wf(),
        ensures
            final(self).wf(),
            final(self)@ == old(self)@.with_results_screen(time_us),
            final(self).result_screen_detects@ == insert_time(
                old(self).result_screen_detects@,
                time_us,
            ),
            final(self).key == old(self).key,
            final(self).before_detects@ == old(self).before_detects@,
            final(self).during_detects@ == old(self).during_detects@,
            final(self).after_detects@ == old(self).after_detects@,
            final(self).start_us == old(self).start_us,
            final(self).result_screen_segment == old(self).result_screen_segment,
    {
        let ghost s = self.result_screen_detects@;
        let mut p: usize = 0;
        while p < self.result_screen_detects.len() && self.result_screen_detects[p] < time_us
            invariant
                s == self.result_screen_detects@,
                p <= s.len(),
                forall|k: int| 0 <= k < p ==> s[k] < time_us,
            decreases s.len() - p,
        {
            p = p + 1;
        }
        proof {
            lemma_insert_time_at(s, time_us, p as int);
        }
        if p < self.result_screen_detects.len() && self.result_screen_detects[p] == time_us {
            return;
        }
        self.result_screen_detects.insert(p, time_us);
        assert(strictly_ascending(self.result_screen_detects@)) by {
            let t = self.result_screen_detects@;
            assert forall|i: int, j: int| 0 <= i < j < t.len() implies t[i] < t[j] by {
                if j < p {
                    assert(t[i] == s[i] && t[j] == s[j]);
                } else if j == p {
                    assert(t[i] == s[i]);
                } else if i < p {
                    assert(t[i] == s[i] && t[j] == s[j - 1]);
                    assert(s[p as int] > time_us);
                    assert(s[i] < time_us);
                } else if i == p {
                    assert(t[j] == s[j - 1]);
                    assert(s[p as int] > time_us);
                    assert(s[p as int] <= s[j - 1]);
                } else {
                    assert(t[i] == s[i - 1] && t[j] == s[j - 1]);
                }
            }
        }
    }

    /// Infers the match start from the during-match detections: each points
    /// back to a start (its time minus the match time that had passed), and
    /// the sorted estimates decide as `start_from_sorted` says. With no
    /// during-match detection the start is left as it was.
    pub fn calc_start(&mut self)
        requires
            old(self).wf(),
        ensures
            final(self).start_us == start_after(old(self).during_detects@, old(self).start_us),
            old(self).during_detects@.len() > 0 ==> final(self).start_us == start_spec(
                old(self).during_detects@,
            ),
            old(self).during_detects@.len() == 0 ==> final(self).start_us == old(self).start_us,
            final(self).wf(),
            final(self).key == old(self).key,
            final(self).before_detects@ == old(self).before_detects@,
            final(self).during_detects@ == old(self).during_detects@,
            final(self).after_detects@ == old(self).after_detects@,
            final(self).result_screen_detects@ == old(self).result_screen_detects@,
            final(self).result_screen_segment == old(self).result_screen_segment,
    {
        let ghost during = self.during_detects@;
        let mut est: Vec<i64> = Vec::new();
        let mut i: usize = 0;
        while i < self.during_detects.len()
            invariant
                during == self.during_detects@,
                i <= during.len(),
                est@ =~= estimates(during.subrange(0, i as int)),
            decreases during.len() - i,
        {
            let d = &self.during_detects[i];
            let elapsed: i128 = match d.value.phase {
                MatchPhase::Autonomous => 150 - d.value.time as i128,
                MatchPhase::Transition => 38 - d.value.time as i128,
                MatchPhase::Teleop => 158 - d.value.time as i128,
                _ => 0,
            };
            let e = clamp_i128(d.frame_ts_us as i128 - 1_000_000 * elapsed);
            est.push(e);
            i = i + 1;
            assert(est@ =~= estimates(during.subrange(0, i as int)));
        }
        assert(during.subrange(0, during.len() as int) == during);
        let sorted = sort_times(&est);
        let n = sorted.len();
        if n == 0 {
            return;
        }
        let span = sorted[n - 1] as i128 - sorted[0] as i128;
        let span_abs = if span < 0 { -span } else { span };
        if span_abs < 10_000_000 {
            self.start_us = Some(sorted[n / 2]);
            return;
        }
        let clusters = cluster_times(&sorted, 5_000_000, ClusterAnchor::First);
        let ghost cs = clusters@.map_values(|c: Vec<i64>| c@);
        proof {
            lemma_clusters_nonempty(sorted@, 5_000_000, ClusterAnchor::First);
        }
        assert(cs.len() == clusters@.len());
        assert(forall|k: int| 0 <= k < clusters@.len() ==> #[trigger] cs[k] == clusters@[k]@);
        let mut all_small = true;
        let mut k: usize = 0;
        while k < clusters.len()
            invariant
                k <= clusters@.len(),
                cs.len() == clusters@.len(),
                forall|j: int| 0 <= j < clusters@.len() ==> #[trigger] cs[j] == clusters@[j]@,
                all_small == forall|j: int| 0 <= j < k ==> #[trigger] cs[j].len() < 5,
            decreases clusters@.len() - k,
        {
            assert(cs[k as int] == clusters@[k as int]@);
            if clusters[k].len() >= 5 {
                all_small = false;
            }
            k = k + 1;
        }
        assert forall|j: int| 0 <= j < clusters@.len() implies #[trigger] clusters@[j]@.len() > 0 by {
            assert(cs[j] == clusters@[j]@);
            assert(cs[j] == clusters_spec(sorted@, 5_000_000, ClusterAnchor::First)[j]);
        }
        self.start_us = if all_small {
            max_median_exec(&clusters, 0)
        } else {
            max_median_exec(&clusters, 5)
        };
    }

    /// Infers, records and returns the results-screen window from the times
    /// the results QR was seen (see `result_segment_spec`).
    pub fn calc_result_screen(&mut self) -> (r: Option<Segment>)
        requires
            old(self).wf(),
        ensures
            r == result_segment_spec(old(self).result_screen_detects@),
            r is Some ==> r->0.start_us <= r->0.end_us,
            final(self).result_screen_segment == r,
            final(self).wf(),
            final(self).key == old(self).key,
            final(self).before_detects@ == old(self).before_detects@,
            final(self).during_detects@ == old(self).during_detects@,
            final(self).after_detects@ == old(self).after_detects@,
            final(self).result_screen_detects@ == old(self).result_screen_detects@,
            final(self).start_us == old(self).start_us,
    {
        let ghost times = self.result_screen_detects@;
        let clusters = cluster_times(&self.result_screen_detects, 5_000_000, ClusterAnchor::Last);
        let ghost cs = clusters@.map_values(|c: Vec<i64>| c@);
        proof {
            lemma_clusters_nonempty(times, 5_000_000, ClusterAnchor::Last);
            lemma_clusters_ascending(times, 5_000_000, ClusterAnchor::Last);
        }
        let mut k: usize = clusters.len();
        assert(cs.subrange(0, k as int) == cs);
        while k > 0 && clusters[k - 1].len() < 3
            invariant
                k <= clusters@.len(),
                cs == clusters@.map_values(|c: Vec<i64>| c@),
                last_big(cs, 3) == last_big(cs.subrange(0, k as int), 3),
            decreases k,
        {
            assert(cs.subrange(0, k as int).last() == clusters@[k - 1]@);
            assert(cs.subrange(0, k as int).drop_last() == cs.subrange(0, k - 1));
            k = k - 1;
        }
        let r = if k == 0 {
            assert(cs.subrange(0, 0) =~= Seq::<Seq<i64>>::empty());
            None
        } else {
            let c = &clusters[k - 1];
            assert(cs.subrange(0, k as int).last() == c@);
            assert(cs[k - 1] == c@);
            let first = c[0] as i128;
            let last = c[c.len() - 1] as i128;
            let a = first + 12_000_000;
            let b = last - 2_000_000;
            Some(
                Segment {
                    start_us: clamp_i128(first - 13_000_000),
                    end_us: clamp_i128(if a < b { a } else { b }),
                },
            )
        };
        self.result_screen_segment = r;
        r
    }
}

fn insert_detection(v: &mut Vec<WithTime<MatchDetection>>, d: WithTime<MatchDetection>)
    requires
        ascending_times(old(v)@),
    ensures
        ascending_times(final(v)@),
        final(v)@ == insert_by_time(old(v)@, d),
        forall|i: int|
            0 <= i < final(v)@.len() ==> #[trigger] final(v)@[i] == d || old(v)@.contains(
                final(v)@[i],
            ),
{
    let ghost s = v@;
    let mut p: usize = 0;
    while p < v.len() && v[p].frame_ts_us < d.frame_ts_us
        invariant
            s == v@,
            p <= s.len(),
            forall|k: int| 0 <= k < p ==> s[k].frame_ts_us < d.frame_ts_us,
        decreases s.len() - p,
    {
        p = p + 1;
    }
    proof {
        lemma_insert_by_time_at(s, d, p as int);
    }
    if p < v.len() && v[p].frame_ts_us == d.frame_ts_us {
        assert forall|i: int| 0 <= i < v@.len() implies #[trigger] v@[i] == d || s.contains(v@[i]) by {
            assert(s[i] == v@[i]);
        }
        return;
    }
    v.insert(p, d);
    assert(ascending_times(v@)) by {
        let t = v@;
        assert forall|i: int, j: int| 0 <= i < j < t.len() implies t[i].frame_ts_us
            < t[j].frame_ts_us by {
            if j < p {
                assert(t[i] == s[i] && t[j] == s[j]);
            } else if j == p {
                assert(t[i] == s[i]);
            } else if i < p {
                assert(t[i] == s[i] && t[j] == s[j - 1]);
                assert(s[p as int].frame_ts_us > d.frame_ts_us);
                assert(s[p as int].frame_ts_us <= s[j - 1].frame_ts_us);
            } else if i == p {
                assert(t[j] == s[j - 1]);
                assert(s[p as int].frame_ts_us > d.frame_ts_us);
                assert(s[p as int].frame_ts_us <= s[j - 1].frame_ts_us);
            } else {
                assert(t[i] == s[i - 1] && t[j] == s[j - 1]);
            }
        }
    }
    assert forall|i: int| 0 <= i < v@.len() implies #[trigger] v@[i] == d || s.contains(v@[i]) by {
        if i < p {
            assert(s[i] == v@[i]);
        } else if i > p {
            assert(s[i - 1] == v@[i]);
        }
    }
}

} // verus!
