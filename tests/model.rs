use clipcrab::detection::{MatchDetection, MatchDisplayInfo, MatchPhase};
use clipcrab::match_key::MatchKey;
use clipcrab::model::{cluster_times, sort_times, ClusterAnchor, Match, Segment, WithTime};

const S: i64 = 1_000_000;

fn det(name: &str, time: i64, phase: MatchPhase) -> MatchDetection {
    MatchDetection {
        name: name.to_string(),
        time,
        phase,
        display_info: MatchDisplayInfo {
            red_alliance: vec![1, 2],
            blue_alliance: vec![3, 4],
            display_flipped: false,
        },
    }
}

/// Detections of one full match whose clock starts at `start` (seconds).
fn full_match(m: &mut Match, name: &str, start: i64) {
    for t in 0..=158 {
        let (clock, phase) = if t < 30 {
            (150 - t, MatchPhase::Autonomous)
        } else if t < 38 {
            (8 - (t - 30), MatchPhase::Transition)
        } else if t < 158 {
            (120 - (t - 38), MatchPhase::Teleop)
        } else {
            (0, MatchPhase::Ended)
        };
        m.add_detection(WithTime::new((start + t) * S, det(name, clock, phase)));
    }
}

#[test]
fn cluster_separator() {
    let times = vec![0, S, 2 * S, 10 * S, 11 * S];
    assert_eq!(
        cluster_times(&times, 5 * S, ClusterAnchor::First),
        vec![vec![0, S, 2 * S], vec![10 * S, 11 * S]]
    );
    assert_eq!(
        cluster_times(&times, 5 * S, ClusterAnchor::Last),
        vec![vec![0, S, 2 * S], vec![10 * S, 11 * S]]
    );
}

#[test]
fn cluster_anchor_matters() {
    let times = vec![0, 4 * S, 8 * S];
    assert_eq!(cluster_times(&times, 5 * S, ClusterAnchor::First), vec![vec![0, 4 * S], vec![8 * S]]);
    assert_eq!(cluster_times(&times, 5 * S, ClusterAnchor::Last), vec![vec![0, 4 * S, 8 * S]]);
    assert_eq!(cluster_times(&vec![], 5 * S, ClusterAnchor::Last), Vec::<Vec<i64>>::new());
}

#[test]
fn sorts_times() {
    assert_eq!(sort_times(&vec![5, -1, 3, 3, 0]), vec![-1, 0, 3, 3, 5]);
}

#[test]
fn buckets_by_phase_and_drops_repeated_times() {
    let mut m = Match::new(MatchKey::Qualification { num: 1 });
    m.add_detection(WithTime::new(5 * S, det("Qualification 1", 150, MatchPhase::NotStarted)));
    m.add_detection(WithTime::new(7 * S, det("Qualification 1", 140, MatchPhase::Autonomous)));
    m.add_detection(WithTime::new(6 * S, det("Qualification 1", 141, MatchPhase::Autonomous)));
    m.add_detection(WithTime::new(6 * S, det("Qualification 1", 99, MatchPhase::Teleop)));
    m.add_detection(WithTime::new(9 * S, det("Qualification 1", 0, MatchPhase::Ended)));
    assert_eq!(m.before_detects.len(), 1);
    assert_eq!(m.after_detects.len(), 1);
    let times: Vec<i64> = m.during_detects.iter().map(|d| d.frame_ts_us).collect();
    assert_eq!(times, vec![6 * S, 7 * S]);
    assert_eq!(m.during_detects[0].value.time, 141);
}

#[test]
fn results_screen_times_are_a_set() {
    let mut m = Match::new(MatchKey::Qualification { num: 1 });
    m.add_results_screen(3 * S);
    m.add_results_screen(S);
    m.add_results_screen(3 * S);
    assert_eq!(m.result_screen_detects, vec![S, 3 * S]);
}

#[test]
fn calc_start_without_replay() {
    let mut m = Match::new(MatchKey::Qualification { num: 1 });
    for i in 0..10 {
        // teleop clock 100 means 58 s of the match have passed
        m.add_detection(WithTime::new((100 + i) * S + 58 * S, det("Qualification 1", 100, MatchPhase::Teleop)));
    }
    m.calc_start();
    assert_eq!(m.start_us, Some(105 * S));
}

#[test]
fn calc_start_span_of_ten_seconds_is_a_replay() {
    let mut m = Match::new(MatchKey::Qualification { num: 1 });
    for i in 0..11 {
        m.add_detection(WithTime::new((100 + i) * S + 58 * S, det("Qualification 1", 100, MatchPhase::Teleop)));
    }
    m.calc_start();
    // clusters 100..=105 and 106..=110 both hold five or more: the later one wins
    assert_eq!(m.start_us, Some(108 * S));
}

#[test]
fn calc_start_estimates_per_phase() {
    let mut m = Match::new(MatchKey::Qualification { num: 1 });
    m.add_detection(WithTime::new(20 * S, det("Qualification 1", 140, MatchPhase::Autonomous)));
    m.add_detection(WithTime::new(45 * S, det("Qualification 1", 5, MatchPhase::Transition)));
    m.add_detection(WithTime::new(71 * S, det("Qualification 1", 100, MatchPhase::Teleop)));
    m.calc_start();
    // estimates 10 s, 12 s, 13 s
    assert_eq!(m.start_us, Some(12 * S));
}

#[test]
fn calc_start_replay_takes_later_cluster() {
    let mut m = Match::new(MatchKey::Qualification { num: 1 });
    for i in 0..5 {
        m.add_detection(WithTime::new((100 + i) * S, det("Qualification 1", 150, MatchPhase::Autonomous)));
        m.add_detection(WithTime::new((200 + i) * S, det("Qualification 1", 150, MatchPhase::Autonomous)));
    }
    m.calc_start();
    assert_eq!(m.start_us, Some(202 * S));
}

#[test]
fn calc_start_small_clusters_take_latest() {
    let mut m = Match::new(MatchKey::Qualification { num: 1 });
    for t in [100, 101, 200, 201, 300] {
        m.add_detection(WithTime::new(t * S, det("Qualification 1", 150, MatchPhase::Autonomous)));
    }
    m.calc_start();
    assert_eq!(m.start_us, Some(300 * S));
}

#[test]
fn calc_start_large_cluster_beats_later_small_one() {
    let mut m = Match::new(MatchKey::Qualification { num: 1 });
    for t in [100, 101, 102, 103, 104, 200] {
        m.add_detection(WithTime::new(t * S, det("Qualification 1", 150, MatchPhase::Autonomous)));
    }
    m.calc_start();
    assert_eq!(m.start_us, Some(102 * S));
}

#[test]
fn calc_start_without_detections() {
    let mut m = Match::new(MatchKey::Qualification { num: 1 });
    m.add_detection(WithTime::new(S, det("Qualification 1", 150, MatchPhase::NotStarted)));
    m.calc_start();
    assert_eq!(m.start_us, None);
}

#[test]
fn replayed_match_starts_at_replay() {
    let mut m = Match::new(MatchKey::Qualification { num: 2 });
    full_match(&mut m, "Qualification 2", 0);
    full_match(&mut m, "Qualification 2", 158 + 90);
    m.calc_start();
    let start = m.start_us.unwrap();
    assert!((start - 248 * S).abs() <= S);
}

#[test]
fn single_match_starts_at_zero() {
    let mut m = Match::new(MatchKey::Qualification { num: 7 });
    full_match(&mut m, "Qualification 7", 0);
    m.calc_start();
    assert!(m.start_us.unwrap().abs() <= S);
}

#[test]
fn result_screen_segment() {
    let t = 500 * S;
    let mut m = Match::new(MatchKey::Qualification { num: 1 });
    for ts in [t, t + S, t + 2 * S, t + 90 * S] {
        m.add_results_screen(ts);
    }
    let seg = m.calc_result_screen();
    assert_eq!(seg, Some(Segment { start_us: t - 13 * S, end_us: t }));
    assert_eq!(m.result_screen_segment, seg);
}

#[test]
fn result_screen_long_cluster_ends_at_twelve_seconds() {
    let t = 500 * S;
    let mut m = Match::new(MatchKey::Qualification { num: 1 });
    for i in 0..30 {
        m.add_results_screen(t + i * S);
    }
    assert_eq!(m.calc_result_screen(), Some(Segment { start_us: t - 13 * S, end_us: t + 12 * S }));
}

#[test]
fn result_screen_needs_three() {
    let mut m = Match::new(MatchKey::Qualification { num: 1 });
    assert_eq!(m.calc_result_screen(), None);
    m.add_results_screen(S);
    m.add_results_screen(2 * S);
    m.add_results_screen(40 * S);
    assert_eq!(m.calc_result_screen(), None);
}

#[test]
fn with_time_keeps_value() {
    let w = WithTime::new(42, "x");
    assert_eq!(w.frame_ts_us, 42);
    assert_eq!(w.value, "x");
}

#[test]
fn calc_start_keeps_start_without_during_detects() {
    let mut m = Match::new(MatchKey::Qualification { num: 5 });
    m.add_results_screen(S);
    m.start_us = Some(7);
    m.calc_start();
    assert_eq!(m.start_us, Some(7));
    assert_eq!(m.result_screen_detects, vec![S]);
}
