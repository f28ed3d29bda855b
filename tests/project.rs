use clipcrab::detection::{MatchDetection, MatchDisplayInfo, MatchPhase};
use clipcrab::match_key::MatchKey;
use clipcrab::model::Segment;
use clipcrab::project::{EventProject, ProjectState, Task, TaskResult, TaskSubmission};
use clipcrab::qr::{FTCEventsQR, MatchType};

const S: i64 = 1_000_000;

fn det(name: &str, time: i64, phase: MatchPhase) -> MatchDetection {
    MatchDetection {
        name: name.to_string(),
        time,
        phase,
        display_info: MatchDisplayInfo {
            red_alliance: vec![1],
            blue_alliance: vec![2],
            display_flipped: false,
        },
    }
}

/// What the overlay of a match whose clock starts at `start` shows at `ts`.
fn hud_at(name: &str, start: i64, ts: i64) -> TaskResult {
    let t = (ts - start) / S;
    if ts < start || t > 158 {
        return TaskResult::Nothing;
    }
    let (clock, phase) = if t < 30 {
        (150 - t, MatchPhase::Autonomous)
    } else if t < 38 {
        (8 - (t - 30), MatchPhase::Transition)
    } else if t < 158 {
        (120 - (t - 38), MatchPhase::Teleop)
    } else {
        (0, MatchPhase::Ended)
    };
    TaskResult::MatchDetection(det(name, clock, phase))
}

/// Hands out every task and answers it with `answer`, until the project is done.
fn run(p: &mut EventProject, answer: &dyn Fn(&Task) -> TaskResult) -> Vec<Task> {
    let mut clips = Vec::new();
    let mut guard = 0;
    while p.state != ProjectState::Done {
        guard += 1;
        assert!(guard < 100_000);
        match p.next() {
            Some(task) => {
                let time_us = match task {
                    Task::AnalyzeFrame(t) | Task::CheckQROnly(t) => t,
                    _ => 0,
                };
                if let Task::ClipMatch { .. } = task {
                    clips.push(task);
                }
                let result = answer(&task);
                p.process_submission(TaskSubmission { task, time_us, result });
            }
            None => {}
        }
    }
    clips
}

fn answer_frames(f: impl Fn(i64) -> TaskResult) -> impl Fn(&Task) -> TaskResult {
    move |task: &Task| match task {
        Task::AnalyzeFrame(t) => f(*t),
        Task::ClipMatch { .. } => TaskResult::ClipDone,
        _ => TaskResult::Nothing,
    }
}

#[test]
fn new_schedules_one_frame_per_second() {
    let p = EventProject::new(2 * S, 5 * S + 1);
    let tasks: Vec<Task> = p.next_tasks.iter().copied().collect();
    assert_eq!(
        tasks,
        vec![Task::AnalyzeFrame(2 * S), Task::AnalyzeFrame(3 * S), Task::AnalyzeFrame(4 * S), Task::AnalyzeFrame(5 * S)]
    );
    assert_eq!(p.state, ProjectState::InitialScan);
    assert!(EventProject::new(5 * S, 5 * S).next_tasks.is_empty());
    assert!(EventProject::new(6 * S, 5 * S).next_tasks.is_empty());
}

#[test]
fn next_waits_for_pending_answers() {
    let mut p = EventProject::new(0, S);
    assert_eq!(p.next(), Some(Task::AnalyzeFrame(0)));
    assert_eq!(p.in_flight, vec![Task::AnalyzeFrame(0)]);
    assert_eq!(p.next(), None);
    assert_eq!(p.state, ProjectState::InitialScan);
    p.process_submission(TaskSubmission { task: Task::AnalyzeFrame(0), time_us: 0, result: TaskResult::Nothing });
    assert!(p.in_flight.is_empty());
    assert_eq!(p.next(), None);
    assert_eq!(p.state, ProjectState::Done);
    assert_eq!(p.next(), None);
}

#[test]
fn single_qualification_no_replay() {
    let mut p = EventProject::new(0, 200 * S);
    let clips = run(&mut p, &answer_frames(|t| hud_at("Qualification 7", 0, t)));
    assert_eq!(p.matches.len(), 1);
    let m = &p.matches[0];
    assert_eq!(m.key, MatchKey::Qualification { num: 7 });
    assert!(m.start_us.unwrap().abs() <= S);
    assert_eq!(clips.len(), 1);
    match clips[0] {
        Task::ClipMatch { key, match_segment, result_segment } => {
            assert_eq!(key, MatchKey::Qualification { num: 7 });
            assert_eq!(match_segment, Segment { start_us: 0, end_us: 180 * S });
            assert_eq!(result_segment, None);
        }
        _ => panic!("not a clip task"),
    }
}

#[test]
fn playoff_tiebreaker_key_from_hud() {
    let mut p = EventProject::new(0, 10 * S);
    run(&mut p, &answer_frames(|_| TaskResult::MatchDetection(det("Playoff Match 3 Tiebreaker 2", 100, MatchPhase::Teleop))));
    assert_eq!(p.matches.len(), 1);
    assert_eq!(p.matches[0].key, MatchKey::Playoff { num: 3, tiebreaker: 3 });
}

#[test]
fn unreadable_name_adds_no_match() {
    let mut p = EventProject::new(0, 10 * S);
    run(&mut p, &answer_frames(|_| TaskResult::MatchDetection(det("Practice", 100, MatchPhase::Teleop))));
    assert!(p.matches.is_empty());
}

#[test]
fn replayed_match_clip_starts_at_replay() {
    let mut p = EventProject::new(0, 450 * S);
    let clips = run(
        &mut p,
        &answer_frames(|t| {
            if t < 200 * S {
                hud_at("Qualification 2", 0, t)
            } else {
                hud_at("Qualification 2", 248 * S, t)
            }
        }),
    );
    assert_eq!(p.matches.len(), 1);
    assert!((p.matches[0].start_us.unwrap() - 248 * S).abs() <= S);
    assert_eq!(clips.len(), 1);
}

#[test]
fn results_qr_without_hud() {
    let mut p = EventProject::new(0, 300 * S);
    let clips = run(
        &mut p,
        &answer_frames(|t| {
            if (160 * S..170 * S).contains(&t) {
                TaskResult::MatchResultQR(FTCEventsQR {
                    event_code: "USCALAS".to_string(),
                    match_type: MatchType::Qualification { num: 5 },
                })
            } else {
                TaskResult::Nothing
            }
        }),
    );
    assert!(clips.is_empty());
    assert_eq!(p.matches.len(), 1);
    let m = &p.matches[0];
    assert_eq!(m.key, MatchKey::Qualification { num: 5 });
    assert!(m.during_detects.is_empty());
    assert_eq!(m.result_screen_detects.len(), 10);
    assert_eq!(m.start_us, None);
    assert_eq!(
        m.result_screen_segment,
        Some(Segment { start_us: 147 * S, end_us: 167 * S })
    );
}

#[test]
fn match_and_results_screen_in_one_clip() {
    let mut p = EventProject::new(0, 300 * S);
    let clips = run(
        &mut p,
        &answer_frames(|t| {
            if (200 * S..230 * S).contains(&t) {
                TaskResult::MatchResultQR(FTCEventsQR {
                    event_code: "USCALAS".to_string(),
                    match_type: MatchType::Qualification { num: 7 },
                })
            } else {
                hud_at("Qualification 7", 10 * S, t)
            }
        }),
    );
    assert_eq!(p.matches.len(), 1);
    assert_eq!(
        clips,
        vec![Task::ClipMatch {
            key: MatchKey::Qualification { num: 7 },
            match_segment: Segment { start_us: 10 * S, end_us: 190 * S },
            result_segment: Some(Segment { start_us: 187 * S, end_us: 212 * S }),
        }]
    );
}

#[test]
fn two_matches_two_clips_in_table_order() {
    let mut p = EventProject::new(0, 400 * S);
    let clips = run(
        &mut p,
        &answer_frames(|t| {
            if t < 180 * S {
                hud_at("Qualification 1", 0, t)
            } else {
                hud_at("Qualification 2", 200 * S, t)
            }
        }),
    );
    assert_eq!(p.matches.len(), 2);
    let keys: Vec<MatchKey> = clips
        .iter()
        .map(|c| match c {
            Task::ClipMatch { key, .. } => *key,
            _ => panic!("not a clip task"),
        })
        .collect();
    assert_eq!(keys, vec![MatchKey::Qualification { num: 1 }, MatchKey::Qualification { num: 2 }]);
}

#[test]
fn clips_come_in_key_order() {
    let mut p = EventProject::new(0, 400 * S);
    let clips = run(
        &mut p,
        &answer_frames(|t| {
            if t < 180 * S {
                hud_at("Playoff Match 1", 0, t)
            } else {
                hud_at("Qualification 9", 200 * S, t)
            }
        }),
    );
    let keys: Vec<MatchKey> = p.matches.iter().map(|m| m.key).collect();
    assert_eq!(keys, vec![MatchKey::Qualification { num: 9 }, MatchKey::Playoff { num: 1, tiebreaker: 1 }]);
    let clip_keys: Vec<MatchKey> = clips
        .iter()
        .map(|c| match c {
            Task::ClipMatch { key, .. } => *key,
            _ => panic!("not a clip task"),
        })
        .collect();
    assert_eq!(clip_keys, keys);
}
