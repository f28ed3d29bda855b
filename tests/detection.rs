use clipcrab::detection::{
    detect_match_phase, detection_from_readings, display_info_from_readings, is_blue_dominant,
    is_example_screen, match_time_to_seconds, parse_team_lines, phase_sprite, MatchPhase,
    PhaseSprite,
};

#[test]
fn phase_table() {
    for sprite in [true, false] {
        assert_eq!(detect_match_phase(151, sprite), None);
        assert_eq!(detect_match_phase(149, sprite), Some(MatchPhase::Autonomous));
        assert_eq!(detect_match_phase(121, sprite), Some(MatchPhase::Autonomous));
        assert_eq!(detect_match_phase(120, sprite), Some(MatchPhase::Teleop));
        assert_eq!(detect_match_phase(9, sprite), Some(MatchPhase::Teleop));
        assert_eq!(detect_match_phase(0, sprite), Some(MatchPhase::Ended));
    }
    assert_eq!(detect_match_phase(150, true), Some(MatchPhase::Autonomous));
    assert_eq!(detect_match_phase(150, false), Some(MatchPhase::NotStarted));
    assert_eq!(detect_match_phase(8, true), Some(MatchPhase::Transition));
    assert_eq!(detect_match_phase(8, false), Some(MatchPhase::Teleop));
    assert_eq!(detect_match_phase(1, true), Some(MatchPhase::Transition));
    assert_eq!(detect_match_phase(1, false), Some(MatchPhase::Teleop));
}

#[test]
fn sprite_only_at_boundaries() {
    assert_eq!(phase_sprite(150), Some(PhaseSprite::Autonomous));
    assert_eq!(phase_sprite(8), Some(PhaseSprite::Transition));
    assert_eq!(phase_sprite(1), Some(PhaseSprite::Transition));
    assert_eq!(phase_sprite(0), None);
    assert_eq!(phase_sprite(9), None);
    assert_eq!(phase_sprite(149), None);
    assert_eq!(phase_sprite(151), None);
}

#[test]
fn clock_text() {
    assert_eq!(match_time_to_seconds("2:30"), Some(150));
    assert_eq!(match_time_to_seconds("0:05\n"), Some(5));
    assert_eq!(match_time_to_seconds("1:\n15"), Some(75));
    assert_eq!(match_time_to_seconds("1:15:99"), Some(75));
    assert_eq!(match_time_to_seconds("130"), None);
    assert_eq!(match_time_to_seconds("a:30"), None);
    assert_eq!(match_time_to_seconds(""), None);
}

#[test]
fn team_lines() {
    assert_eq!(parse_team_lines("12345\n678"), vec![12345, 678]);
    assert_eq!(parse_team_lines("12345\nabc\n9"), vec![12345, 0, 9]);
    assert_eq!(parse_team_lines(""), vec![0]);
}

#[test]
fn example_screen() {
    assert!(is_example_screen("Example Qualification 1"));
    assert!(!is_example_screen("Qualification 1"));
    assert!(!is_example_screen("Exampl"));
}

#[test]
fn blue_threshold() {
    assert!(is_blue_dominant(70, 100));
    assert!(!is_blue_dominant(69, 100));
    assert!(is_blue_dominant(100, 100));
    assert!(!is_blue_dominant(0, 0));
}

#[test]
fn display_flipped_when_blue_on_left() {
    let info = display_info_from_readings("111\n222", "333\n444", 90, 100);
    assert!(info.display_flipped);
    assert_eq!(info.red_alliance, vec![333, 444]);
    assert_eq!(info.blue_alliance, vec![111, 222]);
    let info = display_info_from_readings("111\n222", "333\n444", 10, 100);
    assert!(!info.display_flipped);
    assert_eq!(info.red_alliance, vec![111, 222]);
    assert_eq!(info.blue_alliance, vec![333, 444]);
}

#[test]
fn example_screen_gives_no_detection() {
    assert!(detection_from_readings("Example Qualification 1", "1:30", false, "1", "2", 0, 10).is_none());
}

#[test]
fn detection_from_hud_readings() {
    let d = detection_from_readings("Qualification 7", "2:15", false, "1\n2", "3\n4", 0, 10).unwrap();
    assert_eq!(d.name, "Qualification 7");
    assert_eq!(d.time, 135);
    assert_eq!(d.phase, MatchPhase::Autonomous);
    assert_eq!(d.display_info.red_alliance, vec![1, 2]);
    assert!(detection_from_readings("Qualification 7", "3:00", false, "", "", 0, 10).is_none());
    assert!(detection_from_readings("Qualification 7", "??", false, "", "", 0, 10).is_none());
}
