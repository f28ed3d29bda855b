//! What one frame of the scoring overlay says, and the decisions that turn
//! the overlay's raw readings into a detection.
use vstd::prelude::*;
use crate::text::{
    chars_of, contains, contains_seq, parse_u64, parse_u64_spec, remove_char, split_at_char,
    split_on, without,
};

verus! {

/// Phase of a match.
#[derive(Debug, Clone, Copy, PartialEq, Eq, Structural, Hash)]
pub enum MatchPhase {
    /// Match not started yet.
    NotStarted,
    /// Autonomous period
    Autonomous,
    /// Auto-teleop transition
    Transition,
    /// Teleoperated period
    Teleop,
    /// Match ended.
    Ended,
}

/// The phase icon whose presence decides the phase at a boundary second.
#[derive(Debug, Clone, Copy, PartialEq, Eq, Structural, Hash)]
pub enum PhaseSprite {
    Autonomous,
    Transition,
}

/// Team lists as shown, and which side red was drawn on.
#[derive(Clone, PartialEq, Eq, Debug)]
pub struct MatchDisplayInfo {
    /// Red alliance teams
    pub red_alliance: Vec<u64>,
    /// Blue alliance teams
    pub blue_alliance: Vec<u64>,
    /// Whether blue was drawn on the left
    pub display_flipped: bool,
}

/// One reading of the live scoring overlay.
#[derive(Clone, PartialEq, Debug)]
pub struct MatchDetection {
    /// match name, e.g. "Qualification 7"
    pub name: String,
    /// seconds left on the match clock
    pub time: i64,
    /// match phase
    pub phase: MatchPhase,
    /// match display info
    pub display_info: MatchDisplayInfo,
}

/// The icon to look for at clock value `seconds`, if the clock alone does
/// not decide the phase.
pub open spec fn sprite_for(seconds: u64) -> Option<PhaseSprite> {
    if seconds == 150 {
        Some(PhaseSprite::Autonomous)
    } else if 1 <= seconds <= 8 {
        Some(PhaseSprite::Transition)
    } else {
        None
    }
}

/// The phase for a clock value; `sprite_matched` says whether the icon of
/// `sprite_for(seconds)` was seen, and matters only where there is one.
pub open spec fn phase_spec(seconds: u64, sprite_matched: bool) -> Option<MatchPhase> {
    if seconds > 150 {
        None
    } else if seconds == 150 {
        Some(if sprite_matched { MatchPhase::Autonomous } else { MatchPhase::NotStarted })
    } else if seconds >= 121 {
        Some(MatchPhase::Autonomous)
    } else if seconds >= 9 {
        Some(MatchPhase::Teleop)
    } else if seconds >= 1 {
        Some(if sprite_matched { MatchPhase::Transition } else { MatchPhase::Teleop })
    } else {
        Some(MatchPhase::Ended)
    }
}

/// Clock text `MM:SS` (newlines ignored, later fields ignored) as seconds.
pub open spec fn clock_seconds(s: Seq<char>) -> Option<u64> {
    let parts = split_on(without(s, '\n'), ':');
    if parts.len() >= 2 {
        match (parse_u64_spec(parts[0]), parse_u64_spec(parts[1])) {
            (Some(m), Some(sec)) => if m * 60 + sec <= u64::MAX {
                Some((m * 60 + sec) as u64)
            } else {
                None
            },
            _ => None,
        }
    } else {
        None
    }
}

pub open spec fn number_or_zero(line: Seq<char>) -> u64 {
    match parse_u64_spec(line) {
        Some(v) => v,
        None => 0,
    }
}

/// One team number per line; a line that is not a number gives 0.
pub open spec fn team_numbers(s: Seq<char>) -> Seq<u64> {
    split_on(s, '\n').map_values(|l: Seq<char>| number_or_zero(l))
}

pub open spec fn example_word() -> Seq<char> {
    seq!['E', 'x', 'a', 'm', 'p', 'l', 'e']
}

/// Whether blue covers at least 70% of the sampled score box.
pub open spec fn blue_dominant(blue_pixels: u64, total_pixels: u64) -> bool {
    total_pixels > 0 && 10 * (blue_pixels as int) >= 7 * (total_pixels as int)
}

/// Which phase icon to test for at clock value `seconds`, if any.
pub fn phase_sprite(seconds: u64) -> (r: Option<PhaseSprite>)
    ensures
        r == sprite_for(seconds),
{
    if seconds == 150 {
        Some(PhaseSprite::Autonomous)
    } else if 1 <= seconds && seconds <= 8 {
        Some(PhaseSprite::Transition)
    } else {
        None
    }
}

/// Phase of the match from the clock value and, at the boundary seconds,
/// whether the phase icon of `phase_sprite(timestamp)` was seen.
pub fn detect_match_phase(timestamp: u64, sprite_matched: bool) -> (r: Option<MatchPhase>)
    ensures
        r == phase_spec(timestamp, sprite_matched),
        r is Some ==> timestamp <= 150,
{
    if timestamp > 150 {
        None
    } else if timestamp == 150 {
        Some(if sprite_matched { MatchPhase::Autonomous } else { MatchPhase::NotStarted })
    } else if timestamp >= 121 {
        Some(MatchPhase::Autonomous)
    } else if timestamp >= 9 {
        Some(MatchPhase::Teleop)
    } else if timestamp >= 1 {
        Some(if sprite_matched { MatchPhase::Transition } else { MatchPhase::Teleop })
    } else {
        Some(MatchPhase::Ended)
    }
}

/// Reads the match clock text `MM:SS` as a number of seconds.
pub fn match_time_to_seconds(time: &str) -> (r: Option<u64>)
    ensures
        r == clock_seconds(time@),
{
    let cs = chars_of(time);
    let cleaned = remove_char(&cs, '\n');
    let parts = split_at_char(&cleaned, ':');
    let ghost pv = parts@.map_values(|w: Vec<char>| w@);
    assert(pv.len() == parts@.len());
    if parts.len() >= 2 {
        assert(pv[0] == parts@[0]@);
        assert(pv[1] == parts@[1]@);
        match (parse_u64(&parts[0]), parse_u64(&parts[1])) {
            (Some(m), Some(sec)) => {
                if m <= (u64::MAX - sec) / 60 {
                    assert(m * 60 + sec <= u64::MAX) by (nonlinear_arith)
                        requires
                            m <= (u64::MAX - sec) / 60,
                    ;
                    Some(m * 60 + sec)
                } else {
                    assert(m * 60 + sec > u64::MAX) by (nonlinear_arith)
                        requires
                            m > (u64::MAX - sec) / 60,
                    ;
                    None
                }
            },
            _ => None,
        }
    } else {
        None
    }
}

/// Reads OCR text of an alliance box: one team number per line, 0 where a
/// line is not a number.
pub fn parse_team_lines(text: &str) -> (r: Vec<u64>)
    ensures
        r@ == team_numbers(text@),
{
    let cs = chars_of(text);
    let lines = split_at_char(&cs, '\n');
    let ghost lv = lines@.map_values(|w: Vec<char>| w@);
    let mut r: Vec<u64> = Vec::new();
    let mut i: usize = 0;
    while i < lines.len()
        invariant
            i <= lines@.len(),
            lv == split_on(text@, '\n'),
            lv == lines@.map_values(|w: Vec<char>| w@),
            lv.len() == lines@.len(),
            r@ =~= lv.subrange(0, i as int).map_values(|l: Seq<char>| number_or_zero(l)),
        decreases lines@.len() - i,
    {
        assert(lv[i as int] == lines@[i as int]@);
        let v = match parse_u64(&lines[i]) {
            Some(v) => v,
            None => 0,
        };
        r.push(v);
        i = i + 1;
        assert(r@ =~= lv.subrange(0, i as int).map_values(|l: Seq<char>| number_or_zero(l)));
    }
    assert(lv.subrange(0, i as int) == lv);
    r
}

/// Whether a match name belongs to the broadcaster's demonstration screen.
pub fn is_example_screen(name: &str) -> (r: bool)
    ensures
        r == contains(name@, example_word()),
{
    proof {
        reveal_strlit("Example");
    }
    let pat = chars_of("Example");
    assert(pat@ =~= example_word());
    let cs = chars_of(name);
    contains_seq(&cs, &pat)
}

/// Whether the left score box is blue, given how many of its pixels fall in
/// the blue hue range.
pub fn is_blue_dominant(blue_pixels: u64, total_pixels: u64) -> (r: bool)
    ensures
        r == blue_dominant(blue_pixels, total_pixels),
{
    total_pixels > 0 && 10 * (blue_pixels as u128) >= 7 * (total_pixels as u128)
}

/// Team lists and side from the OCR text of the left and right alliance
/// boxes and the blue pixel count of the left score box.
pub fn display_info_from_readings(
    left_text: &str,
    right_text: &str,
    blue_pixels: u64,
    total_pixels: u64,
) -> (r: MatchDisplayInfo)
    ensures
        r.display_flipped == blue_dominant(blue_pixels, total_pixels),
        r.red_alliance@ == if r.display_flipped {
            team_numbers(right_text@)
        } else {
            team_numbers(left_text@)
        },
        r.blue_alliance@ == if r.display_flipped {
            team_numbers(left_text@)
        } else {
            team_numbers(right_text@)
        },
{
    let left_teams = parse_team_lines(left_text);
    let right_teams = parse_team_lines(right_text);
    if is_blue_dominant(blue_pixels, total_pixels) {
        MatchDisplayInfo { red_alliance: right_teams, blue_alliance: left_teams, display_flipped: true }
    } else {
        MatchDisplayInfo { red_alliance: left_teams, blue_alliance: right_teams, display_flipped: false }
    }
}

/// The detection that a frame's readings make, or `None` for a
/// demonstration screen, an unreadable clock or a clock beyond 2:30.
/// `sprite_matched` says whether the icon of `phase_sprite` for the clock
/// value was seen.
pub fn detection_from_readings(
    name: &str,
    clock_text: &str,
    sprite_matched: bool,
    left_text: &str,
    right_text: &str,
    blue_pixels: u64,
    total_pixels: u64,
) -> (r: Option<MatchDetection>)
    ensures
        r is Some <==> !contains(name@, example_word()) && clock_seconds(clock_text@) is Some
            && phase_spec(clock_seconds(clock_text@)->0, sprite_matched) is Some,
        r is Some ==> {
            let d = r->0;
            let secs = clock_seconds(clock_text@)->0;
            &&& d.name@ == name@
            &&& d.time == secs
            &&& d.phase == phase_spec(secs, sprite_matched)->0
            &&& d.display_info.display_flipped == blue_dominant(blue_pixels, total_pixels)
            &&& d.display_info.red_alliance@ == if d.display_info.display_flipped {
                team_numbers(right_text@)
            } else {
                team_numbers(left_text@)
            }
            &&& d.display_info.blue_alliance@ == if d.display_info.display_flipped {
                team_numbers(left_text@)
            } else {
                team_numbers(right_text@)
            }
        },
{
    if is_example_screen(name) {
        return None;
    }
    let seconds = match match_time_to_seconds(clock_text) {
        Some(s) => s,
        None => return None,
    };
    let phase = match detect_match_phase(seconds, sprite_matched) {
        Some(p) => p,
        None => return None,
    };
    let display_info = display_info_from_readings(left_text, right_text, blue_pixels, total_pixels);
    Some(MatchDetection { name: String::from_str(name), time: seconds as i64, phase, display_info })
}

} // verus!
