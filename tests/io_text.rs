use clipcrab::clip::{clip_segments, seconds_string};
use clipcrab::qr::{detect_qr, FTCEventsQR, MatchType, QrUrlError};
use clipcrab::roi::RoiPad;
use clipcrab::text::{chars_of, parse_i64, parse_u64, split_words};
use clipcrab::timestamp::parse_time;

#[test]
fn wall_clock_offsets() {
    assert_eq!(parse_time("90"), Some(90_000_000));
    assert_eq!(parse_time("01:30"), Some(90_000_000));
    assert_eq!(parse_time(" 1:02:03 "), Some(3_723_000_000));
    assert_eq!(parse_time("1:02:03:04"), Some(3_723_000_000));
    assert_eq!(parse_time("-5"), Some(-5_000_000));
    assert_eq!(parse_time(" 5 "), Some(5_000_000));
    assert_eq!(parse_time("1:xx"), None);
    assert_eq!(parse_time("abc"), None);
    assert_eq!(parse_time("9999999999999"), None);
}

#[test]
fn integer_readers() {
    assert_eq!(parse_u64(&chars_of("+42")), Some(42));
    assert_eq!(parse_u64(&chars_of("18446744073709551615")), Some(u64::MAX));
    assert_eq!(parse_u64(&chars_of("18446744073709551616")), None);
    assert_eq!(parse_u64(&chars_of("-1")), None);
    assert_eq!(parse_u64(&chars_of("+")), None);
    assert_eq!(parse_i64(&chars_of("-9223372036854775808")), Some(i64::MIN));
    assert_eq!(parse_i64(&chars_of("9223372036854775808")), None);
    assert_eq!(
        split_words(&chars_of("  a bc\td ")),
        vec![vec!['a'], vec!['b', 'c'], vec!['d']]
    );
}

#[test]
fn seconds_text() {
    assert_eq!(seconds_string(1_500_000), "1.5");
    assert_eq!(seconds_string(3_000_000), "3");
    assert_eq!(seconds_string(0), "0");
    assert_eq!(seconds_string(-250_000), "-0.25");
    assert_eq!(seconds_string(1), "0.000001");
    assert_eq!(seconds_string(123_456_789), "123.456789");
}

#[test]
fn clip_arguments() {
    let args = clip_segments("in.mkv", "out/Qualification 7.mkv", &vec![(10_000_000, 180_000_000), (187_500_000, 25_000_000)]);
    let expected: Vec<&str> = vec![
        "-y", "-hide_banner", "-loglevel", "error",
        "-ss", "10", "-t", "180", "-i", "in.mkv",
        "-ss", "187.5", "-t", "25", "-i", "in.mkv",
        "-filter_complex", "[0][1]concat=n=2:v=1:a=1[out];[out]setpts=PTS-STARTPTS",
        "-c:a", "libopus", "-b", "96000", "-c:v", "libsvtav1", "-crf", "23",
        "out/Qualification 7.mkv",
    ];
    assert_eq!(args, expected);
}

#[test]
fn roi_inside_frame_needs_no_padding() {
    let r = RoiPad::calc(1920, 1080, 724, 788, 155, 155);
    assert_eq!((r.roi_x, r.roi_y, r.roi_width, r.roi_height), (724, 788, 155, 155));
    assert!(r.is_unpadded());
}

#[test]
fn roi_padding_past_edges() {
    let r = RoiPad::calc(100, 50, -5, 40, 20, 20);
    assert_eq!((r.roi_x, r.roi_width, r.pad_left, r.pad_right), (0, 15, 5, 0));
    assert_eq!((r.roi_y, r.roi_height, r.pad_top, r.pad_bottom), (40, 10, 0, 10));
    assert_eq!(r.pad_left + r.roi_width + r.pad_right, 20);
    assert_eq!(r.pad_top + r.roi_height + r.pad_bottom, 20);
    assert!(!r.is_unpadded());
}

#[test]
fn roi_entirely_outside_takes_edge_pixel() {
    let r = RoiPad::calc(100, 50, 150, -30, 10, 10);
    assert_eq!((r.roi_x, r.roi_width, r.pad_left, r.pad_right), (99, 1, 9, 0));
    assert_eq!((r.roi_y, r.roi_height, r.pad_top, r.pad_bottom), (0, 1, 0, 9));
}

#[test]
fn results_link_qualification() {
    let q = FTCEventsQR::new("https://ftc.events/USCALAS/qualifications/5").unwrap();
    assert_eq!(q.event_code, "USCALAS");
    assert_eq!(q.match_type, MatchType::Qualification { num: 5 });
    assert_eq!(q.match_type.key(), clipcrab::match_key::MatchKey::Qualification { num: 5 });
}

#[test]
fn results_link_playoff_keeps_raw_tiebreaker() {
    assert_eq!(
        FTCEventsQR::new("https://ftc.events/2025/USCALAS/playoffs/3/2"),
        Err(QrUrlError::UnknownPath)
    );
    let q = FTCEventsQR::new("https://ftc.events/USCALAS/playoffs/3/2/extra").unwrap();
    assert_eq!(q.match_type, MatchType::Playoff { num: 3, tiebreaker: 2 });
}

#[test]
fn results_link_rejections() {
    assert_eq!(FTCEventsQR::new("not a url"), Err(QrUrlError::InvalidUrl));
    assert_eq!(FTCEventsQR::new("https://example.com/USCALAS/qualifications/5"), Err(QrUrlError::WrongHost));
    assert_eq!(FTCEventsQR::new("https://ftc.events/USCALAS/qualifications/x"), Err(QrUrlError::InvalidNumber));
    assert_eq!(FTCEventsQR::new("https://ftc.events/USCALAS/playoffs/3"), Err(QrUrlError::UnknownPath));
    assert_eq!(FTCEventsQR::new("mailto:someone@ftc.events"), Err(QrUrlError::NoHost));
}

#[test]
fn first_payload_that_is_a_link() {
    let payloads = vec![
        None,
        Some("hello".to_string()),
        Some("https://ftc.events/E1/qualifications/9".to_string()),
        Some("https://ftc.events/E2/qualifications/1".to_string()),
    ];
    let q = detect_qr(&payloads).unwrap();
    assert_eq!(q.event_code, "E1");
    assert_eq!(q.match_type, MatchType::Qualification { num: 9 });
    assert!(detect_qr(&vec![None]).is_none());
}

#[test]
fn no_payloads_no_link() {
    assert!(detect_qr(&vec![]).is_none());
    assert!(detect_qr(&vec![None, Some("https://ftc.events/E1/rankings".to_string())]).is_none());
}
