use pka_index::timeline::clean_description;
use pka_index::{event_id, extract_pka_episode_events, normalize_timestamp, EpisodeNumber, TimelineError};

fn clean(s: &str) -> String {
    clean_description(s)
}

#[test]
fn description_round_trip() {
    let events =
        extract_pka_episode_events(488, "0:00 Intro\n5:30 Topic A\n10:00 Topic B", 700, 1_600_000_000)
            .unwrap();
    let got: Vec<(i32, i32, &str)> =
        events.iter().map(|e| (e.timestamp, e.length_seconds, e.description.as_str())).collect();
    assert_eq!(got, vec![(0, 330, "Intro"), (330, 270, "Topic A"), (600, 100, "Topic B")]);
    assert_eq!(events[1].event_id, "488-330");
    assert_eq!(events[0].episode_number.bits, 488.0f32.to_bits());
    assert!(events.iter().all(|e| e.upload_date == 1_600_000_000));
}

#[test]
fn timestamp_normalization_edge_cases() {
    assert_eq!(normalize_timestamp("1:23"), Ok(83));
    assert_eq!(normalize_timestamp("1;02;03"), Ok(3723));
    assert_eq!(normalize_timestamp("10:00"), Ok(600));
    assert_eq!(normalize_timestamp("1:02:"), Ok(62));
    assert_eq!(normalize_timestamp("1:02:03:04"), Err(TimelineError::UnknownTimestamp));
    assert_eq!(normalize_timestamp("12"), Err(TimelineError::UnknownTimestamp));
    assert_eq!(normalize_timestamp("1:75"), Err(TimelineError::UnknownTimestamp));
    assert_eq!(normalize_timestamp("24:00:00"), Err(TimelineError::UnknownTimestamp));
    assert_eq!(normalize_timestamp("123:45"), Err(TimelineError::UnknownTimestamp));
}

#[test]
fn bad_fragment_skips_only_its_line() {
    let events = extract_pka_episode_events(5, "1:02:03:04 Broken\n0:10 - Fine", 100, 0).unwrap();
    assert_eq!(events.len(), 1);
    assert_eq!(events[0].timestamp, 10);
    assert_eq!(events[0].description, "Fine");
    assert_eq!(events[0].length_seconds, 90);
    assert_eq!(events[0].event_id, "005-10");
    assert_eq!(
        extract_pka_episode_events(5, "1:02:03:04 Broken", 100, 0),
        Err(TimelineError::NoEvents)
    );
    assert_eq!(extract_pka_episode_events(5, "no timestamps here", 100, 0), Err(TimelineError::NoEvents));
    assert_eq!(extract_pka_episode_events(5, "", 100, 0), Err(TimelineError::NoEvents));
}

#[test]
fn duration_floor() {
    let events = extract_pka_episode_events(7, "0:30 A\n0:30 B\n0:10 C", 20, 0).unwrap();
    let got: Vec<(i32, i32, &str)> =
        events.iter().map(|e| (e.timestamp, e.length_seconds, e.description.as_str())).collect();
    assert_eq!(got, vec![(10, 20, "C"), (30, 1, "A"), (30, 1, "B")]);
}

#[test]
fn separators_and_padding_variants() {
    let events =
        extract_pka_episode_events(9, "  1;00;00 -- Late topic\r\n00:05    Early\n1:2 x", 4000, 0).unwrap();
    let got: Vec<(i32, i32, &str)> =
        events.iter().map(|e| (e.timestamp, e.length_seconds, e.description.as_str())).collect();
    assert_eq!(got, vec![(5, 57, "Early"), (62, 3538, "x"), (3600, 400, "Late topic")]);
}

#[test]
fn description_cleaning() {
    assert_eq!(clean("  It’s fine  "), "It's fine");
    assert_eq!(clean("Itâ€™s"), "It's");
    assert_eq!(clean("wait for itâ€¦"), "wait for it…");
    assert_eq!(clean("aâ€“b"), "a–b");
    assert_eq!(clean("â€œquotedâ€"), "“quoted”");
}

#[test]
fn episode_number_from_integer() {
    for n in [0u32, 1, 5, 488, 489, 1000, 8_388_607, 8_388_608, 16_777_215] {
        assert_eq!(EpisodeNumber::from_integer(n).bits, (n as f32).to_bits());
    }
}

#[test]
fn episode_number_order_key() {
    let k = |x: f32| EpisodeNumber::from_bits(x.to_bits()).order_key();
    assert!(k(488.0) < k(488.5));
    assert!(k(488.5) < k(489.0));
    assert!(k(-1.0) < k(0.0));
    assert!(k(-2.0) < k(-1.0));
}

#[test]
fn event_ids() {
    assert_eq!(event_id(5, 30), "005-30");
    assert_eq!(event_id(488, 0), "488-0");
    assert_eq!(event_id(1234, 3723), "1234-3723");
}

#[test]
fn bad_line_among_good_lines() {
    let events = extract_pka_episode_events(3, "0:00 Intro\n1:02:03:04 Bad\n5:00 Topic", 600, 0).unwrap();
    let got: Vec<(i32, i32, &str)> =
        events.iter().map(|e| (e.timestamp, e.length_seconds, e.description.as_str())).collect();
    assert_eq!(got, vec![(0, 300, "Intro"), (300, 300, "Topic")]);
}

#[test]
fn equal_timestamps_last_one_second() {
    let events = extract_pka_episode_events(3, "1:00 A\n1:00 B", 100, 0).unwrap();
    let got: Vec<(i32, i32)> = events.iter().map(|e| (e.timestamp, e.length_seconds)).collect();
    assert_eq!(got, vec![(60, 1), (60, 40)]);
}
