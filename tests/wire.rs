use pka_index::{decode_event_results, encode_event_results, read_event, EpisodeNumber, PkaEvent, PkaEventSearchResult};

#[test]
fn read_events() {
    let first_event = PkaEvent::new(
        "488-1234".to_string(),
        EpisodeNumber::from_bits(488.0f32.to_bits()),
        1234,
        "Zak joins the first show.".to_string(),
        10,
        1372377600,
    );

    let second_event = PkaEvent::new(
        "489-5678".to_string(),
        EpisodeNumber::from_bits(489.0f32.to_bits()),
        5678,
        "Zak joins the second show.".to_string(),
        300,
        1572377600,
    );

    let all_events = vec![
        PkaEventSearchResult::from_event(&first_event),
        PkaEventSearchResult::from_event(&second_event),
    ];

    let fb = encode_event_results(&all_events);

    let (n0, ts0, d0, len0, up0) = read_event(&fb, 0).unwrap();
    assert_eq!(
        (f32::from_bits(n0.bits), ts0, d0.as_str(), len0, up0),
        (488.0, 1234, "Zak joins the first show.", 10, 1372377600)
    );
    let (n1, ts1, d1, len1, up1) = read_event(&fb, 1).unwrap();
    assert_eq!(
        (f32::from_bits(n1.bits), ts1, d1.as_str(), len1, up1),
        (489.0, 5678, "Zak joins the second show.", 300, 1572377600)
    );
    assert!(read_event(&fb, 2).is_none());
}

#[test]
fn decode_round_trip() {
    let results = vec![
        PkaEventSearchResult {
            episode_number: EpisodeNumber::from_bits((-0.5f32).to_bits()),
            timestamp: -7,
            description: "naïve — “quoted”".to_string(),
            length_seconds: i32::MAX,
            upload_date: i64::MIN,
        },
        PkaEventSearchResult {
            episode_number: EpisodeNumber::from_bits(488.5f32.to_bits()),
            timestamp: 0,
            description: String::new(),
            length_seconds: 1,
            upload_date: 0,
        },
    ];
    let bytes = encode_event_results(&results);
    let decoded = decode_event_results(&bytes).unwrap();
    assert_eq!(decoded, results);
    assert_eq!(decode_event_results(&encode_event_results(&vec![])), Some(vec![]));
}

#[test]
fn decode_rejects_malformed_bytes() {
    let results = vec![PkaEventSearchResult {
        episode_number: EpisodeNumber::from_bits(1.0f32.to_bits()),
        timestamp: 1,
        description: "ab".to_string(),
        length_seconds: 1,
        upload_date: 1,
    }];
    let bytes = encode_event_results(&results);
    assert!(decode_event_results(&bytes[..bytes.len() - 1].to_vec()).is_none());
    let mut trailing = bytes.clone();
    trailing.push(0);
    assert!(decode_event_results(&trailing).is_none());
    let mut bad_utf8 = bytes.clone();
    bad_utf8[24] = 0xff;
    assert!(decode_event_results(&bad_utf8).is_none());
    assert!(decode_event_results(&vec![1, 2, 3]).is_none());
}
