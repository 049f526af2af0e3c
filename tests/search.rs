use pka_index::{
    cache_key, encode_event_results, rank_events, search_episode, search_event_results, search_events,
    EpisodeNumber, Matcher, PkaEpisodeSearchResult, PkaEvent, PkaEventSearchResult, Snapshot,
};
use std::collections::HashMap;

fn num(x: f32) -> EpisodeNumber {
    EpisodeNumber::from_bits(x.to_bits())
}

fn event(ep: f32, ts: i32, desc: &str) -> PkaEvent {
    PkaEvent::new(format!("{}-{}", ep, ts), num(ep), ts, desc.to_string(), 10, 1_000)
}

fn episode(ep: f32, title: &str) -> PkaEpisodeSearchResult {
    PkaEpisodeSearchResult {
        episode_number: num(ep),
        upload_date: 0,
        title: title.to_string(),
        length_seconds: 100,
    }
}

fn snapshot(events: Vec<PkaEvent>) -> Snapshot {
    Snapshot::empty().refresh(Some(events)).unwrap()
}

#[test]
fn matcher_requires_every_term_case_insensitively() {
    assert_eq!(pka_index::matcher::matches("foo bar", "Bar and FOO"), Ok(true));
    assert_eq!(pka_index::matcher::matches("foo baz", "Bar and FOO"), Ok(false));
    assert_eq!(pka_index::matcher::matches("  ZAK  ", "zak joins the show"), Ok(true));
}

#[test]
fn matcher_blank_query_matches_everything() {
    assert_eq!(pka_index::matcher::matches("", "anything"), Ok(true));
    assert_eq!(pka_index::matcher::matches(" \t\n ", ""), Ok(true));
}

#[test]
fn matcher_overlapping_and_repeated_terms() {
    assert_eq!(pka_index::matcher::matches("ab b", "ab"), Ok(true));
    assert_eq!(pka_index::matcher::matches("a a", "a"), Ok(true));
    assert_eq!(pka_index::matcher::matches("abc bcd", "abcd"), Ok(true));
    assert_eq!(pka_index::matcher::matches("abc bcd", "abc"), Ok(false));
}

#[test]
fn matcher_reused_across_fields() {
    let m = Matcher::new("wood taylor").unwrap();
    assert!(m.is_match("Woody and Taylor"));
    assert!(!m.is_match("Woody alone"));
    assert!(m.is_match("TAYLOR, then wood"));
}

#[test]
fn matcher_folds_ascii_only() {
    assert_eq!(pka_index::matcher::matches("É", "é"), Ok(false));
    assert_eq!(pka_index::matcher::matches("é", "café"), Ok(true));
}

#[test]
fn events_sorted_by_episode_then_timestamp() {
    let events = vec![
        event(489.0, 10, "zak b"),
        event(488.0, 50, "zak a2"),
        event(488.5, 5, "other"),
        event(488.0, 20, "Zak a1"),
    ];
    let r = search_event_results("zak", &events).unwrap();
    let got: Vec<(u32, i32)> = r.iter().map(|e| (e.episode_number.bits, e.timestamp)).collect();
    assert_eq!(
        got,
        vec![(488.0f32.to_bits(), 20), (488.0f32.to_bits(), 50), (489.0f32.to_bits(), 10)]
    );
    assert_eq!(rank_events("zak", &events).unwrap(), vec![3, 1, 0]);
}

#[test]
fn equal_keys_keep_snapshot_order() {
    let events = vec![event(1.0, 5, "x first"), event(1.0, 5, "x second")];
    assert_eq!(rank_events("x", &events).unwrap(), vec![0, 1]);
}

#[test]
fn episodes_blank_query_descending_with_fractional() {
    let eps = vec![episode(488.0, "PKA 488"), episode(489.0, "PKA 489"), episode(488.5, "PKA 488.5 bonus")];
    let r = search_episode("", &eps).unwrap();
    let got: Vec<f32> = r.iter().map(|e| f32::from_bits(e.episode_number.bits)).collect();
    assert_eq!(got, vec![489.0, 488.5, 488.0]);
}

#[test]
fn episodes_filtered_by_title() {
    let eps = vec![episode(1.0, "Guest Show"), episode(3.0, "guest again"), episode(2.0, "solo")];
    let r = search_episode("GUEST", &eps).unwrap();
    let got: Vec<f32> = r.iter().map(|e| f32::from_bits(e.episode_number.bits)).collect();
    assert_eq!(got, vec![3.0, 1.0]);
}

#[test]
fn wire_encoding_exact_bytes() {
    let r = vec![PkaEventSearchResult {
        episode_number: num(1.0),
        timestamp: 2,
        description: "ab".to_string(),
        length_seconds: 3,
        upload_date: 4,
    }];
    let bytes = encode_event_results(&r);
    let mut expected = vec![1u8, 0, 0, 0, 0, 0, 0, 0];
    expected.extend_from_slice(&[0, 0, 0x80, 0x3f]);
    expected.extend_from_slice(&[2, 0, 0, 0]);
    expected.extend_from_slice(&[2, 0, 0, 0, 0, 0, 0, 0]);
    expected.extend_from_slice(b"ab");
    expected.extend_from_slice(&[3, 0, 0, 0]);
    expected.extend_from_slice(&[4, 0, 0, 0, 0, 0, 0, 0]);
    assert_eq!(bytes, expected);
    assert_eq!(encode_event_results(&vec![]), vec![0u8; 8]);
}

#[test]
fn wire_encoding_negative_values() {
    let r = vec![PkaEventSearchResult {
        episode_number: num(-1.5),
        timestamp: -1,
        description: "é".to_string(),
        length_seconds: 1,
        upload_date: -2,
    }];
    let bytes = encode_event_results(&r);
    assert_eq!(&bytes[8..12], &(-1.5f32).to_bits().to_le_bytes());
    assert_eq!(&bytes[12..16], &[0xff, 0xff, 0xff, 0xff]);
    assert_eq!(&bytes[16..24], &[2, 0, 0, 0, 0, 0, 0, 0]);
    assert_eq!(&bytes[24..26], "é".as_bytes());
    assert_eq!(&bytes[30..38], &(-2i64).to_le_bytes());
}

#[test]
fn cache_key_uses_trimmed_query() {
    assert_eq!(cache_key("  zak joins "), "EVENTS:zak joins");
    assert_eq!(cache_key(""), "EVENTS:");
}

#[test]
fn search_events_is_deterministic() {
    let snap = snapshot(vec![event(2.0, 1, "zak"), event(1.0, 9, "Zak")]);
    let a = search_events(None, "zak", &snap).unwrap();
    let b = search_events(None, "zak", &snap).unwrap();
    assert_eq!(a.bytes, b.bytes);
    assert!(a.computed && a.store);
}

#[test]
fn cache_hit_equals_fresh_computation() {
    let snap = snapshot(vec![event(2.0, 1, "zak"), event(1.0, 9, "other")]);
    let fresh = search_events(None, "zak", &snap).unwrap();
    let hit = search_events(Some(fresh.bytes.clone()), "zak", &snap).unwrap();
    assert!(!hit.computed && !hit.store);
    assert_eq!(hit.bytes, fresh.bytes);
    let results = search_event_results("zak", snap.events()).unwrap();
    assert_eq!(fresh.bytes, encode_event_results(&results));
}

#[test]
fn empty_cached_payload_is_a_miss() {
    let snap = snapshot(vec![event(2.0, 1, "zak")]);
    let r = search_events(Some(Vec::new()), "zak", &snap).unwrap();
    assert!(r.computed);
    assert!(r.store);
}

struct CountingCache {
    entries: HashMap<String, Vec<u8>>,
    computations: usize,
    stores: usize,
}

impl CountingCache {
    fn query(&mut self, q: &str, snap: &Snapshot) -> Vec<u8> {
        let key = cache_key(q);
        let cached = self.entries.get(&key).cloned();
        let out = search_events(cached, q, snap).unwrap();
        if out.computed {
            self.computations += 1;
        }
        if out.store {
            self.stores += 1;
            self.entries.insert(key, out.bytes.clone());
        }
        out.bytes
    }
}

#[test]
fn empty_results_are_never_cached() {
    let snap = snapshot(vec![event(2.0, 1, "zak")]);
    let mut cache = CountingCache { entries: HashMap::new(), computations: 0, stores: 0 };
    let a = cache.query("nobody", &snap);
    let b = cache.query("nobody", &snap);
    assert_eq!(a, b);
    assert_eq!(cache.computations, 2);
    assert_eq!(cache.stores, 0);
    assert!(cache.entries.is_empty());
}

#[test]
fn non_empty_results_are_cached_once() {
    let snap = snapshot(vec![event(2.0, 1, "zak")]);
    let mut cache = CountingCache { entries: HashMap::new(), computations: 0, stores: 0 };
    let a = cache.query("zak", &snap);
    let b = cache.query(" zak ", &snap);
    assert_eq!(a, b);
    assert_eq!(cache.computations, 1);
    assert_eq!(cache.stores, 1);
}

#[test]
fn snapshot_refresh_keeps_previous_on_failure() {
    let snap = snapshot(vec![event(1.0, 1, "a")]);
    assert_eq!(snap.version(), 1);
    assert!(snap.refresh(None).is_none());
    let next = snap.refresh(Some(vec![event(2.0, 2, "b"), event(3.0, 3, "c")])).unwrap();
    assert_eq!(next.version(), 2);
    assert_eq!(next.events().len(), 2);
    assert_eq!(snap.events().len(), 1);
}

#[test]
fn random_pick_skips_intros_outros_and_ad_reads() {
    let events = vec![
        event(1.0, 0, "Intro"),
        event(1.0, 10, "Zak joins"),
        event(1.0, 20, "AD READ for socks"),
        event(1.0, 30, "The OUTRO"),
        event(2.0, 5, "Story time"),
    ];
    assert_eq!(pka_index::random_event_candidates(&events), vec![1, 4]);
    let a = pka_index::pick_random_event(&events, 0).unwrap();
    assert_eq!(a.description, "Zak joins");
    let b = pka_index::pick_random_event(&events, 3).unwrap();
    assert_eq!(b.description, "Story time");
    assert_eq!(b.episode_number.bits, 2.0f32.to_bits());
    let none = vec![event(1.0, 0, "intro"), event(1.0, 1, "outro")];
    assert!(pka_index::pick_random_event(&none, 7).is_none());
}

#[test]
fn episode_search_repeated_overlapping_and_spaced_terms() {
    let eps = vec![episode(1.0, "Zak joins")];
    assert_eq!(search_episode("zak zak", &eps).unwrap().len(), 1);
    let eps = vec![episode(1.0, "ab")];
    assert_eq!(search_episode("ab b", &eps).unwrap().len(), 1);
    let eps = vec![episode(488.0, "zak joins the first show."), episode(489.0, "Zak leaves")];
    let r = search_episode("  ZAK   Joins ", &eps).unwrap();
    assert_eq!(r.len(), 1);
    assert_eq!(r[0].title, "zak joins the first show.");
    let odd = search_episode("(.*) [é] \u{1}", &eps).unwrap();
    assert!(odd.is_empty());
}
