use pka_index::sitemap::{SiteMap, Url};
use pka_index::{EpisodeNumber, PkaEpisode};
use pka_index::{
    default_bind_address, default_redis_url, episode_name, episodes_missing, find_episode_upload,
    latest_episode_number, plan_episode_ingest, title_mentions_episode, IngestError, TimelineError,
};

#[test]
fn latest_number_from_title() {
    assert_eq!(latest_episode_number("PKA 488 - Guest"), Some(488));
    assert_eq!(latest_episode_number("Watch pka 1234 now"), Some(1234));
    assert_eq!(latest_episode_number("PKA 12 and PKA 345"), Some(345));
    assert_eq!(latest_episode_number("PKA 12"), None);
    assert_eq!(latest_episode_number("PKA488"), None);
    assert_eq!(latest_episode_number(""), None);
    assert_eq!(latest_episode_number("PKA 99999999999999999999999"), None);
}

#[test]
fn missing_episode_count() {
    assert_eq!(episodes_missing(488, 490), 2);
    assert_eq!(episodes_missing(490, 488), 0);
    assert_eq!(episodes_missing(490, 490), 0);
}

#[test]
fn finds_upload_by_title() {
    assert_eq!(episode_name(489), "PKA 489");
    assert!(title_mentions_episode("pka 489 - w/ Guest", 489));
    assert!(!title_mentions_episode("PKA 488", 489));
    let titles = vec!["PKA 490".to_string(), "Pka 489 Guest".to_string(), "PKA 489 again".to_string()];
    assert_eq!(find_episode_upload(&titles, 489), Some(1));
    assert_eq!(find_episode_upload(&titles, 491), None);
}

#[test]
fn ingest_plan_builds_all_records() {
    let plan = plan_episode_ingest(489, "vid123", 1_667_048_085, "PKA 489 - Guest", "0:00 Start\n1:00 End", 120)
        .unwrap();
    assert_eq!(plan.episode.name, "PKA 489");
    assert_eq!(plan.episode.number.bits, 489.0f32.to_bits());
    assert_eq!(plan.episode.youtube_link, "vid123");
    assert_eq!(plan.episode.upload_date, 1_667_048_085);
    assert_eq!(plan.youtube_details.video_id, "vid123");
    assert_eq!(plan.youtube_details.title, "PKA 489 - Guest");
    assert_eq!(plan.youtube_details.length_seconds, 120);
    assert_eq!(plan.events.len(), 2);
    assert_eq!(plan.events[1].length_seconds, 60);
    assert_eq!(plan.events[1].event_id, "489-60");
}

#[test]
fn ingest_plan_errors() {
    assert_eq!(
        plan_episode_ingest(489, "v", 0, "t", "no events", 10).err(),
        Some(IngestError::Timeline(TimelineError::NoEvents))
    );
    assert_eq!(plan_episode_ingest(1 << 24, "v", 0, "t", "0:00 a", 10).err(), Some(IngestError::NumberTooLarge));
}

#[test]
fn sitemap_entries() {
    let sitemap = SiteMap::from_urls(vec![
        Url::new(
            "https://example.com/".to_string(),
            Some("2005-01-01".to_owned()),
            Some("monthly".to_owned()),
            Some("0.8".to_owned()),
        ),
        Url::new("https://example2.com/".to_string(), None, Some("weekly".to_owned()), None),
    ]);
    let first = &sitemap.urls()[0];
    assert_eq!(first.loc(), "https://example.com/");
    assert_eq!(first.last_mod(), Some("2005-01-01"));
    assert_eq!(first.change_freq(), Some("monthly"));
    assert_eq!(first.priority(), Some("0.8"));
    let second = &sitemap.urls()[1];
    assert_eq!(second.last_mod(), None);
    assert_eq!(second.priority(), None);
    assert_eq!(sitemap.url_set.xmlns, "http://www.sitemaps.org/schemas/sitemap/0.9");
}

#[test]
fn config_defaults() {
    assert_eq!(default_redis_url(), "redis://redis:6379");
    assert_eq!(default_bind_address(), "0.0.0.0:1234");
}

#[test]
fn site_map_lists_pages_then_episodes_in_order() {
    let ep = |x: f32| PkaEpisode::new(EpisodeNumber::from_bits(x.to_bits()), format!("PKA {}", x), "v".to_string(), 0);
    let episodes = vec![ep(489.0), ep(488.5), ep(1.0)];
    let labels: Vec<String> = vec!["489".to_string(), "488.5".to_string(), "1".to_string()];
    let map = pka_index::sitemap::site_map(&episodes, &labels);
    let urls = map.urls();
    assert_eq!(urls.len(), 9);
    assert_eq!(urls[0].loc(), "https://www.pkaindex.com/");
    assert_eq!(urls[0].priority(), Some("1.0"));
    assert_eq!(urls[5].loc(), "https://www.pkaindex.com/watch/random");
    assert_eq!(urls[5].priority(), Some("0.8"));
    assert_eq!(urls[5].change_freq(), Some("weekly"));
    assert_eq!(urls[5].last_mod(), None);
    let tail: Vec<&str> = urls[6..].iter().map(|u| u.loc()).collect();
    assert_eq!(
        tail,
        vec![
            "https://www.pkaindex.com/watch/1",
            "https://www.pkaindex.com/watch/488.5",
            "https://www.pkaindex.com/watch/489"
        ]
    );
    assert_eq!(urls[8].priority(), Some("0.7"));
}
