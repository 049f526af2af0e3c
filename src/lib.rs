//! Search and live-index core of an episode/event index: the multi-term
//! matcher, snapshot search, wire framing, cache-aside decisions, the
//! description parser and the feed-ingestion decisions.

pub mod episode_number;
pub mod text;
pub mod matcher;
pub mod models;
pub mod search;
pub mod timeline;
pub mod wire;
pub mod index;
pub mod cache;
pub mod ingest;
pub mod sitemap;
pub mod feed;
pub mod config;
pub mod random;

pub use cache::{cache_key, search_events, EventSearchOutcome};
pub use config::{default_bind_address, default_redis_url, Config, ErrorResponseBody, YoutubeLinkResponse};
pub use episode_number::EpisodeNumber;
pub use feed::{ContentDetails, Entry, PkaInfoRoot, PkaInfoTimeline, PkaInfoTimestamp, YoutubeRssFeed};
pub use index::Snapshot;
pub use ingest::{
    episode_name, episodes_missing, find_episode_upload, latest_episode_number, plan_episode_ingest,
    title_mentions_episode, EpisodeIngest, IngestError,
};
pub use matcher::{Matcher, MatcherError};
pub use models::{
    PkaEpisode, PkaEpisodeSearchResult, PkaEpisodeWithAll, PkaEvent, PkaEventSearchResult, PkaGuest,
    PkaYoutubeDetails,
};
pub use search::{rank_episodes, rank_events, search_episode, search_event_results, Searchable};
pub use sitemap::{SiteMap, Url, Urlset, XmlVal};
pub use timeline::{event_id, extract_pka_episode_events, normalize_timestamp, TimelineError};
pub use wire::{decode_event_results, encode_event_results, read_event};
pub use random::{pick_random_event, random_event_candidates};
