//! Episodes, events, video details and their search projections.

use vstd::prelude::*;

use crate::episode_number::EpisodeNumber;

verus! {

/// An episode of the show.
#[derive(Clone, Debug, PartialEq)]
pub struct PkaEpisode {
    pub number: EpisodeNumber,
    pub name: String,
    pub youtube_link: String,
    pub upload_date: i64,
}

impl PkaEpisode {
    pub fn new(number: EpisodeNumber, name: String, youtube_link: String, upload_date: i64) -> (r:
        PkaEpisode)
        ensures
            r.number == number,
            r.name == name,
            r.youtube_link == youtube_link,
            r.upload_date == upload_date,
    {
        PkaEpisode { number, name, youtube_link, upload_date }
    }

    pub fn number(&self) -> (r: EpisodeNumber)
        ensures
            r == self.number,
    {
        self.number
    }
}

/// A timestamped event (chapter marker) inside an episode.
#[derive(Clone, Debug, PartialEq)]
pub struct PkaEvent {
    pub event_id: String,
    pub episode_number: EpisodeNumber,
    pub timestamp: i32,
    pub description: String,
    pub length_seconds: i32,
    pub upload_date: i64,
}

impl PkaEvent {
    pub fn new(
        event_id: String,
        episode_number: EpisodeNumber,
        timestamp: i32,
        description: String,
        length_seconds: i32,
        upload_date: i64,
    ) -> (r: PkaEvent)
        ensures
            r.event_id == event_id,
            r.episode_number == episode_number,
            r.timestamp == timestamp,
            r.description == description,
            r.length_seconds == length_seconds,
            r.upload_date == upload_date,
    {
        PkaEvent { event_id, episode_number, timestamp, description, length_seconds, upload_date }
    }

    pub fn episode_number(&self) -> (r: EpisodeNumber)
        ensures
            r == self.episode_number,
    {
        self.episode_number
    }

    pub fn event_id(&self) -> (r: String)
        ensures
            r == self.event_id,
    {
        self.event_id.clone()
    }

    pub fn timestamp(&self) -> (r: i32)
        ensures
            r == self.timestamp,
    {
        self.timestamp
    }

    pub fn description(&self) -> (r: &str)
        ensures
            r@ == self.description@,
    {
        self.description.as_str()
    }

    pub fn length_seconds(&self) -> (r: i32)
        ensures
            r == self.length_seconds,
    {
        self.length_seconds
    }

    pub fn upload_date(&self) -> (r: i64)
        ensures
            r == self.upload_date,
    {
        self.upload_date
    }
}

/// A guest appearing in an episode.
#[derive(Clone, Debug, PartialEq)]
pub struct PkaGuest {
    pub name: String,
    pub episode_number: EpisodeNumber,
}

/// Video metadata of an episode.
#[derive(Clone, Debug, PartialEq)]
pub struct PkaYoutubeDetails {
    pub video_id: String,
    pub episode_number: EpisodeNumber,
    pub title: String,
    pub length_seconds: i32,
}

impl PkaYoutubeDetails {
    pub fn new(video_id: String, episode_number: EpisodeNumber, title: String, length_seconds: i32) -> (r:
        PkaYoutubeDetails)
        ensures
            r.video_id == video_id,
            r.episode_number == episode_number,
            r.title == title,
            r.length_seconds == length_seconds,
    {
        PkaYoutubeDetails { video_id, episode_number, title, length_seconds }
    }
}

/// An episode together with its video details and its events.
#[derive(Clone, Debug, PartialEq)]
pub struct PkaEpisodeWithAll {
    pub episode: PkaEpisode,
    pub youtube_details: PkaYoutubeDetails,
    pub events: Vec<PkaEvent>,
}

impl PkaEpisodeWithAll {
    pub fn new(episode: PkaEpisode, youtube_details: PkaYoutubeDetails, events: Vec<PkaEvent>) -> (r:
        PkaEpisodeWithAll)
        ensures
            r.episode == episode,
            r.youtube_details == youtube_details,
            r.events == events,
    {
        PkaEpisodeWithAll { episode, youtube_details, events }
    }
}

/// The projection of an event that event search returns.
#[derive(Clone, Debug, PartialEq)]
pub struct PkaEventSearchResult {
    pub episode_number: EpisodeNumber,
    pub timestamp: i32,
    pub description: String,
    pub length_seconds: i32,
    pub upload_date: i64,
}

/// `r` is the search projection of `e`.
pub open spec fn projects_event(r: PkaEventSearchResult, e: PkaEvent) -> bool {
    &&& r.episode_number == e.episode_number
    &&& r.timestamp == e.timestamp
    &&& r.description@ == e.description@
    &&& r.length_seconds == e.length_seconds
    &&& r.upload_date == e.upload_date
}

impl PkaEventSearchResult {
    pub fn from_event(e: &PkaEvent) -> (r: PkaEventSearchResult)
        ensures
            projects_event(r, *e),
    {
        PkaEventSearchResult {
            episode_number: e.episode_number,
            timestamp: e.timestamp,
            description: e.description.clone(),
            length_seconds: e.length_seconds,
            upload_date: e.upload_date,
        }
    }
}

/// The projection of an episode, joined with its video details, that episode
/// search returns.
#[derive(Clone, Debug, PartialEq)]
pub struct PkaEpisodeSearchResult {
    pub episode_number: EpisodeNumber,
    pub upload_date: i64,
    pub title: String,
    pub length_seconds: i32,
}

} // verus!
