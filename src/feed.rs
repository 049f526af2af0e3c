//! Records read from the video platform and from timeline files.

use vstd::prelude::*;

verus! {

/// One upload of a channel's feed.
#[derive(Debug, Clone, PartialEq)]
pub struct Entry {
    pub video_id: String,
    pub title: String,
    pub published: String,
}

impl Entry {
    pub fn video_id(&self) -> (r: &str)
        ensures
            r@ == self.video_id@,
    {
        self.video_id.as_str()
    }

    pub fn title(&self) -> (r: &str)
        ensures
            r@ == self.title@,
    {
        self.title.as_str()
    }

    pub fn published(&self) -> (r: &str)
        ensures
            r@ == self.published@,
    {
        self.published.as_str()
    }
}

/// A channel's upload feed.
#[derive(Debug, Clone, PartialEq)]
pub struct YoutubeRssFeed {
    pub entry: Vec<Entry>,
}

impl YoutubeRssFeed {
    pub fn entry(&self) -> (r: &Vec<Entry>)
        ensures
            *r == self.entry,
    {
        &self.entry
    }
}

/// The duration of a video, in seconds.
#[derive(Debug, Clone, Copy, PartialEq, Eq, Structural, Default)]
pub struct ContentDetails {
    pub duration: i32,
}

/// One `HMS`/`Value` pair of an episode timeline file.
#[derive(Debug, Clone, PartialEq, Default)]
pub struct PkaInfoTimestamp {
    pub hms: String,
    pub value: String,
}

/// The timestamps of an episode timeline file.
#[derive(Debug, Clone, PartialEq, Default)]
pub struct PkaInfoTimeline {
    pub timestamps: Vec<PkaInfoTimestamp>,
}

/// An episode timeline file.
#[derive(Debug, Clone, PartialEq, Default)]
pub struct PkaInfoRoot {
    pub timeline: PkaInfoTimeline,
}

} // verus!
