//! The site's sitemap entries.

use vstd::prelude::*;

use crate::models::PkaEpisode;
use crate::search::{is_ranking, lemma_ranking_unique, order_by_keys, rank_key, ranking, RankKey};
use crate::text::{chars_of, string_from_chars};

verus! {

/// A text value of the sitemap document.
#[derive(Debug, Clone, PartialEq)]
pub struct XmlVal(pub String);

/// One `<url>` entry of a sitemap.
#[derive(Debug, Clone, PartialEq)]
pub struct Url {
    pub loc: XmlVal,
    pub last_mod: Option<XmlVal>,
    pub change_freq: Option<XmlVal>,
    pub priority: Option<XmlVal>,
}

/// The view of an optional text value.
pub open spec fn opt_view(v: Option<XmlVal>) -> Option<Seq<char>> {
    match v {
        Some(x) => Some(x.0@),
        None => None,
    }
}

pub open spec fn opt_string_view(v: Option<String>) -> Option<Seq<char>> {
    match v {
        Some(x) => Some(x@),
        None => None,
    }
}

fn opt_str(v: &Option<XmlVal>) -> (r: Option<&str>)
    ensures
        match r {
            Some(s) => opt_view(*v) == Some(s@),
            None => v is None,
        },
{
    match v {
        Some(x) => Some(x.0.as_str()),
        None => None,
    }
}

impl Url {
    pub fn new(
        loc: String,
        last_mod: Option<String>,
        change_freq: Option<String>,
        priority: Option<String>,
    ) -> (r: Url)
        ensures
            r.loc.0@ == loc@,
            opt_view(r.last_mod) == opt_string_view(last_mod),
            opt_view(r.change_freq) == opt_string_view(change_freq),
            opt_view(r.priority) == opt_string_view(priority),
    {
        Url {
            loc: XmlVal(loc),
            last_mod: match last_mod {
                Some(s) => Some(XmlVal(s)),
                None => None,
            },
            change_freq: match change_freq {
                Some(s) => Some(XmlVal(s)),
                None => None,
            },
            priority: match priority {
                Some(s) => Some(XmlVal(s)),
                None => None,
            },
        }
    }

    pub fn loc(&self) -> (r: &str)
        ensures
            r@ == self.loc.0@,
    {
        self.loc.0.as_str()
    }

    pub fn last_mod(&self) -> (r: Option<&str>)
        ensures
            match r {
                Some(s) => opt_view(self.last_mod) == Some(s@),
                None => self.last_mod is None,
            },
    {
        opt_str(&self.last_mod)
    }

    pub fn change_freq(&self) -> (r: Option<&str>)
        ensures
            match r {
                Some(s) => opt_view(self.change_freq) == Some(s@),
                None => self.change_freq is None,
            },
    {
        opt_str(&self.change_freq)
    }

    pub fn priority(&self) -> (r: Option<&str>)
        ensures
            match r {
                Some(s) => opt_view(self.priority) == Some(s@),
                None => self.priority is None,
            },
    {
        opt_str(&self.priority)
    }
}

/// The `<urlset>` element: the sitemap namespaces and the entries.
#[derive(Debug, Clone, PartialEq)]
pub struct Urlset {
    pub xmlns: String,
    pub xmlns_image: String,
    pub xmlns_video: String,
    pub urls: Vec<Url>,
}

/// A sitemap document.
#[derive(Debug, Clone, PartialEq)]
pub struct SiteMap {
    pub url_set: Urlset,
}

pub open spec fn sitemap_ns() -> Seq<char> {
    "http://www.sitemaps.org/schemas/sitemap/0.9"@
}

pub open spec fn image_ns() -> Seq<char> {
    "http://www.google.com/schemas/sitemap-image/1.1"@
}

pub open spec fn video_ns() -> Seq<char> {
    "http://www.google.com/schemas/sitemap-video/1.1"@
}

impl SiteMap {
    /// A sitemap of the given entries, in order, under the standard sitemap,
    /// image and video namespaces.
    pub fn from_urls(urls: Vec<Url>) -> (r: SiteMap)
        ensures
            r.url_set.urls == urls,
            r.url_set.xmlns@ == sitemap_ns(),
            r.url_set.xmlns_image@ == image_ns(),
            r.url_set.xmlns_video@ == video_ns(),
    {
        SiteMap {
            url_set: Urlset {
                xmlns: string_from_chars(&chars_of("http://www.sitemaps.org/schemas/sitemap/0.9")),
                xmlns_image: string_from_chars(
                    &chars_of("http://www.google.com/schemas/sitemap-image/1.1"),
                ),
                xmlns_video: string_from_chars(
                    &chars_of("http://www.google.com/schemas/sitemap-video/1.1"),
                ),
                urls,
            },
        }
    }

    pub fn urls(&self) -> (r: &Vec<Url>)
        ensures
            *r == self.url_set.urls,
    {
        &self.url_set.urls
    }
}

/// The site's fixed pages, with their priorities.
pub open spec fn static_pages() -> Seq<(Seq<char>, Seq<char>)> {
    seq![
        ("https://www.pkaindex.com/"@, "1.0"@),
        ("https://www.pkaindex.com/watch"@, "1.0"@),
        ("https://www.pkaindex.com/watch/latest"@, "1.0"@),
        ("https://www.pkaindex.com/episodes"@, "0.9"@),
        ("https://www.pkaindex.com/events"@, "0.9"@),
        ("https://www.pkaindex.com/watch/random"@, "0.8"@),
    ]
}

/// The order of episode pages: episode number ascending, then position.
pub open spec fn page_key(eps: Seq<PkaEpisode>) -> spec_fn(int) -> (u32, i32) {
    |i: int| (eps[i].number.key(), 0i32)
}

pub open spec fn page_ranking(eps: Seq<PkaEpisode>) -> Seq<usize> {
    ranking(eps.len() as int, |i: int| true, page_key(eps))
}

/// `u` is a weekly entry for `loc` with priority `priority` and no date.
pub open spec fn is_weekly_entry(u: Url, loc: Seq<char>, priority: Seq<char>) -> bool {
    &&& u.loc.0@ == loc
    &&& u.last_mod is None
    &&& opt_view(u.change_freq) == Some("weekly"@)
    &&& opt_view(u.priority) == Some(priority)
}

fn weekly_entry(loc: String, priority: &str) -> (r: Url)
    ensures
        is_weekly_entry(r, loc@, priority@),
{
    Url {
        loc: XmlVal(loc),
        last_mod: None,
        change_freq: Some(XmlVal(string_from_chars(&chars_of("weekly")))),
        priority: Some(XmlVal(string_from_chars(&chars_of(priority)))),
    }
}

/// The sitemap of the site: its fixed pages, then one watch page per
/// episode by episode number ascending. `labels[i]` is how the number of
/// `episodes[i]` is written in its address.
pub fn site_map(episodes: &Vec<PkaEpisode>, labels: &Vec<String>) -> (r: SiteMap)
    requires
        labels.len() == episodes.len(),
    ensures
        r.url_set.xmlns@ == sitemap_ns(),
        r.url_set.urls.len() == 6 + episodes.len(),
        forall|i: int|
            0 <= i < 6 ==> is_weekly_entry(
                #[trigger] r.url_set.urls[i],
                static_pages()[i].0,
                static_pages()[i].1,
            ),
        forall|k: int|
            0 <= k < episodes.len() ==> is_weekly_entry(
                #[trigger] r.url_set.urls[6 + k],
                "https://www.pkaindex.com/watch/"@ + labels[page_ranking(episodes@)[k] as int]@,
                "0.7"@,
            ),
{
    let mut urls: Vec<Url> = Vec::new();
    urls.push(weekly_entry(string_from_chars(&chars_of("https://www.pkaindex.com/")), "1.0"));
    urls.push(weekly_entry(string_from_chars(&chars_of("https://www.pkaindex.com/watch")), "1.0"));
    urls.push(weekly_entry(string_from_chars(&chars_of("https://www.pkaindex.com/watch/latest")), "1.0"));
    urls.push(weekly_entry(string_from_chars(&chars_of("https://www.pkaindex.com/episodes")), "0.9"));
    urls.push(weekly_entry(string_from_chars(&chars_of("https://www.pkaindex.com/events")), "0.9"));
    urls.push(weekly_entry(string_from_chars(&chars_of("https://www.pkaindex.com/watch/random")), "0.8"));
    let ghost key = page_key(episodes@);
    let ghost every = |i: int| true;
    let mut keys: Vec<RankKey> = Vec::new();
    let mut i: usize = 0;
    while i < episodes.len()
        invariant
            i <= episodes.len(),
            keys.len() == i,
            key == page_key(episodes@),
            forall|j: int| 0 <= j < i ==> #[trigger] keys[j] == rank_key(key, j as usize),
        decreases episodes.len() - i,
    {
        keys.push((episodes[i].number.order_key(), 0i32, i));
        i = i + 1;
    }
    let ghost keys_v = keys@;
    let order = order_by_keys(keys, Ghost(key));
    proof {
        assert forall|j: int| 0 <= j < order.len() implies #[trigger] order[j] < episodes.len() && every(
            order[j] as int,
        ) by {
            assert(order@.contains(order[j]));
            let t = choose|t: int| 0 <= t < keys_v.len() && #[trigger] keys_v[t].2 == order[j];
        }
        assert forall|j: int| 0 <= j < episodes.len() && #[trigger] every(j) implies order@.contains(
            j as usize,
        ) by {
            assert(keys_v[j].2 == j as usize);
        }
        assert(is_ranking(episodes.len() as int, every, key, order@));
        lemma_ranking_unique(episodes.len() as int, every, key, order@, ranking(episodes.len() as int, every, key));
        assert forall|x: usize| (x as int) < episodes.len() implies #[trigger] order@.contains(x) by {
            assert(every(x as int));
            assert(keys_v[x as int].2 == x);
        }
        crate::search::lemma_ranking_covers(episodes.len() as int, every, key, order@);
    }
    let prefix = chars_of("https://www.pkaindex.com/watch/");
    let mut k: usize = 0;
    while k < order.len()
        invariant
            k <= order.len() == episodes.len() == labels.len(),
            urls.len() == 6 + k,
            prefix@ == "https://www.pkaindex.com/watch/"@,
            order@ == page_ranking(episodes@),
            forall|j: int| 0 <= j < order.len() ==> #[trigger] order[j] < episodes.len(),
            forall|i: int|
                0 <= i < 6 ==> is_weekly_entry(#[trigger] urls[i], static_pages()[i].0, static_pages()[i].1),
            forall|j: int|
                0 <= j < k ==> is_weekly_entry(
                    #[trigger] urls[6 + j],
                    "https://www.pkaindex.com/watch/"@ + labels[order[j] as int]@,
                    "0.7"@,
                ),
        decreases order.len() - k,
    {
        let mut loc = prefix.clone();
        let label = chars_of(labels[order[k]].as_str());
        let ghost head = loc@;
        let mut c: usize = 0;
        while c < label.len()
            invariant
                c <= label.len(),
                loc@ == head + label@.take(c as int),
            decreases label.len() - c,
        {
            loc.push(label[c]);
            assert(loc@ =~= head + label@.take(c + 1));
            c = c + 1;
        }
        assert(label@.take(label@.len() as int) =~= label@);
        urls.push(weekly_entry(string_from_chars(&loc), "0.7"));
        k = k + 1;
    }
    SiteMap::from_urls(urls)
}

} // verus!
