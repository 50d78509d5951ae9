//! Aggregation core for a unified emergency-dispatch event feed.
//!
//! Many public-safety agencies publish their currently active dispatch
//! events on ordinary web pages. Per-agency adapters (outside this
//! library) turn each page into a normalized per-authority record; this
//! crate holds the verified core that those adapters and the surrounding
//! batch runner lean on: the run-scoped fetch cache, the partial-failure
//! accounting of one aggregation run, and the event identity and feed
//! synthesis engine that merges every record into one chronologically
//! ordered feed whose incident identities survive from run to run.
use vstd::prelude::*;

pub mod cache;
pub mod clock;
pub mod driver;
pub mod feed;
pub mod identity;
pub mod laws;
pub mod order;
pub mod records;
pub mod text;

verus! {

/// Per-request settings an adapter hands to the HTTP layer: the target
/// host and URL, optional header overrides, and whether the body must be
/// decoded as Shift_JIS rather than UTF-8.
pub struct HttpRequestConfig {
    pub host: String,
    pub url: String,
    pub accept: Option<String>,
    pub accept_language: Option<String>,
    pub connection: Option<String>,
    pub content_type: Option<String>,
    pub use_shift_jis: bool,
}

impl HttpRequestConfig {
    /// A request for `url` on `host` with every header left at its
    /// default and the body taken as UTF-8.
    pub fn new(host: &str, url: &str) -> (c: Self)
        ensures
            c.host@ == host@,
            c.url@ == url@,
            c.accept is None,
            c.accept_language is None,
            c.connection is None,
            c.content_type is None,
            c.use_shift_jis == false,
    {
        HttpRequestConfig {
            host: host.to_owned(),
            url: url.to_owned(),
            accept: None,
            accept_language: None,
            connection: None,
            content_type: None,
            use_shift_jis: false,
        }
    }

    pub fn with_shift_jis(self, use_shift_jis: bool) -> (c: Self)
        ensures
            c == (Self { use_shift_jis, ..self }),
    {
        Self { use_shift_jis, ..self }
    }

    pub fn with_accept(self, accept: &str) -> (c: Self)
        ensures
            c.accept matches Some(a) && a@ == accept@,
            c.host == self.host,
            c.url == self.url,
            c.accept_language == self.accept_language,
            c.connection == self.connection,
            c.content_type == self.content_type,
            c.use_shift_jis == self.use_shift_jis,
    {
        Self { accept: Some(accept.to_owned()), ..self }
    }

    pub fn with_accept_language(self, accept_language: &str) -> (c: Self)
        ensures
            c.accept_language matches Some(a) && a@ == accept_language@,
            c.host == self.host,
            c.url == self.url,
            c.accept == self.accept,
            c.connection == self.connection,
            c.content_type == self.content_type,
            c.use_shift_jis == self.use_shift_jis,
    {
        Self { accept_language: Some(accept_language.to_owned()), ..self }
    }

    pub fn with_connection(self, connection: &str) -> (c: Self)
        ensures
            c.connection matches Some(a) && a@ == connection@,
            c.host == self.host,
            c.url == self.url,
            c.accept == self.accept,
            c.accept_language == self.accept_language,
            c.content_type == self.content_type,
            c.use_shift_jis == self.use_shift_jis,
    {
        Self { connection: Some(connection.to_owned()), ..self }
    }

    pub fn with_content_type(self, content_type: &str) -> (c: Self)
        ensures
            c.content_type matches Some(a) && a@ == content_type@,
            c.host == self.host,
            c.url == self.url,
            c.accept == self.accept,
            c.accept_language == self.accept_language,
            c.connection == self.connection,
            c.use_shift_jis == self.use_shift_jis,
    {
        Self { content_type: Some(content_type.to_owned()), ..self }
    }
}

/// The full-width decimal digits folded onto their ASCII counterparts;
/// every other character is left as it is.
pub open spec fn half_width_char(c: char) -> char {
    if c == '０' {
        '0'
    } else if c == '１' {
        '1'
    } else if c == '２' {
        '2'
    } else if c == '３' {
        '3'
    } else if c == '４' {
        '4'
    } else if c == '５' {
        '5'
    } else if c == '６' {
        '6'
    } else if c == '７' {
        '7'
    } else if c == '８' {
        '8'
    } else if c == '９' {
        '9'
    } else {
        c
    }
}

pub open spec fn half_width_of(s: Seq<char>) -> Seq<char> {
    s.map_values(|c: char| half_width_char(c))
}

/// Replaces every full-width decimal digit with its ASCII counterpart,
/// so that agency pages written with full-width numerals parse like any
/// other.
pub fn to_half_width(s: &str) -> (r: String)
    ensures
        r@ == half_width_of(s@),
{
    let n = s.unicode_len();
    let mut out = String::new();
    let mut i: usize = 0;
    while i < n
        invariant
            i <= n == s@.len(),
            out@ == half_width_of(s@.subrange(0, i as int)),
        decreases n - i,
    {
        let c = s.get_char(i);
        let mapped = match c {
            '０' => '0',
            '１' => '1',
            '２' => '2',
            '３' => '3',
            '４' => '4',
            '５' => '5',
            '６' => '6',
            '７' => '7',
            '８' => '8',
            '９' => '9',
            _ => c,
        };
        push_char(&mut out, mapped);
        proof {
            assert(out@ =~= half_width_of(s@.subrange(0, i + 1)));
        }
        i = i + 1;
    }
    proof {
        assert(s@.subrange(0, n as int) =~= s@);
    }
    out
}

/// Whether an address names one of the districts of Yahiko village.
pub open spec fn is_yahiko_of(s: Seq<char>) -> bool {
    ||| crate::text::contains_seq(s, "麓"@)
    ||| crate::text::contains_seq(s, "村山"@)
    ||| crate::text::contains_seq(s, "観音寺"@)
    ||| crate::text::contains_seq(s, "弥彦"@)
    ||| crate::text::contains_seq(s, "走出"@)
    ||| crate::text::contains_seq(s, "上泉"@)
    ||| crate::text::contains_seq(s, "井田"@)
    ||| crate::text::contains_seq(s, "山岸"@)
    ||| crate::text::contains_seq(s, "山崎"@)
    ||| crate::text::contains_seq(s, "中山"@)
    ||| crate::text::contains_seq(s, "矢作"@)
    ||| crate::text::contains_seq(s, "平野"@)
    ||| crate::text::contains_seq(s, "えび穴"@)
    ||| crate::text::contains_seq(s, "魵穴"@)
    ||| crate::text::contains_seq(s, "大戸"@)
    ||| crate::text::contains_seq(s, "美山"@)
    ||| crate::text::contains_seq(s, "峰見"@)
}

/// Whether a location taken from the fire service's shared status page
/// lies in Yahiko village: the page mixes several municipalities, and
/// the village's adapter keeps only the locations that name one of its
/// districts.
pub fn is_yahiko_location(location: &str) -> (r: bool)
    ensures
        r == is_yahiko_of(location@),
{
    crate::text::contains_str(location, "麓") || crate::text::contains_str(location, "村山")
        || crate::text::contains_str(location, "観音寺") || crate::text::contains_str(
        location,
        "弥彦",
    ) || crate::text::contains_str(location, "走出") || crate::text::contains_str(location, "上泉")
        || crate::text::contains_str(location, "井田") || crate::text::contains_str(
        location,
        "山岸",
    ) || crate::text::contains_str(location, "山崎") || crate::text::contains_str(location, "中山")
        || crate::text::contains_str(location, "矢作") || crate::text::contains_str(
        location,
        "平野",
    ) || crate::text::contains_str(location, "えび穴") || crate::text::contains_str(
        location,
        "魵穴",
    ) || crate::text::contains_str(location, "大戸") || crate::text::contains_str(location, "美山")
        || crate::text::contains_str(location, "峰見")
}

} // verus!

pub use crate::driver::get_all;
pub use crate::feed::generate_rss_feed;
use crate::text::push_char;
use vstd::string::StrSliceExecFns;
