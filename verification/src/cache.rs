//! The run-scoped fetch cache.
//!
//! All adapters of one run share one cache of URL to decoded body, so
//! that a page shared by several jurisdictions is fetched once per run.
//! The cache itself never touches the network: the runner looks a URL
//! up, fetches only on a miss, and stores the decoded body. Its
//! lifetime is exactly one run, so no expiry or capacity bound is
//! needed.
use vstd::prelude::*;

verus! {

/// What Shift_JIS decoding yields on given bytes; determined by the
/// bytes alone.
pub uninterp spec fn shift_jis_decoding(bytes: Seq<u8>) -> Seq<char>;

/// What lossy UTF-8 decoding yields on given bytes; determined by the
/// bytes alone.
pub uninterp spec fn utf8_lossy_decoding(bytes: Seq<u8>) -> Seq<char>;

/// Decodes a fetched body as Shift_JIS.
///
/// Relies on encoding_rs: `SHIFT_JIS.decode` returns the decoded text
/// of the input bytes (with a BOM honoured and malformed sequences
/// replaced), a function of the bytes alone.
#[verifier::external_body]
fn decode_shift_jis(raw: &Vec<u8>) -> (r: String)
    ensures
        r@ == shift_jis_decoding(raw@),
{
    let (body, _, _) = encoding_rs::SHIFT_JIS.decode(raw.as_slice());
    body.into_owned()
}

/// Decodes a fetched body as UTF-8, replacing malformed sequences.
///
/// Relies on std's `String::from_utf8_lossy`, whose result is a
/// function of the bytes alone.
#[verifier::external_body]
fn decode_utf8_lossy(raw: &Vec<u8>) -> (r: String)
    ensures
        r@ == utf8_lossy_decoding(raw@),
{
    String::from_utf8_lossy(raw.as_slice()).into_owned()
}

pub open spec fn entries_map(s: Seq<(String, String)>) -> Map<Seq<char>, Seq<char>>
    decreases s.len(),
{
    if s.len() == 0 {
        Map::empty()
    } else {
        entries_map(s.drop_last()).insert(s.last().0@, s.last().1@)
    }
}

spec fn distinct_keys(s: Seq<(String, String)>) -> bool {
    forall|i: int, j: int| 0 <= i < j < s.len() ==> s[i].0@ != s[j].0@
}

proof fn lemma_entries_map_contains(s: Seq<(String, String)>, k: Seq<char>)
    ensures
        entries_map(s).contains_key(k) <==> exists|i: int| 0 <= i < s.len() && s[i].0@ == k,
    decreases s.len(),
{
    if s.len() > 0 {
        lemma_entries_map_contains(s.drop_last(), k);
        if s.last().0@ == k {
            assert(s[s.len() - 1].0@ == k);
        } else if entries_map(s).contains_key(k) {
            let i = choose|i: int| 0 <= i < s.drop_last().len() && s.drop_last()[i].0@ == k;
            assert(s[i].0@ == k);
        } else {
            assert forall|i: int| 0 <= i < s.len() implies s[i].0@ != k by {
                if i < s.len() - 1 {
                    assert(s.drop_last()[i].0@ == s[i].0@);
                }
            }
        }
    }
}

proof fn lemma_entries_map_get(s: Seq<(String, String)>, i: int)
    requires
        distinct_keys(s),
        0 <= i < s.len(),
    ensures
        entries_map(s).contains_key(s[i].0@),
        entries_map(s)[s[i].0@] == s[i].1@,
    decreases s.len(),
{
    if i == s.len() - 1 {
    } else {
        assert(s.drop_last()[i] == s[i]);
        lemma_entries_map_get(s.drop_last(), i);
        assert(s.last().0@ != s[i].0@);
    }
}

/// The per-run memo of URL to decoded body. Within one run no URL needs
/// to be fetched more than once: a hit returns the stored body, and
/// only a miss is fetched and stored.
pub struct FetchCache {
    entries: Vec<(String, String)>,
}

impl View for FetchCache {
    type V = Map<Seq<char>, Seq<char>>;

    closed spec fn view(&self) -> Map<Seq<char>, Seq<char>> {
        entries_map(self.entries@)
    }
}

impl FetchCache {
    #[verifier::type_invariant]
    spec fn inv(self) -> bool {
        distinct_keys(self.entries@)
    }

    /// An empty cache for a fresh run.
    pub fn new() -> (c: Self)
        ensures
            c@ == Map::<Seq<char>, Seq<char>>::empty(),
    {
        FetchCache { entries: Vec::new() }
    }

    /// The stored body for a URL fetched earlier in this run, if any.
    pub fn lookup(&self, url: &str) -> (r: Option<&String>)
        ensures
            r is Some <==> self@.contains_key(url@),
            r matches Some(body) ==> body@ == self@[url@],
    {
        proof {
            use_type_invariant(&*self);
        }
        let mut i: usize = 0;
        while i < self.entries.len()
            invariant
                i <= self.entries@.len(),
                distinct_keys(self.entries@),
                forall|j: int| 0 <= j < i ==> self.entries@[j].0@ != url@,
            decreases self.entries@.len() - i,
        {
            if crate::text::str_eq(self.entries[i].0.as_str(), url) {
                proof {
                    lemma_entries_map_get(self.entries@, i as int);
                }
                return Some(&self.entries[i].1);
            }
            i = i + 1;
        }
        proof {
            lemma_entries_map_contains(self.entries@, url@);
        }
        None
    }

    /// Stores the decoded body fetched for a URL not seen before in
    /// this run.
    pub fn store(&mut self, url: &str, body: String)
        requires
            !old(self)@.contains_key(url@),
        ensures
            final(self)@ == old(self)@.insert(url@, body@),
    {
        proof {
            use_type_invariant(&*self);
            lemma_entries_map_contains(self.entries@, url@);
        }
        let entry = (url.to_owned(), body);
        let mut entries: Vec<(String, String)> = Vec::new();
        core::mem::swap(&mut entries, &mut self.entries);
        entries.push(entry);
        self.entries = entries;
        proof {
            assert(self.entries@.drop_last() =~= old(self).entries@);
        }
    }

    /// Decodes a fetched body per the adapter's request configuration
    /// (Shift_JIS or UTF-8) and stores it for the rest of the run,
    /// returning the decoded text.
    pub fn store_fetched(&mut self, url: &str, raw: Vec<u8>, use_shift_jis: bool) -> (body:
        String)
        requires
            !old(self)@.contains_key(url@),
        ensures
            body@ == (if use_shift_jis {
                shift_jis_decoding(raw@)
            } else {
                utf8_lossy_decoding(raw@)
            }),
            final(self)@ == old(self)@.insert(url@, body@),
    {
        let body = if use_shift_jis {
            decode_shift_jis(&raw)
        } else {
            decode_utf8_lossy(&raw)
        };
        let copy = body.clone();
        self.store(url, copy);
        body
    }
}

} // verus!
