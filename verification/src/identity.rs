//! Incident identity across runs.
//!
//! The engine keeps no database between runs: the previously published
//! feed document is re-parsed to rebuild a map from an event's
//! *essence* — its `(address, type)` pair, deliberately excluding time
//! — to the identity token published for it last time. An event whose
//! essence is found there keeps that token verbatim; a new event gets a
//! token synthesized deterministically from its resolved date-time and
//! jurisdiction code. The parser here and the renderer in the feed
//! module are a matched pair: the exact line-per-field layout of the
//! rendered document is the parsing contract between them.
use vstd::prelude::*;

use crate::clock::Date;
use crate::text::{affix_payload_of, dec_str_of, find_char, has_affixes, pad2_of, push_char,
    seq_views, trim_of};

verus! {

/// The essence of an event: address and type joined by a hyphen, the
/// correlation key that recognizes the same incident across runs.
pub open spec fn essence_of(address: Seq<char>, event_type: Seq<char>) -> Seq<char> {
    address + seq!['-'] + event_type
}

/// Joins an event's address and type into its essence key.
pub fn make_essence(address: &str, event_type: &str) -> (r: String)
    ensures
        r@ == essence_of(address@, event_type@),
{
    let mut s = address.to_owned();
    push_char(&mut s, '-');
    s.append(event_type);
    proof {
        assert(s@ =~= essence_of(address@, event_type@));
    }
    s
}

/// The identity token synthesized for a new incident: resolved date and
/// time run together, a hyphen, and the jurisdiction code.
pub open spec fn synthesized_guid_of(d: Date, hour: int, minute: int, jis: Seq<char>) -> Seq<
    char,
> {
    dec_str_of(d.year as int) + pad2_of(d.month as int) + pad2_of(d.day as int) + pad2_of(hour)
        + pad2_of(minute) + seq!['-'] + jis
}

/// Synthesizes the identity token of a new incident from its resolved
/// date, its time of day and its jurisdiction code.
pub fn synthesize_guid(d: &Date, hour: u8, minute: u8, jis: &str) -> (r: String)
    requires
        d.month < 100,
        d.day < 100,
        hour < 100,
        minute < 100,
    ensures
        r@ == synthesized_guid_of(*d, hour as int, minute as int, jis@),
{
    let mut s = crate::text::u64_str(d.year as u64);
    let part = crate::text::pad2(d.month);
    s.append(part.as_str());
    let part = crate::text::pad2(d.day);
    s.append(part.as_str());
    let part = crate::text::pad2(hour);
    s.append(part.as_str());
    let part = crate::text::pad2(minute);
    s.append(part.as_str());
    push_char(&mut s, '-');
    s.append(jis);
    proof {
        assert(s@ =~= synthesized_guid_of(*d, hour as int, minute as int, jis@));
    }
    s
}

/// The map an association list denotes: entries are folded in order, so
/// a later entry for the same key overrides an earlier one.
pub open spec fn pairs_map_of(ps: Seq<(Seq<char>, Seq<char>)>) -> Map<Seq<char>, Seq<char>>
    decreases ps.len(),
{
    if ps.len() == 0 {
        Map::empty()
    } else {
        pairs_map_of(ps.drop_last()).insert(ps.last().0, ps.last().1)
    }
}

pub proof fn lemma_pairs_map_contains(ps: Seq<(Seq<char>, Seq<char>)>, k: Seq<char>)
    ensures
        pairs_map_of(ps).contains_key(k) <==> exists|i: int| 0 <= i < ps.len() && ps[i].0 == k,
    decreases ps.len(),
{
    if ps.len() > 0 {
        lemma_pairs_map_contains(ps.drop_last(), k);
        if ps.last().0 == k {
            assert(ps[ps.len() - 1].0 == k);
        } else if pairs_map_of(ps).contains_key(k) {
            let i = choose|i: int| 0 <= i < ps.drop_last().len() && ps.drop_last()[i].0 == k;
            assert(ps[i].0 == k);
        } else {
            assert forall|i: int| 0 <= i < ps.len() implies ps[i].0 != k by {
                if i < ps.len() - 1 {
                    assert(ps.drop_last()[i] == ps[i]);
                }
            }
        }
    }
}

/// The folded map reads each key through its last entry.
pub proof fn lemma_pairs_map_last(ps: Seq<(Seq<char>, Seq<char>)>, i: int)
    requires
        0 <= i < ps.len(),
        forall|j: int| i < j < ps.len() ==> ps[j].0 != ps[i].0,
    ensures
        pairs_map_of(ps).contains_key(ps[i].0),
        pairs_map_of(ps)[ps[i].0] == ps[i].1,
    decreases ps.len(),
{
    if i == ps.len() - 1 {
    } else {
        assert(ps.drop_last()[i] == ps[i]);
        assert(forall|j: int| i < j < ps.drop_last().len() ==> ps.drop_last()[j] == ps[j]);
        lemma_pairs_map_last(ps.drop_last(), i);
        assert(ps.last().0 != ps[i].0);
    }
}

/// The recovered essence-to-identity mapping of one run, and the map
/// under construction while the previous feed document is re-parsed.
pub struct GuidMap {
    entries: Vec<(String, String)>,
}

pub open spec fn guid_entries_map(s: Seq<(String, String)>) -> Map<Seq<char>, Seq<char>> {
    pairs_map_of(s.map_values(|e: (String, String)| (e.0@, e.1@)))
}

impl View for GuidMap {
    type V = Map<Seq<char>, Seq<char>>;

    closed spec fn view(&self) -> Map<Seq<char>, Seq<char>> {
        guid_entries_map(self.entries@)
    }
}

impl GuidMap {
    /// The empty mapping: no prior feed could be read, so every event
    /// is new.
    pub fn new() -> (m: Self)
        ensures
            m@ == Map::<Seq<char>, Seq<char>>::empty(),
    {
        let m = GuidMap { entries: Vec::new() };
        proof {
            assert(m.entries@.map_values(|e: (String, String)| (e.0@, e.1@)) =~= Seq::<(
                Seq<char>,
                Seq<char>,
            )>::empty());
        }
        m
    }

    /// Records that `essence` was last published under `guid`; a later
    /// insertion for the same essence overrides an earlier one.
    pub fn insert(&mut self, essence: String, guid: String)
        ensures
            final(self)@ == old(self)@.insert(essence@, guid@),
    {
        let ghost e = (essence@, guid@);
        self.entries.push((essence, guid));
        proof {
            let ps = self.entries@.map_values(|e: (String, String)| (e.0@, e.1@));
            assert(ps.drop_last() =~= old(self).entries@.map_values(
                |e: (String, String)| (e.0@, e.1@),
            ));
            assert(ps.last() == e);
        }
    }

    /// The identity token last published for an essence, if any.
    pub fn get(&self, essence: &str) -> (r: Option<&String>)
        ensures
            r is Some <==> self@.contains_key(essence@),
            r matches Some(g) ==> g@ == self@[essence@],
    {
        let ghost ps = self.entries@.map_values(|e: (String, String)| (e.0@, e.1@));
        let mut i: usize = self.entries.len();
        while i > 0
            invariant
                i <= self.entries@.len(),
                ps == self.entries@.map_values(|e: (String, String)| (e.0@, e.1@)),
                forall|j: int| i <= j < ps.len() ==> ps[j].0 != essence@,
            decreases i,
        {
            i = i - 1;
            if crate::text::str_eq(self.entries[i].0.as_str(), essence) {
                proof {
                    lemma_pairs_map_last(ps, i as int);
                }
                return Some(&self.entries[i].1);
            }
        }
        proof {
            lemma_pairs_map_contains(ps, essence@);
        }
        None
    }
}

// ---------------------------------------------------------------------
// Re-parsing the previously published feed document.
// ---------------------------------------------------------------------

/// The first line at or after `i` that opens with the item-closing tag;
/// `ls.len()` when there is none.
pub open spec fn first_close(ls: Seq<Seq<char>>, i: int) -> int
    decreases ls.len() - i,
{
    if i < 0 || i >= ls.len() {
        ls.len() as int
    } else if crate::text::is_prefix_of("</item>"@, ls[i]) {
        i
    } else {
        first_close(ls, i + 1)
    }
}

/// The payload of the last line in a block that carries the given
/// prefix and suffix, if any line does.
pub open spec fn last_payload(block: Seq<Seq<char>>, pre: Seq<char>, suf: Seq<char>) -> Option<
    Seq<char>,
>
    decreases block.len(),
{
    if block.len() == 0 {
        None
    } else if has_affixes(block.last(), pre, suf) {
        Some(affix_payload_of(block.last(), pre, suf))
    } else {
        last_payload(block.drop_last(), pre, suf)
    }
}

/// The essence-and-identity pair one item block contributes: its last
/// title, description and identity lines must all be present and
/// non-empty, and the title must hold the full-width opening bracket
/// that separates the event type from the source name.
pub open spec fn item_pair_of(block: Seq<Seq<char>>) -> Option<(Seq<char>, Seq<char>)> {
    let title = last_payload(block, "<title>"@, "</title>"@);
    let desc = last_payload(block, "<description>"@, "</description>"@);
    let guid = last_payload(block, "<guid isPermaLink=\"false\">"@, "</guid>"@);
    if title is Some && desc is Some && guid is Some && title->0.len() > 0 && desc->0.len() > 0
        && guid->0.len() > 0 && find_char(title->0, '（') >= 0 {
        Some((desc->0 + seq!['-'] + title->0.subrange(0, find_char(title->0, '（')), guid->0))
    } else {
        None
    }
}

/// The essence-and-identity pairs of a previously rendered document,
/// read off its trimmed lines in order.
pub open spec fn recovered_pairs_of(ls: Seq<Seq<char>>) -> Seq<(Seq<char>, Seq<char>)>
    decreases ls.len(),
{
    if ls.len() == 0 {
        Seq::empty()
    } else if ls[0] == "<item>"@ {
        let j = first_close(ls, 1);
        let jc = if 1 <= j <= ls.len() {
            j
        } else {
            ls.len() as int
        };
        let contribution = match item_pair_of(ls.subrange(1, jc)) {
            Some(p) => seq![p],
            None => Seq::<(Seq<char>, Seq<char>)>::empty(),
        };
        if jc + 1 <= ls.len() {
            contribution + recovered_pairs_of(ls.skip(jc + 1))
        } else {
            contribution
        }
    } else {
        recovered_pairs_of(ls.skip(1))
    }
}

/// The lines of a document, each trimmed of surrounding whitespace.
pub open spec fn trimmed_lines_of(content: Seq<char>) -> Seq<Seq<char>> {
    crate::text::lines_of(content).map_values(|l: Seq<char>| trim_of(l))
}

/// The essence-to-identity map recovered from a previously published
/// feed document.
pub open spec fn recovered_map_of(content: Seq<char>) -> Map<Seq<char>, Seq<char>> {
    pairs_map_of(recovered_pairs_of(trimmed_lines_of(content)))
}

proof fn lemma_first_close_bounds(ls: Seq<Seq<char>>, i: int)
    requires
        0 <= i <= ls.len(),
    ensures
        i <= first_close(ls, i) <= ls.len(),
        first_close(ls, i) < ls.len() ==> crate::text::is_prefix_of(
            "</item>"@,
            ls[first_close(ls, i)],
        ),
        forall|j: int|
            i <= j < first_close(ls, i) ==> !crate::text::is_prefix_of("</item>"@, #[trigger] ls[j]),
    decreases ls.len() - i,
{
    if i < ls.len() && !crate::text::is_prefix_of("</item>"@, ls[i]) {
        lemma_first_close_bounds(ls, i + 1);
    }
}

/// Scans part of a line vector for the last line with the given prefix
/// and suffix, returning its payload.
fn find_last_payload(lines: &Vec<String>, lo: usize, hi: usize, pre: &str, suf: &str) -> (r:
    Option<String>)
    requires
        lo <= hi <= lines@.len(),
    ensures
        r is Some <==> last_payload(seq_views(lines@).subrange(lo as int, hi as int), pre@, suf@)
            is Some,
        r matches Some(mid) ==> Some(mid@) == last_payload(
            seq_views(lines@).subrange(lo as int, hi as int),
            pre@,
            suf@,
        ),
{
    let ghost block = seq_views(lines@).subrange(lo as int, hi as int);
    let mut j: usize = hi;
    proof {
        assert(block.subrange(0, (hi - lo) as int) =~= block);
    }
    while j > lo
        invariant
            lo <= j <= hi <= lines@.len(),
            block == seq_views(lines@).subrange(lo as int, hi as int),
            last_payload(block, pre@, suf@) == last_payload(
                block.subrange(0, (j - lo) as int),
                pre@,
                suf@,
            ),
        decreases j,
    {
        j = j - 1;
        proof {
            assert(block.subrange(0, (j + 1 - lo) as int).last() == lines@[j as int]@);
            assert(block.subrange(0, (j + 1 - lo) as int).drop_last() =~= block.subrange(
                0,
                (j - lo) as int,
            ));
        }
        match crate::text::strip_affixes(lines[j].as_str(), pre, suf) {
            Some(mid) => {
                return Some(mid);
            },
            None => {
            },
        }
    }
    proof {
        assert(block.subrange(0, 0) =~= Seq::<Seq<char>>::empty());
    }
    None
}

/// Re-parses a previously published feed document into the map from
/// event essence to the identity token published for it. The layout it
/// expects is exactly what the renderer emits; anything else simply
/// contributes nothing, degrading to "no prior identity known".
pub fn load_previous_guid_mapping(content: &str) -> (m: GuidMap)
    ensures
        m@ == recovered_map_of(content@),
{
    let raw_lines = crate::text::split_lines(content);
    let mut lines: Vec<String> = Vec::new();
    let mut t: usize = 0;
    while t < raw_lines.len()
        invariant
            t <= raw_lines@.len(),
            lines@.len() == t,
            forall|j: int| 0 <= j < t ==> lines@[j]@ == trim_of(raw_lines@[j]@),
        decreases raw_lines@.len() - t,
    {
        let trimmed = crate::text::trim_line(raw_lines[t].as_str());
        lines.push(trimmed);
        t = t + 1;
    }
    let ghost ls = seq_views(lines@);
    proof {
        assert(ls =~= trimmed_lines_of(content@));
    }
    let n = lines.len();
    let mut m = GuidMap::new();
    let ghost done: Seq<(Seq<char>, Seq<char>)> = Seq::empty();
    let mut i: usize = 0;
    proof {
        assert(ls.skip(0) =~= ls);
        assert(done + recovered_pairs_of(ls.skip(0)) =~= recovered_pairs_of(ls));
        assert(m@ =~= pairs_map_of(done));
    }
    let ghost mut done = done;
    while i < n
        invariant
            i <= n == ls.len() == lines@.len(),
            ls == seq_views(lines@),
            recovered_pairs_of(ls) == done + recovered_pairs_of(ls.skip(i as int)),
            m@ == pairs_map_of(done),
        decreases n - i,
    {
        let ghost suffix = ls.skip(i as int);
        if crate::text::str_eq(lines[i].as_str(), "<item>") {
            assert(suffix[0] == "<item>"@);
            // find the closing line of this item block
            let mut j: usize = i + 1;
            while j < n && !crate::text::has_prefix(lines[j].as_str(), "</item>")
                invariant
                    i + 1 <= j <= n == ls.len() == lines@.len(),
                    ls == seq_views(lines@),
                    forall|q: int|
                        i + 1 <= q < j ==> !crate::text::is_prefix_of(
                            "</item>"@,
                            #[trigger] ls[q],
                        ),
                decreases n - j,
            {
                j = j + 1;
            }
            proof {
                lemma_first_close_bounds(suffix, 1);
                assert forall|q: int| 1 <= q < j - i implies !crate::text::is_prefix_of(
                    "</item>"@,
                    #[trigger] suffix[q],
                ) by {
                    assert(suffix[q] == ls[i + q]);
                }
                if j < n {
                    assert(crate::text::is_prefix_of("</item>"@, suffix[j - i]));
                }
                assert(first_close(suffix, 1) == j - i) by {
                    if j < n {
                        lemma_first_close_at(suffix, 1, j - i);
                    } else {
                        lemma_first_close_end(suffix, 1);
                    }
                }
            }
            let title = find_last_payload(&lines, i + 1, j, "<title>", "</title>");
            let desc = find_last_payload(&lines, i + 1, j, "<description>", "</description>");
            let guid = find_last_payload(&lines, i + 1, j, "<guid isPermaLink=\"false\">",
                "</guid>");
            proof {
                assert(seq_views(lines@).subrange(i + 1, j as int) =~= suffix.subrange(
                    1,
                    (j - i) as int,
                ));
            }
            let ghost block = suffix.subrange(1, (j - i) as int);
            match (title, desc, guid) {
                (Some(t), Some(d), Some(g)) => {
                    if !t.as_str().is_empty() && !d.as_str().is_empty() && !g.as_str().is_empty() {
                        // the event type stands before the full-width
                        // opening bracket of the title
                        let ghost k = find_char(t@, '（');
                        let mut p: usize = 0;
                        let tn = t.unicode_len();
                        while p < tn && t.get_char(p) != '（'
                            invariant
                                p <= tn == t@.len(),
                                forall|q: int| 0 <= q < p ==> t@[q] != '（',
                            decreases tn - p,
                        {
                            p = p + 1;
                        }
                        proof {
                            if p < tn {
                                crate::text::lemma_find_char_at(t@, '（', p as int);
                            } else {
                                crate::text::lemma_find_char_none(t@, '（');
                            }
                        }
                        if p < tn {
                            let event_type = t.as_str().substring_char(0, p);
                            let essence = {
                                let mut e = d.clone();
                                push_char(&mut e, '-');
                                e.append(event_type);
                                e
                            };
                            proof {
                                assert(essence@ =~= d@ + seq!['-'] + t@.subrange(0, k));
                                assert(item_pair_of(block) == Some((essence@, g@)));
                            }
                            m.insert(essence, g);
                            proof {
                                let pr = item_pair_of(block)->0;
                                assert(pr == (essence@, g@));
                                let prev = done;
                                done = done.push(pr);
                                assert(done.drop_last() =~= prev);
                                assert(done.last() == pr);
                                assert(pairs_map_of(done) == pairs_map_of(prev).insert(
                                    pr.0,
                                    pr.1,
                                ));
                                assert(pairs_map_of(done) == m@);
                            }
                        } else {
                            proof {
                                assert(item_pair_of(block) is None);
                            }
                        }
                    } else {
                        proof {
                            assert(item_pair_of(block) is None);
                        }
                    }
                },
                _ => {
                    proof {
                        assert(item_pair_of(block) is None);
                    }
                },
            }
            proof {
                let jc = (j - i) as int;
                if j < n {
                    assert(suffix.skip(jc + 1) =~= ls.skip(j + 1));
                    assert(recovered_pairs_of(ls) =~= done + recovered_pairs_of(ls.skip(j + 1)));
                } else {
                    assert(jc == suffix.len());
                    assert(ls.skip(n as int).len() == 0);
                    assert(recovered_pairs_of(ls) =~= done + recovered_pairs_of(
                        ls.skip(n as int),
                    ));
                }
            }
            i = if j < n {
                j + 1
            } else {
                n
            };
        } else {
            proof {
                assert(suffix[0] == ls[i as int]);
                assert(suffix[0] != "<item>"@);
                assert(suffix.skip(1) =~= ls.skip(i + 1));
            }
            i = i + 1;
        }
    }
    proof {
        assert(ls.skip(n as int).len() == 0);
        assert(recovered_pairs_of(ls) =~= done);
        assert(recovered_map_of(content@) =~= pairs_map_of(done));
    }
    m
}

pub proof fn lemma_first_close_at(ls: Seq<Seq<char>>, i: int, k: int)
    requires
        0 <= i <= k < ls.len(),
        crate::text::is_prefix_of("</item>"@, ls[k]),
        forall|q: int| i <= q < k ==> !crate::text::is_prefix_of("</item>"@, #[trigger] ls[q]),
    ensures
        first_close(ls, i) == k,
    decreases k - i,
{
    if i < k {
        lemma_first_close_at(ls, i + 1, k);
    }
}

pub proof fn lemma_first_close_end(ls: Seq<Seq<char>>, i: int)
    requires
        0 <= i <= ls.len(),
        forall|q: int| i <= q < ls.len() ==> !crate::text::is_prefix_of(
            "</item>"@,
            #[trigger] ls[q],
        ),
    ensures
        first_close(ls, i) == ls.len(),
    decreases ls.len() - i,
{
    if i < ls.len() {
        lemma_first_close_end(ls, i + 1);
    }
}

} // verus!

use vstd::string::StrSliceExecFns;
