//! The event identity and feed synthesis engine.
//!
//! One pass per run: the persisted per-authority records are put into a
//! fixed enumeration order (by jurisdiction code), each raw event's
//! calendar date is resolved from its bare time of day, identities are
//! recovered from the previously published document or synthesized
//! anew, the events are sorted chronologically (ties broken by the
//! enumeration order), identity collisions within the run get sequence
//! suffixes, and the result is rendered as the feed document — which is
//! itself the input recovered by the next run.
use vstd::prelude::*;

use crate::clock::{datetime_key_of, hhmm_hour, hhmm_minute, resolved_date_of, valid_hhmm, Date,
    DateTime};
use crate::identity::{essence_of, recovered_map_of, synthesized_guid_of, GuidMap};
use crate::order::{insert_ordered, insertion_sort, lemma_insert_ordered_at,
    lemma_insertion_sort_push};
use crate::records::{lex_le, records_view, AuthorityRecord, AuthorityRecordView, RawEventView,
    SourceDescriptorView};
use crate::text::{join_lines_of, pad2_of, pad4_of, pad2_min_of, push_char};

verus! {

/// A raw event after date resolution and identity assignment: one item
/// of the output feed.
pub struct ResolvedEvent {
    pub date: Date,
    pub hour: u8,
    pub minute: u8,
    pub title: String,
    pub description: String,
    pub link: String,
    pub jurisdiction_code: String,
    pub essence: String,
    pub guid: String,
    pub ord: usize,
}

#[verifier::ext_equal]
pub ghost struct ResolvedEventView {
    pub date: Date,
    pub hour: int,
    pub minute: int,
    pub title: Seq<char>,
    pub description: Seq<char>,
    pub link: Seq<char>,
    pub jurisdiction_code: Seq<char>,
    pub essence: Seq<char>,
    pub guid: Seq<char>,
    pub ord: int,
}

impl Clone for ResolvedEvent {
    fn clone(&self) -> (r: Self)
        ensures
            r@ == self@,
    {
        ResolvedEvent {
            date: self.date,
            hour: self.hour,
            minute: self.minute,
            title: self.title.clone(),
            description: self.description.clone(),
            link: self.link.clone(),
            jurisdiction_code: self.jurisdiction_code.clone(),
            essence: self.essence.clone(),
            guid: self.guid.clone(),
            ord: self.ord,
        }
    }
}

impl View for ResolvedEvent {
    type V = ResolvedEventView;

    open spec fn view(&self) -> ResolvedEventView {
        ResolvedEventView {
            date: self.date,
            hour: self.hour as int,
            minute: self.minute as int,
            title: self.title@,
            description: self.description@,
            link: self.link@,
            jurisdiction_code: self.jurisdiction_code@,
            essence: self.essence@,
            guid: self.guid@,
            ord: self.ord as int,
        }
    }
}

/// The views of a sequence of resolved events.
pub open spec fn events_view(s: Seq<ResolvedEvent>) -> Seq<ResolvedEventView> {
    s.map_values(|e: ResolvedEvent| e@)
}

/// A feed item's title: the event type and the source name, the latter
/// in full-width brackets.
pub open spec fn title_of(event_type: Seq<char>, source_name: Seq<char>) -> Seq<char> {
    event_type + "（"@ + source_name + "）"@
}

// ---------------------------------------------------------------------
// Date resolution and identity assignment.
// ---------------------------------------------------------------------

/// One raw event resolved against the run's clock and the recovered
/// identity map: the date inferred, the essence computed, and the
/// identity either reused from the prior run or synthesized.
pub open spec fn resolve_one(
    e: RawEventView,
    src: SourceDescriptorView,
    jis: Seq<char>,
    now: DateTime,
    m: Map<Seq<char>, Seq<char>>,
    ord: int,
) -> ResolvedEventView {
    let h = hhmm_hour(e.time);
    let mi = hhmm_minute(e.time);
    let d = resolved_date_of(now, h, mi);
    let ess = essence_of(e.address, e.event_type);
    ResolvedEventView {
        date: d,
        hour: h,
        minute: mi,
        title: title_of(e.event_type, src.name),
        description: e.address,
        link: src.url,
        jurisdiction_code: jis,
        essence: ess,
        guid: if m.contains_key(ess) {
            m[ess]
        } else {
            synthesized_guid_of(d, h, mi, jis)
        },
        ord,
    }
}

/// The resolved events of one record, in the record's own event order;
/// events whose time does not parse are dropped. `base` numbers the
/// first resolved event of this record in the run's enumeration.
pub open spec fn record_events_resolved(
    events: Seq<RawEventView>,
    src: SourceDescriptorView,
    jis: Seq<char>,
    now: DateTime,
    m: Map<Seq<char>, Seq<char>>,
    base: int,
) -> Seq<ResolvedEventView>
    decreases events.len(),
{
    if events.len() == 0 {
        Seq::empty()
    } else {
        let init = record_events_resolved(events.drop_last(), src, jis, now, m, base);
        if valid_hhmm(events.last().time) {
            init.push(resolve_one(events.last(), src, jis, now, m, base + init.len()))
        } else {
            init
        }
    }
}

/// The resolved events of all records in enumeration order, numbered
/// consecutively from zero.
pub open spec fn resolved_events_of(
    rs: Seq<AuthorityRecordView>,
    now: DateTime,
    m: Map<Seq<char>, Seq<char>>,
) -> Seq<ResolvedEventView>
    decreases rs.len(),
{
    if rs.len() == 0 {
        Seq::empty()
    } else {
        let init = resolved_events_of(rs.drop_last(), now, m);
        init + record_events_resolved(
            rs.last().events,
            rs.last().source,
            rs.last().jurisdiction_code,
            now,
            m,
            init.len() as int,
        )
    }
}

/// Resolves every parseable event of every record against the run's
/// clock and the recovered identity map.
pub fn resolve_events(records: &Vec<AuthorityRecord>, now: &DateTime, m: &GuidMap) -> (r: Vec<
    ResolvedEvent,
>)
    requires
        now.wf(),
    ensures
        events_view(r@) == resolved_events_of(records_view(records@), *now, m@),
{
    let mut out: Vec<ResolvedEvent> = Vec::new();
    let mut i: usize = 0;
    proof {
        assert(records_view(records@).subrange(0, 0) =~= Seq::<AuthorityRecordView>::empty());
        assert(events_view(out@) =~= resolved_events_of(
            records_view(records@).subrange(0, 0),
            *now,
            m@,
        ));
    }
    while i < records.len()
        invariant
            i <= records@.len(),
            now.wf(),
            events_view(out@) == resolved_events_of(
                records_view(records@).subrange(0, i as int),
                *now,
                m@,
            ),
        decreases records@.len() - i,
    {
        let rec = &records[i];
        let ghost rv = records@[i as int]@;
        let ghost base = out@.len() as int;
        let mut j: usize = 0;
        proof {
            assert(rv.events.subrange(0, 0) =~= Seq::<RawEventView>::empty());
            assert(events_view(out@) =~= events_view(out@) + record_events_resolved(
                rv.events.subrange(0, 0),
                rv.source,
                rv.jurisdiction_code,
                *now,
                m@,
                base,
            ));
        }
        let ghost done = events_view(out@);
        while j < rec.events.len()
            invariant
                j <= rec.events@.len(),
                now.wf(),
                rv == rec@,
                rv.events.len() == rec.events@.len(),
                events_view(out@) == done + record_events_resolved(
                    rv.events.subrange(0, j as int),
                    rv.source,
                    rv.jurisdiction_code,
                    *now,
                    m@,
                    base,
                ),
                base == done.len(),
            decreases rec.events@.len() - j,
        {
            let ev = &rec.events[j];
            proof {
                assert(rv.events.subrange(0, j + 1).drop_last() =~= rv.events.subrange(
                    0,
                    j as int,
                ));
                assert(rv.events.subrange(0, j + 1).last() == rv.events[j as int]);
                assert(rv.events[j as int] == ev@);
            }
            match crate::clock::parse_time(ev.time.as_str()) {
                Some((h, mi)) => {
                    let d = crate::clock::resolve_event_date(now, h, mi);
                    let essence = crate::identity::make_essence(
                        ev.address.as_str(),
                        ev.event_type.as_str(),
                    );
                    let guid = match m.get(essence.as_str()) {
                        Some(g) => g.clone(),
                        None => crate::identity::synthesize_guid(
                            &d,
                            h,
                            mi,
                            rec.jurisdiction_code.as_str(),
                        ),
                    };
                    let title = {
                        let mut t = ev.event_type.clone();
                        t.append("（");
                        t.append(rec.source.name.as_str());
                        t.append("）");
                        t
                    };
                    proof {
                        assert(events_view(out@).len() == out@.len());
                        assert(out@.len() == base + record_events_resolved(
                            rv.events.subrange(0, j as int),
                            rv.source,
                            rv.jurisdiction_code,
                            *now,
                            m@,
                            base,
                        ).len());
                    }
                    let item = ResolvedEvent {
                        date: d,
                        hour: h,
                        minute: mi,
                        title,
                        description: ev.address.clone(),
                        link: rec.source.url.clone(),
                        jurisdiction_code: rec.jurisdiction_code.clone(),
                        essence,
                        guid,
                        ord: out.len(),
                    };
                    proof {
                        assert(item@ =~= resolve_one(
                            ev@,
                            rv.source,
                            rv.jurisdiction_code,
                            *now,
                            m@,
                            base + record_events_resolved(
                                rv.events.subrange(0, j as int),
                                rv.source,
                                rv.jurisdiction_code,
                                *now,
                                m@,
                                base,
                            ).len(),
                        ));
                    }
                    let ghost prev = out@;
                    out.push(item);
                    proof {
                        assert(out@.drop_last() =~= prev);
                        assert(out@.last() == item);
                        assert forall|q: int|
                            0 <= q < prev.len() implies events_view(out@)[q] == events_view(
                            prev,
                        )[q] by {
                            assert(out@[q] == prev[q]);
                        }
                        assert(events_view(out@) =~= events_view(prev).push(item@));
                        assert(events_view(out@) =~= done + record_events_resolved(
                            rv.events.subrange(0, j + 1),
                            rv.source,
                            rv.jurisdiction_code,
                            *now,
                            m@,
                            base,
                        ));
                    }
                },
                None => {
                    proof {
                        assert(events_view(out@) =~= done + record_events_resolved(
                            rv.events.subrange(0, j + 1),
                            rv.source,
                            rv.jurisdiction_code,
                            *now,
                            m@,
                            base,
                        ));
                    }
                },
            }
            j = j + 1;
        }
        proof {
            assert(rv.events.subrange(0, rv.events.len() as int) =~= rv.events);
            assert(records_view(records@).subrange(0, i + 1).drop_last() =~= records_view(
                records@,
            ).subrange(0, i as int));
            assert(records_view(records@).subrange(0, i + 1).last() == rv);
            assert(events_view(out@) =~= resolved_events_of(
                records_view(records@).subrange(0, i + 1),
                *now,
                m@,
            ));
        }
        i = i + 1;
    }
    proof {
        assert(records_view(records@).subrange(0, records@.len() as int) =~= records_view(
            records@,
        ));
    }
    out
}

// ---------------------------------------------------------------------
// Ordering.
// ---------------------------------------------------------------------

/// The enumeration order of records within one run: by jurisdiction
/// code, ties keeping their given order.
pub open spec fn record_le() -> spec_fn(AuthorityRecordView, AuthorityRecordView) -> bool {
    |a: AuthorityRecordView, b: AuthorityRecordView| lex_le(
        a.jurisdiction_code,
        b.jurisdiction_code,
    )
}

/// The feed's chronological order: by resolved date-time, ties broken
/// by the enumeration number.
pub open spec fn event_le() -> spec_fn(ResolvedEventView, ResolvedEventView) -> bool {
    |a: ResolvedEventView, b: ResolvedEventView| {
        let ka = datetime_key_of(a.date, a.hour, a.minute);
        let kb = datetime_key_of(b.date, b.hour, b.minute);
        ka < kb || (ka == kb && a.ord <= b.ord)
    }
}

pub proof fn lemma_record_le_ordering()
    ensures
        vstd::relations::transitive(record_le()),
        vstd::relations::strongly_connected(record_le()),
{
    assert forall|x: AuthorityRecordView, y: AuthorityRecordView| #[trigger]
        record_le()(x, y) || #[trigger] record_le()(y, x) by {
        crate::records::lemma_lex_le_total(x.jurisdiction_code, y.jurisdiction_code);
    }
    assert forall|x: AuthorityRecordView, y: AuthorityRecordView, z: AuthorityRecordView|
        #[trigger] record_le()(x, y) && #[trigger] record_le()(y, z) implies record_le()(
        x,
        z,
    ) by {
        crate::records::lemma_lex_le_trans(
            x.jurisdiction_code,
            y.jurisdiction_code,
            z.jurisdiction_code,
        );
    }
}

pub proof fn lemma_event_le_ordering()
    ensures
        vstd::relations::transitive(event_le()),
        vstd::relations::strongly_connected(event_le()),
{
}

/// Puts the records into the run's fixed enumeration order: sorted by
/// jurisdiction code, records of equal code keeping their given order.
pub fn sort_records(records: Vec<AuthorityRecord>) -> (r: Vec<AuthorityRecord>)
    ensures
        records_view(r@) == insertion_sort(records_view(records@), record_le()),
{
    let ghost orig = records_view(records@);
    let mut input = records;
    let mut out: Vec<AuthorityRecord> = Vec::new();
    proof {
        assert(records_view(input@) =~= orig.skip(0));
        assert(orig.subrange(0, 0) =~= Seq::<AuthorityRecordView>::empty());
        assert(records_view(out@) =~= insertion_sort(orig.subrange(0, 0), record_le()));
    }
    while input.len() > 0
        invariant
            input@.len() <= orig.len(),
            records_view(input@) == orig.skip(orig.len() - input@.len()),
            records_view(out@) == insertion_sort(
                orig.subrange(0, orig.len() - input@.len()),
                record_le(),
            ),
        decreases input@.len(),
    {
        let ghost k = orig.len() - input@.len();
        let ghost in_before = input@;
        let e = input.remove(0);
        proof {
            assert(records_view(in_before)[0] == e@);
            assert(e@ == orig[k]);
            assert forall|q: int| 0 <= q < input@.len() implies records_view(input@)[q] == orig[k + 1 + q] by {
                assert(input@[q] == in_before[q + 1]);
                assert(records_view(in_before)[q + 1] == in_before[q + 1]@);
            }
            assert(records_view(input@) =~= orig.skip(k + 1));
        }
        let ghost w = records_view(out@);
        let mut p: usize = 0;
        while p < out.len() && crate::records::str_lex_le(
            out[p].jurisdiction_code.as_str(),
            e.jurisdiction_code.as_str(),
        )
            invariant
                p <= out@.len(),
                w == records_view(out@),
                forall|q: int| 0 <= q < p ==> record_le()(#[trigger] w[q], e@),
            decreases out@.len() - p,
        {
            p = p + 1;
        }
        proof {
            lemma_insert_ordered_at(w, e@, record_le(), p as int);
        }
        out.insert(p, e);
        proof {
            assert(records_view(out@) =~= w.subrange(0, p as int) + seq![e@] + w.subrange(
                p as int,
                w.len() as int,
            ));
            assert(records_view(out@) == insert_ordered(w, e@, record_le()));
            assert(orig.subrange(0, k + 1).drop_last() =~= orig.subrange(0, k));
            assert(orig.subrange(0, k + 1).last() == orig[k]);
            lemma_insertion_sort_push(orig.subrange(0, k), orig[k], record_le());
            assert(orig.subrange(0, k).push(orig[k]) =~= orig.subrange(0, k + 1));
            assert(records_view(out@) == insertion_sort(orig.subrange(0, k + 1), record_le()));
        }
    }
    proof {
        assert(orig.subrange(0, orig.len() as int) =~= orig);
    }
    out
}

fn event_le_exec(a: &ResolvedEvent, b: &ResolvedEvent) -> (r: bool)
    ensures
        r == event_le()(a@, b@),
{
    let ka = crate::clock::datetime_key(&a.date, a.hour, a.minute);
    let kb = crate::clock::datetime_key(&b.date, b.hour, b.minute);
    ka < kb || (ka == kb && a.ord <= b.ord)
}

/// Sorts the resolved events chronologically, ties broken by the
/// enumeration order.
pub fn sort_events(events: Vec<ResolvedEvent>) -> (r: Vec<ResolvedEvent>)
    ensures
        events_view(r@) == insertion_sort(events_view(events@), event_le()),
{
    let ghost orig = events_view(events@);
    let mut input = events;
    let mut out: Vec<ResolvedEvent> = Vec::new();
    proof {
        assert(events_view(input@) =~= orig.skip(0));
        assert(orig.subrange(0, 0) =~= Seq::<ResolvedEventView>::empty());
        assert(events_view(out@) =~= insertion_sort(orig.subrange(0, 0), event_le()));
    }
    while input.len() > 0
        invariant
            input@.len() <= orig.len(),
            events_view(input@) == orig.skip(orig.len() - input@.len()),
            events_view(out@) == insertion_sort(
                orig.subrange(0, orig.len() - input@.len()),
                event_le(),
            ),
        decreases input@.len(),
    {
        let ghost k = orig.len() - input@.len();
        let ghost in_before = input@;
        let e = input.remove(0);
        proof {
            assert(events_view(in_before)[0] == e@);
            assert(e@ == orig[k]);
            assert forall|q: int| 0 <= q < input@.len() implies events_view(input@)[q] == orig[k + 1 + q] by {
                assert(input@[q] == in_before[q + 1]);
                assert(events_view(in_before)[q + 1] == in_before[q + 1]@);
            }
            assert(events_view(input@) =~= orig.skip(k + 1));
        }
        let ghost w = events_view(out@);
        let mut p: usize = 0;
        while p < out.len() && event_le_exec(&out[p], &e)
            invariant
                p <= out@.len(),
                w == events_view(out@),
                forall|q: int| 0 <= q < p ==> event_le()(#[trigger] w[q], e@),
            decreases out@.len() - p,
        {
            p = p + 1;
        }
        proof {
            lemma_insert_ordered_at(w, e@, event_le(), p as int);
        }
        out.insert(p, e);
        proof {
            assert(events_view(out@) =~= w.subrange(0, p as int) + seq![e@] + w.subrange(
                p as int,
                w.len() as int,
            ));
            assert(events_view(out@) == insert_ordered(w, e@, event_le()));
            assert(orig.subrange(0, k + 1).drop_last() =~= orig.subrange(0, k));
            assert(orig.subrange(0, k + 1).last() == orig[k]);
            lemma_insertion_sort_push(orig.subrange(0, k), orig[k], event_le());
            assert(orig.subrange(0, k).push(orig[k]) =~= orig.subrange(0, k + 1));
            assert(events_view(out@) == insertion_sort(orig.subrange(0, k + 1), event_le()));
        }
    }
    proof {
        assert(orig.subrange(0, orig.len() as int) =~= orig);
    }
    out
}

// ---------------------------------------------------------------------
// Collision resolution.
// ---------------------------------------------------------------------

/// How many of the first `i` events carry the identity token `g`.
pub open spec fn count_guid(s: Seq<ResolvedEventView>, g: Seq<char>, i: int) -> int
    decreases i,
{
    if i <= 0 {
        0
    } else {
        count_guid(s, g, i - 1) + (if s[i - 1].guid == g {
            1int
        } else {
            0int
        })
    }
}

pub open spec fn with_guid(v: ResolvedEventView, g: Seq<char>) -> ResolvedEventView {
    ResolvedEventView { guid: g, ..v }
}

/// An identity token with its collision suffix: a hyphen and the
/// occurrence number, zero-padded to two digits.
pub open spec fn suffixed_guid_of(base: Seq<char>, c: int) -> Seq<char> {
    base + seq!['-'] + pad2_min_of(c)
}

/// Identity collisions resolved in order: within the sorted sequence,
/// the first event of each token keeps the bare token and every later
/// one gets the next sequence suffix.
pub open spec fn suffixed_events_of(s: Seq<ResolvedEventView>) -> Seq<ResolvedEventView> {
    Seq::new(
        s.len(),
        |i: int|
            {
                let c = count_guid(s, s[i].guid, i);
                if c == 0 {
                    s[i]
                } else {
                    with_guid(s[i], suffixed_guid_of(s[i].guid, c))
                }
            },
    )
}

/// Appends sequence suffixes to the second and later occurrences of
/// each identity token within the run.
pub fn resolve_collisions(events: Vec<ResolvedEvent>) -> (r: Vec<ResolvedEvent>)
    ensures
        events_view(r@) == suffixed_events_of(events_view(events@)),
{
    let ghost orig = events_view(events@);
    let mut out: Vec<ResolvedEvent> = Vec::new();
    let mut i: usize = 0;
    while i < events.len()
        invariant
            i <= events@.len(),
            orig == events_view(events@),
            out@.len() == i,
            forall|q: int| 0 <= q < i ==> events_view(out@)[q] == suffixed_events_of(orig)[q],
        decreases events@.len() - i,
    {
        let mut c: usize = 0;
        let mut j: usize = 0;
        while j < i
            invariant
                j <= i < events@.len(),
                orig == events_view(events@),
                orig.len() == events@.len(),
                c <= j,
                c as int == count_guid(orig, orig[i as int].guid, j as int),
            decreases i - j,
        {
            if crate::text::str_eq(events[j].guid.as_str(), events[i].guid.as_str()) {
                c = c + 1;
            }
            j = j + 1;
        }
        let item = if c == 0 {
            events[i].clone()
        } else {
            let mut e = events[i].clone();
            let mut g = e.guid;
            push_char(&mut g, '-');
            let suffix = crate::text::pad2_min(c as u64);
            g.append(suffix.as_str());
            e.guid = g;
            e
        };
        proof {
            assert(item@ =~= suffixed_events_of(orig)[i as int]);
        }
        out.push(item);
        i = i + 1;
    }
    proof {
        assert(events_view(out@) =~= suffixed_events_of(orig));
    }
    out
}

// ---------------------------------------------------------------------
// Rendering.
// ---------------------------------------------------------------------

/// A resolved date-time rendered as a local ISO-8601 timestamp, to the
/// minute.
pub open spec fn iso_of(d: Date, hour: int, minute: int) -> Seq<char> {
    pad4_of(d.year as int) + seq!['-'] + pad2_of(d.month as int) + seq!['-'] + pad2_of(
        d.day as int,
    ) + seq!['T'] + pad2_of(hour) + seq![':'] + pad2_of(minute)
}

/// Renders a date with a time of day as a local ISO-8601 timestamp.
pub fn render_iso(d: &Date, hour: u8, minute: u8) -> (r: String)
    requires
        d.year < 10000,
        d.month < 100,
        d.day < 100,
        hour < 100,
        minute < 100,
    ensures
        r@ == iso_of(*d, hour as int, minute as int),
{
    let mut s = crate::text::pad4(d.year);
    push_char(&mut s, '-');
    let part = crate::text::pad2(d.month);
    s.append(part.as_str());
    push_char(&mut s, '-');
    let part = crate::text::pad2(d.day);
    s.append(part.as_str());
    push_char(&mut s, 'T');
    let part = crate::text::pad2(hour);
    s.append(part.as_str());
    push_char(&mut s, ':');
    let part = crate::text::pad2(minute);
    s.append(part.as_str());
    proof {
        assert(s@ =~= iso_of(*d, hour as int, minute as int));
    }
    s
}

/// The seven lines of one rendered feed item. This layout, one tag per
/// line, is the parsing contract the identity recovery of the next run
/// depends on.
pub open spec fn item_lines_of(v: ResolvedEventView) -> Seq<Seq<char>> {
    seq![
        "<item>"@,
        "<title>"@ + v.title + "</title>"@,
        "<description>"@ + v.description + "</description>"@,
        "<link>"@ + v.link + "</link>"@,
        "<pubDate>"@ + iso_of(v.date, v.hour, v.minute) + "</pubDate>"@,
        "<guid isPermaLink=\"false\">"@ + v.guid + "</guid>"@,
        "</item>"@,
    ]
}

/// The item lines of the whole feed, in order.
pub open spec fn items_lines_of(s: Seq<ResolvedEventView>) -> Seq<Seq<char>>
    decreases s.len(),
{
    if s.len() == 0 {
        Seq::empty()
    } else {
        items_lines_of(s.drop_last()) + item_lines_of(s.last())
    }
}

/// The document-level lines before the items: fixed metadata and the
/// run's "last built" timestamp.
pub open spec fn head_lines_of(now: DateTime) -> Seq<Seq<char>> {
    seq![
        "<?xml version=\"1.0\" encoding=\"UTF-8\"?>"@,
        "<rss version=\"2.0\"><channel>"@,
        "<title>日本の緊急車両出動フィード（非公式） by oageo</title>"@,
        "<link>https://github.com/oageo/emergency-dispatch</link>"@,
        "<description>全国の緊急車両出動情報を統一されたフォーマットで提供する</description>"@,
        "<lastBuildDate>"@ + iso_of(now.date, now.hour as int, now.minute as int)
            + "</lastBuildDate>"@,
        "<generator>emergency-dispatch</generator>"@,
        "<language>ja</language>"@,
    ]
}

pub open spec fn tail_lines() -> Seq<Seq<char>> {
    seq!["</channel></rss>"@]
}

/// All lines of the rendered feed document.
pub open spec fn feed_lines_of(items: Seq<ResolvedEventView>, now: DateTime) -> Seq<Seq<char>> {
    head_lines_of(now) + items_lines_of(items) + tail_lines()
}

/// A resolved event fit to render: its date-time fields lie in the
/// calendar's ranges.
pub open spec fn event_renderable(v: ResolvedEventView) -> bool {
    &&& v.date.wf()
    &&& 0 <= v.hour < 24
    &&& 0 <= v.minute < 60
}

/// Renders the feed document: the fixed channel metadata, the run's
/// timestamp, and one item per resolved event, one tag per line.
pub fn render_feed(items: &Vec<ResolvedEvent>, now: &DateTime) -> (r: String)
    requires
        now.wf(),
        forall|i: int| 0 <= i < items@.len() ==> event_renderable(#[trigger] items@[i]@),
    ensures
        r@ == join_lines_of(feed_lines_of(events_view(items@), *now)),
{
    let mut lines: Vec<String> = Vec::new();
    lines.push(String::from_str("<?xml version=\"1.0\" encoding=\"UTF-8\"?>"));
    lines.push(String::from_str("<rss version=\"2.0\"><channel>"));
    lines.push(String::from_str("<title>日本の緊急車両出動フィード（非公式） by oageo</title>"));
    lines.push(String::from_str("<link>https://github.com/oageo/emergency-dispatch</link>"));
    lines.push(String::from_str(
        "<description>全国の緊急車両出動情報を統一されたフォーマットで提供する</description>",
    ));
    let stamp = {
        let mut s = String::from_str("<lastBuildDate>");
        let t = render_iso(&now.date, now.hour, now.minute);
        s.append(t.as_str());
        s.append("</lastBuildDate>");
        s
    };
    lines.push(stamp);
    lines.push(String::from_str("<generator>emergency-dispatch</generator>"));
    lines.push(String::from_str("<language>ja</language>"));
    proof {
        assert(crate::text::seq_views(lines@) =~= head_lines_of(*now));
    }
    let mut i: usize = 0;
    while i < items.len()
        invariant
            i <= items@.len(),
            now.wf(),
            forall|q: int| 0 <= q < items@.len() ==> event_renderable(#[trigger] items@[q]@),
            crate::text::seq_views(lines@) == head_lines_of(*now) + items_lines_of(
                events_view(items@.subrange(0, i as int)),
            ),
        decreases items@.len() - i,
    {
        let e = &items[i];
        let ghost lines_before = lines@;
        proof {
            assert(event_renderable(items@[i as int]@));
        }
        lines.push(String::from_str("<item>"));
        let line = {
            let mut s = String::from_str("<title>");
            s.append(e.title.as_str());
            s.append("</title>");
            s
        };
        lines.push(line);
        let line = {
            let mut s = String::from_str("<description>");
            s.append(e.description.as_str());
            s.append("</description>");
            s
        };
        lines.push(line);
        let line = {
            let mut s = String::from_str("<link>");
            s.append(e.link.as_str());
            s.append("</link>");
            s
        };
        lines.push(line);
        let line = {
            let mut s = String::from_str("<pubDate>");
            let t = render_iso(&e.date, e.hour, e.minute);
            s.append(t.as_str());
            s.append("</pubDate>");
            s
        };
        lines.push(line);
        let line = {
            let mut s = String::from_str("<guid isPermaLink=\"false\">");
            s.append(e.guid.as_str());
            s.append("</guid>");
            s
        };
        lines.push(line);
        lines.push(String::from_str("</item>"));
        proof {
            assert(events_view(items@.subrange(0, i + 1)).drop_last() =~= events_view(
                items@.subrange(0, i as int),
            ));
            assert(events_view(items@.subrange(0, i + 1)).last() == items@[i as int]@);
            assert forall|q: int|
                0 <= q < lines_before.len() implies crate::text::seq_views(lines@)[q]
                == crate::text::seq_views(lines_before)[q] by {
                assert(lines@[q] == lines_before[q]);
            }
            assert(crate::text::seq_views(lines@) =~= crate::text::seq_views(lines_before)
                + item_lines_of(items@[i as int]@));
            assert(crate::text::seq_views(lines@) =~= head_lines_of(*now) + items_lines_of(
                events_view(items@.subrange(0, i + 1)),
            ));
        }
        i = i + 1;
    }
    lines.push(String::from_str("</channel></rss>"));
    proof {
        assert(items@.subrange(0, items@.len() as int) =~= items@);
        assert(crate::text::seq_views(lines@) =~= feed_lines_of(events_view(items@), *now));
    }
    crate::text::join_lines(&lines)
}

// ---------------------------------------------------------------------
// The whole pipeline.
// ---------------------------------------------------------------------

/// The identity map a run starts from: recovered from the previous
/// document where one could be read, empty otherwise.
pub open spec fn prior_map_of(prior: Option<Seq<char>>) -> Map<Seq<char>, Seq<char>> {
    match prior {
        Some(content) => recovered_map_of(content),
        None => Map::empty(),
    }
}

/// The feed's items for given records, recovered identities and clock:
/// records in enumeration order, events resolved and numbered, sorted
/// chronologically, collisions suffixed.
pub open spec fn feed_items_of(
    rs: Seq<AuthorityRecordView>,
    m: Map<Seq<char>, Seq<char>>,
    now: DateTime,
) -> Seq<ResolvedEventView> {
    suffixed_events_of(
        insertion_sort(
            resolved_events_of(insertion_sort(rs, record_le()), now, m),
            event_le(),
        ),
    )
}

/// The full rendered feed document for given records, prior document
/// and clock.
pub open spec fn feed_text_of(
    rs: Seq<AuthorityRecordView>,
    prior: Option<Seq<char>>,
    now: DateTime,
) -> Seq<char> {
    join_lines_of(feed_lines_of(feed_items_of(rs, prior_map_of(prior), now), now))
}

/// Every event the pipeline hands to the renderer lies within the
/// calendar's ranges.
pub proof fn lemma_resolved_events_renderable(
    rs: Seq<AuthorityRecordView>,
    now: DateTime,
    m: Map<Seq<char>, Seq<char>>,
)
    requires
        now.wf(),
    ensures
        forall|i: int|
            0 <= i < resolved_events_of(rs, now, m).len() ==> event_renderable(
                #[trigger] resolved_events_of(rs, now, m)[i],
            ),
    decreases rs.len(),
{
    if rs.len() > 0 {
        let r = resolved_events_of(rs, now, m);
        let init = resolved_events_of(rs.drop_last(), now, m);
        let tail = record_events_resolved(
            rs.last().events,
            rs.last().source,
            rs.last().jurisdiction_code,
            now,
            m,
            init.len() as int,
        );
        lemma_resolved_events_renderable(rs.drop_last(), now, m);
        lemma_record_events_renderable(
            rs.last().events,
            rs.last().source,
            rs.last().jurisdiction_code,
            now,
            m,
            init.len() as int,
        );
        assert forall|i: int| 0 <= i < r.len() implies event_renderable(#[trigger] r[i]) by {
            if i < init.len() {
                assert(r[i] == init[i]);
                assert(event_renderable(init[i]));
            } else {
                assert(r[i] == tail[i - init.len()]);
                assert(event_renderable(tail[i - init.len()]));
            }
        }
    }
}

proof fn lemma_record_events_renderable(
    events: Seq<RawEventView>,
    src: SourceDescriptorView,
    jis: Seq<char>,
    now: DateTime,
    m: Map<Seq<char>, Seq<char>>,
    base: int,
)
    requires
        now.wf(),
    ensures
        forall|i: int|
            0 <= i < record_events_resolved(events, src, jis, now, m, base).len()
                ==> event_renderable(
                #[trigger] record_events_resolved(events, src, jis, now, m, base)[i],
            ),
    decreases events.len(),
{
    if events.len() > 0 {
        let r = record_events_resolved(events, src, jis, now, m, base);
        let init = record_events_resolved(events.drop_last(), src, jis, now, m, base);
        lemma_record_events_renderable(events.drop_last(), src, jis, now, m, base);
        assert forall|i: int| 0 <= i < r.len() implies event_renderable(#[trigger] r[i]) by {
            if i < init.len() {
                assert(r[i] == init[i]);
                assert(event_renderable(init[i]));
            } else {
                assert(valid_hhmm(events.last().time));
                crate::clock::lemma_hhmm_bounds(events.last().time);
                lemma_prev_day_wf(now.date);
                assert(r[i] == resolve_one(events.last(), src, jis, now, m, base + init.len()));
            }
        }
    }
}

/// The previous calendar day of a well-formed date is well formed.
pub proof fn lemma_prev_day_wf(d: Date)
    requires
        d.wf(),
    ensures
        crate::clock::prev_day_of(d).wf(),
{
}

/// Sorting and suffixing keep every event renderable.
pub proof fn lemma_feed_items_renderable(
    rs: Seq<AuthorityRecordView>,
    m: Map<Seq<char>, Seq<char>>,
    now: DateTime,
)
    requires
        now.wf(),
    ensures
        forall|i: int|
            0 <= i < feed_items_of(rs, m, now).len() ==> event_renderable(
                #[trigger] feed_items_of(rs, m, now)[i],
            ),
{
    broadcast use vstd::seq_lib::group_to_multiset_ensures;

    let enumerated = insertion_sort(rs, record_le());
    let resolved = resolved_events_of(enumerated, now, m);
    let sorted = insertion_sort(resolved, event_le());
    lemma_resolved_events_renderable(enumerated, now, m);
    lemma_event_le_ordering();
    crate::order::lemma_insertion_sort_ensures(resolved, event_le());
    assert forall|i: int| 0 <= i < sorted.len() implies event_renderable(
        #[trigger] sorted[i],
    ) by {
        assert(sorted.to_multiset().count(sorted[i]) > 0);
        assert(resolved.to_multiset().count(sorted[i]) > 0);
        assert(resolved.contains(sorted[i]));
        let j = choose|j: int| 0 <= j < resolved.len() && resolved[j] == sorted[i];
        assert(event_renderable(resolved[j]));
    }
    assert forall|i: int| 0 <= i < feed_items_of(rs, m, now).len() implies event_renderable(
        #[trigger] feed_items_of(rs, m, now)[i],
    ) by {
        assert(event_renderable(sorted[i]));
    }
}

/// Synthesizes the feed document of one run: loads the identity map
/// from the previous document (or starts empty), resolves, orders and
/// deduplicates every event of the given records, and renders the
/// result.
pub fn generate_rss_feed(records: Vec<AuthorityRecord>, prior_feed: Option<&str>, now: &DateTime)
    -> (r: String)
    requires
        now.wf(),
    ensures
        r@ == feed_text_of(
            records_view(records@),
            match prior_feed {
                Some(content) => Some(content@),
                None => None,
            },
            *now,
        ),
{
    let map = match prior_feed {
        Some(content) => crate::identity::load_previous_guid_mapping(content),
        None => GuidMap::new(),
    };
    let enumerated = sort_records(records);
    let resolved = resolve_events(&enumerated, now, &map);
    let sorted = sort_events(resolved);
    let items = resolve_collisions(sorted);
    proof {
        lemma_feed_items_renderable(records_view(records@), map@, *now);
        assert(events_view(items@) == feed_items_of(records_view(records@), map@, *now));
        assert forall|i: int| 0 <= i < items@.len() implies event_renderable(
            #[trigger] items@[i]@,
        ) by {
            assert(events_view(items@)[i] == items@[i]@);
            assert(event_renderable(feed_items_of(records_view(records@), map@, *now)[i]));
        }
    }
    render_feed(&items, now)
}

} // verus!

use vstd::string::StrSliceExecFns;
use vstd::string::StringExecFns;
