//! The engine's cross-cutting guarantees, each stated and proved over
//! the specification functions that the executable pipeline is verified
//! against: chronological ordering of the output, collision suffixing,
//! idempotence of rendering up to the build timestamp, and the survival
//! of incident identities across runs through the rendered document.
use vstd::prelude::*;

use crate::clock::{datetime_key_of, rolls_back, DateTime};
use crate::feed::{count_guid, event_le, feed_items_of, feed_lines_of, feed_text_of,
    head_lines_of, item_lines_of, items_lines_of, iso_of, prior_map_of, record_events_resolved,
    record_le, resolve_one, resolved_events_of, suffixed_events_of, suffixed_guid_of, tail_lines,
    ResolvedEventView};
use crate::identity::{essence_of, first_close, item_pair_of, last_payload, pairs_map_of,
    recovered_map_of, recovered_pairs_of, trimmed_lines_of};
use crate::order::{insertion_sort, lemma_insertion_sort_ensures};
use crate::records::{AuthorityRecordView, RawEventView, SourceDescriptorView};
use crate::text::{find_char, is_ws, join_lines_of, trim_of};
use vstd::relations::sorted_by;

verus! {

/// The order key of a feed item: its resolved date-time, flattened.
pub open spec fn event_key(v: ResolvedEventView) -> int {
    datetime_key_of(v.date, v.hour, v.minute)
}

/// The resolved date-time of a feed item, for stating its order.
pub open spec fn item_datetime(v: ResolvedEventView) -> crate::clock::DateTime {
    crate::clock::DateTime {
        date: v.date,
        hour: v.hour as u8,
        minute: v.minute as u8,
    }
}

/// Chronological ordering: the items of the synthesized feed are
/// non-decreasing in their resolved date-time — both in the flattened
/// order key and, field by field, in the calendar itself.
pub proof fn lemma_feed_chronological(
    rs: Seq<AuthorityRecordView>,
    m: Map<Seq<char>, Seq<char>>,
    now: DateTime,
)
    requires
        now.wf(),
    ensures
        forall|i: int, j: int|
            0 <= i < j < feed_items_of(rs, m, now).len() ==> event_key(
                #[trigger] feed_items_of(rs, m, now)[i],
            ) <= event_key(#[trigger] feed_items_of(rs, m, now)[j]),
        forall|i: int, j: int|
            0 <= i < j < feed_items_of(rs, m, now).len() ==> !crate::clock::dt_lex_lt(
                item_datetime(#[trigger] feed_items_of(rs, m, now)[j]),
                item_datetime(#[trigger] feed_items_of(rs, m, now)[i]),
            ),
{
    let resolved = resolved_events_of(insertion_sort(rs, record_le()), now, m);
    let sorted = insertion_sort(resolved, event_le());
    let items = feed_items_of(rs, m, now);
    crate::feed::lemma_event_le_ordering();
    lemma_insertion_sort_ensures(resolved, event_le());
    crate::feed::lemma_feed_items_renderable(rs, m, now);
    assert forall|i: int, j: int| 0 <= i < j < items.len() implies event_key(
        #[trigger] items[i],
    ) <= event_key(#[trigger] items[j]) && !crate::clock::dt_lex_lt(
        item_datetime(items[j]),
        item_datetime(items[i]),
    ) by {
        assert(sorted_by(sorted, event_le()));
        assert(event_le()(sorted[i], sorted[j]));
        assert(items[i].date == sorted[i].date && items[i].hour == sorted[i].hour
            && items[i].minute == sorted[i].minute);
        assert(items[j].date == sorted[j].date && items[j].hour == sorted[j].hour
            && items[j].minute == sorted[j].minute);
        assert(crate::feed::event_renderable(items[i]) && crate::feed::event_renderable(
            items[j],
        ));
        crate::clock::lemma_datetime_key_orders(item_datetime(items[i]), item_datetime(items[j]));
    }
}

proof fn lemma_count_guid_none(s: Seq<ResolvedEventView>, g: Seq<char>, i: int)
    requires
        forall|q: int| 0 <= q < i ==> (#[trigger] s[q]).guid != g,
    ensures
        count_guid(s, g, i) == 0,
    decreases i,
{
    if i > 0 {
        lemma_count_guid_none(s, g, i - 1);
    }
}

proof fn lemma_count_guid_stable(s: Seq<ResolvedEventView>, g: Seq<char>, a: int, b: int)
    requires
        0 <= a <= b,
        forall|q: int| a <= q < b ==> (#[trigger] s[q]).guid != g,
    ensures
        count_guid(s, g, b) == count_guid(s, g, a),
    decreases b - a,
{
    if a < b {
        lemma_count_guid_stable(s, g, a, b - 1);
    }
}

/// Collision suffixing: when exactly two events of a run share a base
/// identity token, the earlier-sorted one keeps the bare token and the
/// later one gets the first sequence suffix.
pub proof fn lemma_collision_suffixing(s: Seq<ResolvedEventView>, i: int, j: int)
    requires
        0 <= i < j < s.len(),
        s[i].guid == s[j].guid,
        forall|q: int| 0 <= q < j && q != i ==> (#[trigger] s[q]).guid != s[j].guid,
    ensures
        suffixed_events_of(s)[i] == s[i],
        suffixed_events_of(s)[j].guid == s[j].guid + seq!['-', '0', '1'],
{
    let g = s[j].guid;
    assert(forall|q: int| 0 <= q < i ==> (#[trigger] s[q]).guid != g);
    lemma_count_guid_none(s, s[i].guid, i);
    assert(suffixed_events_of(s)[i] == s[i]);
    lemma_count_guid_none(s, g, i);
    assert(count_guid(s, g, i + 1) == 1);
    lemma_count_guid_stable(s, g, i + 1, j);
    assert(count_guid(s, g, j) == 1);
    assert(suffixed_events_of(s)[j].guid == suffixed_guid_of(g, 1));
    assert(crate::text::pad2_min_of(1) =~= seq!['0', '1']);
    assert(suffixed_guid_of(g, 1) =~= g + seq!['-', '0', '1']);
}

proof fn lemma_resolve_agree_record(
    events: Seq<RawEventView>,
    src: SourceDescriptorView,
    jis: Seq<char>,
    n1: DateTime,
    n2: DateTime,
    m: Map<Seq<char>, Seq<char>>,
    base: int,
)
    requires
        n1.wf(),
        n2.wf(),
        n1.date == n2.date,
        forall|h: int, mi: int|
            #![trigger rolls_back(n1, h, mi)]
            0 <= h < 24 && 0 <= mi < 60 ==> rolls_back(n1, h, mi) == rolls_back(n2, h, mi),
    ensures
        record_events_resolved(events, src, jis, n1, m, base) == record_events_resolved(
            events,
            src,
            jis,
            n2,
            m,
            base,
        ),
    decreases events.len(),
{
    if events.len() > 0 {
        lemma_resolve_agree_record(events.drop_last(), src, jis, n1, n2, m, base);
        if crate::clock::valid_hhmm(events.last().time) {
            let h = crate::clock::hhmm_hour(events.last().time);
            let mi = crate::clock::hhmm_minute(events.last().time);
            crate::clock::lemma_hhmm_bounds(events.last().time);
            assert(rolls_back(n1, h, mi) == rolls_back(n2, h, mi));
            let init = record_events_resolved(events.drop_last(), src, jis, n1, m, base);
            assert(resolve_one(events.last(), src, jis, n1, m, base + init.len()) =~= resolve_one(
                events.last(),
                src,
                jis,
                n2,
                m,
                base + init.len(),
            ));
            assert(record_events_resolved(events, src, jis, n1, m, base) =~= record_events_resolved(
                events,
                src,
                jis,
                n2,
                m,
                base,
            ));
        }
    }
}

proof fn lemma_resolve_agree(
    rs: Seq<AuthorityRecordView>,
    n1: DateTime,
    n2: DateTime,
    m: Map<Seq<char>, Seq<char>>,
)
    requires
        n1.wf(),
        n2.wf(),
        n1.date == n2.date,
        forall|h: int, mi: int|
            #![trigger rolls_back(n1, h, mi)]
            0 <= h < 24 && 0 <= mi < 60 ==> rolls_back(n1, h, mi) == rolls_back(n2, h, mi),
    ensures
        resolved_events_of(rs, n1, m) == resolved_events_of(rs, n2, m),
    decreases rs.len(),
{
    if rs.len() > 0 {
        lemma_resolve_agree(rs.drop_last(), n1, n2, m);
        lemma_resolve_agree_record(
            rs.last().events,
            rs.last().source,
            rs.last().jurisdiction_code,
            n1,
            n2,
            m,
            resolved_events_of(rs.drop_last(), n1, m).len() as int,
        );
    }
}

/// Idempotence of rendering: two syntheses over the same records and
/// the same prior document, run at instants that resolve every time of
/// day alike, render documents that are byte-identical except for the
/// "last built" timestamp line.
pub proof fn lemma_render_idempotent(
    rs: Seq<AuthorityRecordView>,
    prior: Option<Seq<char>>,
    n1: DateTime,
    n2: DateTime,
)
    requires
        n1.wf(),
        n2.wf(),
        n1.date == n2.date,
        forall|h: int, mi: int|
            #![trigger rolls_back(n1, h, mi)]
            0 <= h < 24 && 0 <= mi < 60 ==> rolls_back(n1, h, mi) == rolls_back(n2, h, mi),
    ensures
        feed_lines_of(feed_items_of(rs, prior_map_of(prior), n1), n1).len() == feed_lines_of(
            feed_items_of(rs, prior_map_of(prior), n2),
            n2,
        ).len(),
        forall|q: int|
            0 <= q < feed_lines_of(feed_items_of(rs, prior_map_of(prior), n1), n1).len() && q != 5
                ==> #[trigger] feed_lines_of(feed_items_of(rs, prior_map_of(prior), n1), n1)[q]
                == feed_lines_of(feed_items_of(rs, prior_map_of(prior), n2), n2)[q],
        feed_lines_of(feed_items_of(rs, prior_map_of(prior), n1), n1)[5] == "<lastBuildDate>"@
            + iso_of(n1.date, n1.hour as int, n1.minute as int) + "</lastBuildDate>"@,
        feed_lines_of(feed_items_of(rs, prior_map_of(prior), n2), n2)[5] == "<lastBuildDate>"@
            + iso_of(n2.date, n2.hour as int, n2.minute as int) + "</lastBuildDate>"@,
        feed_text_of(rs, prior, n1) == join_lines_of(
            feed_lines_of(feed_items_of(rs, prior_map_of(prior), n1), n1),
        ),
        feed_text_of(rs, prior, n2) == join_lines_of(
            feed_lines_of(feed_items_of(rs, prior_map_of(prior), n2), n2),
        ),
{
    let m = prior_map_of(prior);
    lemma_resolve_agree(insertion_sort(rs, record_le()), n1, n2, m);
    assert(feed_items_of(rs, m, n1) == feed_items_of(rs, m, n2));
    let l1 = feed_lines_of(feed_items_of(rs, m, n1), n1);
    let l2 = feed_lines_of(feed_items_of(rs, m, n2), n2);
    assert(head_lines_of(n1).len() == 8 && head_lines_of(n2).len() == 8);
    assert forall|q: int| 0 <= q < l1.len() && q != 5 implies #[trigger] l1[q] == l2[q] by {
        if q < 8 {
            assert(head_lines_of(n1)[q] == head_lines_of(n2)[q]);
        }
    }
}

// ---------------------------------------------------------------------
// Identity survival across runs: the renderer and the recovery parser
// are a matched pair.
// ---------------------------------------------------------------------

/// A feed item whose textual fields survive the round trip through the
/// rendered document: no embedded newline in any rendered field, a
/// non-empty description and identity token, and a title whose first
/// full-width opening bracket ends the event type that the essence key
/// repeats.
pub open spec fn recoverable(v: ResolvedEventView) -> bool {
    &&& find_char(v.title, '\n') == -1
    &&& find_char(v.description, '\n') == -1
    &&& find_char(v.link, '\n') == -1
    &&& find_char(v.guid, '\n') == -1
    &&& v.description.len() > 0
    &&& v.guid.len() > 0
    &&& find_char(v.title, '（') >= 0
    &&& v.essence == v.description + seq!['-'] + v.title.subrange(0, find_char(v.title, '（'))
}

/// What one rendered item contributes to the recovered identity map.
pub open spec fn pair_of(v: ResolvedEventView) -> (Seq<char>, Seq<char>) {
    (v.essence, v.guid)
}

/// A line that the recovery parser reads back exactly as the renderer
/// wrote it: free of newlines and of surrounding whitespace.
pub open spec fn clean_line(l: Seq<char>) -> bool {
    find_char(l, '\n') == -1 && trim_of(l) == l
}

proof fn lemma_trim_id(s: Seq<char>)
    requires
        s.len() > 0,
        !is_ws(s[0]),
        !is_ws(s.last()),
    ensures
        trim_of(s) == s,
{
}

proof fn lemma_clean_from_parts(l: Seq<char>)
    requires
        l.len() > 0,
        !is_ws(l[0]),
        !is_ws(l.last()),
        forall|q: int| 0 <= q < l.len() ==> l[q] != '\n',
    ensures
        clean_line(l),
{
    crate::text::lemma_find_char_none(l, '\n');
    lemma_trim_id(l);
}

proof fn lemma_iso_clean(d: crate::clock::Date, h: int, mi: int)
    ensures
        iso_of(d, h, mi).len() == 16,
        forall|q: int| 0 <= q < 16 ==> !is_ws(#[trigger] iso_of(d, h, mi)[q]),
{
    assert(forall|x: int| !is_ws(#[trigger] crate::text::dec_digit(x)));
    let y = d.year as int;
    let mo = d.month as int;
    let dd = d.day as int;
    let s = iso_of(d, h, mi);
    assert(s =~= seq![
        crate::text::dec_digit(y / 1000),
        crate::text::dec_digit((y / 100) % 10),
        crate::text::dec_digit((y / 10) % 10),
        crate::text::dec_digit(y % 10),
        '-',
        crate::text::dec_digit(mo / 10),
        crate::text::dec_digit(mo % 10),
        '-',
        crate::text::dec_digit(dd / 10),
        crate::text::dec_digit(dd % 10),
        'T',
        crate::text::dec_digit(h / 10),
        crate::text::dec_digit(h % 10),
        ':',
        crate::text::dec_digit(mi / 10),
        crate::text::dec_digit(mi % 10),
    ]);
}

proof fn lemma_item_lines_clean(v: ResolvedEventView)
    requires
        recoverable(v),
    ensures
        forall|q: int| 0 <= q < 7 ==> clean_line(#[trigger] item_lines_of(v)[q]),
{
    reveal_strlit("<item>");
    reveal_strlit("</item>");
    reveal_strlit("<title>");
    reveal_strlit("</title>");
    reveal_strlit("<description>");
    reveal_strlit("</description>");
    reveal_strlit("<link>");
    reveal_strlit("</link>");
    reveal_strlit("<pubDate>");
    reveal_strlit("</pubDate>");
    reveal_strlit("<guid isPermaLink=\"false\">");
    reveal_strlit("</guid>");
    crate::text::lemma_find_char_no_hit(v.title, '\n');
    crate::text::lemma_find_char_no_hit(v.description, '\n');
    crate::text::lemma_find_char_no_hit(v.link, '\n');
    crate::text::lemma_find_char_no_hit(v.guid, '\n');
    lemma_iso_clean(v.date, v.hour, v.minute);
    assert forall|q: int| 0 <= q < 7 implies clean_line(#[trigger] item_lines_of(v)[q]) by {
        let l = item_lines_of(v)[q];
        if q == 0 {
            lemma_clean_from_parts(l);
        } else if q == 1 {
            assert(forall|p: int| 0 <= p < l.len() ==> l[p] != '\n');
            lemma_clean_from_parts(l);
        } else if q == 2 {
            assert(forall|p: int| 0 <= p < l.len() ==> l[p] != '\n');
            lemma_clean_from_parts(l);
        } else if q == 3 {
            assert(forall|p: int| 0 <= p < l.len() ==> l[p] != '\n');
            lemma_clean_from_parts(l);
        } else if q == 4 {
            assert(forall|p: int| 0 <= p < l.len() ==> l[p] != '\n');
            lemma_clean_from_parts(l);
        } else if q == 5 {
            assert(forall|p: int| 0 <= p < l.len() ==> l[p] != '\n');
            lemma_clean_from_parts(l);
        } else {
            lemma_clean_from_parts(l);
        }
    }
}

proof fn lemma_head_lines_clean(now: DateTime)
    ensures
        forall|q: int| 0 <= q < 8 ==> clean_line(#[trigger] head_lines_of(now)[q]),
        forall|q: int| 0 <= q < 8 ==> #[trigger] head_lines_of(now)[q] != "<item>"@,
{
    reveal_strlit("<item>");
    reveal_strlit("<?xml version=\"1.0\" encoding=\"UTF-8\"?>");
    reveal_strlit("<rss version=\"2.0\"><channel>");
    reveal_strlit("<title>日本の緊急車両出動フィード（非公式） by oageo</title>");
    reveal_strlit("<link>https://github.com/oageo/emergency-dispatch</link>");
    reveal_strlit("<description>全国の緊急車両出動情報を統一されたフォーマットで提供する</description>");
    reveal_strlit("<lastBuildDate>");
    reveal_strlit("</lastBuildDate>");
    reveal_strlit("<generator>emergency-dispatch</generator>");
    reveal_strlit("<language>ja</language>");
    lemma_iso_clean(now.date, now.hour as int, now.minute as int);
    assert forall|q: int| 0 <= q < 8 implies clean_line(#[trigger] head_lines_of(now)[q])
        && head_lines_of(now)[q] != "<item>"@ by {
        let l = head_lines_of(now)[q];
        if q == 5 {
            assert(forall|p: int| 0 <= p < l.len() ==> l[p] != '\n');
            lemma_clean_from_parts(l);
            assert(l.len() != "<item>"@.len());
        } else {
            assert(forall|p: int| 0 <= p < l.len() ==> l[p] != '\n');
            lemma_clean_from_parts(l);
            assert(l.len() != "<item>"@.len());
        }
    }
}

proof fn lemma_tail_clean()
    ensures
        clean_line(tail_lines()[0]),
        tail_lines()[0] != "<item>"@,
{
    reveal_strlit("<item>");
    reveal_strlit("</channel></rss>");
    lemma_clean_from_parts(tail_lines()[0]);
    assert(tail_lines()[0].len() != "<item>"@.len());
}

proof fn lemma_items_lines_front(s: Seq<ResolvedEventView>)
    requires
        s.len() > 0,
    ensures
        items_lines_of(s) == item_lines_of(s[0]) + items_lines_of(s.drop_first()),
    decreases s.len(),
{
    if s.len() == 1 {
        assert(s.drop_last() =~= Seq::<ResolvedEventView>::empty());
        assert(s.drop_first() =~= Seq::<ResolvedEventView>::empty());
        assert(items_lines_of(s) =~= item_lines_of(s[0]) + items_lines_of(s.drop_first()));
    } else {
        lemma_items_lines_front(s.drop_last());
        assert(s.drop_last()[0] == s[0]);
        assert(s.drop_last().drop_first() =~= s.drop_first().drop_last());
        assert(s.drop_first().last() == s.last());
        assert(items_lines_of(s.drop_first()) == items_lines_of(s.drop_first().drop_last())
            + item_lines_of(s.drop_first().last()));
        assert(items_lines_of(s) =~= item_lines_of(s[0]) + items_lines_of(s.drop_first()));
    }
}

proof fn lemma_items_lines_clean(items: Seq<ResolvedEventView>)
    requires
        forall|i: int| 0 <= i < items.len() ==> recoverable(#[trigger] items[i]),
    ensures
        items_lines_of(items).len() == 7 * items.len(),
        forall|q: int|
            0 <= q < items_lines_of(items).len() ==> clean_line(#[trigger] items_lines_of(items)[q]),
    decreases items.len(),
{
    if items.len() > 0 {
        lemma_items_lines_clean(items.drop_last());
        lemma_item_lines_clean(items.last());
        let w = items_lines_of(items);
        let init = items_lines_of(items.drop_last());
        assert forall|q: int| 0 <= q < w.len() implies clean_line(#[trigger] w[q]) by {
            if q < init.len() {
                assert(w[q] == init[q]);
                assert(clean_line(init[q]));
            } else {
                assert(w[q] == item_lines_of(items.last())[q - init.len()]);
                assert(clean_line(item_lines_of(items.last())[q - init.len()]));
            }
        }
    }
}

proof fn lemma_pairs_skip_prefix(ls: Seq<Seq<char>>, n0: int)
    requires
        0 <= n0 <= ls.len(),
        forall|q: int| 0 <= q < n0 ==> #[trigger] ls[q] != "<item>"@,
    ensures
        recovered_pairs_of(ls) == recovered_pairs_of(ls.skip(n0)),
    decreases n0,
{
    if n0 == 0 {
        assert(ls.skip(0) =~= ls);
    } else {
        assert(ls[0] != "<item>"@);
        assert(recovered_pairs_of(ls) == recovered_pairs_of(ls.skip(1)));
        assert forall|q: int| 0 <= q < n0 - 1 implies #[trigger] ls.skip(1)[q] != "<item>"@ by {
            assert(ls.skip(1)[q] == ls[q + 1]);
        }
        lemma_pairs_skip_prefix(ls.skip(1), n0 - 1);
        assert(ls.skip(1).skip(n0 - 1) =~= ls.skip(n0));
    }
}

proof fn lemma_item_block_parses(v: ResolvedEventView)
    requires
        recoverable(v),
    ensures
        item_pair_of(item_lines_of(v).subrange(1, 6)) == Some(pair_of(v)),
{
    reveal_strlit("<title>");
    reveal_strlit("</title>");
    reveal_strlit("<description>");
    reveal_strlit("</description>");
    reveal_strlit("<link>");
    reveal_strlit("</link>");
    reveal_strlit("<pubDate>");
    reveal_strlit("</pubDate>");
    reveal_strlit("<guid isPermaLink=\"false\">");
    reveal_strlit("</guid>");
    let lt = item_lines_of(v)[1];
    let ld = item_lines_of(v)[2];
    let ll = item_lines_of(v)[3];
    let lp = item_lines_of(v)[4];
    let lg = item_lines_of(v)[5];
    let block = item_lines_of(v).subrange(1, 6);
    assert(block =~= seq![lt, ld, ll, lp, lg]);
    lemma_iso_clean(v.date, v.hour, v.minute);

    // which line carries which tag is decided by the second character
    assert(lt[1] == 't' && ld[1] == 'd' && ll[1] == 'l' && lp[1] == 'p' && lg[1] == 'g');

    // the title field: the last four lines do not carry the title tag
    let tpre = "<title>"@;
    let tsuf = "</title>"@;
    assert(!crate::text::is_prefix_of(tpre, lg)) by {
        assert(tpre[1] == 't' && lg[1] == 'g');
    }
    assert(!crate::text::is_prefix_of(tpre, lp)) by {
        assert(tpre[1] == 't' && lp[1] == 'p');
    }
    assert(!crate::text::is_prefix_of(tpre, ll)) by {
        assert(tpre[1] == 't' && ll[1] == 'l');
    }
    assert(!crate::text::is_prefix_of(tpre, ld)) by {
        assert(tpre[1] == 't' && ld[1] == 'd');
    }
    assert(crate::text::is_prefix_of(tpre, lt));
    assert(crate::text::is_suffix_of(tsuf, lt)) by {
        assert(forall|i: int|
            0 <= i < 8 ==> lt[lt.len() - 8 + i] == #[trigger] tsuf[i]);
    }
    assert(crate::text::has_affixes(lt, tpre, tsuf));
    assert(crate::text::affix_payload_of(lt, tpre, tsuf) =~= v.title);
    assert(seq![lt, ld, ll, lp].drop_last() =~= seq![lt, ld, ll]);
    assert(seq![lt, ld, ll].drop_last() =~= seq![lt, ld]);
    assert(seq![lt, ld].drop_last() =~= seq![lt]);
    assert(seq![lt].drop_last() =~= Seq::<Seq<char>>::empty());
    assert(block.drop_last() =~= seq![lt, ld, ll, lp]);
    assert(last_payload(block, tpre, tsuf) == last_payload(seq![lt, ld, ll, lp], tpre, tsuf));
    assert(last_payload(seq![lt, ld, ll, lp], tpre, tsuf) == last_payload(
        seq![lt, ld, ll],
        tpre,
        tsuf,
    ));
    assert(last_payload(seq![lt, ld, ll], tpre, tsuf) == last_payload(seq![lt, ld], tpre, tsuf));
    assert(last_payload(seq![lt, ld], tpre, tsuf) == last_payload(seq![lt], tpre, tsuf));
    assert(last_payload(seq![lt], tpre, tsuf) == Some(crate::text::affix_payload_of(
        lt,
        tpre,
        tsuf,
    )));
    assert(last_payload(block, tpre, tsuf) == Some(v.title));

    // the description field
    let dpre = "<description>"@;
    let dsuf = "</description>"@;
    assert(!crate::text::is_prefix_of(dpre, lg)) by {
        assert(dpre[1] == 'd' && lg[1] == 'g');
    }
    assert(!crate::text::is_prefix_of(dpre, lp)) by {
        assert(dpre[1] == 'd' && lp[1] == 'p');
    }
    assert(!crate::text::is_prefix_of(dpre, ll)) by {
        assert(dpre[1] == 'd' && ll[1] == 'l');
    }
    assert(crate::text::is_prefix_of(dpre, ld));
    assert(crate::text::is_suffix_of(dsuf, ld)) by {
        assert(forall|i: int|
            0 <= i < 14 ==> ld[ld.len() - 14 + i] == #[trigger] dsuf[i]);
    }
    assert(crate::text::has_affixes(ld, dpre, dsuf));
    assert(crate::text::affix_payload_of(ld, dpre, dsuf) =~= v.description);
    assert(last_payload(block, dpre, dsuf) == last_payload(seq![lt, ld, ll, lp], dpre, dsuf));
    assert(last_payload(seq![lt, ld, ll, lp], dpre, dsuf) == last_payload(
        seq![lt, ld, ll],
        dpre,
        dsuf,
    ));
    assert(last_payload(seq![lt, ld, ll], dpre, dsuf) == last_payload(seq![lt, ld], dpre, dsuf));
    assert(last_payload(seq![lt, ld], dpre, dsuf) == Some(crate::text::affix_payload_of(
        ld,
        dpre,
        dsuf,
    )));
    assert(last_payload(block, dpre, dsuf) == Some(v.description));

    // the identity field sits on the last line of the block
    let gpre = "<guid isPermaLink=\"false\">"@;
    let gsuf = "</guid>"@;
    assert(crate::text::is_prefix_of(gpre, lg));
    assert(crate::text::is_suffix_of(gsuf, lg)) by {
        assert(forall|i: int|
            0 <= i < 7 ==> lg[lg.len() - 7 + i] == #[trigger] gsuf[i]);
    }
    assert(crate::text::has_affixes(lg, gpre, gsuf));
    assert(crate::text::affix_payload_of(lg, gpre, gsuf) =~= v.guid);
    assert(last_payload(block, gpre, gsuf) == Some(v.guid));

    crate::text::lemma_find_char_hit(v.title, '（');
    assert(v.title.len() > 0);
    assert(item_pair_of(block) == Some(pair_of(v)));
}

proof fn lemma_items_region(items: Seq<ResolvedEventView>)
    requires
        forall|i: int| 0 <= i < items.len() ==> recoverable(#[trigger] items[i]),
    ensures
        recovered_pairs_of(items_lines_of(items) + tail_lines()) == items.map_values(
            |v: ResolvedEventView| pair_of(v),
        ),
    decreases items.len(),
{
    reveal_strlit("<item>");
    reveal_strlit("</item>");
    reveal_strlit("</channel></rss>");
    reveal_strlit("<title>");
    reveal_strlit("<description>");
    reveal_strlit("<link>");
    reveal_strlit("<pubDate>");
    reveal_strlit("<guid isPermaLink=\"false\">");
    let ls = items_lines_of(items) + tail_lines();
    if items.len() == 0 {
        assert(ls =~= tail_lines());
        assert(ls[0] != "<item>"@) by {
            assert(ls[0].len() != "<item>"@.len());
        }
        assert(ls.skip(1) =~= Seq::<Seq<char>>::empty());
        assert(recovered_pairs_of(ls.skip(1)) == Seq::<(Seq<char>, Seq<char>)>::empty());
        assert(recovered_pairs_of(ls) =~= items.map_values(|v: ResolvedEventView| pair_of(v)));
    } else {
        let v = items[0];
        assert(recoverable(v));
        lemma_items_lines_front(items);
        let rest = items_lines_of(items.drop_first()) + tail_lines();
        assert(ls =~= item_lines_of(v) + rest);
        assert(ls.len() == 7 + rest.len() && rest.len() >= 1);
        assert(forall|q: int| 0 <= q < 7 ==> #[trigger] ls[q] == item_lines_of(v)[q]);
        assert(ls[0] == "<item>"@);
        // the item block closes at its seventh line
        assert(crate::text::is_prefix_of("</item>"@, ls[6]));
        assert forall|q: int| 1 <= q < 6 implies !crate::text::is_prefix_of(
            "</item>"@,
            #[trigger] ls[q],
        ) by {
            assert(ls[q] == item_lines_of(v)[q]);
            if q == 1 {
                assert(ls[q][1] == 't' && "</item>"@[1] == '/');
            } else if q == 2 {
                assert(ls[q][1] == 'd' && "</item>"@[1] == '/');
            } else if q == 3 {
                assert(ls[q][1] == 'l' && "</item>"@[1] == '/');
            } else if q == 4 {
                assert(ls[q][1] == 'p' && "</item>"@[1] == '/');
            } else {
                assert(ls[q][1] == 'g' && "</item>"@[1] == '/');
            }
        }
        crate::identity::lemma_first_close_at(ls, 1, 6);
        assert(first_close(ls, 1) == 6);
        assert(ls.subrange(1, 6) =~= item_lines_of(v).subrange(1, 6));
        lemma_item_block_parses(v);
        assert(item_pair_of(ls.subrange(1, 6)) == Some(pair_of(v)));
        assert(ls.skip(7) =~= rest);
        assert forall|i: int| 0 <= i < items.drop_first().len() implies recoverable(
            #[trigger] items.drop_first()[i],
        ) by {
            assert(items.drop_first()[i] == items[i + 1]);
        }
        lemma_items_region(items.drop_first());
        assert(recovered_pairs_of(ls) =~= seq![pair_of(v)] + items.drop_first().map_values(
            |w: ResolvedEventView| pair_of(w),
        ));
        assert(items.map_values(|w: ResolvedEventView| pair_of(w)) =~= seq![pair_of(v)]
            + items.drop_first().map_values(|w: ResolvedEventView| pair_of(w)));
    }
}

/// The matched pair, composed: re-parsing a rendered feed document
/// recovers exactly the essence-to-identity pairs of its items, in
/// order.
pub proof fn lemma_feed_recovery(items: Seq<ResolvedEventView>, now: DateTime)
    requires
        forall|i: int| 0 <= i < items.len() ==> recoverable(#[trigger] items[i]),
    ensures
        recovered_map_of(join_lines_of(feed_lines_of(items, now))) == pairs_map_of(
            items.map_values(|v: ResolvedEventView| pair_of(v)),
        ),
{
    let l = feed_lines_of(items, now);
    let head = head_lines_of(now);
    let mid = items_lines_of(items);
    lemma_head_lines_clean(now);
    lemma_items_lines_clean(items);
    lemma_tail_clean();
    assert forall|q: int| 0 <= q < l.len() implies find_char(#[trigger] l[q], '\n') == -1
        && trim_of(l[q]) == l[q] by {
        if q < 8 {
            assert(l[q] == head[q]);
            assert(clean_line(head[q]));
        } else if q < 8 + mid.len() {
            assert(l[q] == mid[q - 8]);
            assert(clean_line(mid[q - 8]));
        } else {
            assert(l[q] == tail_lines()[q - 8 - mid.len()]);
            assert(clean_line(tail_lines()[0]));
        }
    }
    crate::text::lemma_lines_of_join(l);
    assert(trimmed_lines_of(join_lines_of(l)) =~= l);
    assert forall|q: int| 0 <= q < 8 implies #[trigger] l[q] != "<item>"@ by {
        assert(l[q] == head[q]);
    }
    lemma_pairs_skip_prefix(l, 8);
    assert(l.skip(8) =~= mid + tail_lines());
    lemma_items_region(items);
}

/// Identity stability across runs: an event republished in a later run
/// with the same essence — the same address and type, whatever its
/// reported time — is assigned the very identity token that the
/// previous run's document published for that essence.
pub proof fn lemma_identity_survives(
    prior_items: Seq<ResolvedEventView>,
    prior_now: DateTime,
    k: int,
    e: RawEventView,
    src: SourceDescriptorView,
    jis: Seq<char>,
    now: DateTime,
    ord: int,
)
    requires
        forall|i: int| 0 <= i < prior_items.len() ==> recoverable(#[trigger] prior_items[i]),
        0 <= k < prior_items.len(),
        prior_items[k].essence == essence_of(e.address, e.event_type),
        forall|q: int|
            k < q < prior_items.len() ==> (#[trigger] prior_items[q]).essence
                != prior_items[k].essence,
    ensures
        resolve_one(
            e,
            src,
            jis,
            now,
            recovered_map_of(join_lines_of(feed_lines_of(prior_items, prior_now))),
            ord,
        ).guid == prior_items[k].guid,
{
    lemma_feed_recovery(prior_items, prior_now);
    let pairs = prior_items.map_values(|v: ResolvedEventView| pair_of(v));
    assert(pairs[k].0 == prior_items[k].essence);
    assert forall|q: int| k < q < pairs.len() implies #[trigger] pairs[q].0 != pairs[k].0 by {
        assert(pairs[q].0 == prior_items[q].essence);
    }
    crate::identity::lemma_pairs_map_last(pairs, k);
}

/// The jurisdiction index is the codes of the given records, sorted.
pub proof fn lemma_jurisdiction_index_sorted(rs: Seq<AuthorityRecordView>)
    ensures
        sorted_by(crate::records::jurisdiction_index_of(rs), crate::records::code_le()),
        crate::records::jurisdiction_index_of(rs).to_multiset() =~= rs.map_values(
            |r: AuthorityRecordView| r.jurisdiction_code,
        ).to_multiset(),
{
    crate::records::lemma_code_le_ordering();
    lemma_insertion_sort_ensures(
        rs.map_values(|r: AuthorityRecordView| r.jurisdiction_code),
        crate::records::code_le(),
    );
}

// ---------------------------------------------------------------------
// The engine's own items are recoverable.
// ---------------------------------------------------------------------

/// A raw event whose identity survives the round trip through the
/// rendered document: no embedded newline, a type without the
/// full-width opening bracket the title layout reserves, and a
/// non-empty address.
pub open spec fn clean_event(e: RawEventView) -> bool {
    &&& find_char(e.event_type, '\n') == -1
    &&& find_char(e.event_type, '（') == -1
    &&& find_char(e.address, '\n') == -1
    &&& e.address.len() > 0
}

/// A record whose rendered lines keep the document's line structure.
pub open spec fn clean_record(r: AuthorityRecordView) -> bool {
    &&& find_char(r.source.name, '\n') == -1
    &&& find_char(r.source.url, '\n') == -1
    &&& find_char(r.jurisdiction_code, '\n') == -1
    &&& forall|i: int| 0 <= i < r.events.len() ==> clean_event(#[trigger] r.events[i])
}

/// A recovered identity map whose tokens can be republished verbatim.
pub open spec fn clean_map(m: Map<Seq<char>, Seq<char>>) -> bool {
    forall|k: Seq<char>|
        m.contains_key(k) ==> (#[trigger] m[k]).len() > 0 && find_char(m[k], '\n') == -1
}

proof fn lemma_resolve_one_recoverable(
    e: RawEventView,
    src: SourceDescriptorView,
    jis: Seq<char>,
    now: DateTime,
    m: Map<Seq<char>, Seq<char>>,
    ord: int,
)
    requires
        clean_event(e),
        find_char(src.name, '\n') == -1,
        find_char(src.url, '\n') == -1,
        find_char(jis, '\n') == -1,
        clean_map(m),
    ensures
        recoverable(resolve_one(e, src, jis, now, m, ord)),
{
    reveal_strlit("（");
    reveal_strlit("）");
    let v = resolve_one(e, src, jis, now, m, ord);
    let et = e.event_type;
    crate::text::lemma_find_char_no_hit(et, '\n');
    crate::text::lemma_find_char_no_hit(et, '（');
    crate::text::lemma_find_char_no_hit(e.address, '\n');
    crate::text::lemma_find_char_no_hit(src.name, '\n');
    crate::text::lemma_find_char_no_hit(src.url, '\n');
    crate::text::lemma_find_char_no_hit(jis, '\n');

    // the title: type, full-width bracket, name, closing bracket
    assert(v.title == et + "（"@ + src.name + "）"@);
    assert forall|q: int| 0 <= q < v.title.len() implies v.title[q] != '\n' by {}
    crate::text::lemma_find_char_none(v.title, '\n');
    assert(v.title[et.len() as int] == '（');
    assert(forall|q: int| 0 <= q < et.len() ==> v.title[q] == et[q]);
    crate::text::lemma_find_char_at(v.title, '（', et.len() as int);
    assert(v.title.subrange(0, et.len() as int) =~= et);
    assert(v.essence =~= v.description + seq!['-'] + v.title.subrange(
        0,
        find_char(v.title, '（'),
    ));

    crate::text::lemma_find_char_none(v.description, '\n');
    crate::text::lemma_find_char_none(v.link, '\n');

    // the identity token: recovered tokens are clean by hypothesis,
    // synthesized ones are digits, a hyphen and the jurisdiction code
    let ess = crate::identity::essence_of(e.address, e.event_type);
    if m.contains_key(ess) {
        crate::text::lemma_find_char_no_hit(m[ess], '\n');
        crate::text::lemma_find_char_none(v.guid, '\n');
    } else {
        let d = crate::clock::resolved_date_of(
            now,
            crate::clock::hhmm_hour(e.time),
            crate::clock::hhmm_minute(e.time),
        );
        crate::text::lemma_dec_str_plain(d.year as int);
        assert(forall|x: int| !crate::text::is_ws(#[trigger] crate::text::dec_digit(x)));
        assert forall|q: int| 0 <= q < v.guid.len() implies v.guid[q] != '\n' by {}
        crate::text::lemma_find_char_none(v.guid, '\n');
        assert(v.guid.len() > 0);
    }
}

proof fn lemma_record_events_recoverable(
    events: Seq<RawEventView>,
    src: SourceDescriptorView,
    jis: Seq<char>,
    now: DateTime,
    m: Map<Seq<char>, Seq<char>>,
    base: int,
)
    requires
        forall|i: int| 0 <= i < events.len() ==> clean_event(#[trigger] events[i]),
        find_char(src.name, '\n') == -1,
        find_char(src.url, '\n') == -1,
        find_char(jis, '\n') == -1,
        clean_map(m),
    ensures
        forall|i: int|
            0 <= i < record_events_resolved(events, src, jis, now, m, base).len() ==> recoverable(
                #[trigger] record_events_resolved(events, src, jis, now, m, base)[i],
            ),
    decreases events.len(),
{
    if events.len() > 0 {
        let r = record_events_resolved(events, src, jis, now, m, base);
        let init = record_events_resolved(events.drop_last(), src, jis, now, m, base);
        lemma_record_events_recoverable(events.drop_last(), src, jis, now, m, base);
        assert forall|i: int| 0 <= i < r.len() implies recoverable(#[trigger] r[i]) by {
            if i < init.len() {
                assert(r[i] == init[i]);
                assert(recoverable(init[i]));
            } else {
                assert(clean_event(events.last()));
                lemma_resolve_one_recoverable(events.last(), src, jis, now, m, base + init.len());
                assert(r[i] == resolve_one(events.last(), src, jis, now, m, base + init.len()));
            }
        }
    }
}

proof fn lemma_resolved_events_recoverable(
    rs: Seq<AuthorityRecordView>,
    now: DateTime,
    m: Map<Seq<char>, Seq<char>>,
)
    requires
        forall|i: int| 0 <= i < rs.len() ==> clean_record(#[trigger] rs[i]),
        clean_map(m),
    ensures
        forall|i: int|
            0 <= i < resolved_events_of(rs, now, m).len() ==> recoverable(
                #[trigger] resolved_events_of(rs, now, m)[i],
            ),
    decreases rs.len(),
{
    if rs.len() > 0 {
        let r = resolved_events_of(rs, now, m);
        let init = resolved_events_of(rs.drop_last(), now, m);
        let tail = record_events_resolved(
            rs.last().events,
            rs.last().source,
            rs.last().jurisdiction_code,
            now,
            m,
            init.len() as int,
        );
        lemma_resolved_events_recoverable(rs.drop_last(), now, m);
        assert(clean_record(rs.last()));
        lemma_record_events_recoverable(
            rs.last().events,
            rs.last().source,
            rs.last().jurisdiction_code,
            now,
            m,
            init.len() as int,
        );
        assert forall|i: int| 0 <= i < r.len() implies recoverable(#[trigger] r[i]) by {
            if i < init.len() {
                assert(r[i] == init[i]);
                assert(recoverable(init[i]));
            } else {
                assert(r[i] == tail[i - init.len()]);
                assert(recoverable(tail[i - init.len()]));
            }
        }
    }
}

/// The engine's own output is recoverable: with clean raw inputs and a
/// clean recovered map, every item of the synthesized feed survives the
/// round trip into the next run.
pub proof fn lemma_feed_items_recoverable(
    rs: Seq<AuthorityRecordView>,
    m: Map<Seq<char>, Seq<char>>,
    now: DateTime,
)
    requires
        forall|i: int| 0 <= i < rs.len() ==> clean_record(#[trigger] rs[i]),
        clean_map(m),
    ensures
        forall|i: int|
            0 <= i < feed_items_of(rs, m, now).len() ==> recoverable(
                #[trigger] feed_items_of(rs, m, now)[i],
            ),
{
    broadcast use vstd::seq_lib::group_to_multiset_ensures;

    let enumerated = insertion_sort(rs, record_le());
    let resolved = resolved_events_of(enumerated, now, m);
    let sorted = insertion_sort(resolved, event_le());
    let items = feed_items_of(rs, m, now);

    crate::records::lemma_code_le_ordering();
    crate::feed::lemma_record_le_ordering();
    crate::order::lemma_insertion_sort_ensures(rs, record_le());
    assert forall|i: int| 0 <= i < enumerated.len() implies clean_record(
        #[trigger] enumerated[i],
    ) by {
        assert(enumerated.to_multiset().count(enumerated[i]) > 0);
        assert(rs.to_multiset().count(enumerated[i]) > 0);
        assert(rs.contains(enumerated[i]));
        let j = choose|j: int| 0 <= j < rs.len() && rs[j] == enumerated[i];
        assert(clean_record(rs[j]));
    }
    lemma_resolved_events_recoverable(enumerated, now, m);
    crate::feed::lemma_event_le_ordering();
    crate::order::lemma_insertion_sort_ensures(resolved, event_le());
    assert forall|i: int| 0 <= i < sorted.len() implies recoverable(#[trigger] sorted[i]) by {
        assert(sorted.to_multiset().count(sorted[i]) > 0);
        assert(resolved.to_multiset().count(sorted[i]) > 0);
        assert(resolved.contains(sorted[i]));
        let j = choose|j: int| 0 <= j < resolved.len() && resolved[j] == sorted[i];
        assert(recoverable(resolved[j]));
    }
    assert forall|i: int| 0 <= i < items.len() implies recoverable(#[trigger] items[i]) by {
        let c = count_guid(sorted, sorted[i].guid, i);
        assert(recoverable(sorted[i]));
        if c != 0 {
            let v = sorted[i];
            let w = items[i];
            assert(w == crate::feed::with_guid(v, crate::feed::suffixed_guid_of(v.guid, c)));
            crate::text::lemma_pad2_min_plain(c);
            crate::text::lemma_find_char_no_hit(v.guid, '\n');
            assert forall|q: int| 0 <= q < w.guid.len() implies w.guid[q] != '\n' by {}
            crate::text::lemma_find_char_none(w.guid, '\n');
            assert(w.guid.len() > 0);
            assert(recoverable(w));
        }
    }
}

proof fn lemma_record_events_not_future(
    events: Seq<RawEventView>,
    src: SourceDescriptorView,
    jis: Seq<char>,
    now: DateTime,
    m: Map<Seq<char>, Seq<char>>,
    base: int,
)
    requires
        now.wf(),
        now.date != (crate::clock::Date { year: 1, month: 1, day: 1 }),
    ensures
        forall|i: int|
            0 <= i < record_events_resolved(events, src, jis, now, m, base).len() ==> event_key(
                #[trigger] record_events_resolved(events, src, jis, now, m, base)[i],
            ) <= datetime_key_of(now.date, now.hour as int, now.minute as int)
                + crate::clock::GRACE_MINUTES,
    decreases events.len(),
{
    if events.len() > 0 {
        let r = record_events_resolved(events, src, jis, now, m, base);
        let init = record_events_resolved(events.drop_last(), src, jis, now, m, base);
        lemma_record_events_not_future(events.drop_last(), src, jis, now, m, base);
        assert forall|i: int| 0 <= i < r.len() implies event_key(#[trigger] r[i])
            <= datetime_key_of(now.date, now.hour as int, now.minute as int)
            + crate::clock::GRACE_MINUTES by {
            if i < init.len() {
                assert(r[i] == init[i]);
            } else {
                let e = events.last();
                let h = crate::clock::hhmm_hour(e.time);
                let mi = crate::clock::hhmm_minute(e.time);
                crate::clock::lemma_hhmm_bounds(e.time);
                let v = resolve_one(e, src, jis, now, m, base + init.len());
                assert(r[i] == v);
                if rolls_back(now, h, mi) {
                    crate::feed::lemma_prev_day_wf(now.date);
                    let a = crate::clock::DateTime {
                        date: crate::clock::prev_day_of(now.date),
                        hour: h as u8,
                        minute: mi as u8,
                    };
                    crate::clock::lemma_datetime_key_orders(a, now);
                    assert(crate::clock::dt_lex_lt(a, now));
                }
            }
        }
    }
}

proof fn lemma_resolved_events_not_future(
    rs: Seq<AuthorityRecordView>,
    now: DateTime,
    m: Map<Seq<char>, Seq<char>>,
)
    requires
        now.wf(),
        now.date != (crate::clock::Date { year: 1, month: 1, day: 1 }),
    ensures
        forall|i: int|
            0 <= i < resolved_events_of(rs, now, m).len() ==> event_key(
                #[trigger] resolved_events_of(rs, now, m)[i],
            ) <= datetime_key_of(now.date, now.hour as int, now.minute as int)
                + crate::clock::GRACE_MINUTES,
    decreases rs.len(),
{
    if rs.len() > 0 {
        let r = resolved_events_of(rs, now, m);
        let init = resolved_events_of(rs.drop_last(), now, m);
        let tail = record_events_resolved(
            rs.last().events,
            rs.last().source,
            rs.last().jurisdiction_code,
            now,
            m,
            init.len() as int,
        );
        lemma_resolved_events_not_future(rs.drop_last(), now, m);
        lemma_record_events_not_future(
            rs.last().events,
            rs.last().source,
            rs.last().jurisdiction_code,
            now,
            m,
            init.len() as int,
        );
        assert forall|i: int| 0 <= i < r.len() implies event_key(#[trigger] r[i])
            <= datetime_key_of(now.date, now.hour as int, now.minute as int)
            + crate::clock::GRACE_MINUTES by {
            if i < init.len() {
                assert(r[i] == init[i]);
            } else {
                assert(r[i] == tail[i - init.len()]);
            }
        }
    }
}

/// No future-dated events: every item of the synthesized feed occurred
/// at or before the run's clock plus the grace window. The one day this
/// cannot hold is the calendar's very first, which has no predecessor
/// for the midnight rollback to land on.
pub proof fn lemma_no_future_events(
    rs: Seq<AuthorityRecordView>,
    m: Map<Seq<char>, Seq<char>>,
    now: DateTime,
)
    requires
        now.wf(),
        now.date != (crate::clock::Date { year: 1, month: 1, day: 1 }),
    ensures
        forall|i: int|
            0 <= i < feed_items_of(rs, m, now).len() ==> event_key(
                #[trigger] feed_items_of(rs, m, now)[i],
            ) <= datetime_key_of(now.date, now.hour as int, now.minute as int)
                + crate::clock::GRACE_MINUTES,
{
    broadcast use vstd::seq_lib::group_to_multiset_ensures;

    let enumerated = insertion_sort(rs, record_le());
    let resolved = resolved_events_of(enumerated, now, m);
    let sorted = insertion_sort(resolved, event_le());
    let items = feed_items_of(rs, m, now);
    lemma_resolved_events_not_future(enumerated, now, m);
    crate::feed::lemma_event_le_ordering();
    lemma_insertion_sort_ensures(resolved, event_le());
    assert forall|i: int| 0 <= i < items.len() implies event_key(#[trigger] items[i])
        <= datetime_key_of(now.date, now.hour as int, now.minute as int)
        + crate::clock::GRACE_MINUTES by {
        assert(sorted.to_multiset().count(sorted[i]) > 0);
        assert(resolved.to_multiset().count(sorted[i]) > 0);
        assert(resolved.contains(sorted[i]));
        let j = choose|j: int| 0 <= j < resolved.len() && resolved[j] == sorted[i];
        assert(event_key(resolved[j]) <= datetime_key_of(
            now.date,
            now.hour as int,
            now.minute as int,
        ) + crate::clock::GRACE_MINUTES);
        assert(items[i].date == sorted[i].date && items[i].hour == sorted[i].hour
            && items[i].minute == sorted[i].minute);
    }
}

/// Identity stability between two whole runs of the engine: when the
/// document run one rendered is handed to run two as its prior feed, an
/// event of run two whose essence matches the last item of that essence
/// in run one is assigned that item's identity token verbatim — whatever
/// its newly reported time.
pub proof fn lemma_identity_stable_between_runs(
    rs1: Seq<AuthorityRecordView>,
    m1: Map<Seq<char>, Seq<char>>,
    n1: DateTime,
    k: int,
    e: RawEventView,
    src: SourceDescriptorView,
    jis: Seq<char>,
    n2: DateTime,
    ord: int,
)
    requires
        forall|i: int| 0 <= i < rs1.len() ==> clean_record(#[trigger] rs1[i]),
        clean_map(m1),
        0 <= k < feed_items_of(rs1, m1, n1).len(),
        feed_items_of(rs1, m1, n1)[k].essence == essence_of(e.address, e.event_type),
        forall|q: int|
            k < q < feed_items_of(rs1, m1, n1).len() ==> (#[trigger] feed_items_of(
                rs1,
                m1,
                n1,
            )[q]).essence != feed_items_of(rs1, m1, n1)[k].essence,
    ensures
        resolve_one(
            e,
            src,
            jis,
            n2,
            prior_map_of(Some(join_lines_of(feed_lines_of(feed_items_of(rs1, m1, n1), n1)))),
            ord,
        ).guid == feed_items_of(rs1, m1, n1)[k].guid,
{
    let items1 = feed_items_of(rs1, m1, n1);
    lemma_feed_items_recoverable(rs1, m1, n1);
    lemma_identity_survives(items1, n1, k, e, src, jis, n2, ord);
}

} // verus!

