//! The per-authority data model: one record per jurisdiction, holding
//! the source descriptor and the raw events an adapter extracted from
//! that agency's page, together with the two convenience exports built
//! from a set of persisted records (the jurisdiction index and the
//! union snapshot).
use vstd::prelude::*;

use crate::clock::is_digit;
use crate::order::{insert_ordered, insertion_sort, lemma_insert_ordered_at,
    lemma_insertion_sort_push};
use crate::text::seq_views;
use vstd::relations::{strongly_connected, transitive};

verus! {

/// Where a record's events came from: the agency's display name and the
/// canonical URL of the page that was scraped.
#[derive(Debug)]
pub struct SourceDescriptor {
    pub name: String,
    pub url: String,
}

/// One dispatch event as an adapter extracted it: a type string, an
/// address string, and a bare local time of day written `HH:MM`.
#[derive(Debug)]
pub struct RawEvent {
    pub event_type: String,
    pub address: String,
    pub time: String,
}

/// Everything one adapter produced in one run for one jurisdiction.
#[derive(Debug)]
pub struct AuthorityRecord {
    pub jurisdiction_code: String,
    pub source: SourceDescriptor,
    pub events: Vec<RawEvent>,
}

#[verifier::ext_equal]
pub ghost struct SourceDescriptorView {
    pub name: Seq<char>,
    pub url: Seq<char>,
}

#[verifier::ext_equal]
pub ghost struct RawEventView {
    pub event_type: Seq<char>,
    pub address: Seq<char>,
    pub time: Seq<char>,
}

#[verifier::ext_equal]
pub ghost struct AuthorityRecordView {
    pub jurisdiction_code: Seq<char>,
    pub source: SourceDescriptorView,
    pub events: Seq<RawEventView>,
}

impl View for SourceDescriptor {
    type V = SourceDescriptorView;

    open spec fn view(&self) -> SourceDescriptorView {
        SourceDescriptorView { name: self.name@, url: self.url@ }
    }
}

impl View for RawEvent {
    type V = RawEventView;

    open spec fn view(&self) -> RawEventView {
        RawEventView { event_type: self.event_type@, address: self.address@, time: self.time@ }
    }
}

impl View for AuthorityRecord {
    type V = AuthorityRecordView;

    open spec fn view(&self) -> AuthorityRecordView {
        AuthorityRecordView {
            jurisdiction_code: self.jurisdiction_code@,
            source: self.source@,
            events: self.events@.map_values(|e: RawEvent| e@),
        }
    }
}

/// The views of a sequence of records.
pub open spec fn records_view(rs: Seq<AuthorityRecord>) -> Seq<AuthorityRecordView> {
    rs.map_values(|r: AuthorityRecord| r@)
}

impl Clone for SourceDescriptor {
    fn clone(&self) -> (r: Self)
        ensures
            r@ == self@,
    {
        SourceDescriptor { name: self.name.clone(), url: self.url.clone() }
    }
}

impl Clone for RawEvent {
    fn clone(&self) -> (r: Self)
        ensures
            r@ == self@,
    {
        RawEvent {
            event_type: self.event_type.clone(),
            address: self.address.clone(),
            time: self.time.clone(),
        }
    }
}

impl Clone for AuthorityRecord {
    fn clone(&self) -> (r: Self)
        ensures
            r@ == self@,
    {
        let mut events: Vec<RawEvent> = Vec::new();
        let mut i: usize = 0;
        while i < self.events.len()
            invariant
                i <= self.events@.len(),
                events@.len() == i,
                forall|j: int| 0 <= j < i ==> events@[j]@ == self.events@[j]@,
            decreases self.events@.len() - i,
        {
            events.push(self.events[i].clone());
            i = i + 1;
        }
        let r = AuthorityRecord {
            jurisdiction_code: self.jurisdiction_code.clone(),
            source: self.source.clone(),
            events,
        };
        proof {
            assert(r@.events =~= self@.events);
            assert(r@ =~= self@);
        }
        r
    }
}

/// Lexicographic order on character sequences, by code point.
pub open spec fn lex_le(a: Seq<char>, b: Seq<char>) -> bool
    decreases a.len(),
{
    if a.len() == 0 {
        true
    } else if b.len() == 0 {
        false
    } else if (a[0] as u32) < (b[0] as u32) {
        true
    } else if (a[0] as u32) > (b[0] as u32) {
        false
    } else {
        lex_le(a.drop_first(), b.drop_first())
    }
}

pub proof fn lemma_lex_le_total(a: Seq<char>, b: Seq<char>)
    ensures
        lex_le(a, b) || lex_le(b, a),
    decreases a.len(),
{
    if a.len() > 0 && b.len() > 0 && a[0] as u32 == b[0] as u32 {
        lemma_lex_le_total(a.drop_first(), b.drop_first());
    }
}

pub proof fn lemma_lex_le_trans(a: Seq<char>, b: Seq<char>, c: Seq<char>)
    requires
        lex_le(a, b),
        lex_le(b, c),
    ensures
        lex_le(a, c),
    decreases a.len(),
{
    if a.len() > 0 && b.len() > 0 && c.len() > 0 && a[0] as u32 == b[0] as u32 && b[0] as u32
        == c[0] as u32 {
        lemma_lex_le_trans(a.drop_first(), b.drop_first(), c.drop_first());
    }
}

/// Decides the lexicographic order of two strings, by code point.
pub fn str_lex_le(a: &str, b: &str) -> (r: bool)
    ensures
        r == lex_le(a@, b@),
{
    let na = a.unicode_len();
    let nb = b.unicode_len();
    let mut i: usize = 0;
    proof {
        assert(a@.skip(0) =~= a@);
        assert(b@.skip(0) =~= b@);
    }
    loop
        invariant
            i <= na == a@.len(),
            i <= nb == b@.len(),
            lex_le(a@, b@) == lex_le(a@.skip(i as int), b@.skip(i as int)),
        decreases na - i,
    {
        if i == na {
            assert(a@.skip(i as int).len() == 0);
            return true;
        }
        if i == nb {
            assert(b@.skip(i as int).len() == 0);
            return false;
        }
        let ca = a.get_char(i) as u32;
        let cb = b.get_char(i) as u32;
        assert(a@.skip(i as int)[0] == a@[i as int] && b@.skip(i as int)[0] == b@[i as int]);
        if ca < cb {
            return true;
        }
        if ca > cb {
            return false;
        }
        proof {
            assert(a@.skip(i as int).drop_first() =~= a@.skip(i + 1));
            assert(b@.skip(i as int).drop_first() =~= b@.skip(i + 1));
        }
        i = i + 1;
    }
}

/// The order in which jurisdiction codes are listed.
pub open spec fn code_le() -> spec_fn(Seq<char>, Seq<char>) -> bool {
    |a: Seq<char>, b: Seq<char>| lex_le(a, b)
}

pub proof fn lemma_code_le_ordering()
    ensures
        transitive(code_le()),
        strongly_connected(code_le()),
{
    assert forall|x: Seq<char>, y: Seq<char>| #[trigger]
        code_le()(x, y) || #[trigger] code_le()(y, x) by {
        lemma_lex_le_total(x, y);
    }
    assert forall|x: Seq<char>, y: Seq<char>, z: Seq<char>| #[trigger]
        code_le()(x, y) && #[trigger] code_le()(y, z) implies code_le()(x, z) by {
        lemma_lex_le_trans(x, y, z);
    }
}

/// The jurisdiction codes of the given records, sorted lexicographically.
pub open spec fn jurisdiction_index_of(rs: Seq<AuthorityRecordView>) -> Seq<Seq<char>> {
    insertion_sort(rs.map_values(|r: AuthorityRecordView| r.jurisdiction_code), code_le())
}

/// Collects every record's jurisdiction code and sorts the list
/// lexicographically.
pub fn jurisdiction_index(records: &Vec<AuthorityRecord>) -> (r: Vec<String>)
    ensures
        seq_views(r@) == jurisdiction_index_of(records_view(records@)),
{
    let ghost codes = records_view(records@).map_values(
        |r: AuthorityRecordView| r.jurisdiction_code,
    );
    let mut out: Vec<String> = Vec::new();
    let mut i: usize = 0;
    proof {
        assert(codes.subrange(0, 0) =~= Seq::<Seq<char>>::empty());
        assert(seq_views(out@) =~= insertion_sort(codes.subrange(0, 0), code_le()));
    }
    while i < records.len()
        invariant
            i <= records@.len(),
            codes == records_view(records@).map_values(
                |r: AuthorityRecordView| r.jurisdiction_code,
            ),
            codes.len() == records@.len(),
            forall|j: int| 0 <= j < codes.len() ==> codes[j] == records@[j]@.jurisdiction_code,
            seq_views(out@) == insertion_sort(codes.subrange(0, i as int), code_le()),
        decreases records@.len() - i,
    {
        let code = records[i].jurisdiction_code.clone();
        // find the first position whose entry does not precede or tie the code
        let mut p: usize = 0;
        while p < out.len() && str_lex_le(&out[p], &code)
            invariant
                p <= out@.len(),
                code@ == codes[i as int],
                forall|j: int| 0 <= j < p ==> code_le()(#[trigger] seq_views(out@)[j], code@),
            decreases out@.len() - p,
        {
            p = p + 1;
        }
        proof {
            lemma_insert_ordered_at(seq_views(out@), code@, code_le(), p as int);
        }
        out.insert(p, code);
        proof {
            assert(codes.subrange(0, i + 1).drop_last() =~= codes.subrange(0, i as int));
            assert(codes.subrange(0, i + 1) =~= codes.subrange(0, i as int).push(codes[i as int]));
            lemma_insertion_sort_push(codes.subrange(0, i as int), codes[i as int], code_le());
            assert(seq_views(out@) =~= seq_views(out@.subrange(0, p as int)) + seq![code@]
                + seq_views(out@.subrange(p + 1, out@.len() as int)));
            assert(seq_views(out@.subrange(0, p as int)) =~= insertion_sort(
                codes.subrange(0, i as int),
                code_le(),
            ).subrange(0, p as int));
            assert(seq_views(out@.subrange(p + 1, out@.len() as int)) =~= insertion_sort(
                codes.subrange(0, i as int),
                code_le(),
            ).subrange(p as int, insertion_sort(codes.subrange(0, i as int), code_le()).len() as int));
            assert(seq_views(out@) =~= insertion_sort(codes.subrange(0, i + 1), code_le()));
        }
        i = i + 1;
    }
    proof {
        assert(codes.subrange(0, codes.len() as int) =~= codes);
    }
    out
}

/// The records that belong in the union snapshot: those with at least
/// one event, in their given order.
pub open spec fn union_snapshot_of(rs: Seq<AuthorityRecordView>) -> Seq<AuthorityRecordView> {
    rs.filter(|r: AuthorityRecordView| r.events.len() > 0)
}

/// Merges the per-authority records into the union snapshot: every
/// record with at least one event, unmodified and in order; empty
/// records are omitted.
pub fn build_union_snapshot(records: &Vec<AuthorityRecord>) -> (r: Vec<AuthorityRecord>)
    ensures
        records_view(r@) == union_snapshot_of(records_view(records@)),
{
    let ghost pred = |r: AuthorityRecordView| r.events.len() > 0;
    let mut out: Vec<AuthorityRecord> = Vec::new();
    let mut i: usize = 0;
    proof {
        reveal(Seq::filter);
        assert(records_view(records@).subrange(0, 0) =~= Seq::<AuthorityRecordView>::empty());
        assert(records_view(out@) =~= records_view(records@).subrange(0, 0).filter(pred));
    }
    while i < records.len()
        invariant
            i <= records@.len(),
            pred == (|r: AuthorityRecordView| r.events.len() > 0),
            records_view(out@) == records_view(records@).subrange(0, i as int).filter(pred),
        decreases records@.len() - i,
    {
        proof {
            reveal(Seq::filter);
            assert(records_view(records@).subrange(0, i + 1).drop_last() =~= records_view(
                records@,
            ).subrange(0, i as int));
            assert(records_view(records@).subrange(0, i + 1).last() == records@[i as int]@);
        }
        if records[i].events.len() > 0 {
            let copy = records[i].clone();
            out.push(copy);
            proof {
                assert(records_view(out@) =~= records_view(out@.drop_last()).push(
                    records@[i as int]@,
                ));
            }
        }
        i = i + 1;
    }
    proof {
        assert(records_view(records@).subrange(0, records@.len() as int) =~= records_view(
            records@,
        ));
    }
    out
}

/// A persisted record's file name: exactly six decimal digits followed
/// by `.json`.
pub open spec fn is_record_name_of(s: Seq<char>) -> bool {
    &&& s.len() == 11
    &&& forall|i: int| 0 <= i < 6 ==> is_digit(#[trigger] s[i])
    &&& s[6] == '.'
    &&& s[7] == 'j'
    &&& s[8] == 's'
    &&& s[9] == 'o'
    &&& s[10] == 'n'
}

/// Decides whether a file name is one of the per-jurisdiction record
/// files: six decimal digits followed by `.json`.
pub fn is_record_file_name(name: &str) -> (r: bool)
    ensures
        r == is_record_name_of(name@),
{
    let n = name.unicode_len();
    if n != 11 {
        return false;
    }
    let mut i: usize = 0;
    while i < 6
        invariant
            i <= 6,
            name@.len() == 11,
            forall|j: int| 0 <= j < i ==> is_digit(#[trigger] name@[j]),
        decreases 6 - i,
    {
        let c = name.get_char(i) as u32;
        if c < 48 || c > 57 {
            return false;
        }
        i = i + 1;
    }
    name.get_char(6) == '.' && name.get_char(7) == 'j' && name.get_char(8) == 's'
        && name.get_char(9) == 'o' && name.get_char(10) == 'n'
}

} // verus!

use vstd::string::StrSliceExecFns;
