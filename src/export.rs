//! The dated export: which notes are kept for a cutoff date, their order, and
//! the text written out for them.
use vstd::prelude::*;
use crate::front_matter::FrontMatter;
use crate::timestamp::{earlier, note_date_of, parse_note_date, Timestamp};

verus! {

/// A note after its header block has been read: the header's fields and the
/// body that follows the block.
#[derive(Debug)]
pub struct ParsedDocument {
    pub front_matter: FrontMatter,
    pub body: String,
}

/// A note kept for the export: its timestamp and its body.
#[derive(Debug)]
pub struct Record {
    pub stamp: Timestamp,
    pub body: String,
}

/// What a note's date field gives.
#[derive(Clone, Copy, Debug, PartialEq, Eq, Structural)]
pub enum Stamp {
    /// The header has no date.
    Undated,
    /// The date reads neither as a timestamp nor as a bare date.
    Unreadable,
    /// The date reads as this timestamp.
    At(Timestamp),
}

/// A record as a pair of its timestamp and its body text.
pub open spec fn entry(r: Record) -> (Timestamp, Seq<char>) {
    (r.stamp, r.body@)
}

/// The records of a sequence as pairs of timestamp and body text.
pub open spec fn entries(v: Seq<Record>) -> Seq<(Timestamp, Seq<char>)> {
    v.map_values(|r: Record| entry(r))
}

/// What a header's date field gives.
pub open spec fn stamp_of(h: FrontMatter) -> Stamp {
    match h.date {
        None => Stamp::Undated,
        Some(d) => match note_date_of(d@) {
            Some(t) => Stamp::At(t),
            None => Stamp::Unreadable,
        },
    }
}

/// A note with this stamp is kept for the cutoff: it has a timestamp, and
/// that timestamp is not earlier than the cutoff.
pub open spec fn kept(s: Stamp, cutoff: Timestamp) -> bool {
    match s {
        Stamp::At(t) => !earlier(t, cutoff),
        _ => false,
    }
}

/// The pairs kept from the first `n` notes, in the order of the notes.
pub open spec fn selected(
    docs: Seq<ParsedDocument>,
    stamps: Seq<Stamp>,
    cutoff: Timestamp,
    n: int,
) -> Seq<(Timestamp, Seq<char>)>
    decreases n,
{
    if n <= 0 {
        Seq::empty()
    } else {
        let prev = selected(docs, stamps, cutoff, n - 1);
        match stamps[n - 1] {
            Stamp::At(t) => if !earlier(t, cutoff) {
                prev.push((t, docs[n - 1].body@))
            } else {
                prev
            },
            _ => prev,
        }
    }
}

/// The positions among the first `n` stamps of those that are unreadable,
/// in increasing order.
pub open spec fn unreadable_upto(stamps: Seq<Stamp>, n: int) -> Seq<usize>
    decreases n,
{
    if n <= 0 {
        Seq::empty()
    } else {
        let prev = unreadable_upto(stamps, n - 1);
        if stamps[n - 1] == Stamp::Unreadable {
            prev.push((n - 1) as usize)
        } else {
            prev
        }
    }
}

/// Reads the date field of a header.
pub fn stamp_of_header(h: &FrontMatter) -> (r: Stamp)
    ensures
        r == stamp_of(*h),
{
    match &h.date {
        None => Stamp::Undated,
        Some(d) => match parse_note_date(d.as_str()) {
            Some(t) => Stamp::At(t),
            None => Stamp::Unreadable,
        },
    }
}

/// Reads the date field of every note, in order.
pub fn stamp_documents(docs: &Vec<ParsedDocument>) -> (r: Vec<Stamp>)
    ensures
        r@.len() == docs@.len(),
        forall|i: int| 0 <= i < docs@.len() ==> r@[i] == stamp_of(#[trigger] docs@[i].front_matter),
{
    let mut r: Vec<Stamp> = Vec::new();
    let mut i: usize = 0;
    while i < docs.len()
        invariant
            i <= docs@.len(),
            r@.len() == i,
            forall|k: int| 0 <= k < i ==> r@[k] == stamp_of(#[trigger] docs@[k].front_matter),
        decreases docs@.len() - i,
    {
        let s = stamp_of_header(&docs[i].front_matter);
        r.push(s);
        i = i + 1;
    }
    r
}

/// Keeps, in the order of the notes, the timestamp and body of each note
/// whose stamp is a timestamp not earlier than the cutoff. The cutoff itself
/// is kept.
pub fn select_records(docs: &Vec<ParsedDocument>, stamps: &Vec<Stamp>, cutoff: Timestamp) -> (r: Vec<Record>)
    requires
        stamps@.len() == docs@.len(),
    ensures
        entries(r@) == selected(docs@, stamps@, cutoff, docs@.len() as int),
{
    let mut r: Vec<Record> = Vec::new();
    let mut i: usize = 0;
    while i < docs.len()
        invariant
            i <= docs@.len(),
            stamps@.len() == docs@.len(),
            entries(r@) == selected(docs@, stamps@, cutoff, i as int),
        decreases docs@.len() - i,
    {
        let ghost before = r@;
        match stamps[i] {
            Stamp::At(t) => {
                if !t.is_before(&cutoff) {
                    r.push(Record { stamp: t, body: docs[i].body.clone() });
                    proof {
                        assert(r@ == before.push(r@.last()));
                        assert(entries(r@) =~= entries(before).push(entry(r@.last())));
                    }
                }
            },
            _ => {},
        }
        i = i + 1;
    }
    r
}

/// The positions of the stamps that are unreadable, in increasing order.
pub fn unreadable_positions(stamps: &Vec<Stamp>) -> (r: Vec<usize>)
    ensures
        r@ == unreadable_upto(stamps@, stamps@.len() as int),
{
    let mut r: Vec<usize> = Vec::new();
    let mut i: usize = 0;
    while i < stamps.len()
        invariant
            i <= stamps@.len(),
            r@ == unreadable_upto(stamps@, i as int),
        decreases stamps@.len() - i,
    {
        if stamps[i] == Stamp::Unreadable {
            r.push(i);
        }
        i = i + 1;
    }
    r
}

/// The timestamps of the pairs never go down.
pub open spec fn chronological(s: Seq<(Timestamp, Seq<char>)>) -> bool {
    forall|i: int, j: int| 0 <= i < j < s.len() ==> !earlier(#[trigger] s[j].0, #[trigger] s[i].0)
}

/// The pairs whose timestamp is `t`, in their order in `s`.
pub open spec fn with_stamp(s: Seq<(Timestamp, Seq<char>)>, t: Timestamp) -> Seq<(Timestamp, Seq<char>)>
    decreases s.len(),
{
    if s.len() == 0 {
        Seq::empty()
    } else {
        let prev = with_stamp(s.drop_last(), t);
        if s.last().0 == t {
            prev.push(s.last())
        } else {
            prev
        }
    }
}

proof fn lemma_with_stamp_concat(a: Seq<(Timestamp, Seq<char>)>, b: Seq<(Timestamp, Seq<char>)>, t: Timestamp)
    ensures
        with_stamp(a + b, t) == with_stamp(a, t) + with_stamp(b, t),
    decreases b.len(),
{
    if b.len() == 0 {
        assert(a + b =~= a);
        assert(with_stamp(a, t) + with_stamp(b, t) =~= with_stamp(a, t));
    } else {
        lemma_with_stamp_concat(a, b.drop_last(), t);
        assert((a + b).drop_last() =~= a + b.drop_last());
        assert((a + b).last() == b.last());
        if b.last().0 == t {
            assert(with_stamp(a, t) + with_stamp(b, t) =~= (with_stamp(a, t) + with_stamp(b.drop_last(), t)).push(b.last()));
        }
    }
}

proof fn lemma_with_stamp_none(s: Seq<(Timestamp, Seq<char>)>, t: Timestamp)
    requires
        forall|q: int| 0 <= q < s.len() ==> (#[trigger] s[q]).0 != t,
    ensures
        with_stamp(s, t) == Seq::<(Timestamp, Seq<char>)>::empty(),
    decreases s.len(),
{
    if s.len() > 0 {
        lemma_with_stamp_none(s.drop_last(), t);
    }
}

/// Inserting a pair at a position that no pair of its timestamp precedes puts
/// it first among the pairs of its timestamp, and leaves those of any other
/// timestamp as they were.
proof fn lemma_with_stamp_insert(s: Seq<(Timestamp, Seq<char>)>, p: int, e: (Timestamp, Seq<char>), t: Timestamp)
    requires
        0 <= p <= s.len(),
        forall|q: int| 0 <= q < p ==> (#[trigger] s[q]).0 != e.0,
    ensures
        with_stamp(s.insert(p, e), t) == with_stamp(seq![e], t) + with_stamp(s, t),
{
    let a = s.subrange(0, p);
    let b = s.subrange(p, s.len() as int);
    assert(s.insert(p, e) =~= a + seq![e] + b);
    assert(s =~= a + b);
    lemma_with_stamp_concat(a + seq![e], b, t);
    lemma_with_stamp_concat(a, seq![e], t);
    lemma_with_stamp_concat(a, b, t);
    assert(seq![e].drop_last() =~= Seq::<(Timestamp, Seq<char>)>::empty());
    assert(with_stamp(seq![e].drop_last(), t) =~= Seq::<(Timestamp, Seq<char>)>::empty());
    if t == e.0 {
        lemma_with_stamp_none(a, t);
        assert(with_stamp(a, t) + with_stamp(seq![e], t) =~= with_stamp(seq![e], t));
        assert(with_stamp(a, t) + with_stamp(b, t) =~= with_stamp(b, t));
    } else {
        assert(with_stamp(seq![e], t) =~= Seq::<(Timestamp, Seq<char>)>::empty());
        assert(with_stamp(a, t) + with_stamp(seq![e], t) =~= with_stamp(a, t));
        assert(with_stamp(seq![e], t) + with_stamp(s, t) =~= with_stamp(s, t));
    }
}

/// Sorts the records by timestamp, earliest first. The sort is stable: the
/// records of any one timestamp keep their order, and no record is added or
/// lost.
pub fn sort_records(records: &mut Vec<Record>)
    ensures
        chronological(entries(final(records)@)),
        forall|t: Timestamp|
            #[trigger] with_stamp(entries(final(records)@), t) == with_stamp(entries(old(records)@), t),
{
    let ghost orig = entries(records@);
    let mut rest: Vec<Record> = Vec::new();
    std::mem::swap(records, &mut rest);
    let mut out: Vec<Record> = Vec::new();
    while rest.len() > 0
        invariant
            rest@.len() <= orig.len(),
            entries(rest@) == orig.subrange(0, rest@.len() as int),
            chronological(entries(out@)),
            forall|t: Timestamp|
                #[trigger] with_stamp(entries(out@), t) == with_stamp(orig.subrange(rest@.len() as int, orig.len() as int), t),
        decreases rest@.len(),
    {
        let ghost k = rest@.len() - 1;
        let ghost before = rest@;
        let x = rest.pop().unwrap();
        proof {
            assert(rest@ =~= before.drop_last());
            assert(entries(rest@) =~= entries(before).drop_last());
            assert(entries(before)[k] == entry(x));
            assert(orig[k] == entry(x));
        }
        let mut p: usize = 0;
        while p < out.len() && out[p].stamp.is_before(&x.stamp)
            invariant
                p <= out@.len(),
                forall|q: int| 0 <= q < p ==> earlier(#[trigger] out@[q].stamp, x.stamp),
            decreases out@.len() - p,
        {
            p = p + 1;
        }
        let ghost e = entries(out@);
        proof {
            assert forall|q: int| 0 <= q < p implies (#[trigger] e[q]).0 != x.stamp by {
                assert(earlier(out@[q].stamp, x.stamp));
                crate::timestamp::lemma_earlier_total(x.stamp, x.stamp, x.stamp);
            }
            assert forall|q: int| p <= q < e.len() implies !earlier(#[trigger] e[q].0, x.stamp) by {
                if q > p {
                    assert(!earlier(e[q].0, e[p as int].0));
                    crate::timestamp::lemma_earlier_total(e[q].0, x.stamp, e[p as int].0);
                }
            }
        }
        out.insert(p, x);
        proof {
            let e2 = entries(out@);
            assert(e2 =~= e.insert(p as int, entry(x)));
            assert forall|i: int, j: int| 0 <= i < j < e2.len() implies !earlier(#[trigger] e2[j].0, #[trigger] e2[i].0) by {
                if j < p {
                    assert(e2[i] == e[i] && e2[j] == e[j]);
                } else if i > p {
                    assert(e2[i] == e[i - 1] && e2[j] == e[j - 1]);
                } else if i == p {
                    assert(e2[j] == e[j - 1]);
                } else if j == p {
                    assert(e2[i] == e[i]);
                    crate::timestamp::lemma_earlier_total(x.stamp, e[i].0, x.stamp);
                } else {
                    assert(e2[i] == e[i] && e2[j] == e[j - 1]);
                    crate::timestamp::lemma_earlier_total(e[j - 1].0, x.stamp, e[i].0);
                }
            }
            assert(orig.subrange(k, orig.len() as int) =~= seq![entry(x)] + orig.subrange(k + 1, orig.len() as int));
            assert forall|t: Timestamp| #[trigger] with_stamp(e2, t) == with_stamp(orig.subrange(k, orig.len() as int), t) by {
                lemma_with_stamp_insert(e, p as int, entry(x), t);
                lemma_with_stamp_concat(seq![entry(x)], orig.subrange(k + 1, orig.len() as int), t);
            }
        }
    }
    proof {
        assert(orig.subrange(0, orig.len() as int) =~= orig);
    }
    *records = out;
}

/// What follows each body in the export: a line break ending the body, then
/// a blank line, a `---` line and a blank line.
pub open spec fn separator() -> Seq<char> {
    seq!['\n', '\n', '-', '-', '-', '\n', '\n']
}

/// The export text of the pairs: each body followed by the separator, in order.
pub open spec fn rendered(s: Seq<(Timestamp, Seq<char>)>) -> Seq<char>
    decreases s.len(),
{
    if s.len() == 0 {
        Seq::empty()
    } else {
        rendered(s.drop_last()) + s.last().1 + separator()
    }
}

/// Writes out each record's body followed by the separator, in the order of
/// the records.
pub fn render_export(records: &Vec<Record>) -> (r: String)
    ensures
        r@ == rendered(entries(records@)),
{
    let mut out = String::new();
    let sep = "\n\n---\n\n";
    proof {
        reveal_strlit("\n\n---\n\n");
        assert(sep@ =~= separator());
    }
    let mut i: usize = 0;
    while i < records.len()
        invariant
            i <= records@.len(),
            sep@ == separator(),
            out@ == rendered(entries(records@.subrange(0, i as int))),
        decreases records@.len() - i,
    {
        out.append(records[i].body.as_str());
        out.append(sep);
        proof {
            assert(entries(records@.subrange(0, i as int + 1)).drop_last() =~= entries(records@.subrange(0, i as int)));
        }
        i = i + 1;
    }
    proof {
        assert(records@.subrange(0, i as int) =~= records@);
    }
    out
}

/// The export of a set of notes: its text, and the positions of the notes
/// whose date could not be read.
#[derive(Debug)]
pub struct Export {
    pub text: String,
    pub unreadable: Vec<usize>,
}

/// What the date fields of the notes give, in order.
pub open spec fn stamps_of(docs: Seq<ParsedDocument>) -> Seq<Stamp> {
    docs.map_values(|d: ParsedDocument| stamp_of(d.front_matter))
}

/// The export text is that of the kept pairs in chronological order, those
/// of one timestamp in the order of their notes.
pub open spec fn export_of(text: Seq<char>, kept: Seq<(Timestamp, Seq<char>)>) -> bool {
    exists|s: Seq<(Timestamp, Seq<char>)>|
        #[trigger] rendered(s) == text && chronological(s) && forall|t: Timestamp|
            #[trigger] with_stamp(s, t) == with_stamp(kept, t)
}

/// The export text for notes whose dates have been read: the bodies of the
/// kept notes, earliest first, those of one timestamp in the order of their
/// notes, each followed by the separator.
pub fn export_from_stamps(docs: &Vec<ParsedDocument>, stamps: &Vec<Stamp>, cutoff: Timestamp) -> (r: String)
    requires
        stamps@.len() == docs@.len(),
    ensures
        export_of(r@, selected(docs@, stamps@, cutoff, docs@.len() as int)),
{
    let mut records = select_records(docs, stamps, cutoff);
    sort_records(&mut records);
    let r = render_export(&records);
    proof {
        let s = entries(records@);
        assert(rendered(s) == r@);
    }
    r
}

/// Builds the export of the notes for a cutoff: the text of the kept notes,
/// and the positions of the notes whose date reads as neither a timestamp nor
/// a bare date. Notes without a date are left out and not reported.
pub fn build_export(docs: &Vec<ParsedDocument>, cutoff: Timestamp) -> (r: Export)
    ensures
        export_of(r.text@, selected(docs@, stamps_of(docs@), cutoff, docs@.len() as int)),
        r.unreadable@ == unreadable_upto(stamps_of(docs@), docs@.len() as int),
{
    let stamps = stamp_documents(docs);
    proof {
        assert(stamps@ =~= stamps_of(docs@));
    }
    let text = export_from_stamps(docs, &stamps, cutoff);
    let unreadable = unreadable_positions(&stamps);
    Export { text, unreadable }
}

} // verus!
