use xp_notes::export::{
    build_export, export_from_stamps, render_export, select_records, sort_records,
    stamp_documents, stamp_of_header, unreadable_positions, ParsedDocument, Record, Stamp,
};
use xp_notes::front_matter::{split_front_matter, FrontMatter};
use xp_notes::points::{level_of, total_points, POINTS_PER_LEVEL};
use xp_notes::timestamp::{parse_cutoff, parse_note_date, Timestamp};

fn header(date: Option<&str>, xp: Option<u32>) -> FrontMatter {
    FrontMatter { date: date.map(|d| d.to_string()), xp }
}

fn doc(date: Option<&str>, xp: Option<u32>, body: &str) -> ParsedDocument {
    ParsedDocument { front_matter: header(date, xp), body: body.to_string() }
}

fn at(y: i32, mo: u32, d: u32, h: u32, mi: u32, s: u32) -> Timestamp {
    Timestamp { year: y, month: mo, day: d, hour: h, minute: mi, second: s, nano: 0 }
}

fn record(t: Timestamp, body: &str) -> Record {
    Record { stamp: t, body: body.to_string() }
}

#[test]
fn no_header_keeps_whole_text() {
    for text in ["", "plain note", "--- not a header\nbody", "---\nno closing line", "---\n---\nbody"] {
        let (h, body) = split_front_matter(text);
        assert!(h.is_none());
        assert_eq!(body, text);
    }
}

#[test]
fn header_and_body_are_split() {
    let (h, body) = split_front_matter("---\nXP: 250\ndate: 2024-01-15\n---\nToday I learned.\n");
    assert_eq!(h.as_deref(), Some("XP: 250\ndate: 2024-01-15"));
    assert_eq!(body, "Today I learned.\n");
    assert!(!body.starts_with("---"));
}

#[test]
fn first_closing_line_ends_the_header() {
    let (h, body) = split_front_matter("---\na: 1\n---\nbody\n---\nmore");
    assert_eq!(h.as_deref(), Some("a: 1"));
    assert_eq!(body, "body\n---\nmore");
}

#[test]
fn empty_header_text() {
    let (h, body) = split_front_matter("---\n\n---\nbody");
    assert_eq!(h.as_deref(), Some(""));
    assert_eq!(body, "body");
}

#[test]
fn header_with_non_ascii_text() {
    let (h, body) = split_front_matter("---\ndate: 2024-01-15\n---\nОпыт дня");
    assert_eq!(h.as_deref(), Some("date: 2024-01-15"));
    assert_eq!(body, "Опыт дня");
}

#[test]
fn full_timestamp_is_read() {
    assert_eq!(parse_note_date("2024-01-15T10:20:30"), Some(at(2024, 1, 15, 10, 20, 30)));
}

#[test]
fn bare_date_is_midnight() {
    assert_eq!(parse_note_date("2024-01-15"), Some(at(2024, 1, 15, 0, 0, 0)));
    assert_eq!(parse_cutoff("2024-01-15"), Some(Timestamp::midnight(2024, 1, 15)));
}

#[test]
fn unreadable_dates() {
    assert_eq!(parse_note_date("yesterday"), None);
    assert_eq!(parse_note_date("2024-13-01"), None);
    assert_eq!(parse_cutoff("2024-01-15T10:00:00"), None);
    assert_eq!(parse_cutoff("15.01.2024"), None);
}

#[test]
fn header_stamps() {
    assert_eq!(stamp_of_header(&header(None, Some(5))), Stamp::Undated);
    assert_eq!(stamp_of_header(&header(Some("soon"), None)), Stamp::Unreadable);
    assert_eq!(stamp_of_header(&header(Some("2024-02-01"), None)), Stamp::At(at(2024, 2, 1, 0, 0, 0)));
}

#[test]
fn points_are_summed() {
    let hs = vec![header(None, Some(100)), header(Some("2024-01-01"), None), header(None, Some(50))];
    assert_eq!(total_points(&hs), 150);
    assert_eq!(total_points(&Vec::new()), 0);
    let big = vec![header(None, Some(u32::MAX)), header(None, Some(u32::MAX))];
    assert_eq!(total_points(&big), 2 * u32::MAX as u64);
}

#[test]
fn sum_does_not_depend_on_order() {
    let a = vec![header(None, Some(7000)), header(None, None), header(None, Some(4000)), header(None, Some(1))];
    let b = vec![header(None, Some(1)), header(None, Some(4000)), header(None, None), header(None, Some(7000))];
    assert_eq!(total_points(&a), total_points(&b));
    assert_eq!(level_of(total_points(&a)), level_of(total_points(&b)));
    assert_eq!(level_of(total_points(&a)), 1);
}

#[test]
fn level_thresholds() {
    assert_eq!(POINTS_PER_LEVEL, 10000);
    assert_eq!(level_of(0), 0);
    assert_eq!(level_of(9999), 0);
    assert_eq!(level_of(10000), 1);
    assert_eq!(level_of(25000), 2);
}

#[test]
fn cutoff_is_inclusive() {
    let cutoff = Timestamp::midnight(2024, 1, 15);
    let docs = vec![doc(None, None, "equal"), doc(None, None, "earlier")];
    let stamps = vec![Stamp::At(at(2024, 1, 15, 0, 0, 0)), Stamp::At(at(2024, 1, 14, 23, 59, 59))];
    let kept = select_records(&docs, &stamps, cutoff);
    assert_eq!(kept.len(), 1);
    assert_eq!(kept[0].body, "equal");
    assert!(at(2024, 1, 14, 23, 59, 59).is_before(&cutoff));
    assert!(!cutoff.is_before(&cutoff));
}

#[test]
fn bare_date_equal_to_cutoff_is_kept() {
    let cutoff = parse_cutoff("2024-01-15").unwrap();
    let docs = vec![doc(Some("2024-01-15"), None, "kept")];
    let e = build_export(&docs, cutoff);
    assert_eq!(e.text, "kept\n\n---\n\n");
}

#[test]
fn undated_and_unreadable_are_left_out() {
    let cutoff = Timestamp::midnight(2000, 1, 1);
    let docs = vec![doc(None, Some(3), "no date"), doc(Some("someday"), None, "bad date"), doc(Some("2024-01-01"), None, "good")];
    let stamps = stamp_documents(&docs);
    assert_eq!(stamps, vec![Stamp::Undated, Stamp::Unreadable, Stamp::At(at(2024, 1, 1, 0, 0, 0))]);
    assert_eq!(unreadable_positions(&stamps), vec![1]);
    let e = build_export(&docs, cutoff);
    assert_eq!(e.text, "good\n\n---\n\n");
    assert_eq!(e.unreadable, vec![1]);
}

#[test]
fn sort_is_chronological_and_stable() {
    let t1 = at(2024, 3, 1, 0, 0, 0);
    let t2 = at(2024, 1, 1, 12, 0, 0);
    let mut v = vec![record(t1, "a"), record(t2, "b"), record(t1, "c"), record(t2, "d"), record(at(2023, 12, 31, 23, 59, 59), "e")];
    sort_records(&mut v);
    let bodies: Vec<&str> = v.iter().map(|r| r.body.as_str()).collect();
    assert_eq!(bodies, vec!["e", "b", "d", "a", "c"]);
    let mut empty: Vec<Record> = Vec::new();
    sort_records(&mut empty);
    assert!(empty.is_empty());
}

#[test]
fn leap_second_sorts_after_second_fifty_nine() {
    let plain = at(2016, 12, 31, 23, 59, 59);
    let leap = Timestamp { nano: 1_000_000_000, ..plain };
    assert!(plain.is_before(&leap));
    let mut v = vec![record(leap, "leap"), record(plain, "plain")];
    sort_records(&mut v);
    assert_eq!(v[0].body, "plain");
}

#[test]
fn render_writes_one_separator_per_body() {
    let v = vec![record(at(2024, 1, 1, 0, 0, 0), "first\nline"), record(at(2024, 1, 2, 0, 0, 0), "")];
    assert_eq!(render_export(&v), "first\nline\n\n---\n\n\n\n---\n\n");
    assert_eq!(render_export(&Vec::new()), "");
    assert_eq!(render_export(&v).matches("\n\n---\n\n").count(), 2);
}

#[test]
fn export_from_given_stamps() {
    let docs = vec![doc(None, None, "late"), doc(None, None, "skip"), doc(None, None, "early"), doc(None, None, "none")];
    let stamps = vec![
        Stamp::At(at(2024, 5, 1, 0, 0, 0)),
        Stamp::At(at(2023, 1, 1, 0, 0, 0)),
        Stamp::At(at(2024, 2, 1, 8, 0, 0)),
        Stamp::Undated,
    ];
    let text = export_from_stamps(&docs, &stamps, Timestamp::midnight(2024, 1, 1));
    assert_eq!(text, "early\n\n---\n\nlate\n\n---\n\n");
}

#[test]
fn end_to_end_three_files() {
    let texts = [
        "---\ndate: 2024-01-01\nXP: 100\n---\nbody A",
        "just text B",
        "---\ndate: 2024-02-01\nXP: 50\n---\nbody C",
    ];
    let decoded = [header(Some("2024-01-01"), Some(100)), FrontMatter::empty(), header(Some("2024-02-01"), Some(50))];
    let mut docs = Vec::new();
    let mut headers = Vec::new();
    for (text, fm) in texts.iter().zip(decoded) {
        let (h, body) = split_front_matter(text);
        assert_eq!(h.is_some(), fm.date.is_some());
        headers.push(FrontMatter { date: fm.date.clone(), xp: fm.xp });
        docs.push(ParsedDocument { front_matter: fm, body });
    }
    assert_eq!(docs[1].body, "just text B");
    let total = total_points(&headers);
    assert_eq!(total, 150);
    assert_eq!(level_of(total), 0);
    let cutoff = parse_cutoff("2024-01-15").unwrap();
    let e = build_export(&docs, cutoff);
    assert_eq!(e.text, "body C\n\n---\n\n");
    assert!(e.unreadable.is_empty());
}
