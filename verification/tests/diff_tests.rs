use stash_tree::diff::{reconstruct, DiffEvent, DiffItem};

fn fh(old: Option<&str>, new: Option<&str>) -> DiffEvent {
    DiffEvent::FileHeader(old.map(String::from), new.map(String::from))
}

fn hh(os: usize, ol: usize, ns: usize, nl: usize) -> DiffEvent {
    DiffEvent::HunkHeader(os, ol, ns, nl)
}

fn lr(origin: char, content: &str) -> DiffEvent {
    DiffEvent::LineRecord(origin, String::from(content))
}

fn line(item: &DiffItem, hunk: usize, i: usize) -> (char, &str) {
    let lc = &item.hunks[hunk].lines[i];
    (lc.origin, lc.content.as_str())
}

#[test]
fn two_files_scenario() {
    let events = vec![
        fh(Some("a.txt"), Some("a.txt")),
        hh(1, 1, 1, 2),
        lr(' ', "x"),
        lr('+', "y"),
        fh(None, Some("b.txt")),
        hh(0, 0, 1, 1),
        lr('+', "z"),
    ];
    let doc = reconstruct(&events);
    assert_eq!(doc.len(), 2);

    let first = &doc[0];
    assert_eq!(first.old_file.as_deref(), Some("a.txt"));
    assert_eq!(first.new_file.as_deref(), Some("a.txt"));
    assert_eq!(first.hunks.len(), 1);
    let h = &first.hunks[0];
    assert_eq!((h.old_start, h.old_lines, h.new_start, h.new_lines), (1, 1, 1, 2));
    assert_eq!(h.lines.len(), 2);
    assert_eq!(line(first, 0, 0), (' ', "x"));
    assert_eq!(line(first, 0, 1), ('+', "y"));

    let second = &doc[1];
    assert_eq!(second.old_file, None);
    assert_eq!(second.new_file.as_deref(), Some("b.txt"));
    assert_eq!(second.hunks.len(), 1);
    let h = &second.hunks[0];
    assert_eq!((h.old_start, h.old_lines, h.new_start, h.new_lines), (0, 0, 1, 1));
    assert_eq!(h.lines.len(), 1);
    assert_eq!(line(second, 0, 0), ('+', "z"));
}

#[test]
fn reconstruction_is_idempotent() {
    let make = || {
        vec![
            fh(Some("f"), Some("f")),
            hh(1, 2, 1, 2),
            lr(' ', "a\n"),
            lr('-', "b\n"),
            lr('+', "c\n"),
        ]
    };
    let once = reconstruct(&make());
    let twice = reconstruct(&make());
    assert_eq!(once, twice);
}

#[test]
fn repeated_file_header_same_pair_keeps_one_item() {
    let events = vec![
        fh(Some("f"), Some("f")),
        hh(1, 1, 1, 1),
        lr(' ', "a"),
        fh(Some("f"), Some("f")),
        hh(5, 1, 5, 1),
        lr('+', "b"),
    ];
    let doc = reconstruct(&events);
    assert_eq!(doc.len(), 1);
    assert_eq!(doc[0].hunks.len(), 2);
}

#[test]
fn different_hunk_starts_split_hunks() {
    let events = vec![
        fh(Some("f"), Some("f")),
        hh(1, 1, 1, 2),
        lr(' ', "x"),
        lr('+', "y"),
        hh(7, 1, 8, 1),
        lr('-', "z"),
    ];
    let doc = reconstruct(&events);
    assert_eq!(doc.len(), 1);
    let item = &doc[0];
    assert_eq!(item.hunks.len(), 2);
    assert_eq!(item.hunks[0].lines.len(), 2);
    assert_eq!(line(item, 0, 0), (' ', "x"));
    assert_eq!(line(item, 0, 1), ('+', "y"));
    assert_eq!(item.hunks[1].lines.len(), 1);
    assert_eq!(line(item, 1, 0), ('-', "z"));
}

#[test]
fn repeated_identical_hunk_header_keeps_one_hunk() {
    let events = vec![
        fh(Some("f"), Some("f")),
        hh(3, 1, 3, 1),
        lr(' ', "a"),
        hh(3, 9, 3, 9),
        lr('+', "b"),
    ];
    let doc = reconstruct(&events);
    assert_eq!(doc.len(), 1);
    assert_eq!(doc[0].hunks.len(), 1);
    assert_eq!(doc[0].hunks[0].lines.len(), 2);
    assert_eq!(doc[0].hunks[0].old_lines, 1);
}

#[test]
fn noise_origins_are_dropped() {
    let events = vec![
        fh(Some("f"), Some("f")),
        hh(1, 1, 1, 1),
        lr('H', "hunk header echo"),
        lr(' ', "kept"),
        lr('=', "noise"),
        lr('+', "also kept"),
        lr('\\', "no newline marker"),
    ];
    let doc = reconstruct(&events);
    assert_eq!(doc.len(), 1);
    let h = &doc[0].hunks[0];
    assert_eq!(h.lines.len(), 2);
    assert_eq!(line(&doc[0], 0, 0), (' ', "kept"));
    assert_eq!(line(&doc[0], 0, 1), ('+', "also kept"));
}

#[test]
fn line_before_any_hunk_is_dropped() {
    let events = vec![fh(Some("f"), Some("f")), lr('+', "early"), hh(1, 1, 1, 1), lr('+', "kept")];
    let doc = reconstruct(&events);
    assert_eq!(doc.len(), 1);
    assert_eq!(doc[0].hunks.len(), 1);
    assert_eq!(doc[0].hunks[0].lines.len(), 1);
    assert_eq!(line(&doc[0], 0, 0), ('+', "kept"));
}

#[test]
fn hunk_before_any_file_is_dropped() {
    let events = vec![
        hh(1, 1, 1, 1),
        lr('+', "lost"),
        fh(Some("f"), Some("f")),
        hh(2, 1, 2, 1),
        lr('-', "kept"),
    ];
    let doc = reconstruct(&events);
    assert_eq!(doc.len(), 1);
    assert_eq!(doc[0].hunks.len(), 1);
    assert_eq!(line(&doc[0], 0, 0), ('-', "kept"));
}

#[test]
fn stream_without_file_header_yields_empty_document() {
    let events = vec![hh(1, 1, 1, 1), lr('+', "lost")];
    let doc = reconstruct(&events);
    assert!(doc.is_empty());
}

#[test]
fn empty_stream_yields_empty_document() {
    let events: Vec<DiffEvent> = Vec::new();
    let doc = reconstruct(&events);
    assert!(doc.is_empty());
}

#[test]
fn file_without_trailing_flush_loses_nothing() {
    let events = vec![fh(Some("only"), Some("only")), hh(1, 1, 1, 1), lr(' ', "last line")];
    let doc = reconstruct(&events);
    assert_eq!(doc.len(), 1);
    assert_eq!(doc[0].hunks.len(), 1);
    assert_eq!(doc[0].hunks[0].lines.len(), 1);
}
