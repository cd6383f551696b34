use stash_tree::diff::{reconstruct, DiffEvent, Hunk, LineChange};
use stash_tree::render::{render_document, usize_to_dec};

#[test]
fn decimal_rendering() {
    assert_eq!(usize_to_dec(0), "0");
    assert_eq!(usize_to_dec(7), "7");
    assert_eq!(usize_to_dec(10), "10");
    assert_eq!(usize_to_dec(12345), "12345");
    assert_eq!(usize_to_dec(1000), "1000");
}

#[test]
fn line_change_renders_origin_then_content() {
    let lc = LineChange { origin: '+', content: String::from("added\n") };
    assert_eq!(lc.to_unified(), "+added\n");
    let lc = LineChange { origin: ' ', content: String::from("ctx\n") };
    assert_eq!(lc.to_unified(), " ctx\n");
}

#[test]
fn hunk_renders_header_then_lines() {
    let hunk = Hunk {
        old_start: 1,
        old_lines: 2,
        new_start: 3,
        new_lines: 4,
        lines: vec![
            LineChange { origin: '-', content: String::from("gone\n") },
            LineChange { origin: '+', content: String::from("here\n") },
        ],
    };
    assert_eq!(hunk.to_unified(), "@@ -1,2 +3,4 @@\n-gone\n+here\n");
}

#[test]
fn document_renders_unified_text() {
    let events = vec![
        DiffEvent::FileHeader(Some(String::from("a.txt")), Some(String::from("a.txt"))),
        DiffEvent::HunkHeader(1, 1, 1, 2),
        DiffEvent::LineRecord(' ', String::from("x\n")),
        DiffEvent::LineRecord('+', String::from("y\n")),
        DiffEvent::FileHeader(None, Some(String::from("b.txt"))),
        DiffEvent::HunkHeader(0, 0, 1, 1),
        DiffEvent::LineRecord('+', String::from("z\n")),
    ];
    let doc = reconstruct(&events);
    let text = render_document(&doc);
    let expected =
        "--- a/a.txt\n+++ b/a.txt\n@@ -1,1 +1,2 @@\n x\n+y\n+++ b/b.txt\n@@ -0,0 +1,1 @@\n+z\n";
    assert_eq!(text, expected);
}

#[test]
fn deleted_file_omits_new_path_line() {
    let events = vec![
        DiffEvent::FileHeader(Some(String::from("gone.txt")), None),
        DiffEvent::HunkHeader(1, 1, 0, 0),
        DiffEvent::LineRecord('-', String::from("bye\n")),
    ];
    let doc = reconstruct(&events);
    let text = render_document(&doc);
    assert_eq!(text, "--- a/gone.txt\n@@ -1,1 +0,0 @@\n-bye\n");
}
