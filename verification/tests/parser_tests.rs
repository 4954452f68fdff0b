use patchlib::pch::{DiffType, LineKind, Patch, extract_filename, parse_context_hunk_from_vec,
    parse_normal_hunk_from_vec, parse_range, parse_unified_hunk_from_vec};

fn sv(xs: &[&str]) -> Vec<String> {
    xs.iter().map(|x| x.to_string()).collect()
}

#[test]
fn test_parse_range_pair() {
    let mut start: usize = 0;
    let mut count: usize = 0;
    parse_range("2,4", &mut start, &mut count);
    assert_eq!((start, count), (2, 3));
    parse_range("3", &mut start, &mut count);
    assert_eq!((start, count), (3, 1));
    parse_range(" 7,7 ", &mut start, &mut count);
    assert_eq!((start, count), (7, 1));
    parse_range("9,4", &mut start, &mut count);
    assert_eq!((start, count), (9, 1));
    parse_range("junk", &mut start, &mut count);
    assert_eq!((start, count), (1, 1));
}

#[test]
fn test_extract_filename() {
    assert_eq!(extract_filename("--- foo.txt\t2024-05-01 10:00:00"), "foo.txt");
    assert_eq!(extract_filename("+++ bar/baz.c"), "bar/baz.c");
    assert_eq!(extract_filename("--- "), "");
}

#[test]
fn test_unified_hunk_parse() {
    let lines = sv(&[
        "@@ -1,2 +2,2 @@ main",
        " ctx",
        "-old",
        "+new",
        "@@ -9 +9 @@",
    ]);
    let (hunk, consumed) = parse_unified_hunk_from_vec(&lines, 0).unwrap();
    assert_eq!(hunk.orig_start, 1);
    assert_eq!(hunk.orig_count, 2);
    assert_eq!(hunk.new_start, 2);
    assert_eq!(hunk.new_count, 2);
    assert_eq!(hunk.func.as_deref(), Some("main"));
    assert_eq!(consumed, 4);
    assert_eq!(hunk.lines.len(), 3);
    assert_eq!(hunk.lines[0].kind, LineKind::Context);
    assert_eq!(hunk.lines[0].content, "ctx");
    assert_eq!(hunk.lines[1].kind, LineKind::Remove);
    assert_eq!(hunk.lines[1].content, "old");
    assert_eq!(hunk.lines[2].kind, LineKind::Add);
    assert_eq!(hunk.lines[2].content, "new");
}

#[test]
fn test_unified_hunk_start_out_of_range() {
    let lines = sv(&["@@ -1 +1 @@"]);
    let r = parse_unified_hunk_from_vec(&lines, 5);
    assert_eq!(r.unwrap_err(), "Invalid hunk start index");
    let r2 = parse_context_hunk_from_vec(&lines, 5);
    assert_eq!(r2.unwrap_err(), "Invalid hunk start index");
    let r3 = parse_normal_hunk_from_vec(&lines, 5);
    assert_eq!(r3.unwrap_err(), "Invalid hunk start index");
}

#[test]
fn test_normal_dialect_parse() {
    // A `2,4d1` command followed by three removed lines: a hunk removing
    // three lines starting at line 2, adding nothing.
    let lines = sv(&["2,4d1", "< line 2", "< line 3", "< line 4"]);
    let (hunk, consumed) = parse_normal_hunk_from_vec(&lines, 0).unwrap();
    assert_eq!(hunk.orig_start, 2);
    assert_eq!(hunk.orig_count, 3);
    assert_eq!(hunk.lines.len(), 3);
    assert!(hunk.lines.iter().all(|l| l.kind == LineKind::Remove));
    assert_eq!(hunk.lines[0].content, "line 2");
    assert_eq!(hunk.lines[1].content, "line 3");
    assert_eq!(hunk.lines[2].content, "line 4");
    assert_eq!(hunk.lines.iter().filter(|l| l.kind == LineKind::Add).count(), 0);
    assert_eq!(consumed, 4);
}

#[test]
fn test_normal_change_command() {
    let lines = sv(&["3c3", "< old line", "---", "> new line"]);
    let (hunk, consumed) = parse_normal_hunk_from_vec(&lines, 0).unwrap();
    assert_eq!(hunk.orig_start, 3);
    assert_eq!(hunk.orig_count, 1);
    assert_eq!(hunk.new_start, 3);
    assert_eq!(hunk.new_count, 1);
    assert_eq!(hunk.lines.len(), 2);
    assert_eq!(hunk.lines[0].kind, LineKind::Remove);
    assert_eq!(hunk.lines[0].content, "old line");
    assert_eq!(hunk.lines[1].kind, LineKind::Add);
    assert_eq!(hunk.lines[1].content, "new line");
    assert_eq!(consumed, 4);
}

#[test]
fn test_context_hunk_parse() {
    let lines = sv(&[
        "*** 1,2 ****",
        "  one",
        "! two",
        "--- 1,2 ----",
        "  one",
        "! deux",
    ]);
    let (hunk, _consumed) = parse_context_hunk_from_vec(&lines, 0).unwrap();
    assert_eq!(hunk.orig_start, 1);
    assert_eq!(hunk.orig_count, 2);
    assert_eq!(hunk.new_start, 1);
    assert_eq!(hunk.new_count, 2);
    assert_eq!(hunk.lines.len(), 3);
    assert_eq!(hunk.lines[0].kind, LineKind::Context);
    assert_eq!(hunk.lines[0].content, "one");
    assert_eq!(hunk.lines[1].kind, LineKind::Remove);
    assert_eq!(hunk.lines[1].content, "two");
    assert_eq!(hunk.lines[2].kind, LineKind::Add);
    assert_eq!(hunk.lines[2].content, "deux");
}

#[test]
fn test_from_lines_unified() {
    let lines = sv(&[
        "--- old.txt",
        "+++ new.txt",
        "@@ -2,1 +2,1 @@",
        "-b",
        "+x",
    ]);
    let patch = Patch::from_lines(&lines).unwrap();
    assert_eq!(patch.diff_type, DiffType::UniDiff);
    assert_eq!(patch.header.old_file.as_deref(), Some("old.txt"));
    assert_eq!(patch.header.new_file.as_deref(), Some("new.txt"));
    assert_eq!(patch.hunks.len(), 1);
    assert_eq!(patch.hunks[0].orig_start, 2);
    assert_eq!(patch.hunks[0].orig_count, 1);
    assert_eq!(patch.hunks[0].lines.len(), 2);
}

#[test]
fn test_from_lines_normal_detection() {
    let lines = sv(&["2,4d1", "< line 2", "< line 3", "< line 4"]);
    let patch = Patch::from_lines(&lines).unwrap();
    assert_eq!(patch.diff_type, DiffType::NormalDiff);
    assert_eq!(patch.hunks.len(), 1);
    assert_eq!(patch.hunks[0].orig_start, 2);
    assert_eq!(patch.hunks[0].orig_count, 3);
}

#[test]
fn test_parse_deterministic() {
    // Parsing the same byte-identical stream twice yields structurally
    // identical change sets.
    let lines = sv(&[
        "--- old.txt",
        "+++ new.txt",
        "@@ -1,2 +1,2 @@ fn f",
        " keep",
        "-drop",
        "+take",
    ]);
    let p1 = Patch::from_lines(&lines).unwrap();
    let p2 = Patch::from_lines(&lines).unwrap();
    assert_eq!(p1.diff_type, p2.diff_type);
    assert_eq!(p1.header.old_file, p2.header.old_file);
    assert_eq!(p1.header.new_file, p2.header.new_file);
    assert_eq!(p1.hunks.len(), p2.hunks.len());
    for (h1, h2) in p1.hunks.iter().zip(p2.hunks.iter()) {
        assert_eq!(h1.orig_start, h2.orig_start);
        assert_eq!(h1.orig_count, h2.orig_count);
        assert_eq!(h1.new_start, h2.new_start);
        assert_eq!(h1.new_count, h2.new_count);
        assert_eq!(h1.func, h2.func);
        assert_eq!(h1.lines.len(), h2.lines.len());
        for (l1, l2) in h1.lines.iter().zip(h2.lines.iter()) {
            assert_eq!(l1.kind, l2.kind);
            assert_eq!(l1.content, l2.content);
        }
    }
}

#[test]
fn test_unified_omitted_counts_default_to_one() {
    let lines = sv(&["@@ -3 +4 @@", "-x", "+y"]);
    let (hunk, consumed) = parse_unified_hunk_from_vec(&lines, 0).unwrap();
    assert_eq!(hunk.orig_start, 3);
    assert_eq!(hunk.orig_count, 1);
    assert_eq!(hunk.new_start, 4);
    assert_eq!(hunk.new_count, 1);
    assert!(hunk.func.is_none());
    assert_eq!(consumed, 3);
}

#[test]
fn test_truncated_unified_hunk_is_fatal() {
    // The header declares five original lines; the body brings one.
    let lines = sv(&["@@ -1,5 +1,5 @@", " a"]);
    let e = parse_unified_hunk_from_vec(&lines, 0).unwrap_err();
    assert_eq!(e, "truncated hunk at line 2");
    // The whole change set is all-or-nothing: parsing the stream fails too.
    let e2 = Patch::from_lines(&lines).unwrap_err();
    assert_eq!(e2, "truncated hunk at line 2");
}

#[test]
fn test_truncated_normal_hunk_is_fatal() {
    // `2,4d1` declares three removed lines; only one follows.
    let lines = sv(&["2,4d1", "< line 2"]);
    let e = parse_normal_hunk_from_vec(&lines, 0).unwrap_err();
    assert_eq!(e, "truncated hunk at line 2");
    assert!(Patch::from_lines(&lines).is_err());
}

#[test]
fn test_truncated_context_block_is_fatal() {
    // The original block declares three lines but holds one.
    let lines = sv(&[
        "*** 1,3 ****",
        "  one",
        "--- 1,3 ----",
        "  one",
        "  two",
        "  three",
    ]);
    let e = parse_context_hunk_from_vec(&lines, 0).unwrap_err();
    assert_eq!(e, "truncated hunk at line 6");
}

#[test]
fn test_all_or_nothing_on_later_truncation() {
    // The first hunk is fine, the second is cut short: no change set is
    // produced at all.
    let lines = sv(&["@@ -1,1 +1,1 @@", "-a", "+b", "@@ -5,2 +5,2 @@", " c"]);
    let e = Patch::from_lines(&lines).unwrap_err();
    assert_eq!(e, "truncated hunk at line 5");
}

#[test]
fn test_context_omitted_block_is_not_truncation() {
    // A wholly absent original block is the format's shorthand for an
    // unchanged side, not a truncated patch.
    let lines = sv(&["*** 1,2 ****", "--- 1,2 ----", "  a", "  b"]);
    let (hunk, _consumed) = parse_context_hunk_from_vec(&lines, 0).unwrap();
    assert_eq!(hunk.lines.len(), 2);
    assert!(hunk.lines.iter().all(|l| l.kind == LineKind::Context));
}

#[test]
fn test_empty_input() {
    let lines: Vec<String> = Vec::new();
    let patch = Patch::from_lines(&lines).unwrap();
    assert_eq!(patch.diff_type, DiffType::NoDiff);
    assert_eq!(patch.hunks.len(), 0);
    assert!(patch.header.old_file.is_none());
}
