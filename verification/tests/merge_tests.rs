use patchlib::common::OutState;
use patchlib::inp::InputFile;
use patchlib::merge::{MergeResult, find_best_match, merge_hunk, merge_patch};
use patchlib::pch::{DiffType, HunkLine, LineKind, Patch, PatchHeader, PatchHunk};

fn sv(xs: &[&str]) -> Vec<String> {
    xs.iter().map(|x| x.to_string()).collect()
}

fn hl(kind: LineKind, content: &str) -> HunkLine {
    HunkLine { kind, content: content.to_string() }
}

fn hunk(orig_start: usize, orig_count: usize, new_start: usize, new_count: usize,
    lines: Vec<HunkLine>) -> PatchHunk {
    PatchHunk { orig_start, orig_count, new_start, new_count, lines, func: None }
}

fn patch_of(hunks: Vec<PatchHunk>) -> Patch {
    Patch {
        diff_type: DiffType::UniDiff,
        header: PatchHeader {
            old_file: None,
            new_file: None,
            index_file: None,
            old_time: None,
            new_time: None,
            old_mode: None,
            new_mode: None,
            sha1_old: None,
            sha1_new: None,
        },
        hunks,
    }
}

#[test]
fn test_clean_unified_apply() {
    // Replacing "b" with "x" at line 2 applies cleanly.
    let input = InputFile::new(sv(&["a", "b", "c", "d"]));
    let h = hunk(2, 1, 2, 1, vec![hl(LineKind::Remove, "b"), hl(LineKind::Add, "x")]);
    let patch = patch_of(vec![h]);
    let mut out = OutState::new();
    let results = merge_patch(&input, &patch, &mut out);
    assert_eq!(out.lines, sv(&["a", "x", "c", "d"]));
    assert_eq!(results, vec![MergeResult::Clean]);
}

#[test]
fn test_fuzzy_relocation() {
    // The document gained a line before line 2; the hunk is relocated one
    // line down and still applies cleanly.
    let input = InputFile::new(sv(&["z", "a", "b", "c", "d"]));
    let h = hunk(2, 1, 2, 1, vec![hl(LineKind::Remove, "b"), hl(LineKind::Add, "x")]);
    let w = find_best_match(&input, &h, 1).unwrap();
    assert_eq!(w, 3);
    let patch = patch_of(vec![h]);
    let mut out = OutState::new();
    let results = merge_patch(&input, &patch, &mut out);
    assert_eq!(out.lines, sv(&["z", "a", "x", "c", "d"]));
    assert_eq!(results, vec![MergeResult::Clean]);
}

#[test]
fn test_conflict_is_not_fatal() {
    // The first hunk's remove line does not match anywhere; its add line is
    // still emitted and the next hunk is processed normally.
    let input = InputFile::new(sv(&["a", "b", "c", "d"]));
    let h1 = hunk(2, 1, 2, 1, vec![hl(LineKind::Remove, "nope"), hl(LineKind::Add, "x")]);
    let h2 = hunk(4, 1, 4, 1, vec![hl(LineKind::Remove, "d"), hl(LineKind::Add, "y")]);
    let patch = patch_of(vec![h1, h2]);
    let mut out = OutState::new();
    let results = merge_patch(&input, &patch, &mut out);
    assert_eq!(results, vec![MergeResult::Conflict, MergeResult::Clean]);
    assert_eq!(out.lines, sv(&["a", "x", "c", "y"]));
}

#[test]
fn test_already_applied() {
    // The change is already present at the hunk's position: the verdict is
    // AlreadyApplied, never Conflict.
    let input = InputFile::new(sv(&["a", "x", "c", "d"]));
    let h = hunk(2, 1, 2, 1, vec![hl(LineKind::Remove, "b"), hl(LineKind::Add, "x")]);
    let patch = patch_of(vec![h]);
    let mut out = OutState::new();
    let results = merge_patch(&input, &patch, &mut out);
    assert_eq!(results, vec![MergeResult::AlreadyApplied]);
    assert_eq!(out.lines, sv(&["a", "x", "c", "d"]));
}

#[test]
fn test_round_trip() {
    // Applying the change set that describes D1 -> D2 onto D1 yields D2.
    let d1 = sv(&["one", "two", "three"]);
    let d2 = sv(&["one", "2", "three"]);
    let patch_text = sv(&[
        "--- d1",
        "+++ d2",
        "@@ -1,3 +1,3 @@",
        " one",
        "-two",
        "+2",
        " three",
    ]);
    let patch = Patch::from_lines(&patch_text).unwrap();
    let input = InputFile::new(d1);
    let mut out = OutState::new();
    let results = merge_patch(&input, &patch, &mut out);
    assert_eq!(results, vec![MergeResult::Clean]);
    assert_eq!(out.lines, d2);
}

#[test]
fn test_merge_hunk_context_mismatch() {
    // A context line that differs flags a conflict but the document's own
    // content is what gets emitted.
    let input = InputFile::new(sv(&["left", "mid", "right"]));
    let h = hunk(1, 3, 1, 3, vec![
        hl(LineKind::Context, "left"),
        hl(LineKind::Context, "MIDDLE"),
        hl(LineKind::Context, "right"),
    ]);
    let mut out = OutState::new();
    let r = merge_hunk(&input, &h, &mut out, 1);
    assert_eq!(r, MergeResult::Conflict);
    assert_eq!(out.lines, sv(&["left", "mid", "right"]));
}

#[test]
fn test_fuzzy_relocation_with_edits() {
    // No window matches the original side verbatim; the Matcher still finds
    // the offset whose window takes the fewest edits (one, for the line the
    // document lost), which beats the declared position's own cost of two.
    let input = InputFile::new(sv(&["intro", "a", "c"]));
    let h = hunk(1, 3, 1, 3, vec![
        hl(LineKind::Context, "a"),
        hl(LineKind::Remove, "b"),
        hl(LineKind::Context, "c"),
    ]);
    assert_eq!(find_best_match(&input, &h, 2), Some(2));
}

#[test]
fn test_find_best_match_prefers_declared_position() {
    let input = InputFile::new(sv(&["a", "b", "a", "b"]));
    let h = hunk(3, 2, 3, 2, vec![
        hl(LineKind::Context, "a"),
        hl(LineKind::Remove, "b"),
    ]);
    // The needle matches at 1 and at 3; the declared position wins.
    assert_eq!(find_best_match(&input, &h, 2), Some(3));
}

#[test]
fn test_find_best_match_falls_back_to_declared() {
    let input = InputFile::new(sv(&["a", "b"]));
    let h = hunk(2, 1, 2, 1, vec![hl(LineKind::Remove, "zzz")]);
    // No match anywhere: the declared position is returned regardless.
    assert_eq!(find_best_match(&input, &h, 2), Some(2));
}

#[test]
fn test_hunk_content_trailing_newlines_ignored() {
    // Hunk line content may carry trailing newlines; comparison and output
    // both use the stripped text.
    let input = InputFile::new(sv(&["a", "b", "c"]));
    let h = hunk(2, 1, 2, 1, vec![hl(LineKind::Remove, "b\n"), hl(LineKind::Add, "x\n\n")]);
    let patch = patch_of(vec![h]);
    let mut out = OutState::new();
    let results = merge_patch(&input, &patch, &mut out);
    assert_eq!(results, vec![MergeResult::Clean]);
    assert_eq!(out.lines, sv(&["a", "x", "c"]));
}

#[test]
fn test_merge_hunk_past_document_end_conflicts() {
    // A remove line with no document line left to match is a mismatch, not
    // a silent no-op.
    let input = InputFile::new(sv(&["a"]));
    let h = hunk(5, 1, 5, 1, vec![hl(LineKind::Remove, "zzz")]);
    let mut out = OutState::new();
    let r = merge_hunk(&input, &h, &mut out, 5);
    assert_eq!(r, MergeResult::Conflict);
}

#[test]
fn test_outstate_tracks_output() {
    let mut out = OutState::new();
    assert!(out.zero_output);
    out.write_line("hello");
    assert!(!out.zero_output);
    assert!(out.after_newline);
    assert_eq!(out.lines, sv(&["hello"]));
}

#[test]
fn test_input_file_fetch() {
    let input = InputFile::new(sv(&["first", "second"]));
    assert_eq!(input.num_lines(), 2);
    assert!(input.ifetch(0).is_none());
    assert_eq!(input.ifetch(1).unwrap().ptr, "first");
    assert_eq!(input.ifetch(2).unwrap().ptr, "second");
    assert_eq!(input.ifetch(2).unwrap().size, 6);
    assert!(input.ifetch(3).is_none());
}

#[test]
fn test_apply_to_empty_document() {
    // A pure-insertion hunk onto an empty document emits just its adds.
    let input = InputFile::new(Vec::new());
    let h = hunk(0, 0, 1, 2, vec![hl(LineKind::Add, "first"), hl(LineKind::Add, "second")]);
    let patch = patch_of(vec![h]);
    let mut out = OutState::new();
    let results = merge_patch(&input, &patch, &mut out);
    assert_eq!(results, vec![MergeResult::Clean]);
    assert_eq!(out.lines, sv(&["first", "second"]));
}

#[test]
fn test_trailing_lines_flushed() {
    // Lines after the last hunk pass through unchanged.
    let input = InputFile::new(sv(&["a", "b", "c", "d", "e"]));
    let h = hunk(1, 1, 1, 1, vec![hl(LineKind::Remove, "a"), hl(LineKind::Add, "A")]);
    let patch = patch_of(vec![h]);
    let mut out = OutState::new();
    let results = merge_patch(&input, &patch, &mut out);
    assert_eq!(results, vec![MergeResult::Clean]);
    assert_eq!(out.lines, sv(&["A", "b", "c", "d", "e"]));
}
