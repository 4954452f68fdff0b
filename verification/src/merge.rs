//! The merge engine: one sequential pass over the document and the change
//! set, emitting output lines and classifying every hunk as cleanly applied,
//! conflicting, or already applied.

use vstd::prelude::*;
use vstd::string::*;
use crate::bestmatch::bestmatch;
use crate::common::OutState;
use crate::inp::InputFile;
use crate::pch::{HunkLineV, LineKind, Patch, PatchHunk, PatchHunkV};
use crate::text::{spec_strip_nl, spec_views, str_eq, strip_nl_owned};

verus! {

/// The verdict on one hunk.
#[derive(Debug, Clone, Copy, PartialEq, Eq, Structural)]
pub enum MergeResult {
    Clean,
    Conflict,
    AlreadyApplied,
}

/// The lines the body walk emits for the hunk lines from `k` on, with the
/// document cursor at the 1-based line `idx`: context lines echo the
/// document where it has a line, removes emit nothing, adds emit their
/// content.
pub open spec fn spec_mh_out(doc: Seq<Seq<char>>, hls: Seq<HunkLineV>, idx: int, k: int) -> Seq<
    Seq<char>,
>
    decreases hls.len() - k,
{
    if k < 0 || k >= hls.len() {
        Seq::empty()
    } else {
        match hls[k].kind {
            LineKind::Context => (if 1 <= idx <= doc.len() {
                seq![doc[idx - 1]]
            } else {
                Seq::<Seq<char>>::empty()
            }) + spec_mh_out(doc, hls, idx + 1, k + 1),
            LineKind::Remove => spec_mh_out(doc, hls, idx + 1, k + 1),
            LineKind::Add => seq![spec_strip_nl(hls[k].content)] + spec_mh_out(
                doc,
                hls,
                idx,
                k + 1,
            ),
        }
    }
}

/// Whether the body walk flags a mismatch: a context or remove line whose
/// expected document line is missing (the cursor ran past the document) or
/// differs.
pub open spec fn spec_mh_conflict(doc: Seq<Seq<char>>, hls: Seq<HunkLineV>, idx: int, k: int) -> bool
    decreases hls.len() - k,
{
    if k < 0 || k >= hls.len() {
        false
    } else {
        match hls[k].kind {
            LineKind::Context => !(1 <= idx <= doc.len() && doc[idx - 1] == spec_strip_nl(
                hls[k].content,
            )) || spec_mh_conflict(doc, hls, idx + 1, k + 1),
            LineKind::Remove => !(1 <= idx <= doc.len() && doc[idx - 1] == spec_strip_nl(
                hls[k].content,
            )) || spec_mh_conflict(doc, hls, idx + 1, k + 1),
            LineKind::Add => spec_mh_conflict(doc, hls, idx, k + 1),
        }
    }
}

/// The hunk's new-side content from line `k` on: what the document should
/// hold once the hunk is applied (context and add lines, in order).
pub open spec fn spec_new_side(hls: Seq<HunkLineV>, k: int) -> Seq<Seq<char>>
    decreases hls.len() - k,
{
    if k < 0 || k >= hls.len() {
        Seq::empty()
    } else {
        match hls[k].kind {
            LineKind::Remove => spec_new_side(hls, k + 1),
            _ => seq![spec_strip_nl(hls[k].content)] + spec_new_side(hls, k + 1),
        }
    }
}

/// The hunk's original-side content from line `k` on: what the document
/// should hold before the hunk is applied (context and remove lines).
pub open spec fn spec_orig_side(hls: Seq<HunkLineV>, k: int) -> Seq<Seq<char>>
    decreases hls.len() - k,
{
    if k < 0 || k >= hls.len() {
        Seq::empty()
    } else {
        match hls[k].kind {
            LineKind::Add => spec_orig_side(hls, k + 1),
            _ => seq![spec_strip_nl(hls[k].content)] + spec_orig_side(hls, k + 1),
        }
    }
}

/// The hunk introduces at least one line.
pub open spec fn spec_has_add(hls: Seq<HunkLineV>) -> bool {
    exists|j: int| #![trigger hls[j]] 0 <= j < hls.len() && hls[j].kind == LineKind::Add
}

/// The lines `needle` stand verbatim in `doc` at the 1-based position `pos`
/// (an empty `needle` stands anywhere).
pub open spec fn spec_matches_at(doc: Seq<Seq<char>>, needle: Seq<Seq<char>>, pos: int) -> bool {
    needle.len() == 0 || (1 <= pos && pos - 1 + needle.len() <= doc.len() && doc.subrange(
        pos - 1,
        pos - 1 + needle.len(),
    ) == needle)
}

/// A match of `needle` extended by one more line.
pub proof fn lemma_matches_push(doc: Seq<Seq<char>>, pref: Seq<Seq<char>>, x: Seq<char>, s: int)
    ensures
        spec_matches_at(doc, pref.push(x), s) <==> (spec_matches_at(doc, pref, s) && 1 <= s
            + pref.len() <= doc.len() && doc[s + pref.len() - 1] == x),
{
    let p2 = pref.push(x);
    let n0 = pref.len() as int;
    if spec_matches_at(doc, pref, s) && 1 <= s + n0 <= doc.len() && doc[s + n0 - 1] == x {
        assert(doc.subrange(s - 1, s - 1 + n0 + 1) =~= p2);
        assert(spec_matches_at(doc, p2, s));
    }
    if spec_matches_at(doc, p2, s) {
        assert(doc.subrange(s - 1, s - 1 + n0 + 1)[n0] == doc[s + n0 - 1]);
        assert(doc[s + n0 - 1] == x);
        if n0 > 0 {
            assert(doc.subrange(s - 1, s - 1 + n0) =~= pref);
        }
        assert(spec_matches_at(doc, pref, s));
    }
}

/// A match of a line followed by more lines.
pub proof fn lemma_matches_cons(doc: Seq<Seq<char>>, x: Seq<char>, rest: Seq<Seq<char>>, s: int)
    ensures
        spec_matches_at(doc, seq![x] + rest, s) <==> (1 <= s <= doc.len() && doc[s - 1] == x
            && spec_matches_at(doc, rest, s + 1)),
{
    let w = seq![x] + rest;
    let n1 = rest.len() as int;
    if spec_matches_at(doc, w, s) {
        assert(doc.subrange(s - 1, s + n1)[0] == doc[s - 1]);
        assert(w[0] == x);
        if n1 > 0 {
            assert forall|i: int| 0 <= i < n1 implies doc.subrange(s, s + n1)[i] == rest[i] by {
                assert(rest[i] == w[i + 1]);
                assert(w[i + 1] == doc.subrange(s - 1, s + n1)[i + 1]);
            }
            assert(doc.subrange(s, s + n1) =~= rest);
        }
        assert(1 <= s <= doc.len() && doc[s - 1] == x && spec_matches_at(doc, rest, s + 1));
    }
    if 1 <= s <= doc.len() && doc[s - 1] == x && spec_matches_at(doc, rest, s + 1) {
        assert(doc.subrange(s - 1, s + n1) =~= w);
        assert(spec_matches_at(doc, w, s));
    }
}

/// The verdict on a hunk applied at `start`: a hunk with an add line whose
/// new side already stands at `start` is `AlreadyApplied`; otherwise any
/// body mismatch makes it `Conflict`, and a clean walk `Clean`.  A hunk
/// without add lines is never classified `AlreadyApplied`.
pub open spec fn spec_mh_result(doc: Seq<Seq<char>>, hls: Seq<HunkLineV>, start: int) -> MergeResult {
    if spec_has_add(hls) && spec_matches_at(doc, spec_new_side(hls, 0), start) {
        MergeResult::AlreadyApplied
    } else if spec_mh_conflict(doc, hls, start, 0) {
        MergeResult::Conflict
    } else {
        MergeResult::Clean
    }
}

impl OutState {
    /// Emit one line to the sink.
    pub fn write_line(&mut self, line: &str)
        ensures
            spec_views(final(self).lines@) == spec_views(old(self).lines@).push(line@),
            final(self).lines@.len() == old(self).lines@.len() + 1,
            !final(self).zero_output,
            final(self).after_newline,
    {
        self.lines.push(line.to_owned());
        self.zero_output = false;
        self.after_newline = true;
        proof {
            assert(spec_views(self.lines@) =~= spec_views(old(self).lines@).push(line@));
        }
    }
}

/// A hunk with an add line whose new-side content already stands at the
/// position it is applied at is classified `AlreadyApplied` — never
/// `Conflict` — whatever its context and remove lines say.
pub proof fn lemma_already_applied(doc: Seq<Seq<char>>, hls: Seq<HunkLineV>, start: int)
    requires
        spec_has_add(hls),
        spec_matches_at(doc, spec_new_side(hls, 0), start),
    ensures
        spec_mh_result(doc, hls, start) == MergeResult::AlreadyApplied,
{
}

/// Applying a hunk whose original side stands verbatim at the cursor flags
/// no conflict, and emits exactly the hunk's new side: an exact application
/// rewrites the old content into the new.
pub proof fn lemma_exact_match_apply(doc: Seq<Seq<char>>, hls: Seq<HunkLineV>, idx: int, k: int)
    requires
        0 <= k <= hls.len(),
        spec_matches_at(doc, spec_orig_side(hls, k), idx),
    ensures
        !spec_mh_conflict(doc, hls, idx, k),
        spec_mh_out(doc, hls, idx, k) == spec_new_side(hls, k),
    decreases hls.len() - k,
{
    if k < hls.len() {
        match hls[k].kind {
            LineKind::Context => {
                let x = spec_strip_nl(hls[k].content);
                let os1 = spec_orig_side(hls, k + 1);
                assert(spec_orig_side(hls, k) == seq![x] + os1);
                lemma_matches_cons(doc, x, os1, idx);
                lemma_exact_match_apply(doc, hls, idx + 1, k + 1);
                assert(spec_mh_out(doc, hls, idx, k) =~= seq![doc[idx - 1]] + spec_new_side(
                    hls,
                    k + 1,
                ));
                assert(spec_new_side(hls, k) =~= seq![x] + spec_new_side(hls, k + 1));
            },
            LineKind::Remove => {
                let x = spec_strip_nl(hls[k].content);
                let os1 = spec_orig_side(hls, k + 1);
                assert(spec_orig_side(hls, k) == seq![x] + os1);
                lemma_matches_cons(doc, x, os1, idx);
                lemma_exact_match_apply(doc, hls, idx + 1, k + 1);
            },
            LineKind::Add => {
                assert(spec_orig_side(hls, k) == spec_orig_side(hls, k + 1));
                lemma_exact_match_apply(doc, hls, idx, k + 1);
                assert(spec_mh_out(doc, hls, idx, k) =~= seq![spec_strip_nl(hls[k].content)]
                    + spec_new_side(hls, k + 1));
                assert(spec_new_side(hls, k) =~= seq![spec_strip_nl(hls[k].content)]
                    + spec_new_side(hls, k + 1));
            },
        }
    }
}

/// A hunk whose original side stands verbatim at the chosen position, and
/// whose new side does not (so it is not classified as already applied), is
/// judged Clean and emits exactly its new side.
pub proof fn lemma_exact_match_clean(doc: Seq<Seq<char>>, hls: Seq<HunkLineV>, start: int)
    requires
        spec_matches_at(doc, spec_orig_side(hls, 0), start),
        !(spec_has_add(hls) && spec_matches_at(doc, spec_new_side(hls, 0), start)),
    ensures
        spec_mh_result(doc, hls, start) == MergeResult::Clean,
        spec_mh_out(doc, hls, start, 0) == spec_new_side(hls, 0),
{
    lemma_exact_match_apply(doc, hls, start, 0);
}

/// Merge one hunk into the output, walking its lines against the document
/// from the 1-based line `start_at`, and classify the outcome.
pub fn merge_hunk(
    input: &InputFile,
    patch_hunk: &PatchHunk,
    outstate: &mut OutState,
    start_at: usize,
) -> (r: MergeResult)
    requires
        start_at + patch_hunk.lines@.len() <= usize::MAX,
    ensures
        spec_views(final(outstate).lines@) == spec_views(old(outstate).lines@) + spec_mh_out(
            spec_views(input.lines@),
            patch_hunk@.lines,
            start_at as int,
            0,
        ),
        r == spec_mh_result(spec_views(input.lines@), patch_hunk@.lines, start_at as int),
        final(outstate).zero_output == (old(outstate).zero_output && spec_mh_out(
            spec_views(input.lines@),
            patch_hunk@.lines,
            start_at as int,
            0,
        ).len() == 0),
        final(outstate).after_newline == if spec_mh_out(
            spec_views(input.lines@),
            patch_hunk@.lines,
            start_at as int,
            0,
        ).len() > 0 {
            true
        } else {
            old(outstate).after_newline
        },
{
    let ghost doc = spec_views(input.lines@);
    let ghost hls = patch_hunk@.lines;
    let ghost base = spec_views(old(outstate).lines@);
    let ghost zero0 = old(outstate).zero_output;
    let ghost an0 = old(outstate).after_newline;
    let nlines = patch_hunk.lines.len();

    // Walk the body: emit and detect mismatches.
    let mut input_idx: usize = start_at;
    let mut hunk_idx: usize = 0;
    let mut conflict = false;
    while hunk_idx < nlines
        invariant
            doc == spec_views(input.lines@),
            hls == patch_hunk@.lines,
            base + spec_mh_out(doc, hls, start_at as int, 0) == spec_views(outstate.lines@)
                + spec_mh_out(doc, hls, input_idx as int, hunk_idx as int),
            spec_mh_conflict(doc, hls, start_at as int, 0) == (conflict || spec_mh_conflict(
                doc,
                hls,
                input_idx as int,
                hunk_idx as int,
            )),
            nlines == hls.len(),
            hunk_idx <= nlines,
            start_at <= input_idx,
            input_idx - start_at <= hunk_idx,
            start_at + hls.len() <= usize::MAX,
            outstate.lines@.len() >= old(outstate).lines@.len(),
            spec_views(outstate.lines@).len() >= base.len(),
            spec_views(outstate.lines@).take(base.len() as int) == base,
            outstate.zero_output == (zero0 && outstate.lines@.len() == old(outstate).lines@.len()),
            outstate.after_newline == if outstate.lines@.len() > old(outstate).lines@.len() {
                true
            } else {
                an0
            },
        decreases nlines - hunk_idx,
    {
        let ghost emitted = spec_views(outstate.lines@);
        let kind = patch_hunk.lines[hunk_idx].kind;
        let stripped = strip_nl_owned(patch_hunk.lines[hunk_idx].content.as_str());
        proof {
            assert(hls[hunk_idx as int] == patch_hunk.lines@.map_values(|l: crate::pch::HunkLine| l@)[hunk_idx as int]);
            assert(stripped@ == spec_strip_nl(hls[hunk_idx as int].content));
        }
        match kind {
            LineKind::Context => {
                match input.ifetch(input_idx) {
                    Some(il) => {
                        if !str_eq(il.ptr, stripped.as_str()) {
                            conflict = true;
                        }
                        proof {
                            assert(il.ptr@ == doc[input_idx - 1]);
                        }
                        outstate.write_line(il.ptr);
                        proof {
                            assert(spec_mh_out(doc, hls, input_idx as int, hunk_idx as int)
                                =~= seq![doc[input_idx - 1]] + spec_mh_out(
                                doc,
                                hls,
                                input_idx + 1,
                                hunk_idx + 1,
                            ));
                            assert(emitted + (seq![doc[input_idx - 1]] + spec_mh_out(
                                doc,
                                hls,
                                input_idx + 1,
                                hunk_idx + 1,
                            )) =~= (emitted + seq![doc[input_idx - 1]]) + spec_mh_out(
                                doc,
                                hls,
                                input_idx + 1,
                                hunk_idx + 1,
                            ));
                            assert(spec_views(outstate.lines@) =~= emitted + seq![doc[input_idx
                                - 1]]);
                            assert(spec_views(outstate.lines@).take(base.len() as int) =~= base);
                        }
                    },
                    None => {
                        // No document line left to match: that is a mismatch.
                        conflict = true;
                        proof {
                            assert(spec_mh_out(doc, hls, input_idx as int, hunk_idx as int)
                                =~= spec_mh_out(doc, hls, input_idx + 1, hunk_idx + 1));
                        }
                    },
                }
                input_idx += 1;
            },
            LineKind::Remove => {
                match input.ifetch(input_idx) {
                    Some(il) => {
                        if !str_eq(il.ptr, stripped.as_str()) {
                            conflict = true;
                        }
                        proof {
                            assert(il.ptr@ == doc[input_idx - 1]);
                        }
                    },
                    None => {
                        // No document line left to remove: that is a mismatch.
                        conflict = true;
                    },
                }
                input_idx += 1;
            },
            LineKind::Add => {
                outstate.write_line(stripped.as_str());
                proof {
                    assert(spec_mh_out(doc, hls, input_idx as int, hunk_idx as int) =~= seq![
                        spec_strip_nl(hls[hunk_idx as int].content),
                    ] + spec_mh_out(doc, hls, input_idx as int, hunk_idx + 1));
                    assert(emitted + (seq![spec_strip_nl(hls[hunk_idx as int].content)]
                        + spec_mh_out(doc, hls, input_idx as int, hunk_idx + 1)) =~= (emitted
                        + seq![spec_strip_nl(hls[hunk_idx as int].content)]) + spec_mh_out(
                        doc,
                        hls,
                        input_idx as int,
                        hunk_idx + 1,
                    ));
                    assert(spec_views(outstate.lines@) =~= emitted + seq![spec_strip_nl(hls[
                        hunk_idx as int].content)]);
                    assert(spec_views(outstate.lines@).take(base.len() as int) =~= base);
                }
            },
        }
        hunk_idx += 1;
    }
    proof {
        assert(spec_mh_out(doc, hls, input_idx as int, hunk_idx as int) =~= Seq::<Seq<
            char,
        >>::empty());
        assert(base + spec_mh_out(doc, hls, start_at as int, 0) =~= spec_views(outstate.lines@));
    }

    // Classify: is the new side already present at the start position?
    let mut already = true;
    let mut has_add = false;
    let mut pos: usize = start_at;
    let mut k: usize = 0;
    let ghost ns = spec_new_side(hls, 0);
    let ghost mut pref: Seq<Seq<char>> = Seq::empty();
    proof {
        assert(ns =~= pref + spec_new_side(hls, 0));
        assert(spec_matches_at(doc, pref, start_at as int));
    }
    while k < nlines
        invariant
            doc == spec_views(input.lines@),
            hls == patch_hunk@.lines,
            nlines == hls.len(),
            k <= nlines,
            start_at <= pos,
            pos - start_at == pref.len(),
            pos - start_at <= k,
            start_at + hls.len() <= usize::MAX,
            ns == spec_new_side(hls, 0),
            ns == pref + spec_new_side(hls, k as int),
            already == spec_matches_at(doc, pref, start_at as int),
            has_add == (exists|j: int| #![trigger hls[j]] 0 <= j < k && hls[j].kind
                == LineKind::Add),
        decreases nlines - k,
    {
        let kind = patch_hunk.lines[k].kind;
        let ghost pref0 = pref;
        match kind {
            LineKind::Remove => {
                proof {
                    assert(spec_new_side(hls, k as int) == spec_new_side(hls, k + 1));
                }
            },
            _ => {
                let stripped = strip_nl_owned(patch_hunk.lines[k].content.as_str());
                proof {
                    assert(hls[k as int] == patch_hunk.lines@.map_values(
                        |l: crate::pch::HunkLine| l@,
                    )[k as int]);
                    assert(stripped@ == spec_strip_nl(hls[k as int].content));
                }
                if matches!(kind, LineKind::Add) {
                    has_add = true;
                }
                let here_ok = match input.ifetch(pos) {
                    Some(il) => str_eq(il.ptr, stripped.as_str()),
                    None => false,
                };
                proof {
                    assert(here_ok == (1 <= pos && pos <= doc.len() && doc[pos - 1] == stripped@));
                }
                already = already && here_ok;
                proof {
                    pref = pref0.push(stripped@);
                    assert(spec_new_side(hls, k as int) =~= seq![stripped@] + spec_new_side(
                        hls,
                        k + 1,
                    ));
                    assert(pref0 + spec_new_side(hls, k as int) =~= pref + spec_new_side(
                        hls,
                        k + 1,
                    ));
                    lemma_matches_push(doc, pref0, stripped@, start_at as int);
                }
                pos += 1;
            },
        }
        k += 1;
    }
    proof {
        assert(spec_new_side(hls, k as int) =~= Seq::<Seq<char>>::empty());
        assert(ns =~= pref);
        assert(has_add == spec_has_add(hls));
    }
    if has_add && already {
        MergeResult::AlreadyApplied
    } else if conflict {
        MergeResult::Conflict
    } else {
        MergeResult::Clean
    }
}

/// The relocation search radius: candidate positions within this many lines
/// of the declared start are considered.
pub const SEARCH_RADIUS: usize = 100;

/// The fuzz budget the whole-patch merge pass uses.
pub const DEFAULT_FUZZ: usize = 2;

/// The minimum-coverage policy for fuzzy relocation: all of the hunk's
/// original side but the fuzz budget.
pub open spec fn spec_min_cov(nlen: int, fuzz: int) -> int {
    if nlen >= fuzz {
        nlen - fuzz
    } else {
        0
    }
}

/// The document window of the needle's length at position `p`, truncated at
/// the document's end; empty when `p` lies outside the document.
pub open spec fn spec_window(doc: Seq<Seq<char>>, p: int, nlen: int) -> Seq<Seq<char>> {
    if 1 <= p <= doc.len() {
        doc.subrange(
            p - 1,
            if p - 1 + nlen <= doc.len() {
                p - 1 + nlen
            } else {
                doc.len() as int
            },
        )
    } else {
        Seq::empty()
    }
}

/// The edit cost the Matcher reports for aligning the hunk's original side
/// into the window at `p` (`fuzz + 1` marks failure).
pub open spec fn spec_cost(doc: Seq<Seq<char>>, needle: Seq<Seq<char>>, p: int, fuzz: int) -> int {
    crate::bestmatch::spec_bestmatch(
        spec_window(doc, p, needle.len() as int),
        needle,
        spec_min_cov(needle.len() as int, fuzz),
        fuzz,
    ).0
}

/// The first position in `[p, hi]` with the smallest edit cost, paired with
/// that cost; `(-1, fuzz + 1)` when the range is empty.
pub open spec fn spec_best_off(
    doc: Seq<Seq<char>>,
    needle: Seq<Seq<char>>,
    fuzz: int,
    p: int,
    hi: int,
) -> (int, int)
    decreases hi + 1 - p,
{
    if p > hi {
        (-1int, fuzz + 1)
    } else {
        let c = spec_cost(doc, needle, p, fuzz);
        let rest = spec_best_off(doc, needle, fuzz, p + 1, hi);
        if c <= rest.1 {
            (p, c)
        } else {
            rest
        }
    }
}

/// A best offset is either absent or a real position in the window, with a
/// cost no worse than failure.
proof fn lemma_best_off_props(
    doc: Seq<Seq<char>>,
    needle: Seq<Seq<char>>,
    fuzz: int,
    p: int,
    hi: int,
)
    requires
        0 <= fuzz,
    ensures
        ({
            let b = spec_best_off(doc, needle, fuzz, p, hi);
            (b.0 == -1 && b.1 == fuzz + 1) || (p <= b.0 <= hi && 0 <= b.1 <= fuzz + 1)
        }),
    decreases hi + 1 - p,
{
    if p <= hi {
        lemma_best_off_props(doc, needle, fuzz, p + 1, hi);
        crate::bestmatch::lemma_bestmatch_upper(
            spec_window(doc, p, needle.len() as int),
            needle,
            spec_min_cov(needle.len() as int, fuzz),
            fuzz,
        );
    }
}

/// Where a hunk is applied: its declared start when its original side
/// matches there verbatim (or is empty); otherwise the position within the
/// search radius whose window the Matcher aligns with the fewest edits —
/// accepted only when it improves on the declared position's own cost;
/// otherwise the declared start regardless.
pub open spec fn spec_fbm(doc: Seq<Seq<char>>, h: PatchHunkV, fuzz: int) -> int {
    let needle = spec_orig_side(h.lines, 0);
    if needle.len() == 0 {
        h.orig_start
    } else if spec_matches_at(doc, needle, h.orig_start) {
        h.orig_start
    } else {
        let lo: int = if h.orig_start > SEARCH_RADIUS {
            h.orig_start - SEARCH_RADIUS
        } else {
            1
        };
        let hi: int = if h.orig_start + SEARCH_RADIUS <= doc.len() {
            h.orig_start + SEARCH_RADIUS
        } else {
            doc.len() as int
        };
        let best = spec_best_off(doc, needle, fuzz, lo, hi);
        let cd = spec_cost(doc, needle, h.orig_start, fuzz);
        if best.0 >= 0 && best.1 < cd {
            best.0
        } else {
            h.orig_start
        }
    }
}

/// The chosen position never lies more than the search radius past the
/// declared one.
proof fn lemma_fbm_bound(doc: Seq<Seq<char>>, h: PatchHunkV, fuzz: int)
    requires
        0 <= fuzz,
    ensures
        spec_fbm(doc, h, fuzz) <= h.orig_start + SEARCH_RADIUS,
{
    let needle = spec_orig_side(h.lines, 0);
    if needle.len() != 0 && !spec_matches_at(doc, needle, h.orig_start) {
        let lo: int = if h.orig_start > SEARCH_RADIUS {
            h.orig_start - SEARCH_RADIUS
        } else {
            1
        };
        let hi: int = if h.orig_start + SEARCH_RADIUS <= doc.len() {
            h.orig_start + SEARCH_RADIUS
        } else {
            doc.len() as int
        };
        lemma_best_off_props(doc, needle, fuzz, lo, hi);
    }
}

/// Pushing onto a line list extends its views pointwise.
proof fn lemma_views_push(v: Seq<String>, x: String)
    ensures
        spec_views(v.push(x)) == spec_views(v).push(x@),
{
    assert(spec_views(v.push(x)) =~= spec_views(v).push(x@));
}

/// Do the lines of `needle` stand verbatim in the document at `pos`?
fn matches_at_doc(input: &InputFile, needle: &Vec<String>, pos: usize) -> (r: bool)
    ensures
        r == spec_matches_at(spec_views(input.lines@), spec_views(needle@), pos as int),
{
    let ghost doc = spec_views(input.lines@);
    let ghost nd = spec_views(needle@);
    let nl = needle.len();
    if nl == 0 {
        return true;
    }
    if pos == 0 {
        return false;
    }
    let n = input.num_lines();
    if nl > n || pos - 1 > n - nl {
        proof {
            assert(pos - 1 + nd.len() > doc.len());
        }
        return false;
    }
    let mut j: usize = 0;
    while j < nl
        invariant
            j <= nl,
            nl == nd.len(),
            nl >= 1,
            n == doc.len(),
            doc == spec_views(input.lines@),
            nd == spec_views(needle@),
            1 <= pos,
            pos - 1 + nl <= n,
            forall|i: int| 0 <= i < j ==> doc[pos - 1 + i] == #[trigger] nd[i],
        decreases nl - j,
    {
        let ok = match input.ifetch(pos + j) {
            Some(il) => str_eq(il.ptr, needle[j].as_str()),
            None => false,
        };
        proof {
            assert(1 <= pos + j <= doc.len());
        }
        if !ok {
            proof {
                if spec_matches_at(doc, nd, pos as int) {
                    assert(doc.subrange(pos - 1, pos - 1 + nd.len())[j as int] == doc[pos - 1
                        + j]);
                    assert(nd[j as int] == doc[pos - 1 + j]);
                    assert(false);
                }
            }
            return false;
        }
        j += 1;
    }
    proof {
        assert(doc.subrange(pos - 1, pos - 1 + nd.len()) =~= nd);
    }
    true
}

/// The document window of the needle's length at position `p`.
fn doc_window(input: &InputFile, p: usize, nlen: usize) -> (r: Vec<String>)
    ensures
        spec_views(r@) == spec_window(spec_views(input.lines@), p as int, nlen as int),
{
    let ghost doc = spec_views(input.lines@);
    let mut w: Vec<String> = Vec::new();
    let n = input.num_lines();
    if p < 1 || p > n {
        proof {
            assert(spec_views(w@) =~= spec_window(doc, p as int, nlen as int));
        }
        return w;
    }
    let avail = n - (p - 1);
    let take: usize = if nlen <= avail {
        nlen
    } else {
        avail
    };
    let mut j: usize = 0;
    proof {
        assert(spec_views(w@) =~= doc.subrange(p - 1, p - 1 + 0));
    }
    while j < take
        invariant
            doc == spec_views(input.lines@),
            1 <= p <= n,
            n == doc.len(),
            j <= take,
            p - 1 + take <= n,
            spec_views(w@) == doc.subrange(p - 1, p - 1 + j),
        decreases take - j,
    {
        let s = input.lines[p - 1 + j].clone();
        proof {
            lemma_views_push(w@, s);
            assert(s@ == doc[p - 1 + j]);
            assert(doc.subrange(p - 1, p - 1 + j).push(doc[p - 1 + j]) =~= doc.subrange(
                p - 1,
                p - 1 + (j + 1),
            ));
        }
        w.push(s);
        j += 1;
    }
    proof {
        assert(spec_views(w@) =~= spec_window(doc, p as int, nlen as int));
    }
    w
}

/// The Matcher's edit cost for aligning the needle into the window at `p`.
fn cost_at(input: &InputFile, needle: &Vec<String>, p: usize, fuzz: usize) -> (r: usize)
    requires
        fuzz <= (usize::MAX - 3) / 2,
    ensures
        r == spec_cost(spec_views(input.lines@), spec_views(needle@), p as int, fuzz as int),
        r <= fuzz + 1,
{
    let w = doc_window(input, p, needle.len());
    let mincov: usize = if needle.len() >= fuzz {
        needle.len() - fuzz
    } else {
        0
    };
    proof {
        assert(mincov as int == spec_min_cov(spec_views(needle@).len() as int, fuzz as int));
        crate::bestmatch::lemma_bestmatch_upper(
            spec_views(w@),
            spec_views(needle@),
            mincov as int,
            fuzz as int,
        );
    }
    let (c, _m) = bestmatch(&w, needle, mincov, fuzz);
    c
}

/// Find the position to apply a hunk at: its declared start when its
/// original side (context and remove lines) matches there verbatim; else
/// the window position within the search radius that the Matcher aligns
/// with the fewest edits, accepted only when it beats the declared
/// position's own cost; else the declared start anyway.  Always yields some
/// position.
pub fn find_best_match(input: &InputFile, hunk: &PatchHunk, fuzz: usize) -> (r: Option<usize>)
    requires
        fuzz <= (usize::MAX - 3) / 2,
    ensures
        r matches Some(w) && w == spec_fbm(spec_views(input.lines@), hunk@, fuzz as int),
{
    let ghost doc = spec_views(input.lines@);
    let ghost hv = hunk@;
    // The hunk's original side.
    let mut needle: Vec<String> = Vec::new();
    let mut k: usize = 0;
    let nlines = hunk.lines.len();
    proof {
        assert(spec_views(needle@) =~= Seq::<Seq<char>>::empty());
    }
    while k < nlines
        invariant
            k <= nlines,
            nlines == hv.lines.len(),
            hv == hunk@,
            spec_orig_side(hv.lines, 0) == spec_views(needle@) + spec_orig_side(
                hv.lines,
                k as int,
            ),
        decreases nlines - k,
    {
        let kind = hunk.lines[k].kind;
        let ghost before = spec_views(needle@);
        match kind {
            LineKind::Add => {
                proof {
                    assert(spec_orig_side(hv.lines, k as int) == spec_orig_side(hv.lines, k + 1));
                }
            },
            _ => {
                let stripped = strip_nl_owned(hunk.lines[k].content.as_str());
                proof {
                    assert(hv.lines[k as int] == hunk.lines@.map_values(
                        |l: crate::pch::HunkLine| l@,
                    )[k as int]);
                    assert(stripped@ == spec_strip_nl(hv.lines[k as int].content));
                    lemma_views_push(needle@, stripped);
                }
                needle.push(stripped);
                proof {
                    assert(spec_orig_side(hv.lines, k as int) =~= seq![spec_strip_nl(hv.lines[
                        k as int].content)] + spec_orig_side(hv.lines, k + 1));
                    assert((before + seq![spec_strip_nl(hv.lines[k as int].content)])
                        + spec_orig_side(hv.lines, k + 1) =~= before + (seq![spec_strip_nl(
                        hv.lines[k as int].content,
                    )] + spec_orig_side(hv.lines, k + 1)));
                }
            },
        }
        k += 1;
    }
    proof {
        assert(spec_orig_side(hv.lines, k as int) =~= Seq::<Seq<char>>::empty());
        assert(spec_views(needle@) =~= spec_orig_side(hv.lines, 0));
    }
    if needle.len() == 0 {
        return Some(hunk.orig_start);
    }
    let expected = hunk.orig_start;
    if matches_at_doc(input, &needle, expected) {
        return Some(expected);
    }
    let lo: usize = if expected > SEARCH_RADIUS {
        expected - SEARCH_RADIUS
    } else {
        1
    };
    let n = input.num_lines();
    let hi: usize = if expected <= usize::MAX - SEARCH_RADIUS {
        if expected + SEARCH_RADIUS <= n {
            expected + SEARCH_RADIUS
        } else {
            n
        }
    } else {
        n
    };
    let ghost nd = spec_views(needle@);
    let cd = cost_at(input, &needle, expected, fuzz);
    let count: usize = if hi >= lo {
        hi - lo + 1
    } else {
        0
    };
    let mut off: usize = 0;
    let mut bp: usize = 0;
    let mut bc: usize = fuzz + 2;
    let ghost mut gbp: int = -1;
    proof {
        lemma_best_off_props(doc, nd, fuzz as int, lo as int, hi as int);
    }
    while off < count
        invariant
            off <= count,
            count == if hi >= lo {
                hi - lo + 1
            } else {
                0
            },
            doc == spec_views(input.lines@),
            nd == spec_views(needle@),
            nd == spec_orig_side(hv.lines, 0),
            hv == hunk@,
            fuzz <= (usize::MAX - 3) / 2,
            lo >= 1,
            nd.len() > 0,
            !spec_matches_at(doc, nd, hv.orig_start),
            expected == hv.orig_start,
            cd == spec_cost(doc, nd, hv.orig_start, fuzz as int),
            lo as int == (if hv.orig_start > SEARCH_RADIUS {
                hv.orig_start - SEARCH_RADIUS
            } else {
                1int
            }),
            hi as int == (if hv.orig_start + SEARCH_RADIUS <= doc.len() {
                hv.orig_start + SEARCH_RADIUS
            } else {
                doc.len() as int
            }),
            gbp == -1 <==> bc == fuzz + 2,
            gbp != -1 ==> lo <= gbp <= hi && gbp == bp && bc <= fuzz + 1 && bc == spec_cost(
                doc,
                nd,
                gbp,
                fuzz as int,
            ),
            spec_best_off(doc, nd, fuzz as int, lo as int, hi as int) == (if bc as int
                <= spec_best_off(doc, nd, fuzz as int, lo + off, hi as int).1 {
                (gbp, bc as int)
            } else {
                spec_best_off(doc, nd, fuzz as int, lo + off, hi as int)
            }),
        decreases count - off,
    {
        let p = lo + off;
        let c_p = cost_at(input, &needle, p, fuzz);
        proof {
            let rest1 = spec_best_off(doc, nd, fuzz as int, p + 1, hi as int);
            assert(p <= hi);
            assert(spec_best_off(doc, nd, fuzz as int, p as int, hi as int) == (if c_p as int
                <= rest1.1 {
                (p as int, c_p as int)
            } else {
                rest1
            }));
            lemma_best_off_props(doc, nd, fuzz as int, p + 1, hi as int);
        }
        if c_p < bc {
            bp = p;
            bc = c_p;
            proof {
                gbp = p as int;
            }
        }
        off += 1;
    }
    proof {
        assert(spec_best_off(doc, nd, fuzz as int, lo + off, hi as int) == (
            -1int,
            fuzz as int + 1,
        ));
    }
    if bc <= fuzz + 1 && bc < cd {
        return Some(bp);
    }
    Some(expected)
}

/// The document lines from `a` up to (not including) `b`, as the flush step
/// emits them: lines outside the document are skipped.
pub open spec fn spec_flush(doc: Seq<Seq<char>>, a: int, b: int) -> Seq<Seq<char>>
    decreases b - a,
{
    if a >= b {
        Seq::empty()
    } else {
        (if 1 <= a <= doc.len() {
            seq![doc[a - 1]]
        } else {
            Seq::<Seq<char>>::empty()
        }) + spec_flush(doc, a + 1, b)
    }
}

/// Extending a flush by one line appends that line.
proof fn lemma_flush_snoc(doc: Seq<Seq<char>>, a: int, b: int)
    requires
        a <= b,
    ensures
        spec_flush(doc, a, b + 1) == spec_flush(doc, a, b) + (if 1 <= b <= doc.len() {
            seq![doc[b - 1]]
        } else {
            Seq::<Seq<char>>::empty()
        }),
    decreases b - a,
{
    let tail: Seq<Seq<char>> = if 1 <= b <= doc.len() {
        seq![doc[b - 1]]
    } else {
        Seq::<Seq<char>>::empty()
    };
    if a == b {
        assert(spec_flush(doc, a, b + 1) =~= tail);
        assert(spec_flush(doc, a, b) + tail =~= tail);
    } else {
        lemma_flush_snoc(doc, a + 1, b);
        let head: Seq<Seq<char>> = if 1 <= a <= doc.len() {
            seq![doc[a - 1]]
        } else {
            Seq::<Seq<char>>::empty()
        };
        assert(spec_flush(doc, a, b + 1) == head + spec_flush(doc, a + 1, b + 1));
        assert(head + (spec_flush(doc, a + 1, b) + tail) =~= (head + spec_flush(doc, a + 1, b))
            + tail);
    }
}

/// The output and the verdicts of applying the hunks from `k` on, with the
/// document cursor at `cur`: each hunk is located, the document up to that
/// point is flushed, the hunk body is walked, and the cursor advances by
/// the hunk's declared original count; after the last hunk the rest of the
/// document is flushed.
pub open spec fn spec_mp_step(doc: Seq<Seq<char>>, hs: Seq<PatchHunkV>, k: int, cur: int) -> (
    Seq<Seq<char>>,
    Seq<MergeResult>,
)
    decreases hs.len() - k,
{
    if k < 0 || k >= hs.len() {
        (spec_flush(doc, cur, doc.len() as int + 1), Seq::empty())
    } else {
        let w = spec_fbm(doc, hs[k], DEFAULT_FUZZ as int);
        let out1 = spec_flush(doc, cur, w) + spec_mh_out(doc, hs[k].lines, w, 0);
        let res = spec_mh_result(doc, hs[k].lines, w);
        let cur2: int = if w + hs[k].orig_count <= usize::MAX {
            w + hs[k].orig_count
        } else {
            usize::MAX as int
        };
        let rest = spec_mp_step(doc, hs, k + 1, cur2);
        (out1 + rest.0, seq![res] + rest.1)
    }
}

/// A change set is exact for a document, from hunk `k` with the cursor at
/// `cur`, when every remaining hunk's original side stands verbatim at its
/// declared start, the declared original count agrees with that side, hunks
/// come in order without overlapping, and none is already applied.
pub open spec fn spec_exact_chain(doc: Seq<Seq<char>>, hs: Seq<PatchHunkV>, k: int, cur: int) -> bool
    decreases hs.len() - k,
{
    if k < 0 || k >= hs.len() {
        true
    } else {
        let h = hs[k];
        &&& cur <= h.orig_start
        &&& 1 <= h.orig_start
        &&& h.orig_start + h.orig_count <= usize::MAX
        &&& h.orig_count == spec_orig_side(h.lines, 0).len()
        &&& spec_matches_at(doc, spec_orig_side(h.lines, 0), h.orig_start)
        &&& !(spec_has_add(h.lines) && spec_matches_at(doc, spec_new_side(h.lines, 0), h.orig_start))
        &&& spec_exact_chain(doc, hs, k + 1, h.orig_start + h.orig_count)
    }
}

/// The document an exact change set describes: the untouched lines up to
/// each hunk, that hunk's new side, and the rest of the document after the
/// last hunk.
pub open spec fn spec_expected_out(doc: Seq<Seq<char>>, hs: Seq<PatchHunkV>, k: int, cur: int) -> Seq<
    Seq<char>,
>
    decreases hs.len() - k,
{
    if k < 0 || k >= hs.len() {
        spec_flush(doc, cur, doc.len() as int + 1)
    } else {
        spec_flush(doc, cur, hs[k].orig_start) + spec_new_side(hs[k].lines, 0)
            + spec_expected_out(doc, hs, k + 1, hs[k].orig_start + hs[k].orig_count)
    }
}

/// Round trip: applying an exact change set — one whose hunks' original
/// sides stand verbatim at their declared positions, in order — emits
/// exactly the document with each hunk's new side spliced in, and judges
/// every hunk Clean.  In particular, applying the change set that describes
/// the difference between two documents back onto the first reproduces the
/// second.
pub proof fn lemma_round_trip(doc: Seq<Seq<char>>, hs: Seq<PatchHunkV>, k: int, cur: int)
    requires
        0 <= k <= hs.len(),
        spec_exact_chain(doc, hs, k, cur),
    ensures
        spec_mp_step(doc, hs, k, cur).0 == spec_expected_out(doc, hs, k, cur),
        k < hs.len() ==> spec_mp_step(doc, hs, k, cur).1 =~= Seq::new(
            (hs.len() - k) as nat,
            |i: int| MergeResult::Clean,
        ),
    decreases hs.len() - k,
{
    if 0 <= k && k < hs.len() {
        let h = hs[k];
        assert(spec_fbm(doc, h, DEFAULT_FUZZ as int) == h.orig_start);
        lemma_exact_match_clean(doc, h.lines, h.orig_start);
        lemma_round_trip(doc, hs, k + 1, h.orig_start + h.orig_count);
        let cur2: int = h.orig_start + h.orig_count;
        let rest = spec_mp_step(doc, hs, k + 1, cur2);
        assert(spec_mp_step(doc, hs, k, cur).0 == (spec_flush(doc, cur, h.orig_start)
            + spec_new_side(h.lines, 0)) + rest.0);
        assert((spec_flush(doc, cur, h.orig_start) + spec_new_side(h.lines, 0)) + rest.0
            =~= spec_flush(doc, cur, h.orig_start) + spec_new_side(h.lines, 0)
            + spec_expected_out(doc, hs, k + 1, cur2));
        if k + 1 < hs.len() {
            assert(spec_mp_step(doc, hs, k, cur).1 =~= Seq::new(
                (hs.len() - k) as nat,
                |i: int| MergeResult::Clean,
            ));
        } else {
            assert(rest.1 =~= Seq::<MergeResult>::empty());
            assert(spec_mp_step(doc, hs, k, cur).1 =~= Seq::new(
                (hs.len() - k) as nat,
                |i: int| MergeResult::Clean,
            ));
        }
    }
}

/// Merge a whole change set into the output: locate, flush, and walk each
/// hunk in order, then flush the rest of the document.  Returns one verdict
/// per hunk.
pub fn merge_patch(input: &InputFile, patch: &Patch, outstate: &mut OutState) -> (r: Vec<
    MergeResult,
>)
    requires
        input.lines@.len() < usize::MAX,
        forall|k: int|
            0 <= k < patch@.hunks.len() ==> (#[trigger] patch@.hunks[k]).orig_start + SEARCH_RADIUS + patch@.hunks[k].lines.len()
                <= usize::MAX,
    ensures
        spec_views(final(outstate).lines@) == spec_views(old(outstate).lines@) + spec_mp_step(
            spec_views(input.lines@),
            patch@.hunks,
            0,
            1,
        ).0,
        r@ == spec_mp_step(spec_views(input.lines@), patch@.hunks, 0, 1).1,
        final(outstate).zero_output == (old(outstate).zero_output && spec_mp_step(
            spec_views(input.lines@),
            patch@.hunks,
            0,
            1,
        ).0.len() == 0),
        final(outstate).after_newline == if spec_mp_step(
            spec_views(input.lines@),
            patch@.hunks,
            0,
            1,
        ).0.len() > 0 {
            true
        } else {
            old(outstate).after_newline
        },
{
    let ghost doc = spec_views(input.lines@);
    let ghost hvs = patch@.hunks;
    let ghost base = spec_views(old(outstate).lines@);
    let ghost zero0 = old(outstate).zero_output;
    let ghost an0 = old(outstate).after_newline;
    let mut results: Vec<MergeResult> = Vec::new();
    let mut current_line: usize = 1;
    let mut k: usize = 0;
    let nh = patch.hunks.len();
    while k < nh
        invariant
            doc == spec_views(input.lines@),
            hvs == patch@.hunks,
            nh == hvs.len(),
            k <= nh,
            input.lines@.len() < usize::MAX,
            forall|kk: int|
                0 <= kk < hvs.len() ==> (#[trigger] hvs[kk]).orig_start + SEARCH_RADIUS + hvs[kk].lines.len()
                    <= usize::MAX,
            base + spec_mp_step(doc, hvs, 0, 1).0 == spec_views(outstate.lines@) + spec_mp_step(
                doc,
                hvs,
                k as int,
                current_line as int,
            ).0,
            spec_mp_step(doc, hvs, 0, 1).1 == results@ + spec_mp_step(
                doc,
                hvs,
                k as int,
                current_line as int,
            ).1,
            outstate.lines@.len() >= old(outstate).lines@.len(),
            outstate.zero_output == (zero0 && outstate.lines@.len() == old(outstate).lines@.len()),
            outstate.after_newline == if outstate.lines@.len() > old(outstate).lines@.len() {
                true
            } else {
                an0
            },
        decreases nh - k,
    {
        let hunk = &patch.hunks[k];
        proof {
            assert(hunk@ == hvs[k as int]);
        }
        let w = match find_best_match(input, hunk, DEFAULT_FUZZ) {
            Some(x) => x,
            None => hunk.orig_start,
        };
        proof {
            assert(w == spec_fbm(doc, hvs[k as int], DEFAULT_FUZZ as int));
            lemma_fbm_bound(doc, hvs[k as int], DEFAULT_FUZZ as int);
        }
        // Flush the unchanged document lines before the hunk.
        let ghost snap = spec_views(outstate.lines@);
        let ghost cl0 = current_line as int;
        while current_line < w
            invariant
                doc == spec_views(input.lines@),
                cl0 <= current_line,
                current_line <= w || current_line == cl0,
                spec_views(outstate.lines@) == snap + spec_flush(doc, cl0, current_line as int),
                outstate.lines@.len() >= old(outstate).lines@.len(),
                outstate.zero_output == (zero0 && outstate.lines@.len() == old(
                    outstate,
                ).lines@.len()),
                outstate.after_newline == if outstate.lines@.len() > old(
                    outstate,
                ).lines@.len() {
                    true
                } else {
                    an0
                },
            decreases w - current_line,
        {
            proof {
                lemma_flush_snoc(doc, cl0, current_line as int);
            }
            match input.ifetch(current_line) {
                Some(il) => {
                    proof {
                        assert(il.ptr@ == doc[current_line - 1]);
                    }
                    outstate.write_line(il.ptr);
                },
                None => {
                },
            }
            current_line += 1;
        }
        proof {
            assert(spec_views(outstate.lines@) == snap + spec_flush(doc, cl0, w as int));
        }
        // Walk the hunk body and record its verdict.
        let ghost pre_hunk = spec_views(outstate.lines@);
        let ghost results0 = results@;
        let res = merge_hunk(input, hunk, outstate, w);
        results.push(res);
        // Advance past the hunk's declared original extent.
        let oc = hunk.orig_count;
        current_line = if w <= usize::MAX - oc {
            w + oc
        } else {
            usize::MAX
        };
        proof {
            let ki = k as int;
            let cur2: int = if w + hvs[ki].orig_count <= usize::MAX {
                w + hvs[ki].orig_count
            } else {
                usize::MAX as int
            };
            assert(current_line as int == cur2);
            let out1 = spec_flush(doc, cl0, w as int) + spec_mh_out(doc, hvs[ki].lines, w as int, 0);
            let rest = spec_mp_step(doc, hvs, ki + 1, cur2);
            assert(spec_mp_step(doc, hvs, ki, cl0).0 == out1 + rest.0);
            assert(spec_mp_step(doc, hvs, ki, cl0).1 == seq![
                spec_mh_result(doc, hvs[ki].lines, w as int),
            ] + rest.1);
            assert(spec_views(outstate.lines@) =~= (snap + spec_flush(doc, cl0, w as int))
                + spec_mh_out(doc, hvs[ki].lines, w as int, 0));
            assert(spec_views(outstate.lines@) + rest.0 =~= snap + (out1 + rest.0));
            assert(results@ =~= results0.push(res));
            assert(results0.push(res) + rest.1 =~= results0 + (seq![
                spec_mh_result(doc, hvs[ki].lines, w as int),
            ] + rest.1));
        }
        k += 1;
    }
    // Flush the rest of the document.
    let ghost snap = spec_views(outstate.lines@);
    let ghost cl0 = current_line as int;
    let n = input.num_lines();
    while current_line <= n
        invariant
            doc == spec_views(input.lines@),
            n == doc.len(),
            n < usize::MAX,
            cl0 <= current_line,
            current_line <= n + 1 || current_line == cl0,
            spec_views(outstate.lines@) == snap + spec_flush(doc, cl0, current_line as int),
            outstate.lines@.len() >= old(outstate).lines@.len(),
            outstate.zero_output == (zero0 && outstate.lines@.len() == old(outstate).lines@.len()),
            outstate.after_newline == if outstate.lines@.len() > old(outstate).lines@.len() {
                true
            } else {
                an0
            },
        decreases n + 1 - current_line,
    {
        proof {
            lemma_flush_snoc(doc, cl0, current_line as int);
        }
        match input.ifetch(current_line) {
            Some(il) => {
                proof {
                    assert(il.ptr@ == doc[current_line - 1]);
                }
                outstate.write_line(il.ptr);
            },
            None => {
            },
        }
        current_line += 1;
    }
    proof {
        assert(spec_flush(doc, cl0, current_line as int) =~= spec_flush(doc, cl0, doc.len() as int + 1));
        assert(spec_mp_step(doc, hvs, k as int, cl0).1 =~= Seq::<MergeResult>::empty());
        assert(spec_views(outstate.lines@).len() == outstate.lines@.len());
        assert(base.len() == old(outstate).lines@.len());
        assert(outstate.lines@.len() == base.len() + spec_mp_step(doc, hvs, 0, 1).0.len());
    }
    results
}

} // verus!
