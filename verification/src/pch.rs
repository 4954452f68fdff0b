//! The diff parser: turns a raw line stream into a structured, dialect-tagged
//! change set.  Three dialects are recognised: unified (`@@ -a,b +c,d @@`),
//! context (`*** a,b ****` / `--- c,d ----` blocks), and normal (ed-style
//! `AcB` / `AdB` / `AaB` commands).

use vstd::prelude::*;
use vstd::string::*;
use crate::text::{
    find_char, lemma_find_char, parse_or, skip_ws_str, spec_dec, spec_find_char, spec_is_digit,
    spec_parse_or, spec_skip_ws, spec_starts_with, spec_strip_prefix_rep, spec_strip_suffix_rep,
    spec_tail_from, spec_take_nonws, spec_trim, spec_views, starts_with_str, strip_prefix_rep,
    strip_suffix_rep, suffix_clamped, take_nonws_str, trim_str, usize_to_string,
};

verus! {

/// The dialect a change set was written in.
#[derive(Debug, Clone, Copy, PartialEq, Eq, Structural)]
pub enum DiffType {
    NoDiff,
    ContextDiff,
    NormalDiff,
    EdDiff,
    NewContextDiff,
    UniDiff,
    GitBinaryDiff,
}

/// What one hunk line does to the document.
#[derive(Debug, Clone, Copy, PartialEq, Eq, Structural)]
pub enum LineKind {
    Context,
    Add,
    Remove,
}

/// One line of a hunk: its kind and its text.
#[derive(Debug, Clone)]
pub struct HunkLine {
    pub kind: LineKind,
    pub content: String,
}

/// Mathematical image of a `HunkLine`.
pub struct HunkLineV {
    pub kind: LineKind,
    pub content: Seq<char>,
}

impl View for HunkLine {
    type V = HunkLineV;

    open spec fn view(&self) -> HunkLineV {
        HunkLineV { kind: self.kind, content: self.content@ }
    }
}

/// One contiguous block of change description.
#[derive(Debug, Clone)]
pub struct PatchHunk {
    pub orig_start: usize,
    pub orig_count: usize,
    pub new_start: usize,
    pub new_count: usize,
    pub lines: Vec<HunkLine>,
    pub func: Option<String>,
}

/// Mathematical image of a `PatchHunk`.
pub struct PatchHunkV {
    pub orig_start: int,
    pub orig_count: int,
    pub new_start: int,
    pub new_count: int,
    pub lines: Seq<HunkLineV>,
    pub func: Option<Seq<char>>,
}

/// The view of an optional owned string.
pub open spec fn spec_view_opt(o: Option<String>) -> Option<Seq<char>> {
    match o {
        Some(s) => Some(s@),
        None => None,
    }
}

impl View for PatchHunk {
    type V = PatchHunkV;

    open spec fn view(&self) -> PatchHunkV {
        PatchHunkV {
            orig_start: self.orig_start as int,
            orig_count: self.orig_count as int,
            new_start: self.new_start as int,
            new_count: self.new_count as int,
            lines: self.lines@.map_values(|l: HunkLine| l@),
            func: spec_view_opt(self.func),
        }
    }
}

/// File-level metadata gathered from the patch headers.
#[derive(Debug, Clone)]
pub struct PatchHeader {
    pub old_file: Option<String>,
    pub new_file: Option<String>,
    pub index_file: Option<String>,
    pub old_time: Option<String>,
    pub new_time: Option<String>,
    pub old_mode: Option<u32>,
    pub new_mode: Option<u32>,
    pub sha1_old: Option<String>,
    pub sha1_new: Option<String>,
}

/// Mathematical image of a `PatchHeader`.
pub struct PatchHeaderV {
    pub old_file: Option<Seq<char>>,
    pub new_file: Option<Seq<char>>,
    pub index_file: Option<Seq<char>>,
    pub old_time: Option<Seq<char>>,
    pub new_time: Option<Seq<char>>,
    pub old_mode: Option<u32>,
    pub new_mode: Option<u32>,
    pub sha1_old: Option<Seq<char>>,
    pub sha1_new: Option<Seq<char>>,
}

impl View for PatchHeader {
    type V = PatchHeaderV;

    open spec fn view(&self) -> PatchHeaderV {
        PatchHeaderV {
            old_file: spec_view_opt(self.old_file),
            new_file: spec_view_opt(self.new_file),
            index_file: spec_view_opt(self.index_file),
            old_time: spec_view_opt(self.old_time),
            new_time: spec_view_opt(self.new_time),
            old_mode: self.old_mode,
            new_mode: self.new_mode,
            sha1_old: spec_view_opt(self.sha1_old),
            sha1_new: spec_view_opt(self.sha1_new),
        }
    }
}

/// A parsed change set: dialect, header metadata, and the hunks in order.
#[derive(Debug, Clone)]
pub struct Patch {
    pub diff_type: DiffType,
    pub header: PatchHeader,
    pub hunks: Vec<PatchHunk>,
}

/// Mathematical image of a `Patch`.
pub struct PatchV {
    pub diff_type: DiffType,
    pub header: PatchHeaderV,
    pub hunks: Seq<PatchHunkV>,
}

impl View for Patch {
    type V = PatchV;

    open spec fn view(&self) -> PatchV {
        PatchV {
            diff_type: self.diff_type,
            header: self.header@,
            hunks: self.hunks@.map_values(|h: PatchHunk| h@),
        }
    }
}

/// Read `start[,count]` with a comma-separated count that defaults to 1,
/// as unified and context range fields do.
pub open spec fn spec_comma_range(t: Seq<char>) -> (int, int) {
    let k = spec_find_char(t, ',');
    if k < t.len() {
        (spec_parse_or(t.take(k), 1), spec_parse_or(t.skip(k + 1), 1))
    } else {
        (spec_parse_or(t, 1), 1)
    }
}

/// Executable form of `spec_comma_range`.
fn comma_range(t: &str) -> (r: (usize, usize))
    ensures
        r.0 == spec_comma_range(t@).0,
        r.1 == spec_comma_range(t@).1,
{
    let n = t.unicode_len();
    let k = find_char(t, ',');
    proof {
        lemma_find_char(t@, ',');
    }
    if k < n {
        let left = t.substring_char(0, k);
        let right = t.substring_char(k + 1, n);
        proof {
            assert(left@ =~= t@.take(k as int));
            assert(right@ =~= t@.skip(k + 1));
        }
        (parse_or(left, 1), parse_or(right, 1))
    } else {
        (parse_or(t, 1), 1)
    }
}

/// Read a normal-dialect range: `start,end` maps to `(start, end - start + 1)`,
/// a bare number to `(number, 1)`; unreadable fields fall back leniently.
pub open spec fn spec_range_pair(t: Seq<char>) -> (int, int) {
    let t2 = spec_trim(t);
    let k = spec_find_char(t2, ',');
    if k < t2.len() {
        let sv = spec_parse_or(t2.take(k), 1);
        let ev = spec_parse_or(t2.skip(k + 1), sv);
        if ev >= sv {
            if ev - sv < usize::MAX {
                (sv, ev - sv + 1)
            } else {
                (sv, usize::MAX as int)
            }
        } else {
            (sv, 1)
        }
    } else {
        (spec_parse_or(t2, 1), 1)
    }
}

/// Parse a normal-dialect range string into its start line and line count.
pub fn parse_range(range: &str, start: &mut usize, count: &mut usize)
    ensures
        *final(start) == spec_range_pair(range@).0,
        *final(count) == spec_range_pair(range@).1,
{
    let t = trim_str(range);
    let n = t.unicode_len();
    let k = find_char(t, ',');
    proof {
        lemma_find_char(t@, ',');
    }
    if k < n {
        let left = t.substring_char(0, k);
        let right = t.substring_char(k + 1, n);
        proof {
            assert(left@ =~= t@.take(k as int));
            assert(right@ =~= t@.skip(k + 1));
        }
        let sv = parse_or(left, 1);
        let ev = parse_or(right, sv);
        *start = sv;
        if ev >= sv {
            if ev - sv < usize::MAX {
                *count = ev - sv + 1;
            } else {
                *count = usize::MAX;
            }
        } else {
            *count = 1;
        }
    } else {
        *start = parse_or(t, 1);
        *count = 1;
    }
}

/// Leading `-` and `+` characters stripped off a header line.
pub open spec fn spec_strip_pm(s: Seq<char>) -> Seq<char>
    decreases s.len(),
{
    if s.len() > 0 && (s[0] == '-' || s[0] == '+') {
        spec_strip_pm(s.skip(1))
    } else {
        s
    }
}

/// The file name carried by a header line: what remains after stripping
/// leading `-`/`+` markers and whitespace, up to the next whitespace.
pub open spec fn spec_extract_filename(s: Seq<char>) -> Seq<char> {
    spec_take_nonws(spec_skip_ws(spec_strip_pm(s)))
}

/// Extract the file name from a `---`, `+++`, or `***` header line.
pub fn extract_filename(line: &str) -> (r: String)
    ensures
        r@ == spec_extract_filename(line@),
{
    let mut t: &str = line;
    let mut n: usize = t.unicode_len();
    while n > 0 && (t.get_char(0) == '-' || t.get_char(0) == '+')
        invariant
            n == t@.len(),
            spec_strip_pm(line@) == spec_strip_pm(t@),
        decreases n,
    {
        let t2 = t.substring_char(1, n);
        proof {
            assert(t2@ =~= t@.skip(1));
        }
        t = t2;
        n = n - 1;
    }
    let u = take_nonws_str(skip_ws_str(t));
    u.to_owned()
}

/// First position at or after `from` where `@@` occurs, or the line length.
pub open spec fn spec_find_dd(s: Seq<char>, from: int) -> int
    decreases s.len() - from,
{
    if from + 2 > s.len() {
        s.len() as int
    } else if s[from] == '@' && s[from + 1] == '@' {
        from
    } else {
        spec_find_dd(s, from + 1)
    }
}

/// `spec_find_dd` stays within the line, and where it lands, `@@` stands.
proof fn lemma_find_dd_bounds(s: Seq<char>, from: int)
    requires
        0 <= from <= s.len(),
    ensures
        from <= spec_find_dd(s, from) <= s.len(),
        spec_find_dd(s, from) < s.len() ==> spec_find_dd(s, from) + 2 <= s.len(),
    decreases s.len() - from,
{
    if from + 2 > s.len() {
    } else if s[from] == '@' && s[from + 1] == '@' {
    } else {
        lemma_find_dd_bounds(s, from + 1);
    }
}

/// Executable form of `spec_find_dd`.
fn find_dd(s: &str, from: usize) -> (r: usize)
    requires
        from <= s@.len(),
    ensures
        r == spec_find_dd(s@, from as int),
{
    let n = s.unicode_len();
    let mut i: usize = from;
    while n >= 2 && i <= n - 2 && !(s.get_char(i) == '@' && s.get_char(i + 1) == '@')
        invariant
            from <= i,
            i <= n,
            n == s@.len(),
            spec_find_dd(s@, from as int) == spec_find_dd(s@, i as int),
        decreases n - i,
    {
        i += 1;
    }
    if n >= 2 && i <= n - 2 {
        i
    } else {
        n
    }
}

/// The longest whitespace-free prefix is no longer than the string.
proof fn lemma_take_nonws_len(s: Seq<char>)
    ensures
        spec_take_nonws(s).len() <= s.len(),
    decreases s.len(),
{
    if s.len() > 0 && !crate::text::spec_is_space(s[0]) {
        lemma_take_nonws_len(s.skip(1));
    }
}

/// A unified range token (`-a,b` or `+c,d`) read after stripping its marker.
pub open spec fn spec_uni_range(t: Seq<char>, strip: char) -> (int, int) {
    spec_comma_range(spec_strip_prefix_rep(t, seq![strip]))
}

/// The five fields of a unified hunk header
/// `@@ -origStart[,origCount] +newStart[,newCount] @@ [label]`.
pub open spec fn spec_uni_header(s: Seq<char>) -> (int, int, int, int, Option<Seq<char>>) {
    let a = spec_find_dd(s, 0);
    let b = spec_find_dd(s, a + 2);
    let seg = if a == s.len() {
        Seq::<char>::empty()
    } else {
        spec_trim(s.subrange(a + 2, b))
    };
    let seg1 = spec_skip_ws(seg);
    let tok1 = spec_take_nonws(seg1);
    let rest = spec_skip_ws(seg1.skip(tok1.len() as int));
    let tok2 = spec_take_nonws(rest);
    let o = spec_uni_range(tok1, '-');
    let nn = spec_uni_range(tok2, '+');
    let lab = if b == s.len() {
        Seq::<char>::empty()
    } else {
        spec_trim(s.subrange(b + 2, s.len() as int))
    };
    let func = if b < s.len() && lab.len() > 0 {
        Some(lab)
    } else {
        None
    };
    (o.0, o.1, nn.0, nn.1, func)
}

/// Executable reading of a unified hunk header.
fn uni_header(line: &str) -> (r: (usize, usize, usize, usize, Option<String>))
    ensures
        r.0 == spec_uni_header(line@).0,
        r.1 == spec_uni_header(line@).1,
        r.2 == spec_uni_header(line@).2,
        r.3 == spec_uni_header(line@).3,
        spec_view_opt(r.4) == spec_uni_header(line@).4,
{
    let n = line.unicode_len();
    let a = find_dd(line, 0);
    proof {
        lemma_find_dd_bounds(line@, 0);
    }
    let mut b: usize = n;
    let mut seg: &str = "";
    if a < n {
        b = find_dd(line, a + 2);
        proof {
            lemma_find_dd_bounds(line@, a + 2);
        }
        let mid = line.substring_char(a + 2, b);
        proof {
            assert(mid@ =~= line@.subrange(a + 2, b as int));
        }
        seg = trim_str(mid);
    } else {
        proof {
            reveal_strlit("");
            assert(seg@ =~= Seq::<char>::empty());
        }
    }
    let seg1 = skip_ws_str(seg);
    let tok1 = take_nonws_str(seg1);
    let t1len = tok1.unicode_len();
    proof {
        lemma_take_nonws_len(seg1@);
    }
    let rest0 = seg1.substring_char(t1len, seg1.unicode_len());
    proof {
        assert(rest0@ =~= seg1@.skip(t1len as int));
    }
    let rest = skip_ws_str(rest0);
    let tok2 = take_nonws_str(rest);
    let t1s = strip_prefix_rep(tok1, "-");
    proof {
        reveal_strlit("-");
        assert("-"@ =~= seq!['-']);
    }
    let (os, oc) = comma_range(t1s);
    let t2s = strip_prefix_rep(tok2, "+");
    proof {
        reveal_strlit("+");
        assert("+"@ =~= seq!['+']);
    }
    let (ns2, nc) = comma_range(t2s);
    let func: Option<String> = if b < n {
        let lab = trim_str(line.substring_char(b + 2, n));
        proof {
            assert(line@.subrange(b + 2, n as int) =~= line@.subrange(b + 2, line@.len() as int));
        }
        if lab.unicode_len() > 0 {
            Some(lab.to_owned())
        } else {
            None
        }
    } else {
        None
    };
    (os, oc, ns2, nc, func)
}

/// A line that ends a unified hunk body: the next hunk header or file header.
pub open spec fn spec_is_uni_boundary(l: Seq<char>) -> bool {
    spec_starts_with(l, seq!['@', '@']) || spec_starts_with(l, seq!['-', '-', '-'])
        || spec_starts_with(l, seq!['+', '+', '+'])
}

/// Executable form of `spec_is_uni_boundary`.
fn is_uni_boundary(l: &str) -> (r: bool)
    ensures
        r == spec_is_uni_boundary(l@),
{
    proof {
        reveal_strlit("@@");
        reveal_strlit("---");
        reveal_strlit("+++");
        assert("@@"@ =~= seq!['@', '@']);
        assert("---"@ =~= seq!['-', '-', '-']);
        assert("+++"@ =~= seq!['+', '+', '+']);
    }
    starts_with_str(l, "@@") || starts_with_str(l, "---") || starts_with_str(l, "+++")
}

/// How one unified body line is classified by its leading character.
pub open spec fn spec_uni_classify(l: Seq<char>) -> Seq<HunkLineV> {
    let c = if l.len() > 0 {
        l[0]
    } else {
        ' '
    };
    if c == '+' {
        seq![HunkLineV { kind: LineKind::Add, content: spec_tail_from(l, 1) }]
    } else if c == '-' {
        seq![HunkLineV { kind: LineKind::Remove, content: spec_tail_from(l, 1) }]
    } else if c == ' ' {
        seq![HunkLineV { kind: LineKind::Context, content: spec_tail_from(l, 1) }]
    } else {
        Seq::empty()
    }
}

/// The body of a unified hunk from line `i` on, with the index where it ends.
pub open spec fn spec_uni_body(lines: Seq<Seq<char>>, i: int) -> (Seq<HunkLineV>, int)
    decreases lines.len() - i,
{
    if i < 0 || i >= lines.len() || spec_is_uni_boundary(lines[i]) {
        (Seq::<HunkLineV>::empty(), i)
    } else {
        let r = spec_uni_body(lines, i + 1);
        (spec_uni_classify(lines[i]) + r.0, r.1)
    }
}

/// The body scan only moves forward, and stops within the input.
proof fn lemma_uni_body_range(lines: Seq<Seq<char>>, i: int)
    requires
        0 <= i <= lines.len(),
    ensures
        i <= spec_uni_body(lines, i).1 <= lines.len(),
    decreases lines.len() - i,
{
    if i < lines.len() && !spec_is_uni_boundary(lines[i]) {
        lemma_uni_body_range(lines, i + 1);
    }
}

/// The whole unified hunk at `start`, with the number of lines it consumed.
pub open spec fn spec_uni_hunk(lines: Seq<Seq<char>>, start: int) -> (PatchHunkV, int) {
    let h = spec_uni_header(lines[start]);
    let body = spec_uni_body(lines, start + 1);
    (
        PatchHunkV {
            orig_start: h.0,
            orig_count: h.1,
            new_start: h.2,
            new_count: h.3,
            lines: body.0,
            func: h.4,
        },
        body.1 - start,
    )
}

/// How many hunk lines consume original-document lines (context + remove).
pub open spec fn spec_count_orig(hls: Seq<HunkLineV>) -> int
    decreases hls.len(),
{
    if hls.len() == 0 {
        0
    } else {
        spec_count_orig(hls.take(hls.len() - 1)) + if hls[hls.len() - 1].kind == LineKind::Add {
            0int
        } else {
            1int
        }
    }
}

/// How many hunk lines produce new-document lines (context + add).
pub open spec fn spec_count_new(hls: Seq<HunkLineV>) -> int
    decreases hls.len(),
{
    if hls.len() == 0 {
        0
    } else {
        spec_count_new(hls.take(hls.len() - 1)) + if hls[hls.len() - 1].kind == LineKind::Remove {
            0int
        } else {
            1int
        }
    }
}

/// Count both sides of a hunk body.
fn count_sides(lines: &Vec<HunkLine>) -> (r: (usize, usize))
    ensures
        r.0 == spec_count_orig(lines@.map_values(|l: HunkLine| l@)),
        r.1 == spec_count_new(lines@.map_values(|l: HunkLine| l@)),
{
    let ghost hv = lines@.map_values(|l: HunkLine| l@);
    let n = lines.len();
    let mut co: usize = 0;
    let mut cn: usize = 0;
    let mut i: usize = 0;
    while i < n
        invariant
            i <= n,
            n == hv.len(),
            hv == lines@.map_values(|l: HunkLine| l@),
            co <= i,
            cn <= i,
            co == spec_count_orig(hv.take(i as int)),
            cn == spec_count_new(hv.take(i as int)),
        decreases n - i,
    {
        proof {
            assert(hv.take(i + 1).take(i as int) =~= hv.take(i as int));
            assert(hv.take(i + 1)[i as int] == hv[i as int]);
            assert(hv[i as int] == lines@[i as int]@);
        }
        match lines[i].kind {
            LineKind::Add => {
                cn += 1;
            },
            LineKind::Remove => {
                co += 1;
            },
            LineKind::Context => {
                co += 1;
                cn += 1;
            },
        }
        i += 1;
    }
    proof {
        assert(hv.take(n as int) =~= hv);
    }
    (co, cn)
}

/// The message of the fatal parse error for a hunk whose body ended at the
/// input line `pos` before reaching its declared extent.
pub open spec fn spec_trunc_msg(pos: int) -> Seq<char> {
    "truncated hunk at line "@ + spec_dec(pos)
}

/// Build the truncation error message.
fn trunc_err(pos: usize) -> (r: String)
    ensures
        r@ == spec_trunc_msg(pos as int),
{
    let num = usize_to_string(pos);
    let head: String = "truncated hunk at line ".to_owned();
    head.concat(num.as_str())
}

/// Pushing onto a line vector extends its view pointwise.
proof fn lemma_map_push(v: Seq<HunkLine>, x: HunkLine)
    ensures
        v.push(x).map_values(|l: HunkLine| l@) == v.map_values(|l: HunkLine| l@).push(x@),
{
    assert(v.push(x).map_values(|l: HunkLine| l@) =~= v.map_values(|l: HunkLine| l@).push(x@));
}

/// A unified hunk body that ends before its declared extent: the line index
/// where it fell short, or nothing when the body is complete.
pub open spec fn spec_uni_trunc(lines: Seq<Seq<char>>, start: int) -> Option<int> {
    let hc = spec_uni_hunk(lines, start);
    if spec_count_orig(hc.0.lines) < hc.0.orig_count || spec_count_new(hc.0.lines)
        < hc.0.new_count {
        Some(start + hc.1)
    } else {
        None
    }
}

/// Parse the unified hunk that starts at `start_idx`, returning the hunk and
/// how many input lines it consumed.  Fails when `start_idx` is past the end
/// of the input, or — fatally, as a truncated patch — when the body ends
/// before the extent its header declared.
pub fn parse_unified_hunk_from_vec(lines: &Vec<String>, start_idx: usize) -> (r: Result<
    (PatchHunk, usize),
    String,
>)
    ensures
        start_idx < lines@.len() ==> (match spec_uni_trunc(spec_views(lines@), start_idx as int) {
            Some(pos) => r matches Err(e) && e@ == spec_trunc_msg(pos),
            None => r matches Ok(p) && p.0@ == spec_uni_hunk(
                spec_views(lines@),
                start_idx as int,
            ).0 && p.1 == spec_uni_hunk(spec_views(lines@), start_idx as int).1,
        }),
        start_idx >= lines@.len() ==> (r matches Err(e) && e@ == "Invalid hunk start index"@),
{
    let ghost lv = spec_views(lines@);
    if start_idx >= lines.len() {
        return Err("Invalid hunk start index".to_owned());
    }
    let (os, oc, ns2, nc, func) = uni_header(lines[start_idx].as_str());
    let mut hunk_lines: Vec<HunkLine> = Vec::new();
    let mut i: usize = start_idx + 1;
    proof {
        assert(hunk_lines@.map_values(|l: HunkLine| l@) =~= Seq::<HunkLineV>::empty());
    }
    while i < lines.len() && !is_uni_boundary(lines[i].as_str())
        invariant
            start_idx + 1 <= i <= lines@.len(),
            lv == spec_views(lines@),
            spec_uni_body(lv, start_idx + 1).0 == hunk_lines@.map_values(|l: HunkLine| l@)
                + spec_uni_body(lv, i as int).0,
            spec_uni_body(lv, start_idx + 1).1 == spec_uni_body(lv, i as int).1,
        decreases lines@.len() - i,
    {
        let l = lines[i].as_str();
        let ln = l.unicode_len();
        let c = if ln > 0 {
            l.get_char(0)
        } else {
            ' '
        };
        let ghost before = hunk_lines@.map_values(|l: HunkLine| l@);
        if c == '+' {
            let el = HunkLine { kind: LineKind::Add, content: suffix_clamped(l, 1) };
            proof {
                lemma_map_push(hunk_lines@, el);
            }
            hunk_lines.push(el);
            proof {
                assert(spec_uni_classify(lv[i as int]) =~= seq![el@]);
            }
        } else if c == '-' {
            let el = HunkLine { kind: LineKind::Remove, content: suffix_clamped(l, 1) };
            proof {
                lemma_map_push(hunk_lines@, el);
            }
            hunk_lines.push(el);
            proof {
                assert(spec_uni_classify(lv[i as int]) =~= seq![el@]);
            }
        } else if c == ' ' {
            let el = HunkLine { kind: LineKind::Context, content: suffix_clamped(l, 1) };
            proof {
                lemma_map_push(hunk_lines@, el);
            }
            hunk_lines.push(el);
            proof {
                assert(spec_uni_classify(lv[i as int]) =~= seq![el@]);
            }
        } else {
            proof {
                assert(spec_uni_classify(lv[i as int]) =~= Seq::<HunkLineV>::empty());
            }
        }
        proof {
            let here = spec_uni_classify(lv[i as int]);
            let restpair = spec_uni_body(lv, i + 1);
            assert(spec_uni_body(lv, i as int).0 == here + restpair.0);
            assert((before + here) + restpair.0 =~= before + (here + restpair.0));
            assert(hunk_lines@.map_values(|l: HunkLine| l@) =~= before + here);
        }
        i += 1;
    }
    proof {
        assert(spec_uni_body(lv, i as int).0 =~= Seq::<HunkLineV>::empty());
        assert(spec_uni_body(lv, start_idx + 1).0 =~= hunk_lines@.map_values(
            |l: HunkLine| l@,
        ));
        assert(spec_uni_body(lv, start_idx + 1).1 == i);
    }
    let consumed = i - start_idx;
    let (co, cn) = count_sides(&hunk_lines);
    if co < oc || cn < nc {
        proof {
            assert(spec_uni_trunc(lv, start_idx as int) == Some(i as int));
        }
        return Err(trunc_err(i));
    }
    proof {
        assert(spec_uni_trunc(lv, start_idx as int) is None);
    }
    Ok(
        (
            PatchHunk {
                orig_start: os,
                orig_count: oc,
                new_start: ns2,
                new_count: nc,
                lines: hunk_lines,
                func,
            },
            consumed,
        ),
    )
}

/// A context range line read after stripping its marker decoration.
pub open spec fn spec_ctx_range(l: Seq<char>, pre: Seq<char>, suf: Seq<char>) -> (int, int) {
    spec_comma_range(spec_strip_suffix_rep(spec_strip_prefix_rep(l, pre), suf))
}

/// How one original-block line is classified (`!` and `-` both remove).
pub open spec fn spec_ctx_orig_classify(l: Seq<char>) -> Seq<HunkLineV> {
    let c = if l.len() > 0 {
        l[0]
    } else {
        ' '
    };
    if c == ' ' {
        seq![HunkLineV { kind: LineKind::Context, content: spec_tail_from(l, 2) }]
    } else if c == '!' || c == '-' {
        seq![HunkLineV { kind: LineKind::Remove, content: spec_tail_from(l, 2) }]
    } else {
        Seq::empty()
    }
}

/// How one new-block line is classified (`!` and `+` both add).
pub open spec fn spec_ctx_new_classify(l: Seq<char>) -> Seq<HunkLineV> {
    let c = if l.len() > 0 {
        l[0]
    } else {
        ' '
    };
    if c == ' ' {
        seq![HunkLineV { kind: LineKind::Context, content: spec_tail_from(l, 2) }]
    } else if c == '!' || c == '+' {
        seq![HunkLineV { kind: LineKind::Add, content: spec_tail_from(l, 2) }]
    } else {
        Seq::empty()
    }
}

/// The original block: collected until the `---` range line.
pub open spec fn spec_ctx_orig_scan(lines: Seq<Seq<char>>, i: int) -> (Seq<HunkLineV>, int)
    decreases lines.len() - i,
{
    if i < 0 || i >= lines.len() || spec_starts_with(lines[i], seq!['-', '-', '-']) {
        (Seq::<HunkLineV>::empty(), i)
    } else {
        let r = spec_ctx_orig_scan(lines, i + 1);
        (spec_ctx_orig_classify(lines[i]) + r.0, r.1)
    }
}

/// The new block: collected until the next hunk separator or a blank line.
pub open spec fn spec_ctx_new_scan(lines: Seq<Seq<char>>, i: int) -> (Seq<HunkLineV>, int)
    decreases lines.len() - i,
{
    if i < 0 || i >= lines.len() || spec_starts_with(lines[i], seq!['*', '*', '*']) || lines[
        i].len() == 0 {
        (Seq::<HunkLineV>::empty(), i)
    } else {
        let r = spec_ctx_new_scan(lines, i + 1);
        (spec_ctx_new_classify(lines[i]) + r.0, r.1)
    }
}

/// Reconcile the original and new blocks into one ordered body: paired
/// context lines advance together, removes advance the original side,
/// adds advance the new side.
pub open spec fn spec_ctx_merge(o: Seq<HunkLineV>, nw: Seq<HunkLineV>, oi: int, ni2: int) -> Seq<
    HunkLineV,
>
    decreases o.len() - oi + nw.len() - ni2,
    when 0 <= oi <= o.len() && 0 <= ni2 <= nw.len()
{
    if oi < o.len() && ni2 < nw.len() {
        if o[oi].kind == LineKind::Context && nw[ni2].kind == LineKind::Context {
            seq![o[oi]] + spec_ctx_merge(o, nw, oi + 1, ni2 + 1)
        } else if o[oi].kind == LineKind::Remove {
            seq![o[oi]] + spec_ctx_merge(o, nw, oi + 1, ni2)
        } else if nw[ni2].kind == LineKind::Add {
            seq![nw[ni2]] + spec_ctx_merge(o, nw, oi, ni2 + 1)
        } else {
            spec_ctx_merge(o, nw, oi + 1, ni2 + 1)
        }
    } else if oi < o.len() {
        seq![o[oi]] + spec_ctx_merge(o, nw, oi + 1, ni2)
    } else if ni2 < nw.len() {
        seq![nw[ni2]] + spec_ctx_merge(o, nw, oi, ni2 + 1)
    } else {
        Seq::empty()
    }
}

/// The whole context hunk whose separator stood just before `start`, with
/// the number of lines consumed as the caller counts them.
pub open spec fn spec_ctx_hunk(lines: Seq<Seq<char>>, start: int) -> (PatchHunkV, int) {
    let first = lines[start];
    let orng: (int, int) = if spec_starts_with(first, seq!['*', '*', '*', ' ']) {
        spec_ctx_range(first, seq!['*', '*', '*', ' '], seq![' ', '*', '*', '*', '*'])
    } else {
        (0, 0)
    };
    let ob = spec_ctx_orig_scan(lines, start + 1);
    let has_nr = ob.1 < lines.len() && spec_starts_with(lines[ob.1], seq!['-', '-', '-']);
    let nrng: (int, int) = if has_nr {
        spec_ctx_range(lines[ob.1], seq!['-', '-', '-', ' '], seq![' ', '-', '-', '-', '-'])
    } else {
        (0, 0)
    };
    let i2: int = if has_nr {
        ob.1 + 1
    } else {
        ob.1
    };
    let nb = spec_ctx_new_scan(lines, i2);
    let body = spec_ctx_merge(ob.0, nb.0, 0, 0);
    (
        PatchHunkV {
            orig_start: orng.0,
            orig_count: orng.1,
            new_start: nrng.0,
            new_count: nrng.1,
            lines: body,
            func: None,
        },
        nb.1 - start + 1,
    )
}

/// The block scans only move forward, and stop within the input.
proof fn lemma_ctx_scan_range(lines: Seq<Seq<char>>, i: int)
    requires
        0 <= i <= lines.len(),
    ensures
        i <= spec_ctx_orig_scan(lines, i).1 <= lines.len(),
        i <= spec_ctx_new_scan(lines, i).1 <= lines.len(),
    decreases lines.len() - i,
{
    if i < lines.len() {
        lemma_ctx_scan_range(lines, i + 1);
    }
}

/// Does the line start with `---`?
fn starts_dashes(l: &str) -> (r: bool)
    ensures
        r == spec_starts_with(l@, seq!['-', '-', '-']),
{
    proof {
        reveal_strlit("---");
        assert("---"@ =~= seq!['-', '-', '-']);
    }
    starts_with_str(l, "---")
}

/// Does the line start with `***`?
fn starts_stars(l: &str) -> (r: bool)
    ensures
        r == spec_starts_with(l@, seq!['*', '*', '*']),
{
    proof {
        reveal_strlit("***");
        assert("***"@ =~= seq!['*', '*', '*']);
    }
    starts_with_str(l, "***")
}

/// Executable reading of a context range line.
fn ctx_range(l: &str, pre: &str, suf: &str) -> (r: (usize, usize))
    ensures
        r.0 == spec_ctx_range(l@, pre@, suf@).0,
        r.1 == spec_ctx_range(l@, pre@, suf@).1,
{
    let t = strip_suffix_rep(strip_prefix_rep(l, pre), suf);
    comma_range(t)
}

/// A context hunk block that ends before its declared extent: the line
/// index where the scan stopped, or nothing when both blocks are complete.
/// An entirely absent block is the format's shorthand for an unchanged
/// side, not a truncation.
pub open spec fn spec_ctx_trunc(lines: Seq<Seq<char>>, start: int) -> Option<int> {
    let first = lines[start];
    let orng: (int, int) = if spec_starts_with(first, seq!['*', '*', '*', ' ']) {
        spec_ctx_range(first, seq!['*', '*', '*', ' '], seq![' ', '*', '*', '*', '*'])
    } else {
        (0, 0)
    };
    let ob = spec_ctx_orig_scan(lines, start + 1);
    let has_nr = ob.1 < lines.len() && spec_starts_with(lines[ob.1], seq!['-', '-', '-']);
    let nrng: (int, int) = if has_nr {
        spec_ctx_range(lines[ob.1], seq!['-', '-', '-', ' '], seq![' ', '-', '-', '-', '-'])
    } else {
        (0, 0)
    };
    let i2: int = if has_nr {
        ob.1 + 1
    } else {
        ob.1
    };
    let nb = spec_ctx_new_scan(lines, i2);
    if (ob.0.len() > 0 && ob.0.len() < orng.1) || (nb.0.len() > 0 && nb.0.len() < nrng.1) {
        Some(nb.1)
    } else {
        None
    }
}

/// Parse the context hunk whose `***************` separator stood on the
/// line before `start_idx`.  Fails when `start_idx` is past the end, or —
/// fatally, as a truncated patch — when a block ends before the extent its
/// range line declared.
pub fn parse_context_hunk_from_vec(lines: &Vec<String>, start_idx: usize) -> (r: Result<
    (PatchHunk, usize),
    String,
>)
    requires
        lines@.len() < usize::MAX,
    ensures
        start_idx < lines@.len() ==> (match spec_ctx_trunc(spec_views(lines@), start_idx as int) {
            Some(pos) => r matches Err(e) && e@ == spec_trunc_msg(pos),
            None => r matches Ok(p) && p.0@ == spec_ctx_hunk(
                spec_views(lines@),
                start_idx as int,
            ).0 && p.1 == spec_ctx_hunk(spec_views(lines@), start_idx as int).1,
        }),
        start_idx >= lines@.len() ==> (r matches Err(e) && e@ == "Invalid hunk start index"@),
{
    let ghost lv = spec_views(lines@);
    if start_idx >= lines.len() {
        return Err("Invalid hunk start index".to_owned());
    }
    let first = lines[start_idx].as_str();
    proof {
        reveal_strlit("*** ");
        assert("*** "@ =~= seq!['*', '*', '*', ' ']);
        reveal_strlit(" ****");
        assert(" ****"@ =~= seq![' ', '*', '*', '*', '*']);
        reveal_strlit("---");
        assert("---"@ =~= seq!['-', '-', '-']);
        reveal_strlit("--- ");
        assert("--- "@ =~= seq!['-', '-', '-', ' ']);
        reveal_strlit(" ----");
        assert(" ----"@ =~= seq![' ', '-', '-', '-', '-']);
        reveal_strlit("***");
        assert("***"@ =~= seq!['*', '*', '*']);
    }
    let mut orig_start: usize = 0;
    let mut orig_count: usize = 0;
    if starts_with_str(first, "*** ") {
        let rr = ctx_range(first, "*** ", " ****");
        orig_start = rr.0;
        orig_count = rr.1;
    }
    // Original block.
    let mut ovec: Vec<HunkLine> = Vec::new();
    let mut i: usize = start_idx + 1;
    proof {
        assert(ovec@.map_values(|l: HunkLine| l@) =~= Seq::<HunkLineV>::empty());
    }
    while i < lines.len() && !starts_dashes(lines[i].as_str())
        invariant
            start_idx + 1 <= i <= lines@.len(),
            lv == spec_views(lines@),
            spec_ctx_orig_scan(lv, start_idx + 1).0 == ovec@.map_values(|l: HunkLine| l@)
                + spec_ctx_orig_scan(lv, i as int).0,
            spec_ctx_orig_scan(lv, start_idx + 1).1 == spec_ctx_orig_scan(lv, i as int).1,
        decreases lines@.len() - i,
    {
        let l = lines[i].as_str();
        let ln = l.unicode_len();
        let c = if ln > 0 {
            l.get_char(0)
        } else {
            ' '
        };
        let ghost before = ovec@.map_values(|l: HunkLine| l@);
        if c == ' ' {
            let el = HunkLine { kind: LineKind::Context, content: suffix_clamped(l, 2) };
            proof {
                lemma_map_push(ovec@, el);
            }
            ovec.push(el);
            proof {
                assert(spec_ctx_orig_classify(lv[i as int]) =~= seq![el@]);
            }
        } else if c == '!' || c == '-' {
            let el = HunkLine { kind: LineKind::Remove, content: suffix_clamped(l, 2) };
            proof {
                lemma_map_push(ovec@, el);
            }
            ovec.push(el);
            proof {
                assert(spec_ctx_orig_classify(lv[i as int]) =~= seq![el@]);
            }
        } else {
            proof {
                assert(spec_ctx_orig_classify(lv[i as int]) =~= Seq::<HunkLineV>::empty());
            }
        }
        proof {
            let here = spec_ctx_orig_classify(lv[i as int]);
            let restpair = spec_ctx_orig_scan(lv, i + 1);
            assert(spec_ctx_orig_scan(lv, i as int).0 == here + restpair.0);
            assert((before + here) + restpair.0 =~= before + (here + restpair.0));
            assert(ovec@.map_values(|l: HunkLine| l@) =~= before + here);
        }
        i += 1;
    }
    proof {
        assert(spec_ctx_orig_scan(lv, i as int).0 =~= Seq::<HunkLineV>::empty());
        assert(spec_ctx_orig_scan(lv, start_idx + 1).0 =~= ovec@.map_values(|l: HunkLine| l@));
        assert(spec_ctx_orig_scan(lv, start_idx + 1).1 == i);
    }
    // New range line.
    let mut new_start: usize = 0;
    let mut new_count: usize = 0;
    if i < lines.len() && starts_dashes(lines[i].as_str()) {
        let rr = ctx_range(lines[i].as_str(), "--- ", " ----");
        new_start = rr.0;
        new_count = rr.1;
        i += 1;
    }
    let ghost i2 = i as int;
    // New block.
    let mut nvec: Vec<HunkLine> = Vec::new();
    proof {
        assert(nvec@.map_values(|l: HunkLine| l@) =~= Seq::<HunkLineV>::empty());
    }
    while i < lines.len() && !starts_stars(lines[i].as_str())
        && lines[i].as_str().unicode_len() > 0
        invariant
            start_idx + 1 <= i2 <= i <= lines@.len(),
            lv == spec_views(lines@),
            spec_ctx_new_scan(lv, i2).0 == nvec@.map_values(|l: HunkLine| l@)
                + spec_ctx_new_scan(lv, i as int).0,
            spec_ctx_new_scan(lv, i2).1 == spec_ctx_new_scan(lv, i as int).1,
        decreases lines@.len() - i,
    {
        let l = lines[i].as_str();
        let ln = l.unicode_len();
        let c = if ln > 0 {
            l.get_char(0)
        } else {
            ' '
        };
        let ghost before = nvec@.map_values(|l: HunkLine| l@);
        if c == ' ' {
            let el = HunkLine { kind: LineKind::Context, content: suffix_clamped(l, 2) };
            proof {
                lemma_map_push(nvec@, el);
            }
            nvec.push(el);
            proof {
                assert(spec_ctx_new_classify(lv[i as int]) =~= seq![el@]);
            }
        } else if c == '!' || c == '+' {
            let el = HunkLine { kind: LineKind::Add, content: suffix_clamped(l, 2) };
            proof {
                lemma_map_push(nvec@, el);
            }
            nvec.push(el);
            proof {
                assert(spec_ctx_new_classify(lv[i as int]) =~= seq![el@]);
            }
        } else {
            proof {
                assert(spec_ctx_new_classify(lv[i as int]) =~= Seq::<HunkLineV>::empty());
            }
        }
        proof {
            let here = spec_ctx_new_classify(lv[i as int]);
            let restpair = spec_ctx_new_scan(lv, i + 1);
            assert(spec_ctx_new_scan(lv, i as int).0 == here + restpair.0);
            assert((before + here) + restpair.0 =~= before + (here + restpair.0));
            assert(nvec@.map_values(|l: HunkLine| l@) =~= before + here);
        }
        i += 1;
    }
    proof {
        assert(spec_ctx_new_scan(lv, i as int).0 =~= Seq::<HunkLineV>::empty());
        assert(spec_ctx_new_scan(lv, i2).0 =~= nvec@.map_values(|l: HunkLine| l@));
        assert(spec_ctx_new_scan(lv, i2).1 == i);
    }
    // A block that started but fell short of its declared extent is a
    // truncated patch.
    if (ovec.len() > 0 && ovec.len() < orig_count) || (nvec.len() > 0 && nvec.len() < new_count) {
        proof {
            assert(spec_ctx_trunc(lv, start_idx as int) == Some(i as int));
        }
        return Err(trunc_err(i));
    }
    proof {
        assert(spec_ctx_trunc(lv, start_idx as int) is None);
    }
    // Reconcile the two blocks.
    let ghost ov = ovec@.map_values(|l: HunkLine| l@);
    let ghost nv = nvec@.map_values(|l: HunkLine| l@);
    let mut merged: Vec<HunkLine> = Vec::new();
    let mut oi: usize = 0;
    let mut ni2: usize = 0;
    proof {
        assert(merged@.map_values(|l: HunkLine| l@) =~= Seq::<HunkLineV>::empty());
    }
    while oi < ovec.len() || ni2 < nvec.len()
        invariant
            oi <= ovec@.len(),
            ni2 <= nvec@.len(),
            ov == ovec@.map_values(|l: HunkLine| l@),
            nv == nvec@.map_values(|l: HunkLine| l@),
            spec_ctx_merge(ov, nv, 0, 0) == merged@.map_values(|l: HunkLine| l@)
                + spec_ctx_merge(ov, nv, oi as int, ni2 as int),
        decreases ovec@.len() - oi + nvec@.len() - ni2,
    {
        let ghost before = merged@.map_values(|l: HunkLine| l@);
        let ghost tail0 = spec_ctx_merge(ov, nv, oi as int, ni2 as int);
        if oi < ovec.len() && ni2 < nvec.len() {
            let ok = ovec[oi].kind;
            let nk = nvec[ni2].kind;
            if ok == LineKind::Context && nk == LineKind::Context {
                let el = HunkLine { kind: ovec[oi].kind, content: ovec[oi].content.clone() };
                proof {
                    lemma_map_push(merged@, el);
                    assert(el@ == ov[oi as int]);
                }
                merged.push(el);
                proof {
                    let rest = spec_ctx_merge(ov, nv, oi + 1, ni2 + 1);
                    assert(tail0 == seq![ov[oi as int]] + rest);
                    assert((before + seq![ov[oi as int]]) + rest =~= before + (seq![ov[oi as int]]
                        + rest));
                }
                oi += 1;
                ni2 += 1;
            } else if ok == LineKind::Remove {
                let el = HunkLine { kind: ovec[oi].kind, content: ovec[oi].content.clone() };
                proof {
                    lemma_map_push(merged@, el);
                    assert(el@ == ov[oi as int]);
                }
                merged.push(el);
                proof {
                    let rest = spec_ctx_merge(ov, nv, oi + 1, ni2 as int);
                    assert(tail0 == seq![ov[oi as int]] + rest);
                    assert((before + seq![ov[oi as int]]) + rest =~= before + (seq![ov[oi as int]]
                        + rest));
                }
                oi += 1;
            } else if nk == LineKind::Add {
                let el = HunkLine { kind: nvec[ni2].kind, content: nvec[ni2].content.clone() };
                proof {
                    lemma_map_push(merged@, el);
                    assert(el@ == nv[ni2 as int]);
                }
                merged.push(el);
                proof {
                    let rest = spec_ctx_merge(ov, nv, oi as int, ni2 + 1);
                    assert(tail0 == seq![nv[ni2 as int]] + rest);
                    assert((before + seq![nv[ni2 as int]]) + rest =~= before + (seq![nv[
                        ni2 as int]] + rest));
                }
                ni2 += 1;
            } else {
                proof {
                    assert(tail0 == spec_ctx_merge(ov, nv, oi + 1, ni2 + 1));
                }
                oi += 1;
                ni2 += 1;
            }
        } else if oi < ovec.len() {
            let el = HunkLine { kind: ovec[oi].kind, content: ovec[oi].content.clone() };
            proof {
                lemma_map_push(merged@, el);
                assert(el@ == ov[oi as int]);
            }
            merged.push(el);
            proof {
                let rest = spec_ctx_merge(ov, nv, oi + 1, ni2 as int);
                assert(tail0 == seq![ov[oi as int]] + rest);
                assert((before + seq![ov[oi as int]]) + rest =~= before + (seq![ov[oi as int]]
                    + rest));
            }
            oi += 1;
        } else {
            let el = HunkLine { kind: nvec[ni2].kind, content: nvec[ni2].content.clone() };
            proof {
                lemma_map_push(merged@, el);
                assert(el@ == nv[ni2 as int]);
            }
            merged.push(el);
            proof {
                let rest = spec_ctx_merge(ov, nv, oi as int, ni2 + 1);
                assert(tail0 == seq![nv[ni2 as int]] + rest);
                assert((before + seq![nv[ni2 as int]]) + rest =~= before + (seq![nv[ni2 as int]]
                    + rest));
            }
            ni2 += 1;
        }
    }
    proof {
        assert(spec_ctx_merge(ov, nv, oi as int, ni2 as int) =~= Seq::<HunkLineV>::empty());
        assert(spec_ctx_merge(ov, nv, 0, 0) =~= merged@.map_values(|l: HunkLine| l@));
    }
    let consumed = i - start_idx + 1;
    Ok(
        (
            PatchHunk {
                orig_start,
                orig_count,
                new_start,
                new_count,
                lines: merged,
                func: None,
            },
            consumed,
        ),
    )
}

/// A normal-dialect command letter.
pub open spec fn spec_is_acd(c: char) -> bool {
    c == 'a' || c == 'c' || c == 'd'
}

/// How many command letters the line holds.
pub open spec fn spec_count_acd(s: Seq<char>) -> int
    decreases s.len(),
{
    if s.len() == 0 {
        0
    } else {
        spec_count_acd(s.take(s.len() - 1)) + if spec_is_acd(s[s.len() - 1]) {
            1int
        } else {
            0int
        }
    }
}

/// Index of the first command letter, or the line length when none occurs.
pub open spec fn spec_first_acd(s: Seq<char>) -> int {
    let kc = spec_find_char(s, 'c');
    let kd = spec_find_char(s, 'd');
    let ka = spec_find_char(s, 'a');
    let k1 = if kc <= kd {
        kc
    } else {
        kd
    };
    if k1 <= ka {
        k1
    } else {
        ka
    }
}

/// The line looks like a normal-dialect command: exactly one command letter,
/// preceded only by digits and commas.
pub open spec fn spec_normal_cmd(s: Seq<char>) -> bool {
    spec_count_acd(s) == 1 && (forall|j: int|
        0 <= j < spec_first_acd(s) ==> spec_is_digit(#[trigger] s[j]) || s[j] == ',')
}

/// Executable count of command letters.
fn count_acd(s: &str) -> (r: usize)
    ensures
        r == spec_count_acd(s@),
{
    let n = s.unicode_len();
    let mut cnt: usize = 0;
    let mut i: usize = 0;
    while i < n
        invariant
            i <= n,
            n == s@.len(),
            cnt <= i,
            cnt == spec_count_acd(s@.take(i as int)),
        decreases n - i,
    {
        let c = s.get_char(i);
        proof {
            assert(s@.take(i + 1).take(i as int) =~= s@.take(i as int));
            assert(s@.take(i + 1)[i as int] == s@[i as int]);
        }
        if c == 'a' || c == 'c' || c == 'd' {
            cnt += 1;
        }
        i += 1;
    }
    proof {
        assert(s@.take(n as int) =~= s@);
    }
    cnt
}

/// Executable test for `spec_normal_cmd`.
fn is_normal_cmd(s: &str) -> (r: bool)
    ensures
        r == spec_normal_cmd(s@),
{
    let n = s.unicode_len();
    if count_acd(s) != 1 {
        return false;
    }
    let kc = find_char(s, 'c');
    let kd = find_char(s, 'd');
    let ka = find_char(s, 'a');
    let k1 = if kc <= kd {
        kc
    } else {
        kd
    };
    let k = if k1 <= ka {
        k1
    } else {
        ka
    };
    proof {
        lemma_find_char(s@, 'c');
        lemma_find_char(s@, 'd');
        lemma_find_char(s@, 'a');
    }
    let mut j: usize = 0;
    while j < k
        invariant
            j <= k,
            k == spec_first_acd(s@),
            k <= n,
            n == s@.len(),
            forall|jj: int| 0 <= jj < j ==> spec_is_digit(#[trigger] s@[jj]) || s@[jj] == ',',
        decreases k - j,
    {
        let c = s.get_char(j);
        let cu = c as u32;
        if !(48 <= cu && cu <= 57) && c != ',' {
            return false;
        }
        j += 1;
    }
    true
}

/// The four range fields of a normal-dialect command line, split at its
/// command letter (`c` looked for first, then `d`, then `a`).
pub open spec fn spec_norm_cmd_ranges(l: Seq<char>) -> (int, int, int, int) {
    let kc = spec_find_char(l, 'c');
    let kd = spec_find_char(l, 'd');
    let ka = spec_find_char(l, 'a');
    let k = if kc < l.len() {
        kc
    } else if kd < l.len() {
        kd
    } else if ka < l.len() {
        ka
    } else {
        -1
    };
    if k >= 0 {
        let o = spec_range_pair(l.take(k));
        let nn = spec_range_pair(l.skip(k + 1));
        (o.0, o.1, nn.0, nn.1)
    } else {
        (0, 0, 0, 0)
    }
}

/// The `< ` lines that remove document content.
pub open spec fn spec_norm_removes(lines: Seq<Seq<char>>, i: int) -> (Seq<HunkLineV>, int)
    decreases lines.len() - i,
{
    if 0 <= i < lines.len() && spec_starts_with(lines[i], seq!['<', ' ']) {
        let r = spec_norm_removes(lines, i + 1);
        (
            seq![HunkLineV { kind: LineKind::Remove, content: spec_tail_from(lines[i], 2) }] + r.0,
            r.1,
        )
    } else {
        (Seq::<HunkLineV>::empty(), i)
    }
}

/// The `> ` lines that add new content.
pub open spec fn spec_norm_adds(lines: Seq<Seq<char>>, i: int) -> (Seq<HunkLineV>, int)
    decreases lines.len() - i,
{
    if 0 <= i < lines.len() && spec_starts_with(lines[i], seq!['>', ' ']) {
        let r = spec_norm_adds(lines, i + 1);
        (
            seq![HunkLineV { kind: LineKind::Add, content: spec_tail_from(lines[i], 2) }] + r.0,
            r.1,
        )
    } else {
        (Seq::<HunkLineV>::empty(), i)
    }
}

/// The whole normal hunk at `start`, with the number of lines it consumed.
pub open spec fn spec_norm_hunk(lines: Seq<Seq<char>>, start: int) -> (PatchHunkV, int) {
    let cr = spec_norm_cmd_ranges(lines[start]);
    let rb = spec_norm_removes(lines, start + 1);
    let isep: int = if rb.1 < lines.len() && spec_starts_with(lines[rb.1], seq!['-', '-', '-']) {
        rb.1 + 1
    } else {
        rb.1
    };
    let ab = spec_norm_adds(lines, isep);
    (
        PatchHunkV {
            orig_start: cr.0,
            orig_count: cr.1,
            new_start: cr.2,
            new_count: cr.3,
            lines: rb.0 + ab.0,
            func: None,
        },
        ab.1 - start,
    )
}

/// The body scans only move forward, and stop within the input.
proof fn lemma_norm_scan_range(lines: Seq<Seq<char>>, i: int)
    requires
        0 <= i <= lines.len(),
    ensures
        i <= spec_norm_removes(lines, i).1 <= lines.len(),
        i <= spec_norm_adds(lines, i).1 <= lines.len(),
    decreases lines.len() - i,
{
    if i < lines.len() {
        lemma_norm_scan_range(lines, i + 1);
    }
}

/// Does the line start with `< `?
fn starts_lt(l: &str) -> (r: bool)
    ensures
        r == spec_starts_with(l@, seq!['<', ' ']),
{
    proof {
        reveal_strlit("< ");
        assert("< "@ =~= seq!['<', ' ']);
    }
    starts_with_str(l, "< ")
}

/// Does the line start with `> `?
fn starts_gt(l: &str) -> (r: bool)
    ensures
        r == spec_starts_with(l@, seq!['>', ' ']),
{
    proof {
        reveal_strlit("> ");
        assert("> "@ =~= seq!['>', ' ']);
    }
    starts_with_str(l, "> ")
}

/// A normal-dialect hunk body that ends before its declared extent: a
/// change or delete command must bring as many `< ` lines as its original
/// range declares, a change or append command as many `> ` lines as its new
/// range declares.  Yields the line index where the body ended, or nothing.
pub open spec fn spec_norm_trunc(lines: Seq<Seq<char>>, start: int) -> Option<int> {
    let l = lines[start];
    let has_c = spec_find_char(l, 'c') < l.len();
    let has_d = !has_c && spec_find_char(l, 'd') < l.len();
    let has_a = !has_c && !has_d && spec_find_char(l, 'a') < l.len();
    let cr = spec_norm_cmd_ranges(l);
    let rb = spec_norm_removes(lines, start + 1);
    let isep: int = if rb.1 < lines.len() && spec_starts_with(lines[rb.1], seq!['-', '-', '-']) {
        rb.1 + 1
    } else {
        rb.1
    };
    let ab = spec_norm_adds(lines, isep);
    if ((has_c || has_d) && rb.0.len() < cr.1) || ((has_c || has_a) && ab.0.len() < cr.3) {
        Some(ab.1)
    } else {
        None
    }
}

/// Parse the normal-dialect hunk whose command line stands at `start_idx`.
/// Fails when `start_idx` is past the end of the input, or — fatally, as a
/// truncated patch — when the body ends before the extent the command's
/// ranges declared.
pub fn parse_normal_hunk_from_vec(lines: &Vec<String>, start_idx: usize) -> (r: Result<
    (PatchHunk, usize),
    String,
>)
    ensures
        start_idx < lines@.len() ==> (match spec_norm_trunc(spec_views(lines@), start_idx as int) {
            Some(pos) => r matches Err(e) && e@ == spec_trunc_msg(pos),
            None => r matches Ok(p) && p.0@ == spec_norm_hunk(
                spec_views(lines@),
                start_idx as int,
            ).0 && p.1 == spec_norm_hunk(spec_views(lines@), start_idx as int).1,
        }),
        start_idx >= lines@.len() ==> (r matches Err(e) && e@ == "Invalid hunk start index"@),
{
    let ghost lv = spec_views(lines@);
    if start_idx >= lines.len() {
        return Err("Invalid hunk start index".to_owned());
    }
    let first = lines[start_idx].as_str();
    let n = first.unicode_len();
    let kc = find_char(first, 'c');
    let kd = find_char(first, 'd');
    let ka = find_char(first, 'a');
    proof {
        lemma_find_char(first@, 'c');
        lemma_find_char(first@, 'd');
        lemma_find_char(first@, 'a');
    }
    let mut orig_start: usize = 0;
    let mut orig_count: usize = 0;
    let mut new_start: usize = 0;
    let mut new_count: usize = 0;
    let k: usize = if kc < n {
        kc
    } else if kd < n {
        kd
    } else if ka < n {
        ka
    } else {
        n
    };
    if k < n {
        let left = first.substring_char(0, k);
        let right = first.substring_char(k + 1, n);
        proof {
            assert(left@ =~= first@.take(k as int));
            assert(right@ =~= first@.skip(k + 1));
        }
        parse_range(left, &mut orig_start, &mut orig_count);
        parse_range(right, &mut new_start, &mut new_count);
    }
    // Remove lines.
    let mut rvec: Vec<HunkLine> = Vec::new();
    let mut i: usize = start_idx + 1;
    proof {
        assert(rvec@.map_values(|l: HunkLine| l@) =~= Seq::<HunkLineV>::empty());
    }
    while i < lines.len() && starts_lt(lines[i].as_str())
        invariant
            start_idx + 1 <= i <= lines@.len(),
            lv == spec_views(lines@),
            spec_norm_removes(lv, start_idx + 1).0 == rvec@.map_values(|l: HunkLine| l@)
                + spec_norm_removes(lv, i as int).0,
            spec_norm_removes(lv, start_idx + 1).1 == spec_norm_removes(lv, i as int).1,
        decreases lines@.len() - i,
    {
        let l = lines[i].as_str();
        let ghost before = rvec@.map_values(|l: HunkLine| l@);
        let el = HunkLine { kind: LineKind::Remove, content: suffix_clamped(l, 2) };
        proof {
            lemma_map_push(rvec@, el);
        }
        rvec.push(el);
        proof {
            let here = seq![el@];
            let restpair = spec_norm_removes(lv, i + 1);
            assert(spec_norm_removes(lv, i as int).0 =~= here + restpair.0);
            assert((before + here) + restpair.0 =~= before + (here + restpair.0));
            assert(rvec@.map_values(|l: HunkLine| l@) =~= before + here);
        }
        i += 1;
    }
    proof {
        assert(spec_norm_removes(lv, i as int).0 =~= Seq::<HunkLineV>::empty());
        assert(spec_norm_removes(lv, start_idx + 1).0 =~= rvec@.map_values(|l: HunkLine| l@));
        assert(spec_norm_removes(lv, start_idx + 1).1 == i);
    }
    // Optional separator.
    if i < lines.len() && starts_dashes(lines[i].as_str()) {
        i += 1;
    }
    let ghost isep = i as int;
    // Add lines.
    let mut avec: Vec<HunkLine> = Vec::new();
    proof {
        assert(avec@.map_values(|l: HunkLine| l@) =~= Seq::<HunkLineV>::empty());
    }
    while i < lines.len() && starts_gt(lines[i].as_str())
        invariant
            start_idx + 1 <= isep <= i <= lines@.len(),
            lv == spec_views(lines@),
            spec_norm_adds(lv, isep).0 == avec@.map_values(|l: HunkLine| l@) + spec_norm_adds(
                lv,
                i as int,
            ).0,
            spec_norm_adds(lv, isep).1 == spec_norm_adds(lv, i as int).1,
        decreases lines@.len() - i,
    {
        let l = lines[i].as_str();
        let ghost before = avec@.map_values(|l: HunkLine| l@);
        let el = HunkLine { kind: LineKind::Add, content: suffix_clamped(l, 2) };
        proof {
            lemma_map_push(avec@, el);
        }
        avec.push(el);
        proof {
            let here = seq![el@];
            let restpair = spec_norm_adds(lv, i + 1);
            assert(spec_norm_adds(lv, i as int).0 =~= here + restpair.0);
            assert((before + here) + restpair.0 =~= before + (here + restpair.0));
            assert(avec@.map_values(|l: HunkLine| l@) =~= before + here);
        }
        i += 1;
    }
    proof {
        assert(spec_norm_adds(lv, i as int).0 =~= Seq::<HunkLineV>::empty());
        assert(spec_norm_adds(lv, isep).0 =~= avec@.map_values(|l: HunkLine| l@));
        assert(spec_norm_adds(lv, isep).1 == i);
    }
    // A body shorter than the command's ranges declared is a truncated
    // patch.
    let has_c = kc < n;
    let has_d = !has_c && kd < n;
    let has_a = !has_c && !has_d && ka < n;
    if ((has_c || has_d) && rvec.len() < orig_count) || ((has_c || has_a) && avec.len()
        < new_count) {
        proof {
            assert(spec_norm_trunc(lv, start_idx as int) == Some(i as int));
        }
        return Err(trunc_err(i));
    }
    proof {
        assert(spec_norm_trunc(lv, start_idx as int) is None);
    }
    // Stitch removes and adds together.
    let mut hunk_lines: Vec<HunkLine> = rvec;
    let ghost rviews = hunk_lines@.map_values(|l: HunkLine| l@);
    let mut j: usize = 0;
    while j < avec.len()
        invariant
            j <= avec@.len(),
            hunk_lines@.map_values(|l: HunkLine| l@) =~= rviews + avec@.map_values(
                |l: HunkLine| l@,
            ).take(j as int),
        decreases avec@.len() - j,
    {
        let el = HunkLine { kind: avec[j].kind, content: avec[j].content.clone() };
        proof {
            lemma_map_push(hunk_lines@, el);
            assert(el@ == avec@.map_values(|l: HunkLine| l@)[j as int]);
        }
        hunk_lines.push(el);
        proof {
            assert(hunk_lines@.map_values(|l: HunkLine| l@) =~= rviews + avec@.map_values(
                |l: HunkLine| l@,
            ).take(j + 1));
        }
        j += 1;
    }
    proof {
        assert(avec@.map_values(|l: HunkLine| l@).take(avec@.len() as int) =~= avec@.map_values(
            |l: HunkLine| l@,
        ));
        assert(hunk_lines@.map_values(|l: HunkLine| l@) =~= spec_norm_hunk(
            lv,
            start_idx as int,
        ).0.lines);
    }
    let consumed = i - start_idx;
    Ok(
        (
            PatchHunk {
                orig_start,
                orig_count,
                new_start,
                new_count,
                lines: hunk_lines,
                func: None,
            },
            consumed,
        ),
    )
}

/// A context-dialect hunk separator: a line opening with fifteen asterisks.
pub open spec fn spec_sep15(l: Seq<char>) -> bool {
    l.len() >= 15 && (forall|j: int| 0 <= j < 15 ==> #[trigger] l[j] == '*')
}

/// Executable test for `spec_sep15`.
fn is_sep15(l: &str) -> (r: bool)
    ensures
        r == spec_sep15(l@),
{
    proof {
        reveal_strlit("***************");
    }
    let r = starts_with_str(l, "***************");
    proof {
        assert(("***************")@ =~= seq![
            '*', '*', '*', '*', '*', '*', '*', '*', '*', '*', '*', '*', '*', '*', '*',
        ]);
    }
    r
}

/// Does the line start with `*** ` (a context old-file header)?
fn starts_stars_sp(l: &str) -> (r: bool)
    ensures
        r == spec_starts_with(l@, seq!['*', '*', '*', ' ']),
{
    proof {
        reveal_strlit("*** ");
        assert("*** "@ =~= seq!['*', '*', '*', ' ']);
    }
    starts_with_str(l, "*** ")
}

/// Does the line start with `--- ` (an old-file or new-file header)?
fn starts_dashes_sp(l: &str) -> (r: bool)
    ensures
        r == spec_starts_with(l@, seq!['-', '-', '-', ' ']),
{
    proof {
        reveal_strlit("--- ");
        assert("--- "@ =~= seq!['-', '-', '-', ' ']);
    }
    starts_with_str(l, "--- ")
}

/// Does the line start with `+++ ` (a unified new-file header)?
fn starts_pluses_sp(l: &str) -> (r: bool)
    ensures
        r == spec_starts_with(l@, seq!['+', '+', '+', ' ']),
{
    proof {
        reveal_strlit("+++ ");
        assert("+++ "@ =~= seq!['+', '+', '+', ' ']);
    }
    starts_with_str(l, "+++ ")
}

/// Does the line start with `@@ ` (a unified hunk header)?
fn starts_atat_sp(l: &str) -> (r: bool)
    ensures
        r == spec_starts_with(l@, seq!['@', '@', ' ']),
{
    proof {
        reveal_strlit("@@ ");
        assert("@@ "@ =~= seq!['@', '@', ' ']);
    }
    starts_with_str(l, "@@ ")
}

/// One pass over the raw lines: headers update the metadata, hunk openers
/// hand over to the dialect parsers, anything else is skipped.  A truncated
/// hunk aborts the whole scan with the offending line index: the change set
/// is all-or-nothing.
pub open spec fn spec_scan(
    lines: Seq<Seq<char>>,
    i: int,
    dt: DiffType,
    of: Option<Seq<char>>,
    nf: Option<Seq<char>>,
    hunks: Seq<PatchHunkV>,
) -> Result<(DiffType, Option<Seq<char>>, Option<Seq<char>>, Seq<PatchHunkV>), int>
    decreases lines.len() - i,
    when 0 <= i
    via spec_scan_dec
{
    if i >= lines.len() {
        Ok((dt, of, nf, hunks))
    } else {
        let l = lines[i];
        if spec_starts_with(l, seq!['*', '*', '*', ' ']) {
            spec_scan(
                lines,
                i + 1,
                DiffType::ContextDiff,
                Some(spec_extract_filename(l)),
                nf,
                hunks,
            )
        } else if spec_starts_with(l, seq!['-', '-', '-', ' ']) && dt == DiffType::ContextDiff {
            spec_scan(lines, i + 1, dt, of, Some(spec_extract_filename(l)), hunks)
        } else if spec_starts_with(l, seq!['-', '-', '-', ' ']) {
            spec_scan(lines, i + 1, dt, Some(spec_extract_filename(l)), nf, hunks)
        } else if spec_starts_with(l, seq!['+', '+', '+', ' ']) {
            spec_scan(lines, i + 1, dt, of, Some(spec_extract_filename(l)), hunks)
        } else if spec_sep15(l) {
            if i + 1 < lines.len() {
                match spec_ctx_trunc(lines, i + 1) {
                    Some(pos) => Err(pos),
                    None => {
                        let hc = spec_ctx_hunk(lines, i + 1);
                        spec_scan(lines, i + hc.1, DiffType::ContextDiff, of, nf, hunks.push(hc.0))
                    },
                }
            } else {
                spec_scan(lines, i + 1, DiffType::ContextDiff, of, nf, hunks)
            }
        } else if spec_starts_with(l, seq!['@', '@', ' ']) {
            match spec_uni_trunc(lines, i) {
                Some(pos) => Err(pos),
                None => {
                    let hu = spec_uni_hunk(lines, i);
                    spec_scan(lines, i + hu.1, DiffType::UniDiff, of, nf, hunks.push(hu.0))
                },
            }
        } else if spec_normal_cmd(l) {
            match spec_norm_trunc(lines, i) {
                Some(pos) => Err(pos),
                None => {
                    let hn = spec_norm_hunk(lines, i);
                    spec_scan(lines, i + hn.1, DiffType::NormalDiff, of, nf, hunks.push(hn.0))
                },
            }
        } else {
            spec_scan(lines, i + 1, dt, of, nf, hunks)
        }
    }
}

#[via_fn]
proof fn spec_scan_dec(
    lines: Seq<Seq<char>>,
    i: int,
    dt: DiffType,
    of: Option<Seq<char>>,
    nf: Option<Seq<char>>,
    hunks: Seq<PatchHunkV>,
) {
    if 0 <= i && i < lines.len() {
        lemma_uni_body_range(lines, i + 1);
        if i + 1 < lines.len() {
            lemma_ctx_scan_range(lines, i + 2);
            let ob = spec_ctx_orig_scan(lines, i + 2);
            let i2: int = if ob.1 < lines.len() && spec_starts_with(
                lines[ob.1],
                seq!['-', '-', '-'],
            ) {
                ob.1 + 1
            } else {
                ob.1
            };
            lemma_ctx_scan_range(lines, i2);
        }
        lemma_norm_scan_range(lines, i + 1);
        let rb = spec_norm_removes(lines, i + 1);
        let isep: int = if rb.1 < lines.len() && spec_starts_with(
            lines[rb.1],
            seq!['-', '-', '-'],
        ) {
            rb.1 + 1
        } else {
            rb.1
        };
        lemma_norm_scan_range(lines, isep);
    }
}

/// The change set described by a raw line stream, or the line index of the
/// truncation that makes the stream unusable.
pub open spec fn spec_parse_patch(lines: Seq<Seq<char>>) -> Result<PatchV, int> {
    match spec_scan(lines, 0, DiffType::NoDiff, None, None, Seq::<PatchHunkV>::empty()) {
        Ok(st) => Ok(
            PatchV {
                diff_type: st.0,
                header: PatchHeaderV {
                    old_file: st.1,
                    new_file: st.2,
                    index_file: None,
                    old_time: None,
                    new_time: None,
                    old_mode: None,
                    new_mode: None,
                    sha1_old: None,
                    sha1_new: None,
                },
                hunks: st.3,
            },
        ),
        Err(pos) => Err(pos),
    }
}

/// Pushing onto a hunk vector extends its view pointwise.
proof fn lemma_map_push_hunk(v: Seq<PatchHunk>, x: PatchHunk)
    ensures
        v.push(x).map_values(|h: PatchHunk| h@) == v.map_values(|h: PatchHunk| h@).push(x@),
{
    assert(v.push(x).map_values(|h: PatchHunk| h@) =~= v.map_values(|h: PatchHunk| h@).push(x@));
}

/// Parsing is deterministic: byte-identical line streams always yield
/// structurally identical change sets — the same dialect, the same hunk
/// boundaries, and the same line classifications.
pub proof fn lemma_parse_deterministic(l1: Seq<Seq<char>>, l2: Seq<Seq<char>>)
    requires
        l1 == l2,
    ensures
        spec_parse_patch(l1) == spec_parse_patch(l2),
{
}

impl Patch {
    /// Parse a whole patch stream, already split into lines, into a change
    /// set.  Dialects are inferred from header markers as the scan goes.
    pub fn from_lines(lines: &Vec<String>) -> (r: Result<Patch, String>)
        requires
            lines@.len() < usize::MAX,
        ensures
            match spec_parse_patch(spec_views(lines@)) {
                Ok(pv) => r matches Ok(p) && p@ == pv,
                Err(pos) => r matches Err(e) && e@ == spec_trunc_msg(pos),
            },
    {
        let ghost lv = spec_views(lines@);
        let mut diff_type = DiffType::NoDiff;
        let mut old_file: Option<String> = None;
        let mut new_file: Option<String> = None;
        let mut hunks: Vec<PatchHunk> = Vec::new();
        let mut i: usize = 0;
        proof {
            assert(hunks@.map_values(|h: PatchHunk| h@) =~= Seq::<PatchHunkV>::empty());
        }
        while i < lines.len()
            invariant
                i <= lines@.len(),
                lv == spec_views(lines@),
                lines@.len() < usize::MAX,
                spec_scan(lv, 0, DiffType::NoDiff, None, None, Seq::<PatchHunkV>::empty())
                    == spec_scan(
                    lv,
                    i as int,
                    diff_type,
                    spec_view_opt(old_file),
                    spec_view_opt(new_file),
                    hunks@.map_values(|h: PatchHunk| h@),
                ),
            decreases lines@.len() - i,
        {
            let ghost i0 = i as int;
            let ghost dt0 = diff_type;
            let ghost of0 = spec_view_opt(old_file);
            let ghost nf0 = spec_view_opt(new_file);
            let ghost hv0 = hunks@.map_values(|h: PatchHunk| h@);
            let l = lines[i].as_str();
            if starts_stars_sp(l) {
                old_file = Some(extract_filename(l));
                diff_type = DiffType::ContextDiff;
                i += 1;
            } else if starts_dashes_sp(l) && diff_type == DiffType::ContextDiff {
                new_file = Some(extract_filename(l));
                i += 1;
            } else if starts_dashes_sp(l) {
                old_file = Some(extract_filename(l));
                i += 1;
            } else if starts_pluses_sp(l) {
                new_file = Some(extract_filename(l));
                i += 1;
            } else if is_sep15(l) {
                diff_type = DiffType::ContextDiff;
                if i + 1 < lines.len() {
                    proof {
                        lemma_ctx_scan_range(lv, i0 + 2);
                        let ob = spec_ctx_orig_scan(lv, i0 + 2);
                        let i2: int = if ob.1 < lv.len() && spec_starts_with(
                            lv[ob.1],
                            seq!['-', '-', '-'],
                        ) {
                            ob.1 + 1
                        } else {
                            ob.1
                        };
                        lemma_ctx_scan_range(lv, i2);
                    }
                    match parse_context_hunk_from_vec(lines, i + 1) {
                        Ok(p) => {
                            proof {
                                lemma_map_push_hunk(hunks@, p.0);
                            }
                            let consumed = p.1;
                            hunks.push(p.0);
                            i += consumed;
                        },
                        Err(e) => {
                            proof {
                                assert(spec_scan(lv, i0, dt0, of0, nf0, hv0) is Err);
                            }
                            return Err(e);
                        },
                    }
                } else {
                    i += 1;
                }
            } else if starts_atat_sp(l) {
                diff_type = DiffType::UniDiff;
                proof {
                    lemma_uni_body_range(lv, i0 + 1);
                }
                match parse_unified_hunk_from_vec(lines, i) {
                    Ok(p) => {
                        proof {
                            lemma_map_push_hunk(hunks@, p.0);
                        }
                        let consumed = p.1;
                        hunks.push(p.0);
                        i += consumed;
                    },
                    Err(e) => {
                        proof {
                            assert(spec_scan(lv, i0, dt0, of0, nf0, hv0) is Err);
                        }
                        return Err(e);
                    },
                }
            } else if is_normal_cmd(l) {
                diff_type = DiffType::NormalDiff;
                proof {
                    lemma_norm_scan_range(lv, i0 + 1);
                    let rb = spec_norm_removes(lv, i0 + 1);
                    let isep: int = if rb.1 < lv.len() && spec_starts_with(
                        lv[rb.1],
                        seq!['-', '-', '-'],
                    ) {
                        rb.1 + 1
                    } else {
                        rb.1
                    };
                    lemma_norm_scan_range(lv, isep);
                }
                match parse_normal_hunk_from_vec(lines, i) {
                    Ok(p) => {
                        proof {
                            lemma_map_push_hunk(hunks@, p.0);
                        }
                        let consumed = p.1;
                        hunks.push(p.0);
                        i += consumed;
                    },
                    Err(e) => {
                        proof {
                            assert(spec_scan(lv, i0, dt0, of0, nf0, hv0) is Err);
                        }
                        return Err(e);
                    },
                }
            } else {
                i += 1;
            }
            proof {
                assert(spec_scan(lv, i0, dt0, of0, nf0, hv0) == spec_scan(
                    lv,
                    i as int,
                    diff_type,
                    spec_view_opt(old_file),
                    spec_view_opt(new_file),
                    hunks@.map_values(|h: PatchHunk| h@),
                ));
            }
        }
        let p = Patch {
            diff_type,
            header: PatchHeader {
                old_file,
                new_file,
                index_file: None,
                old_time: None,
                new_time: None,
                old_mode: None,
                new_mode: None,
                sha1_old: None,
                sha1_new: None,
            },
            hunks,
        };
        Ok(p)
    }
}

} // verus!
