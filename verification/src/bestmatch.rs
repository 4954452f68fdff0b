//! Bounded sequence alignment: given a document window `a` and a hunk's
//! original-side lines `b`, find the smallest edit budget within `max` under
//! which an alignment consumes all of `a`, at least `min` elements of `b`,
//! and meets a length-balance constraint.  The search walks a diagonal band
//! of the edit graph, widening the band one budget step at a time.

use vstd::prelude::*;
use crate::text::spec_views;

verus! {

/// Greedy extension along one diagonal: starting from position `x` in `a`
/// and `y` in `b`, consume pairs of equal lines as long as both remain.
pub open spec fn spec_slide(a: Seq<Seq<char>>, b: Seq<Seq<char>>, x: int, y: int) -> int
    decreases a.len() - x,
{
    if 0 <= x < a.len() && 0 <= y < b.len() && a[x] == b[y] {
        spec_slide(a, b, x + 1, y + 1)
    } else {
        x
    }
}

/// The central diagonal of the band.
pub open spec fn spec_fmid(a: Seq<Seq<char>>, b: Seq<Seq<char>>) -> int {
    a.len() - b.len()
}

/// Furthest position in `a` reachable on diagonal `d` with edit budget `c`,
/// or `-1` when the diagonal is outside the band of that budget (or of the
/// wrong parity).  Budget zero holds the extended common prefix, seeded on
/// the central diagonal.
pub open spec fn spec_fdval(a: Seq<Seq<char>>, b: Seq<Seq<char>>, c: nat, d: int) -> int
    decreases c,
{
    let n = a.len() as int;
    let m = b.len() as int;
    let fmid = n - m;
    if d < fmid - c || d > fmid + c || (d - fmid + c) % 2 != 0 {
        -1
    } else if c == 0 {
        spec_slide(a, b, 0, 0)
    } else {
        let pr = spec_fdval(a, b, (c - 1) as nat, d - 1);
        let pd = spec_fdval(a, b, (c - 1) as nat, d + 1);
        let xr: int = if pr >= 0 && pr < n {
            pr + 1
        } else {
            -1
        };
        let xd: int = if pd >= 0 && pd - (d + 1) < m {
            pd
        } else {
            -1
        };
        let xb: int = if xr >= xd {
            xr
        } else {
            xd
        };
        if xb == -1 {
            -1
        } else {
            spec_slide(a, b, xb, xb - d)
        }
    }
}

/// Diagonal `d` qualifies at budget `c`: all of `a` consumed, at least `min`
/// of `b` consumed, and the length-balance constraint met.
pub open spec fn spec_qual(a: Seq<Seq<char>>, b: Seq<Seq<char>>, min: int, c: nat, d: int) -> bool {
    let n = a.len() as int;
    let fmid = spec_fmid(a, b);
    let x = spec_fdval(a, b, c, d);
    x == n && x - d >= min && x + (x - d) - c >= fmid + 2 * min
}

/// Largest `b`-coverage among qualifying diagonals in `[d, fmid + c]`,
/// or `-1` when none qualifies there.
pub open spec fn spec_ymax_from(a: Seq<Seq<char>>, b: Seq<Seq<char>>, min: int, c: nat, d: int) -> int
    decreases spec_fmid(a, b) + c + 1 - d,
{
    let n = a.len() as int;
    let fmid = spec_fmid(a, b);
    if d > fmid + c {
        -1
    } else {
        let rest = spec_ymax_from(a, b, min, c, d + 1);
        let cur: int = if spec_qual(a, b, min, c, d) {
            n - d
        } else {
            -1
        };
        if cur >= rest {
            cur
        } else {
            rest
        }
    }
}

/// Best `b`-coverage at budget `c`, over the whole band.
pub open spec fn spec_best_y(a: Seq<Seq<char>>, b: Seq<Seq<char>>, min: int, c: nat) -> int {
    spec_ymax_from(a, b, min, c, spec_fmid(a, b) - c)
}

/// Search outcome from budget `c` on: the first budget at which some
/// diagonal qualifies, with its best coverage, else `(max + 1, 0)`.
pub open spec fn spec_bm_rec(a: Seq<Seq<char>>, b: Seq<Seq<char>>, min: int, max: int, c: nat) -> (
    int,
    int,
)
    decreases max + 1 - c,
{
    if c > max {
        (max + 1, 0)
    } else if spec_best_y(a, b, min, c) >= 0 {
        (c as int, spec_best_y(a, b, min, c))
    } else {
        spec_bm_rec(a, b, min, max, c + 1)
    }
}

/// The fast path qualifies: the common prefix of `a` and `b` consumes all of
/// `a`, covers at least `min`, and meets the balance constraint.
pub open spec fn spec_fast0(a: Seq<Seq<char>>, b: Seq<Seq<char>>, min: int) -> bool {
    let n = a.len() as int;
    let x0 = spec_slide(a, b, 0, 0);
    x0 == n && x0 >= min && 2 * x0 >= spec_fmid(a, b) + 2 * min
}

/// The full search: edit count (or `max + 1` on failure) and `b`-coverage.
pub open spec fn spec_bestmatch(a: Seq<Seq<char>>, b: Seq<Seq<char>>, min: int, max: int) -> (int, int) {
    if spec_fast0(a, b, min) {
        (0, spec_slide(a, b, 0, 0))
    } else {
        spec_bm_rec(a, b, min, max, 1)
    }
}

/// Index of diagonal `d` in the band array.
pub open spec fn spec_kidx(fmid: int, max: int, d: int) -> int {
    d - fmid + max + 1
}

/// Band array state at the start of round `c`: diagonals of the previous
/// round's parity hold their budget-`c - 1` values, and diagonals of this
/// round's parity outside this round's band are still unreachable.
pub open spec fn band_ok_prev(a: Seq<Seq<char>>, b: Seq<Seq<char>>, fd: Seq<i128>, max: int, c: nat) -> bool {
    let fmid = spec_fmid(a, b);
    &&& fd.len() == 2 * max + 3
    &&& forall|dd: int|
        #![trigger spec_kidx(spec_fmid(a, b), max, dd)]
        fmid - (max + 1) <= dd <= fmid + (max + 1) ==> {
            let v = fd[spec_kidx(spec_fmid(a, b), max, dd)] as int;
            if (dd - fmid + c - 1) % 2 == 0 {
                v == spec_fdval(a, b, (c - 1) as nat, dd)
            } else {
                (dd < fmid - c || dd > fmid + c) ==> v == -1
            }
        }
}

/// Band array state inside round `c`, with all diagonals above `d` already
/// advanced to their budget-`c` values.
pub open spec fn band_ok_mid(
    a: Seq<Seq<char>>,
    b: Seq<Seq<char>>,
    fd: Seq<i128>,
    max: int,
    c: nat,
    d: int,
) -> bool {
    let fmid = spec_fmid(a, b);
    &&& fd.len() == 2 * max + 3
    &&& forall|dd: int|
        #![trigger spec_kidx(spec_fmid(a, b), max, dd)]
        fmid - (max + 1) <= dd <= fmid + (max + 1) ==> {
            let v = fd[spec_kidx(spec_fmid(a, b), max, dd)] as int;
            if (dd - fmid + c) % 2 == 0 {
                if fmid - c <= dd <= fmid + c && dd > d {
                    v == spec_fdval(a, b, c, dd)
                } else {
                    (dd < fmid - c || dd > fmid + c) ==> v == -1
                }
            } else {
                v == spec_fdval(a, b, (c - 1) as nat, dd)
            }
        }
}

/// Entering round `c` from its start state.
proof fn lemma_band_enter(a: Seq<Seq<char>>, b: Seq<Seq<char>>, fd: Seq<i128>, max: int, c: nat)
    requires
        1 <= c,
        band_ok_prev(a, b, fd, max, c),
    ensures
        band_ok_mid(a, b, fd, max, c, spec_fmid(a, b) + c),
{
    let fmid = spec_fmid(a, b);
    assert forall|dd: int| fmid - (max + 1) <= dd <= fmid + (max + 1) implies {
        let v = fd[#[trigger] spec_kidx(spec_fmid(a, b), max, dd)] as int;
        if (dd - fmid + c) % 2 == 0 {
            if fmid - c <= dd <= fmid + c && dd > fmid + c {
                v == spec_fdval(a, b, c, dd)
            } else {
                (dd < fmid - c || dd > fmid + c) ==> v == -1
            }
        } else {
            v == spec_fdval(a, b, (c - 1) as nat, dd)
        }
    } by {
        assert(spec_kidx(spec_fmid(a, b), max, dd) == spec_kidx(spec_fmid(a, b), max, dd));
    }
}

/// Writing the freshly computed value of diagonal `d` advances the state.
proof fn lemma_band_write(
    a: Seq<Seq<char>>,
    b: Seq<Seq<char>>,
    fd: Seq<i128>,
    max: int,
    c: nat,
    d: int,
    v: i128,
)
    requires
        1 <= c <= max,
        band_ok_mid(a, b, fd, max, c, d),
        spec_fmid(a, b) - c <= d <= spec_fmid(a, b) + c,
        (d - spec_fmid(a, b) + c) % 2 == 0,
        v as int == spec_fdval(a, b, c, d),
    ensures
        band_ok_mid(
            a,
            b,
            fd.update(spec_kidx(spec_fmid(a, b), max, d), v),
            max,
            c,
            d - 2,
        ),
{
    let fmid = spec_fmid(a, b);
    let fd2 = fd.update(spec_kidx(fmid, max, d), v);
    assert forall|dd: int| fmid - (max + 1) <= dd <= fmid + (max + 1) implies {
        let w = fd2[#[trigger] spec_kidx(spec_fmid(a, b), max, dd)] as int;
        if (dd - fmid + c) % 2 == 0 {
            if fmid - c <= dd <= fmid + c && dd > d - 2 {
                w == spec_fdval(a, b, c, dd)
            } else {
                (dd < fmid - c || dd > fmid + c) ==> w == -1
            }
        } else {
            w == spec_fdval(a, b, (c - 1) as nat, dd)
        }
    } by {
        if dd == d {
        } else {
            assert(spec_kidx(fmid, max, dd) != spec_kidx(fmid, max, d));
            assert(fd2[spec_kidx(fmid, max, dd)] == fd[spec_kidx(fmid, max, dd)]);
        }
    }
}

/// Closing round `c` leaves the start state of round `c + 1`.
proof fn lemma_band_roll(a: Seq<Seq<char>>, b: Seq<Seq<char>>, fd: Seq<i128>, max: int, c: nat)
    requires
        1 <= c,
        band_ok_mid(a, b, fd, max, c, spec_fmid(a, b) - c - 2),
    ensures
        band_ok_prev(a, b, fd, max, (c + 1) as nat),
{
    let fmid = spec_fmid(a, b);
    assert forall|dd: int| fmid - (max + 1) <= dd <= fmid + (max + 1) implies {
        let v = fd[#[trigger] spec_kidx(spec_fmid(a, b), max, dd)] as int;
        if (dd - fmid + c) % 2 == 0 {
            v == spec_fdval(a, b, c, dd)
        } else {
            (dd < fmid - (c + 1) || dd > fmid + (c + 1)) ==> v == -1
        }
    } by {
        if (dd - fmid + c) % 2 == 0 {
            if dd < fmid - c || dd > fmid + c {
                assert(spec_fdval(a, b, c, dd) == -1);
            }
        } else {
            if dd < fmid - (c + 1) || dd > fmid + (c + 1) {
                assert(spec_fdval(a, b, (c - 1) as nat, dd) == -1);
            }
        }
    }
}

/// Sliding stays within `a`, and consumes equally from `b`.
proof fn lemma_slide_bounds(a: Seq<Seq<char>>, b: Seq<Seq<char>>, x: int, y: int)
    requires
        0 <= x <= a.len(),
        y <= b.len(),
    ensures
        x <= spec_slide(a, b, x, y) <= a.len(),
        y + (spec_slide(a, b, x, y) - x) <= b.len(),
    decreases a.len() - x,
{
    if 0 <= x < a.len() && 0 <= y < b.len() && a[x] == b[y] {
        lemma_slide_bounds(a, b, x + 1, y + 1);
    }
}

/// Reachable band entries stay within `a` and never overshoot `b`.
proof fn lemma_fdval_bounds(a: Seq<Seq<char>>, b: Seq<Seq<char>>, c: nat, d: int)
    ensures
        spec_fdval(a, b, c, d) == -1 || (0 <= spec_fdval(a, b, c, d) <= a.len()
            && spec_fdval(a, b, c, d) - d <= b.len()),
    decreases c,
{
    let n = a.len() as int;
    let m = b.len() as int;
    let fmid = n - m;
    if d < fmid - c || d > fmid + c || (d - fmid + c) % 2 != 0 {
    } else if c == 0 {
        lemma_slide_bounds(a, b, 0, 0);
        assert(spec_slide(a, b, 0, 0) - fmid <= m);
    } else {
        lemma_fdval_bounds(a, b, (c - 1) as nat, d - 1);
        lemma_fdval_bounds(a, b, (c - 1) as nat, d + 1);
        let pr = spec_fdval(a, b, (c - 1) as nat, d - 1);
        let pd = spec_fdval(a, b, (c - 1) as nat, d + 1);
        let xr: int = if pr >= 0 && pr < n {
            pr + 1
        } else {
            -1
        };
        let xd: int = if pd >= 0 && pd - (d + 1) < m {
            pd
        } else {
            -1
        };
        let xb: int = if xr >= xd {
            xr
        } else {
            xd
        };
        if xb != -1 {
            assert(xb - d <= m);
            lemma_slide_bounds(a, b, xb, xb - d);
        }
    }
}

/// Skipping non-qualifying diagonals does not change the best coverage.
proof fn lemma_ymax_from_skip(a: Seq<Seq<char>>, b: Seq<Seq<char>>, min: int, c: nat, lo: int, hi: int)
    requires
        lo <= hi,
        forall|dd: int| lo <= dd < hi ==> !spec_qual(a, b, min, c, dd),
    ensures
        spec_ymax_from(a, b, min, c, lo) == spec_ymax_from(a, b, min, c, hi),
    decreases hi - lo,
{
    if lo < hi {
        lemma_ymax_from_skip(a, b, min, c, lo + 1, hi);
        lemma_ymax_from_le(a, b, min, c, lo + 1);
        assert(!spec_qual(a, b, min, c, lo));
        assert(spec_ymax_from(a, b, min, c, lo) == spec_ymax_from(a, b, min, c, lo + 1));
    }
}

/// While no budget qualifies, the search outcome is decided later.
proof fn lemma_bm_rec_advance(
    a: Seq<Seq<char>>,
    b: Seq<Seq<char>>,
    min: int,
    max: int,
    c1: nat,
    c2: nat,
)
    requires
        c1 <= c2,
        forall|cc: nat| c1 <= cc < c2 ==> spec_best_y(a, b, min, cc) < 0,
    ensures
        spec_bm_rec(a, b, min, max, c1) == spec_bm_rec(a, b, min, max, c2),
    decreases c2 - c1,
{
    if c1 < c2 {
        assert(spec_best_y(a, b, min, c1) < 0);
        lemma_bm_rec_advance(a, b, min, max, (c1 + 1) as nat, c2);
    }
}

/// Once a budget admits a solution, enlarging the budget does not change the
/// outcome.
proof fn lemma_bm_rec_stable(
    a: Seq<Seq<char>>,
    b: Seq<Seq<char>>,
    min: int,
    max1: int,
    max2: int,
    c: nat,
)
    requires
        max1 <= max2,
        spec_bm_rec(a, b, min, max1, c).0 <= max1,
    ensures
        spec_bm_rec(a, b, min, max2, c) == spec_bm_rec(a, b, min, max1, c),
    decreases max1 + 1 - c,
{
    if c > max1 {
        assert(spec_bm_rec(a, b, min, max1, c) == (max1 + 1, 0int));
        assert(false);
    } else if spec_best_y(a, b, min, c) >= 0 {
    } else {
        lemma_bm_rec_stable(a, b, min, max1, max2, (c + 1) as nat);
    }
}

/// Sliding a sequence against itself consumes it entirely.
proof fn lemma_slide_refl(a: Seq<Seq<char>>, x: int)
    requires
        0 <= x <= a.len(),
    ensures
        spec_slide(a, a, x, x) == a.len(),
    decreases a.len() - x,
{
    if x < a.len() {
        lemma_slide_refl(a, x + 1);
    }
}

/// Matching a sequence against itself with budget zero and full coverage
/// required succeeds immediately: zero edits, everything matched.
pub proof fn lemma_bestmatch_self(a: Seq<Seq<char>>)
    ensures
        spec_bestmatch(a, a, a.len() as int, 0) == (0int, a.len() as int),
{
    lemma_slide_refl(a, 0);
}

/// Enlarging the edit budget never changes the result once the smaller
/// budget already admits a solution; in particular the reported edit count
/// stops changing from the true banded edit distance on.  (With a budget
/// below the true distance the function reports failure as `max + 1`, a
/// value that grows with the budget until the distance is reached.)
pub proof fn lemma_bestmatch_budget_stable(
    a: Seq<Seq<char>>,
    b: Seq<Seq<char>>,
    min: int,
    max1: int,
    max2: int,
)
    requires
        0 <= max1 <= max2,
        spec_bestmatch(a, b, min, max1).0 <= max1,
    ensures
        spec_bestmatch(a, b, min, max2) == spec_bestmatch(a, b, min, max1),
{
    if !spec_fast0(a, b, min) {
        lemma_bm_rec_stable(a, b, min, max1, max2, 1);
    }
}

/// The search never reports more than one past its budget.
proof fn lemma_bm_rec_upper(a: Seq<Seq<char>>, b: Seq<Seq<char>>, min: int, max: int, c: nat)
    requires
        c <= max + 1,
    ensures
        spec_bm_rec(a, b, min, max, c).0 <= max + 1,
    decreases max + 1 - c,
{
    if c <= max && spec_best_y(a, b, min, c) < 0 {
        lemma_bm_rec_upper(a, b, min, max, (c + 1) as nat);
    }
}

/// The search never reports less than the budget it starts from.
proof fn lemma_bm_rec_lower(a: Seq<Seq<char>>, b: Seq<Seq<char>>, min: int, max: int, c: nat)
    ensures
        spec_bm_rec(a, b, min, max, c).0 >= c || spec_bm_rec(a, b, min, max, c).0 == max + 1,
    decreases max + 1 - c,
{
    if c <= max && spec_best_y(a, b, min, c) < 0 {
        lemma_bm_rec_lower(a, b, min, max, (c + 1) as nat);
    }
}

/// A qualifying budget bounds the search outcome from above.
proof fn lemma_bm_rec_found(a: Seq<Seq<char>>, b: Seq<Seq<char>>, min: int, max: int, c: nat, cc: nat)
    requires
        c <= cc <= max,
        spec_best_y(a, b, min, cc) >= 0,
    ensures
        spec_bm_rec(a, b, min, max, c).0 <= cc,
    decreases cc - c,
{
    if c < cc && spec_best_y(a, b, min, c) < 0 {
        lemma_bm_rec_found(a, b, min, max, (c + 1) as nat, cc);
    }
}

/// The reported edit count always lands between zero and one past the
/// budget (`max + 1` marking failure).
pub proof fn lemma_bestmatch_upper(a: Seq<Seq<char>>, b: Seq<Seq<char>>, min: int, max: int)
    requires
        0 <= max,
    ensures
        0 <= spec_bestmatch(a, b, min, max).0 <= max + 1,
{
    if !spec_fast0(a, b, min) {
        lemma_bm_rec_upper(a, b, min, max, 1);
        lemma_bm_rec_lower(a, b, min, max, 1);
    }
}

/// The reported edit count never shrinks as the budget grows: with a budget
/// below the true banded distance the function reports `max + 1`, which
/// grows with the budget until the distance is reached, and from then on
/// the result is constant.
pub proof fn lemma_bestmatch_budget_monotone(
    a: Seq<Seq<char>>,
    b: Seq<Seq<char>>,
    min: int,
    max1: int,
    max2: int,
)
    requires
        0 <= max1 <= max2,
    ensures
        spec_bestmatch(a, b, min, max1).0 <= spec_bestmatch(a, b, min, max2).0,
{
    if !spec_fast0(a, b, min) {
        if spec_bm_rec(a, b, min, max1, 1).0 <= max1 {
            lemma_bm_rec_stable(a, b, min, max1, max2, 1);
        } else {
            lemma_bm_rec_upper(a, b, min, max1, 1);
            assert(spec_bm_rec(a, b, min, max1, 1).0 == max1 + 1);
            assert forall|cc: nat| 1 <= cc < max1 + 1 implies spec_best_y(a, b, min, cc) < 0 by {
                if spec_best_y(a, b, min, cc) >= 0 {
                    lemma_bm_rec_found(a, b, min, max1, 1, cc);
                }
            }
            lemma_bm_rec_advance(a, b, min, max2, 1, (max1 + 1) as nat);
            lemma_bm_rec_lower(a, b, min, max2, (max1 + 1) as nat);
        }
    }
}

/// Every value `spec_ymax_from` can return is at most `|b|`.
proof fn lemma_ymax_from_le(a: Seq<Seq<char>>, b: Seq<Seq<char>>, min: int, c: nat, d: int)
    ensures
        -1 <= spec_ymax_from(a, b, min, c, d) <= b.len(),
    decreases spec_fmid(a, b) + c + 1 - d,
{
    let fmid = spec_fmid(a, b);
    if d > fmid + c {
    } else {
        lemma_ymax_from_le(a, b, min, c, d + 1);
        if spec_qual(a, b, min, c, d) {
            lemma_fdval_bounds(a, b, c, d);
        }
    }
}

/// Compute the smallest edit count `c <= max` under which a qualifying
/// alignment of `a` and `b` exists, together with how much of `b` that
/// alignment covers.  Returns `(max + 1, 0)` when no alignment qualifies
/// within the budget.
pub fn bestmatch(a: &Vec<String>, b: &Vec<String>, min: usize, max: usize) -> (r: (usize, usize))
    requires
        max <= (usize::MAX - 3) / 2,
    ensures
        r.0 == spec_bestmatch(spec_views(a@), spec_views(b@), min as int, max as int).0,
        r.1 == spec_bestmatch(spec_views(a@), spec_views(b@), min as int, max as int).1,
{
    let ghost av = spec_views(a@);
    let ghost bv = spec_views(b@);
    let n = a.len();
    let m = b.len();
    let ni: i128 = n as i128;
    let mi: i128 = m as i128;
    let min_i: i128 = min as i128;
    let fmid_i: i128 = ni - mi;
    let fp2m: i128 = fmid_i + 2 * min_i;
    proof {
        assert(fmid_i as int == spec_fmid(av, bv));
    }

    // Fast path: extend the common prefix of `a` and `b`.
    let mut xoff: usize = 0;
    while xoff < n && xoff < m && a[xoff] == b[xoff]
        invariant
            av == spec_views(a@),
            bv == spec_views(b@),
            xoff <= n,
            xoff <= m,
            n == av.len(),
            m == bv.len(),
            spec_slide(av, bv, 0, 0) == spec_slide(av, bv, xoff as int, xoff as int),
        decreases n - xoff,
    {
        xoff += 1;
    }
    proof {
        assert(spec_slide(av, bv, xoff as int, xoff as int) == xoff);
    }
    if xoff == n && xoff >= min && 2 * (xoff as i128) >= fp2m {
        return (0, xoff);
    }
    assert(!spec_fast0(av, bv, min as int));

    // The band array, indexed by diagonal; -1 marks unreachable.
    let band: usize = 2 * max + 3;
    let mut fd: Vec<i128> = Vec::new();
    let mut ii: usize = 0;
    while ii < band
        invariant
            av == spec_views(a@),
            bv == spec_views(b@),
            ii <= band,
            fd@.len() == ii,
            forall|k: int| 0 <= k < ii ==> fd@[k] == -1,
        decreases band - ii,
    {
        fd.push(-1);
        ii += 1;
    }
    let kmid: usize = max + 1;
    fd[kmid] = xoff as i128;
    proof {
        assert(spec_fdval(av, bv, 0, fmid_i as int) == xoff as i128);
        assert forall|dd: int|
            spec_fmid(av, bv) - (max + 1) <= dd <= spec_fmid(av, bv) + (max + 1) implies {
            let v = fd@[#[trigger] spec_kidx(spec_fmid(av, bv), max as int, dd)] as int;
            if (dd - spec_fmid(av, bv) + 1 - 1) % 2 == 0 {
                v == spec_fdval(av, bv, 0, dd)
            } else {
                (dd < spec_fmid(av, bv) - 1 || dd > spec_fmid(av, bv) + 1) ==> v == -1
            }
        } by {
            if dd != fmid_i as int {
                assert(spec_kidx(spec_fmid(av, bv), max as int, dd) != kmid as int);
            }
        }
        assert(band_ok_prev(av, bv, fd@, max as int, 1));
    }

    let mut ymax: i128 = -1;
    let mut c: usize = 1;
    while c <= max
        invariant
            av == spec_views(a@),
            bv == spec_views(b@),
            n == av.len(),
            m == bv.len(),
            ni == n as i128,
            mi == m as i128,
            min_i == min as i128,
            fmid_i == ni - mi,
            fp2m == fmid_i + 2 * min_i,
            1 <= c <= max + 1,
            max <= (usize::MAX - 3) / 2,
            ymax == -1,
            !spec_fast0(av, bv, min as int),
            band_ok_prev(av, bv, fd@, max as int, c as nat),
            forall|cc: nat| 1 <= cc < c ==> spec_best_y(av, bv, min as int, cc) < 0,
        decreases max + 1 - c,
    {
        let ci: i128 = c as i128;
        proof {
            lemma_band_enter(av, bv, fd@, max as int, c as nat);
        }
        let mut d: i128 = fmid_i + ci;
        while d >= fmid_i - ci
            invariant
                av == spec_views(a@),
                bv == spec_views(b@),
            av == spec_views(a@),
            bv == spec_views(b@),
                n == av.len(),
                m == bv.len(),
                ni == n as i128,
                mi == m as i128,
                min_i == min as i128,
                fmid_i == ni - mi,
                fp2m == fmid_i + 2 * min_i,
                1 <= c <= max,
                ci == c as i128,
                max <= (usize::MAX - 3) / 2,
                fmid_i - ci - 2 <= d <= fmid_i + ci,
                (d - fmid_i + ci) % 2 == 0,
                !spec_fast0(av, bv, min as int),
                -1 <= ymax <= mi,
                ymax == spec_ymax_from(av, bv, min as int, c as nat, d + 1),
                band_ok_mid(av, bv, fd@, max as int, c as nat, d as int),
                forall|cc: nat| 1 <= cc < c ==> spec_best_y(av, bv, min as int, cc) < 0,
            decreases d - (fmid_i - ci) + 2,
        {
            proof {
                assert(0 <= d - fmid_i + max + 1 <= 2 * max + 2);
            }
            let kd: usize = (d - fmid_i + max as i128 + 1) as usize;
            proof {
                assert(kd as int == spec_kidx(spec_fmid(av, bv), max as int, d as int));
                assert((kd - 1) as int == spec_kidx(spec_fmid(av, bv), max as int, d - 1));
                assert((kd + 1) as int == spec_kidx(spec_fmid(av, bv), max as int, d + 1));
            }
            let pr: i128 = fd[kd - 1];
            let pd_: i128 = fd[kd + 1];
            proof {
                assert(pr as int == spec_fdval(av, bv, (c - 1) as nat, d - 1));
                assert(pd_ as int == spec_fdval(av, bv, (c - 1) as nat, d + 1));
                lemma_fdval_bounds(av, bv, (c - 1) as nat, d - 1);
                lemma_fdval_bounds(av, bv, (c - 1) as nat, d + 1);
            }
            let xr: i128 = if pr >= 0 && pr < ni {
                pr + 1
            } else {
                -1
            };
            let xd: i128 = if pd_ >= 0 && pd_ - (d + 1) < mi {
                pd_
            } else {
                -1
            };
            let xb: i128 = if xr >= xd {
                xr
            } else {
                xd
            };
            if xb == -1 {
                proof {
                    assert(spec_fdval(av, bv, c as nat, d as int) == -1);
                    lemma_band_write(av, bv, fd@, max as int, c as nat, d as int, -1i128);
                }
                fd[kd] = -1;
                proof {
                    assert(!spec_qual(av, bv, min as int, c as nat, d as int));
                    assert(spec_ymax_from(av, bv, min as int, c as nat, d as int) == ymax);
                    assert(spec_ymax_from(av, bv, min as int, c as nat, d - 1) == ymax);
                }
            } else {
                let mut x: i128 = xb;
                let mut y: i128 = xb - d;
                proof {
                    assert(0 <= xb <= ni);
                    assert(y <= mi);
                }
                while x < ni && y >= 0 && y < mi && a[x as usize] == b[y as usize]
                    invariant
                        av == spec_views(a@),
                        bv == spec_views(b@),
                av == spec_views(a@),
                bv == spec_views(b@),
            av == spec_views(a@),
            bv == spec_views(b@),
                        n == av.len(),
                        m == bv.len(),
                        ni == n as i128,
                        mi == m as i128,
                        0 <= xb <= x <= ni,
                        y == x - d,
                        y <= mi,
                        spec_slide(av, bv, xb as int, (xb - d) as int) == spec_slide(
                            av,
                            bv,
                            x as int,
                            y as int,
                        ),
                    decreases ni - x,
                {
                    x += 1;
                    y += 1;
                }
                proof {
                    assert(spec_slide(av, bv, x as int, y as int) == x);
                    assert(spec_fdval(av, bv, c as nat, d as int) == x);
                    lemma_band_write(av, bv, fd@, max as int, c as nat, d as int, x);
                }
                fd[kd] = x;
                if x == ni && y >= min_i && x + y - ci >= fp2m {
                    proof {
                        assert(spec_qual(av, bv, min as int, c as nat, d as int));
                        lemma_fdval_bounds(av, bv, c as nat, d as int);
                        assert(y <= mi);
                    }
                    if ymax < y {
                        ymax = y;
                    }
                    proof {
                        assert(ymax == spec_ymax_from(av, bv, min as int, c as nat, d as int));
                        assert(spec_ymax_from(av, bv, min as int, c as nat, d - 1) == ymax);
                    }
                    if y == mi {
                        proof {
                            assert forall|dd: int| fmid_i - ci <= dd < d implies !spec_qual(
                                av,
                                bv,
                                min as int,
                                c as nat,
                                dd,
                            ) by {
                                lemma_fdval_bounds(av, bv, c as nat, dd);
                            }
                            lemma_ymax_from_skip(
                                av,
                                bv,
                                min as int,
                                c as nat,
                                fmid_i - ci,
                                d as int,
                            );
                            assert(spec_best_y(av, bv, min as int, c as nat) == ymax);
                            lemma_bm_rec_advance(av, bv, min as int, max as int, 1, c as nat);
                        }
                        return (c, ymax as usize);
                    }
                } else {
                    proof {
                        assert(!spec_qual(av, bv, min as int, c as nat, d as int));
                        assert(spec_ymax_from(av, bv, min as int, c as nat, d as int) == ymax);
                        assert(spec_ymax_from(av, bv, min as int, c as nat, d - 1) == ymax);
                    }
                }
            }
            d = d - 2;
        }
        proof {
            assert(spec_ymax_from(av, bv, min as int, c as nat, d + 1) == spec_best_y(
                av,
                bv,
                min as int,
                c as nat,
            ));
        }
        if ymax != -1 {
            proof {
                lemma_bm_rec_advance(av, bv, min as int, max as int, 1, c as nat);
                lemma_ymax_from_le(av, bv, min as int, c as nat, fmid_i - ci);
            }
            return (c, ymax as usize);
        }
        proof {
            lemma_band_roll(av, bv, fd@, max as int, c as nat);
        }
        c += 1;
    }
    proof {
        lemma_bm_rec_advance(av, bv, min as int, max as int, 1, (max + 1) as nat);
    }
    (max + 1, 0)
}

} // verus!
