//! Character-level string helpers: equality, prefix tests, tokenisation,
//! trimming and decimal parsing, each with an exact specification over the
//! string's character sequence.

use vstd::prelude::*;
use vstd::string::*;

verus! {

/// The whitespace characters recognised by this crate's tokenisation.
pub open spec fn spec_is_space(c: char) -> bool {
    c == ' ' || c == '\t' || c == '\n' || c == '\r' || c == '\u{000B}' || c == '\u{000C}'
}

/// Executable test for `spec_is_space`.
pub fn is_space(c: char) -> (r: bool)
    ensures
        r == spec_is_space(c),
{
    c == ' ' || c == '\t' || c == '\n' || c == '\r' || c == '\u{000B}' || c == '\u{000C}'
}

/// Character-for-character equality of two string slices.
pub fn str_eq(a: &str, b: &str) -> (r: bool)
    ensures
        r == (a@ == b@),
{
    let n = a.unicode_len();
    let m = b.unicode_len();
    if n != m {
        return false;
    }
    let mut i: usize = 0;
    while i < n
        invariant
            i <= n,
            n == a@.len(),
            n == b@.len(),
            forall|j: int| 0 <= j < i ==> a@[j] == b@[j],
        decreases n - i,
    {
        if a.get_char(i) != b.get_char(i) {
            return false;
        }
        i += 1;
    }
    proof {
        assert(a@ =~= b@);
    }
    true
}

/// `p` is a prefix of `s`.
pub open spec fn spec_starts_with(s: Seq<char>, p: Seq<char>) -> bool {
    p.len() <= s.len() && (forall|i: int| 0 <= i < p.len() ==> s[i] == p[i])
}

/// Executable prefix test.
pub fn starts_with_str(s: &str, p: &str) -> (r: bool)
    ensures
        r == spec_starts_with(s@, p@),
{
    let n = s.unicode_len();
    let m = p.unicode_len();
    if m > n {
        return false;
    }
    let mut i: usize = 0;
    while i < m
        invariant
            i <= m,
            n == s@.len(),
            m == p@.len(),
            m <= n,
            forall|j: int| 0 <= j < i ==> s@[j] == p@[j],
        decreases m - i,
    {
        if s.get_char(i) != p.get_char(i) {
            return false;
        }
        i += 1;
    }
    true
}

/// `p` is a suffix of `s`.
pub open spec fn spec_ends_with(s: Seq<char>, p: Seq<char>) -> bool {
    p.len() <= s.len() && (forall|i: int|
        0 <= i < p.len() ==> s[s.len() - p.len() + i] == p[i])
}

/// Executable suffix test.
pub fn ends_with_str(s: &str, p: &str) -> (r: bool)
    ensures
        r == spec_ends_with(s@, p@),
{
    let n = s.unicode_len();
    let m = p.unicode_len();
    if m > n {
        return false;
    }
    let mut i: usize = 0;
    while i < m
        invariant
            i <= m,
            n == s@.len(),
            m == p@.len(),
            m <= n,
            forall|j: int| 0 <= j < i ==> s@[n - m + j] == p@[j],
        decreases m - i,
    {
        if s.get_char(n - m + i) != p.get_char(i) {
            return false;
        }
        i += 1;
    }
    true
}

/// The characters of `s` from position `k` on, as an owned string.
pub fn suffix_owned(s: &str, k: usize) -> (r: String)
    requires
        k <= s@.len(),
    ensures
        r@ == s@.skip(k as int),
{
    let n = s.unicode_len();
    let t = s.substring_char(k, n);
    proof {
        assert(t@ =~= s@.skip(k as int));
    }
    t.to_owned()
}

/// The characters of `s` from position `k` on; empty when `k` is past the end.
pub open spec fn spec_tail_from(s: Seq<char>, k: int) -> Seq<char> {
    if 0 <= k <= s.len() {
        s.skip(k)
    } else {
        Seq::empty()
    }
}

/// Executable form of `spec_tail_from`.
pub fn suffix_clamped(s: &str, k: usize) -> (r: String)
    ensures
        r@ == spec_tail_from(s@, k as int),
{
    let n = s.unicode_len();
    if k <= n {
        suffix_owned(s, k)
    } else {
        String::new()
    }
}

/// Index of the first occurrence of `c` in `s`, or `s.len()` when absent.
pub open spec fn spec_find_char(s: Seq<char>, c: char) -> int
    decreases s.len(),
{
    if s.len() == 0 {
        0
    } else if s[0] == c {
        0
    } else {
        1 + spec_find_char(s.skip(1), c)
    }
}

/// `spec_find_char` indeed names the first occurrence.
pub proof fn lemma_find_char(s: Seq<char>, c: char)
    ensures
        0 <= spec_find_char(s, c) <= s.len(),
        spec_find_char(s, c) < s.len() ==> s[spec_find_char(s, c)] == c,
        forall|j: int| 0 <= j < spec_find_char(s, c) ==> s[j] != c,
    decreases s.len(),
{
    if s.len() == 0 {
    } else if s[0] == c {
    } else {
        lemma_find_char(s.skip(1), c);
        let f = spec_find_char(s, c);
        assert(f == 1 + spec_find_char(s.skip(1), c));
        assert(f < s.len() ==> s.skip(1)[f - 1] == c);
        assert forall|j: int| 0 <= j < f implies s[j] != c by {
            if j > 0 {
                assert(s.skip(1)[j - 1] == s[j]);
            }
        }
    }
}

/// Executable form of `spec_find_char`.
pub fn find_char(s: &str, c: char) -> (r: usize)
    ensures
        r == spec_find_char(s@, c),
{
    let n = s.unicode_len();
    let mut i: usize = 0;
    while i < n
        invariant
            i <= n,
            n == s@.len(),
            forall|j: int| 0 <= j < i ==> s@[j] != c,
        decreases n - i,
    {
        if s.get_char(i) == c {
            proof {
                lemma_find_char(s@, c);
            }
            return i;
        }
        i += 1;
    }
    proof {
        lemma_find_char(s@, c);
    }
    n
}

/// `s` without its leading whitespace.
pub open spec fn spec_skip_ws(s: Seq<char>) -> Seq<char>
    decreases s.len(),
{
    if s.len() > 0 && spec_is_space(s[0]) {
        spec_skip_ws(s.skip(1))
    } else {
        s
    }
}

/// Executable form of `spec_skip_ws`.
pub fn skip_ws_str<'a>(s: &'a str) -> (r: &'a str)
    ensures
        r@ == spec_skip_ws(s@),
{
    let mut t: &str = s;
    let mut n: usize = t.unicode_len();
    while n > 0 && is_space(t.get_char(0))
        invariant
            n == t@.len(),
            spec_skip_ws(s@) == spec_skip_ws(t@),
        decreases n,
    {
        let t2 = t.substring_char(1, n);
        proof {
            assert(t2@ =~= t@.skip(1));
        }
        t = t2;
        n = n - 1;
    }
    t
}

/// `s` without its trailing whitespace.
pub open spec fn spec_skip_ws_end(s: Seq<char>) -> Seq<char>
    decreases s.len(),
{
    if s.len() > 0 && spec_is_space(s[s.len() - 1]) {
        spec_skip_ws_end(s.take(s.len() - 1))
    } else {
        s
    }
}

/// Executable form of `spec_skip_ws_end`.
pub fn skip_ws_end_str<'a>(s: &'a str) -> (r: &'a str)
    ensures
        r@ == spec_skip_ws_end(s@),
{
    let mut t: &str = s;
    let mut n: usize = t.unicode_len();
    while n > 0 && is_space(t.get_char(n - 1))
        invariant
            n == t@.len(),
            spec_skip_ws_end(s@) == spec_skip_ws_end(t@),
        decreases n,
    {
        let t2 = t.substring_char(0, n - 1);
        proof {
            assert(t2@ =~= t@.take(n - 1));
        }
        t = t2;
        n = n - 1;
    }
    t
}

/// `s` with whitespace removed from both ends.
pub open spec fn spec_trim(s: Seq<char>) -> Seq<char> {
    spec_skip_ws_end(spec_skip_ws(s))
}

/// Executable form of `spec_trim`.
pub fn trim_str<'a>(s: &'a str) -> (r: &'a str)
    ensures
        r@ == spec_trim(s@),
{
    skip_ws_end_str(skip_ws_str(s))
}

/// The longest whitespace-free prefix of `s`.
pub open spec fn spec_take_nonws(s: Seq<char>) -> Seq<char>
    decreases s.len(),
{
    if s.len() > 0 && !spec_is_space(s[0]) {
        seq![s[0]] + spec_take_nonws(s.skip(1))
    } else {
        Seq::empty()
    }
}

/// `spec_take_nonws` takes everything up to the first whitespace character.
pub proof fn lemma_take_nonws(s: Seq<char>, k: int)
    requires
        0 <= k <= s.len(),
        forall|j: int| 0 <= j < k ==> !spec_is_space(s[j]),
        k == s.len() || spec_is_space(s[k]),
    ensures
        spec_take_nonws(s) == s.take(k),
    decreases s.len(),
{
    if s.len() == 0 {
        assert(s.take(0) =~= Seq::<char>::empty());
    } else if k == 0 {
        assert(s.take(0) =~= Seq::<char>::empty());
    } else {
        lemma_take_nonws(s.skip(1), k - 1);
        assert(seq![s[0]] + s.skip(1).take(k - 1) =~= s.take(k));
    }
}

/// Executable form of `spec_take_nonws`, as a borrowed prefix.
pub fn take_nonws_str<'a>(s: &'a str) -> (r: &'a str)
    ensures
        r@ == spec_take_nonws(s@),
{
    let n = s.unicode_len();
    let mut i: usize = 0;
    while i < n && !is_space(s.get_char(i))
        invariant
            i <= n,
            n == s@.len(),
            forall|j: int| 0 <= j < i ==> !spec_is_space(s@[j]),
        decreases n - i,
    {
        i += 1;
    }
    proof {
        lemma_take_nonws(s@, i as int);
    }
    let t = s.substring_char(0, i);
    proof {
        assert(t@ =~= s@.take(i as int));
    }
    t
}

/// `s` with every copy of the non-empty pattern `p` stripped off the front.
pub open spec fn spec_strip_prefix_rep(s: Seq<char>, p: Seq<char>) -> Seq<char>
    decreases s.len(),
{
    if p.len() > 0 && spec_starts_with(s, p) {
        spec_strip_prefix_rep(s.skip(p.len() as int), p)
    } else {
        s
    }
}

/// Executable form of `spec_strip_prefix_rep`.
pub fn strip_prefix_rep<'a>(s: &'a str, p: &str) -> (r: &'a str)
    ensures
        r@ == spec_strip_prefix_rep(s@, p@),
{
    let plen = p.unicode_len();
    if plen == 0 {
        return s;
    }
    let mut t: &str = s;
    let mut n: usize = t.unicode_len();
    while starts_with_str(t, p)
        invariant
            n == t@.len(),
            plen == p@.len(),
            plen > 0,
            spec_strip_prefix_rep(s@, p@) == spec_strip_prefix_rep(t@, p@),
        decreases n,
    {
        let t2 = t.substring_char(plen, n);
        proof {
            assert(t2@ =~= t@.skip(plen as int));
        }
        t = t2;
        n = n - plen;
    }
    t
}

/// `s` with every copy of the non-empty pattern `p` stripped off the back.
pub open spec fn spec_strip_suffix_rep(s: Seq<char>, p: Seq<char>) -> Seq<char>
    decreases s.len(),
{
    if p.len() > 0 && spec_ends_with(s, p) {
        spec_strip_suffix_rep(s.take(s.len() - p.len()), p)
    } else {
        s
    }
}

/// Executable form of `spec_strip_suffix_rep`.
pub fn strip_suffix_rep<'a>(s: &'a str, p: &str) -> (r: &'a str)
    ensures
        r@ == spec_strip_suffix_rep(s@, p@),
{
    let plen = p.unicode_len();
    if plen == 0 {
        return s;
    }
    let mut t: &str = s;
    let mut n: usize = t.unicode_len();
    while ends_with_str(t, p)
        invariant
            n == t@.len(),
            plen == p@.len(),
            plen > 0,
            spec_strip_suffix_rep(s@, p@) == spec_strip_suffix_rep(t@, p@),
        decreases n,
    {
        let t2 = t.substring_char(0, n - plen);
        proof {
            assert(t2@ =~= t@.take(n - plen));
        }
        t = t2;
        n = n - plen;
    }
    t
}

/// `s` without its trailing newline characters.
pub open spec fn spec_strip_nl(s: Seq<char>) -> Seq<char>
    decreases s.len(),
{
    if s.len() > 0 && s[s.len() - 1] == '\n' {
        spec_strip_nl(s.take(s.len() - 1))
    } else {
        s
    }
}

/// Executable form of `spec_strip_nl`, as an owned string.
pub fn strip_nl_owned(s: &str) -> (r: String)
    ensures
        r@ == spec_strip_nl(s@),
{
    let mut t: &str = s;
    let mut n: usize = t.unicode_len();
    while n > 0 && t.get_char(n - 1) == '\n'
        invariant
            n == t@.len(),
            spec_strip_nl(s@) == spec_strip_nl(t@),
        decreases n,
    {
        let t2 = t.substring_char(0, n - 1);
        proof {
            assert(t2@ =~= t@.take(n - 1));
        }
        t = t2;
        n = n - 1;
    }
    t.to_owned()
}

/// A decimal digit.
pub open spec fn spec_is_digit(c: char) -> bool {
    48 <= c as u32 <= 57
}

/// The numeric value of a decimal digit.
pub open spec fn spec_digit_val(c: char) -> int {
    c as u32 - 48
}

/// `s` is non-empty and all decimal digits.
pub open spec fn spec_all_digits(s: Seq<char>) -> bool {
    s.len() > 0 && (forall|i: int| 0 <= i < s.len() ==> spec_is_digit(s[i]))
}

/// The value of a digit string.
pub open spec fn spec_digits_val(s: Seq<char>) -> int
    decreases s.len(),
{
    if s.len() == 0 {
        0
    } else {
        spec_digits_val(s.take(s.len() - 1)) * 10 + spec_digit_val(s[s.len() - 1])
    }
}

/// Digit strings have non-negative value.
pub proof fn lemma_digits_val_nonneg(s: Seq<char>)
    requires
        forall|i: int| 0 <= i < s.len() ==> spec_is_digit(s[i]),
    ensures
        spec_digits_val(s) >= 0,
    decreases s.len(),
{
    if s.len() > 0 {
        lemma_digits_val_nonneg(s.take(s.len() - 1));
    }
}

/// Extending a digit string never shrinks its value.
pub proof fn lemma_digits_val_grow(s: Seq<char>, i: int)
    requires
        forall|j: int| 0 <= j < s.len() ==> spec_is_digit(s[j]),
        0 <= i <= s.len(),
    ensures
        spec_digits_val(s.take(i)) <= spec_digits_val(s),
    decreases s.len() - i,
{
    if i == s.len() {
        assert(s.take(i) =~= s);
    } else {
        lemma_digits_val_grow(s, i + 1);
        assert(s.take(i + 1).take(i) =~= s.take(i));
        lemma_digits_val_nonneg(s.take(i));
        assert(spec_digits_val(s.take(i + 1)) == spec_digits_val(s.take(i)) * 10
            + spec_digit_val(s.take(i + 1)[i]));
    }
}

/// The result of reading `s` as an unsigned decimal number: its value when
/// `s` is a non-empty digit string whose value fits, and nothing otherwise.
pub open spec fn spec_parse_usize(s: Seq<char>) -> Option<int> {
    if spec_all_digits(s) && spec_digits_val(s) <= usize::MAX as int {
        Some(spec_digits_val(s))
    } else {
        None
    }
}

/// Executable form of `spec_parse_usize`.
pub fn parse_usize_str(s: &str) -> (r: Option<usize>)
    ensures
        match r {
            Some(v) => spec_parse_usize(s@) == Some(v as int),
            None => spec_parse_usize(s@) is None,
        },
{
    let n = s.unicode_len();
    if n == 0 {
        return None;
    }
    let mut acc: usize = 0;
    let mut i: usize = 0;
    while i < n
        invariant
            i <= n,
            n == s@.len(),
            n > 0,
            forall|j: int| 0 <= j < i ==> spec_is_digit(s@[j]),
            acc as int == spec_digits_val(s@.take(i as int)),
        decreases n - i,
    {
        let c = s.get_char(i);
        let cu = c as u32;
        if cu < 48 || cu > 57 {
            return None;
        }
        let d = (cu - 48) as usize;
        proof {
            assert(s@.take(i + 1).take(i as int) =~= s@.take(i as int));
            assert(spec_digits_val(s@.take(i + 1)) == spec_digits_val(s@.take(i as int)) * 10
                + spec_digit_val(s@[i as int]));
        }
        if acc > usize::MAX / 10 || acc * 10 > usize::MAX - d {
            proof {
                if spec_all_digits(s@) {
                    lemma_digits_val_grow(s@, i + 1);
                }
                assert(acc > usize::MAX / 10 ==> acc as int * 10 > usize::MAX as int) by (nonlinear_arith);
            }
            return None;
        }
        proof {
            assert(acc as int <= usize::MAX as int / 10 ==> acc as int * 10 <= usize::MAX as int)
                by (nonlinear_arith);
        }
        acc = acc * 10 + d;
        i += 1;
    }
    proof {
        assert(s@.take(n as int) =~= s@);
    }
    Some(acc)
}

/// The views of a list of lines.
pub open spec fn spec_views(ls: Seq<String>) -> Seq<Seq<char>> {
    Seq::new(ls.len(), |i: int| ls[i]@)
}

/// The decimal digit character for a value below ten.
pub open spec fn spec_digit_char(d: int) -> char {
    if d == 0 {
        '0'
    } else if d == 1 {
        '1'
    } else if d == 2 {
        '2'
    } else if d == 3 {
        '3'
    } else if d == 4 {
        '4'
    } else if d == 5 {
        '5'
    } else if d == 6 {
        '6'
    } else if d == 7 {
        '7'
    } else if d == 8 {
        '8'
    } else {
        '9'
    }
}

/// The decimal rendering of a non-negative number.
pub open spec fn spec_dec(n: int) -> Seq<char>
    decreases n,
{
    if n < 10 {
        seq![spec_digit_char(n)]
    } else {
        spec_dec(n / 10) + seq![spec_digit_char(n % 10)]
    }
}

/// The one-character string for a decimal digit.
fn digit_str(d: usize) -> (r: &'static str)
    requires
        d < 10,
    ensures
        r@ == seq![spec_digit_char(d as int)],
{
    if d == 0 {
        proof {
            reveal_strlit("0");
            assert("0"@ =~= seq!['0']);
        }
        return "0";
    }
    if d == 1 {
        proof {
            reveal_strlit("1");
            assert("1"@ =~= seq!['1']);
        }
        return "1";
    }
    if d == 2 {
        proof {
            reveal_strlit("2");
            assert("2"@ =~= seq!['2']);
        }
        return "2";
    }
    if d == 3 {
        proof {
            reveal_strlit("3");
            assert("3"@ =~= seq!['3']);
        }
        return "3";
    }
    if d == 4 {
        proof {
            reveal_strlit("4");
            assert("4"@ =~= seq!['4']);
        }
        return "4";
    }
    if d == 5 {
        proof {
            reveal_strlit("5");
            assert("5"@ =~= seq!['5']);
        }
        return "5";
    }
    if d == 6 {
        proof {
            reveal_strlit("6");
            assert("6"@ =~= seq!['6']);
        }
        return "6";
    }
    if d == 7 {
        proof {
            reveal_strlit("7");
            assert("7"@ =~= seq!['7']);
        }
        return "7";
    }
    if d == 8 {
        proof {
            reveal_strlit("8");
            assert("8"@ =~= seq!['8']);
        }
        return "8";
    }
    proof {
        reveal_strlit("9");
        assert("9"@ =~= seq!['9']);
    }
    "9"
}

/// Render a number in decimal.
pub fn usize_to_string(n: usize) -> (r: String)
    ensures
        r@ == spec_dec(n as int),
    decreases n,
{
    if n < 10 {
        digit_str(n).to_owned()
    } else {
        let pre = usize_to_string(n / 10);
        let tail = digit_str(n % 10);
        pre.concat(tail)
    }
}

/// Reading `s` as a number, with a fallback for anything unreadable.
pub open spec fn spec_parse_or(s: Seq<char>, d: int) -> int {
    match spec_parse_usize(s) {
        Some(v) => v,
        None => d,
    }
}

/// Executable form of `spec_parse_or`.
pub fn parse_or(s: &str, d: usize) -> (r: usize)
    ensures
        r == spec_parse_or(s@, d as int),
{
    match parse_usize_str(s) {
        Some(v) => v,
        None => d,
    }
}

} // verus!
