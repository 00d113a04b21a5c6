//! Character-level text operations used by the configuration matcher,
//! the token cache keys and the credential protocol.
use vstd::prelude::*;

verus! {

// ---------------------------------------------------------------------------
// Specifications
// ---------------------------------------------------------------------------

/// `p` occurs in `s` starting at index `i`.
pub open spec fn occurs_at(s: Seq<char>, p: Seq<char>, i: int) -> bool {
    &&& 0 <= i
    &&& i + p.len() <= s.len()
    &&& s.subrange(i, i + p.len()) == p
}

/// The first index at or after `i` where `p` occurs in `s`, or `s.len()`
/// when there is none.
pub open spec fn first_occurrence_from(s: Seq<char>, p: Seq<char>, i: int) -> int
    decreases s.len() + 1 - i,
{
    if i < 0 || i + p.len() > s.len() {
        s.len() as int
    } else if occurs_at(s, p, i) {
        i
    } else {
        first_occurrence_from(s, p, i + 1)
    }
}

/// The first index where `p` occurs in `s`, or `s.len()` when it does not occur.
pub open spec fn first_occurrence(s: Seq<char>, p: Seq<char>) -> int {
    first_occurrence_from(s, p, 0)
}

/// The part of `s` before the first occurrence of `p` (all of `s` when `p` does not occur).
pub open spec fn before_first(s: Seq<char>, p: Seq<char>) -> Seq<char> {
    s.take(first_occurrence(s, p))
}

/// The part of `s` after the first occurrence of `p` (empty when `p` does not occur).
pub open spec fn after_first(s: Seq<char>, p: Seq<char>) -> Seq<char> {
    if first_occurrence(s, p) + p.len() <= s.len() {
        s.skip(first_occurrence(s, p) + p.len())
    } else {
        Seq::empty()
    }
}

/// `s` splits at the first occurrence of the character `c`: the parts before and after it.
pub open spec fn split_once(s: Seq<char>, c: char) -> Option<(Seq<char>, Seq<char>)> {
    if first_occurrence(s, seq![c]) < s.len() {
        Some((before_first(s, seq![c]), after_first(s, seq![c])))
    } else {
        None
    }
}

/// `s` with every leading character satisfying `pred` removed.
pub open spec fn trim_start_by(s: Seq<char>, pred: spec_fn(char) -> bool) -> Seq<char>
    decreases s.len(),
{
    if s.len() > 0 && pred(s[0]) {
        trim_start_by(s.drop_first(), pred)
    } else {
        s
    }
}

/// `s` with every trailing character satisfying `pred` removed.
pub open spec fn trim_end_by(s: Seq<char>, pred: spec_fn(char) -> bool) -> Seq<char>
    decreases s.len(),
{
    if s.len() > 0 && pred(s.last()) {
        trim_end_by(s.drop_last(), pred)
    } else {
        s
    }
}

/// `s` with the leading and trailing characters satisfying `pred` removed.
pub open spec fn trim_by(s: Seq<char>, pred: spec_fn(char) -> bool) -> Seq<char> {
    trim_end_by(trim_start_by(s, pred), pred)
}

pub open spec fn is_slash(c: char) -> bool {
    c == '/'
}

/// The characters that path normalization strips from both ends.
pub open spec fn slash() -> spec_fn(char) -> bool {
    |c: char| is_slash(c)
}

/// The characters that `str::trim` strips from both ends.
pub open spec fn white_space() -> spec_fn(char) -> bool {
    |c: char| is_white_space(c)
}

/// Which characters a trim removes.
pub enum Trimmed {
    Slashes,
    WhiteSpace,
}

pub open spec fn trimmed_chars(which: Trimmed) -> spec_fn(char) -> bool {
    match which {
        Trimmed::Slashes => slash(),
        Trimmed::WhiteSpace => white_space(),
    }
}

/// Every character is ASCII.
pub open spec fn is_ascii_text(s: Seq<char>) -> bool {
    forall|i: int| 0 <= i < s.len() ==> (#[trigger] s[i] as u32) < 128
}

/// The ASCII lowercase of a character: `A`..`Z` become `a`..`z`, every other
/// character stays.
pub open spec fn ascii_lowercase(c: char) -> char {
    if 'A' <= c <= 'Z' {
        ((c as u32) + 32) as char
    } else {
        c
    }
}

/// Unicode `White_Space`, the characters that `str::trim` removes.
pub open spec fn is_white_space(c: char) -> bool {
    ||| '\u{9}' <= c <= '\u{d}'
    ||| c == ' '
    ||| c == '\u{85}'
    ||| c == '\u{a0}'
    ||| c == '\u{1680}'
    ||| '\u{2000}' <= c <= '\u{200a}'
    ||| c == '\u{2028}'
    ||| c == '\u{2029}'
    ||| c == '\u{202f}'
    ||| c == '\u{205f}'
    ||| c == '\u{3000}'
}

/// The decimal digit character for `d` (`d < 10`).
pub open spec fn digit_char(d: nat) -> char {
    if d == 0 {
        '0'
    } else if d == 1 {
        '1'
    } else if d == 2 {
        '2'
    } else if d == 3 {
        '3'
    } else if d == 4 {
        '4'
    } else if d == 5 {
        '5'
    } else if d == 6 {
        '6'
    } else if d == 7 {
        '7'
    } else if d == 8 {
        '8'
    } else {
        '9'
    }
}

pub open spec fn is_digit(c: char) -> bool {
    '0' <= c <= '9'
}

/// The value of a decimal digit character.
pub open spec fn digit_value(c: char) -> nat {
    (c as int - '0' as int) as nat
}

/// The decimal representation of `n`, without sign or leading zeros.
pub open spec fn decimal(n: nat) -> Seq<char>
    decreases n,
{
    if n < 10 {
        seq![digit_char(n)]
    } else {
        decimal(n / 10).push(digit_char(n % 10))
    }
}

/// The number that a sequence of decimal digits denotes.
pub open spec fn digits_value(s: Seq<char>) -> nat
    decreases s.len(),
{
    if s.len() == 0 {
        0
    } else {
        digits_value(s.drop_last()) * 10 + digit_value(s.last())
    }
}

pub open spec fn all_digits(s: Seq<char>) -> bool {
    forall|i: int| 0 <= i < s.len() ==> is_digit(#[trigger] s[i])
}

/// `s` without a leading `+`.
pub open spec fn unsigned_body(s: Seq<char>) -> Seq<char> {
    if s.len() > 0 && s[0] == '+' {
        s.drop_first()
    } else {
        s
    }
}

/// What `u64::from_str` gives for `s`: an optional `+` followed by at least
/// one decimal digit, denoting a value that fits in a `u64`.
pub open spec fn parse_u64_spec(s: Seq<char>) -> Option<u64> {
    let body = unsigned_body(s);
    if body.len() > 0 && all_digits(body) && digits_value(body) <= u64::MAX {
        Some(digits_value(body) as u64)
    } else {
        None
    }
}

// ---------------------------------------------------------------------------
// Lemmas
// ---------------------------------------------------------------------------

pub proof fn lemma_digit_char(d: nat)
    requires
        d < 10,
    ensures
        is_digit(digit_char(d)),
        digit_value(digit_char(d)) == d,
        digit_char(d) != ':',
{
}

/// The decimal representation of a number is never empty and consists of digits.
pub proof fn lemma_decimal_digits(n: nat)
    ensures
        decimal(n).len() > 0,
        all_digits(decimal(n)),
        digits_value(decimal(n)) == n,
    decreases n,
{
    if n < 10 {
        lemma_digit_char(n);
        assert(decimal(n).drop_last() =~= Seq::<char>::empty());
        assert(digits_value(Seq::<char>::empty()) == 0);
        assert(decimal(n).last() == digit_char(n));
    } else {
        lemma_decimal_digits(n / 10);
        lemma_digit_char(n % 10);
        assert(decimal(n).drop_last() =~= decimal(n / 10));
        assert(decimal(n).last() == digit_char(n % 10));
        assert(n == (n / 10) * 10 + n % 10);
        assert forall|i: int| 0 <= i < decimal(n).len() implies is_digit(#[trigger] decimal(n)[i]) by {
            if i < decimal(n / 10).len() {
                assert(decimal(n)[i] == decimal(n / 10)[i]);
            }
        }
    }
}

/// Distinct numbers have distinct decimal representations.
pub proof fn lemma_decimal_injective(a: nat, b: nat)
    requires
        decimal(a) == decimal(b),
    ensures
        a == b,
{
    lemma_decimal_digits(a);
    lemma_decimal_digits(b);
}

/// Stepping over a non-occurrence does not change the first occurrence.
proof fn lemma_first_occurrence_step(s: Seq<char>, p: Seq<char>, i: int)
    requires
        0 <= i,
        i + p.len() <= s.len(),
        !occurs_at(s, p, i),
    ensures
        first_occurrence_from(s, p, i) == first_occurrence_from(s, p, i + 1),
{
}

/// The first occurrence from `i` is at `i` or later, and no occurrence lies between.
pub proof fn lemma_first_occurrence_from_bounds(s: Seq<char>, p: Seq<char>, i: int)
    requires
        0 <= i,
    ensures
        first_occurrence_from(s, p, i) >= i || first_occurrence_from(s, p, i) == s.len(),
        first_occurrence_from(s, p, i) <= s.len(),
        first_occurrence_from(s, p, i) < s.len() ==> occurs_at(s, p, first_occurrence_from(s, p, i)),
        forall|j: int|
            i <= j < first_occurrence_from(s, p, i) ==> !occurs_at(s, p, j),
    decreases s.len() + 1 - i,
{
    if i + p.len() > s.len() {
        assert forall|j: int| i <= j < s.len() implies !occurs_at(s, p, j) by {}
    } else if occurs_at(s, p, i) {
    } else {
        lemma_first_occurrence_from_bounds(s, p, i + 1);
    }
}

/// The first occurrence from `i` is `j` when `p` occurs at `j` and nowhere in between.
pub proof fn lemma_first_occurrence_at(s: Seq<char>, p: Seq<char>, i: int, j: int)
    requires
        0 <= i <= j,
        occurs_at(s, p, j),
        forall|k: int| i <= k < j ==> !occurs_at(s, p, k),
    ensures
        first_occurrence_from(s, p, i) == j,
    decreases j - i,
{
    if i < j {
        lemma_first_occurrence_at(s, p, i + 1, j);
    }
}

/// The first occurrence from `i` is `s.len()` when `p` occurs nowhere from `i` on.
pub proof fn lemma_first_occurrence_none(s: Seq<char>, p: Seq<char>, i: int)
    requires
        0 <= i,
        forall|k: int| i <= k ==> !occurs_at(s, p, k),
    ensures
        first_occurrence_from(s, p, i) == s.len(),
    decreases s.len() + 1 - i,
{
    if i + p.len() <= s.len() {
        lemma_first_occurrence_none(s, p, i + 1);
    }
}

/// Splitting at the first `c` of `a + c + rest`, where `a` holds no `c`.
pub proof fn lemma_split_once_after(a: Seq<char>, c: char, rest: Seq<char>)
    requires
        forall|i: int| 0 <= i < a.len() ==> a[i] != c,
    ensures
        split_once(a + seq![c] + rest, c) == Some((a, rest)),
{
    let s = a + seq![c] + rest;
    let pat = seq![c];
    assert(occurs_at(s, pat, a.len() as int)) by {
        assert(s.subrange(a.len() as int, a.len() + 1int) =~= pat);
    }
    assert forall|k: int| 0 <= k < a.len() implies !occurs_at(s, pat, k) by {
        if occurs_at(s, pat, k) {
            assert(s.subrange(k, k + 1)[0] == s[k]);
            assert(s[k] == a[k]);
        }
    }
    lemma_first_occurrence_at(s, pat, 0, a.len() as int);
    assert(before_first(s, pat) =~= a);
    assert(after_first(s, pat) =~= rest);
}

// ---------------------------------------------------------------------------
// Trusted wrappers around std
// ---------------------------------------------------------------------------

/// Appends `c` to `s`. Calls `String::push`, which its documentation says
/// appends the given char to the end of the string.
#[verifier::external_body]
pub(crate) fn push_char(s: &mut String, c: char)
    ensures
        final(s)@ == old(s)@.push(c),
{
    s.push(c)
}

/// What `str::to_lowercase` returns for a string: the Unicode lowercase
/// mapping of each character, which may change the length.
pub uninterp spec fn lowercase(s: Seq<char>) -> Seq<char>;

/// Calls `str::to_lowercase`. Its result is named `lowercase` of the input.
/// Of an ASCII string, the Unicode lowercase mapping changes just the letters
/// `A`..`Z` into `a`..`z` (as `char::to_ascii_lowercase` does); that much is
/// stated. The mapping of other characters is not written down here.
#[verifier::external_body]
pub(crate) fn to_lowercase(s: &str) -> (res: String)
    ensures
        res@ == lowercase(s@),
        is_ascii_text(s@) ==> res@ == s@.map_values(|c: char| ascii_lowercase(c)),
{
    s.to_lowercase()
}

// ---------------------------------------------------------------------------
// Executable operations
// ---------------------------------------------------------------------------

/// The characters of `s`, in order.
pub fn chars_of(s: &str) -> (res: Vec<char>)
    ensures
        res@ == s@,
{
    let mut res: Vec<char> = Vec::new();
    for c in it: s.chars()
        invariant
            res@ == it.seq().take(it.index() as int),
            it.seq() == s@,
    {
        res.push(c);
    }
    res
}

/// A string holding the characters of `cs`.
pub fn string_from_chars(cs: &Vec<char>) -> (res: String)
    ensures
        res@ == cs@,
{
    let mut res = String::new();
    let mut i: usize = 0;
    while i < cs.len()
        invariant
            i <= cs.len(),
            res@ == cs@.take(i as int),
        decreases cs.len() - i,
    {
        push_char(&mut res, cs[i]);
        i = i + 1;
        assert(res@ =~= cs@.take(i as int));
    }
    assert(cs@.take(cs.len() as int) =~= cs@);
    res
}

/// Whether two strings hold the same characters.
pub fn str_eq(a: &str, b: &str) -> (res: bool)
    ensures
        res == (a@ == b@),
{
    let x = a.to_owned();
    let y = b.to_owned();
    x == y
}

/// Whether `p` occurs in `s` at index `i`.
pub fn occurs_at_exec(s: &Vec<char>, p: &Vec<char>, i: usize) -> (res: bool)
    ensures
        res == occurs_at(s@, p@, i as int),
{
    if i > s.len() || p.len() > s.len() - i {
        return false;
    }
    let mut k: usize = 0;
    while k < p.len()
        invariant
            k <= p.len(),
            i + p.len() <= s.len(),
            forall|j: int| 0 <= j < k ==> s@[i + j] == p@[j],
        decreases p.len() - k,
    {
        if s[i + k] != p[k] {
            assert(s@.subrange(i as int, i + p.len())[k as int] != p@[k as int]);
            return false;
        }
        k = k + 1;
    }
    assert(s@.subrange(i as int, i + p.len()) =~= p@);
    true
}

/// The index of the first occurrence of `p` in `s`, or `s.len()` when there is none.
pub fn find(s: &Vec<char>, p: &Vec<char>) -> (res: usize)
    ensures
        res == first_occurrence(s@, p@),
{
    if p.len() == 0 {
        assert(s@.subrange(0, 0) =~= p@);
        return 0;
    }
    let mut i: usize = 0;
    while i < s.len() && p.len() <= s.len() - i
        invariant
            i <= s.len(),
            p.len() > 0,
            first_occurrence(s@, p@) == first_occurrence_from(s@, p@, i as int),
        decreases s.len() + 1 - i,
    {
        if occurs_at_exec(s, p, i) {
            return i;
        }
        proof {
            lemma_first_occurrence_step(s@, p@, i as int);
        }
        i = i + 1;
    }
    s.len()
}

/// The index of the first occurrence of the character `c` in `s`, or `s.len()`.
pub fn find_char(s: &Vec<char>, c: char) -> (res: usize)
    ensures
        res == first_occurrence(s@, seq![c]),
{
    let mut p: Vec<char> = Vec::new();
    p.push(c);
    assert(p@ =~= seq![c]);
    find(s, &p)
}

/// The characters of `s` from `lo` up to `hi`.
pub fn slice_chars(s: &Vec<char>, lo: usize, hi: usize) -> (res: Vec<char>)
    requires
        lo <= hi <= s.len(),
    ensures
        res@ == s@.subrange(lo as int, hi as int),
{
    let mut res: Vec<char> = Vec::new();
    let mut i: usize = lo;
    while i < hi
        invariant
            lo <= i <= hi,
            hi <= s.len(),
            res@ == s@.subrange(lo as int, i as int),
        decreases hi - i,
    {
        res.push(s[i]);
        i = i + 1;
        assert(res@ =~= s@.subrange(lo as int, i as int));
    }
    res
}

/// Splits `s` at the first occurrence of `c`.
pub fn split_once_exec(s: &Vec<char>, c: char) -> (res: Option<(Vec<char>, Vec<char>)>)
    ensures
        match (res, split_once(s@, c)) {
            (Some((a, b)), Some((x, y))) => a@ == x && b@ == y,
            (None, None) => true,
            _ => false,
        },
{
    let i = find_char(s, c);
    if i < s.len() {
        proof {
            lemma_first_occurrence_from_bounds(s@, seq![c], 0);
        }
        let a = slice_chars(s, 0, i);
        let b = slice_chars(s, i + 1, s.len());
        assert(a@ =~= before_first(s@, seq![c]));
        assert(b@ =~= after_first(s@, seq![c]));
        Some((a, b))
    } else {
        None
    }
}

/// Appends the decimal representation of `n` to `out`.
pub fn push_decimal(out: &mut String, n: u64)
    ensures
        final(out)@ == old(out)@ + decimal(n as nat),
    decreases n,
{
    if n >= 10 {
        push_decimal(out, n / 10);
    }
    let d = n % 10;
    let c = if d == 0 {
        '0'
    } else if d == 1 {
        '1'
    } else if d == 2 {
        '2'
    } else if d == 3 {
        '3'
    } else if d == 4 {
        '4'
    } else if d == 5 {
        '5'
    } else if d == 6 {
        '6'
    } else if d == 7 {
        '7'
    } else if d == 8 {
        '8'
    } else {
        '9'
    };
    assert(c == digit_char(d as nat));
    push_char(out, c);
    assert(final(out)@ =~= old(out)@ + decimal(n as nat));
}

/// Parses `s` as `u64::from_str` does.
pub fn parse_u64(s: &Vec<char>) -> (res: Option<u64>)
    ensures
        res == parse_u64_spec(s@),
{
    let start: usize = if s.len() > 0 && s[0] == '+' {
        1
    } else {
        0
    };
    let ghost body = unsigned_body(s@);
    assert(body =~= s@.skip(start as int));
    if start >= s.len() {
        assert(body.len() == 0);
        return None;
    }
    let mut value: u64 = 0;
    let mut overflow = false;
    let mut i: usize = start;
    while i < s.len()
        invariant
            start <= i <= s.len(),
            start < s.len(),
            body == s@.skip(start as int),
            body == unsigned_body(s@),
            all_digits(s@.subrange(start as int, i as int)),
            !overflow ==> value == digits_value(s@.subrange(start as int, i as int)),
            overflow ==> digits_value(s@.subrange(start as int, i as int)) > u64::MAX,
        decreases s.len() - i,
    {
        let c = s[i];
        if !('0' <= c && c <= '9') {
            assert(body[i - start] == c);
            assert(!is_digit(body[i - start]));
            return None;
        }
        let ghost prefix = s@.subrange(start as int, i as int);
        let ghost next = s@.subrange(start as int, i + 1);
        assert(next.drop_last() =~= prefix);
        assert(next.last() == c);
        let d: u64 = if c == '0' {
            0
        } else if c == '1' {
            1
        } else if c == '2' {
            2
        } else if c == '3' {
            3
        } else if c == '4' {
            4
        } else if c == '5' {
            5
        } else if c == '6' {
            6
        } else if c == '7' {
            7
        } else if c == '8' {
            8
        } else {
            9
        };
        assert(d == digit_value(c));
        if !overflow {
            if value > (u64::MAX - d) / 10 {
                overflow = true;
            } else {
                value = value * 10 + d;
            }
        }
        i = i + 1;
        assert(all_digits(next)) by {
            assert forall|j: int| 0 <= j < next.len() implies is_digit(#[trigger] next[j]) by {
                if j < prefix.len() {
                    assert(next[j] == prefix[j]);
                }
            }
        }
    }
    assert(s@.subrange(start as int, s.len() as int) =~= body);
    if overflow {
        None
    } else {
        Some(value)
    }
}

/// Whether `c` is Unicode white space.
fn is_white_space_exec(c: char) -> (res: bool)
    ensures
        res == is_white_space(c),
{
    ('\u{9}' <= c && c <= '\u{d}') || c == ' ' || c == '\u{85}' || c == '\u{a0}' || c == '\u{1680}'
        || ('\u{2000}' <= c && c <= '\u{200a}') || c == '\u{2028}' || c == '\u{2029}' || c
        == '\u{202f}' || c == '\u{205f}' || c == '\u{3000}'
}

/// Whether a trim of `which` removes `c`.
fn is_trimmed(c: char, which: &Trimmed) -> (res: bool)
    ensures
        res == trimmed_chars(*which)(c),
{
    match which {
        Trimmed::Slashes => c == '/',
        Trimmed::WhiteSpace => is_white_space_exec(c),
    }
}

/// `s` without the leading and trailing characters that `which` names.
pub fn trim(s: &Vec<char>, which: Trimmed) -> (res: Vec<char>)
    ensures
        res@ == trim_by(s@, trimmed_chars(which)),
        is_ascii_text(s@) ==> is_ascii_text(res@),
{
    let ghost pred = trimmed_chars(which);
    let mut lo: usize = 0;
    assert(s@.skip(0) =~= s@);
    while lo < s.len() && is_trimmed(s[lo], &which)
        invariant
            lo <= s.len(),
            pred == trimmed_chars(which),
            trim_start_by(s@, pred) == trim_start_by(s@.skip(lo as int), pred),
        decreases s.len() - lo,
    {
        assert(s@.skip(lo as int).drop_first() =~= s@.skip(lo + 1));
        lo = lo + 1;
    }
    let mut hi: usize = s.len();
    let ghost start = s@.skip(lo as int);
    while hi > lo && is_trimmed(s[hi - 1], &which)
        invariant
            lo <= hi <= s.len(),
            pred == trimmed_chars(which),
            start == s@.skip(lo as int),
            trim_start_by(s@, pred) == start,
            trim_end_by(start, pred) == trim_end_by(s@.subrange(lo as int, hi as int), pred),
        decreases hi - lo,
    {
        assert(s@.subrange(lo as int, hi as int).drop_last() =~= s@.subrange(lo as int, hi - 1));
        hi = hi - 1;
    }
    proof {
        if lo < s.len() {
            assert(!pred(s@.skip(lo as int)[0]));
        }
        assert(s@.skip(lo as int) =~= s@.subrange(lo as int, s.len() as int));
    }
    let res = slice_chars(s, lo, hi);
    assert(is_ascii_text(s@) ==> is_ascii_text(res@)) by {
        if is_ascii_text(s@) {
            assert forall|i: int| 0 <= i < res@.len() implies (#[trigger] res@[i] as u32) < 128 by {
                assert(res@[i] == s@[lo + i]);
            }
        }
    }
    res
}

} // verus!
