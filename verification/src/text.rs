//! Character-level helpers shared by the parser, the differ and the renderer.
//!
//! Text is handled as sequences of Unicode scalar values (`Seq<char>` in
//! specifications, `Vec<char>` in code); positions count characters.

use vstd::prelude::*;

verus! {

/// Builds a `String` whose characters are exactly `chars`.
///
/// Calls std's `FromIterator<char>` for `String`; the contract claims that the
/// collected string holds the iterated characters, in order, and nothing else.
#[verifier::external_body]
pub(crate) fn string_from_chars(chars: &Vec<char>) -> (s: String)
    ensures
        s@ == chars@,
{
    chars.iter().collect()
}

/// Whether `c` has the Unicode `White_Space` property (the property that
/// std's `char::is_whitespace` tests): tab, line feed, vertical tab, form
/// feed, carriage return, space, next line, no-break space, ogham space mark,
/// the spaces from en quad to hair space, line and paragraph separators,
/// narrow no-break space, medium mathematical space and ideographic space.
pub open spec fn unicode_white_space(c: char) -> bool {
    ||| '\u{9}' <= c <= '\u{d}'
    ||| c == ' '
    ||| c == '\u{85}'
    ||| c == '\u{a0}'
    ||| c == '\u{1680}'
    ||| '\u{2000}' <= c <= '\u{200a}'
    ||| c == '\u{2028}'
    ||| c == '\u{2029}'
    ||| c == '\u{202f}'
    ||| c == '\u{205f}'
    ||| c == '\u{3000}'
}

/// Whether `c` is whitespace (has the Unicode `White_Space` property).
pub fn is_white_space(c: char) -> (r: bool)
    ensures
        r == unicode_white_space(c),
{
    ('\u{9}' <= c && c <= '\u{d}') || c == ' ' || c == '\u{85}' || c == '\u{a0}' || c == '\u{1680}'
        || ('\u{2000}' <= c && c <= '\u{200a}') || c == '\u{2028}' || c == '\u{2029}' || c == '\u{202f}'
        || c == '\u{205f}' || c == '\u{3000}'
}

/// The characters of `s`, in order.
pub fn to_chars(s: &str) -> (v: Vec<char>)
    ensures
        v@ == s@,
{
    let mut v: Vec<char> = Vec::new();
    for c in it: s.chars()
        invariant
            v@ == it.seq().take(it.index() as int),
            it.seq() == s@,
    {
        v.push(c);
    }
    v
}

/// Appends the characters of `s` to `out`.
pub fn push_str(out: &mut Vec<char>, s: &str)
    ensures
        final(out)@ == old(out)@ + s@,
{
    let ghost start = out@;
    for c in it: s.chars()
        invariant
            out@ == start + it.seq().take(it.index() as int),
            it.seq() == s@,
    {
        out.push(c);
    }
    assert(s@.take(s@.len() as int) =~= s@);
}

/// Appends the characters of `s` to `out`.
pub fn push_chars(out: &mut Vec<char>, s: &Vec<char>)
    ensures
        final(out)@ == old(out)@ + s@,
{
    let ghost start = out@;
    let n = s.len();
    let mut i: usize = 0;
    while i < n
        invariant
            n == s@.len(),
            i <= n,
            out@ == start + s@.take(i as int),
        decreases n - i,
    {
        out.push(s[i]);
        i = i + 1;
        assert(s@.take(i as int) =~= s@.take(i - 1 as int).push(s@[i - 1]));
    }
    assert(s@.take(n as int) =~= s@);
}

/// ASCII letter.
pub open spec fn ascii_alpha(c: char) -> bool {
    ('a' <= c && c <= 'z') || ('A' <= c && c <= 'Z')
}

/// ASCII letter or digit.
pub open spec fn ascii_alnum(c: char) -> bool {
    ascii_alpha(c) || ('0' <= c && c <= '9')
}

/// Same answer as std's `char::is_ascii_alphabetic`.
pub fn is_ascii_alpha(c: char) -> (r: bool)
    ensures
        r == ascii_alpha(c),
{
    ('a' <= c && c <= 'z') || ('A' <= c && c <= 'Z')
}

/// Same answer as std's `char::is_ascii_alphanumeric`.
pub fn is_ascii_alnum(c: char) -> (r: bool)
    ensures
        r == ascii_alnum(c),
{
    is_ascii_alpha(c) || ('0' <= c && c <= '9')
}

/// Position of the first character at or after `i` that is not whitespace
/// (or the length of `s` if there is none).
pub open spec fn skip_white(s: Seq<char>, i: int) -> int
    decreases s.len() - i,
{
    if 0 <= i < s.len() && unicode_white_space(s[i]) {
        skip_white(s, i + 1)
    } else {
        i
    }
}

/// Position just after the last character before `j` that is not whitespace
/// (or 0 if there is none).
pub open spec fn skip_white_back(s: Seq<char>, j: int) -> int
    decreases j,
{
    if 0 < j <= s.len() && unicode_white_space(s[j - 1]) {
        skip_white_back(s, j - 1)
    } else {
        j
    }
}

/// `s` without leading whitespace, as std's `str::trim_start` gives it.
pub open spec fn trim_start(s: Seq<char>) -> Seq<char> {
    s.subrange(skip_white(s, 0), s.len() as int)
}

/// `s` without leading and trailing whitespace, as std's `str::trim` gives it.
pub open spec fn trim(s: Seq<char>) -> Seq<char> {
    let a = skip_white(s, 0);
    let b = skip_white_back(s, s.len() as int);
    if a < b {
        s.subrange(a, b)
    } else {
        Seq::empty()
    }
}

pub proof fn lemma_skip_white_bounds(s: Seq<char>, i: int)
    requires
        0 <= i <= s.len(),
    ensures
        i <= skip_white(s, i) <= s.len(),
        forall|k: int| i <= k < skip_white(s, i) ==> unicode_white_space(#[trigger] s[k]),
        skip_white(s, i) < s.len() ==> !unicode_white_space(s[skip_white(s, i)]),
    decreases s.len() - i,
{
    if i < s.len() && unicode_white_space(s[i]) {
        lemma_skip_white_bounds(s, i + 1);
    }
}

pub proof fn lemma_skip_white_back_bounds(s: Seq<char>, j: int)
    requires
        0 <= j <= s.len(),
    ensures
        0 <= skip_white_back(s, j) <= j,
        forall|k: int| skip_white_back(s, j) <= k < j ==> unicode_white_space(#[trigger] s[k]),
        skip_white_back(s, j) > 0 ==> !unicode_white_space(s[skip_white_back(s, j) - 1]),
    decreases j,
{
    if j > 0 && unicode_white_space(s[j - 1]) {
        lemma_skip_white_back_bounds(s, j - 1);
    }
}

/// Start of the first non-whitespace character at or after `i`.
pub fn find_non_white(s: &Vec<char>, i: usize) -> (r: usize)
    requires
        i <= s@.len(),
    ensures
        r == skip_white(s@, i as int),
{
    let mut k = i;
    while k < s.len() && is_white_space(s[k])
        invariant
            i <= k <= s@.len(),
            skip_white(s@, k as int) == skip_white(s@, i as int),
        decreases s@.len() - k,
    {
        k = k + 1;
    }
    k
}

/// End of the last non-whitespace character before `j`.
pub fn find_non_white_back(s: &Vec<char>, j: usize) -> (r: usize)
    requires
        j <= s@.len(),
    ensures
        r == skip_white_back(s@, j as int),
{
    let mut k = j;
    while k > 0 && is_white_space(s[k - 1])
        invariant
            k <= j <= s@.len(),
            skip_white_back(s@, k as int) == skip_white_back(s@, j as int),
        decreases k,
    {
        k = k - 1;
    }
    k
}

/// The characters from `a` (inclusive) to `b` (exclusive).
pub fn slice_chars(s: &Vec<char>, a: usize, b: usize) -> (r: Vec<char>)
    requires
        a <= b <= s@.len(),
    ensures
        r@ == s@.subrange(a as int, b as int),
{
    let mut r: Vec<char> = Vec::new();
    let mut i = a;
    while i < b
        invariant
            a <= i <= b <= s@.len(),
            r@ == s@.subrange(a as int, i as int),
        decreases b - i,
    {
        r.push(s[i]);
        i = i + 1;
        assert(r@ =~= s@.subrange(a as int, i as int));
    }
    r
}

/// `s` without leading and trailing whitespace.
pub fn trim_chars(s: &Vec<char>) -> (r: Vec<char>)
    ensures
        r@ == trim(s@),
{
    let a = find_non_white(s, 0);
    let b = find_non_white_back(s, s.len());
    proof {
        lemma_skip_white_bounds(s@, 0);
        lemma_skip_white_back_bounds(s@, s@.len() as int);
    }
    if a < b {
        slice_chars(s, a, b)
    } else {
        Vec::new()
    }
}

/// `s` without leading whitespace.
pub fn trim_start_chars(s: &Vec<char>) -> (r: Vec<char>)
    ensures
        r@ == trim_start(s@),
{
    let a = find_non_white(s, 0);
    proof {
        lemma_skip_white_bounds(s@, 0);
    }
    slice_chars(s, a, s.len())
}

/// The decimal digit character for `d` (`0 <= d < 10`).
pub open spec fn digit_char(d: int) -> char {
    if d == 0 {
        '0'
    } else if d == 1 {
        '1'
    } else if d == 2 {
        '2'
    } else if d == 3 {
        '3'
    } else if d == 4 {
        '4'
    } else if d == 5 {
        '5'
    } else if d == 6 {
        '6'
    } else if d == 7 {
        '7'
    } else if d == 8 {
        '8'
    } else {
        '9'
    }
}

/// The decimal notation of `n`, without sign or leading zeros (as `Display`
/// writes an unsigned integer).
pub open spec fn decimal(n: nat) -> Seq<char>
    decreases n,
{
    if n < 10 {
        seq![digit_char(n as int)]
    } else {
        decimal(n / 10).push(digit_char((n % 10) as int))
    }
}

fn digit(d: usize) -> (c: char)
    requires
        d < 10,
    ensures
        c == digit_char(d as int),
{
    if d == 0 {
        '0'
    } else if d == 1 {
        '1'
    } else if d == 2 {
        '2'
    } else if d == 3 {
        '3'
    } else if d == 4 {
        '4'
    } else if d == 5 {
        '5'
    } else if d == 6 {
        '6'
    } else if d == 7 {
        '7'
    } else if d == 8 {
        '8'
    } else {
        '9'
    }
}

/// Appends the decimal notation of `n` to `out`.
pub fn push_decimal(out: &mut Vec<char>, n: usize)
    ensures
        final(out)@ == old(out)@ + decimal(n as nat),
    decreases n,
{
    if n >= 10 {
        push_decimal(out, n / 10);
    }
    out.push(digit(n % 10));
}

/// Decimal notation uses digits only, at least one.
pub proof fn lemma_decimal_digits(n: nat)
    ensures
        decimal(n).len() >= 1,
        n >= 10 ==> decimal(n).len() >= 2,
        forall|i: int| 0 <= i < decimal(n).len() ==> '0' <= #[trigger] decimal(n)[i] <= '9',
    decreases n,
{
    if n >= 10 {
        lemma_decimal_digits(n / 10);
        let d = decimal(n / 10);
        assert forall|i: int| 0 <= i < decimal(n).len() implies '0' <= #[trigger] decimal(n)[i] <= '9' by {
            if i < d.len() {
                assert(decimal(n)[i] == d[i]);
            }
        }
    }
}

/// Different numbers have different decimal notations.
pub proof fn lemma_decimal_injective(n: nat, m: nat)
    requires
        decimal(n) == decimal(m),
    ensures
        n == m,
    decreases n,
{
    lemma_decimal_digits(n);
    lemma_decimal_digits(m);
    if n < 10 && m < 10 {
        assert(decimal(n)[0] == decimal(m)[0]);
    } else if n >= 10 && m >= 10 {
        let a = decimal(n);
        assert(a.drop_last() =~= decimal(n / 10));
        assert(decimal(m).drop_last() =~= decimal(m / 10));
        assert(a.last() == decimal(m).last());
        assert(digit_char((n % 10) as int) == digit_char((m % 10) as int));
        assert(n % 10 == m % 10);
        lemma_decimal_injective(n / 10, m / 10);
        assert(n == m) by (nonlinear_arith)
            requires
                n / 10 == m / 10,
                n % 10 == m % 10,
        ;
    }
}

} // verus!
