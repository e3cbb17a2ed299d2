//! Text helpers over `&str`: UTF-8 decoding, whitespace trimming and substring search.
use vstd::prelude::*;
use vstd::utf8::valid_utf8;
use vstd::string::StringSliceAdditionalSpecFns;
use vstd::string::StringExecFns;

verus! {

/// `core::str::from_utf8`: a string slice over exactly the bytes `v` when they are
/// valid UTF-8, and `None` when they are not.
#[verifier::external_body]
pub(crate) fn str_from_utf8(v: &[u8]) -> (r: Option<&str>)
    ensures
        r is Some <==> valid_utf8(v@),
        r matches Some(s) ==> s.spec_bytes() == v@,
{
    core::str::from_utf8(v).ok()
}

/// A character with the Unicode `White_Space` property, as `char::is_whitespace` tests it.
pub open spec fn is_whitespace(c: char) -> bool {
    ||| '\t' <= c <= '\r'
    ||| c == ' '
    ||| c == '\u{85}'
    ||| c == '\u{A0}'
    ||| c == '\u{1680}'
    ||| '\u{2000}' <= c <= '\u{200A}'
    ||| c == '\u{2028}'
    ||| c == '\u{2029}'
    ||| c == '\u{202F}'
    ||| c == '\u{205F}'
    ||| c == '\u{3000}'
}

/// `char::is_whitespace`.
pub fn is_whitespace_char(c: char) -> (b: bool)
    ensures
        b == is_whitespace(c),
{
    ('\t' <= c && c <= '\r') || c == ' ' || c == '\u{85}' || c == '\u{A0}' || c == '\u{1680}' || (
    '\u{2000}' <= c && c <= '\u{200A}') || c == '\u{2028}' || c == '\u{2029}' || c == '\u{202F}'
        || c == '\u{205F}' || c == '\u{3000}'
}

/// The number of whitespace characters at the start of `s`.
pub open spec fn leading_whitespace(s: Seq<char>) -> nat
    decreases s.len(),
{
    if s.len() == 0 || !is_whitespace(s[0]) {
        0
    } else {
        1 + leading_whitespace(s.drop_first())
    }
}

/// The number of whitespace characters at the end of `s`.
pub open spec fn trailing_whitespace(s: Seq<char>) -> nat
    decreases s.len(),
{
    if s.len() == 0 || !is_whitespace(s.last()) {
        0
    } else {
        1 + trailing_whitespace(s.drop_last())
    }
}

/// `s` without leading and trailing whitespace, as `str::trim` gives it.
pub open spec fn trim(s: Seq<char>) -> Seq<char> {
    let t = s.skip(leading_whitespace(s) as int);
    t.take(t.len() - trailing_whitespace(t))
}

/// `pat` occurs in `s` at position `i`.
pub open spec fn occurs_at(s: Seq<char>, pat: Seq<char>, i: int) -> bool {
    0 <= i && i + pat.len() <= s.len() && s.subrange(i, i + pat.len()) == pat
}

/// `pat` occurs somewhere in `s`, as `str::contains` tests it.
pub open spec fn contains(s: Seq<char>, pat: Seq<char>) -> bool {
    exists|i: int| occurs_at(s, pat, i)
}

proof fn lemma_leading_whitespace_skip(s: Seq<char>, m: int)
    requires
        0 <= m <= s.len(),
        forall|k: int| 0 <= k < m ==> is_whitespace(#[trigger] s[k]),
    ensures
        leading_whitespace(s) == m + leading_whitespace(s.skip(m)),
    decreases m,
{
    if m > 0 {
        lemma_leading_whitespace_skip(s.drop_first(), m - 1);
        assert(s.drop_first().skip(m - 1) =~= s.skip(m));
    } else {
        assert(s.skip(0) =~= s);
    }
}

proof fn lemma_trailing_whitespace_take(s: Seq<char>, m: int)
    requires
        0 <= m <= s.len(),
        forall|k: int| s.len() - m <= k < s.len() ==> is_whitespace(#[trigger] s[k]),
    ensures
        trailing_whitespace(s) == m + trailing_whitespace(s.take(s.len() - m)),
    decreases m,
{
    if m > 0 {
        lemma_trailing_whitespace_take(s.drop_last(), m - 1);
        assert(s.drop_last().take(s.len() - 1 - (m - 1)) =~= s.take(s.len() - m));
    } else {
        assert(s.take(s.len() as int) =~= s);
    }
}

proof fn lemma_leading_whitespace_bounds(s: Seq<char>)
    ensures
        leading_whitespace(s) <= s.len(),
        forall|k: int| 0 <= k < leading_whitespace(s) ==> is_whitespace(#[trigger] s[k]),
        leading_whitespace(s) < s.len() ==> !is_whitespace(s[leading_whitespace(s) as int]),
    decreases s.len(),
{
    if s.len() > 0 && is_whitespace(s[0]) {
        let r = s.drop_first();
        lemma_leading_whitespace_bounds(r);
        assert forall|k: int| 0 <= k < leading_whitespace(s) implies is_whitespace(#[trigger] s[k]) by {
            if k > 0 {
                assert(s[k] == r[k - 1]);
            }
        }
    }
}

proof fn lemma_trailing_whitespace_bounds(s: Seq<char>)
    ensures
        trailing_whitespace(s) <= s.len(),
        forall|k: int| s.len() - trailing_whitespace(s) <= k < s.len() ==> is_whitespace(#[trigger] s[k]),
        trailing_whitespace(s) < s.len() ==> !is_whitespace(s[s.len() - 1 - trailing_whitespace(s)]),
    decreases s.len(),
{
    if s.len() > 0 && is_whitespace(s.last()) {
        let r = s.drop_last();
        lemma_trailing_whitespace_bounds(r);
        assert forall|k: int| s.len() - trailing_whitespace(s) <= k < s.len() implies is_whitespace(
            #[trigger] s[k],
        ) by {
            if k < s.len() - 1 {
                assert(s[k] == r[k]);
            }
        }
        if trailing_whitespace(s) < s.len() {
            assert(s[s.len() - 1 - trailing_whitespace(s)] == r[r.len() - 1 - trailing_whitespace(r)]);
        }
    }
}

/// Trimming removes exactly the whitespace at both ends: the trimmed text is a stretch
/// `s[a..b]` with only whitespace before and after it, and, unless it is empty, it
/// starts and ends with a character that is not whitespace.
pub proof fn lemma_trim_shape(s: Seq<char>)
    ensures
        exists|a: int, b: int|
            {
                &&& 0 <= a <= b <= s.len()
                &&& trim(s) == s.subrange(a, b)
                &&& forall|k: int| 0 <= k < a ==> is_whitespace(#[trigger] s[k])
                &&& forall|k: int| b <= k < s.len() ==> is_whitespace(#[trigger] s[k])
                &&& a < b ==> !is_whitespace(s[a]) && !is_whitespace(s[b - 1])
            },
{
    let a = leading_whitespace(s) as int;
    lemma_leading_whitespace_bounds(s);
    let t = s.skip(a);
    lemma_trailing_whitespace_bounds(t);
    let b = a + t.len() - trailing_whitespace(t);
    assert(trim(s) =~= s.subrange(a, b));
    assert forall|k: int| b <= k < s.len() implies is_whitespace(#[trigger] s[k]) by {
        assert(s[k] == t[k - a]);
    }
    if a < b {
        assert(s[a] == t[0]);
        assert(s[b - 1] == t[t.len() - 1 - trailing_whitespace(t)]);
        if trailing_whitespace(t) == t.len() {
            assert(false);
        }
    }
}

/// The bounds of `text[from..to]` (counted in characters) once trimmed.
pub fn trim_range(text: &str, from: usize, to: usize) -> (r: (usize, usize))
    requires
        from <= to <= text@.len(),
    ensures
        from <= r.0 <= r.1 <= to,
        text@.subrange(r.0 as int, r.1 as int) == trim(text@.subrange(from as int, to as int)),
{
    let ghost s = text@.subrange(from as int, to as int);
    let mut a = from;
    while a < to && is_whitespace_char(text.get_char(a))
        invariant
            from <= a <= to <= text@.len(),
            s == text@.subrange(from as int, to as int),
            forall|k: int| from <= k < a ==> is_whitespace(#[trigger] text@[k]),
        decreases to - a,
    {
        a = a + 1;
    }
    proof {
        assert forall|k: int| 0 <= k < a - from implies is_whitespace(#[trigger] s[k]) by {
            assert(s[k] == text@[from + k]);
        }
        lemma_leading_whitespace_skip(s, a - from);
        assert(s.skip(a - from) =~= text@.subrange(a as int, to as int));
        assert(leading_whitespace(text@.subrange(a as int, to as int)) == 0);
    }
    let ghost t = text@.subrange(a as int, to as int);
    assert(t == s.skip(leading_whitespace(s) as int));
    let mut b = to;
    while b > a && is_whitespace_char(text.get_char(b - 1))
        invariant
            from <= a <= b <= to <= text@.len(),
            t == text@.subrange(a as int, to as int),
            forall|k: int| b <= k < to ==> is_whitespace(#[trigger] text@[k]),
        decreases b - a,
    {
        b = b - 1;
    }
    proof {
        assert forall|k: int| t.len() - (to - b) <= k < t.len() implies is_whitespace(#[trigger] t[k]) by {
            assert(t[k] == text@[a + k]);
        }
        lemma_trailing_whitespace_take(t, to - b);
        assert(t.take(t.len() - (to - b)) =~= text@.subrange(a as int, b as int));
        assert(trailing_whitespace(text@.subrange(a as int, b as int)) == 0);
    }
    (a, b)
}

/// Whether `pat` occurs in `text` at character position `i`.
fn occurs_at_exec(text: &str, n: usize, pat: &str, m: usize, i: usize) -> (b: bool)
    requires
        n == text@.len(),
        m == pat@.len(),
    ensures
        b == occurs_at(text@, pat@, i as int),
{
    if i > n || m > n - i {
        return false;
    }
    let mut k: usize = 0;
    while k < m
        invariant
            k <= m,
            i + m <= n,
            n == text@.len(),
            m == pat@.len(),
            forall|j: int| 0 <= j < k ==> text@[i + j] == pat@[j],
        decreases m - k,
    {
        if text.get_char(i + k) != pat.get_char(k) {
            assert(text@.subrange(i as int, i + m)[k as int] != pat@[k as int]);
            return false;
        }
        k = k + 1;
    }
    assert(text@.subrange(i as int, i + m) =~= pat@);
    true
}

/// Whether `pat` occurs anywhere in `text`, as `str::contains` tests it.
pub fn contains_str(text: &str, pat: &str) -> (b: bool)
    ensures
        b == contains(text@, pat@),
{
    let n = text.unicode_len();
    let m = pat.unicode_len();
    let mut i: usize = 0;
    while i < n
        invariant
            i <= n,
            n == text@.len(),
            m == pat@.len(),
            forall|j: int| 0 <= j < i ==> !occurs_at(text@, pat@, j),
        decreases n - i,
    {
        if occurs_at_exec(text, n, pat, m, i) {
            return true;
        }
        i = i + 1;
    }
    if occurs_at_exec(text, n, pat, m, n) {
        return true;
    }
    assert forall|j: int| !occurs_at(text@, pat@, j) by {
        if 0 <= j < n {
        }
    }
    false
}

/// Whether two strings hold the same characters, as `==` on `&str` tests it.
pub fn str_equals(a: &str, b: &str) -> (r: bool)
    ensures
        r == (a@ == b@),
{
    let n = a.unicode_len();
    if n != b.unicode_len() {
        return false;
    }
    let mut i: usize = 0;
    while i < n
        invariant
            i <= n,
            n == a@.len(),
            n == b@.len(),
            forall|j: int| 0 <= j < i ==> a@[j] == b@[j],
        decreases n - i,
    {
        if a.get_char(i) != b.get_char(i) {
            return false;
        }
        i = i + 1;
    }
    assert(a@ =~= b@);
    true
}


/// The character of a decimal digit.
pub open spec fn digit_char(d: nat) -> char {
    (d + 48) as char
}

/// The decimal digits of `n`, most significant first, without leading zeros.
pub open spec fn decimal(n: nat) -> Seq<char>
    decreases n,
{
    if n < 10 {
        seq![digit_char(n)]
    } else {
        decimal(n / 10) + seq![digit_char(n % 10)]
    }
}

/// The one-character string of a decimal digit.
fn digit_str(d: u16) -> (s: &'static str)
    requires
        d < 10,
    ensures
        s@ == seq![digit_char(d as nat)],
{
    proof {
        reveal_strlit("0");
        reveal_strlit("1");
        reveal_strlit("2");
        reveal_strlit("3");
        reveal_strlit("4");
        reveal_strlit("5");
        reveal_strlit("6");
        reveal_strlit("7");
        reveal_strlit("8");
        reveal_strlit("9");
    }
    match d {
        0 => "0",
        1 => "1",
        2 => "2",
        3 => "3",
        4 => "4",
        5 => "5",
        6 => "6",
        7 => "7",
        8 => "8",
        _ => "9",
    }
}

/// Appends the decimal digits of `n` to `s`.
pub fn push_decimal(s: &mut String, n: u16)
    ensures
        final(s)@ == old(s)@ + decimal(n as nat),
    decreases n,
{
    if n >= 10 {
        push_decimal(s, n / 10);
    }
    s.append(digit_str(n % 10));
    assert(final(s)@ =~= old(s)@ + decimal(n as nat)) by {
        if n >= 10 {
            assert(decimal(n as nat) == decimal((n / 10) as nat) + seq![digit_char((n % 10) as nat)]);
        }
    }
}

} // verus!
