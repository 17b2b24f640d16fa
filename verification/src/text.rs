//! Character-level text helpers: character classes, trimming, searching and
//! decimal formatting, each stated over the `Seq<char>` view of a string.
use vstd::prelude::*;

verus! {

/// What `char::is_whitespace` answers for a character (the Unicode
/// `White_Space` property).
pub uninterp spec fn char_is_whitespace(c: char) -> bool;

/// What `char::is_alphanumeric` answers for a character (the Unicode
/// `Alphabetic` or `Numeric` property).
pub uninterp spec fn char_is_alphanumeric(c: char) -> bool;

/// Calls `char::is_whitespace`; the result is named `char_is_whitespace`.
#[verifier::external_body]
fn is_whitespace(c: char) -> (r: bool)
    ensures
        r == char_is_whitespace(c),
{
    c.is_whitespace()
}

/// Calls `char::is_alphanumeric`; the result is named `char_is_alphanumeric`.
#[verifier::external_body]
fn is_alphanumeric(c: char) -> (r: bool)
    ensures
        r == char_is_alphanumeric(c),
{
    c.is_alphanumeric()
}

/// A test on single characters, used to search and trim text.
#[derive(Clone, Copy)]
pub enum CharTest {
    Whitespace,
    NotWhitespace,
    Alphanumeric,
    NotAlphanumeric,
    Is(char),
}

impl CharTest {
    pub open spec fn holds(self, c: char) -> bool {
        match self {
            CharTest::Whitespace => char_is_whitespace(c),
            CharTest::NotWhitespace => !char_is_whitespace(c),
            CharTest::Alphanumeric => char_is_alphanumeric(c),
            CharTest::NotAlphanumeric => !char_is_alphanumeric(c),
            CharTest::Is(d) => c == d,
        }
    }

    pub fn test(&self, c: char) -> (r: bool)
        ensures
            r == self.holds(c),
    {
        match self {
            CharTest::Whitespace => is_whitespace(c),
            CharTest::NotWhitespace => !is_whitespace(c),
            CharTest::Alphanumeric => is_alphanumeric(c),
            CharTest::NotAlphanumeric => !is_alphanumeric(c),
            CharTest::Is(d) => c == *d,
        }
    }
}

/// Index of the first character of `s` that passes `t`, or `s.len()` if none does.
pub open spec fn first_index(s: Seq<char>, t: CharTest) -> int
    decreases s.len(),
{
    if s.len() == 0 {
        0
    } else if t.holds(s[0]) {
        0
    } else {
        1 + first_index(s.drop_first(), t)
    }
}

/// `s` without its leading characters that pass `t`.
pub open spec fn drop_leading(s: Seq<char>, t: CharTest) -> Seq<char>
    decreases s.len(),
{
    if s.len() > 0 && t.holds(s[0]) {
        drop_leading(s.drop_first(), t)
    } else {
        s
    }
}

/// `s` without its trailing characters that pass `t`.
pub open spec fn drop_trailing(s: Seq<char>, t: CharTest) -> Seq<char>
    decreases s.len(),
{
    if s.len() > 0 && t.holds(s.last()) {
        drop_trailing(s.drop_last(), t)
    } else {
        s
    }
}

/// `s` without the characters that pass `t` at either end.
pub open spec fn strip(s: Seq<char>, t: CharTest) -> Seq<char> {
    drop_trailing(drop_leading(s, t), t)
}

/// `s` without leading and trailing whitespace (what `str::trim` gives).
pub open spec fn trim(s: Seq<char>) -> Seq<char> {
    strip(s, CharTest::Whitespace)
}

pub proof fn lemma_first_index(s: Seq<char>, t: CharTest)
    ensures
        0 <= first_index(s, t) <= s.len(),
        forall|j: int| 0 <= j < first_index(s, t) ==> !t.holds(#[trigger] s[j]),
        first_index(s, t) < s.len() ==> t.holds(s[first_index(s, t)]),
    decreases s.len(),
{
    if s.len() > 0 && !t.holds(s[0]) {
        lemma_first_index(s.drop_first(), t);
        assert forall|j: int| 0 <= j < first_index(s, t) implies !t.holds(#[trigger] s[j]) by {
            if j > 0 {
                assert(s[j] == s.drop_first()[j - 1]);
            }
        }
    }
}

/// Facts on a stripped sequence: it is a contiguous part of the input, and
/// its two ends fail `t`.
pub proof fn lemma_strip(s: Seq<char>, t: CharTest)
    ensures
        exists|a: int, b: int| 0 <= a <= b <= s.len() && strip(s, t) == s.subrange(a, b),
        strip(s, t).len() > 0 ==> !t.holds(strip(s, t)[0]) && !t.holds(strip(s, t).last()),
{
    lemma_drop_leading_is_suffix(s, t);
    let a = s.len() - drop_leading(s, t).len();
    let l = drop_leading(s, t);
    lemma_drop_trailing_is_prefix(l, t);
    let b = a + drop_trailing(l, t).len();
    assert(strip(s, t) =~= s.subrange(a, b));
    if strip(s, t).len() > 0 {
        assert(strip(s, t)[0] == l[0]);
    }
}

pub proof fn lemma_drop_leading_is_suffix(s: Seq<char>, t: CharTest)
    ensures
        drop_leading(s, t).len() <= s.len(),
        drop_leading(s, t) == s.skip(s.len() - drop_leading(s, t).len()),
        drop_leading(s, t).len() > 0 ==> !t.holds(drop_leading(s, t)[0]),
    decreases s.len(),
{
    if s.len() > 0 && t.holds(s[0]) {
        lemma_drop_leading_is_suffix(s.drop_first(), t);
        assert(s.drop_first().skip(s.drop_first().len() - drop_leading(s, t).len()) =~= s.skip(
            s.len() - drop_leading(s, t).len(),
        ));
    } else {
        assert(s.skip(0) =~= s);
    }
}

pub proof fn lemma_drop_trailing_is_prefix(s: Seq<char>, t: CharTest)
    ensures
        drop_trailing(s, t).len() <= s.len(),
        drop_trailing(s, t) == s.take(drop_trailing(s, t).len() as int),
        drop_trailing(s, t).len() > 0 ==> !t.holds(drop_trailing(s, t).last()),
    decreases s.len(),
{
    if s.len() > 0 && t.holds(s.last()) {
        lemma_drop_trailing_is_prefix(s.drop_last(), t);
        assert(s.drop_last().take(drop_trailing(s, t).len() as int) =~= s.take(
            drop_trailing(s, t).len() as int,
        ));
    } else {
        assert(s.take(s.len() as int) =~= s);
    }
}

/// The characters of `s`, one per element.
pub fn chars_of(s: &str) -> (v: Vec<char>)
    ensures
        v@ == s@,
{
    let n = s.unicode_len();
    let mut v: Vec<char> = Vec::new();
    let mut i: usize = 0;
    while i < n
        invariant
            n == s@.len(),
            i <= n,
            v@ == s@.take(i as int),
        decreases n - i,
    {
        v.push(s.get_char(i));
        i += 1;
        assert(v@ =~= s@.take(i as int));
    }
    assert(s@.take(n as int) =~= s@);
    v
}

/// Absolute index of the first character in `chars[lo..hi]` that passes `t`,
/// or `hi` if none does.
pub fn find_in(chars: &Vec<char>, lo: usize, hi: usize, t: CharTest) -> (r: usize)
    requires
        lo <= hi <= chars@.len(),
    ensures
        lo <= r <= hi,
        r - lo == first_index(chars@.subrange(lo as int, hi as int), t),
{
    let ghost whole = chars@.subrange(lo as int, hi as int);
    let mut i: usize = lo;
    while i < hi
        invariant
            lo <= i <= hi <= chars@.len(),
            whole == chars@.subrange(lo as int, hi as int),
            first_index(whole, t) == (i - lo) + first_index(chars@.subrange(i as int, hi as int), t),
        decreases hi - i,
    {
        let ghost rest = chars@.subrange(i as int, hi as int);
        if t.test(chars[i]) {
            assert(rest[0] == chars@[i as int]);
            return i;
        }
        assert(rest.drop_first() =~= chars@.subrange(i + 1, hi as int));
        i += 1;
    }
    i
}

/// Bounds `(a, b)` with `chars[a..b]` equal to `chars[lo..hi]` stripped of the
/// characters that pass `t` at either end.
pub fn strip_bounds(chars: &Vec<char>, lo: usize, hi: usize, t: CharTest) -> (r: (usize, usize))
    requires
        lo <= hi <= chars@.len(),
    ensures
        lo <= r.0 <= r.1 <= hi,
        chars@.subrange(r.0 as int, r.1 as int) == strip(chars@.subrange(lo as int, hi as int), t),
{
    let ghost whole = chars@.subrange(lo as int, hi as int);
    let mut a: usize = lo;
    while a < hi && t.test(chars[a])
        invariant
            lo <= a <= hi <= chars@.len(),
            drop_leading(whole, t) == drop_leading(chars@.subrange(a as int, hi as int), t),
            whole == chars@.subrange(lo as int, hi as int),
        decreases hi - a,
    {
        assert(chars@.subrange(a as int, hi as int).drop_first() =~= chars@.subrange(
            a + 1,
            hi as int,
        ));
        a += 1;
    }
    let ghost lead = chars@.subrange(a as int, hi as int);
    assert(drop_leading(lead, t) == lead);
    let mut b: usize = hi;
    while b > a && t.test(chars[b - 1])
        invariant
            lo <= a <= b <= hi <= chars@.len(),
            drop_trailing(lead, t) == drop_trailing(chars@.subrange(a as int, b as int), t),
            lead == chars@.subrange(a as int, hi as int),
        decreases b - a,
    {
        assert(chars@.subrange(a as int, b as int).drop_last() =~= chars@.subrange(
            a as int,
            b - 1,
        ));
        b -= 1;
    }
    (a, b)
}

/// Whether two string slices hold the same characters.
pub fn str_eq(a: &str, b: &str) -> (r: bool)
    ensures
        r == (a@ == b@),
{
    let n = a.unicode_len();
    if n != b.unicode_len() {
        return false;
    }
    let mut i: usize = 0;
    while i < n
        invariant
            n == a@.len(),
            n == b@.len(),
            i <= n,
            forall|j: int| 0 <= j < i ==> a@[j] == b@[j],
        decreases n - i,
    {
        if a.get_char(i) != b.get_char(i) {
            return false;
        }
        i += 1;
    }
    assert(a@ =~= b@);
    true
}

} // verus!
