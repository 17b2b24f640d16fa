//! The command line and the page URL: which mode and sentence they ask for.
use vstd::prelude::*;
use crate::text::str_eq;
use crate::clause_audio::{decimal, digit_char, zeros, zero_padded};

verus! {

/// Used when the page URL has no (or an unparseable) `?id=`.
pub const DEFAULT_SENTENCE_ID: u32 = 1;

/// Whether `c` is one of the ASCII digits `0` to `9`.
pub open spec fn is_digit(c: char) -> bool {
    '0' <= c && c <= '9'
}

/// The value of a digit character.
pub open spec fn digit_value(c: char) -> nat {
    (c as int - '0' as int) as nat
}

/// The value of a sequence of decimal digits.
pub open spec fn digits_value(s: Seq<char>) -> nat
    decreases s.len(),
{
    if s.len() == 0 {
        0
    } else {
        digits_value(s.drop_last()) * 10 + digit_value(s.last())
    }
}

/// The digits of a number text: the text after an optional leading `+`.
pub open spec fn unsigned_digits(s: Seq<char>) -> Seq<char> {
    if s.len() > 0 && s[0] == '+' {
        s.drop_first()
    } else {
        s
    }
}

/// The `u32` that `s` denotes, as `str::parse::<u32>` reads it: an optional
/// `+`, then one or more ASCII digits, with a value that fits in a `u32`.
pub open spec fn parse_u32_spec(s: Seq<char>) -> Option<u32> {
    let d = unsigned_digits(s);
    if d.len() > 0 && (forall|i: int| 0 <= i < d.len() ==> is_digit(#[trigger] d[i]))
        && digits_value(d) <= u32::MAX {
        Some(digits_value(d) as u32)
    } else {
        None
    }
}

proof fn lemma_digits_value_grows(s: Seq<char>, i: int)
    requires
        0 <= i <= s.len(),
    ensures
        digits_value(s.take(i)) <= digits_value(s),
    decreases s.len() - i,
{
    if i < s.len() {
        lemma_digits_value_grows(s, i + 1);
        assert(s.take(i + 1).drop_last() =~= s.take(i));
    } else {
        assert(s.take(i) =~= s);
    }
}

/// Parses a decimal `u32` the way `str::parse::<u32>` does.
pub fn parse_u32(s: &str) -> (r: Option<u32>)
    ensures
        r == parse_u32_spec(s@),
{
    let n = s.unicode_len();
    let mut i: usize = 0;
    if n > 0 && s.get_char(0) == '+' {
        i = 1;
    }
    let ghost d = unsigned_digits(s@);
    assert(d =~= s@.skip(i as int));
    if i == n {
        return None;
    }
    let start = i;
    let mut value: u64 = 0;
    assert(d.take(0) =~= Seq::<char>::empty());
    while i < n
        invariant
            n == s@.len(),
            start < n,
            start <= i <= n,
            d == s@.skip(start as int),
            d == unsigned_digits(s@),
            value == digits_value(d.take(i - start)),
            value <= u32::MAX,
            forall|j: int| 0 <= j < i - start ==> is_digit(#[trigger] d[j]),
        decreases n - i,
    {
        let c = s.get_char(i);
        assert(c == d[i - start]);
        if !('0' <= c && c <= '9') {
            assert(!is_digit(d[i - start]));
            return None;
        }
        let digit = (c as u64) - ('0' as u64);
        value = value * 10 + digit;
        assert(d.take(i - start + 1).drop_last() =~= d.take(i - start));
        i += 1;
        assert(value == digits_value(d.take(i - start)));
        if value > u32::MAX as u64 {
            proof {
                lemma_digits_value_grows(d, i - start);
            }
            return None;
        }
    }
    assert(d.take(n - start) =~= d);
    Some(value as u32)
}

/// What the command line asks for.
#[derive(Debug, Clone, Copy, PartialEq, Eq, Structural)]
pub enum Mode {
    /// Print the sentence as JSON.
    Sentence,
    /// Open the word-by-word gloss page.
    Display,
    /// Open the clause audio page.
    Page2,
    /// Render the clause recordings of the sentence.
    Mp3s,
}

/// A mode and the id of the sentence it is for.
#[derive(Debug, Clone, Copy, PartialEq, Eq, Structural)]
pub struct Command {
    pub mode: Mode,
    pub id: u32,
}

/// Why the command line was refused.
#[derive(Debug, Clone, PartialEq, Eq)]
pub enum ArgsError {
    /// Fewer than two arguments: the usage text is due.
    Usage,
    /// The id argument is not a `u32`.
    InvalidId(String),
    /// The mode argument is none of `sentence`, `display`, `page2`, `mp3s`.
    UnknownMode(String),
}

/// The mode a mode argument names.
pub open spec fn mode_spec(s: Seq<char>) -> Option<Mode> {
    if s == "sentence"@ {
        Some(Mode::Sentence)
    } else if s == "display"@ {
        Some(Mode::Display)
    } else if s == "page2"@ {
        Some(Mode::Page2)
    } else if s == "mp3s"@ {
        Some(Mode::Mp3s)
    } else {
        None
    }
}

/// The command that the arguments `program mode id ...` ask for: too few
/// arguments come first, then an id that does not parse, then an unknown mode.
pub open spec fn parse_args_spec(args: Seq<String>) -> Result<Command, ArgsError> {
    if args.len() < 3 {
        Err(ArgsError::Usage)
    } else if parse_u32_spec(args[2]@) is None {
        Err(ArgsError::InvalidId(args[2]))
    } else if mode_spec(args[1]@) is None {
        Err(ArgsError::UnknownMode(args[1]))
    } else {
        Ok(Command { mode: mode_spec(args[1]@)->0, id: parse_u32_spec(args[2]@)->0 })
    }
}

/// The mode a mode argument names.
pub fn parse_mode(s: &str) -> (r: Option<Mode>)
    ensures
        r == mode_spec(s@),
{
    if str_eq(s, "sentence") {
        Some(Mode::Sentence)
    } else if str_eq(s, "display") {
        Some(Mode::Display)
    } else if str_eq(s, "page2") {
        Some(Mode::Page2)
    } else if str_eq(s, "mp3s") {
        Some(Mode::Mp3s)
    } else {
        None
    }
}

/// Reads the command line `program mode id ...`.
pub fn parse_args(args: &Vec<String>) -> (r: Result<Command, ArgsError>)
    ensures
        r == parse_args_spec(args@),
{
    if args.len() < 3 {
        return Err(ArgsError::Usage);
    }
    let id = match parse_u32(args[2].as_str()) {
        Some(id) => id,
        None => return Err(ArgsError::InvalidId(args[2].clone())),
    };
    match parse_mode(args[1].as_str()) {
        Some(mode) => Ok(Command { mode, id }),
        None => Err(ArgsError::UnknownMode(args[1].clone())),
    }
}

/// The usage line for a program called `program`.
pub fn usage(program: &str) -> (r: String)
    ensures
        r@ == "Usage: "@ + program@ + " sentence <id> | "@ + program@ + " display <id> | "@
            + program@ + " page2 <id>"@,
{
    let mut s = String::from_str("Usage: ");
    s.append(program);
    s.append(" sentence <id> | ");
    s.append(program);
    s.append(" display <id> | ");
    s.append(program);
    s.append(" page2 <id>");
    s
}

/// Reads the sentence id from the page URL's `?id=` query parameter, e.g.
/// `?id=42`. Falls back to `DEFAULT_SENTENCE_ID` if it's missing or not a
/// valid id.
pub fn sentence_id_from_url(id_param: Option<&str>) -> (r: u32)
    ensures
        r == match id_param {
            Some(p) => match parse_u32_spec(p@) {
                Some(id) => id,
                None => DEFAULT_SENTENCE_ID,
            },
            None => DEFAULT_SENTENCE_ID,
        },
{
    match id_param {
        Some(p) => match parse_u32(p) {
            Some(id) => id,
            None => DEFAULT_SENTENCE_ID,
        },
        None => DEFAULT_SENTENCE_ID,
    }
}

/// Reads the page URL's `?page=` query parameter, e.g. `?page=2`. `None` if
/// it's missing or not a valid number: the bare root URL (no `page`) does
/// not fall back to one of the numbered pages.
pub fn page_from_url(page_param: Option<&str>) -> (r: Option<u32>)
    ensures
        r == match page_param {
            Some(p) => parse_u32_spec(p@),
            None => None,
        },
{
    match page_param {
        Some(p) => parse_u32(p),
        None => None,
    }
}

proof fn lemma_decimal_digits(n: nat)
    ensures
        decimal(n).len() > 0,
        forall|i: int| 0 <= i < decimal(n).len() ==> is_digit(#[trigger] decimal(n)[i]),
        digits_value(decimal(n)) == n,
    decreases n,
{
    let d = (n % 10) as int;
    assert(digit_char(d) as int == '0' as int + d);
    assert(decimal(n).last() == digit_char(d));
    assert(digit_value(decimal(n).last()) == d);
    vstd::arithmetic::div_mod::lemma_fundamental_div_mod(n as int, 10);
    if n >= 10 {
        lemma_decimal_digits(n / 10);
        let s = decimal(n / 10);
        assert(decimal(n).drop_last() =~= s);
        assert forall|i: int| 0 <= i < decimal(n).len() implies is_digit(#[trigger] decimal(n)[i]) by {
            if i < s.len() {
                assert(decimal(n)[i] == s[i]);
            }
        }
    } else {
        assert(decimal(n).drop_last() =~= Seq::<char>::empty());
        assert(digits_value(decimal(n).drop_last()) == 0);
    }
}

/// Printing a `u32` in decimal and reading it back gives the same number.
pub proof fn lemma_parse_decimal(n: u32)
    ensures
        parse_u32_spec(decimal(n as nat)) == Some(n),
{
    lemma_decimal_digits(n as nat);
    let s = decimal(n as nat);
    assert(is_digit(s[0]));
    assert(unsigned_digits(s) == s);
}

proof fn lemma_zeros_then_digits(k: int, d: Seq<char>)
    requires
        0 <= k,
    ensures
        digits_value(zeros(k) + d) == digits_value(d),
        forall|i: int| 0 <= i < zeros(k).len() ==> is_digit(#[trigger] zeros(k)[i]),
    decreases d.len(),
{
    if d.len() == 0 {
        assert(zeros(k) + d =~= zeros(k));
        lemma_zeros_value(k);
    } else {
        lemma_zeros_then_digits(k, d.drop_last());
        assert((zeros(k) + d).drop_last() =~= zeros(k) + d.drop_last());
        assert((zeros(k) + d).last() == d.last());
    }
}

proof fn lemma_zeros_value(k: int)
    requires
        0 <= k,
    ensures
        digits_value(zeros(k)) == 0,
    decreases k,
{
    if k > 0 {
        lemma_zeros_value(k - 1);
        assert(zeros(k).drop_last() =~= zeros(k - 1));
    }
}

/// A zero-padded number is `width` characters long, or just its digits when
/// those are more; it is all digits, and its value is the number.
pub proof fn lemma_zero_padded(n: nat, width: nat)
    ensures
        zero_padded(n, width).len() == if decimal(n).len() < width {
            width
        } else {
            decimal(n).len()
        },
        forall|i: int|
            0 <= i < zero_padded(n, width).len() ==> is_digit(#[trigger] zero_padded(n, width)[i]),
        digits_value(zero_padded(n, width)) == n,
        decimal(n).len() == 1 || decimal(n)[0] != '0',
{
    lemma_decimal_digits(n);
    lemma_decimal_no_leading_zero(n);
    let d = decimal(n);
    if d.len() < width {
        let k = width - d.len();
        lemma_zeros_then_digits(k, d);
        assert forall|i: int| 0 <= i < zero_padded(n, width).len() implies is_digit(
            #[trigger] zero_padded(n, width)[i],
        ) by {
            if i < k {
                assert(zero_padded(n, width)[i] == zeros(k)[i]);
            } else {
                assert(zero_padded(n, width)[i] == d[i - k]);
            }
        }
    }
}

proof fn lemma_decimal_no_leading_zero(n: nat)
    ensures
        decimal(n).len() == 1 || decimal(n)[0] != '0',
        n > 0 ==> decimal(n)[0] != '0',
    decreases n,
{
    if n >= 10 {
        lemma_decimal_no_leading_zero(n / 10);
        lemma_decimal_digits(n / 10);
        assert(decimal(n)[0] == decimal(n / 10)[0]);
    } else {
        assert(digit_char(n as int) as int == '0' as int + n);
    }
}

/// Leading zeros and a leading `+` do not change the number read; a text
/// holding anything other than digits (after an optional leading `+`) is
/// no number, and neither is an empty text.
pub proof fn lemma_parse_u32_forms(n: u32, k: nat, s: Seq<char>)
    ensures
        parse_u32_spec(zeros(k as int) + decimal(n as nat)) == Some(n),
        parse_u32_spec(seq!['+'] + zeros(k as int) + decimal(n as nat)) == Some(n),
        parse_u32_spec(Seq::<char>::empty()) is None,
        parse_u32_spec(seq!['+']) is None,
        (exists|i: int|
            0 <= i < s.len() && !is_digit(#[trigger] s[i]) && !(i == 0 && s[i] == '+'))
            ==> parse_u32_spec(s) is None,
{
    lemma_decimal_digits(n as nat);
    let d = decimal(n as nat);
    let z = zeros(k as int) + d;
    lemma_zeros_then_digits(k as int, d);
    assert forall|i: int| 0 <= i < z.len() implies is_digit(#[trigger] z[i]) by {
        if i < k {
            assert(z[i] == zeros(k as int)[i]);
        } else {
            assert(z[i] == d[i - k]);
        }
    }
    assert(is_digit(z[0]));
    assert(unsigned_digits(z) == z);
    let pz = seq!['+'] + zeros(k as int) + d;
    assert(pz =~= seq!['+'] + z);
    assert(unsigned_digits(pz) =~= z);
    assert(unsigned_digits(seq!['+']) =~= Seq::<char>::empty());
    if exists|i: int| 0 <= i < s.len() && !is_digit(#[trigger] s[i]) && !(i == 0 && s[i] == '+') {
        let i = choose|i: int| 0 <= i < s.len() && !is_digit(#[trigger] s[i]) && !(i == 0 && s[i]
            == '+');
        let u = unsigned_digits(s);
        if s.len() > 0 && s[0] == '+' {
            assert(u[i - 1] == s[i]);
        } else {
            assert(u[i] == s[i]);
        }
    }
}

/// The command line `program mode id ...` names one of the modes
/// `sentence`, `display`, `page2`, `mp3s`; with fewer than two arguments the
/// usage is due, and an id that is no number is reported before an unknown
/// mode.
pub proof fn lemma_parse_args_cases(args: Seq<String>)
    ensures
        args.len() < 3 ==> parse_args_spec(args) == Err::<Command, ArgsError>(ArgsError::Usage),
        args.len() >= 3 && parse_u32_spec(args[2]@) is None ==> parse_args_spec(args) == Err::<
            Command,
            ArgsError,
        >(ArgsError::InvalidId(args[2])),
        args.len() >= 3 && parse_u32_spec(args[2]@) is Some ==> (parse_args_spec(args) matches Ok(c)
            ==> c.id == parse_u32_spec(args[2]@)->0),
        args.len() >= 3 && parse_u32_spec(args[2]@) is Some && args[1]@ == "sentence"@
            ==> (parse_args_spec(args) matches Ok(c) && c.mode == Mode::Sentence),
        args.len() >= 3 && parse_u32_spec(args[2]@) is Some && args[1]@ == "display"@
            ==> (parse_args_spec(args) matches Ok(c) && c.mode == Mode::Display),
        args.len() >= 3 && parse_u32_spec(args[2]@) is Some && args[1]@ == "page2"@
            ==> (parse_args_spec(args) matches Ok(c) && c.mode == Mode::Page2),
        args.len() >= 3 && parse_u32_spec(args[2]@) is Some && args[1]@ == "mp3s"@
            ==> (parse_args_spec(args) matches Ok(c) && c.mode == Mode::Mp3s),
        args.len() >= 3 && parse_u32_spec(args[2]@) is Some && args[1]@ != "sentence"@ && args[1]@
            != "display"@ && args[1]@ != "page2"@ && args[1]@ != "mp3s"@ ==> parse_args_spec(args)
            == Err::<Command, ArgsError>(ArgsError::UnknownMode(args[1])),
{
    reveal_strlit("sentence");
    reveal_strlit("display");
    reveal_strlit("page2");
    reveal_strlit("mp3s");
    assert("sentence"@.len() == 8 && "display"@.len() == 7 && "page2"@.len() == 5 && "mp3s"@.len()
        == 4);
}

} // verus!
