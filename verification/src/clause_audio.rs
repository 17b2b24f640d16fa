//! Layout of the per-clause voice recordings, shared by the code that renders
//! them and the page that plays them.
use vstd::prelude::*;

verus! {

/// Subdirectory of the recordings directory that the clause recordings of
/// the first part of the first volume live in.
pub const VOL_1_PART_1_SUBDIR: &'static str = "vol-1-part-1";

/// The character of decimal digit `d`.
pub open spec fn digit_char(d: int) -> char {
    ('0' as int + d) as char
}

/// The decimal digits of `n`, without leading zeros.
pub open spec fn decimal(n: nat) -> Seq<char>
    decreases n,
{
    if n < 10 {
        seq![digit_char(n as int)]
    } else {
        decimal(n / 10).push(digit_char((n % 10) as int))
    }
}

/// `count` zeros.
pub open spec fn zeros(count: int) -> Seq<char> {
    Seq::new(count as nat, |i: int| '0')
}

/// The decimal digits of `n`, padded with leading zeros to at least `width`
/// characters (what `{:0width$}` prints).
pub open spec fn zero_padded(n: nat, width: nat) -> Seq<char> {
    let d = decimal(n);
    if d.len() < width {
        zeros(width - d.len()) + d
    } else {
        d
    }
}

/// The path of the recording of clause `clause_num` (1-based) of sentence
/// `sentence_id` in `voice`, relative to the recordings directory.
pub open spec fn clause_mp3_path(sentence_id: nat, clause_num: nat, voice: Seq<char>) -> Seq<char> {
    VOL_1_PART_1_SUBDIR@ + seq!['/'] + zero_padded(sentence_id, 3) + seq!['/'] + zero_padded(
        clause_num,
        2,
    ) + seq!['_'] + voice + seq!['.', 'm', 'p', '3']
}

fn push_digit(s: &mut String, d: u64)
    requires
        d < 10,
    ensures
        final(s)@ == old(s)@.push(digit_char(d as int)),
{
    let lit: &str = if d == 0 {
        proof {
            reveal_strlit("0");
        }
        "0"
    } else if d == 1 {
        proof {
            reveal_strlit("1");
        }
        "1"
    } else if d == 2 {
        proof {
            reveal_strlit("2");
        }
        "2"
    } else if d == 3 {
        proof {
            reveal_strlit("3");
        }
        "3"
    } else if d == 4 {
        proof {
            reveal_strlit("4");
        }
        "4"
    } else if d == 5 {
        proof {
            reveal_strlit("5");
        }
        "5"
    } else if d == 6 {
        proof {
            reveal_strlit("6");
        }
        "6"
    } else if d == 7 {
        proof {
            reveal_strlit("7");
        }
        "7"
    } else if d == 8 {
        proof {
            reveal_strlit("8");
        }
        "8"
    } else {
        proof {
            reveal_strlit("9");
        }
        "9"
    };
    assert(lit@ =~= seq![digit_char(d as int)]);
    s.append(lit);
}

/// Appends the decimal digits of `n` to `s`.
pub fn push_decimal(s: &mut String, n: u64)
    ensures
        final(s)@ == old(s)@ + decimal(n as nat),
    decreases n,
{
    if n >= 10 {
        push_decimal(s, n / 10);
    }
    push_digit(s, n % 10);
    assert(final(s)@ =~= old(s)@ + decimal(n as nat));
}

/// The number of decimal digits of `n`.
pub fn decimal_len(n: u64) -> (r: usize)
    ensures
        r == decimal(n as nat).len(),
        1 <= r <= 20,
    decreases n,
{
    if n < 10 {
        1
    } else {
        let r = decimal_len(n / 10);
        assert(r < 20) by {
            lemma_decimal_len_bound(n as nat);
        }
        r + 1
    }
}

proof fn lemma_decimal_len_bound(n: nat)
    requires
        n <= u64::MAX,
    ensures
        n >= 10 ==> decimal(n / 10).len() < 20,
{
    reveal_with_fuel(pow10, 20);
    assert(pow10(19) == 10000000000000000000nat);
    if n >= 10 {
        lemma_decimal_len(n / 10, 19);
    }
}

/// `decimal(n)` has at most `k` digits when `n < 10^k`, here for `k <= 19`.
proof fn lemma_decimal_len(n: nat, k: nat)
    requires
        1 <= k,
        n < pow10(k),
    ensures
        decimal(n).len() <= k,
    decreases k,
{
    if n >= 10 {
        assert(n / 10 < pow10((k - 1) as nat)) by {
            lemma_pow10_step(k);
        }
        if k == 1 {
            assert(pow10(1) == 10) by {
                reveal_with_fuel(pow10, 2);
            }
        } else {
            lemma_decimal_len(n / 10, (k - 1) as nat);
        }
    }
}

spec fn pow10(k: nat) -> nat
    decreases k,
{
    if k == 0 {
        1
    } else {
        10 * pow10((k - 1) as nat)
    }
}

proof fn lemma_pow10_step(k: nat)
    requires
        1 <= k,
    ensures
        pow10(k) == 10 * pow10((k - 1) as nat),
{
}

/// Appends `n` in decimal, padded with leading zeros to `width` characters.
pub fn push_zero_padded(s: &mut String, n: u64, width: usize)
    ensures
        final(s)@ == old(s)@ + zero_padded(n as nat, width as nat),
{
    let len = decimal_len(n);
    if len < width {
        let count = width - len;
        let mut i: usize = 0;
        proof {
            reveal_strlit("0");
        }
        while i < count
            invariant
                i <= count,
                s@ == old(s)@ + zeros(i as int),
            decreases count - i,
        {
            s.append("0");
            i += 1;
            assert(s@ =~= old(s)@ + zeros(i as int)) by {
                reveal_strlit("0");
            }
        }
    }
    push_decimal(s, n);
    assert(s@ =~= old(s)@ + zero_padded(n as nat, width as nat));
}

/// Path to `sentence_id`'s `clause_num`-th clause (1-based) mp3 in `voice`,
/// relative to the recordings directory (native) or the deployed `ru-mp3s/`
/// URL (web), e.g. `vol-1-part-1/001/02_denis.mp3`.
pub fn clause_mp3_relative_path(sentence_id: u32, clause_num: usize, voice: &str) -> (r: String)
    ensures
        r@ == clause_mp3_path(sentence_id as nat, clause_num as nat, voice@),
{
    let mut path = String::from_str(VOL_1_PART_1_SUBDIR);
    proof {
        reveal_strlit("/");
        reveal_strlit("_");
        reveal_strlit(".mp3");
    }
    path.append("/");
    push_zero_padded(&mut path, sentence_id as u64, 3);
    path.append("/");
    push_zero_padded(&mut path, clause_num as u64, 2);
    path.append("_");
    path.append(voice);
    path.append(".mp3");
    path
}

} // verus!
