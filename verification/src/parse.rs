//! Parsing of the interactive distance expression: `<km>` or
//! `<km>--<margin km>`, each a decimal numeral with an optional
//! fractional part. Values are returned in whole meters, so fractional
//! digits beyond the third are dropped (the value is truncated toward
//! zero).

use vstd::prelude::*;

verus! {

/// Why a distance expression was rejected.
#[derive(Clone, Copy, PartialEq, Eq, Structural, Debug)]
pub enum DistanceParseError {
    /// More than one `--` separator.
    BadFormat,
    /// A part is not a decimal numeral.
    BadNumber,
    /// A value does not fit in whole meters.
    TooLarge,
}

/// A decimal digit.
pub open spec fn is_digit(c: char) -> bool {
    '0' <= c && c <= '9'
}

/// The value of one decimal digit.
pub open spec fn digit_val(c: char) -> int {
    c as u32 - 48
}

/// Every character is a decimal digit.
pub open spec fn all_digits(s: Seq<char>) -> bool {
    forall|i: int| 0 <= i < s.len() ==> is_digit(#[trigger] s[i])
}

/// The value of a digit string read in base ten.
pub open spec fn digits_val(s: Seq<char>) -> int
    decreases s.len(),
{
    if s.len() == 0 {
        0
    } else {
        digits_val(s.drop_last()) * 10 + digit_val(s.last())
    }
}

/// There is a decimal point at `i`.
pub open spec fn dot_at(s: Seq<char>, i: int) -> bool {
    0 <= i < s.len() && s[i] == '.'
}

/// The string holds a decimal point somewhere.
pub open spec fn has_dot(s: Seq<char>) -> bool {
    exists|i: int| #[trigger] dot_at(s, i)
}

/// The position of the first decimal point.
pub open spec fn first_dot(s: Seq<char>) -> int {
    choose|i: int| #[trigger] dot_at(s, i) && forall|j: int| 0 <= j < i ==> !dot_at(s, j)
}

/// There is a `--` separator at `i`.
pub open spec fn sep_at(s: Seq<char>, i: int) -> bool {
    0 <= i && i + 2 <= s.len() && s[i] == '-' && s[i + 1] == '-'
}

/// The string holds a `--` separator somewhere.
pub open spec fn has_sep(s: Seq<char>) -> bool {
    exists|i: int| #[trigger] sep_at(s, i)
}

/// The position of the first `--` separator.
pub open spec fn first_sep(s: Seq<char>) -> int {
    choose|i: int| #[trigger] sep_at(s, i) && forall|j: int| 0 <= j < i ==> !sep_at(s, j)
}

/// A well-formed numeral: digits, or digits, a point and further digits.
pub open spec fn valid_number(s: Seq<char>) -> bool {
    if has_dot(s) {
        first_dot(s) >= 1 && all_digits(s.take(first_dot(s))) && all_digits(
            s.skip(first_dot(s) + 1),
        )
    } else {
        s.len() > 0 && all_digits(s)
    }
}

/// The value in meters of a fractional-kilometer digit string: the first
/// three fractional digits are thousandths of a kilometer, anything
/// beyond them is dropped.
pub open spec fn frac_val_m(f: Seq<char>) -> int {
    if f.len() == 0 {
        0
    } else if f.len() == 1 {
        digits_val(f) * 100
    } else if f.len() == 2 {
        digits_val(f) * 10
    } else {
        digits_val(f.take(3))
    }
}

/// The value in whole meters of a well-formed kilometer numeral.
pub open spec fn number_val_m(s: Seq<char>) -> int {
    if has_dot(s) {
        digits_val(s.take(first_dot(s))) * 1000 + frac_val_m(s.skip(first_dot(s) + 1))
    } else {
        digits_val(s) * 1000
    }
}

/// What parsing one numeral yields: its value in meters, or why not.
pub open spec fn parse_one_m(s: Seq<char>) -> Result<u64, DistanceParseError> {
    if !valid_number(s) {
        Err(DistanceParseError::BadNumber)
    } else if number_val_m(s) > u64::MAX {
        Err(DistanceParseError::TooLarge)
    } else {
        Ok(number_val_m(s) as u64)
    }
}

/// What parsing a whole distance expression yields: a target and a
/// margin in meters (the margin zero when no `--` part is given), or the
/// first reason for rejection, target before margin.
pub open spec fn parse_spec(s: Seq<char>) -> Result<(u64, u64), DistanceParseError> {
    if !has_sep(s) {
        match parse_one_m(s) {
            Ok(v) => Ok((v, 0u64)),
            Err(e) => Err(e),
        }
    } else {
        let p = first_sep(s);
        if has_sep(s.skip(p + 2)) {
            Err(DistanceParseError::BadFormat)
        } else {
            match (parse_one_m(s.take(p)), parse_one_m(s.skip(p + 2))) {
                (Ok(t), Ok(m)) => Ok((t, m)),
                (Err(e), _) => Err(e),
                (Ok(_), Err(e)) => Err(e),
            }
        }
    }
}

/// A position with a known earlier witness yields a minimal witness.
proof fn lemma_min_dot(s: Seq<char>, w: int)
    requires
        dot_at(s, w),
    ensures
        exists|i: int| #[trigger] dot_at(s, i) && forall|j: int| 0 <= j < i ==> !dot_at(s, j),
    decreases w,
{
    if exists|j: int| 0 <= j < w && #[trigger] dot_at(s, j) {
        let j = choose|j: int| 0 <= j < w && #[trigger] dot_at(s, j);
        lemma_min_dot(s, j);
    } else {
        assert(dot_at(s, w) && forall|j: int| 0 <= j < w ==> !dot_at(s, j));
    }
}

/// A dot with no dot before it is the first dot.
proof fn lemma_first_dot_is(s: Seq<char>, p: int)
    requires
        dot_at(s, p),
        forall|j: int| 0 <= j < p ==> !dot_at(s, j),
    ensures
        has_dot(s),
        first_dot(s) == p,
{
    lemma_min_dot(s, p);
    let c = first_dot(s);
    assert(dot_at(s, c) && forall|j: int| 0 <= j < c ==> !dot_at(s, j));
    if c < p {
        assert(!dot_at(s, c));
    }
    if p < c {
        assert(!dot_at(s, p));
    }
}

/// When the string has a dot at all, the first dot is a dot with none
/// before it.
proof fn lemma_first_dot_props(s: Seq<char>)
    requires
        has_dot(s),
    ensures
        dot_at(s, first_dot(s)),
        forall|j: int| 0 <= j < first_dot(s) ==> !dot_at(s, j),
{
    let w = choose|i: int| #[trigger] dot_at(s, i);
    lemma_min_dot(s, w);
}

/// A separator with no separator before it is the first separator.
proof fn lemma_first_sep_is(s: Seq<char>, p: int)
    requires
        sep_at(s, p),
        forall|j: int| 0 <= j < p ==> !sep_at(s, j),
    ensures
        has_sep(s),
        first_sep(s) == p,
{
    lemma_min_sep(s, p);
    let c = first_sep(s);
    assert(sep_at(s, c) && forall|j: int| 0 <= j < c ==> !sep_at(s, j));
    if c < p {
        assert(!sep_at(s, c));
    }
    if p < c {
        assert(!sep_at(s, p));
    }
}

proof fn lemma_min_sep(s: Seq<char>, w: int)
    requires
        sep_at(s, w),
    ensures
        exists|i: int| #[trigger] sep_at(s, i) && forall|j: int| 0 <= j < i ==> !sep_at(s, j),
    decreases w,
{
    if exists|j: int| 0 <= j < w && #[trigger] sep_at(s, j) {
        let j = choose|j: int| 0 <= j < w && #[trigger] sep_at(s, j);
        lemma_min_sep(s, j);
    } else {
        assert(sep_at(s, w) && forall|j: int| 0 <= j < w ==> !sep_at(s, j));
    }
}

/// Digit strings have non-negative value.
proof fn lemma_digits_val_nonneg(s: Seq<char>)
    requires
        all_digits(s),
    ensures
        digits_val(s) >= 0,
    decreases s.len(),
{
    if s.len() > 0 {
        assert(all_digits(s.drop_last()));
        lemma_digits_val_nonneg(s.drop_last());
    }
}

/// A digit string is worth at least any of its prefixes.
proof fn lemma_digits_val_prefix(s: Seq<char>, k: int)
    requires
        all_digits(s),
        0 <= k <= s.len(),
    ensures
        digits_val(s) >= digits_val(s.take(k)),
    decreases s.len(),
{
    if k == s.len() {
        assert(s.take(k) =~= s);
    } else {
        assert(all_digits(s.drop_last()));
        lemma_digits_val_prefix(s.drop_last(), k);
        assert(s.drop_last().take(k) =~= s.take(k));
        lemma_digits_val_nonneg(s.drop_last());
        assert(is_digit(s.last()));
    }
}

/// A fractional part is worth a non-negative number of meters.
proof fn lemma_frac_val_m_nonneg(f: Seq<char>)
    requires
        all_digits(f),
    ensures
        frac_val_m(f) >= 0,
{
    if f.len() == 0 {
    } else if f.len() == 1 {
        lemma_digits_val_nonneg(f);
    } else if f.len() == 2 {
        lemma_digits_val_nonneg(f);
    } else {
        assert(all_digits(f.take(3)));
        lemma_digits_val_nonneg(f.take(3));
    }
}

/// One parsed numeral, read from the character range `[from, to)` of
/// `s`: its value in whole meters, or why the range is not a numeral.
fn parse_number_m(s: &str, from: usize, to: usize) -> (r: Result<u64, DistanceParseError>)
    requires
        from <= to <= s@.len(),
    ensures
        r == parse_one_m(s@.subrange(from as int, to as int)),
{
    let ghost sub = s@.subrange(from as int, to as int);
    if from == to {
        proof {
            if has_dot(sub) {
                lemma_first_dot_props(sub);
            }
        }
        return Err(DistanceParseError::BadNumber);
    }
    let mut i: usize = from;
    let mut dot_pos: usize = 0;
    let mut seen_dot: bool = false;
    while i < to
        invariant
            from <= i <= to <= s@.len(),
            from < to,
            sub == s@.subrange(from as int, to as int),
            seen_dot ==> from < dot_pos < i && sub[dot_pos - from] == '.',
            seen_dot ==> forall|j: int| 0 <= j < dot_pos - from ==> is_digit(#[trigger] sub[j]),
            seen_dot ==> forall|j: int|
                dot_pos - from < j < i - from ==> is_digit(#[trigger] sub[j]),
            !seen_dot ==> forall|j: int| 0 <= j < i - from ==> is_digit(#[trigger] sub[j]),
        decreases to - i,
    {
        let c = s.get_char(i);
        proof {
            assert(sub[i - from] == s@[i as int]);
        }
        if '0' <= c && c <= '9' {
        } else if c == '.' && !seen_dot && i > from {
            seen_dot = true;
            dot_pos = i;
        } else {
            proof {
                let k = i - from;
                if seen_dot {
                    lemma_first_dot_is(sub, dot_pos - from);
                    assert(!valid_number(sub)) by {
                        if valid_number(sub) {
                            let p = first_dot(sub);
                            assert(p <= k - 1 || !is_digit(sub[k]));
                            assert(is_digit(sub.skip(p + 1)[k - p - 1]));
                        }
                    }
                } else {
                    if has_dot(sub) {
                        lemma_first_dot_props(sub);
                        let p = first_dot(sub);
                        if valid_number(sub) {
                            if k < p {
                                assert(is_digit(sub.take(p)[k]));
                            } else if k > p {
                                assert(is_digit(sub.skip(p + 1)[k - p - 1]));
                            }
                        }
                    }
                }
            }
            return Err(DistanceParseError::BadNumber);
        }
        i = i + 1;
    }
    proof {
        if seen_dot {
            assert(sub[dot_pos - from] == '.');
            lemma_first_dot_is(sub, dot_pos - from);
        } else {
            if has_dot(sub) {
                lemma_first_dot_props(sub);
                assert(is_digit(sub[first_dot(sub)]));
            }
        }
        assert(valid_number(sub));
    }
    // the digits of the whole-kilometer part
    let int_end: usize = if seen_dot {
        dot_pos
    } else {
        to
    };
    let ghost ipart = if has_dot(sub) {
        sub.take(first_dot(sub))
    } else {
        sub
    };
    proof {
        assert(ipart =~= s@.subrange(from as int, int_end as int));
        assert(all_digits(ipart));
        lemma_digits_val_nonneg(ipart);
        if has_dot(sub) {
            lemma_frac_val_m_nonneg(sub.skip(first_dot(sub) + 1));
        }
    }
    let mut val: u128 = 0;
    let mut j: usize = from;
    while j < int_end
        invariant
            from <= j <= int_end <= to <= s@.len(),
            sub == s@.subrange(from as int, to as int),
            ipart =~= s@.subrange(from as int, int_end as int),
            all_digits(ipart),
            valid_number(sub),
            val <= u64::MAX,
            val == digits_val(ipart.take(j - from)),
            number_val_m(sub) >= digits_val(ipart) * 1000,
            digits_val(ipart) >= 0,
        decreases int_end - j,
    {
        let c = s.get_char(j);
        proof {
            assert(ipart[j - from] == s@[j as int]);
        }
        let d: u128 = (c as u32 - 48) as u128;
        val = val * 10 + d;
        proof {
            let k = j - from;
            assert(ipart.take(k + 1).drop_last() =~= ipart.take(k));
            assert(ipart.take(k + 1).last() == ipart[k]);
            assert(val == digits_val(ipart.take(k + 1)));
        }
        if val > u64::MAX as u128 {
            proof {
                lemma_digits_val_prefix(ipart, j - from + 1);
            }
            return Err(DistanceParseError::TooLarge);
        }
        j = j + 1;
    }
    proof {
        assert(ipart.take(int_end - from) =~= ipart);
    }
    // the first three fractional digits, as thousandths of a kilometer
    let mut frac: u128 = 0;
    proof {
        if !has_dot(sub) {
            assert(number_val_m(sub) == digits_val(ipart) * 1000);
        }
    }
    if seen_dot {
        let ghost fpart = sub.skip(first_dot(sub) + 1);
        let flen: usize = to - dot_pos - 1;
        proof {
            assert(fpart.len() == flen);
            assert(forall|k: int| 0 <= k < fpart.len() ==> fpart[k] == s@[dot_pos + 1 + k]);
        }
        let mut d0: u128 = 0;
        let mut d1: u128 = 0;
        let mut d2: u128 = 0;
        if flen >= 1 {
            proof {
                assert(is_digit(fpart[0]) && fpart[0] == s@[dot_pos + 1]);
            }
            d0 = (s.get_char(dot_pos + 1) as u32 - 48) as u128;
        }
        if flen >= 2 {
            proof {
                assert(is_digit(fpart[1]) && fpart[1] == s@[dot_pos + 2]);
            }
            d1 = (s.get_char(dot_pos + 2) as u32 - 48) as u128;
        }
        if flen >= 3 {
            proof {
                assert(is_digit(fpart[2]) && fpart[2] == s@[dot_pos + 3]);
            }
            d2 = (s.get_char(dot_pos + 3) as u32 - 48) as u128;
        }
        frac = d0 * 100 + d1 * 10 + d2;
        proof {
            if flen == 0 {
                assert(frac_val_m(fpart) == 0);
            } else if flen == 1 {
                assert(fpart.drop_last() =~= Seq::<char>::empty());
                assert(digits_val(fpart.drop_last()) == 0);
                assert(fpart.last() == fpart[0]);
                assert(digits_val(fpart) == digit_val(fpart[0]));
                assert(frac == frac_val_m(fpart));
            } else if flen == 2 {
                assert(fpart.drop_last().drop_last() =~= Seq::<char>::empty());
                assert(digits_val(fpart.drop_last().drop_last()) == 0);
                assert(fpart.drop_last().last() == fpart[0]);
                assert(digits_val(fpart.drop_last()) == digit_val(fpart[0]));
                assert(fpart.last() == fpart[1]);
                assert(digits_val(fpart) == digit_val(fpart[0]) * 10 + digit_val(fpart[1]));
                assert(frac == frac_val_m(fpart));
            } else {
                let f3 = fpart.take(3);
                assert(fpart.take(1).drop_last() =~= Seq::<char>::empty());
                assert(digits_val(fpart.take(1).drop_last()) == 0);
                assert(fpart.take(1).last() == fpart[0]);
                assert(digits_val(fpart.take(1)) == digit_val(fpart[0]));
                assert(fpart.take(2).drop_last() =~= fpart.take(1));
                assert(fpart.take(2).last() == fpart[1]);
                assert(digits_val(fpart.take(2)) == digit_val(fpart[0]) * 10 + digit_val(
                    fpart[1],
                ));
                assert(f3.drop_last() =~= fpart.take(2));
                assert(f3.last() == fpart[2]);
                assert(digits_val(f3) == (digit_val(fpart[0]) * 10 + digit_val(fpart[1])) * 10
                    + digit_val(fpart[2]));
                assert(frac == frac_val_m(fpart));
            }
            assert(number_val_m(sub) == digits_val(ipart) * 1000 + frac_val_m(fpart));
        }
    }
    let total: u128 = val * 1000 + frac;
    proof {
        assert(total == number_val_m(sub));
    }
    if total > u64::MAX as u128 {
        return Err(DistanceParseError::TooLarge);
    }
    Ok(total as u64)
}

/// The first `--` separator at or after `start`, if any.
fn find_sep_from(s: &str, start: usize) -> (r: Option<usize>)
    requires
        start <= s@.len(),
    ensures
        match r {
            Some(p) => start <= p && sep_at(s@, p as int) && forall|j: int|
                start <= j < p ==> !sep_at(s@, j),
            None => forall|j: int| start <= j ==> !sep_at(s@, j),
        },
{
    let n = s.unicode_len();
    let mut i: usize = start;
    if n < 2 || start > n - 2 {
        return None;
    }
    while i < n - 1
        invariant
            start <= i,
            n == s@.len(),
            n >= 2,
            i <= n - 1,
            forall|j: int| start <= j < i ==> !sep_at(s@, j),
        decreases n - i,
    {
        let c0 = s.get_char(i);
        let c1 = s.get_char(i + 1);
        if c0 == '-' && c1 == '-' {
            return Some(i);
        }
        i = i + 1;
    }
    None
}

/// Parses an expression already known to hold its first `--` at `p`.
#[verifier::rlimit(100)]
fn parse_two_parts(s: &str, p: usize) -> (r: Result<(u64, u64), DistanceParseError>)
    requires
        p + 2 <= s@.len(),
        sep_at(s@, p as int),
        forall|j: int| 0 <= j < p ==> !sep_at(s@, j),
    ensures
        r == parse_spec(s@),
{
    let n = s.unicode_len();
    proof {
        lemma_first_sep_is(s@, p as int);
    }
    let ghost rest = s@.skip(p + 2);
    match find_sep_from(s, p + 2) {
        Some(q) => {
            proof {
                assert(sep_at(rest, q - p - 2)) by {
                    assert(forall|k: int| 0 <= k < rest.len() ==> rest[k] == s@[p + 2 + k]);
                }
            }
            Err(DistanceParseError::BadFormat)
        },
        None => {
            proof {
                assert(!has_sep(rest)) by {
                    if has_sep(rest) {
                        let w = choose|i: int| #[trigger] sep_at(rest, i);
                        assert(forall|k: int| 0 <= k < rest.len() ==> rest[k] == s@[p + 2 + k]);
                        assert(sep_at(s@, p + 2 + w));
                    }
                }
                assert(s@.subrange(0, p as int) =~= s@.take(p as int));
                assert(s@.subrange(p + 2, n as int) =~= rest);
            }
            let t = parse_number_m(s, 0, p);
            let m = parse_number_m(s, p + 2, n);
            match (t, m) {
                (Ok(a), Ok(b)) => Ok((a, b)),
                (Err(e), _) => Err(e),
                (Ok(_), Err(e)) => Err(e),
            }
        },
    }
}

/// Parses a distance expression: a target in kilometers, optionally
/// followed by `--` and a margin in kilometers, both non-negative
/// decimal numerals. Returns the pair in whole meters, the margin zero
/// when absent.
#[verifier::rlimit(100)]
pub fn parse_distance_input(s: &str) -> (r: Result<(u64, u64), DistanceParseError>)
    ensures
        r == parse_spec(s@),
{
    let n = s.unicode_len();
    match find_sep_from(s, 0) {
        None => {
            proof {
                if has_sep(s@) {
                    let w = choose|i: int| #[trigger] sep_at(s@, i);
                }
                assert(!has_sep(s@));
                assert(s@.subrange(0, n as int) =~= s@);
            }
            match parse_number_m(s, 0, n) {
                Ok(v) => Ok((v, 0u64)),
                Err(e) => Err(e),
            }
        },
        Some(p) => parse_two_parts(s, p),
    }
}

} // verus!
