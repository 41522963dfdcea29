use crate::engine::RATIO_SCALE;
use vstd::prelude::*;
use vstd::string::StrSliceExecFns;

verus! {

/// What a command text asks of a context's rotation.
#[derive(Clone, Copy, Debug, PartialEq, Eq, Structural)]
pub enum Command {
    /// `toggle_layout`: make the inactive layout the active one.
    ToggleLayout,
    /// `inc_main_ratio <delta>`: add `delta` (in millionths) to the active tile layout's ratio.
    IncMainRatio(i64),
    /// Any other text, or an `inc_main_ratio` whose delta does not parse: no effect.
    Unrecognized,
}

/// An exponent larger than this in magnitude is read as this bound: a delta
/// scaled by it is either zero or far beyond an `i64`.
const EXPONENT_CAP: u128 = 100_000_000_000_000_000_000;

/// Index of the first character of `s` that is `a` or `b`, or `s.len()` when there is none.
pub open spec fn first_of(s: Seq<char>, a: char, b: char) -> int
    decreases s.len(),
{
    if s.len() == 0 {
        0
    } else {
        let d = first_of(s.drop_last(), a, b);
        if d < s.len() - 1 {
            d
        } else if s.last() == a || s.last() == b {
            s.len() - 1
        } else {
            s.len() as int
        }
    }
}

/// The first `count` digits of `digits`, padded with zeros where it is shorter
/// (empty where `count` is not positive).
pub open spec fn kept_digits(digits: Seq<char>, count: int) -> Seq<char> {
    Seq::new(
        if count > 0 {
            count as nat
        } else {
            0
        },
        |i: int|
            if i < digits.len() {
                digits[i]
            } else {
                '0'
            },
    )
}

/// An exponent: an optional `+` or `-`, then one or more digits.
pub open spec fn exponent_of(s: Seq<char>) -> Option<int> {
    let signed = s.len() > 0 && (s[0] == '-' || s[0] == '+');
    let digits = if signed {
        s.drop_first()
    } else {
        s
    };
    if digits.len() > 0 && all_digits(digits) {
        Some(
            if s[0] == '-' {
                -digits_value(digits)
            } else {
                digits_value(digits)
            },
        )
    } else {
        None
    }
}

/// An unsigned decimal `digits[.digits][(e|E)exponent]` (either side of the
/// point may be empty, not both), in millionths, truncated: its digits read as
/// one numeral, with the point moved six places plus the exponent to the right,
/// and every digit past the point dropped.
pub open spec fn decimal_magnitude(body: Seq<char>) -> Option<int> {
    let e = first_of(body, 'e', 'E');
    let mantissa = body.subrange(0, e);
    let exponent = if e < body.len() {
        exponent_of(body.subrange(e + 1, body.len() as int))
    } else {
        Some(0)
    };
    let d = first_of(mantissa, '.', '.');
    let int_part = mantissa.subrange(0, d);
    let frac = if d < mantissa.len() {
        mantissa.subrange(d + 1, mantissa.len() as int)
    } else {
        Seq::empty()
    };
    if all_digits(int_part) && all_digits(frac) && int_part.len() + frac.len() > 0
        && exponent is Some {
        Some(digits_value(kept_digits(int_part + frac, int_part.len() + 6 + exponent.unwrap())))
    } else {
        None
    }
}

/// A ratio delta: an optional sign, then a decimal; `None` when the text is no
/// such number or its value in millionths does not fit in an `i64`.
pub open spec fn ratio_of(s: Seq<char>) -> Option<i64> {
    let signed = s.len() > 0 && (s[0] == '-' || s[0] == '+');
    let body = if signed {
        s.drop_first()
    } else {
        s
    };
    match decimal_magnitude(body) {
        Some(m) => {
            let v = if s.len() > 0 && s[0] == '-' {
                -m
            } else {
                m
            };
            if i64::MIN <= v <= i64::MAX {
                Some(v as i64)
            } else {
                None
            }
        },
        None => None,
    }
}

pub open spec fn toggle_text() -> Seq<char> {
    seq!['t', 'o', 'g', 'g', 'l', 'e', '_', 'l', 'a', 'y', 'o', 'u', 't']
}

pub open spec fn inc_ratio_prefix() -> Seq<char> {
    seq!['i', 'n', 'c', '_', 'm', 'a', 'i', 'n', '_', 'r', 'a', 't', 'i', 'o', ' ']
}

pub open spec fn is_digit(c: char) -> bool {
    '0' <= c && c <= '9'
}

pub open spec fn all_digits(s: Seq<char>) -> bool {
    forall|i: int| 0 <= i < s.len() ==> #[trigger] is_digit(s[i])
}

pub open spec fn digit_value(c: char) -> int {
    c as int - '0' as int
}

/// `s` read as a decimal numeral.
pub open spec fn digits_value(s: Seq<char>) -> int
    decreases s.len(),
{
    if s.len() == 0 {
        0
    } else {
        digits_value(s.drop_last()) * 10 + digit_value(s.last())
    }
}

/// The command that a text stands for.
pub open spec fn command_of(text: Seq<char>) -> Command {
    let p = inc_ratio_prefix();
    if text == toggle_text() {
        Command::ToggleLayout
    } else if p.len() <= text.len() && text.subrange(0, p.len() as int) == p {
        match ratio_of(text.subrange(p.len() as int, text.len() as int)) {
            Some(d) => Command::IncMainRatio(d),
            None => Command::Unrecognized,
        }
    } else {
        Command::Unrecognized
    }
}

proof fn lemma_first_of_stays(s: Seq<char>, a: char, b: char, j: int, k: int)
    requires
        0 <= j <= k <= s.len(),
        first_of(s.subrange(0, j), a, b) < j,
    ensures
        first_of(s.subrange(0, k), a, b) == first_of(s.subrange(0, j), a, b),
    decreases k - j,
{
    if k > j {
        lemma_first_of_stays(s, a, b, j, k - 1);
        assert(s.subrange(0, k).drop_last() =~= s.subrange(0, k - 1));
    }
}

/// Index of the first `a` or `b` in `s`, or its length.
fn find_first(s: &str, a: char, b: char) -> (d: usize)
    ensures
        d == first_of(s@, a, b),
        d <= s@.len(),
{
    let n = s.unicode_len();
    let mut i: usize = 0;
    while i < n
        invariant
            n == s@.len(),
            i <= n,
            first_of(s@.subrange(0, i as int), a, b) == i,
        decreases n - i,
    {
        assert(s@.subrange(0, i + 1).drop_last() =~= s@.subrange(0, i as int));
        let c = s.get_char(i);
        if c == a || c == b {
            assert(first_of(s@.subrange(0, i + 1), a, b) == i);
            proof {
                lemma_first_of_stays(s@, a, b, i + 1, n as int);
            }
            assert(s@.subrange(0, n as int) =~= s@);
            return i;
        }
        i = i + 1;
    }
    assert(s@.subrange(0, n as int) =~= s@);
    n
}

fn char_digit(c: char) -> (r: Option<u128>)
    ensures
        r is Some <==> is_digit(c),
        r matches Some(v) ==> v == digit_value(c),
{
    if '0' <= c && c <= '9' {
        Some((c as u32 - '0' as u32) as u128)
    } else {
        None
    }
}

/// `s` read as a decimal numeral; `None` when a character is no digit or the value exceeds `limit`.
fn read_number(s: &str, limit: u128) -> (r: Option<u128>)
    requires
        limit <= EXPONENT_CAP,
    ensures
        match r {
            Some(v) => all_digits(s@) && v == digits_value(s@) && v <= limit,
            None => !all_digits(s@) || digits_value(s@) > limit,
        },
{
    let n = s.unicode_len();
    let mut acc: u128 = 0;
    let mut exceeded = false;
    let mut i: usize = 0;
    while i < n
        invariant
            n == s@.len(),
            i <= n,
            limit <= EXPONENT_CAP,
            all_digits(s@.subrange(0, i as int)),
            exceeded ==> digits_value(s@.subrange(0, i as int)) > limit,
            !exceeded ==> acc == digits_value(s@.subrange(0, i as int)) && acc <= limit,
        decreases n - i,
    {
        let c = s.get_char(i);
        assert(s@.subrange(0, i + 1).drop_last() =~= s@.subrange(0, i as int));
        match char_digit(c) {
            None => {
                assert(!is_digit(s@[i as int]));
                return None;
            },
            Some(dv) => {
                if !exceeded {
                    acc = acc * 10 + dv;
                    if acc > limit {
                        exceeded = true;
                    }
                }
            },
        }
        assert(all_digits(s@.subrange(0, i + 1))) by {
            assert forall|k: int| 0 <= k < i + 1 implies #[trigger] is_digit(
                s@.subrange(0, i + 1)[k],
            ) by {
                if k < i {
                    assert(s@.subrange(0, i + 1)[k] == s@.subrange(0, i as int)[k]);
                }
            }
        }
        i = i + 1;
    }
    assert(s@.subrange(0, n as int) =~= s@);
    if exceeded {
        None
    } else {
        Some(acc)
    }
}

/// Whether every character of `s` is a decimal digit.
fn is_numeral(s: &str) -> (r: bool)
    ensures
        r == all_digits(s@),
{
    let n = s.unicode_len();
    let mut i: usize = 0;
    while i < n
        invariant
            n == s@.len(),
            i <= n,
            forall|k: int| 0 <= k < i ==> #[trigger] is_digit(s@[k]),
        decreases n - i,
    {
        if char_digit(s.get_char(i)).is_none() {
            return false;
        }
        i = i + 1;
    }
    true
}

/// The exponent that `t` stands for, with its magnitude capped at `EXPONENT_CAP`.
fn read_exponent(t: &str) -> (r: Option<i128>)
    ensures
        match r {
            Some(x) => exponent_of(t@) matches Some(v) && x == (if v > EXPONENT_CAP {
                EXPONENT_CAP as int
            } else if v < -EXPONENT_CAP {
                -EXPONENT_CAP
            } else {
                v
            }),
            None => exponent_of(t@) is None,
        },
{
    let n = t.unicode_len();
    let mut start: usize = 0;
    let mut neg = false;
    if n > 0 {
        let c = t.get_char(0);
        if c == '-' {
            neg = true;
            start = 1;
        } else if c == '+' {
            start = 1;
        }
    }
    let digits = t.substring_char(start, n);
    assert(digits@ =~= if start == 1 {
        t@.drop_first()
    } else {
        t@
    });
    if digits.unicode_len() == 0 || !is_numeral(digits) {
        return None;
    }
    let magnitude: i128 = match read_number(digits, EXPONENT_CAP) {
        Some(v) => v as i128,
        None => EXPONENT_CAP as i128,
    };
    if neg {
        Some(-magnitude)
    } else {
        Some(magnitude)
    }
}

proof fn lemma_digits_nonneg(s: Seq<char>)
    requires
        all_digits(s),
    ensures
        digits_value(s) >= 0,
    decreases s.len(),
{
    if s.len() > 0 {
        assert(is_digit(s[s.len() - 1]));
        lemma_digits_nonneg(s.drop_last());
    }
}

/// A numeral is zero exactly when each of its digits is `0`.
proof fn lemma_digits_zero(s: Seq<char>)
    requires
        all_digits(s),
    ensures
        (digits_value(s) == 0) == (forall|i: int| 0 <= i < s.len() ==> s[i] == '0'),
    decreases s.len(),
{
    if s.len() > 0 {
        let p = s.drop_last();
        assert(is_digit(s[s.len() - 1]));
        assert(all_digits(p)) by {
            assert forall|i: int| 0 <= i < p.len() implies #[trigger] is_digit(p[i]) by {
                assert(is_digit(s[i]));
            }
        }
        lemma_digits_zero(p);
        lemma_digits_nonneg(p);
        if digits_value(s) == 0 {
            assert forall|i: int| 0 <= i < s.len() implies s[i] == '0' by {
                if i < s.len() - 1 {
                    assert(p[i] == s[i]);
                }
            }
        }
        if forall|i: int| 0 <= i < s.len() ==> s[i] == '0' {
            assert(forall|i: int| 0 <= i < p.len() ==> p[i] == s[i]);
            assert(s[s.len() - 1] == '0');
        }
    }
}

spec fn pow10(n: nat) -> int
    decreases n,
{
    if n == 0 {
        1
    } else {
        10 * pow10((n - 1) as nat)
    }
}

proof fn lemma_pow10_grows(n: nat)
    requires
        n >= 20,
    ensures
        pow10(n) >= 100_000_000_000_000_000_000,
    decreases n,
{
    if n == 20 {
        reveal_with_fuel(pow10, 21);
    } else {
        lemma_pow10_grows((n - 1) as nat);
    }
}

/// Keeping more digits than there are appends zeros, which scales the numeral.
proof fn lemma_kept_past_end(digits: Seq<char>, count: int)
    requires
        count >= digits.len(),
    ensures
        digits_value(kept_digits(digits, count)) == digits_value(digits) * pow10(
            (count - digits.len()) as nat,
        ),
    decreases count - digits.len(),
{
    if count == digits.len() {
        assert(kept_digits(digits, count) =~= digits);
    } else {
        lemma_kept_past_end(digits, count - 1);
        let kept = kept_digits(digits, count);
        assert(kept.drop_last() =~= kept_digits(digits, count - 1));
        assert(kept.last() == '0');
        assert(pow10((count - digits.len()) as nat) == 10 * pow10((count - 1 - digits.len()) as nat));
        assert(digits_value(kept) == digits_value(kept.drop_last()) * 10);
        assert(digits_value(digits) * pow10((count - 1 - digits.len()) as nat) * 10 == digits_value(
            digits,
        ) * (10 * pow10((count - 1 - digits.len()) as nat))) by (nonlinear_arith);
    }
}

fn all_zeros(digits: &Vec<char>) -> (r: bool)
    ensures
        r == (forall|i: int| 0 <= i < digits@.len() ==> digits@[i] == '0'),
{
    let mut i: usize = 0;
    while i < digits.len()
        invariant
            i <= digits@.len(),
            forall|k: int| 0 <= k < i ==> digits@[k] == '0',
        decreases digits@.len() - i,
    {
        if digits[i] != '0' {
            return false;
        }
        i = i + 1;
    }
    true
}

/// The numeral of the first `count` digits of `digits` (padded with zeros);
/// `None` when it exceeds `limit`.
fn read_kept(digits: &Vec<char>, count: u128, limit: u128) -> (r: Option<u128>)
    requires
        all_digits(digits@),
        limit <= EXPONENT_CAP,
    ensures
        match r {
            Some(v) => v == digits_value(kept_digits(digits@, count as int)) && v <= limit,
            None => digits_value(kept_digits(digits@, count as int)) > limit,
        },
{
    let ghost kept = kept_digits(digits@, count as int);
    assert(all_digits(kept)) by {
        assert forall|k: int| 0 <= k < kept.len() implies #[trigger] is_digit(kept[k]) by {
            if k < digits@.len() {
                assert(is_digit(digits@[k]));
            }
        }
    }
    let mut acc: u128 = 0;
    let mut i: u128 = 0;
    while i < count
        invariant
            i <= count,
            limit <= EXPONENT_CAP,
            all_digits(digits@),
            all_digits(kept),
            kept == kept_digits(digits@, count as int),
            acc == digits_value(kept.subrange(0, i as int)),
            acc <= limit,
        decreases count - i,
    {
        let c = if i < digits.len() as u128 {
            digits[i as usize]
        } else {
            '0'
        };
        assert(c == kept[i as int]);
        assert(is_digit(c)) by {
            if i < digits@.len() {
                assert(is_digit(digits@[i as int]));
            }
        }
        assert(kept.subrange(0, i + 1).drop_last() =~= kept.subrange(0, i as int));
        let dv = (c as u32 - '0' as u32) as u128;
        acc = acc * 10 + dv;
        i = i + 1;
        assert(acc == digits_value(kept.subrange(0, i as int)));
        if acc > limit {
            proof {
                lemma_kept_prefix_grows(kept, i as int, count as int, limit as int);
                assert(kept.subrange(0, count as int) =~= kept);
            }
            return None;
        }
    }
    assert(kept.subrange(0, count as int) =~= kept);
    Some(acc)
}

/// Once a numeral's prefix exceeds a bound, the whole numeral does.
proof fn lemma_kept_prefix_grows(s: Seq<char>, j: int, k: int, limit: int)
    requires
        0 <= j <= k <= s.len(),
        0 <= limit,
        all_digits(s),
        digits_value(s.subrange(0, j)) > limit,
    ensures
        digits_value(s.subrange(0, k)) > limit,
    decreases k - j,
{
    if k > j {
        lemma_kept_prefix_grows(s, j, k - 1, limit);
        assert(s.subrange(0, k).drop_last() =~= s.subrange(0, k - 1));
        assert(is_digit(s[k - 1]));
    }
}

/// The numeral of the first `exact_count` digits of `digits` (padded with
/// zeros); `None` where it is larger than `i64::MIN` is in magnitude. `count`
/// is `exact_count`, or on the same side of the bounds past which the result
/// no longer depends on it.
fn scaled_magnitude(digits: &Vec<char>, count: i128, exact_count: Ghost<int>) -> (r: Option<u128>)
    requires
        all_digits(digits@),
        exact_count@ == count || (count <= 0 && exact_count@ <= 0) || (count >= digits@.len() + 20
            && exact_count@ >= digits@.len() + 20),
    ensures
        match r {
            Some(v) => v == digits_value(kept_digits(digits@, exact_count@)) && v <= 0x8000_0000_0000_0000u128,
            None => digits_value(kept_digits(digits@, exact_count@)) > 0x8000_0000_0000_0000u128,
        },
{
    let limit: u128 = 0x8000_0000_0000_0000;
    let n = digits.len();
    if count <= 0 {
        assert(kept_digits(digits@, exact_count@) =~= Seq::empty());
        Some(0)
    } else if count >= n as i128 + 20 {
        let ghost exact = digits_value(kept_digits(digits@, exact_count@));
        let ghost scale = pow10((exact_count@ - n) as nat);
        proof {
            lemma_kept_past_end(digits@, exact_count@);
            lemma_pow10_grows((exact_count@ - n) as nat);
            lemma_digits_zero(digits@);
            lemma_digits_nonneg(digits@);
        }
        if all_zeros(digits) {
            assert(exact == 0) by (nonlinear_arith)
                requires
                    exact == digits_value(digits@) * scale,
                    digits_value(digits@) == 0,
            ;
            Some(0)
        } else {
            assert(exact > limit) by (nonlinear_arith)
                requires
                    exact == digits_value(digits@) * scale,
                    digits_value(digits@) >= 1,
                    scale >= 100_000_000_000_000_000_000,
                    limit == 0x8000_0000_0000_0000,
            ;
            None
        }
    } else {
        read_kept(digits, count as u128, limit)
    }
}

/// The digits of `a` followed by those of `b`.
fn join_digits(a: &str, b: &str) -> (r: Vec<char>)
    ensures
        r@ == a@ + b@,
{
    let an = a.unicode_len();
    let bn = b.unicode_len();
    let mut digits: Vec<char> = Vec::new();
    let mut i: usize = 0;
    while i < an
        invariant
            an == a@.len(),
            i <= an,
            digits@ =~= a@.subrange(0, i as int),
        decreases an - i,
    {
        digits.push(a.get_char(i));
        i = i + 1;
    }
    let mut j: usize = 0;
    while j < bn
        invariant
            an == a@.len(),
            bn == b@.len(),
            j <= bn,
            digits@ =~= a@ + b@.subrange(0, j as int),
        decreases bn - j,
    {
        digits.push(b.get_char(j));
        j = j + 1;
    }
    assert(b@.subrange(0, bn as int) =~= b@);
    digits
}

/// An unsigned decimal (see `decimal_magnitude`) in millionths; `None` where
/// the text is no such number or its value exceeds `i64::MIN` in magnitude.
fn read_decimal(body: &str) -> (r: Option<u128>)
    ensures
        match r {
            Some(v) => decimal_magnitude(body@) == Some(v as int) && v <= 0x8000_0000_0000_0000u128,
            None => decimal_magnitude(body@) matches Some(m) ==> m > 0x8000_0000_0000_0000u128,
        },
{
    let bn = body.unicode_len();
    let e = find_first(body, 'e', 'E');
    let mantissa = body.substring_char(0, e);
    let exponent = if e < bn {
        read_exponent(body.substring_char(e + 1, bn))
    } else {
        Some(0)
    };
    let x = match exponent {
        Some(x) => x,
        None => {
            return None;
        },
    };
    let ghost exact_exponent = if e < bn {
        exponent_of(body@.subrange(e + 1, bn as int)).unwrap()
    } else {
        0
    };
    let mn = mantissa.unicode_len();
    let d = find_first(mantissa, '.', '.');
    let int_part = mantissa.substring_char(0, d);
    let frac = if d < mn {
        mantissa.substring_char(d + 1, mn)
    } else {
        mantissa.substring_char(mn, mn)
    };
    assert(frac@ =~= if d < mn {
        mantissa@.subrange(d + 1, mn as int)
    } else {
        Seq::empty()
    });
    let int_len = int_part.unicode_len();
    if int_len == 0 && frac.unicode_len() == 0 {
        return None;
    }
    if !is_numeral(int_part) || !is_numeral(frac) {
        return None;
    }
    let digits = join_digits(int_part, frac);
    assert(all_digits(digits@)) by {
        assert forall|k: int| 0 <= k < digits@.len() implies #[trigger] is_digit(digits@[k]) by {
            if k < int_part@.len() {
                assert(is_digit(int_part@[k]));
            } else {
                assert(is_digit(frac@[k - int_part@.len()]));
            }
        }
    }
    let count: i128 = int_len as i128 + 6 + x;
    let ghost exact_count = int_len + 6 + exact_exponent;
    assert(usize::MAX <= 0xffff_ffff_ffff_ffff);
    assert(exact_count == count || (count <= 0 && exact_count <= 0) || (count >= digits@.len()
        + 20 && exact_count >= digits@.len() + 20));
    assert(decimal_magnitude(body@) == Some(digits_value(kept_digits(digits@, exact_count))));
    scaled_magnitude(&digits, count, Ghost(exact_count))
}

/// Reads a ratio delta: an optional `+` or `-`, then `digits[.digits]` (either
/// side of the point may be empty, not both) with an optional exponent
/// `(e|E)[+|-]digits`. The value is in millionths, truncated toward zero.
/// `None` when the text is no such number or its value does not fit in an
/// `i64`; `inf`, `infinity` and `NaN`, which have no value in millionths, are
/// no such number.
pub fn parse_ratio(text: &str) -> (r: Option<i64>)
    ensures
        r == ratio_of(text@),
{
    let n = text.unicode_len();
    let mut neg = false;
    let mut start: usize = 0;
    if n > 0 {
        let c = text.get_char(0);
        if c == '-' {
            neg = true;
            start = 1;
        } else if c == '+' {
            start = 1;
        }
    }
    let body = text.substring_char(start, n);
    assert(body@ =~= if start == 1 {
        text@.drop_first()
    } else {
        text@
    });
    match read_decimal(body) {
        None => None,
        Some(mag) => {
            if neg {
                Some((0 - (mag as i128)) as i64)
            } else if mag <= i64::MAX as u128 {
                Some(mag as i64)
            } else {
                None
            }
        },
    }
}

/// Whether `text` starts with `prefix`.
fn starts_with(text: &str, prefix: &str) -> (r: bool)
    ensures
        r == (prefix@.len() <= text@.len() && text@.subrange(0, prefix@.len() as int) == prefix@),
{
    let n = text.unicode_len();
    let pn = prefix.unicode_len();
    if pn > n {
        return false;
    }
    let mut i: usize = 0;
    while i < pn
        invariant
            n == text@.len(),
            pn == prefix@.len(),
            pn <= n,
            i <= pn,
            forall|k: int| 0 <= k < i ==> text@[k] == prefix@[k],
        decreases pn - i,
    {
        if text.get_char(i) != prefix.get_char(i) {
            assert(text@.subrange(0, pn as int)[i as int] != prefix@[i as int]);
            return false;
        }
        i = i + 1;
    }
    assert(text@.subrange(0, pn as int) =~= prefix@);
    true
}

/// Reads a command text: `toggle_layout`, or `inc_main_ratio ` followed by a
/// ratio delta (see `parse_ratio`); anything else is `Unrecognized`.
pub fn parse_command(text: &str) -> (r: Command)
    ensures
        r == command_of(text@),
{
    let toggle = "toggle_layout";
    let prefix = "inc_main_ratio ";
    proof {
        reveal_strlit("toggle_layout");
        reveal_strlit("inc_main_ratio ");
    }
    assert(toggle@ =~= toggle_text());
    assert(prefix@ =~= inc_ratio_prefix());
    let n = text.unicode_len();
    let is_toggle = n == 13 && starts_with(text, toggle);
    assert(is_toggle == (text@ == toggle_text())) by {
        if n == 13 {
            assert(text@.subrange(0, 13) =~= text@);
        }
    }
    if is_toggle {
        return Command::ToggleLayout;
    }
    if starts_with(text, prefix) {
        let rest = text.substring_char(15, n);
        assert(text@ != toggle_text());
        assert(rest@ == text@.subrange(inc_ratio_prefix().len() as int, text@.len() as int));
        match parse_ratio(rest) {
            Some(d) => Command::IncMainRatio(d),
            None => Command::Unrecognized,
        }
    } else {
        Command::Unrecognized
    }
}

} // verus!
