//! Rendering a `Duration` as a decimal number in an automatically chosen unit
//! (seconds, milliseconds, microseconds or nanoseconds), with an optional
//! precision, sign and field width.
use vstd::arithmetic::div_mod::lemma_fundamental_div_mod_converse;
use vstd::prelude::*;

use crate::duration::{Duration, NANOS_PER_MICRO, NANOS_PER_MILLI, NANOS_PER_SEC};

verus! {

/// Where the padding goes when the text is shorter than the width asked for.
#[derive(Clone, Copy, Debug, PartialEq, Eq, Structural)]
pub enum Alignment {
    /// Padding after the text.
    Left,
    /// Padding before the text.
    Right,
    /// Half the padding before the text, the rest after it.
    Center,
}

/// How a span is rendered.
#[derive(Clone, Copy, Debug)]
pub struct FormatOptions {
    /// Digits after the decimal point; without it, as many as the span needs.
    pub precision: Option<usize>,
    /// The least number of characters; shorter text is padded.
    pub width: Option<usize>,
    /// Whether a `+` goes before the number.
    pub sign_plus: bool,
    /// The character the padding is made of.
    pub fill: char,
    /// Where the padding goes; after the text where none is given.
    pub align: Option<Alignment>,
}

impl FormatOptions {
    /// No precision, no width, no sign, padding with spaces after the text.
    pub fn new() -> (r: FormatOptions)
        ensures
            r.precision is None,
            r.width is None,
            !r.sign_plus,
            r.fill == ' ',
            r.align is None,
    {
        FormatOptions { precision: None, width: None, sign_plus: false, fill: ' ', align: None }
    }
}

/// `10^n`.
pub open spec fn pow10(n: nat) -> nat
    decreases n,
{
    if n == 0 {
        1
    } else {
        10 * pow10((n - 1) as nat)
    }
}

/// The character of the decimal digit `d`.
pub open spec fn digit_char(d: nat) -> char {
    (d + 48) as char
}

/// The decimal digits of `n`, without leading zeros (`"0"` for zero).
pub open spec fn decimal(n: nat) -> Seq<char>
    decreases n,
{
    if n < 10 {
        seq![digit_char(n)]
    } else {
        decimal(n / 10).push(digit_char(n % 10))
    }
}

/// The last `w` decimal digits of `n`, with leading zeros.
pub open spec fn fixed_digits(n: nat, w: nat) -> Seq<char>
    decreases w,
{
    if w == 0 {
        Seq::empty()
    } else {
        fixed_digits(n / 10, (w - 1) as nat).push(digit_char(n % 10))
    }
}

/// `k` characters `c`.
pub open spec fn repeat(c: char, k: nat) -> Seq<char> {
    Seq::new(k, |i: int| c)
}

/// `s` without its trailing `'0'` characters.
pub open spec fn trim_zeros(s: Seq<char>) -> Seq<char>
    decreases s.len(),
{
    if s.len() > 0 && s.last() == '0' {
        trim_zeros(s.drop_last())
    } else {
        s
    }
}

/// `num / den` rounded to the nearest integer, halves rounded up.
pub open spec fn round_half_up(num: nat, den: nat) -> nat {
    num / den + if 2 * (num % den) >= den {
        1nat
    } else {
        0nat
    }
}

/// The number of decimal digits that one unit adds to a nanosecond count: a
/// span of a second or more is shown in seconds, else one of a millisecond or
/// more in milliseconds, else one of a microsecond or more in microseconds,
/// else in nanoseconds.
pub open spec fn unit_exp(nanos: nat) -> nat {
    if nanos >= 1_000_000_000 {
        9
    } else if nanos >= 1_000_000 {
        6
    } else if nanos >= 1_000 {
        3
    } else {
        0
    }
}

/// The suffix of the unit a span is shown in.
pub open spec fn unit_suffix(nanos: nat) -> Seq<char> {
    if nanos >= 1_000_000_000 {
        seq!['s']
    } else if nanos >= 1_000_000 {
        seq!['m', 's']
    } else if nanos >= 1_000 {
        seq!['\u{b5}', 's']
    } else {
        seq!['n', 's']
    }
}

/// The number `whole + frac / 10^l` as decimal text. Without a precision,
/// every digit after the point is shown up to the last one that is not zero.
/// With a precision `p`, the number is rounded half up to `min(p, 9)` digits
/// after the point and padded with zeros to `p` digits; a carry out of the
/// digits goes into the whole part. No point is shown without digits after it.
pub open spec fn decimal_text(whole: nat, frac: nat, l: nat, precision: Option<usize>) -> Seq<
    char,
> {
    match precision {
        None => {
            let digits = trim_zeros(fixed_digits(frac, l));
            if digits.len() == 0 {
                decimal(whole)
            } else {
                decimal(whole) + seq!['.'] + digits
            }
        },
        Some(p) => {
            let pe: nat = if p <= 9 {
                p as nat
            } else {
                9
            };
            let n = round_half_up((whole * pow10(l) + frac) * pow10(pe), pow10(l));
            if p == 0 {
                decimal(n)
            } else {
                decimal(n / pow10(pe)) + seq!['.'] + fixed_digits(n % pow10(pe), pe) + repeat(
                    '0',
                    (p - pe) as nat,
                )
            }
        },
    }
}

/// A span of `nanos` nanoseconds in its unit, as decimal text.
pub open spec fn number_text(nanos: nat, precision: Option<usize>) -> Seq<char> {
    let l = unit_exp(nanos);
    decimal_text(nanos / pow10(l), nanos % pow10(l), l, precision)
}

/// The text of a span of `nanos` nanoseconds before padding: the sign if asked
/// for, the number in its unit, and the unit's suffix.
pub open spec fn body_text(nanos: nat, options: FormatOptions) -> Seq<char> {
    (if options.sign_plus {
        seq!['+']
    } else {
        Seq::empty()
    }) + number_text(nanos, options.precision) + unit_suffix(nanos)
}

/// How many fill characters go before a text that is `pad` characters short.
pub open spec fn pre_padding(pad: nat, align: Option<Alignment>) -> nat {
    match align {
        Some(Alignment::Right) => pad,
        Some(Alignment::Center) => pad / 2,
        _ => 0,
    }
}

/// `text` padded with the fill character up to the width asked for, where it
/// is shorter.
pub open spec fn padded(text: Seq<char>, options: FormatOptions) -> Seq<char> {
    if options.width is Some && options.width->0 > text.len() {
        let pad = (options.width->0 - text.len()) as nat;
        let pre = pre_padding(pad, options.align);
        repeat(options.fill, pre) + text + repeat(options.fill, (pad - pre) as nat)
    } else {
        text
    }
}

/// The rendering of a span of `nanos` nanoseconds.
pub open spec fn rendered(nanos: nat, options: FormatOptions) -> Seq<char> {
    padded(body_text(nanos, options), options)
}

/// The number of digits a byte string holds, most significant first.
pub open spec fn digits_value(s: Seq<u8>) -> nat
    decreases s.len(),
{
    if s.len() == 0 {
        0
    } else {
        digits_value(s.drop_last()) * 10 + (s.last() - 48) as nat
    }
}

/// Every byte of `s` is an ASCII decimal digit.
pub open spec fn all_digits(s: Seq<u8>) -> bool {
    forall|i: int| 0 <= i < s.len() ==> 48 <= #[trigger] s[i] <= 57
}

/// The characters of the ASCII bytes of `s`.
pub open spec fn chars_of(s: Seq<u8>) -> Seq<char> {
    s.map_values(|b: u8| b as char)
}

/// `k` bytes `b`.
pub open spec fn repeat_byte(b: u8, k: nat) -> Seq<u8> {
    Seq::new(k, |i: int| b)
}

proof fn lemma_pow10_pos(n: nat)
    ensures
        pow10(n) >= 1,
    decreases n,
{
    if n > 0 {
        lemma_pow10_pos((n - 1) as nat);
    }
}

proof fn lemma_pow10_adds(a: nat, b: nat)
    ensures
        pow10(a + b) == pow10(a) * pow10(b),
    decreases b,
{
    if b > 0 {
        lemma_pow10_adds(a, (b - 1) as nat);
        assert(pow10(a + b) == 10 * pow10((a + b - 1) as nat));
        assert(pow10(a) * pow10(b) == pow10(a) * (10 * pow10((b - 1) as nat)));
        assert(pow10(a) * (10 * pow10((b - 1) as nat)) == 10 * (pow10(a) * pow10((b - 1) as nat)))
            by (nonlinear_arith);
    } else {
        assert(pow10(0) == 1);
        assert(a + b == a);
    }
}

proof fn lemma_pow10_values()
    ensures
        pow10(0) == 1,
        pow10(3) == 1_000,
        pow10(6) == 1_000_000,
        pow10(9) == 1_000_000_000,
{
    reveal_with_fuel(pow10, 10);
}

/// The value of two digit strings one after the other.
proof fn lemma_value_append(a: Seq<u8>, b: Seq<u8>)
    ensures
        digits_value(a + b) == digits_value(a) * pow10(b.len()) + digits_value(b),
    decreases b.len(),
{
    if b.len() == 0 {
        assert(a + b == a);
        assert(pow10(0) == 1);
        assert(digits_value(a) * pow10(0) == digits_value(a)) by (nonlinear_arith)
            requires
                pow10(0) == 1,
        ;
    } else {
        let b1 = b.drop_last();
        assert((a + b).drop_last() == a + b1);
        assert((a + b).last() == b.last());
        lemma_value_append(a, b1);
        let x = digits_value(a);
        let p = pow10(b1.len());
        let y = digits_value(b1);
        assert(pow10(b.len()) == 10 * p);
        assert((x * p + y) * 10 == x * (10 * p) + y * 10) by (nonlinear_arith);
    }
}

/// A string of zeros is worth zero.
proof fn lemma_value_zeros(k: nat)
    ensures
        digits_value(repeat_byte(48, k)) == 0,
    decreases k,
{
    if k > 0 {
        assert(repeat_byte(48, k).drop_last() == repeat_byte(48, (k - 1) as nat));
        lemma_value_zeros((k - 1) as nat);
    }
}

/// A string of nines is one short of a power of ten.
proof fn lemma_value_nines(k: nat)
    ensures
        digits_value(repeat_byte(57, k)) + 1 == pow10(k),
    decreases k,
{
    if k > 0 {
        assert(repeat_byte(57, k).drop_last() == repeat_byte(57, (k - 1) as nat));
        lemma_value_nines((k - 1) as nat);
    }
}

/// A digit string shows its own value, which it can hold.
proof fn lemma_value_fixed(s: Seq<u8>)
    requires
        all_digits(s),
    ensures
        digits_value(s) < pow10(s.len()),
        chars_of(s) == fixed_digits(digits_value(s), s.len()),
    decreases s.len(),
{
    if s.len() > 0 {
        let s1 = s.drop_last();
        assert(all_digits(s1)) by {
            assert forall|i: int| 0 <= i < s1.len() implies 48 <= #[trigger] s1[i] <= 57 by {
                assert(s1[i] == s[i]);
            }
        }
        lemma_value_fixed(s1);
        let v = digits_value(s);
        let d = (s.last() - 48) as nat;
        assert(48 <= s[s.len() - 1] <= 57);
        assert(v / 10 == digits_value(s1) && v % 10 == d);
        assert(chars_of(s) == chars_of(s1).push(s.last() as char));
        assert(digit_char(d) == s.last() as char);
    }
}

/// Shifting a number left by `k` decimal places appends `k` zeros to its digits.
proof fn lemma_fixed_shift(v: nat, n: nat, k: nat)
    ensures
        fixed_digits(v * pow10(k), n + k) == fixed_digits(v, n) + repeat('0', k),
    decreases k,
{
    if k == 0 {
        assert(pow10(0) == 1);
        assert(v * pow10(0) == v) by (nonlinear_arith)
            requires
                pow10(0) == 1,
        ;
        assert(fixed_digits(v, n) + repeat('0', 0) == fixed_digits(v, n));
    } else {
        let p = pow10((k - 1) as nat);
        assert(v * pow10(k) == (v * p) * 10) by (nonlinear_arith)
            requires
                pow10(k) == 10 * p,
        ;
        assert((v * p) * 10 / 10 == v * p && (v * p) * 10 % 10 == 0) by (nonlinear_arith);
        lemma_fixed_shift(v, n, (k - 1) as nat);
        assert(digit_char(0) == '0');
        assert((fixed_digits(v, n) + repeat('0', (k - 1) as nat)).push('0') == fixed_digits(v, n)
            + repeat('0', k));
    }
}

/// Trailing zeros do not survive trimming.
proof fn lemma_trim_zeros(s: Seq<char>, k: nat)
    ensures
        trim_zeros(s + repeat('0', k)) == trim_zeros(s),
    decreases k,
{
    if k == 0 {
        assert(s + repeat('0', 0) == s);
    } else {
        assert((s + repeat('0', k)).drop_last() == s + repeat('0', (k - 1) as nat));
        lemma_trim_zeros(s, (k - 1) as nat);
    }
}

/// A number split into a multiple of `p` and a remainder below `p`.
proof fn lemma_split(n: nat, q: nat, r: nat, p: nat)
    requires
        n == q * p + r,
        r < p,
    ensures
        n / p == q,
        n % p == r,
{
    lemma_fundamental_div_mod_converse(n as int, p as int, q as int, r as int);
}

/// Rounding a number whose digits past the first `pe` after the point are all
/// zero changes nothing.
proof fn lemma_round_exact(whole: nat, v: nat, l: nat, pos: nat, pe: nat)
    requires
        pos <= pe,
        pos <= l,
    ensures
        round_half_up((whole * pow10(l) + v * pow10((l - pos) as nat)) * pow10(pe), pow10(l)) == whole
            * pow10(pe) + v * pow10((pe - pos) as nat),
{
    let a = pow10(l);
    let b = pow10((l - pos) as nat);
    let c = pow10(pe);
    let e = pow10((pe - pos) as nat);
    lemma_pow10_adds((l - pos) as nat, pe);
    lemma_pow10_adds(l, (pe - pos) as nat);
    assert((l - pos) as nat + pe == l + (pe - pos) as nat);
    lemma_pow10_pos(l);
    let q = whole * c + v * e;
    assert((whole * a + v * b) * c == q * a) by (nonlinear_arith)
        requires
            b * c == a * e,
            q == whole * c + v * e,
    ;
    lemma_split(q * a, q, 0, a);
}

/// Rounding to `pe` digits after the point when more were there: the digits
/// kept, plus one where the first digit dropped is five or more.
proof fn lemma_round_cut(whole: nat, v: nat, frac: nat, l: nat, pe: nat, divisor: nat)
    requires
        pe < l,
        frac < pow10((l - pe) as nat),
        divisor * 10 == pow10((l - pe) as nat),
    ensures
        round_half_up((whole * pow10(l) + v * pow10((l - pe) as nat) + frac) * pow10(pe), pow10(l))
            == whole * pow10(pe) + v + if frac >= 5 * divisor {
            1nat
        } else {
            0nat
        },
{
    let a = pow10(l);
    let b = pow10((l - pe) as nat);
    let c = pow10(pe);
    lemma_pow10_adds((l - pe) as nat, pe);
    assert((l - pe) as nat + pe == l);
    lemma_pow10_pos(pe);
    let q = whole * c + v;
    assert((whole * a + v * b + frac) * c == q * a + frac * c && frac * c < a) by (nonlinear_arith)
        requires
            b * c == a,
            q == whole * c + v,
            frac < b,
            c >= 1,
    ;
    lemma_split(q * a + frac * c, q, frac * c, a);
    assert(2 * (frac * c) >= a <==> frac >= 5 * divisor) by (nonlinear_arith)
        requires
            b * c == a,
            divisor * 10 == b,
            c >= 1,
    ;
}

/// Appends the decimal digits of `n` to `out`.
fn push_decimal(out: &mut Vec<char>, n: u128)
    ensures
        final(out)@ == old(out)@ + decimal(n as nat),
    decreases n,
{
    if n >= 10 {
        push_decimal(out, n / 10);
    }
    let d = (n % 10) as u8;
    out.push((48u8 + d) as char);
    proof {
        if n >= 10 {
            assert(decimal(n as nat) == decimal((n / 10) as nat).push(digit_char((n % 10) as nat)));
        } else {
            assert(decimal(n as nat) == seq![digit_char(n as nat)]);
        }
    }
}

/// Appends `whole + fractional_part / 10^l` to `out` as decimal text, the way
/// `decimal_text` describes. The digits after the point are gathered in a
/// buffer of nine, one per step while some are left and the precision allows;
/// where digits were dropped and the first of them is five or more, the buffer
/// is rounded up from its end, and a carry out of it goes into the whole part.
#[verifier::rlimit(40)]
fn fmt_decimal(
    out: &mut Vec<char>,
    integer_part: u64,
    fractional_part: u32,
    divisor: u32,
    precision: Option<usize>,
    Ghost(l): Ghost<nat>,
)
    requires
        l <= 9,
        fractional_part < pow10(l),
        l > 0 ==> divisor as nat * 10 == pow10(l),
    ensures
        final(out)@ == old(out)@ + decimal_text(
            integer_part as nat,
            fractional_part as nat,
            l,
            precision,
        ),
{
    let mut buf: Vec<u8> = Vec::new();
    let mut k: usize = 0;
    while k < 9
        invariant
            k <= 9,
            buf@ == repeat_byte(48, k as nat),
        decreases 9 - k,
    {
        buf.push(48u8);
        k += 1;
        proof {
            assert(buf@ == repeat_byte(48, k as nat));
        }
    }
    let limit: usize = match precision {
        Some(p) => p,
        None => 9,
    };
    let mut frac = fractional_part;
    let mut divisor = divisor;
    let mut pos: usize = 0;
    proof {
        lemma_pow10_values();
        assert(buf@.subrange(0, 0) == Seq::<u8>::empty());
        assert(digits_value(buf@.subrange(0, 0)) == 0);
    }
    while frac > 0 && pos < limit
        invariant
            l <= 9,
            pos <= l,
            pos <= limit,
            limit == (match precision {
                Some(p) => p,
                None => 9usize,
            }),
            buf@.len() == 9,
            all_digits(buf@),
            forall|i: int| pos <= i < 9 ==> buf@[i] == 48,
            fractional_part == digits_value(buf@.subrange(0, pos as int)) * pow10((l - pos) as nat)
                + frac,
            frac < pow10((l - pos) as nat),
            pos < l ==> divisor as nat * 10 == pow10((l - pos) as nat),
            frac == 0 && pos > 0 ==> buf@[pos - 1] != 48,
        decreases l - pos,
    {
        let ghost unit = pow10((l - pos) as nat);
        proof {
            if pos == l {
                assert(pow10(0) == 1);
            }
            lemma_pow10_pos((l - pos - 1) as nat);
        }
        let digit = frac / divisor;
        let ghost before = buf@;
        proof {
            assert(digit < 10) by (nonlinear_arith)
                requires
                    digit == frac / divisor,
                    frac < divisor * 10,
                    divisor > 0,
            ;
        }
        buf[pos] = 48u8 + digit as u8;
        let ghost v = digits_value(before.subrange(0, pos as int));
        proof {
            assert(buf@.subrange(0, pos as int) == before.subrange(0, pos as int));
            assert(buf@.subrange(0, pos + 1).drop_last() == buf@.subrange(0, pos as int));
            assert(digits_value(buf@.subrange(0, pos + 1)) == v * 10 + digit);
        }
        let ghost old_frac = frac;
        let ghost old_divisor = divisor;
        frac = frac % divisor;
        divisor = divisor / 10;
        pos += 1;
        proof {
            assert(old_frac == digit * old_divisor + frac && frac < old_divisor) by (nonlinear_arith)
                requires
                    digit == old_frac / old_divisor,
                    frac == old_frac % old_divisor,
                    old_divisor > 0,
            ;
            assert(unit == 10 * pow10((l - pos) as nat));
            assert(fractional_part == (v * 10 + digit) * pow10((l - pos) as nat) + frac)
                by (nonlinear_arith)
                requires
                    fractional_part == v * unit + old_frac,
                    old_frac == digit * old_divisor + frac,
                    old_divisor * 10 == unit,
                    unit == 10 * pow10((l - pos) as nat),
            ;
            if pos < l {
                assert(pow10((l - pos) as nat) == 10 * pow10((l - pos - 1) as nat));
            }
            if frac == 0 {
                assert(digit > 0) by (nonlinear_arith)
                    requires
                        old_frac == digit * old_divisor + frac,
                        frac == 0,
                        old_frac > 0,
                ;
                assert(buf@[pos - 1] == 48 + digit);
            }
            assert(all_digits(buf@));
        }
    }
    let mut carry_out: bool = false;
    let ghost kept = buf@;
    if frac > 0 && frac >= divisor * 5 {
        let ghost orig = buf@;
        let mut rev_pos = pos;
        let mut carry = true;
        proof {
            assert(buf@.subrange(pos as int, pos as int) == repeat_byte(48, 0));
            assert(orig.subrange(pos as int, pos as int) == repeat_byte(57, 0));
        }
        while carry && rev_pos > 0
            invariant
                rev_pos <= pos,
                pos < 9,
                buf@.len() == 9,
                orig.len() == 9,
                all_digits(buf@),
                all_digits(orig),
                forall|i: int| 0 <= i < rev_pos ==> buf@[i] == orig[i],
                forall|i: int| pos <= i < 9 ==> buf@[i] == orig[i],
                carry ==> buf@.subrange(rev_pos as int, pos as int) == repeat_byte(
                    48,
                    (pos - rev_pos) as nat,
                ),
                carry ==> orig.subrange(rev_pos as int, pos as int) == repeat_byte(
                    57,
                    (pos - rev_pos) as nat,
                ),
                !carry ==> digits_value(buf@.subrange(0, pos as int)) == digits_value(
                    orig.subrange(0, pos as int),
                ) + 1,
            decreases rev_pos,
        {
            rev_pos -= 1;
            let ghost before = buf@;
            if buf[rev_pos] < 57u8 {
                buf[rev_pos] = buf[rev_pos] + 1;
                carry = false;
                proof {
                    let x = orig.subrange(0, rev_pos as int);
                    let d = orig[rev_pos as int];
                    let m = (pos - rev_pos - 1) as nat;
                    assert(buf@.subrange(0, pos as int) == x.push((d + 1) as u8) + repeat_byte(48, m));
                    assert(orig.subrange(0, pos as int) == x.push(d) + repeat_byte(57, m));
                    lemma_value_append(x.push((d + 1) as u8), repeat_byte(48, m));
                    lemma_value_append(x.push(d), repeat_byte(57, m));
                    lemma_value_zeros(m);
                    lemma_value_nines(m);
                    assert(x.push((d + 1) as u8).drop_last() == x);
                    assert(x.push(d).drop_last() == x);
                    let vx = digits_value(x);
                    let p = pow10(m);
                    assert((vx * 10 + (d + 1 - 48)) * p == (vx * 10 + (d - 48)) * p + (p - 1) + 1)
                        by (nonlinear_arith);
                }
            } else {
                buf[rev_pos] = 48u8;
                proof {
                    let n = (pos - rev_pos - 1) as nat;
                    assert forall|i: int| rev_pos < i < pos implies #[trigger] buf@[i] == 48 by {
                        assert(before.subrange(rev_pos + 1, pos as int)[i - rev_pos - 1] == 48);
                    }
                    assert forall|i: int| rev_pos < i < pos implies #[trigger] orig[i] == 57 by {
                        assert(orig.subrange(rev_pos + 1, pos as int)[i - rev_pos - 1] == 57);
                    }
                    assert(before[rev_pos as int] == orig[rev_pos as int]);
                    assert(buf@[rev_pos as int] == 48);
                    assert forall|j: int| 0 <= j < pos - rev_pos implies buf@.subrange(
                        rev_pos as int,
                        pos as int,
                    )[j] == 48 by {
                        assert(buf@.subrange(rev_pos as int, pos as int)[j] == buf@[rev_pos + j]);
                        if j > 0 {
                            assert(buf@[rev_pos + j] == 48);
                        }
                    }
                    assert(buf@.subrange(rev_pos as int, pos as int) =~= repeat_byte(
                        48,
                        (pos - rev_pos) as nat,
                    ));
                    assert(orig.subrange(rev_pos as int, pos as int) =~= repeat_byte(
                        57,
                        (pos - rev_pos) as nat,
                    ));
                }
            }
        }
        carry_out = carry;
        proof {
            if carry {
                assert(buf@.subrange(0, pos as int) == repeat_byte(48, pos as nat));
                assert(orig.subrange(0, pos as int) == repeat_byte(57, pos as nat));
                lemma_value_zeros(pos as nat);
                lemma_value_nines(pos as nat);
            }
            assert(buf@.subrange(pos as int, 9) == kept.subrange(pos as int, 9));
        }
    }
    let ghost rounded = frac > 0 && frac >= divisor * 5;
    proof {
        if !rounded {
            assert(buf@ == kept);
        }
        assert(rounded ==> digits_value(buf@.subrange(0, pos as int)) + (if carry_out {
            pow10(pos as nat)
        } else {
            0
        }) == digits_value(kept.subrange(0, pos as int)) + 1);
    }
    let end: usize = match precision {
        Some(p) => if p < 9 {
            p
        } else {
            9
        },
        None => pos,
    };
    let whole: u128 = integer_part as u128 + if carry_out {
        1u128
    } else {
        0u128
    };
    let ghost start = out@;
    push_decimal(out, whole);
    if end > 0 {
        out.push('.');
        let ghost head = out@;
        let mut i: usize = 0;
        while i < end
            invariant
                i <= end,
                end <= 9,
                buf@.len() == 9,
                out@ == head + chars_of(buf@.subrange(0, i as int)),
            decreases end - i,
        {
            out.push(buf[i] as char);
            i += 1;
            proof {
                assert(chars_of(buf@.subrange(0, i as int)) == chars_of(
                    buf@.subrange(0, i - 1),
                ).push(buf@[i - 1] as char));
            }
        }
        let w: usize = match precision {
            Some(p) => p,
            None => pos,
        };
        while i < w
            invariant
                end <= i <= w,
                end <= 9,
                buf@.len() == 9,
                out@ == head + chars_of(buf@.subrange(0, end as int)) + repeat('0', (i - end) as nat),
            decreases w - i,
        {
            out.push('0');
            i += 1;
            proof {
                assert(repeat('0', (i - end) as nat) == repeat('0', (i - 1 - end) as nat).push('0'));
            }
        }
    }
    proof {
        let v = digits_value(kept.subrange(0, pos as int));
        let vb = digits_value(buf@.subrange(0, end as int));
        if pos == l {
            assert(pow10(0) == 1);
        }
        assert(all_digits(buf@.subrange(0, end as int)));
        lemma_value_fixed(buf@.subrange(0, end as int));
        if frac == 0 {
            assert(buf@ == kept);
            assert(buf@.subrange(0, end as int) == buf@.subrange(0, pos as int) + repeat_byte(
                48,
                (end - pos) as nat,
            ));
            lemma_value_append(buf@.subrange(0, pos as int), repeat_byte(48, (end - pos) as nat));
            lemma_value_zeros((end - pos) as nat);
            assert(vb == v * pow10((end - pos) as nat));
        }
        match precision {
            None => {
                let fx = fixed_digits(v, pos as nat);
                assert(all_digits(kept.subrange(0, pos as int)));
                lemma_value_fixed(kept.subrange(0, pos as int));
                lemma_fixed_shift(v, pos as nat, (l - pos) as nat);
                assert(pos + (l - pos) as nat == l);
                lemma_trim_zeros(fx, (l - pos) as nat);
                if pos > 0 {
                    assert(fx.last() == kept[pos - 1] as char);
                    assert(fx.last() != '0');
                } else {
                    assert(fx.len() == 0);
                }
                assert(trim_zeros(fx) == fx);
                assert(end as nat - pos as nat == 0);
                assert(out@ == start + decimal_text(
                    integer_part as nat,
                    fractional_part as nat,
                    l,
                    precision,
                ));
            },
            Some(p) => {
                let pe: nat = end as nat;
                let n = round_half_up(
                    (integer_part as nat * pow10(l) + fractional_part as nat) * pow10(pe),
                    pow10(l),
                );
                if frac == 0 {
                    lemma_round_exact(integer_part as nat, v, l, pos as nat, pe);
                    assert(n == integer_part * pow10(pe) + vb);
                } else {
                    lemma_round_cut(integer_part as nat, v, frac as nat, l, pe, divisor as nat);
                    if rounded {
                        assert(buf@.subrange(0, end as int) == buf@.subrange(0, pos as int));
                        assert(kept.subrange(0, end as int) == kept.subrange(0, pos as int));
                        assert(n == whole * pow10(pe) + vb) by (nonlinear_arith)
                            requires
                                n == integer_part * pow10(pe) + v + 1,
                                vb + (if carry_out {
                                    pow10(pe)
                                } else {
                                    0
                                }) == v + 1,
                                whole == integer_part + (if carry_out {
                                    1nat
                                } else {
                                    0nat
                                }),
                        ;
                    } else {
                        assert(buf@ == kept);
                        assert(buf@.subrange(0, end as int) == kept.subrange(0, pos as int));
                    }
                }
                assert(n == whole * pow10(pe) + vb);
                lemma_split(n, whole as nat, vb, pow10(pe));
                if p == 0 {
                    assert(pow10(0) == 1);
                    assert(vb == 0);
                }
                assert(out@ == start + decimal_text(
                    integer_part as nat,
                    fractional_part as nat,
                    l,
                    precision,
                ));
            },
        }
    }
}

/// Relies on `String`'s `FromIterator<char>`: collecting characters gives the
/// string of those characters in order.
#[verifier::external_body]
fn string_of_chars(chars: &Vec<char>) -> (r: String)
    ensures
        r@ == chars@,
{
    chars.iter().collect()
}

/// Appends `k` characters `c` to `out`.
fn push_repeat(out: &mut Vec<char>, c: char, k: usize)
    ensures
        final(out)@ == old(out)@ + repeat(c, k as nat),
{
    let ghost start = out@;
    let mut i: usize = 0;
    while i < k
        invariant
            i <= k,
            out@ == start + repeat(c, i as nat),
        decreases k - i,
    {
        out.push(c);
        i += 1;
        proof {
            assert(repeat(c, i as nat) == repeat(c, (i - 1) as nat).push(c));
        }
    }
}

/// The text of a span of `secs` seconds and `nanos` nanoseconds before
/// padding.
fn render_body(secs: u64, nanos: u32, options: &FormatOptions, Ghost(total): Ghost<nat>) -> (r: Vec<
    char,
>)
    requires
        nanos < NANOS_PER_SEC,
        total == secs as nat * NANOS_PER_SEC as nat + nanos as nat,
    ensures
        r@ == body_text(total, *options),
{
    proof {
        lemma_pow10_values();
    }
    let mut body: Vec<char> = Vec::new();
    if options.sign_plus {
        body.push('+');
    }
    if secs > 0 {
        fmt_decimal(&mut body, secs, nanos, NANOS_PER_SEC / 10, options.precision, Ghost(9));
        let ghost mid = body@;
        body.push('s');
        proof {
            assert(body@ =~= mid + seq!['s']);
            assert(unit_exp(total) == 9 && unit_suffix(total) == seq!['s']);
            assert(number_text(total, options.precision) == decimal_text(
                secs as nat,
                nanos as nat,
                9,
                options.precision,
            ));
        }
    } else if nanos >= NANOS_PER_MILLI {
        fmt_decimal(
            &mut body,
            (nanos / NANOS_PER_MILLI) as u64,
            nanos % NANOS_PER_MILLI,
            NANOS_PER_MILLI / 10,
            options.precision,
            Ghost(6),
        );
        let ghost mid = body@;
        body.push('m');
        body.push('s');
        proof {
            assert(body@ =~= mid + seq!['m', 's']);
            assert(total == nanos);
            assert(unit_exp(total) == 6 && unit_suffix(total) == seq!['m', 's']);
            assert(number_text(total, options.precision) == decimal_text(
                (nanos / NANOS_PER_MILLI) as nat,
                (nanos % NANOS_PER_MILLI) as nat,
                6,
                options.precision,
            ));
        }
    } else if nanos >= NANOS_PER_MICRO {
        fmt_decimal(
            &mut body,
            (nanos / NANOS_PER_MICRO) as u64,
            nanos % NANOS_PER_MICRO,
            NANOS_PER_MICRO / 10,
            options.precision,
            Ghost(3),
        );
        let ghost mid = body@;
        body.push('\u{b5}');
        body.push('s');
        proof {
            assert(body@ =~= mid + seq!['\u{b5}', 's']);
            assert(total == nanos);
            assert(unit_exp(total) == 3 && unit_suffix(total) == seq!['\u{b5}', 's']);
            assert(number_text(total, options.precision) == decimal_text(
                (nanos / NANOS_PER_MICRO) as nat,
                (nanos % NANOS_PER_MICRO) as nat,
                3,
                options.precision,
            ));
        }
    } else {
        fmt_decimal(&mut body, nanos as u64, 0, 1, options.precision, Ghost(0));
        let ghost mid = body@;
        body.push('n');
        body.push('s');
        proof {
            assert(body@ =~= mid + seq!['n', 's']);
            assert(total == nanos);
            assert(unit_exp(total) == 0 && unit_suffix(total) == seq!['n', 's']);
            assert(pow10(unit_exp(total)) == 1);
            assert(total / 1 == total && total % 1 == 0) by (nonlinear_arith);
            assert(number_text(total, options.precision) == decimal_text(
                nanos as nat,
                0,
                0,
                options.precision,
            ));
        }
    }
    proof {
        assert(body@ =~= body_text(total, *options));
    }
    body
}

/// `body` padded as `options` ask.
fn pad_text(body: Vec<char>, options: &FormatOptions) -> (r: Vec<char>)
    ensures
        r@ == padded(body@, *options),
{
    let len = body.len();
    match options.width {
        Some(w) => {
            if w > len {
                let pad = w - len;
                let pre = match options.align {
                    Some(Alignment::Right) => pad,
                    Some(Alignment::Center) => pad / 2,
                    _ => 0,
                };
                let mut text: Vec<char> = Vec::new();
                push_repeat(&mut text, options.fill, pre);
                let mut i: usize = 0;
                let ghost before = text@;
                while i < len
                    invariant
                        i <= len,
                        len == body@.len(),
                        text@ == before + body@.subrange(0, i as int),
                    decreases len - i,
                {
                    text.push(body[i]);
                    i += 1;
                    proof {
                        assert(body@.subrange(0, i as int) == body@.subrange(0, i - 1).push(
                            body@[i - 1],
                        ));
                    }
                }
                proof {
                    assert(body@.subrange(0, len as int) == body@);
                }
                push_repeat(&mut text, options.fill, pad - pre);
                text
            } else {
                body
            }
        },
        None => body,
    }
}

impl Duration {
    /// Renders the span as a decimal number in the largest unit (seconds,
    /// milliseconds, microseconds, nanoseconds) in which it is at least one,
    /// followed by the unit's suffix, as `options` ask.
    pub fn render(&self, options: &FormatOptions) -> (r: String)
        ensures
            r@ == rendered(self@, *options),
    {
        let secs = self.as_secs();
        let nanos = self.subsec_nanos();
        let body = render_body(secs, nanos, options, Ghost(self@));
        let text = pad_text(body, options);
        string_of_chars(&text)
    }
}

} // verus!
