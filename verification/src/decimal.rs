//! Amounts as text: digits, a point, and up to nine digits behind it.

use vstd::prelude::*;

use crate::amount::SCALE;

verus! {

/// Gives `String::push` its meaning: the character goes to the end.
pub assume_specification[ String::push ](text: &mut String, c: char)
    ensures
        final(text)@ == old(text)@.push(c),
;

/// One of the ten digits.
pub open spec fn is_digit(c: char) -> bool {
    '0' <= c && c <= '9'
}

/// The number that a digit stands for.
pub open spec fn digit_value(c: char) -> int {
    c as int - 48
}

/// The digit that stands for a number below ten.
pub open spec fn digit_char(d: int) -> char {
    ((d + 48) as u8) as char
}

/// Ten to the power of `n`.
pub open spec fn pow10(n: nat) -> int
    decreases n,
{
    if n == 0 {
        1
    } else {
        10 * pow10((n - 1) as nat)
    }
}

/// What has been read of an amount: the number before the point, whether
/// the point was met, the number that the first digits behind it make, how
/// many of those digits count (nine at most), and how many digits were read
/// in all.
pub struct Scan {
    pub whole: int,
    pub dot: bool,
    pub frac: int,
    pub kept: int,
    pub digits: int,
}

/// `scan` with one more character, if it can follow.
pub open spec fn scan_next(scan: Scan, c: char) -> Option<Scan> {
    if is_digit(c) {
        if !scan.dot {
            Some(Scan { whole: scan.whole * 10 + digit_value(c), digits: scan.digits + 1, ..scan })
        } else if scan.kept < 9 {
            Some(
                Scan {
                    frac: scan.frac * 10 + digit_value(c),
                    kept: scan.kept + 1,
                    digits: scan.digits + 1,
                    ..scan
                },
            )
        } else {
            Some(Scan { digits: scan.digits + 1, ..scan })
        }
    } else if c == '.' && !scan.dot {
        Some(Scan { dot: true, ..scan })
    } else {
        None
    }
}

/// Reads `text` from left to right; `None` where it holds anything but
/// digits and one point.
pub open spec fn scan(text: Seq<char>) -> Option<Scan>
    decreases text.len(),
{
    if text.len() == 0 {
        Some(Scan { whole: 0, dot: false, frac: 0, kept: 0, digits: 0 })
    } else {
        match scan(text.drop_last()) {
            Some(earlier) => scan_next(earlier, text.last()),
            None => None,
        }
    }
}

/// The amount that a finished scan stands for. Digits behind the ninth are
/// dropped.
pub open spec fn scanned_amount(scan: Scan) -> int {
    scan.whole * SCALE + scan.frac * pow10((9 - scan.kept) as nat)
}

/// The amount that `text` stands for: digits, with or without a point among
/// them, at least one digit, and a value that fits in 64 bits.
pub open spec fn amount_of_text(text: Seq<char>) -> Option<int> {
    match scan(text) {
        Some(scan) => if scan.digits > 0 && scanned_amount(scan) <= u64::MAX {
            Some(scanned_amount(scan))
        } else {
            None
        },
        None => None,
    }
}

/// The digits of `value`, at least `width` of them, with zeros in front
/// where it has fewer.
pub open spec fn digits_of(value: int, width: int) -> Seq<char>
    decreases
            (if value > 0 {
                value
            } else {
                0
            }) + (if width > 0 {
                width
            } else {
                0
            }),
{
    if value < 10 && width <= 1 {
        seq![digit_char(value)]
    } else if value < 0 {
        seq![]
    } else {
        digits_of(value / 10, width - 1).push(digit_char(value % 10))
    }
}

/// The text of an amount: the whole units, a point, and nine digits.
pub open spec fn text_of_amount(amount: int) -> Seq<char> {
    digits_of(amount / (SCALE as int), 1) + seq!['.'] + digits_of(amount % (SCALE as int), 9)
}

/// The text of an amount that may be negative.
pub open spec fn text_of_signed(amount: int) -> Seq<char> {
    if amount < 0 {
        seq!['-'] + text_of_amount(-amount)
    } else {
        text_of_amount(amount)
    }
}

/// Ten to the power of up to nine.
proof fn lemma_pow10_values()
    ensures
        pow10(0) == 1,
        pow10(1) == 10,
        pow10(2) == 100,
        pow10(3) == 1_000,
        pow10(4) == 10_000,
        pow10(5) == 100_000,
        pow10(6) == 1_000_000,
        pow10(7) == 10_000_000,
        pow10(8) == 100_000_000,
        pow10(9) == 1_000_000_000,
{
    reveal_with_fuel(pow10, 11);
}

/// Reads an amount from text.
pub fn parse_amount(text: &str) -> (amount: Option<u64>)
    ensures
        match amount {
            Some(value) => amount_of_text(text@) == Some(value as int),
            None => amount_of_text(text@) is None,
        },
{
    let mut whole: u128 = 0;
    let mut too_large = false;
    let mut bad = false;
    let mut dot = false;
    let mut frac: u64 = 0;
    let mut kept: u32 = 0;
    let mut any_digit = false;
    assert(text@.take(0) =~= Seq::<char>::empty());
    for c in it: text.chars()
        invariant
            it.seq() == text@,
            bad <==> scan(text@.take(it.index() as int)) is None,
            !bad ==> ({
                let st = scan(text@.take(it.index() as int))->0;
                &&& st.dot == dot
                &&& st.frac == frac
                &&& st.kept == kept
                &&& kept <= 9
                &&& frac < pow10(kept as nat)
                &&& any_digit == (st.digits > 0)
                &&& st.digits >= 0
                &&& st.whole >= 0
                &&& !too_large ==> st.whole == whole && whole <= u64::MAX
                &&& too_large ==> st.whole > u64::MAX
            }),
    {
        let ghost prefix = text@.take(it.index() + 1);
        assert(prefix.drop_last() =~= text@.take(it.index() as int));
        assert(prefix.last() == c);
        proof {
            lemma_pow10_values();
        }
        if !bad {
            if c >= '0' && c <= '9' {
                let d = (c as u32 - 48) as u64;
                any_digit = true;
                if !dot {
                    if !too_large {
                        whole = whole * 10 + d as u128;
                        if whole > u64::MAX as u128 {
                            too_large = true;
                        }
                    }
                } else if kept < 9 {
                    frac = frac * 10 + d;
                    kept = kept + 1;
                }
            } else if c == '.' && !dot {
                dot = true;
            } else {
                bad = true;
            }
        }
    }
    assert(text@.take(text@.len() as int) =~= text@);
    if bad || !any_digit || too_large {
        proof {
            if !bad && too_large {
                let st = scan(text@)->0;
                lemma_pow10_values();
                assert(st.whole * SCALE >= st.whole) by (nonlinear_arith)
                    requires
                        st.whole >= 0,
                        SCALE >= 1,
                ;
                assert(st.frac * pow10((9 - st.kept) as nat) >= 0) by (nonlinear_arith)
                    requires
                        st.frac >= 0,
                        pow10((9 - st.kept) as nat) >= 0,
                ;
            }
        }
        return None;
    }
    let mut scale: u64 = 1;
    let mut k: u32 = kept;
    while k < 9
        invariant
            kept <= k <= 9,
            scale == pow10((k - kept) as nat),
        decreases 9 - k,
    {
        proof {
            lemma_pow10_values();
            reveal_with_fuel(pow10, 2);
        }
        scale = scale * 10;
        k = k + 1;
    }
    proof {
        lemma_pow10_values();
        assert(frac * scale < pow10(kept as nat) * pow10((9 - kept) as nat)) by (nonlinear_arith)
            requires
                0 <= frac < pow10(kept as nat),
                scale == pow10((9 - kept) as nat),
                scale > 0,
        ;
        lemma_pow10_sum(kept as nat, (9 - kept) as nat);
    }
    let value: u128 = whole * (SCALE as u128) + (frac as u128) * (scale as u128);
    if value > u64::MAX as u128 {
        None
    } else {
        Some(value as u64)
    }
}

/// Powers of ten multiply as their exponents add.
proof fn lemma_pow10_sum(a: nat, b: nat)
    ensures
        pow10(a) * pow10(b) == pow10(a + b),
        pow10(a) > 0,
    decreases a,
{
    if a == 0 {
        assert(pow10(0) * pow10(b) == pow10(b)) by (nonlinear_arith)
            requires
                pow10(0) == 1,
        ;
    } else {
        lemma_pow10_sum((a - 1) as nat, b);
        assert(10 * pow10((a - 1) as nat) * pow10(b) == 10 * (pow10((a - 1) as nat) * pow10(b)))
            by (nonlinear_arith);
    }
}

/// Writes the digits of `value` at the end of `out`, at least `width` of
/// them.
fn push_digits(out: &mut String, value: u128, width: u32)
    ensures
        final(out)@ == old(out)@ + digits_of(value as int, width as int),
{
    let ghost start = out@;
    let mut buffer: Vec<char> = Vec::new();
    let mut rest: u128 = value;
    let mut left: u32 = width;
    loop
        invariant_except_break
            digits_of(value as int, width as int) == digits_of(rest as int, left as int)
                + buffer@.reverse(),
        ensures
            digits_of(value as int, width as int) == buffer@.reverse(),
        decreases rest + left,
    {
        let ghost earlier = buffer@;
        if rest < 10 && left <= 1 {
            buffer.push(((rest as u8) + 48) as char);
            assert(buffer@.reverse() =~= seq![digit_char(rest as int)] + earlier.reverse());
            break ;
        }
        buffer.push((((rest % 10) as u8) + 48) as char);
        assert(buffer@.reverse() =~= seq![digit_char(rest as int % 10)] + earlier.reverse());
        assert(digits_of(rest as int / 10, left as int - 1).push(digit_char(rest as int % 10))
            + earlier.reverse() =~= digits_of(rest as int / 10, left as int - 1) + (seq![
            digit_char(rest as int % 10),
        ] + earlier.reverse()));
        rest = rest / 10;
        if left > 0 {
            left = left - 1;
        } else {
            assert(digits_of(rest as int, -1) == digits_of(rest as int, 0)) by {
                lemma_width_floor(rest as int, -1);
            }
        }
    }
    let mut i: usize = buffer.len();
    while i > 0
        invariant
            i <= buffer.len(),
            out@ == start + buffer@.reverse().take(buffer.len() - i),
        decreases i,
    {
        i = i - 1;
        out.push(buffer[i]);
        assert(out@ =~= start + buffer@.reverse().take(buffer.len() - i));
    }
    assert(buffer@.reverse().take(buffer.len() as int) =~= buffer@.reverse());
}

/// A width below one asks for no more than a width of one does, but for the
/// single digit of a number below ten.
proof fn lemma_width_floor(value: int, width: int)
    requires
        value >= 0,
        width <= 0,
    ensures
        digits_of(value, width) == digits_of(value, 0),
    decreases value,
{
    if value >= 10 {
        lemma_width_floor(value / 10, width - 1);
        lemma_width_floor(value / 10, -1);
    }
}

/// Writes an amount as text: the whole units, a point, nine digits.
pub fn format_amount(amount: u128) -> (text: String)
    ensures
        text@ == text_of_amount(amount as int),
{
    let mut text = String::new();
    push_digits(&mut text, amount / (SCALE as u128), 1);
    text.push('.');
    push_digits(&mut text, amount % (SCALE as u128), 9);
    assert(text@ =~= text_of_amount(amount as int));
    text
}

/// Writes an amount that may be negative.
pub fn format_signed_amount(amount: i128) -> (text: String)
    ensures
        text@ == text_of_signed(amount as int),
{
    let mut text = String::new();
    let magnitude: u128 = if amount < 0 {
        text.push('-');
        ((-(amount + 1)) as u128) + 1
    } else {
        amount as u128
    };
    push_digits(&mut text, magnitude / (SCALE as u128), 1);
    text.push('.');
    push_digits(&mut text, magnitude % (SCALE as u128), 9);
    assert(text@ =~= text_of_signed(amount as int));
    text
}

/// The digits of a number read back give the number.
proof fn lemma_scan_of_digits(value: int, width: int)
    requires
        value >= 0,
    ensures
        scan(digits_of(value, width)) is Some,
        scan(digits_of(value, width))->0.whole == value,
        !scan(digits_of(value, width))->0.dot,
        scan(digits_of(value, width))->0.frac == 0,
        scan(digits_of(value, width))->0.kept == 0,
        scan(digits_of(value, width))->0.digits > 0,
    decreases
            value + (if width > 0 {
                width
            } else {
                0
            }),
{
    let text = digits_of(value, width);
    if value < 10 && width <= 1 {
        assert(text.drop_last() =~= Seq::<char>::empty());
        assert(text.last() == digit_char(value));
        assert(scan(text.drop_last()) == Some(
            Scan { whole: 0, dot: false, frac: 0, kept: 0, digits: 0 },
        ));
    } else {
        lemma_scan_of_digits(value / 10, width - 1);
        let front = digits_of(value / 10, width - 1);
        assert(text.drop_last() =~= front);
        assert(text.last() == digit_char(value % 10));
    }
}

/// Behind a point just read, `width` digits of a number below ten to the
/// `width` read back give the number.
proof fn lemma_scan_of_fraction(front: Seq<char>, value: int, width: int)
    requires
        scan(front) is Some,
        scan(front)->0.dot,
        scan(front)->0.kept == 0,
        scan(front)->0.frac == 0,
        1 <= width <= 9,
        0 <= value < pow10(width as nat),
    ensures
        scan(front + digits_of(value, width)) == Some(
            Scan {
                frac: value,
                kept: width,
                digits: scan(front)->0.digits + width,
                ..scan(front)->0
            },
        ),
    decreases width,
{
    let digits = digits_of(value, width);
    let text = front + digits;
    lemma_pow10_values();
    if width == 1 {
        assert(value < 10);
        assert(text.drop_last() =~= front);
        assert(text.last() == digit_char(value));
    } else {
        reveal_with_fuel(pow10, 2);
        lemma_scan_of_fraction(front, value / 10, width - 1);
        assert(text.drop_last() =~= front + digits_of(value / 10, width - 1));
        assert(text.last() == digit_char(value % 10));
    }
}

/// Round trip: the text written for an amount that fits in 64 bits reads
/// back as that amount.
pub proof fn lemma_text_round_trip(amount: int)
    requires
        0 <= amount <= u64::MAX,
    ensures
        amount_of_text(text_of_amount(amount)) == Some(amount),
{
    let s = SCALE as int;
    let whole = digits_of(amount / s, 1);
    lemma_scan_of_digits(amount / s, 1);
    let front = whole + seq!['.'];
    assert(front.drop_last() =~= whole);
    assert(front.last() == '.');
    lemma_pow10_values();
    lemma_scan_of_fraction(front, amount % s, 9);
    assert(text_of_amount(amount) =~= front + digits_of(amount % s, 9));
    vstd::arithmetic::div_mod::lemma_fundamental_div_mod(amount, s);
    assert((amount / s) * s == s * (amount / s)) by (nonlinear_arith);
}

} // verus!
