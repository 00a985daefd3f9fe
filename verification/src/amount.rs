//! Amounts of money as text: reading what a caller types as a number of
//! minor units, and writing a number of minor units for a report.

use crate::error::Error;
use vstd::prelude::*;
use vstd::string::*;

verus! {

pub open spec fn is_digit(c: char) -> bool {
    '0' <= c && c <= '9'
}

pub open spec fn digit(c: char) -> int {
    c as u32 as int - 48
}

pub open spec fn all_digits(s: Seq<char>) -> bool {
    forall|i: int| 0 <= i < s.len() ==> is_digit(#[trigger] s[i])
}

/// The number that a row of decimal digits denotes.
pub open spec fn number(s: Seq<char>) -> int
    decreases s.len(),
{
    if s.len() == 0 {
        0
    } else {
        10 * number(s.drop_last()) + digit(s.last())
    }
}

/// The place of the first `.` in `s`, or the length of `s` where it has none.
pub open spec fn first_dot(s: Seq<char>) -> int
    decreases s.len(),
{
    if s.len() == 0 {
        0
    } else if s[0] == '.' {
        0
    } else {
        1 + first_dot(s.drop_first())
    }
}

/// The hundredths that the digits behind the point denote.
pub open spec fn hundredths(fraction: Seq<char>) -> int {
    if fraction.len() == 0 {
        0
    } else if fraction.len() == 1 {
        10 * digit(fraction[0])
    } else {
        number(fraction)
    }
}

/// The amount in minor units that a text denotes. An amount is written as
/// one or more digits, and after them, if at all, a point and one or two
/// digits: `12`, `12.5` and `12.50` are amounts, `.5`, `12.` and `1.234`
/// are not, nor is anything with a sign.
pub open spec fn amount_of(text: Seq<char>) -> Option<int> {
    let dot = first_dot(text);
    let whole = text.take(dot);
    let fraction = if dot < text.len() {
        text.skip(dot + 1)
    } else {
        Seq::empty()
    };
    if whole.len() > 0 && all_digits(whole) && all_digits(fraction) && fraction.len() <= 2 && (dot
        < text.len() ==> fraction.len() >= 1) {
        Some(100 * number(whole) + hundredths(fraction))
    } else {
        None
    }
}

/// What reading an amount comes to: the amount where the text denotes one
/// that is positive and fits, else `InvalidInput`.
pub open spec fn amount_result(text: Seq<char>) -> Result<i64, Error> {
    match amount_of(text) {
        Some(v) => if 0 < v <= i64::MAX {
            Ok(v as i64)
        } else {
            Err(Error::InvalidInput)
        },
        None => Err(Error::InvalidInput),
    }
}

pub proof fn lemma_first_dot(s: Seq<char>, i: int)
    requires
        0 <= i <= s.len(),
        forall|k: int| 0 <= k < i ==> s[k] != '.',
    ensures
        first_dot(s) >= i,
        first_dot(s) <= s.len(),
        i < s.len() && s[i] == '.' ==> first_dot(s) == i,
        i == s.len() ==> first_dot(s) == i,
    decreases s.len(),
{
    if s.len() > 0 {
        if i == 0 {
            lemma_first_dot(s.drop_first(), 0);
        } else {
            lemma_first_dot(s.drop_first(), i - 1);
        }
    }
}

/// A row of digits denotes at least what each of its beginnings denotes.
pub proof fn lemma_number_grows(s: Seq<char>, k: int)
    requires
        all_digits(s),
        0 <= k <= s.len(),
    ensures
        0 <= number(s.take(k)) <= number(s),
    decreases s.len(),
{
    if s.len() == 0 {
        assert(s.take(k) =~= s);
    } else if k == s.len() {
        assert(s.take(k) =~= s);
        assert(all_digits(s.drop_last()));
        lemma_number_grows(s.drop_last(), k - 1);
        assert(is_digit(s.last()));
    } else {
        assert(all_digits(s.drop_last()));
        lemma_number_grows(s.drop_last(), k);
        assert(s.drop_last().take(k) =~= s.take(k));
        assert(is_digit(s.last()));
        lemma_number_grows(s.drop_last(), s.len() - 1);
        assert(s.drop_last().take(s.len() - 1) =~= s.drop_last());
    }
}

pub proof fn lemma_hundredths_bound(fraction: Seq<char>)
    requires
        all_digits(fraction),
        fraction.len() <= 2,
    ensures
        0 <= hundredths(fraction) <= 99,
{
    if fraction.len() == 1 {
        assert(is_digit(fraction[0]));
    } else if fraction.len() == 2 {
        assert(is_digit(fraction[0]));
        assert(is_digit(fraction[1]));
        assert(fraction.drop_last().drop_last() =~= Seq::<char>::empty());
        assert(number(Seq::<char>::empty()) == 0);
        assert(number(fraction.drop_last()) == digit(fraction[0]));
    }
}

/// Reads an amount of money, given in major units with up to two decimals,
/// as a number of minor units: `12.5` is read as 1250.
pub fn parse_amount(text: &str) -> (read: Result<i64, Error>)
    ensures
        read == amount_result(text@),
{
    let n = text.unicode_len();
    let mut value: u64 = 0;
    let mut i: usize = 0;
    let mut at_dot = false;
    proof {
        assert(text@.take(0) =~= Seq::empty());
    }
    while i < n && !at_dot
        invariant
            0 <= i <= n == text@.len(),
            forall|k: int| 0 <= k < i ==> text@[k] != '.',
            all_digits(text@.take(i as int)),
            value == number(text@.take(i as int)),
            value <= i64::MAX as u64 + 9,
            at_dot ==> i < n && text@[i as int] == '.',
        decreases n - i + if at_dot { 0int } else { 1int },
    {
        let c = text.get_char(i);
        if c == '.' {
            at_dot = true;
        } else {
            let ghost dot = first_dot(text@);
            proof {
                lemma_first_dot(text@, i + 1);
                assert(text@.take(dot).take(i + 1) =~= text@.take(i + 1));
                assert(text@.take(i + 1).drop_last() =~= text@.take(i as int));
            }
            if !(c >= '0' && c <= '9') {
                proof {
                    assert(!is_digit(text@.take(dot)[i as int]));
                }
                return Err(Error::InvalidInput);
            }
            if value > (i64::MAX as u64) / 10 {
                proof {
                    let whole = text@.take(dot);
                    let fraction = if dot < text@.len() {
                        text@.skip(dot + 1)
                    } else {
                        Seq::empty()
                    };
                    assert(is_digit(text@.take(i + 1).last()));
                    assert(number(text@.take(i + 1)) == 10 * value + digit(c));
                    if all_digits(whole) && all_digits(fraction) && fraction.len() <= 2 {
                        lemma_number_grows(whole, i + 1);
                        lemma_hundredths_bound(fraction);
                    }
                }
                return Err(Error::InvalidInput);
            }
            value = value * 10 + (c as u32 - 48) as u64;
            i += 1;
        }
    }
    proof {
        lemma_first_dot(text@, i as int);
    }
    if i == 0 {
        return Err(Error::InvalidInput);
    }
    let mut cents: u64 = 0;
    if at_dot {
        let rest = n - i - 1;
        if rest < 1 || rest > 2 {
            return Err(Error::InvalidInput);
        }
        let first = text.get_char(i + 1);
        if !(first >= '0' && first <= '9') {
            assert(!is_digit(text@.skip(i + 1)[0]));
            return Err(Error::InvalidInput);
        }
        cents = (first as u32 - 48) as u64 * 10;
        if rest == 2 {
            let second = text.get_char(i + 2);
            if !(second >= '0' && second <= '9') {
                assert(!is_digit(text@.skip(i + 1)[1]));
                return Err(Error::InvalidInput);
            }
            cents = cents + (second as u32 - 48) as u64;
            proof {
                let fraction = text@.skip(i + 1);
                assert(fraction.drop_last().drop_last() =~= Seq::<char>::empty());
                assert(number(Seq::<char>::empty()) == 0);
                assert(number(fraction.drop_last()) == digit(fraction[0]));
            }
        }
        assert(cents == hundredths(text@.skip(i + 1)));
    }
    let amount: u128 = (value as u128) * 100 + cents as u128;
    if amount == 0 || amount > i64::MAX as u128 {
        return Err(Error::InvalidInput);
    }
    Ok(amount as i64)
}

/// The character of a decimal digit.
pub open spec fn digit_char(d: int) -> char {
    if d == 0 {
        '0'
    } else if d == 1 {
        '1'
    } else if d == 2 {
        '2'
    } else if d == 3 {
        '3'
    } else if d == 4 {
        '4'
    } else if d == 5 {
        '5'
    } else if d == 6 {
        '6'
    } else if d == 7 {
        '7'
    } else if d == 8 {
        '8'
    } else {
        '9'
    }
}

/// The decimal digits of `n`, without leading zeros.
pub open spec fn decimal(n: nat) -> Seq<char>
    decreases n,
{
    if n < 10 {
        seq![digit_char(n as int)]
    } else {
        decimal(n / 10).push(digit_char((n % 10) as int))
    }
}

/// The text of an amount of minor units: a minus sign where it is
/// negative, the major units, a point, and two digits of minor units.
pub open spec fn amount_text(amount: int) -> Seq<char> {
    let magnitude = if amount < 0 {
        -amount
    } else {
        amount
    };
    let sign = if amount < 0 {
        seq!['-']
    } else {
        Seq::empty()
    };
    sign + decimal((magnitude / 100) as nat) + seq![
        '.',
        digit_char(magnitude % 100 / 10),
        digit_char(magnitude % 10),
    ]
}

fn digit_text(d: u8) -> (text: &'static str)
    requires
        d <= 9,
    ensures
        text@ == seq![digit_char(d as int)],
{
    proof {
        reveal_strlit("0");
        reveal_strlit("1");
        reveal_strlit("2");
        reveal_strlit("3");
        reveal_strlit("4");
        reveal_strlit("5");
        reveal_strlit("6");
        reveal_strlit("7");
        reveal_strlit("8");
        reveal_strlit("9");
    }
    let text = if d == 0 {
        "0"
    } else if d == 1 {
        "1"
    } else if d == 2 {
        "2"
    } else if d == 3 {
        "3"
    } else if d == 4 {
        "4"
    } else if d == 5 {
        "5"
    } else if d == 6 {
        "6"
    } else if d == 7 {
        "7"
    } else if d == 8 {
        "8"
    } else {
        "9"
    };
    assert(text@ =~= seq![digit_char(d as int)]);
    text
}

fn push_decimal(text: &mut String, n: u128)
    ensures
        final(text)@ == old(text)@ + decimal(n as nat),
    decreases n,
{
    if n >= 10 {
        push_decimal(text, n / 10);
    }
    let ghost before = text@;
    text.append(digit_text((n % 10) as u8));
    proof {
        if n >= 10 {
            assert(text@ =~= old(text)@ + decimal((n / 10) as nat).push(
                digit_char((n % 10) as int),
            ));
        } else {
            assert(text@ =~= old(text)@ + seq![digit_char(n as int)]);
        }
    }
}

/// Writes an amount of minor units in major units with two decimals:
/// 1250 is written `12.50`, and -5 is written `-0.05`.
pub fn format_amount(amount: i128) -> (text: String)
    ensures
        text@ == amount_text(amount as int),
{
    let magnitude: u128 = if amount == i128::MIN {
        0x8000_0000_0000_0000_0000_0000_0000_0000
    } else if amount < 0 {
        (-amount) as u128
    } else {
        amount as u128
    };
    let mut text = String::new();
    if amount < 0 {
        proof {
            reveal_strlit("-");
        }
        text.append("-");
    }
    let ghost sign = text@;
    push_decimal(&mut text, magnitude / 100);
    proof {
        reveal_strlit(".");
    }
    text.append(".");
    text.append(digit_text((magnitude % 100 / 10) as u8));
    text.append(digit_text((magnitude % 10) as u8));
    proof {
        assert(sign =~= if amount < 0 {
            seq!['-']
        } else {
            Seq::empty()
        });
        assert(text@ =~= amount_text(amount as int));
    }
    text
}

pub proof fn lemma_digit_char(d: int)
    requires
        0 <= d <= 9,
    ensures
        is_digit(digit_char(d)),
        digit(digit_char(d)) == d,
        digit_char(d) != '.',
{
}

/// The decimal digits of a number are digits, and denote the number.
pub proof fn lemma_decimal(n: nat)
    ensures
        decimal(n).len() >= 1,
        all_digits(decimal(n)),
        number(decimal(n)) == n,
    decreases n,
{
    if n < 10 {
        lemma_digit_char(n as int);
        assert(decimal(n).drop_last() =~= Seq::<char>::empty());
        assert(number(Seq::<char>::empty()) == 0);
    } else {
        lemma_decimal(n / 10);
        lemma_digit_char((n % 10) as int);
        assert(decimal(n).drop_last() =~= decimal(n / 10));
    }
}

/// A row of digits, a point and two digits denote the digits as major
/// units and the two digits as minor units.
pub proof fn lemma_amount_of_parts(whole: Seq<char>, tens: char, ones: char)
    requires
        whole.len() > 0,
        all_digits(whole),
        is_digit(tens),
        is_digit(ones),
    ensures
        amount_of(whole + seq!['.', tens, ones]) == Some(
            100 * number(whole) + 10 * digit(tens) + digit(ones),
        ),
{
    let text = whole + seq!['.', tens, ones];
    assert forall|k: int| 0 <= k < whole.len() implies text[k] != '.' by {
        assert(is_digit(whole[k]));
    }
    assert(text[whole.len() as int] == '.');
    lemma_first_dot(text, whole.len() as int);
    assert(text.take(whole.len() as int) =~= whole);
    let fraction = text.skip(whole.len() as int + 1);
    assert(fraction =~= seq![tens, ones]);
    assert(all_digits(fraction));
    assert(fraction.drop_last() =~= seq![tens]);
    assert(fraction.drop_last().drop_last() =~= Seq::<char>::empty());
    assert(number(Seq::<char>::empty()) == 0);
    assert(number(fraction.drop_last()) == digit(tens));
    assert(number(fraction) == 10 * digit(tens) + digit(ones));
    assert(hundredths(fraction) == 10 * digit(tens) + digit(ones));
}

/// What is written for an amount that is not negative is read back as
/// that amount.
pub proof fn lemma_read_written(amount: int)
    requires
        amount >= 0,
    ensures
        amount_of(amount_text(amount)) == Some(amount),
{
    let major = amount / 100;
    let tens = amount % 100 / 10;
    let ones = amount % 10;
    assert(amount == 100 * major + 10 * tens + ones && 0 <= tens <= 9 && 0 <= ones <= 9
        && major >= 0) by (nonlinear_arith)
        requires
            amount >= 0,
            major == amount / 100,
            tens == amount % 100 / 10,
            ones == amount % 10,
    ;
    lemma_decimal(major as nat);
    lemma_digit_char(tens);
    lemma_digit_char(ones);
    lemma_amount_of_parts(decimal(major as nat), digit_char(tens), digit_char(ones));
    assert(amount_text(amount) =~= decimal(major as nat) + seq![
        '.',
        digit_char(tens),
        digit_char(ones),
    ]);
}

} // verus!
