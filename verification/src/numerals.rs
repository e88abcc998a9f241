//! Numbers as text: decimal numerals, written and read.

use vstd::prelude::*;

verus! {

broadcast use vstd::string::group_string_axioms;

/// The decimal digit of a number below ten.
pub open spec fn digit(d: int) -> char {
    (d + 48) as char
}

/// Whether a character is one of `0` to `9`.
pub open spec fn is_digit(c: char) -> bool {
    '0' <= c && c <= '9'
}

/// The number that a decimal digit stands for.
pub open spec fn digit_value(c: char) -> int {
    c as int - 48
}

/// A number in decimal, without leading zeros.
pub open spec fn decimal(n: nat) -> Seq<char>
    decreases n,
{
    if n < 10 {
        seq![digit(n as int)]
    } else {
        decimal(n / 10).push(digit((n % 10) as int))
    }
}

/// A number in decimal, filled up with zeros on the left to a least width.
pub open spec fn padded(n: nat, width: nat) -> Seq<char> {
    let short = width - decimal(n).len();
    if short > 0 {
        Seq::new(short as nat, |i: int| '0') + decimal(n)
    } else {
        decimal(n)
    }
}

/// Whether a text is made of digits alone, at least one.
pub open spec fn is_numeral(s: Seq<char>) -> bool {
    s.len() > 0 && forall|i: int| 0 <= i < s.len() ==> is_digit(#[trigger] s[i])
}

/// The number that a row of digits stands for.
pub open spec fn numeral_value(s: Seq<char>) -> int
    decreases s.len(),
{
    if s.len() == 0 {
        0
    } else {
        numeral_value(s.drop_last()) * 10 + digit_value(s.last())
    }
}

/// A text without the plus sign that a number may carry in front.
pub open spec fn unsigned_part(s: Seq<char>) -> Seq<char> {
    if s.len() > 0 && s[0] == '+' {
        s.skip(1)
    } else {
        s
    }
}

/// The number up to `max` that a text spells, with or without a plus sign.
pub open spec fn number(s: Seq<char>, max: int) -> Option<int> {
    let body = unsigned_part(s);
    if is_numeral(body) && numeral_value(body) <= max {
        Some(numeral_value(body))
    } else {
        None
    }
}

/// The decimal digit of a number below ten.
fn digit_of(d: u64) -> (c: char)
    requires
        d < 10,
    ensures
        c == digit(d as int),
{
    match d {
        0 => '0',
        1 => '1',
        2 => '2',
        3 => '3',
        4 => '4',
        5 => '5',
        6 => '6',
        7 => '7',
        8 => '8',
        _ => '9',
    }
}

/// A number in decimal.
pub fn decimal_of(n: u64) -> (r: String)
    ensures
        r@ == decimal(n as nat),
    decreases n,
{
    let mut r = if n < 10 {
        String::new()
    } else {
        decimal_of(n / 10)
    };
    r.push(digit_of(n % 10));
    assert(r@ == decimal(n as nat));
    r
}

/// A number in decimal, filled up with zeros on the left to a least width.
pub fn padded_of(n: u64, width: usize) -> (r: String)
    ensures
        r@ == padded(n as nat, width as nat),
{
    let digits = decimal_of(n);
    let len = digits.as_str().unicode_len();
    let mut r = String::new();
    let mut i: usize = len;
    while i < width
        invariant
            len == decimal(n as nat).len(),
            len <= i,
            i <= width || i == len,
            r@ == Seq::new((i - len) as nat, |k: int| '0'),
        decreases width - i,
    {
        r.push('0');
        i = i + 1;
        assert(r@ == Seq::new((i - len) as nat, |k: int| '0'));
    }
    r.append(digits.as_str());
    assert(r@ == padded(n as nat, width as nat));
    r
}

/// Whether a slice is made of digits alone, at least one.
pub fn all_digits(s: &[char]) -> (r: bool)
    ensures
        r == is_numeral(s@),
{
    for i in 0..s.len()
        invariant
            forall|j: int| 0 <= j < i ==> is_digit(#[trigger] s@[j]),
    {
        let c = s[i];
        if !('0' <= c && c <= '9') {
            return false;
        }
    }
    s.len() > 0
}

proof fn lemma_numeral_grows(s: Seq<char>, n: int)
    requires
        is_numeral(s),
        0 <= n <= s.len(),
    ensures
        0 <= numeral_value(s.take(n)) <= numeral_value(s),
    decreases s.len() - n,
{
    if n < s.len() {
        assert(s.take(n + 1).drop_last() == s.take(n));
        assert(is_digit(s[n]));
        lemma_numeral_nonnegative(s, n);
        lemma_numeral_grows(s, n + 1);
    } else {
        assert(s.take(n) == s);
        lemma_numeral_nonnegative(s, n);
    }
}

proof fn lemma_numeral_nonnegative(s: Seq<char>, n: int)
    requires
        is_numeral(s),
        0 <= n <= s.len(),
    ensures
        0 <= numeral_value(s.take(n)),
    decreases n,
{
    if n > 0 {
        assert(s.take(n).drop_last() == s.take(n - 1));
        assert(is_digit(s[n - 1]));
        lemma_numeral_nonnegative(s, n - 1);
    }
}

/// The number up to `max` that a slice spells, with or without a plus sign.
pub fn number_of(s: &[char], max: u32) -> (r: Option<u32>)
    ensures
        r == match number(s@, max as int) {
            Some(n) => Some(n as u32),
            None => None,
        },
        number(s@, max as int) matches Some(n) ==> 0 <= n <= max,
{
    let body = if s.len() > 0 && s[0] == '+' {
        vstd::slice::slice_subrange(s, 1, s.len())
    } else {
        s
    };
    assert(body@ == unsigned_part(s@));
    if !all_digits(body) {
        return None;
    }
    let mut value: u64 = 0;
    for i in 0..body.len()
        invariant
            is_numeral(body@),
            body@ == unsigned_part(s@),
            value == numeral_value(body@.take(i as int)),
            value <= max,
    {
        assert(is_digit(body@[i as int]));
        assert(body@.take(i + 1).drop_last() == body@.take(i as int));
        let c = body[i];
        value = value * 10 + (c as u32 - '0' as u32) as u64;
        proof {
            lemma_numeral_grows(body@, i + 1);
        }
        if value > max as u64 {
            return None;
        }
    }
    assert(body@.take(body@.len() as int) == body@);
    Some(value as u32)
}

/// A number written in decimal is read back as itself.
pub proof fn law_decimal_reads_back(n: nat, max: int)
    requires
        n <= max,
    ensures
        number(decimal(n), max) == Some(n as int),
{
    lemma_decimal(n);
    assert(unsigned_part(decimal(n)) == decimal(n)) by {
        assert(is_digit(decimal(n)[0]));
    }
}

/// A decimal numeral holds digits alone and stands for its number.
pub proof fn lemma_decimal(n: nat)
    ensures
        is_numeral(decimal(n)),
        numeral_value(decimal(n)) == n,
    decreases n,
{
    let s = decimal(n);
    if n < 10 {
        assert(s.drop_last() == Seq::<char>::empty());
        assert(numeral_value(s.drop_last()) == 0);
    } else {
        lemma_decimal(n / 10);
        assert(s.drop_last() == decimal(n / 10));
        assert forall|i: int| 0 <= i < s.len() implies is_digit(#[trigger] s[i]) by {
            if i < s.len() - 1 {
                assert(s[i] == decimal(n / 10)[i]);
            }
        }
    }
}

/// A number in decimal has no leading zero, holds nothing but the characters `0` to
/// `9`, and is not read where it is too large.
pub proof fn law_decimal_is_plain(n: nat, max: int)
    ensures
        decimal(n).len() > 0,
        n > 0 ==> decimal(n)[0] != '0',
        n == 0 ==> decimal(n) == seq!['0'],
        forall|i: int| 0 <= i < decimal(n).len() ==> '0' <= #[trigger] decimal(n)[i] <= '9',
        n > max ==> number(decimal(n), max) is None,
    decreases n,
{
    lemma_decimal(n);
    assert(is_digit(decimal(n)[0]));
    assert forall|i: int| 0 <= i < decimal(n).len() implies '0' <= #[trigger] decimal(n)[i]
        <= '9' by {
        assert(is_digit(decimal(n)[i]));
    }
    assert(unsigned_part(decimal(n)) == decimal(n));
    if n >= 10 {
        law_decimal_is_plain(n / 10, max);
        assert(decimal(n)[0] == decimal(n / 10)[0]);
    }
}

/// A number filled up with zeros is as long as asked for, or as long as it has to
/// be, and is read back as itself.
pub proof fn law_padding_keeps_the_number(n: nat, width: nat, max: int)
    ensures
        padded(n, width).len() == (if decimal(n).len() < width {
            width
        } else {
            decimal(n).len()
        }),
        forall|i: int|
            0 <= i < padded(n, width).len() ==> '0' <= #[trigger] padded(n, width)[i] <= '9',
        n <= max ==> number(padded(n, width), max) == Some(n as int),
{
    law_decimal_is_plain(n, max);
    lemma_decimal(n);
    let s = padded(n, width);
    assert forall|i: int| 0 <= i < s.len() implies '0' <= #[trigger] s[i] <= '9' by {
        let short = s.len() - decimal(n).len();
        if i >= short {
            assert(s[i] == decimal(n)[i - short]);
        }
    }
    if decimal(n).len() < width {
        lemma_leading_zeros((width - decimal(n).len()) as nat, decimal(n));
    }
    assert(is_numeral(s));
    assert(unsigned_part(s) == s);
}

proof fn lemma_leading_zeros(n: nat, s: Seq<char>)
    ensures
        numeral_value(Seq::new(n, |i: int| '0') + s) == numeral_value(s),
    decreases s.len(), n,
{
    let zeros = Seq::new(n, |i: int| '0');
    if s.len() > 0 {
        lemma_leading_zeros(n, s.drop_last());
        assert((zeros + s).drop_last() == zeros + s.drop_last());
        assert((zeros + s).last() == s.last());
    } else if n > 0 {
        let fewer = Seq::new((n - 1) as nat, |i: int| '0');
        lemma_leading_zeros((n - 1) as nat, s);
        assert((zeros + s).drop_last() == fewer + s);
        assert((zeros + s).last() == '0');
    } else {
        assert(zeros + s == s);
    }
}

/// What is read as a number is a row of the characters `0` to `9`, at least one,
/// perhaps behind one plus sign, and no larger than asked for.
pub proof fn law_a_number_is_made_of_digits(s: Seq<char>, max: int)
    requires
        number(s, max) is Some,
    ensures
        0 <= number(s, max)->0 <= max,
        ({
            let digits = if s[0] == '+' {
                s.skip(1)
            } else {
                s
            };
            &&& digits.len() > 0
            &&& forall|i: int| 0 <= i < digits.len() ==> '0' <= #[trigger] digits[i] <= '9'
        }),
{
    let body = unsigned_part(s);
    lemma_numeral_nonnegative(body, body.len() as int);
    assert(body.take(body.len() as int) == body);
    assert forall|i: int| 0 <= i < body.len() implies '0' <= #[trigger] body[i] <= '9' by {
        assert(is_digit(body[i]));
    }
}

/// Digits are read from the left, each ten times the weight of the one behind it; a
/// plus sign in front changes nothing.
pub proof fn law_digits_are_read_in_order(s: Seq<char>, c: char, max: int)
    requires
        '0' <= c <= '9',
    ensures
        number(seq![c], max) == (if c as int - '0' as int <= max {
            Some(c as int - '0' as int)
        } else {
            None
        }),
        number(s, max) matches Some(n) ==> number(s.push(c), max) == (if n * 10 + (c as int
            - '0' as int) <= max {
            Some(n * 10 + (c as int - '0' as int))
        } else {
            None
        }),
        s.len() > 0 && s[0] != '+' ==> number(seq!['+'] + s, max) == number(s, max),
{
    let one = seq![c];
    assert(one.drop_last() == Seq::<char>::empty());
    assert(numeral_value(one.drop_last()) == 0);
    assert(is_numeral(one));
    if number(s, max) is Some {
        let body = unsigned_part(s);
        let more = unsigned_part(s.push(c));
        assert(more == body.push(c));
        assert(more.drop_last() == body);
        assert forall|i: int| 0 <= i < more.len() implies is_digit(#[trigger] more[i]) by {
            if i < body.len() {
                assert(is_digit(body[i]));
            }
        }
    }
    if s.len() > 0 && s[0] != '+' {
        assert((seq!['+'] + s).skip(1) == s);
    }
}

} // verus!
