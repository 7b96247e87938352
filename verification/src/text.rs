//! Numbers written out as text.

use vstd::prelude::*;

verus! {

/// `String::push`: the character goes to the end.
pub assume_specification[ String::push ](s: &mut String, c: char)
    ensures
        final(s)@ == old(s)@.push(c),
;

/// The digit for a number below sixteen.
pub open spec fn digit(n: nat) -> char {
    if n == 0 {
        '0'
    } else if n == 1 {
        '1'
    } else if n == 2 {
        '2'
    } else if n == 3 {
        '3'
    } else if n == 4 {
        '4'
    } else if n == 5 {
        '5'
    } else if n == 6 {
        '6'
    } else if n == 7 {
        '7'
    } else if n == 8 {
        '8'
    } else if n == 9 {
        '9'
    } else if n == 10 {
        'a'
    } else if n == 11 {
        'b'
    } else if n == 12 {
        'c'
    } else if n == 13 {
        'd'
    } else if n == 14 {
        'e'
    } else {
        'f'
    }
}

/// A number in decimal, without leading zeros.
pub open spec fn decimal(n: nat) -> Seq<char>
    decreases n,
{
    if n < 10 {
        seq![digit(n)]
    } else {
        decimal(n / 10).push(digit(n % 10))
    }
}

/// The last `width` hexadecimal digits of a number.
pub open spec fn hexadecimal(n: nat, width: nat) -> Seq<char>
    decreases width,
{
    if width == 0 {
        Seq::empty()
    } else {
        hexadecimal(n / 16, (width - 1) as nat).push(digit(n % 16))
    }
}

fn digit_char(n: u64) -> (r: char)
    requires
        n < 16,
    ensures
        r == digit(n as nat),
{
    match n {
        0 => '0',
        1 => '1',
        2 => '2',
        3 => '3',
        4 => '4',
        5 => '5',
        6 => '6',
        7 => '7',
        8 => '8',
        9 => '9',
        10 => 'a',
        11 => 'b',
        12 => 'c',
        13 => 'd',
        14 => 'e',
        _ => 'f',
    }
}

/// Writes a number in decimal to the end of a text.
pub fn push_decimal(s: &mut String, n: u64)
    ensures
        final(s)@ == old(s)@ + decimal(n as nat),
    decreases n,
{
    if n < 10 {
        s.push(digit_char(n));
    } else {
        push_decimal(s, n / 10);
        s.push(digit_char(n % 10));
    }
    assert(s@ =~= old(s)@ + decimal(n as nat));
}

/// Writes a large number in decimal to the end of a text.
pub fn push_decimal_u128(s: &mut String, n: u128)
    ensures
        final(s)@ == old(s)@ + decimal(n as nat),
    decreases n,
{
    if n < 10 {
        s.push(digit_char(n as u64));
    } else {
        push_decimal_u128(s, n / 10);
        s.push(digit_char((n % 10) as u64));
    }
    assert(s@ =~= old(s)@ + decimal(n as nat));
}

/// Writes the last `width` hexadecimal digits of a number to the end of a text.
pub fn push_hexadecimal(s: &mut String, n: u64, width: usize)
    ensures
        final(s)@ == old(s)@ + hexadecimal(n as nat, width as nat),
    decreases width,
{
    if width > 0 {
        push_hexadecimal(s, n / 16, width - 1);
        s.push(digit_char(n % 16));
    }
    assert(s@ =~= old(s)@ + hexadecimal(n as nat, width as nat));
}

/// The number that a digit stands for.
pub open spec fn value_of(c: char) -> nat {
    if c == '0' {
        0
    } else if c == '1' {
        1
    } else if c == '2' {
        2
    } else if c == '3' {
        3
    } else if c == '4' {
        4
    } else if c == '5' {
        5
    } else if c == '6' {
        6
    } else if c == '7' {
        7
    } else if c == '8' {
        8
    } else if c == '9' {
        9
    } else if c == 'a' {
        10
    } else if c == 'b' {
        11
    } else if c == 'c' {
        12
    } else if c == 'd' {
        13
    } else if c == 'e' {
        14
    } else {
        15
    }
}

/// The number that digits stand for in a base.
pub open spec fn number_of(s: Seq<char>, base: nat) -> nat
    decreases s.len(),
{
    if s.len() == 0 {
        0
    } else {
        number_of(s.drop_last(), base) * base + value_of(s.last())
    }
}

/// The decimal digits that are written stand for the number, without zeros in front, after what was
/// there before.
pub proof fn law_decimals_can_be_read(s: &mut String, n: u64)
    requires
        call_ensures(push_decimal, (s, n), ()),
    ensures
        ({
            let digits = final(s)@.skip(old(s)@.len() as int);
            &&& final(s)@ == old(s)@ + digits
            &&& number_of(digits, 10) == n
            &&& digits.len() > 0
            &&& n > 0 ==> digits[0] != '0'
        }),
{
    assert(final(s)@.skip(old(s)@.len() as int) =~= decimal(n as nat));
    lemma_decimal_reads_back(n as nat);
}

/// The decimal digits of a large number stand for it too.
pub proof fn law_large_decimals_can_be_read(s: &mut String, n: u128)
    requires
        call_ensures(push_decimal_u128, (s, n), ()),
    ensures
        ({
            let digits = final(s)@.skip(old(s)@.len() as int);
            &&& final(s)@ == old(s)@ + digits
            &&& number_of(digits, 10) == n
            &&& digits.len() > 0
            &&& n > 0 ==> digits[0] != '0'
        }),
{
    assert(final(s)@.skip(old(s)@.len() as int) =~= decimal(n as nat));
    lemma_decimal_reads_back(n as nat);
}

proof fn lemma_decimal_reads_back(n: nat)
    ensures
        number_of(decimal(n), 10) == n,
        decimal(n).len() > 0,
        n > 0 ==> decimal(n)[0] != '0',
    decreases n,
{
    reveal_with_fuel(number_of, 2);
    if n >= 10 {
        lemma_decimal_reads_back(n / 10);
        assert(decimal(n).drop_last() =~= decimal(n / 10));
        assert(value_of(digit(n % 10)) == n % 10);
    } else {
        assert(decimal(n).drop_last() =~= Seq::<char>::empty());
        assert(value_of(digit(n)) == n);
    }
}

/// The hexadecimal digits that are written stand for the number, as far as they are enough for it.
pub proof fn law_hexadecimals_can_be_read(s: &mut String, n: u64, width: usize)
    requires
        width >= 16,
        call_ensures(push_hexadecimal, (s, n, width), ()),
    ensures
        ({
            let digits = final(s)@.skip(old(s)@.len() as int);
            &&& final(s)@ == old(s)@ + digits
            &&& digits.len() == width
            &&& number_of(digits, 16) == n
        }),
{
    assert(final(s)@.skip(old(s)@.len() as int) =~= hexadecimal(n as nat, width as nat));
    assert(vstd::arithmetic::power::pow(16, 16) == u64::MAX + 1) by {
        reveal_with_fuel(vstd::arithmetic::power::pow, 17);
    }
    lemma_hexadecimal_reads_back(n as nat, width as nat, 16);
}

proof fn lemma_hexadecimal_reads_back(n: nat, width: nat, needed: nat)
    requires
        needed <= width,
        n < vstd::arithmetic::power::pow(16, needed),
    ensures
        hexadecimal(n, width).len() == width,
        number_of(hexadecimal(n, width), 16) == n,
    decreases width,
{
    reveal(vstd::arithmetic::power::pow);
    if width > 0 {
        let less = if needed == 0 {
            0nat
        } else {
            (needed - 1) as nat
        };
        assert(n / 16 < vstd::arithmetic::power::pow(16, less)) by {
            if needed > 0 {
                assert(vstd::arithmetic::power::pow(16, needed) == 16
                    * vstd::arithmetic::power::pow(16, less));
            }
        }
        lemma_hexadecimal_reads_back(n / 16, (width - 1) as nat, less);
        assert(hexadecimal(n, width).drop_last() =~= hexadecimal(n / 16, (width - 1) as nat));
        assert(value_of(digit(n % 16)) == n % 16);
    }
}

} // verus!
