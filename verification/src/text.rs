//! Numbers as text.

use vstd::prelude::*;
use vstd::string::*;

verus! {

/// The digit with the value `d`, up to fifteen.
pub open spec fn digit(d: int) -> char {
    if d == 0 {
        '0'
    } else if d == 1 {
        '1'
    } else if d == 2 {
        '2'
    } else if d == 3 {
        '3'
    } else if d == 4 {
        '4'
    } else if d == 5 {
        '5'
    } else if d == 6 {
        '6'
    } else if d == 7 {
        '7'
    } else if d == 8 {
        '8'
    } else if d == 9 {
        '9'
    } else if d == 10 {
        'A'
    } else if d == 11 {
        'B'
    } else if d == 12 {
        'C'
    } else if d == 13 {
        'D'
    } else if d == 14 {
        'E'
    } else {
        'F'
    }
}

/// A number in base ten.
pub open spec fn decimal(n: int) -> Seq<char>
    decreases n,
{
    if n < 10 {
        seq![digit(n)]
    } else {
        decimal(n / 10).push(digit(n % 10))
    }
}

/// A number in base sixteen, with capital letters.
pub open spec fn hexadecimal(n: int) -> Seq<char>
    decreases n,
{
    if n < 16 {
        seq![digit(n)]
    } else {
        hexadecimal(n / 16).push(digit(n % 16))
    }
}

/// A number in base ten, with a sign where it is negative.
pub open spec fn signed_decimal(n: int) -> Seq<char> {
    if n < 0 {
        seq!['-'] + decimal(-n)
    } else {
        decimal(n)
    }
}

/// A truth value.
pub open spec fn truth(b: bool) -> Seq<char> {
    if b {
        "true"@
    } else {
        "false"@
    }
}

/// Adds a digit to a text.
fn push_digit(text: &mut String, d: u64)
    requires
        d < 16,
    ensures
        final(text)@ == old(text)@.push(digit(d as int)),
{
    proof {
        reveal_strlit("0");
        reveal_strlit("1");
        reveal_strlit("2");
        reveal_strlit("3");
        reveal_strlit("4");
        reveal_strlit("5");
        reveal_strlit("6");
        reveal_strlit("7");
        reveal_strlit("8");
        reveal_strlit("9");
        reveal_strlit("A");
        reveal_strlit("B");
        reveal_strlit("C");
        reveal_strlit("D");
        reveal_strlit("E");
        reveal_strlit("F");
    }
    let piece = match d {
        0 => "0",
        1 => "1",
        2 => "2",
        3 => "3",
        4 => "4",
        5 => "5",
        6 => "6",
        7 => "7",
        8 => "8",
        9 => "9",
        10 => "A",
        11 => "B",
        12 => "C",
        13 => "D",
        14 => "E",
        _ => "F",
    };
    assert(piece@ =~= seq![digit(d as int)]);
    text.append(piece);
    assert(text@ =~= old(text)@.push(digit(d as int)));
}

/// Adds a number in base ten to a text.
pub fn push_decimal(text: &mut String, n: u64)
    ensures
        final(text)@ == old(text)@ + decimal(n as int),
    decreases n,
{
    if n >= 10 {
        push_decimal(text, n / 10);
    }
    push_digit(text, n % 10);
    proof {
        if n >= 10 {
            assert(text@ =~= old(text)@ + decimal(n as int / 10).push(digit(n as int % 10)));
        } else {
            assert(text@ =~= old(text)@ + seq![digit(n as int)]);
        }
    }
}

/// Adds a number in base sixteen to a text.
pub fn push_hexadecimal(text: &mut String, n: u64)
    ensures
        final(text)@ == old(text)@ + hexadecimal(n as int),
    decreases n,
{
    if n >= 16 {
        push_hexadecimal(text, n / 16);
    }
    push_digit(text, n % 16);
    proof {
        if n >= 16 {
            assert(text@ =~= old(text)@ + hexadecimal(n as int / 16).push(digit(n as int % 16)));
        } else {
            assert(text@ =~= old(text)@ + seq![digit(n as int)]);
        }
    }
}

/// Adds a number with a sign to a text.
pub fn push_signed(text: &mut String, n: i64)
    ensures
        final(text)@ == old(text)@ + signed_decimal(n as int),
{
    if n < 0 {
        proof {
            reveal_strlit("-");
        }
        text.append("-");
        let magnitude: u64 = if n == i64::MIN {
            0x8000_0000_0000_0000
        } else {
            (-n) as u64
        };
        push_decimal(text, magnitude);
        assert(text@ =~= old(text)@ + signed_decimal(n as int));
    } else {
        push_decimal(text, n as u64);
    }
}

/// Adds a truth value to a text.
pub fn push_truth(text: &mut String, b: bool)
    ensures
        final(text)@ == old(text)@ + truth(b),
{
    if b {
        text.append("true");
    } else {
        text.append("false");
    }
}

/// A digit is the character that stands for its value: the figures from zero to nine, then the capital
/// letters from A to F.
pub proof fn lemma_digits(d: int)
    requires
        0 <= d < 16,
    ensures
        d < 10 ==> digit(d) as int == '0' as int + d,
        d >= 10 ==> digit(d) as int == 'A' as int + d - 10,
{
}

/// The value of a digit.
pub open spec fn value_of_digit(c: char) -> int {
    if '0' as int <= c as int <= '9' as int {
        c as int - '0' as int
    } else {
        c as int - 'A' as int + 10
    }
}

/// The number that some digits stand for in a base.
pub open spec fn number_of(digits: Seq<char>, base: int) -> int
    decreases digits.len(),
{
    if digits.len() == 0 {
        0
    } else {
        number_of(digits.drop_last(), base) * base + value_of_digit(digits.last())
    }
}

/// A number in base ten reads as itself, and has no zero in front.
pub proof fn lemma_decimal_reads_back(n: int)
    requires
        0 <= n,
    ensures
        number_of(decimal(n), 10) == n,
        decimal(n).len() > 0,
        n > 0 ==> decimal(n)[0] != '0',
        forall|i: int|
            0 <= i < decimal(n).len() ==> '0' as int <= #[trigger] decimal(n)[i] as int <= '9' as int,
    decreases n,
{
    lemma_digits(n % 10);
    if n < 10 {
        assert(decimal(n).drop_last() =~= Seq::<char>::empty());
        assert(number_of(Seq::<char>::empty(), 10) == 0);
    } else {
        lemma_decimal_reads_back(n / 10);
        assert(decimal(n).drop_last() =~= decimal(n / 10));
        assert(decimal(n)[0] == decimal(n / 10)[0]);
    }
}

/// A number in base sixteen reads as itself, and has no zero in front.
pub proof fn lemma_hexadecimal_reads_back(n: int)
    requires
        0 <= n,
    ensures
        number_of(hexadecimal(n), 16) == n,
        hexadecimal(n).len() > 0,
        n > 0 ==> hexadecimal(n)[0] != '0',
    decreases n,
{
    lemma_digits(n % 16);
    if n < 16 {
        lemma_digits(n);
        assert(hexadecimal(n).drop_last() =~= Seq::<char>::empty());
        assert(number_of(Seq::<char>::empty(), 16) == 0);
    } else {
        lemma_hexadecimal_reads_back(n / 16);
        assert(hexadecimal(n).drop_last() =~= hexadecimal(n / 16));
        assert(hexadecimal(n)[0] == hexadecimal(n / 16)[0]);
    }
}

/// A negative number is a minus sign and what its opposite is; any other has no sign.
pub proof fn lemma_signs(n: int)
    requires
        0 <= n,
    ensures
        signed_decimal(n) == decimal(n),
        n > 0 ==> signed_decimal(-n)[0] == '-' && signed_decimal(-n).skip(1) == decimal(n),
{
    if n > 0 {
        assert(signed_decimal(-n).skip(1) =~= decimal(n));
    }
}

/// A truth value is written out.
pub proof fn lemma_truth_values()
    ensures
        truth(true) == seq!['t', 'r', 'u', 'e'],
        truth(false) == seq!['f', 'a', 'l', 's', 'e'],
{
    reveal_strlit("true");
    reveal_strlit("false");
    assert(truth(true) =~= seq!['t', 'r', 'u', 'e']);
    assert(truth(false) =~= seq!['f', 'a', 'l', 's', 'e']);
}

} // verus!
