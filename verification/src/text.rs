//! Text that the library composes.

use vstd::prelude::*;
use vstd::string::{StringExecFns, StrSliceExecFns};

verus! {

/// The character of a decimal digit.
pub open spec fn digit(d: int) -> char {
    if d == 0 {
        '0'
    } else if d == 1 {
        '1'
    } else if d == 2 {
        '2'
    } else if d == 3 {
        '3'
    } else if d == 4 {
        '4'
    } else if d == 5 {
        '5'
    } else if d == 6 {
        '6'
    } else if d == 7 {
        '7'
    } else if d == 8 {
        '8'
    } else {
        '9'
    }
}

/// A number in decimal, without leading zeros.
pub open spec fn decimal(n: nat) -> Seq<char>
    decreases n,
{
    if n < 10 {
        seq![digit(n as int)]
    } else {
        decimal(n / 10).push(digit((n % 10) as int))
    }
}

fn digit_text(d: usize) -> (text: &'static str)
    requires
        d < 10,
    ensures
        text@ == seq![digit(d as int)],
{
    proof {
        reveal_strlit("0");
        reveal_strlit("1");
        reveal_strlit("2");
        reveal_strlit("3");
        reveal_strlit("4");
        reveal_strlit("5");
        reveal_strlit("6");
        reveal_strlit("7");
        reveal_strlit("8");
        reveal_strlit("9");
    }
    let text: &'static str = if d == 0 {
        "0"
    } else if d == 1 {
        "1"
    } else if d == 2 {
        "2"
    } else if d == 3 {
        "3"
    } else if d == 4 {
        "4"
    } else if d == 5 {
        "5"
    } else if d == 6 {
        "6"
    } else if d == 7 {
        "7"
    } else if d == 8 {
        "8"
    } else {
        "9"
    };
    proof {
        assert(text@ =~= seq![digit(d as int)]);
    }
    text
}

/// Writes a number in decimal.
pub fn decimal_text(n: usize) -> (text: String)
    ensures
        text@ == decimal(n as nat),
    decreases n,
{
    if n < 10 {
        String::from_str(digit_text(n))
    } else {
        let mut text: String = decimal_text(n / 10);
        text.append(digit_text(n % 10));
        proof {
            assert(text@ =~= decimal(n as nat));
        }
        text
    }
}

/// One text behind the other.
pub fn concatenated(first: &str, second: &str) -> (text: String)
    ensures
        text@ == first@ + second@,
{
    let mut text: String = String::from_str(first);
    text.append(second);
    text
}

/// Three texts, one behind the other.
pub fn enclosed(first: &str, second: &str, third: &str) -> (text: String)
    ensures
        text@ == first@ + second@ + third@,
{
    let mut text: String = String::from_str(first);
    text.append(second);
    text.append(third);
    text
}

/// What a character counts for as a decimal digit.
pub open spec fn digit_value(c: char) -> int {
    c as int - '0' as int
}

/// The number that a text of decimal digits stands for: the last digit counts for
/// itself, each digit before it ten times as much as the one behind.
pub open spec fn number_in(digits: Seq<char>) -> int
    decreases digits.len(),
{
    if digits.len() == 0 {
        0
    } else {
        10 * number_in(digits.drop_last()) + digit_value(digits.last())
    }
}

/// Every character is a decimal digit, and the first is not a zero unless it is alone.
pub open spec fn is_plain_number(digits: Seq<char>) -> bool {
    &&& digits.len() > 0
    &&& forall|i: int| 0 <= i < digits.len() ==> 0 <= #[trigger] digit_value(digits[i]) <= 9
    &&& digits.len() > 1 ==> digits[0] != '0'
}

/// A number written in decimal can be read back.
pub proof fn law_decimal_reads_back(n: nat)
    ensures
        number_in(decimal(n)) == n,
        is_plain_number(decimal(n)),
        n > 0 ==> decimal(n)[0] != '0',
    decreases n,
{
    let text = decimal(n);
    if n < 10 {
        assert(text.drop_last() =~= Seq::empty());
        assert(number_in(text.drop_last()) == 0);
    } else {
        law_decimal_reads_back(n / 10);
        let head = decimal(n / 10);
        assert(text.drop_last() =~= head);
        assert forall|i: int| 0 <= i < text.len() implies 0 <= #[trigger] digit_value(text[i])
            <= 9 by {
            if i < head.len() {
                assert(text[i] == head[i]);
                assert(0 <= digit_value(head[i]) <= 9);
            }
        }
        assert(text[0] == head[0]);
    }
}

proof fn lemma_plain_number_is_positive(digits: Seq<char>)
    requires
        digits.len() > 0,
        digits[0] != '0',
        forall|i: int| 0 <= i < digits.len() ==> 0 <= #[trigger] digit_value(digits[i]) <= 9,
    ensures
        number_in(digits) > 0,
    decreases digits.len(),
{
    assert(0 <= digit_value(digits[0]) <= 9);
    let head = digits.drop_last();
    assert(0 <= digit_value(digits[digits.len() - 1]) <= 9);
    if digits.len() > 1 {
        assert forall|i: int| 0 <= i < head.len() implies 0 <= #[trigger] digit_value(head[i])
            <= 9 by {
            assert(0 <= digit_value(digits[i]) <= 9);
        }
        lemma_plain_number_is_positive(head);
    } else {
        assert(number_in(head) == 0);
    }
}

/// Only one text of digits stands for a number, but for leading zeros.
pub proof fn lemma_plain_numbers_are_unique(one: Seq<char>, other: Seq<char>)
    requires
        is_plain_number(one),
        is_plain_number(other),
        number_in(one) == number_in(other),
    ensures
        one == other,
    decreases one.len(),
{
    let (head, tail) = (one.drop_last(), other.drop_last());
    let (x, y) = (digit_value(one.last()), digit_value(other.last()));
    assert(0 <= digit_value(one[one.len() - 1]) <= 9);
    assert(0 <= digit_value(other[other.len() - 1]) <= 9);
    assert(number_in(one) == 10 * number_in(head) + x);
    assert(number_in(other) == 10 * number_in(tail) + y);
    assert(x == y && number_in(head) == number_in(tail));
    assert forall|i: int| 0 <= i < head.len() implies 0 <= #[trigger] digit_value(head[i])
        <= 9 by {
        assert(0 <= digit_value(one[i]) <= 9);
    }
    assert forall|i: int| 0 <= i < tail.len() implies 0 <= #[trigger] digit_value(tail[i])
        <= 9 by {
        assert(0 <= digit_value(other[i]) <= 9);
    }
    if head.len() > 0 {
        lemma_plain_number_is_positive(head);
    } else {
        assert(number_in(head) == 0);
    }
    if tail.len() > 0 {
        lemma_plain_number_is_positive(tail);
    } else {
        assert(number_in(tail) == 0);
    }
    if head.len() > 0 && tail.len() > 0 {
        lemma_plain_numbers_are_unique(head, tail);
    } else {
        assert(head =~= tail);
    }
    assert(one =~= head.push(one.last()));
    assert(other =~= tail.push(other.last()));
}

/// Different numbers are written differently.
pub proof fn law_decimal_tells_numbers_apart(m: nat, n: nat)
    ensures
        decimal(m) == decimal(n) <==> m == n,
{
    law_decimal_reads_back(m);
    law_decimal_reads_back(n);
}

/// A number that the library writes can be read back, and two texts are the same only
/// for the same number.
pub proof fn law_written_numbers_read_back(n: usize, text: String)
    requires
        call_ensures(decimal_text, (n,), text),
    ensures
        is_plain_number(text@),
        number_in(text@) == n,
{
    law_decimal_reads_back(n as nat);
}

/// The text ends with another.
pub open spec fn ends_with(text: Seq<char>, tail: Seq<char>) -> bool {
    text.len() >= tail.len() && text.skip(text.len() - tail.len()) == tail
}

/// A text ends with what was put behind it.
pub proof fn lemma_ends_with(head: Seq<char>, tail: Seq<char>)
    ensures
        ends_with(head + tail, tail),
{
    assert((head + tail).skip(head.len() as int) =~= tail);
}

} // verus!
