//! The identifiers that the store hands out: a letter for the table and a
//! running number in decimal.

use vstd::prelude::*;

verus! {

/// The character of a decimal digit.
pub open spec fn digit(d: nat) -> char {
    if d == 0 {
        '0'
    } else if d == 1 {
        '1'
    } else if d == 2 {
        '2'
    } else if d == 3 {
        '3'
    } else if d == 4 {
        '4'
    } else if d == 5 {
        '5'
    } else if d == 6 {
        '6'
    } else if d == 7 {
        '7'
    } else if d == 8 {
        '8'
    } else {
        '9'
    }
}

/// A number in decimal, without leading zeros.
pub open spec fn decimal(n: nat) -> Seq<char>
    decreases n,
{
    if n < 10 {
        seq![digit(n)]
    } else {
        decimal(n / 10).push(digit(n % 10))
    }
}

/// The identifier of the travel with the running number `number`.
pub open spec fn travel_identifier(number: u64) -> Seq<char> {
    seq!['T'] + decimal(number as nat)
}

/// The identifier of the move with the running number `number`.
pub open spec fn move_identifier(number: u64) -> Seq<char> {
    seq!['M'] + decimal(number as nat)
}

/// The running number that follows `number`. After the last one the
/// numbers start again.
pub open spec fn successor(number: u64) -> u64 {
    if number == u64::MAX {
        0
    } else {
        (number + 1) as u64
    }
}

/// Computes the running number that follows `number`.
pub fn next_number(number: u64) -> (next: u64)
    ensures
        next == successor(number),
{
    if number == u64::MAX {
        0
    } else {
        number + 1
    }
}

fn digit_text(d: u64) -> (text: &'static str)
    requires
        d < 10,
    ensures
        text@ == seq![digit(d as nat)],
{
    proof {
        reveal_strlit("0");
        reveal_strlit("1");
        reveal_strlit("2");
        reveal_strlit("3");
        reveal_strlit("4");
        reveal_strlit("5");
        reveal_strlit("6");
        reveal_strlit("7");
        reveal_strlit("8");
        reveal_strlit("9");
    }
    let text: &'static str = match d {
        0 => "0",
        1 => "1",
        2 => "2",
        3 => "3",
        4 => "4",
        5 => "5",
        6 => "6",
        7 => "7",
        8 => "8",
        _ => "9",
    };
    assert(text@ =~= seq![digit(d as nat)]);
    text
}

fn append_decimal(text: &mut String, n: u64)
    ensures
        final(text)@ == old(text)@ + decimal(n as nat),
    decreases n,
{
    if n >= 10 {
        append_decimal(text, n / 10);
    }
    text.append(digit_text(n % 10));
    proof {
        if n >= 10 {
            assert(old(text)@ + decimal((n / 10) as nat) + seq![digit((n % 10) as nat)] =~= old(
                text,
            )@ + decimal((n / 10) as nat).push(digit((n % 10) as nat)));
        }
    }
}

/// Writes the identifier of the travel with the running number `number`.
pub fn render_travel_identifier(number: u64) -> (text: String)
    ensures
        text@ == travel_identifier(number),
{
    proof {
        reveal_strlit("T");
    }
    let mut text = "T".to_owned();
    append_decimal(&mut text, number);
    assert(text@ =~= travel_identifier(number));
    text
}

/// Writes the identifier of the move with the running number `number`.
pub fn render_move_identifier(number: u64) -> (text: String)
    ensures
        text@ == move_identifier(number),
{
    proof {
        reveal_strlit("M");
    }
    let mut text = "M".to_owned();
    append_decimal(&mut text, number);
    assert(text@ =~= move_identifier(number));
    text
}

/// Two numbers that are written alike are one number.
pub proof fn lemma_decimal_injective(a: nat, b: nat)
    requires
        decimal(a) == decimal(b),
    ensures
        a == b,
    decreases a,
{
    lemma_decimal_length(a);
    lemma_decimal_length(b);
    if a < 10 {
        assert(decimal(a)[0] == digit(a));
        assert(decimal(b)[0] == digit(b));
    } else {
        assert(decimal(a).drop_last() =~= decimal(a / 10));
        assert(decimal(b).drop_last() =~= decimal(b / 10));
        assert(decimal(a).last() == digit(a % 10));
        assert(decimal(b).last() == digit(b % 10));
        lemma_decimal_injective(a / 10, b / 10);
    }
}

/// A number below ten is written with one digit, every other number with
/// more.
pub proof fn lemma_decimal_length(n: nat)
    ensures
        decimal(n).len() >= 1,
        decimal(n).len() == 1 <==> n < 10,
    decreases n,
{
    if n >= 10 {
        lemma_decimal_length(n / 10);
    }
}

/// Different running numbers give different identifiers: the store hands
/// out no identifier twice before the numbers start again.
pub proof fn lemma_identifiers_distinct(a: u64, b: u64)
    requires
        a != b,
    ensures
        travel_identifier(a) != travel_identifier(b),
        move_identifier(a) != move_identifier(b),
{
    if travel_identifier(a) == travel_identifier(b) {
        assert(travel_identifier(a).skip(1) =~= decimal(a as nat));
        assert(travel_identifier(b).skip(1) =~= decimal(b as nat));
        lemma_decimal_injective(a as nat, b as nat);
    }
    if move_identifier(a) == move_identifier(b) {
        assert(move_identifier(a).skip(1) =~= decimal(a as nat));
        assert(move_identifier(b).skip(1) =~= decimal(b as nat));
        lemma_decimal_injective(a as nat, b as nat);
    }
}

} // verus!
