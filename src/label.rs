//! The text shown inside a cell: blank, or its distance from the root.

use vstd::prelude::*;
use vstd::string::StringExecFns;

verus! {

/// The decimal digit character for `d`.
pub open spec fn digit_char(d: nat) -> char {
    if d == 0 {
        '0'
    } else if d == 1 {
        '1'
    } else if d == 2 {
        '2'
    } else if d == 3 {
        '3'
    } else if d == 4 {
        '4'
    } else if d == 5 {
        '5'
    } else if d == 6 {
        '6'
    } else if d == 7 {
        '7'
    } else if d == 8 {
        '8'
    } else {
        '9'
    }
}

/// The decimal digits of `n`, most significant first, with no leading zero.
pub open spec fn decimal(n: nat) -> Seq<char>
    decreases n,
{
    if n < 10 {
        seq![digit_char(n)]
    } else {
        decimal(n / 10) + seq![digit_char(n % 10)]
    }
}

/// The text of a cell: four blanks when it has no distance; otherwise the
/// distance in decimal, padded with zeros to two digits, between two
/// blanks.
pub open spec fn label_text(d: Option<u32>) -> Seq<char> {
    match d {
        None => seq![' ', ' ', ' ', ' '],
        Some(n) => seq![' '] + (if n < 10 {
            seq!['0']
        } else {
            Seq::empty()
        }) + decimal(n as nat) + seq![' '],
    }
}

fn digit_str(d: u32) -> (r: &'static str)
    requires
        d < 10,
    ensures
        r@ == seq![digit_char(d as nat)],
{
    proof {
        reveal_strlit("0");
        reveal_strlit("1");
        reveal_strlit("2");
        reveal_strlit("3");
        reveal_strlit("4");
        reveal_strlit("5");
        reveal_strlit("6");
        reveal_strlit("7");
        reveal_strlit("8");
        reveal_strlit("9");
    }
    match d {
        0 => "0",
        1 => "1",
        2 => "2",
        3 => "3",
        4 => "4",
        5 => "5",
        6 => "6",
        7 => "7",
        8 => "8",
        _ => "9",
    }
}

fn append_decimal(s: &mut String, n: u32)
    ensures
        final(s)@ == old(s)@ + decimal(n as nat),
    decreases n,
{
    if n >= 10 {
        append_decimal(s, n / 10);
    }
    s.append(digit_str(n % 10));
    assert(s@ =~= old(s)@ + decimal(n as nat));
}

/// The text of a cell whose recorded distance is `d`, if any.
pub fn label_for(d: Option<u32>) -> (r: String)
    ensures
        r@ == label_text(d),
{
    proof {
        reveal_strlit("    ");
        reveal_strlit(" ");
        reveal_strlit("0");
    }
    match d {
        None => String::from_str("    "),
        Some(n) => {
            let mut s = String::from_str(" ");
            if n < 10 {
                s.append("0");
            }
            append_decimal(&mut s, n);
            s.append(" ");
            assert(s@ =~= label_text(d));
            s
        },
    }
}

} // verus!
