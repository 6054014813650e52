//! Decimal rendering of counts and shapes for error messages.

use vstd::prelude::*;
use vstd::string::*;

verus! {

/// The character of a decimal digit.
pub open spec fn digit(d: nat) -> char {
    if d == 0 {
        '0'
    } else if d == 1 {
        '1'
    } else if d == 2 {
        '2'
    } else if d == 3 {
        '3'
    } else if d == 4 {
        '4'
    } else if d == 5 {
        '5'
    } else if d == 6 {
        '6'
    } else if d == 7 {
        '7'
    } else if d == 8 {
        '8'
    } else {
        '9'
    }
}

/// The decimal numeral of `n`, without leading zeros.
pub open spec fn decimal(n: nat) -> Seq<char>
    decreases n,
{
    if n < 10 {
        seq![digit(n)]
    } else {
        decimal(n / 10).push(digit(n % 10))
    }
}

/// The extents of a shape as numerals separated by a comma and a space.
pub open spec fn extents_text(shape: Seq<usize>) -> Seq<char>
    decreases shape.len(),
{
    if shape.len() == 0 {
        Seq::empty()
    } else if shape.len() == 1 {
        decimal(shape[0] as nat)
    } else {
        extents_text(shape.drop_last()) + seq![',', ' '] + decimal(shape.last() as nat)
    }
}

/// A shape written as a parenthesised list of its extents.
pub open spec fn shape_text(shape: Seq<usize>) -> Seq<char> {
    seq!['('] + extents_text(shape) + seq![')']
}

fn digit_str(d: u128) -> (s: &'static str)
    requires
        d < 10,
    ensures
        s@ == seq![digit(d as nat)],
{
    proof {
        reveal_strlit("0");
        reveal_strlit("1");
        reveal_strlit("2");
        reveal_strlit("3");
        reveal_strlit("4");
        reveal_strlit("5");
        reveal_strlit("6");
        reveal_strlit("7");
        reveal_strlit("8");
        reveal_strlit("9");
    }
    let s = if d == 0 {
        "0"
    } else if d == 1 {
        "1"
    } else if d == 2 {
        "2"
    } else if d == 3 {
        "3"
    } else if d == 4 {
        "4"
    } else if d == 5 {
        "5"
    } else if d == 6 {
        "6"
    } else if d == 7 {
        "7"
    } else if d == 8 {
        "8"
    } else {
        "9"
    };
    assert(s@ =~= seq![digit(d as nat)]);
    s
}

/// Writes `n` as a decimal numeral.
pub fn to_decimal(n: u128) -> (s: String)
    ensures
        s@ == decimal(n as nat),
    decreases n,
{
    if n < 10 {
        String::from_str(digit_str(n))
    } else {
        let mut s = to_decimal(n / 10);
        s.append(digit_str(n % 10));
        assert(s@ =~= decimal(n as nat));
        s
    }
}

/// Writes a shape as a parenthesised list of its extents.
pub fn render_shape(shape: &[usize]) -> (s: String)
    ensures
        s@ == shape_text(shape@),
{
    proof {
        reveal_strlit("(");
        reveal_strlit(")");
    }
    let mut s = String::from_str("(");
    assert(s@ =~= seq!['('] + extents_text(shape@.take(0)));
    let n = shape.len();
    let mut d: usize = 0;
    while d < n
        invariant
            n == shape@.len(),
            d <= n,
            s@ == seq!['('] + extents_text(shape@.take(d as int)),
        decreases n - d,
    {
        let ghost before = s@;
        if d > 0 {
            s.append(", ");
        }
        let numeral = to_decimal(shape[d] as u128);
        s.append(numeral.as_str());
        proof {
            let shorter = shape@.take(d as int);
            let longer = shape@.take(d + 1);
            assert(longer.drop_last() =~= shorter);
            assert(longer.last() == shape@[d as int]);
            reveal_strlit(", ");
            assert(", "@ =~= seq![',', ' ']);
            if d == 0 {
                assert(extents_text(shorter) =~= Seq::<char>::empty());
                assert(extents_text(longer) == decimal(shape@[0] as nat));
                assert(s@ =~= before + numeral@);
            } else {
                assert(extents_text(longer) == extents_text(shorter) + seq![',', ' '] + decimal(
                    shape@[d as int] as nat,
                ));
                assert(s@ =~= before + seq![',', ' '] + numeral@);
            }
            assert(s@ =~= seq!['('] + extents_text(longer));
        }
        d = d + 1;
    }
    s.append(")");
    proof {
        assert(shape@.take(n as int) =~= shape@);
        assert(")"@ =~= seq![')']);
    }
    s
}

} // verus!
