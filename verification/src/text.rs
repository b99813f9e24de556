//! Decimal rendering.

use vstd::prelude::*;
use vstd::string::*;

verus! {

/// The character of a digit.
pub open spec fn digit(d: int) -> char {
    if d == 0 {
        '0'
    } else if d == 1 {
        '1'
    } else if d == 2 {
        '2'
    } else if d == 3 {
        '3'
    } else if d == 4 {
        '4'
    } else if d == 5 {
        '5'
    } else if d == 6 {
        '6'
    } else if d == 7 {
        '7'
    } else if d == 8 {
        '8'
    } else {
        '9'
    }
}

/// The digits of a number, without leading zeros.
pub open spec fn digits(n: int) -> Seq<char>
    decreases n,
{
    if n < 10 {
        seq![digit(n)]
    } else {
        digits(n / 10).push(digit(n % 10))
    }
}

/// A number in decimal.
pub open spec fn decimal(v: int) -> Seq<char> {
    if v < 0 {
        seq!['-'] + digits(-v)
    } else {
        digits(v)
    }
}

fn append_digit(out: &mut String, d: u64)
    requires
        d < 10,
    ensures
        final(out)@ == old(out)@.push(digit(d as int)),
{
    proof {
        reveal_strlit("0");
        reveal_strlit("1");
        reveal_strlit("2");
        reveal_strlit("3");
        reveal_strlit("4");
        reveal_strlit("5");
        reveal_strlit("6");
        reveal_strlit("7");
        reveal_strlit("8");
        reveal_strlit("9");
    }
    let s: &str = match d {
        0 => "0",
        1 => "1",
        2 => "2",
        3 => "3",
        4 => "4",
        5 => "5",
        6 => "6",
        7 => "7",
        8 => "8",
        _ => "9",
    };
    assert(s@ =~= seq![digit(d as int)]);
    out.append(s);
    assert(out@ =~= old(out)@.push(digit(d as int)));
}

fn append_digits(out: &mut String, n: u64)
    ensures
        final(out)@ == old(out)@ + digits(n as int),
    decreases n,
{
    if n >= 10 {
        append_digits(out, n / 10);
    }
    append_digit(out, n % 10);
    assert(out@ =~= old(out)@ + digits(n as int));
}

/// Appends a number in decimal.
pub fn append_decimal(out: &mut String, v: i64)
    ensures
        final(out)@ == old(out)@ + decimal(v as int),
{
    if v < 0 {
        proof {
            reveal_strlit("-");
        }
        out.append("-");
        assert("-"@ =~= seq!['-']);
        let m: u64 = (-(v + 1)) as u64 + 1;
        append_digits(out, m);
    } else {
        append_digits(out, v as u64);
    }
    assert(out@ =~= old(out)@ + decimal(v as int));
}

/// Digits are never a sign.
pub proof fn lemma_digits_plain(n: int)
    requires
        n >= 0,
    ensures
        digits(n).len() >= 1,
        forall|i: int|
            0 <= i < digits(n).len() ==> #[trigger] digits(n)[i] != '-' && digits(n)[i] != '.',
    decreases n,
{
    if n >= 10 {
        lemma_digits_plain(n / 10);
    }
}

/// Distinct numbers have distinct digits.
pub proof fn lemma_digits_injective(a: int, b: int)
    requires
        a >= 0,
        b >= 0,
        digits(a) == digits(b),
    ensures
        a == b,
    decreases a,
{
    if a < 10 {
        assert(digits(a) == seq![digit(a)]);
        if b >= 10 {
            lemma_digits_plain(b / 10);
            assert(digits(b) == digits(b / 10).push(digit(b % 10)));
        } else {
            assert(digits(b) == seq![digit(b)]);
            assert(digits(a)[0] == digit(a) && digits(b)[0] == digit(b));
        }
    } else {
        if b < 10 {
            lemma_digits_plain(a / 10);
            assert(digits(b) == seq![digit(b)]);
            assert(digits(a) == digits(a / 10).push(digit(a % 10)));
        } else {
            let da = digits(a / 10);
            let db = digits(b / 10);
            assert(da.push(digit(a % 10)).last() == db.push(digit(b % 10)).last());
            assert(da.push(digit(a % 10)).drop_last() =~= da);
            assert(db.push(digit(b % 10)).drop_last() =~= db);
            assert(digits(a) == da.push(digit(a % 10)));
            assert(digits(b) == db.push(digit(b % 10)));
            assert(da == db);
            assert(a % 10 == b % 10);
            lemma_digits_injective(a / 10, b / 10);
        }
    }
}

/// Distinct numbers are written differently.
pub proof fn lemma_decimal_injective(a: int, b: int)
    requires
        decimal(a) == decimal(b),
    ensures
        a == b,
{
    if a < 0 {
        assert(decimal(a)[0] == '-');
        if b >= 0 {
            lemma_digits_plain(b);
        } else {
            assert(digits(-a) =~= decimal(a).skip(1));
            assert(digits(-b) =~= decimal(b).skip(1));
            lemma_digits_injective(-a, -b);
        }
    } else {
        lemma_digits_plain(a);
        if b < 0 {
            assert(decimal(b)[0] == '-');
        } else {
            lemma_digits_injective(a, b);
        }
    }
}

/// A number in decimal holds no dot.
pub proof fn lemma_decimal_no_dot(v: int)
    ensures
        forall|i: int| 0 <= i < decimal(v).len() ==> #[trigger] decimal(v)[i] != '.',
        decimal(v).len() >= 1,
{
    if v < 0 {
        lemma_digits_plain(-v);
    } else {
        lemma_digits_plain(v);
    }
}

/// The number that a text of digits stands for.
pub open spec fn numeral(s: Seq<char>) -> int
    decreases s.len(),
{
    if s.len() == 0 {
        0
    } else {
        numeral(s.drop_last()) * 10 + (s.last() as int - '0' as int)
    }
}

/// A number's digits stand for it, and it has no zero in front.
pub proof fn lemma_digits_stand_for(n: int)
    requires
        n >= 0,
    ensures
        numeral(digits(n)) == n,
        forall|i: int| 0 <= i < digits(n).len() ==> '0' <= #[trigger] digits(n)[i] <= '9',
        n > 0 ==> digits(n)[0] != '0',
        n == 0 ==> digits(n).len() == 1,
    decreases n,
{
    if n < 10 {
        assert(digits(n).drop_last() =~= Seq::<char>::empty());
        assert(numeral(digits(n).drop_last()) == 0);
    } else {
        lemma_digits_stand_for(n / 10);
        assert(digits(n).drop_last() =~= digits(n / 10));
    }
}

/// In decimal a negative number is a minus and the digits of its opposite, and no
/// other number has a sign.
pub proof fn lemma_decimal_stands_for(v: int)
    ensures
        v < 0 ==> decimal(v)[0] == '-' && numeral(decimal(v).skip(1)) == -v,
        v >= 0 ==> numeral(decimal(v)) == v && decimal(v)[0] != '-',
{
    if v < 0 {
        lemma_digits_stand_for(-v);
        assert(decimal(v).skip(1) =~= digits(-v));
    } else {
        lemma_digits_stand_for(v);
        lemma_digits_plain(v);
    }
}

} // verus!
