use vstd::prelude::*;

verus! {

/// The character for one decimal digit.
pub open spec fn digit_char(d: int) -> char {
    if d == 0 {
        '0'
    } else if d == 1 {
        '1'
    } else if d == 2 {
        '2'
    } else if d == 3 {
        '3'
    } else if d == 4 {
        '4'
    } else if d == 5 {
        '5'
    } else if d == 6 {
        '6'
    } else if d == 7 {
        '7'
    } else if d == 8 {
        '8'
    } else {
        '9'
    }
}

/// The decimal digits of a non-negative integer, most significant
/// first, with no leading zeros (zero itself is "0").
pub open spec fn dec_digits(n: int) -> Seq<char>
    decreases n,
{
    if n < 10 {
        seq![digit_char(n)]
    } else {
        dec_digits(n / 10).push(digit_char(n % 10))
    }
}

/// One decimal digit as a string slice.
fn digit_str(d: u128) -> (r: &'static str)
    requires
        d < 10,
    ensures
        r@ == seq![digit_char(d as int)],
{
    proof {
        reveal_strlit("0");
        reveal_strlit("1");
        reveal_strlit("2");
        reveal_strlit("3");
        reveal_strlit("4");
        reveal_strlit("5");
        reveal_strlit("6");
        reveal_strlit("7");
        reveal_strlit("8");
        reveal_strlit("9");
    }
    let r: &'static str = if d == 0 {
        "0"
    } else if d == 1 {
        "1"
    } else if d == 2 {
        "2"
    } else if d == 3 {
        "3"
    } else if d == 4 {
        "4"
    } else if d == 5 {
        "5"
    } else if d == 6 {
        "6"
    } else if d == 7 {
        "7"
    } else if d == 8 {
        "8"
    } else {
        "9"
    };
    proof {
        assert(r@ =~= seq![digit_char(d as int)]);
    }
    r
}

/// Render a non-negative integer in decimal.
pub fn u128_to_dec(n: u128) -> (s: String)
    ensures
        s@ == dec_digits(n as int),
    decreases n,
{
    if n < 10 {
        digit_str(n).to_owned()
    } else {
        let high = u128_to_dec(n / 10);
        let s = high.concat(digit_str(n % 10));
        proof {
            assert(s@ =~= dec_digits(n as int));
        }
        s
    }
}

/// A fixed-point value with four stored decimal places, rendered with
/// two decimal places, rounded half away from zero: sign, integer
/// digits, '.', and two fraction digits.
pub open spec fn fp2_digits(v: i64) -> Seq<char> {
    let m = if v >= 0 {
        v as int
    } else {
        -(v as int)
    };
    let sign: Seq<char> = if v < 0 {
        seq!['-']
    } else {
        seq![]
    };
    let r = (m + 50) / 100;
    sign + dec_digits(r / 100) + seq!['.'] + seq![
        digit_char((r / 10) % 10),
        digit_char(r % 10),
    ]
}

/// Render a fixed-point value (four stored decimal places) with two
/// decimal places, rounding the rest half away from zero.
pub fn fp2_to_dec(v: i64) -> (s: String)
    ensures
        s@ == fp2_digits(v),
{
    let m: u64 = if v >= 0 {
        v as u64
    } else {
        (-(v as i128)) as u64
    };
    let r: u64 = (m + 50) / 100;
    let mut s: String = if v < 0 {
        proof {
            reveal_strlit("-");
        }
        "-".to_owned()
    } else {
        String::new()
    };
    let intpart = u128_to_dec((r / 100) as u128);
    s.append(intpart.as_str());
    proof {
        reveal_strlit(".");
    }
    s.append(".");
    s.append(digit_str(((r / 10) % 10) as u128));
    s.append(digit_str((r % 10) as u128));
    proof {
        assert(s@ =~= fp2_digits(v));
    }
    s
}

/// Character-for-character string equality, decided executably.
pub fn str_eq(a: &str, b: &str) -> (r: bool)
    ensures
        r == (a@ == b@),
{
    let alen = a.unicode_len();
    let blen = b.unicode_len();
    if alen != blen {
        return false;
    }
    let mut i: usize = 0;
    while i < alen
        invariant
            alen == a@.len(),
            blen == b@.len(),
            alen == blen,
            i <= alen,
            forall|j: int| 0 <= j < i ==> a@[j] == b@[j],
        decreases alen - i,
    {
        let ca = a.get_char(i);
        let cb = b.get_char(i);
        if ca != cb {
            return false;
        }
        i = i + 1;
    }
    proof {
        assert(a@ =~= b@);
    }
    true
}

} // verus!
