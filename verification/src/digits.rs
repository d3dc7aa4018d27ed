//! Decimal digits: the mapping between digit values, digit characters and
//! decimal renderings of numbers, shared by literal rendering and by the
//! diagnostic formatter.

use vstd::prelude::*;
use vstd::string::*;

verus! {

/// The character that renders a single decimal digit value.
pub open spec fn digit_to_char(d: u8) -> char {
    if d == 0 {
        '0'
    } else if d == 1 {
        '1'
    } else if d == 2 {
        '2'
    } else if d == 3 {
        '3'
    } else if d == 4 {
        '4'
    } else if d == 5 {
        '5'
    } else if d == 6 {
        '6'
    } else if d == 7 {
        '7'
    } else if d == 8 {
        '8'
    } else {
        '9'
    }
}

/// The decimal rendering of `n`, most significant digit first, with no
/// leading zeros (`0` renders as the single character `'0'`).
pub open spec fn dec_digits(n: nat) -> Seq<char>
    decreases n,
{
    if n < 10 {
        seq![digit_to_char(n as u8)]
    } else {
        dec_digits(n / 10) + seq![digit_to_char((n % 10) as u8)]
    }
}

/// A one-character string slice holding the character of a digit value.
pub fn digit_str(d: u8) -> (r: &'static str)
    requires
        d < 10,
    ensures
        r@ == seq![digit_to_char(d)],
{
    let r = match d {
        0 => "0",
        1 => "1",
        2 => "2",
        3 => "3",
        4 => "4",
        5 => "5",
        6 => "6",
        7 => "7",
        8 => "8",
        _ => "9",
    };
    proof {
        reveal_strlit("0");
        reveal_strlit("1");
        reveal_strlit("2");
        reveal_strlit("3");
        reveal_strlit("4");
        reveal_strlit("5");
        reveal_strlit("6");
        reveal_strlit("7");
        reveal_strlit("8");
        reveal_strlit("9");
        assert(r@ =~= seq![digit_to_char(d)]);
    }
    r
}

/// Renders `n` in decimal, most significant digit first.
pub fn u32_to_string(n: u32) -> (r: String)
    ensures
        r@ == dec_digits(n as nat),
{
    let mut rev: Vec<u8> = Vec::new();
    let mut m: u32 = n;
    if m == 0 {
        let r = digit_str(0).to_owned();
        return r;
    }
    while m > 0
        invariant
            n > 0,
            forall|k: int| 0 <= k < rev@.len() ==> rev@[k] < 10,
            dec_digits(n as nat) == if m > 0 {
                dec_digits(m as nat) + rev@.reverse().map_values(|d: u8| digit_to_char(d))
            } else {
                rev@.reverse().map_values(|d: u8| digit_to_char(d))
            },
        decreases m,
    {
        let ghost old_rev = rev@;
        let ghost old_m = m as nat;
        rev.push((m % 10) as u8);
        m = m / 10;
        proof {
            let f = |d: u8| digit_to_char(d);
            assert(rev@.reverse() =~= seq![(old_m % 10) as u8] + old_rev.reverse());
            assert(rev@.reverse().map_values(f) =~= seq![digit_to_char((old_m % 10) as u8)]
                + old_rev.reverse().map_values(f));
            if m > 0 {
                assert(dec_digits(old_m) == dec_digits(old_m / 10) + seq![
                    digit_to_char((old_m % 10) as u8),
                ]);
            } else {
                assert(dec_digits(old_m) == seq![digit_to_char((old_m % 10) as u8)]);
            }
        }
    }
    let mut r = String::new();
    let mut k: usize = rev.len();
    while k > 0
        invariant
            k <= rev@.len(),
            forall|j: int| 0 <= j < rev@.len() ==> rev@[j] < 10,
            r@ == rev@.subrange(k as int, rev@.len() as int).reverse().map_values(
                |d: u8| digit_to_char(d),
            ),
        decreases k,
    {
        k = k - 1;
        r.append(digit_str(rev[k]));
        proof {
            let f = |d: u8| digit_to_char(d);
            let tail = rev@.subrange(k as int + 1, rev@.len() as int);
            assert(rev@.subrange(k as int, rev@.len() as int).reverse() =~= tail.reverse() + seq![
                rev@[k as int],
            ]);
            assert(rev@.subrange(k as int, rev@.len() as int).reverse().map_values(f)
                =~= tail.reverse().map_values(f) + seq![digit_to_char(rev@[k as int])]);
        }
    }
    proof {
        assert(rev@.subrange(0, rev@.len() as int) =~= rev@);
    }
    r
}

} // verus!
