//! Sizes in bytes written for people.
use vstd::prelude::*;
use vstd::string::StringExecFns;

verus! {

/// The decimal digit for `d` (0 to 9).
pub open spec fn digit_char(d: nat) -> char {
    if d == 0 {
        '0'
    } else if d == 1 {
        '1'
    } else if d == 2 {
        '2'
    } else if d == 3 {
        '3'
    } else if d == 4 {
        '4'
    } else if d == 5 {
        '5'
    } else if d == 6 {
        '6'
    } else if d == 7 {
        '7'
    } else if d == 8 {
        '8'
    } else {
        '9'
    }
}

/// `n` written in decimal, without leading zeros.
pub open spec fn decimal(n: nat) -> Seq<char>
    decreases n,
{
    if n < 10 {
        seq![digit_char(n)]
    } else {
        decimal(n / 10).push(digit_char(n % 10))
    }
}

/// What `human_size` writes for `size` bytes: the size in the largest unit
/// among B, KB, MB and GB that it reaches, rounded down.
pub open spec fn human_size_spec(size: nat) -> Seq<char> {
    let k: nat = 1024;
    let m: nat = k * k;
    let g: nat = m * k;
    if size < k {
        decimal(size) + seq![' ', 'B']
    } else if size < m {
        decimal(size / k) + seq![' ', 'K', 'B']
    } else if size < g {
        decimal(size / m) + seq![' ', 'M', 'B']
    } else {
        decimal(size / g) + seq![' ', 'G', 'B']
    }
}

/// The one-character string of digit `d`.
fn digit_str(d: usize) -> (r: &'static str)
    requires
        d < 10,
    ensures
        r@ == seq![digit_char(d as nat)],
{
    proof {
        reveal_strlit("0");
        reveal_strlit("1");
        reveal_strlit("2");
        reveal_strlit("3");
        reveal_strlit("4");
        reveal_strlit("5");
        reveal_strlit("6");
        reveal_strlit("7");
        reveal_strlit("8");
        reveal_strlit("9");
    }
    if d == 0 {
        "0"
    } else if d == 1 {
        "1"
    } else if d == 2 {
        "2"
    } else if d == 3 {
        "3"
    } else if d == 4 {
        "4"
    } else if d == 5 {
        "5"
    } else if d == 6 {
        "6"
    } else if d == 7 {
        "7"
    } else if d == 8 {
        "8"
    } else {
        "9"
    }
}

/// Appends `n` in decimal.
fn push_decimal(s: &mut String, n: usize)
    ensures
        final(s)@ == old(s)@ + decimal(n as nat),
    decreases n,
{
    if n >= 10 {
        push_decimal(s, n / 10);
    }
    s.append(digit_str(n % 10));
    proof {
        if n >= 10 {
            assert(old(s)@ + decimal((n / 10) as nat) + seq![digit_char((n % 10) as nat)] =~= old(s)@ + decimal(
                n as nat,
            ));
        } else {
            assert(old(s)@ + seq![digit_char((n % 10) as nat)] =~= old(s)@ + decimal(n as nat));
        }
    }
}

/// A size in bytes in the largest unit it reaches (B, KB, MB, GB).
pub fn human_size(size: usize) -> (r: String)
    ensures
        r@ == human_size_spec(size as nat),
{
    let k: usize = 1024;
    let m: usize = k * k;
    let g: usize = m * k;
    let mut s = String::new();
    proof {
        reveal_strlit(" B");
        reveal_strlit(" KB");
        reveal_strlit(" MB");
        reveal_strlit(" GB");
        assert(s@ == Seq::<char>::empty());
    }
    if size < k {
        push_decimal(&mut s, size);
        s.append(" B");
        assert(s@ =~= human_size_spec(size as nat));
    } else if size < m {
        push_decimal(&mut s, size / k);
        s.append(" KB");
        assert(s@ =~= human_size_spec(size as nat));
    } else if size < g {
        push_decimal(&mut s, size / m);
        s.append(" MB");
        assert(s@ =~= human_size_spec(size as nat));
    } else {
        push_decimal(&mut s, size / g);
        s.append(" GB");
        assert(s@ =~= human_size_spec(size as nat));
    }
    s
}

} // verus!
