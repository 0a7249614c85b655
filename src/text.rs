use vstd::prelude::*;
use vstd::string::StringExecFns;

verus! {

pub open spec fn digit_char(d: int) -> char {
    if d == 0 {
        '0'
    } else if d == 1 {
        '1'
    } else if d == 2 {
        '2'
    } else if d == 3 {
        '3'
    } else if d == 4 {
        '4'
    } else if d == 5 {
        '5'
    } else if d == 6 {
        '6'
    } else if d == 7 {
        '7'
    } else if d == 8 {
        '8'
    } else {
        '9'
    }
}

/// `n` written in decimal.
pub open spec fn decimal(n: nat) -> Seq<char>
    decreases n,
{
    if n < 10 {
        seq![digit_char(n as int)]
    } else {
        decimal(n / 10).push(digit_char((n % 10) as int))
    }
}

/// The first `n` counts written in decimal, separated by single spaces.
pub open spec fn counts_text(s: Seq<u8>, n: int) -> Seq<char>
    decreases n,
{
    if n <= 0 {
        Seq::empty()
    } else if n == 1 {
        decimal(s[0] as nat)
    } else {
        counts_text(s, n - 1) + seq![' '] + decimal(s[n - 1] as nat)
    }
}

fn digit_str(d: u8) -> (r: &'static str)
    requires
        d < 10,
    ensures
        r@ == seq![digit_char(d as int)],
{
    proof {
        reveal_strlit("0");
        reveal_strlit("1");
        reveal_strlit("2");
        reveal_strlit("3");
        reveal_strlit("4");
        reveal_strlit("5");
        reveal_strlit("6");
        reveal_strlit("7");
        reveal_strlit("8");
        reveal_strlit("9");
    }
    if d == 0 {
        "0"
    } else if d == 1 {
        "1"
    } else if d == 2 {
        "2"
    } else if d == 3 {
        "3"
    } else if d == 4 {
        "4"
    } else if d == 5 {
        "5"
    } else if d == 6 {
        "6"
    } else if d == 7 {
        "7"
    } else if d == 8 {
        "8"
    } else {
        "9"
    }
}

fn push_decimal(out: &mut String, x: u8)
    ensures
        final(out)@ == old(out)@ + decimal(x as nat),
{
    reveal_with_fuel(decimal, 3);
    if x >= 100 {
        out.append(digit_str(x / 100));
    }
    if x >= 10 {
        out.append(digit_str((x / 10) % 10));
    }
    out.append(digit_str(x % 10));
    proof {
        let n = x as nat;
        if n >= 100 {
            assert(decimal(n / 10) =~= decimal(n / 100).push(digit_char(((n / 10) % 10) as int)));
            assert((n / 10) / 10 == n / 100);
        }
    }
    assert(out@ =~= old(out)@ + decimal(x as nat));
}

/// The counts written in decimal, separated by single spaces.
pub fn write_counts(counts: &[u8]) -> (r: String)
    ensures
        r@ == counts_text(counts@, counts@.len() as int),
{
    let mut out = String::new();
    let mut i: usize = 0;
    while i < counts.len()
        invariant
            i <= counts.len(),
            out@ == counts_text(counts@, i as int),
        decreases counts.len() - i,
    {
        if i > 0 {
            proof {
                reveal_strlit(" ");
            }
            out.append(" ");
        }
        push_decimal(&mut out, counts[i]);
        i += 1;
    }
    out
}

} // verus!
