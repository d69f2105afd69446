use vstd::prelude::*;

verus! {

/// The decimal digit for `d`.
pub open spec fn digit(d: nat) -> char {
    if d == 0 {
        '0'
    } else if d == 1 {
        '1'
    } else if d == 2 {
        '2'
    } else if d == 3 {
        '3'
    } else if d == 4 {
        '4'
    } else if d == 5 {
        '5'
    } else if d == 6 {
        '6'
    } else if d == 7 {
        '7'
    } else if d == 8 {
        '8'
    } else {
        '9'
    }
}

/// The decimal numeral of `n`, without leading zeros.
pub open spec fn dec(n: nat) -> Seq<char>
    decreases n,
{
    if n < 10 {
        seq![digit(n)]
    } else {
        dec(n / 10).push(digit(n % 10))
    }
}

/// A tenths count written with one decimal place.
pub open spec fn tenths_text(t: nat) -> Seq<char> {
    dec(t / 10) + "."@ + dec(t % 10)
}

/// Lamports written in whole units of 10^9 lamports, rounded half up to one
/// decimal place.
pub open spec fn sol_text(lamports: u64) -> Seq<char> {
    tenths_text(((lamports + 50_000_000) / 100_000_000) as nat)
}

/// `part` as a percentage of `whole`, rounded half up to one decimal place;
/// `NaN` for nothing of nothing and `inf` for something of nothing.
pub open spec fn percent_text(part: u64, whole: u64) -> Seq<char> {
    if whole == 0 {
        if part == 0 {
            "NaN"@
        } else {
            "inf"@
        }
    } else {
        tenths_text(((2000 * part + whole) / (2 * whole)) as nat)
    }
}

fn digit_str(d: u64) -> (r: &'static str)
    requires
        d < 10,
    ensures
        r@ == seq![digit(d as nat)],
{
    proof {
        reveal_strlit("0");
        reveal_strlit("1");
        reveal_strlit("2");
        reveal_strlit("3");
        reveal_strlit("4");
        reveal_strlit("5");
        reveal_strlit("6");
        reveal_strlit("7");
        reveal_strlit("8");
        reveal_strlit("9");
    }
    if d == 0 {
        "0"
    } else if d == 1 {
        "1"
    } else if d == 2 {
        "2"
    } else if d == 3 {
        "3"
    } else if d == 4 {
        "4"
    } else if d == 5 {
        "5"
    } else if d == 6 {
        "6"
    } else if d == 7 {
        "7"
    } else if d == 8 {
        "8"
    } else {
        "9"
    }
}

/// Appends the decimal numeral of `n`.
pub fn push_dec(out: &mut String, n: u128)
    ensures
        final(out)@ == old(out)@ + dec(n as nat),
    decreases n,
{
    if n >= 10 {
        push_dec(out, n / 10);
        let d = (n % 10) as u64;
        out.append(digit_str(d));
        proof {
            assert(old(out)@ + dec(n as nat) =~= old(out)@ + dec((n / 10) as nat) + seq![digit(d as nat)]);
        }
    } else {
        out.append(digit_str(n as u64));
    }
}

fn push_tenths(out: &mut String, t: u128)
    ensures
        final(out)@ == old(out)@ + tenths_text(t as nat),
{
    push_dec(out, t / 10);
    out.append(".");
    push_dec(out, t % 10);
    proof {
        assert(out@ =~= old(out)@ + tenths_text(t as nat));
    }
}

/// Appends `lamports` in whole units with one decimal place.
pub fn push_sol(out: &mut String, lamports: u64)
    ensures
        final(out)@ == old(out)@ + sol_text(lamports),
{
    push_tenths(out, (lamports as u128 + 50_000_000) / 100_000_000);
}

/// Appends `part` as a percentage of `whole` with one decimal place.
pub fn push_percent(out: &mut String, part: u64, whole: u64)
    ensures
        final(out)@ == old(out)@ + percent_text(part, whole),
{
    if whole == 0 {
        if part == 0 {
            out.append("NaN");
        } else {
            out.append("inf");
        }
    } else {
        push_tenths(out, (2000 * part as u128 + whole as u128) / (2 * whole as u128));
    }
}

} // verus!
