//! Decimal text of integers and joining of texts, for the notes that the
//! tie-break attaches to a tie it cannot break.

use vstd::prelude::*;

verus! {

/// The text of a decimal digit.
pub open spec fn digit_text(d: nat) -> Seq<char> {
    if d == 0 { "0"@ } else if d == 1 { "1"@ } else if d == 2 { "2"@ } else if d == 3 { "3"@ }
    else if d == 4 { "4"@ } else if d == 5 { "5"@ } else if d == 6 { "6"@ } else if d == 7 { "7"@ }
    else if d == 8 { "8"@ } else { "9"@ }
}

/// The decimal text of a natural number, without leading zeros.
pub open spec fn nat_text(n: nat) -> Seq<char>
    decreases n,
{
    if n < 10 { digit_text(n) } else { nat_text(n / 10) + digit_text(n % 10) }
}

/// The decimal text of an integer, with a leading minus sign when negative:
/// what `Display` writes for Rust's integer types.
pub open spec fn int_text(i: int) -> Seq<char> {
    if i < 0 { "-"@ + nat_text((-i) as nat) } else { nat_text(i as nat) }
}

/// The parts joined with `sep` between two neighbours.
pub open spec fn join_text(parts: Seq<Seq<char>>, sep: Seq<char>) -> Seq<char>
    decreases parts.len(),
{
    if parts.len() == 0 {
        seq![]
    } else if parts.len() == 1 {
        parts[0]
    } else {
        join_text(parts.drop_last(), sep) + sep + parts.last()
    }
}

fn push_digit(s: &mut String, d: u8)
    requires
        d < 10,
    ensures
        final(s)@ == old(s)@ + digit_text(d as nat),
{
    let t = if d == 0 { "0" } else if d == 1 { "1" } else if d == 2 { "2" } else if d == 3 { "3" }
        else if d == 4 { "4" } else if d == 5 { "5" } else if d == 6 { "6" } else if d == 7 { "7" }
        else if d == 8 { "8" } else { "9" };
    s.append(t);
}

fn push_nat(s: &mut String, n: u128)
    ensures
        final(s)@ == old(s)@ + nat_text(n as nat),
    decreases n,
{
    if n < 10 {
        push_digit(s, n as u8);
    } else {
        let ghost start = s@;
        push_nat(s, n / 10);
        push_digit(s, (n % 10) as u8);
        assert(s@ == start + (nat_text((n / 10) as nat) + digit_text((n % 10) as nat)));
    }
}

/// Appends the decimal text of `i`.
pub fn push_int(s: &mut String, i: i128)
    ensures
        final(s)@ == old(s)@ + int_text(i as int),
{
    if i < 0 {
        let ghost start = s@;
        s.append("-");
        let n: u128 = if i == i128::MIN { 170141183460469231731687303715884105728u128 } else { (-i) as u128 };
        push_nat(s, n);
        assert(s@ == start + ("-"@ + nat_text((-i) as nat)));
    } else {
        push_nat(s, i as u128);
    }
}

/// Joining one more part.
pub proof fn lemma_join_push(parts: Seq<Seq<char>>, p: Seq<char>, sep: Seq<char>)
    ensures
        join_text(parts.push(p), sep) == if parts.len() == 0 { p } else { join_text(parts, sep) + sep + p },
{
    assert(parts.push(p).drop_last() == parts);
}

} // verus!
