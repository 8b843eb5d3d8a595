use crate::dictionary::count_table;
use crate::dictionary::distribution_of;
use crate::dictionary::LetterDistribution;
use vstd::prelude::*;

verus! {

/// The character of one decimal digit.
pub open spec fn digit_char(d: int) -> char {
    if d == 0 {
        '0'
    } else if d == 1 {
        '1'
    } else if d == 2 {
        '2'
    } else if d == 3 {
        '3'
    } else if d == 4 {
        '4'
    } else if d == 5 {
        '5'
    } else if d == 6 {
        '6'
    } else if d == 7 {
        '7'
    } else if d == 8 {
        '8'
    } else {
        '9'
    }
}

/// The decimal digits of a non-negative number, most significant first.
pub open spec fn decimal_digits(n: int) -> Seq<char>
    decreases n,
{
    if n < 10 {
        seq![digit_char(n)]
    } else {
        decimal_digits(n / 10).push(digit_char(n % 10))
    }
}

/// A number rendered with at least two digits, zero-padded below ten.
pub open spec fn two_digits(n: int) -> Seq<char> {
    if 0 <= n < 10 {
        seq!['0', digit_char(n)]
    } else {
        decimal_digits(n)
    }
}

/// A duration of `secs` seconds rendered as an `HH:mm:ss` timestamp.
pub open spec fn clock_text(secs: int) -> Seq<char> {
    two_digits(secs / 3600) + seq![':'] + two_digits((secs % 3600) / 60) + seq![':'] + two_digits(
        secs % 60,
    )
}

/// One entry of a tile list, rendered as `'x' (y), `.
pub open spec fn tile_entry_text(c: char, n: int) -> Seq<char> {
    seq!['\''] + seq![c] + seq!['\'', ' ', '('] + decimal_digits(n) + seq![')', ',', ' ']
}

/// A whole count table rendered entry by entry.
pub open spec fn tile_list_text(ld: Seq<(char, usize)>) -> Seq<char>
    decreases ld.len(),
{
    if ld.len() == 0 {
        Seq::empty()
    } else {
        tile_list_text(ld.drop_last()) + tile_entry_text(ld.last().0, ld.last().1 as int)
    }
}

fn digit_of(d: u64) -> (c: char)
    requires
        d < 10,
    ensures
        c == digit_char(d as int),
{
    match d {
        0 => '0',
        1 => '1',
        2 => '2',
        3 => '3',
        4 => '4',
        5 => '5',
        6 => '6',
        7 => '7',
        8 => '8',
        _ => '9',
    }
}

fn push_decimal(out: &mut Vec<char>, n: u64)
    ensures
        final(out)@ == old(out)@ + decimal_digits(n as int),
    decreases n,
{
    if n < 10 {
        out.push(digit_of(n));
        proof {
            assert(old(out)@ + decimal_digits(n as int) =~= old(out)@.push(digit_char(n as int)));
        }
    } else {
        push_decimal(out, n / 10);
        let ghost mid: Seq<char> = out@;
        out.push(digit_of(n % 10));
        proof {
            assert(old(out)@ + decimal_digits(n as int) =~= mid.push(digit_char(n as int % 10)));
        }
    }
}

fn push_two_digits(out: &mut Vec<char>, n: u64)
    ensures
        final(out)@ == old(out)@ + two_digits(n as int),
{
    if n < 10 {
        out.push('0');
        let ghost mid: Seq<char> = out@;
        out.push(digit_of(n));
        proof {
            assert(old(out)@ + two_digits(n as int) =~= mid.push(digit_char(n as int)));
        }
    } else {
        push_decimal(out, n);
    }
}

/// Renders a duration of whole seconds as an `HH:mm:ss` timestamp; hours
/// beyond two digits keep all their digits.
pub fn format_duration(secs: u64) -> (r: String)
    ensures
        r@ == clock_text(secs as int),
{
    let hours: u64 = secs / 3600;
    let minutes: u64 = (secs % 3600) / 60;
    let seconds: u64 = secs % 60;
    let mut out: Vec<char> = Vec::new();
    push_two_digits(&mut out, hours);
    out.push(':');
    push_two_digits(&mut out, minutes);
    out.push(':');
    push_two_digits(&mut out, seconds);
    proof {
        assert(out@ =~= clock_text(secs as int));
    }
    chars_to_string(&out)
}

/// Renders a hand of tiles as `'x' (y), ` entries: one per distinct tile in
/// ascending order, each with its count.
pub fn format_tile_list(hand: &Vec<char>) -> (r: String)
    ensures
        exists|ld: Seq<(char, usize)>| distribution_of(ld, hand@) && r@ == tile_list_text(ld),
{
    let counts: LetterDistribution = count_table(hand);
    let mut out: Vec<char> = Vec::new();
    let mut k: usize = 0;
    proof {
        assert(out@ =~= tile_list_text(counts@.take(0)));
        assert(counts@.take(0) =~= Seq::<(char, usize)>::empty());
    }
    while k < counts.len()
        invariant
            k <= counts@.len(),
            out@ == tile_list_text(counts@.take(k as int)),
        decreases counts@.len() - k,
    {
        let (tile, amount): (char, usize) = counts[k];
        out.push('\'');
        out.push(tile);
        out.push('\'');
        out.push(' ');
        out.push('(');
        push_decimal(&mut out, amount as u64);
        out.push(')');
        out.push(',');
        out.push(' ');
        proof {
            assert(counts@.take(k as int + 1).drop_last() =~= counts@.take(k as int));
            assert(counts@.take(k as int + 1).last() == counts@[k as int]);
            assert(out@ =~= tile_list_text(counts@.take(k as int)) + tile_entry_text(
                tile,
                amount as int,
            ));
        }
        k = k + 1;
    }
    proof {
        assert(counts@.take(counts@.len() as int) =~= counts@);
    }
    let r: String = chars_to_string(&out);
    proof {
        assert(distribution_of(counts@, hand@) && r@ == tile_list_text(counts@));
    }
    r
}

/// Relies on std's String::push: it appends the given character to the end
/// of the string.
pub assume_specification[ String::push ](s: &mut String, ch: char)
    ensures
        final(s)@ == old(s)@.push(ch),
;

/// Builds a string holding exactly the given characters, in order.
pub fn chars_to_string(chars: &Vec<char>) -> (r: String)
    ensures
        r@ == chars@,
{
    let mut s: String = String::new();
    let mut i: usize = 0;
    while i < chars.len()
        invariant
            i <= chars@.len(),
            s@ == chars@.take(i as int),
        decreases chars@.len() - i,
    {
        s.push(chars[i]);
        proof {
            assert(chars@.take(i as int).push(chars@[i as int]) =~= chars@.take(i as int + 1));
        }
        i = i + 1;
    }
    proof {
        assert(chars@.take(chars@.len() as int) =~= chars@);
    }
    s
}

} // verus!
