//! Rendering of term lists: decimal formatting of signed degrees, assembly of
//! the `(degree, coefficient)` list with `", "` separators, and the one
//! trusted step that turns the verified character sequence into a `String`.

use vstd::prelude::*;

verus! {

/// The decimal digit character for a value below ten.
pub open spec fn digit_char(n: nat) -> char {
    if n == 0 {
        '0'
    } else if n == 1 {
        '1'
    } else if n == 2 {
        '2'
    } else if n == 3 {
        '3'
    } else if n == 4 {
        '4'
    } else if n == 5 {
        '5'
    } else if n == 6 {
        '6'
    } else if n == 7 {
        '7'
    } else if n == 8 {
        '8'
    } else {
        '9'
    }
}

/// The decimal digits of `n`, most significant first, with no leading zeros
/// (a single `'0'` for zero itself).
pub open spec fn dec_digits(n: nat) -> Seq<char>
    decreases n,
{
    if n < 10 {
        seq![digit_char(n)]
    } else {
        dec_digits(n / 10).push(digit_char(n % 10))
    }
}

/// The rendering of a signed degree: a minus sign before the digits of the
/// magnitude when negative.
pub open spec fn int_chars(d: int) -> Seq<char> {
    if d < 0 {
        seq!['-'] + dec_digits((-d) as nat)
    } else {
        dec_digits(d as nat)
    }
}

/// One rendered term: the degree and the supplied coefficient text in
/// parentheses, separated by a comma and one space.
pub open spec fn term_chars(d: i32, text: Seq<char>) -> Seq<char> {
    seq!['('] + int_chars(d as int) + seq![',', ' '] + text + seq![')']
}

/// Every term in stored order, separated by a comma and one space, with no
/// surrounding brackets.
pub open spec fn terms_chars(ds: Seq<i32>, texts: Seq<Seq<char>>) -> Seq<char>
    recommends
        ds.len() == texts.len(),
    decreases ds.len(),
{
    if ds.len() == 0 {
        Seq::empty()
    } else if ds.len() == 1 {
        term_chars(ds[0], texts[0])
    } else {
        terms_chars(ds.drop_last(), texts.drop_last()) + seq![',', ' '] + term_chars(
            ds.last(),
            texts.last(),
        )
    }
}

/// Rendering one more term appends a separator (except before the first term)
/// and that term's text.
pub proof fn lemma_terms_chars_step(ds: Seq<i32>, texts: Seq<Seq<char>>, i: int)
    requires
        0 <= i < ds.len(),
        ds.len() == texts.len(),
    ensures
        terms_chars(ds.take(i + 1), texts.take(i + 1)) == if i == 0 {
            term_chars(ds[0], texts[0])
        } else {
            terms_chars(ds.take(i), texts.take(i)) + seq![',', ' '] + term_chars(ds[i], texts[i])
        },
{
    assert(ds.take(i + 1).drop_last() =~= ds.take(i));
    assert(texts.take(i + 1).drop_last() =~= texts.take(i));
    assert(ds.take(i + 1).last() == ds[i]);
    assert(texts.take(i + 1).last() == texts[i]);
}

fn digit(n: u32) -> (c: char)
    requires
        n < 10,
    ensures
        c == digit_char(n as nat),
{
    if n == 0 {
        '0'
    } else if n == 1 {
        '1'
    } else if n == 2 {
        '2'
    } else if n == 3 {
        '3'
    } else if n == 4 {
        '4'
    } else if n == 5 {
        '5'
    } else if n == 6 {
        '6'
    } else if n == 7 {
        '7'
    } else if n == 8 {
        '8'
    } else {
        '9'
    }
}

/// Appends the decimal digits of `n`, most significant first.
fn push_digits(n: u32, out: &mut Vec<char>)
    ensures
        final(out)@ == old(out)@ + dec_digits(n as nat),
    decreases n,
{
    if n < 10 {
        out.push(digit(n));
        assert(out@ =~= old(out)@ + dec_digits(n as nat));
    } else {
        push_digits(n / 10, out);
        out.push(digit(n % 10));
        assert(out@ =~= old(out)@ + dec_digits(n as nat));
    }
}

/// Appends the rendering of a signed degree.
pub fn push_degree(d: i32, out: &mut Vec<char>)
    ensures
        final(out)@ == old(out)@ + int_chars(d as int),
{
    if d < 0 {
        out.push('-');
        let wide: i64 = -(d as i64);
        let magnitude: u32 = wide as u32;
        assert(magnitude as nat == (-(d as int)) as nat);
        push_digits(magnitude, out);
        assert(out@ =~= old(out)@ + int_chars(d as int));
    } else {
        push_digits(d as u32, out);
    }
}

/// Relies on `String::from_iter`: the returned string holds exactly the given
/// characters, in order.
#[verifier::external_body]
pub fn string_from_chars(chars: &Vec<char>) -> (r: String)
    ensures
        r@ == chars@,
{
    String::from_iter(chars.iter().copied())
}

} // verus!
