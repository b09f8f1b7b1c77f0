//! Text rendering helpers.
use vstd::prelude::*;

verus! {

/// The decimal digits of a natural number, most significant first.
pub open spec fn decimal_digits(n: nat) -> Seq<char>
    decreases n,
{
    if n < 10 {
        seq![(('0' as u8) + n as u8) as char]
    } else {
        decimal_digits(n / 10) + seq![(('0' as u8) + (n % 10) as u8) as char]
    }
}

/// The decimal text of an integer, with a leading `-` when negative.
pub open spec fn decimal(n: int) -> Seq<char> {
    if n < 0 {
        seq!['-'] + decimal_digits((-n) as nat)
    } else {
        decimal_digits(n as nat)
    }
}

/// Renders an integer in decimal (`Display` for `i32`).
#[verifier::external_body]
pub fn decimal_text(value: i32) -> (result: String)
    ensures
        result@ == decimal(value as int),
{
    format!("{}", value)
}

/// Renders a count in decimal (`Display` for `usize`).
#[verifier::external_body]
pub fn count_text(value: usize) -> (result: String)
    ensures
        result@ == decimal(value as int),
{
    format!("{}", value)
}

/// Collects characters into a string (`FromIterator<char>` for `String`).
#[verifier::external_body]
pub fn text_from_chars(chars: &Vec<char>) -> (result: String)
    ensures
        result@ == chars@,
{
    chars.iter().collect()
}

/// Appends the characters of `text` to `out`.
pub fn push_text(out: &mut Vec<char>, text: &str)
    ensures
        final(out)@ == old(out)@ + text@,
{
    let chars = crate::text::chars_of(text);
    let mut index: usize = 0;
    let ghost start = out@;
    while index < chars.len()
        invariant
            chars@ == text@,
            index <= chars@.len(),
            out@ == start + chars@.take(index as int),
        decreases chars.len() - index,
    {
        out.push(chars[index]);
        proof {
            assert(chars@.take(index + 1) =~= chars@.take(index as int).push(chars@[index as int]));
        }
        index += 1;
    }
    proof {
        assert(chars@.take(chars@.len() as int) =~= chars@);
    }
}

/// Whether two texts are equal.
pub fn same_text(a: &str, b: &str) -> (result: bool)
    ensures
        result == (a@ == b@),
{
    let earlier = crate::text::precedes(a, b);
    let later = crate::text::precedes(b, a);
    proof {
        crate::text::lemma_text_lt_trichotomy(a@, b@);
        if a@ == b@ {
            crate::text::lemma_text_lt_irreflexive(a@);
        }
    }
    !earlier && !later
}

} // verus!
