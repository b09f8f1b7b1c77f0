//! Identifier text: nonblank validation and canonical (code point) order.
use vstd::prelude::*;

verus! {

/// Whether a character has the Unicode `White_Space` property, the property
/// that `char::is_whitespace` and `str::trim` test.
pub open spec fn is_white_space(c: char) -> bool {
    let v = c as u32;
    ||| 0x09 <= v <= 0x0D
    ||| v == 0x20
    ||| v == 0x85
    ||| v == 0xA0
    ||| v == 0x1680
    ||| 0x2000 <= v <= 0x200A
    ||| v == 0x2028
    ||| v == 0x2029
    ||| v == 0x202F
    ||| v == 0x205F
    ||| v == 0x3000
}

/// Whether text is empty or consists of whitespace only (`text.trim().is_empty()`).
pub open spec fn is_blank(text: Seq<char>) -> bool {
    forall|i: int| 0 <= i < text.len() ==> #[trigger] is_white_space(text[i])
}

/// Strict lexicographic order of texts by code point, which is the order of
/// their UTF-8 encodings and hence of `String`'s `Ord`.
pub open spec fn text_lt(a: Seq<char>, b: Seq<char>) -> bool
    decreases a.len(),
{
    if a.len() == 0 {
        b.len() > 0
    } else if b.len() == 0 {
        false
    } else if a[0] < b[0] {
        true
    } else if a[0] == b[0] {
        text_lt(a.drop_first(), b.drop_first())
    } else {
        false
    }
}

/// `text_lt` is irreflexive.
pub proof fn lemma_text_lt_irreflexive(a: Seq<char>)
    ensures
        !text_lt(a, a),
    decreases a.len(),
{
    if a.len() > 0 {
        lemma_text_lt_irreflexive(a.drop_first());
    }
}

/// `text_lt` is total on distinct texts and asymmetric.
pub proof fn lemma_text_lt_trichotomy(a: Seq<char>, b: Seq<char>)
    ensures
        a != b ==> (text_lt(a, b) || text_lt(b, a)),
        !(text_lt(a, b) && text_lt(b, a)),
    decreases a.len(),
{
    if a.len() == 0 && b.len() == 0 {
        assert(a =~= b);
    }
    if a.len() > 0 && b.len() > 0 && a[0] == b[0] {
        lemma_text_lt_trichotomy(a.drop_first(), b.drop_first());
        if a.drop_first() == b.drop_first() {
            assert(a =~= seq![a[0]] + a.drop_first());
            assert(b =~= seq![b[0]] + b.drop_first());
        }
    }
}

/// `text_lt` is transitive.
pub proof fn lemma_text_lt_transitive(a: Seq<char>, b: Seq<char>, c: Seq<char>)
    requires
        text_lt(a, b),
        text_lt(b, c),
    ensures
        text_lt(a, c),
    decreases a.len(),
{
    if a.len() > 0 && b.len() > 0 && c.len() > 0 && a[0] == b[0] && b[0] == c[0] {
        lemma_text_lt_transitive(a.drop_first(), b.drop_first(), c.drop_first());
    }
}

/// Whether a character has the Unicode `White_Space` property.
pub fn white_space(c: char) -> (result: bool)
    ensures
        result == is_white_space(c),
{
    let v = c as u32;
    (0x09 <= v && v <= 0x0D) || v == 0x20 || v == 0x85 || v == 0xA0 || v == 0x1680 || (0x2000
        <= v && v <= 0x200A) || v == 0x2028 || v == 0x2029 || v == 0x202F || v == 0x205F || v
        == 0x3000
}

/// The characters of a text, in order.
pub fn chars_of(text: &str) -> (result: Vec<char>)
    ensures
        result@ == text@,
{
    let mut result: Vec<char> = Vec::new();
    broadcast use vstd::string::axiom_spec_iter;
    for c in iter: text.chars()
        invariant
            result@ == iter.seq().take(iter.index() as int),
            iter.seq() == text@,
    {
        result.push(c);
    }
    result
}

/// Whether a text is empty or whitespace only.
pub fn blank(text: &str) -> (result: bool)
    ensures
        result == is_blank(text@),
{
    let chars = chars_of(text);
    let mut index: usize = 0;
    while index < chars.len()
        invariant
            chars@ == text@,
            index <= chars.len(),
            forall|i: int| 0 <= i < index ==> #[trigger] is_white_space(chars@[i]),
        decreases chars.len() - index,
    {
        if !white_space(chars[index]) {
            return false;
        }
        index += 1;
    }
    true
}

/// Strict code-point lexicographic order of two texts.
pub fn precedes(a: &str, b: &str) -> (result: bool)
    ensures
        result == text_lt(a@, b@),
{
    let x = chars_of(a);
    let y = chars_of(b);
    let mut index: usize = 0;
    proof {
        assert(x@.skip(0) =~= x@);
        assert(y@.skip(0) =~= y@);
    }
    while index < x.len() && index < y.len()
        invariant
            x@ == a@,
            y@ == b@,
            index <= x.len(),
            index <= y.len(),
            x@.take(index as int) == y@.take(index as int),
            text_lt(a@, b@) == text_lt(x@.skip(index as int), y@.skip(index as int)),
        decreases x.len() - index,
    {
        let p = x[index];
        let q = y[index];
        proof {
            assert(x@.skip(index as int)[0] == p);
            assert(y@.skip(index as int)[0] == q);
            assert(x@.skip(index as int).drop_first() =~= x@.skip(index + 1));
            assert(y@.skip(index as int).drop_first() =~= y@.skip(index + 1));
        }
        if p < q {
            return true;
        }
        if p != q {
            return false;
        }
        proof {
            assert(x@.take(index + 1) =~= x@.take(index as int).push(p));
            assert(y@.take(index + 1) =~= y@.take(index as int).push(q));
        }
        index += 1;
    }
    x.len() < y.len()
}

} // verus!
