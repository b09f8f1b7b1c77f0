//! Identifier-keyed tables: vectors of `(identifier, value)` pairs kept in
//! strictly increasing identifier order, so each identifier occurs once.
use crate::ident::Named;
use crate::text::{lemma_text_lt_irreflexive, lemma_text_lt_transitive, lemma_text_lt_trichotomy, text_lt};
use vstd::prelude::*;

verus! {

/// The identifiers strictly increase.
pub open spec fn keys_sorted<I: Named, T>(table: Seq<(I, T)>) -> bool {
    forall|i: int, j: int| 0 <= i < j < table.len() ==> text_lt((#[trigger] table[i]).0@, (#[trigger] table[j]).0@)
}

/// Whether some entry has identifier `key`.
pub open spec fn holds<I: Named, T>(table: Seq<(I, T)>, key: Seq<char>) -> bool {
    exists|i: int| 0 <= i < table.len() && (#[trigger] table[i]).0@ == key
}

/// The position of the entry with identifier `key`.
pub open spec fn position<I: Named, T>(table: Seq<(I, T)>, key: Seq<char>) -> int {
    choose|i: int| 0 <= i < table.len() && (#[trigger] table[i]).0@ == key
}

/// The value stored under `key`.
pub open spec fn value_of<I: Named, T>(table: Seq<(I, T)>, key: Seq<char>) -> T {
    table[position(table, key)].1
}

/// In a sorted table an identifier sits at one position only.
pub proof fn lemma_unique_position<I: Named, T>(table: Seq<(I, T)>, i: int, j: int)
    requires
        keys_sorted(table),
        0 <= i < table.len(),
        0 <= j < table.len(),
        table[i].0@ == table[j].0@,
    ensures
        i == j,
{
    lemma_text_lt_irreflexive(table[i].0@);
    if i < j {
        assert(text_lt(table[i].0@, table[j].0@));
    } else if j < i {
        assert(text_lt(table[j].0@, table[i].0@));
    }
}

/// The entry found at `i` is the one `position` and `value_of` read.
pub proof fn lemma_position<I: Named, T>(table: Seq<(I, T)>, i: int)
    requires
        keys_sorted(table),
        0 <= i < table.len(),
    ensures
        holds(table, table[i].0@),
        position(table, table[i].0@) == i,
        value_of(table, table[i].0@) == table[i].1,
{
    let key = table[i].0@;
    assert(table[i].0@ == key);
    let p = position(table, key);
    lemma_unique_position(table, i, p);
}

/// Finds the position of `key`.
pub fn find_key<I: Named, T>(table: &[(I, T)], key: &str) -> (result: Option<usize>)
    requires
        keys_sorted(table@),
    ensures
        match result {
            Some(index) => {
                &&& index < table@.len()
                &&& table@[index as int].0@ == key@
                &&& position(table@, key@) == index
                &&& holds(table@, key@)
            },
            None => !holds(table@, key@),
        },
{
    let mut index: usize = 0;
    while index < table.len()
        invariant
            keys_sorted(table@),
            index <= table@.len(),
            forall|i: int| 0 <= i < index ==> (#[trigger] table@[i]).0@ != key@,
        decreases table.len() - index,
    {
        if crate::format::same_text(table[index].0.text(), key) {
            proof {
                lemma_position(table@, index as int);
            }
            return Some(index);
        }
        index += 1;
    }
    None
}

/// Inserts `(key, value)` at its ordered position, or reports the position of
/// the entry that already has `key` and leaves the table unchanged.
pub fn insert_sorted<I: Named, T>(table: &mut Vec<(I, T)>, key: I, value: T) -> (result: Result<usize, usize>)
    requires
        keys_sorted(old(table)@),
    ensures
        keys_sorted(final(table)@),
        match result {
            Ok(p) => {
                &&& !holds(old(table)@, key@)
                &&& p <= old(table)@.len()
                &&& final(table)@ == old(table)@.insert(p as int, (key, value))
            },
            Err(i) => {
                &&& i < old(table)@.len()
                &&& old(table)@[i as int].0@ == key@
                &&& final(table)@ == old(table)@
            },
        },
{
    let ghost original = table@;
    let mut index: usize = 0;
    while index < table.len() && crate::text::precedes(table[index].0.text(), key.text())
        invariant
            table@ == original,
            index <= table@.len(),
            forall|i: int| 0 <= i < index ==> text_lt((#[trigger] table@[i]).0@, key@),
        decreases table.len() - index,
    {
        index += 1;
    }
    if index < table.len() && !crate::text::precedes(key.text(), table[index].0.text()) {
        proof {
            lemma_text_lt_trichotomy(table@[index as int].0@, key@);
        }
        return Err(index);
    }
    proof {
        assert forall|i: int| 0 <= i < original.len() implies (#[trigger] original[i]).0@ != key@ by {
            lemma_text_lt_irreflexive(key@);
            if i >= index {
                lemma_text_lt_trichotomy(original[index as int].0@, key@);
                if i > index {
                    lemma_text_lt_transitive(key@, original[index as int].0@, original[i].0@);
                }
            }
        }
    }
    let ghost entry = (key, value);
    table.insert(index, (key, value));
    proof {
        assert forall|i: int, j: int| 0 <= i < j < table@.len() implies text_lt(
            (#[trigger] table@[i]).0@,
            (#[trigger] table@[j]).0@,
        ) by {
            if j < index {
            } else if j == index {
            } else if i < index {
                lemma_text_lt_trichotomy(original[index as int].0@, key@);
                if j - 1 > index {
                    lemma_text_lt_transitive(key@, original[index as int].0@, original[j - 1].0@);
                }
                lemma_text_lt_transitive(original[i].0@, key@, original[j - 1].0@);
            } else if i == index {
                lemma_text_lt_trichotomy(original[index as int].0@, key@);
                if j - 1 > index {
                    lemma_text_lt_transitive(key@, original[index as int].0@, original[j - 1].0@);
                }
            } else {
            }
        }
    }
    Ok(index)
}

} // verus!
