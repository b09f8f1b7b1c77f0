//! Canonical identifier-keyed exact vectors: strictly ordered, one entry per key.
use crate::ident::Named;
use crate::rational::Rational;
use crate::text::{lemma_text_lt_transitive, lemma_text_lt_trichotomy, text_lt, lemma_text_lt_irreflexive};
use vstd::prelude::*;

verus! {

/// Contribution of one entry to the total for `key`.
pub open spec fn contribution<I: Named>(entry: (I, Rational), key: Seq<char>) -> real {
    if entry.0@ == key {
        entry.1@
    } else {
        0real
    }
}

/// Exact total of every entry with identifier `key` (zero when none).
pub open spec fn sum_for<I: Named>(entries: Seq<(I, Rational)>, key: Seq<char>) -> real
    decreases entries.len(),
{
    if entries.len() == 0 {
        0real
    } else {
        sum_for(entries.drop_last(), key) + contribution(entries.last(), key)
    }
}

/// Whether some entry has identifier `key`.
pub open spec fn has_key<I: Named>(entries: Seq<(I, Rational)>, key: Seq<char>) -> bool {
    exists|i: int| 0 <= i < entries.len() && #[trigger] entries[i].0@ == key
}

/// Entries are strictly ordered by identifier.
pub open spec fn strictly_sorted<I: Named>(entries: Seq<(I, Rational)>) -> bool {
    forall|i: int, j: int|
        0 <= i < j < entries.len() ==> text_lt(#[trigger] entries[i].0@, #[trigger] entries[j].0@)
}

/// Every entry value is nonzero.
pub open spec fn all_nonzero<I: Named>(entries: Seq<(I, Rational)>) -> bool {
    forall|i: int| 0 <= i < entries.len() ==> #[trigger] entries[i].1@ != 0real
}

/// A sum over entries without `key` is zero.
pub proof fn lemma_sum_for_absent<I: Named>(entries: Seq<(I, Rational)>, key: Seq<char>)
    requires
        !has_key(entries, key),
    ensures
        sum_for(entries, key) == 0real,
    decreases entries.len(),
{
    if entries.len() > 0 {
        assert(entries.last().0@ != key) by {
            if entries.last().0@ == key {
                assert(entries[entries.len() - 1].0@ == key);
            }
        }
        assert forall|i: int| 0 <= i < entries.drop_last().len() implies #[trigger] entries.drop_last()[i].0@ != key by {
            assert(entries.drop_last()[i] == entries[i]);
        }
        lemma_sum_for_absent(entries.drop_last(), key);
    }
}

/// In a strictly sorted vector, the total for the key at `index` is its value.
pub proof fn lemma_sum_for_sorted_at<I: Named>(entries: Seq<(I, Rational)>, index: int)
    requires
        strictly_sorted(entries),
        0 <= index < entries.len(),
    ensures
        sum_for(entries, entries[index].0@) == entries[index].1@,
    decreases entries.len(),
{
    let key = entries[index].0@;
    if index == entries.len() - 1 {
        assert forall|i: int| 0 <= i < entries.drop_last().len() implies #[trigger] entries.drop_last()[i].0@ != key by {
            assert(entries.drop_last()[i] == entries[i]);
            assert(text_lt(entries[i].0@, entries[index].0@));
            lemma_text_lt_irreflexive(key);
        }
        lemma_sum_for_absent(entries.drop_last(), key);
    } else {
        let shorter = entries.drop_last();
        assert(strictly_sorted(shorter)) by {
            assert forall|i: int, j: int| 0 <= i < j < shorter.len() implies text_lt(#[trigger] shorter[i].0@, #[trigger] shorter[j].0@) by {
                assert(shorter[i] == entries[i]);
                assert(shorter[j] == entries[j]);
            }
        }
        assert(shorter[index] == entries[index]);
        lemma_sum_for_sorted_at(shorter, index);
        assert(text_lt(entries[index].0@, entries.last().0@));
        lemma_text_lt_irreflexive(key);
    }
}

/// When no two entries share a key, the total for the key at `index` is its
/// value.
pub proof fn lemma_sum_for_distinct_at<I: Named>(entries: Seq<(I, Rational)>, index: int)
    requires
        forall|i: int, j: int| 0 <= i < j < entries.len() ==> (#[trigger] entries[i]).0@ != (#[trigger] entries[j]).0@,
        0 <= index < entries.len(),
    ensures
        sum_for(entries, entries[index].0@) == entries[index].1@,
    decreases entries.len(),
{
    let key = entries[index].0@;
    let shorter = entries.drop_last();
    if index == entries.len() - 1 {
        assert forall|i: int| 0 <= i < shorter.len() implies #[trigger] shorter[i].0@ != key by {
            assert(shorter[i] == entries[i]);
        }
        lemma_sum_for_absent(shorter, key);
    } else {
        assert forall|i: int, j: int| 0 <= i < j < shorter.len() implies (#[trigger] shorter[i]).0@ != (#[trigger] shorter[j]).0@ by {
            assert(shorter[i] == entries[i]);
            assert(shorter[j] == entries[j]);
        }
        assert(shorter[index] == entries[index]);
        lemma_sum_for_distinct_at(shorter, index);
        assert(entries.last() == entries[entries.len() - 1]);
    }
}

/// Inserting one entry adds its contribution.
pub proof fn lemma_sum_for_insert<I: Named>(
    entries: Seq<(I, Rational)>,
    index: int,
    entry: (I, Rational),
    key: Seq<char>,
)
    requires
        0 <= index <= entries.len(),
    ensures
        sum_for(entries.insert(index, entry), key) == sum_for(entries, key) + contribution(entry, key),
    decreases entries.len(),
{
    let inserted = entries.insert(index, entry);
    if index == entries.len() {
        assert(inserted.drop_last() =~= entries);
    } else {
        assert(inserted.drop_last() =~= entries.drop_last().insert(index, entry));
        assert(inserted.last() == entries.last());
        lemma_sum_for_insert(entries.drop_last(), index, entry, key);
    }
}

/// Replacing one entry exchanges its contribution.
pub proof fn lemma_sum_for_update<I: Named>(
    entries: Seq<(I, Rational)>,
    index: int,
    entry: (I, Rational),
    key: Seq<char>,
)
    requires
        0 <= index < entries.len(),
    ensures
        sum_for(entries.update(index, entry), key) == sum_for(entries, key) - contribution(
            entries[index],
            key,
        ) + contribution(entry, key),
    decreases entries.len(),
{
    let updated = entries.update(index, entry);
    if index == entries.len() - 1 {
        assert(updated.drop_last() =~= entries.drop_last());
    } else {
        assert(updated.drop_last() =~= entries.drop_last().update(index, entry));
        lemma_sum_for_update(entries.drop_last(), index, entry, key);
    }
}

/// Entry vectors with equal keys and equal values have equal totals.
pub proof fn lemma_same_views_same_sums<I: Named>(a: Seq<(I, Rational)>, b: Seq<(I, Rational)>)
    requires
        a.len() == b.len(),
        forall|i: int| 0 <= i < a.len() ==> (#[trigger] a[i]).0@ == b[i].0@ && a[i].1@ == b[i].1@,
    ensures
        forall|k: Seq<char>| #[trigger] sum_for(a, k) == sum_for(b, k),
        forall|k: Seq<char>| #[trigger] has_key(a, k) == has_key(b, k),
    decreases a.len(),
{
    if a.len() > 0 {
        assert forall|i: int| 0 <= i < a.drop_last().len() implies (#[trigger] a.drop_last()[i]).0@ == b.drop_last()[i].0@ && a.drop_last()[i].1@ == b.drop_last()[i].1@ by {
            assert(a.drop_last()[i] == a[i]);
            assert(b.drop_last()[i] == b[i]);
        }
        lemma_same_views_same_sums(a.drop_last(), b.drop_last());
        assert(a.last() == a[a.len() - 1]);
        assert forall|k: Seq<char>| #[trigger] sum_for(a, k) == sum_for(b, k) by {
            assert(sum_for(a, k) == sum_for(a.drop_last(), k) + contribution(a.last(), k));
            assert(sum_for(b, k) == sum_for(b.drop_last(), k) + contribution(b.last(), k));
        }
    }
    assert forall|k: Seq<char>| #[trigger] has_key(a, k) == has_key(b, k) by {
        if has_key(a, k) {
            let i = choose|i: int| 0 <= i < a.len() && #[trigger] a[i].0@ == k;
            assert(b[i].0@ == k);
        }
        if has_key(b, k) {
            let i = choose|i: int| 0 <= i < b.len() && #[trigger] b[i].0@ == k;
            assert(a[i].0@ == k);
        }
    }
}

/// Finds the entry for `key` in a strictly sorted vector.
pub fn find_entry<I: Named>(entries: &Vec<(I, Rational)>, key: &I) -> (result: Option<usize>)
    ensures
        match result {
            Some(index) => index < entries@.len() && entries@[index as int].0@ == key@,
            None => !has_key(entries@, key@),
        },
{
    let mut index: usize = 0;
    while index < entries.len()
        invariant
            index <= entries@.len(),
            forall|i: int| 0 <= i < index ==> #[trigger] entries@[i].0@ != key@,
        decreases entries.len() - index,
    {
        if crate::text::precedes(entries[index].0.text(), key.text()) == false && crate::text::precedes(
            key.text(),
            entries[index].0.text(),
        ) == false {
            proof {
                lemma_text_lt_trichotomy(entries@[index as int].0@, key@);
            }
            return Some(index);
        }
        proof {
            lemma_text_lt_irreflexive(key@);
        }
        index += 1;
    }
    None
}

/// Adds `amount` to the entry for `key`, inserting it in order when absent.
pub fn accumulate<I: Named>(entries: &mut Vec<(I, Rational)>, key: I, amount: Rational)
    requires
        strictly_sorted(old(entries)@),
    ensures
        strictly_sorted(final(entries)@),
        forall|k: Seq<char>| #[trigger]
            sum_for(final(entries)@, k) == sum_for(old(entries)@, k) + contribution((key, amount), k),
        forall|k: Seq<char>|
            #[trigger] has_key(final(entries)@, k) <==> (has_key(old(entries)@, k) || k == key@),
{
    let ghost original = entries@;
    let ghost entry = (key, amount);
    let mut index: usize = 0;
    while index < entries.len() && crate::text::precedes(entries[index].0.text(), key.text())
        invariant
            entries@ == original,
            index <= entries@.len(),
            forall|i: int| 0 <= i < index ==> text_lt(#[trigger] entries@[i].0@, key@),
        decreases entries.len() - index,
    {
        index += 1;
    }
    if index < entries.len() && !crate::text::precedes(key.text(), entries[index].0.text()) {
        proof {
            lemma_text_lt_trichotomy(entries@[index as int].0@, key@);
        }
        let sum = entries[index].1.add(&amount);
        let name = entries[index].0.duplicate();
        let ghost updated = (name, sum);
        entries.set(index, (name, sum));
        proof {
            assert(entries@ == original.update(index as int, updated));
            assert forall|k: Seq<char>| #[trigger]
                sum_for(entries@, k) == sum_for(original, k) + contribution(entry, k) by {
                lemma_sum_for_update(original, index as int, updated, k);
            }
            assert forall|k: Seq<char>|
                #[trigger] has_key(entries@, k) <==> (has_key(original, k) || k == key@) by {
                if has_key(original, k) {
                    let i = choose|i: int| 0 <= i < original.len() && #[trigger] original[i].0@ == k;
                    assert(entries@[i].0@ == k);
                }
                if k == key@ {
                    assert(entries@[index as int].0@ == k);
                }
                if has_key(entries@, k) {
                    let i = choose|i: int| 0 <= i < entries@.len() && #[trigger] entries@[i].0@ == k;
                    assert(original[i].0@ == k);
                }
            }
        }
    } else {
        entries.insert(index, (key, amount));
        proof {
            assert(entries@ == original.insert(index as int, entry));
            assert forall|k: Seq<char>| #[trigger]
                sum_for(entries@, k) == sum_for(original, k) + contribution(entry, k) by {
                lemma_sum_for_insert(original, index as int, entry, k);
            }
            assert forall|i: int, j: int| 0 <= i < j < entries@.len() implies text_lt(
                #[trigger] entries@[i].0@,
                #[trigger] entries@[j].0@,
            ) by {
                if j < index {
                } else if j == index {
                } else if i < index {
                    lemma_text_lt_trichotomy(original[index as int].0@, key@);
                    if j - 1 > index {
                        lemma_text_lt_transitive(key@, original[index as int].0@, original[j - 1].0@);
                    }
                    lemma_text_lt_transitive(original[i].0@, key@, original[j - 1].0@);
                } else if i == index {
                    lemma_text_lt_trichotomy(original[index as int].0@, key@);
                    if j - 1 > index {
                        lemma_text_lt_transitive(key@, original[index as int].0@, original[j - 1].0@);
                    }
                } else {
                }
            }
            assert forall|k: Seq<char>|
                #[trigger] has_key(entries@, k) <==> (has_key(original, k) || k == key@) by {
                if has_key(original, k) {
                    let i = choose|i: int| 0 <= i < original.len() && #[trigger] original[i].0@ == k;
                    if i < index {
                        assert(entries@[i].0@ == k);
                    } else {
                        assert(entries@[i + 1].0@ == k);
                    }
                }
                if k == key@ {
                    assert(entries@[index as int].0@ == k);
                }
                if has_key(entries@, k) {
                    let i = choose|i: int| 0 <= i < entries@.len() && #[trigger] entries@[i].0@ == k;
                    if i < index {
                        assert(original[i].0@ == k);
                    } else if i > index {
                        assert(original[i - 1].0@ == k);
                    }
                }
            }
        }
    }
}

/// Keeps the entries whose value is nonzero, preserving order and totals.
pub fn retain_nonzero<I: Named>(entries: &Vec<(I, Rational)>) -> (result: Vec<(I, Rational)>)
    requires
        strictly_sorted(entries@),
    ensures
        strictly_sorted(result@),
        all_nonzero(result@),
        forall|k: Seq<char>| #[trigger] sum_for(result@, k) == sum_for(entries@, k),
        forall|k: Seq<char>| #[trigger] has_key(result@, k) ==> has_key(entries@, k),
{
    let mut result: Vec<(I, Rational)> = Vec::new();
    let mut index: usize = 0;
    let ghost mut origin: Seq<int> = Seq::empty();
    proof {
        assert(entries@.take(0) =~= Seq::<(I, Rational)>::empty());
    }
    while index < entries.len()
        invariant
            index <= entries@.len(),
            strictly_sorted(entries@),
            strictly_sorted(result@),
            all_nonzero(result@),
            forall|k: Seq<char>| #[trigger] sum_for(result@, k) == sum_for(entries@.take(index as int), k),
            origin.len() == result@.len(),
            forall|i: int| 0 <= i < result@.len() ==> 0 <= #[trigger] origin[i] < index && entries@[origin[i]].0@ == result@[i].0@,
        decreases entries.len() - index,
    {
        let ghost before = result@;
        let ghost prefix = entries@.take(index as int);
        let ghost next = entries@.take(index + 1);
        proof {
            assert(next.drop_last() =~= prefix);
            assert(next.last() == entries@[index as int]);
        }
        if !entries[index].1.is_zero() {
            let entry = (entries[index].0.duplicate(), entries[index].1.clone());
            result.push(entry);
            proof {
                origin = origin.push(index as int);
                assert(result@.drop_last() =~= before);
                assert forall|k: Seq<char>| #[trigger] sum_for(result@, k) == sum_for(next, k) by {
                    assert(sum_for(result@, k) == sum_for(before, k) + contribution(entry, k));
                    assert(sum_for(next, k) == sum_for(prefix, k) + contribution(entries@[index as int], k));
                }
                assert forall|i: int, j: int| 0 <= i < j < result@.len() implies text_lt(#[trigger] result@[i].0@, #[trigger] result@[j].0@) by {
                    if j == result@.len() - 1 {
                        assert(origin[i] < index);
                        assert(text_lt(entries@[origin[i]].0@, entries@[index as int].0@));
                    } else {
                        assert(result@[i] == before[i]);
                        assert(result@[j] == before[j]);
                    }
                }
                assert forall|i: int| 0 <= i < result@.len() implies 0 <= #[trigger] origin[i] < index + 1 && entries@[origin[i]].0@ == result@[i].0@ by {
                    if i < result@.len() - 1 {
                        assert(result@[i] == before[i]);
                    }
                }
            }
        } else {
            proof {
                assert forall|k: Seq<char>| #[trigger] sum_for(result@, k) == sum_for(next, k) by {
                    assert(sum_for(next, k) == sum_for(prefix, k) + contribution(entries@[index as int], k));
                }
            }
        }
        index += 1;
    }
    proof {
        assert(entries@.take(entries@.len() as int) =~= entries@);
        assert forall|k: Seq<char>| #[trigger] has_key(result@, k) implies has_key(entries@, k) by {
            let i = choose|i: int| 0 <= i < result@.len() && #[trigger] result@[i].0@ == k;
            assert(entries@[origin[i]].0@ == k);
        }
    }
    result
}


/// Combines repeated identifiers and discards exact zero totals, in
/// identifier order.
pub fn canonical_terms<I: Named>(terms: &Vec<(I, Rational)>) -> (result: Vec<(I, Rational)>)
    ensures
        strictly_sorted(result@),
        all_nonzero(result@),
        forall|k: Seq<char>| #[trigger] sum_for(result@, k) == sum_for(terms@, k),
        forall|k: Seq<char>| #[trigger] has_key(result@, k) <==> sum_for(terms@, k) != 0real,
{
    let mut combined: Vec<(I, Rational)> = Vec::new();
    let mut index: usize = 0;
    proof {
        assert(terms@.take(0) =~= Seq::<(I, Rational)>::empty());
    }
    while index < terms.len()
        invariant
            index <= terms@.len(),
            strictly_sorted(combined@),
            forall|k: Seq<char>| #[trigger] sum_for(combined@, k) == sum_for(terms@.take(index as int), k),
        decreases terms.len() - index,
    {
        let key = terms[index].0.duplicate();
        let amount = terms[index].1.clone();
        accumulate(&mut combined, key, amount);
        proof {
            let next = terms@.take(index + 1);
            assert(next.drop_last() =~= terms@.take(index as int));
            assert forall|k: Seq<char>| #[trigger] sum_for(combined@, k) == sum_for(next, k) by {
                assert(sum_for(next, k) == sum_for(terms@.take(index as int), k) + contribution(terms@[index as int], k));
            }
        }
        index += 1;
    }
    proof {
        assert(terms@.take(terms@.len() as int) =~= terms@);
    }
    let retained = retain_nonzero(&combined);
    proof {
        assert forall|k: Seq<char>| #[trigger] has_key(retained@, k) <==> sum_for(terms@, k) != 0real by {
            if has_key(retained@, k) {
                let i = choose|i: int| 0 <= i < retained@.len() && #[trigger] retained@[i].0@ == k;
                lemma_sum_for_sorted_at(retained@, i);
            } else {
                lemma_sum_for_absent(retained@, k);
            }
        }
    }
    retained
}

} // verus!
