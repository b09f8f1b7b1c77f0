//! Validation of user kind declarations into a kind table: names and base
//! dimensions nonblank, exponents nonzero, floors exact, and each difference
//! kind a declared linear kind of the same dimensions.
use crate::format::same_text;
use crate::rational::Rational;
use crate::text::{blank, is_blank, lemma_text_lt_irreflexive, lemma_text_lt_transitive, lemma_text_lt_trichotomy, precedes, text_lt};
use vstd::prelude::*;

verus! {

/// One kind declaration before validation: its base dimensions and their
/// exponents in base order, an optional floor text, and an optional
/// difference kind.
#[derive(Clone, Debug, PartialEq, Eq)]
pub struct Declaration {
    /// Base dimension names with their exponents, in strictly increasing name order.
    pub dimensions: Vec<(String, i32)>,
    /// The floor as supplied, when the kind has one.
    pub floor: Option<String>,
    /// The kind of a difference of two values, for a point kind.
    pub difference: Option<String>,
}

/// Why a set of kind declarations is refused.
#[derive(Clone, Debug, PartialEq, Eq)]
pub enum DeclarationError {
    /// A kind name is blank.
    BlankKind { name: String },
    /// A kind declares a blank base dimension.
    BlankBase { kind: String },
    /// A kind declares a zero exponent.
    ZeroExponent { kind: String, base: String },
    /// A kind's floor is not an exact rational.
    InvalidFloor { kind: String, value: String },
    /// A kind names an undeclared difference kind.
    UnknownDifference { kind: String, difference: String },
    /// A kind's difference kind is itself a point kind.
    DifferenceIsPoint { kind: String, difference: String },
    /// A kind and its difference kind have different dimensions.
    DifferenceDimensions { kind: String, difference: String },
}

/// One validated kind.
#[derive(Debug)]
pub struct KindEntry {
    /// The kind's name.
    pub name: String,
    /// Its exponents, indexed like the table's bases.
    pub powers: Vec<i32>,
    /// Its exact floor, when it has one.
    pub floor: Option<Rational>,
    /// The index of its difference kind, for a point kind.
    pub difference: Option<usize>,
}

/// A validated table of kinds, in name order, over the sorted base dimensions.
#[derive(Debug)]
pub struct KindTable {
    /// Every base dimension named by some kind, in strictly increasing order.
    pub bases: Vec<String>,
    /// The kinds in the declarations' order.
    pub kinds: Vec<KindEntry>,
}

/// Whether the texts strictly increase.
pub open spec fn texts_sorted(texts: Seq<Seq<char>>) -> bool {
    forall|i: int, j: int| 0 <= i < j < texts.len() ==> text_lt(#[trigger] texts[i], #[trigger] texts[j])
}

/// The kind names, in order.
pub open spec fn kind_names(declarations: Seq<(String, Declaration)>) -> Seq<Seq<char>> {
    declarations.map_values(|d: (String, Declaration)| d.0@)
}

/// The base names of a declaration's dimensions, in order.
pub open spec fn base_names(dimensions: Seq<(String, i32)>) -> Seq<Seq<char>> {
    dimensions.map_values(|b: (String, i32)| b.0@)
}

/// Whether a base dimension is nonblank with a nonzero exponent.
pub open spec fn base_ok(base: (String, i32)) -> bool {
    !is_blank(base.0@) && base.1 != 0
}

/// Whether a declaration's name and base dimensions are well formed.
pub open spec fn shape_ok(declaration: (String, Declaration)) -> bool {
    &&& !is_blank(declaration.0@)
    &&& forall|b: int| 0 <= b < declaration.1.dimensions@.len() ==> base_ok(#[trigger] declaration.1.dimensions@[b])
}

/// The error a malformed declaration reports: a blank name, else its first
/// blank base or zero exponent.
pub open spec fn shape_error(declaration: (String, Declaration), error: DeclarationError) -> bool {
    let dimensions = declaration.1.dimensions@;
    if is_blank(declaration.0@) {
        error == DeclarationError::BlankKind { name: declaration.0 }
    } else {
        exists|b: int|
            0 <= b < dimensions.len() && (forall|c: int| 0 <= c < b ==> base_ok(#[trigger] dimensions[c])) && !base_ok(
                #[trigger] dimensions[b],
            ) && if is_blank(dimensions[b].0@) {
                error == DeclarationError::BlankBase { kind: declaration.0 }
            } else {
                error == DeclarationError::ZeroExponent { kind: declaration.0, base: dimensions[b].0 }
            }
    }
}

/// Whether some declaration is named `name`.
pub open spec fn names_kind(declarations: Seq<(String, Declaration)>, name: Seq<char>) -> bool {
    exists|j: int| 0 <= j < declarations.len() && (#[trigger] declarations[j]).0@ == name
}

/// The position of the declaration named `name`.
pub open spec fn kind_position(declarations: Seq<(String, Declaration)>, name: Seq<char>) -> int {
    choose|j: int| 0 <= j < declarations.len() && (#[trigger] declarations[j]).0@ == name
}

/// Whether two dimension lists declare the same bases with the same exponents.
pub open spec fn same_dimensions(a: Seq<(String, i32)>, b: Seq<(String, i32)>) -> bool {
    &&& a.len() == b.len()
    &&& forall|i: int| 0 <= i < a.len() ==> (#[trigger] a[i]).0@ == b[i].0@ && a[i].1 == b[i].1
}

/// Whether declaration `i` has an exact floor, if any, and a difference kind,
/// if any, that is declared, linear and of the same dimensions.
pub open spec fn link_ok(declarations: Seq<(String, Declaration)>, floors: Seq<Option<Rational>>, i: int) -> bool {
    let d = declarations[i];
    &&& !(d.1.floor is Some && floors[i] is None)
    &&& d.1.difference matches Some(name) ==> {
        let target = declarations[kind_position(declarations, name@)];
        &&& names_kind(declarations, name@)
        &&& target.1.difference is None
        &&& same_dimensions(target.1.dimensions@, d.1.dimensions@)
    }
}

/// The error declaration `i` reports when its floor or difference kind fails:
/// an inexact floor, then an unknown difference kind, one that is a point
/// kind, or one of other dimensions.
pub open spec fn link_error(
    declarations: Seq<(String, Declaration)>,
    floors: Seq<Option<Rational>>,
    i: int,
    error: DeclarationError,
) -> bool {
    let d = declarations[i];
    if d.1.floor is Some && floors[i] is None {
        error == DeclarationError::InvalidFloor { kind: d.0, value: d.1.floor->0 }
    } else {
        match d.1.difference {
            Some(name) => {
                let target = declarations[kind_position(declarations, name@)];
                if !names_kind(declarations, name@) {
                    error == DeclarationError::UnknownDifference { kind: d.0, difference: name }
                } else if target.1.difference is Some {
                    error == DeclarationError::DifferenceIsPoint { kind: d.0, difference: name }
                } else {
                    error == DeclarationError::DifferenceDimensions { kind: d.0, difference: name }
                }
            },
            None => false,
        }
    }
}

/// Whether `error` is what validating the declarations reports: the first
/// malformed declaration in order; when every one is well formed, the first
/// whose floor or difference kind fails.
pub open spec fn declarations_error(declarations: Seq<(String, Declaration)>, floors: Seq<Option<Rational>>, error: DeclarationError) -> bool {
    ||| exists|i: int|
        0 <= i < declarations.len() && (forall|k: int| 0 <= k < i ==> shape_ok(#[trigger] declarations[k])) && !shape_ok(
            #[trigger] declarations[i],
        ) && shape_error(declarations[i], error)
    ||| (forall|k: int| 0 <= k < declarations.len() ==> shape_ok(#[trigger] declarations[k])) && exists|i: int|
        0 <= i < declarations.len() && (forall|k: int| 0 <= k < i ==> link_ok(declarations, floors, k)) && !link_ok(
            declarations,
            floors,
            i,
        ) && link_error(declarations, floors, i, error)
}

/// Whether some declaration names base `base`.
pub open spec fn declares_base(declarations: Seq<(String, Declaration)>, base: Seq<char>) -> bool {
    exists|i: int, c: int|
        0 <= i < declarations.len() && 0 <= c < declarations[i].1.dimensions@.len()
            && (#[trigger] declarations[i].1.dimensions@[c]).0@ == base
}

/// The exponent a dimension list gives base `base`, zero when it names none.
pub open spec fn exponent(dimensions: Seq<(String, i32)>, base: Seq<char>) -> i32 {
    if exists|c: int| 0 <= c < dimensions.len() && (#[trigger] dimensions[c]).0@ == base {
        dimensions[choose|c: int| 0 <= c < dimensions.len() && (#[trigger] dimensions[c]).0@ == base].1
    } else {
        0
    }
}

/// Whether some of the texts is `x`.
pub open spec fn has_text(texts: Seq<String>, x: Seq<char>) -> bool {
    exists|k: int| 0 <= k < texts.len() && #[trigger] texts[k]@ == x
}

/// Inserts `base` into strictly increasing texts, unless present.
fn insert_base(bases: &mut Vec<String>, base: &String)
    requires
        texts_sorted(old(bases)@.map_values(|t: String| t@)),
    ensures
        texts_sorted(final(bases)@.map_values(|t: String| t@)),
        forall|x: Seq<char>| #[trigger] has_text(final(bases)@, x) <==> (has_text(old(bases)@, x) || x == base@),
{
    let ghost before = bases@;
    let ghost texts = before.map_values(|t: String| t@);
    let mut p: usize = 0;
    while p < bases.len() && precedes(bases[p].as_str(), base.as_str())
        invariant
            bases@ == before,
            p <= bases@.len(),
            forall|k: int| 0 <= k < p ==> text_lt((#[trigger] bases@[k])@, base@),
        decreases bases.len() - p,
    {
        p += 1;
    }
    if p < bases.len() && same_text(bases[p].as_str(), base.as_str()) {
        return;
    }
    bases.insert(p, base.clone());
    proof {
        let after = bases@.map_values(|t: String| t@);
        assert forall|k: int| 0 <= k < before.len() implies #[trigger] texts[k] == before[k]@ by {}
        if p < before.len() {
            lemma_text_lt_trichotomy(before[p as int]@, base@);
            assert(text_lt(base@, before[p as int]@));
        }
        assert forall|i: int, j: int| 0 <= i < j < after.len() implies text_lt(#[trigger] after[i], #[trigger] after[j]) by {
            if j < p {
                assert(text_lt(texts[i], texts[j]));
            } else if j == p {
                assert(text_lt(before[i]@, base@));
            } else if i < p {
                if j - 1 == p {
                    lemma_text_lt_transitive(before[i]@, base@, before[p as int]@);
                } else {
                    assert(text_lt(texts[i], texts[j - 1]));
                }
            } else if i == p {
                if j - 1 > p {
                    assert(text_lt(texts[p as int], texts[j - 1]));
                    lemma_text_lt_transitive(base@, before[p as int]@, before[j - 1]@);
                }
            } else {
                assert(text_lt(texts[i - 1], texts[j - 1]));
            }
        }
        assert forall|x: Seq<char>| #[trigger] has_text(bases@, x) <==> (has_text(before, x) || x == base@) by {
            if exists|k: int| 0 <= k < before.len() && #[trigger] before[k]@ == x {
                let k = choose|k: int| 0 <= k < before.len() && #[trigger] before[k]@ == x;
                if k < p {
                    assert(bases@[k] == before[k]);
                } else {
                    assert(bases@[k + 1] == before[k]);
                }
            }
            if x == base@ {
                assert(bases@[p as int]@ == x);
            }
            if exists|k: int| 0 <= k < bases@.len() && #[trigger] bases@[k]@ == x {
                let k = choose|k: int| 0 <= k < bases@.len() && #[trigger] bases@[k]@ == x;
                if k < p {
                    assert(bases@[k] == before[k]);
                } else if k > p {
                    assert(bases@[k] == before[k - 1]);
                }
            }
        }
    }
}

/// The position of the kind named `name`, or the number of kinds when none is.
fn find_kind(declarations: &Vec<(String, Declaration)>, name: &String) -> (result: usize)
    ensures
        result <= declarations@.len(),
        result < declarations@.len() ==> declarations@[result as int].0@ == name@,
        result == declarations@.len() ==> !names_kind(declarations@, name@),
{
    let mut j: usize = 0;
    while j < declarations.len()
        invariant
            j <= declarations@.len(),
            forall|k: int| 0 <= k < j ==> (#[trigger] declarations@[k]).0@ != name@,
        decreases declarations.len() - j,
    {
        if same_text(declarations[j].0.as_str(), name.as_str()) {
            return j;
        }
        j += 1;
    }
    j
}

/// Whether two dimension lists are the same.
fn dimensions_match(a: &Vec<(String, i32)>, b: &Vec<(String, i32)>) -> (result: bool)
    ensures
        result == same_dimensions(a@, b@),
{
    if a.len() != b.len() {
        return false;
    }
    let mut i: usize = 0;
    while i < a.len()
        invariant
            a@.len() == b@.len(),
            i <= a@.len(),
            forall|k: int| 0 <= k < i ==> (#[trigger] a@[k]).0@ == b@[k].0@ && a@[k].1 == b@[k].1,
        decreases a.len() - i,
    {
        if !same_text(a[i].0.as_str(), b[i].0.as_str()) || a[i].1 != b[i].1 {
            return false;
        }
        i += 1;
    }
    true
}

/// The exponent of `base` in the dimension list.
fn exponent_of(dimensions: &Vec<(String, i32)>, base: &String) -> (result: i32)
    requires
        texts_sorted(base_names(dimensions@)),
    ensures
        result == exponent(dimensions@, base@),
{
    let mut c: usize = 0;
    while c < dimensions.len()
        invariant
            texts_sorted(base_names(dimensions@)),
            c <= dimensions@.len(),
            forall|k: int| 0 <= k < c ==> (#[trigger] dimensions@[k]).0@ != base@,
        decreases dimensions.len() - c,
    {
        if same_text(dimensions[c].0.as_str(), base.as_str()) {
            proof {
                let k = choose|k: int| 0 <= k < dimensions@.len() && (#[trigger] dimensions@[k]).0@ == base@;
                if k != c {
                    let names = base_names(dimensions@);
                    lemma_text_lt_irreflexive(base@);
                    if k < c {
                        assert(text_lt(names[k], names[c as int]));
                    } else {
                        assert(names[k] == dimensions@[k].0@);
                        assert(names[c as int] == dimensions@[c as int].0@);
                        assert(texts_sorted(names));
                        assert(c < k && k < names.len());
                        assert(text_lt(names[c as int], names[k]));
                    }
                }
            }
            return dimensions[c].1;
        }
        c += 1;
    }
    0
}


/// Whether one of the first `count` declarations names base `base`.
pub open spec fn declares_base_before(declarations: Seq<(String, Declaration)>, count: int, base: Seq<char>) -> bool {
    exists|i: int, c: int|
        0 <= i < count && 0 <= c < declarations[i].1.dimensions@.len() && (#[trigger] declarations[i].1.dimensions@[c]).0@
            == base
}

/// Whether `entry` is the validated form of declaration `i` over the bases.
pub open spec fn kind_built(
    declarations: Seq<(String, Declaration)>,
    floors: Seq<Option<Rational>>,
    bases: Seq<String>,
    i: int,
    entry: KindEntry,
) -> bool {
    let d = declarations[i];
    &&& entry.name@ == d.0@
    &&& entry.powers@.len() == bases.len()
    &&& forall|b: int| 0 <= b < bases.len() ==> #[trigger] entry.powers@[b] == exponent(d.1.dimensions@, bases[b]@)
    &&& d.1.floor is None ==> entry.floor is None
    &&& d.1.floor is Some ==> (entry.floor matches Some(floor) && floors[i] matches Some(value) && floor@ == value@)
    &&& d.1.difference is None ==> entry.difference is None
    &&& d.1.difference matches Some(name) ==> (entry.difference matches Some(j) && j < declarations.len()
        && declarations[j as int].0@ == name@)
}

/// Sorted names identify their declaration.
proof fn lemma_unique_name(declarations: Seq<(String, Declaration)>, a: int, b: int)
    requires
        texts_sorted(kind_names(declarations)),
        0 <= a < declarations.len(),
        0 <= b < declarations.len(),
        declarations[a].0@ == declarations[b].0@,
    ensures
        a == b,
{
    let names = kind_names(declarations);
    lemma_text_lt_irreflexive(declarations[a].0@);
    if a < b {
        assert(text_lt(names[a], names[b]));
    } else if b < a {
        assert(text_lt(names[b], names[a]));
    }
}

/// Validates every declaration and builds the kind table.
///
/// `floors[i]` is the exact value of declaration `i`'s floor text, or `None`
/// when that text is not an exact rational; it is read only where a floor is
/// declared. Every declaration is first checked for a blank name, then a blank
/// base or zero exponent, in order; then each, in order, for an inexact floor
/// and a difference kind that is undeclared, a point kind, or of other
/// dimensions.
pub fn validate_declarations(declarations: Vec<(String, Declaration)>, floors: Vec<Option<Rational>>) -> (result: Result<
    KindTable,
    DeclarationError,
>)
    requires
        texts_sorted(kind_names(declarations@)),
        forall|i: int| 0 <= i < declarations@.len() ==> texts_sorted(base_names((#[trigger] declarations@[i]).1.dimensions@)),
        floors@.len() == declarations@.len(),
    ensures
        result is Ok <==> ((forall|i: int| 0 <= i < declarations@.len() ==> shape_ok(#[trigger] declarations@[i])) && (forall|i: int|
            0 <= i < declarations@.len() ==> link_ok(declarations@, floors@, i))),
        match result {
            Ok(table) => {
                &&& texts_sorted(table.bases@.map_values(|t: String| t@))
                &&& forall|x: Seq<char>| #[trigger] has_text(table.bases@, x) <==> declares_base_before(
                    declarations@,
                    declarations@.len() as int,
                    x,
                )
                &&& table.kinds@.len() == declarations@.len()
                &&& forall|i: int| 0 <= i < declarations@.len() ==> kind_built(declarations@, floors@, table.bases@, i, #[trigger] table.kinds@[i])
            },
            Err(error) => declarations_error(declarations@, floors@, error),
        },
{
    let mut bases: Vec<String> = Vec::new();
    let mut i: usize = 0;
    while i < declarations.len()
        invariant
            i <= declarations@.len(),
            forall|k: int| 0 <= k < i ==> shape_ok(#[trigger] declarations@[k]),
            texts_sorted(bases@.map_values(|t: String| t@)),
            forall|x: Seq<char>| #[trigger] has_text(bases@, x) <==> declares_base_before(declarations@, i as int, x),
        decreases declarations.len() - i,
    {
        let declaration = &declarations[i];
        if blank(declaration.0.as_str()) {
            let error = DeclarationError::BlankKind { name: declaration.0.clone() };
            proof {
                assert(!shape_ok(declarations@[i as int]));
                assert(shape_error(declarations@[i as int], error));
            }
            return Err(error);
        }
        let dimensions = &declaration.1.dimensions;
        let mut b: usize = 0;
        while b < dimensions.len()
            invariant
                i < declarations@.len(),
                forall|k: int| 0 <= k < i ==> shape_ok(#[trigger] declarations@[k]),
                *declaration == declarations@[i as int],
                *dimensions == declarations@[i as int].1.dimensions,
                !is_blank(declarations@[i as int].0@),
                b <= dimensions@.len(),
                forall|c: int| 0 <= c < b ==> base_ok(#[trigger] dimensions@[c]),
                texts_sorted(bases@.map_values(|t: String| t@)),
                forall|x: Seq<char>| #[trigger] has_text(bases@, x) <==> (declares_base_before(declarations@, i as int, x) || exists|c: int|
                    0 <= c < b && (#[trigger] dimensions@[c]).0@ == x),
            decreases dimensions.len() - b,
        {
            if blank(dimensions[b].0.as_str()) {
                let error = DeclarationError::BlankBase { kind: declaration.0.clone() };
                proof {
                    let d = declarations@[i as int];
                    let dims = d.1.dimensions@;
                    assert(dims == dimensions@);
                    assert(!base_ok(dims[b as int]));
                    assert(forall|c: int| 0 <= c < b ==> base_ok(#[trigger] dims[c]));
                    assert(!is_blank(d.0@));
                    assert(declaration.0 == d.0);
                    assert(shape_error(d, error));
                }
                return Err(error);
            }
            if dimensions[b].1 == 0 {
                let error = DeclarationError::ZeroExponent { kind: declaration.0.clone(), base: dimensions[b].0.clone() };
                proof {
                    let d = declarations@[i as int];
                    let dims = d.1.dimensions@;
                    assert(dims == dimensions@);
                    assert(!base_ok(dims[b as int]));
                    assert(forall|c: int| 0 <= c < b ==> base_ok(#[trigger] dims[c]));
                    assert(!is_blank(d.0@));
                    assert(declaration.0 == d.0);
                    assert(shape_error(d, error));
                }
                return Err(error);
            }
            let ghost before = bases@;
            insert_base(&mut bases, &dimensions[b].0);
            proof {
                assert forall|x: Seq<char>| #[trigger] has_text(bases@, x) <==> (declares_base_before(declarations@, i as int, x) || exists|c: int|
                    0 <= c < b + 1 && (#[trigger] dimensions@[c]).0@ == x) by {
                    if x == dimensions@[b as int].0@ {
                        assert(exists|c: int| 0 <= c < b + 1 && (#[trigger] dimensions@[c]).0@ == x);
                    }
                    assert(has_text(before, x) <==> (declares_base_before(declarations@, i as int, x) || exists|c: int|
                        0 <= c < b && (#[trigger] dimensions@[c]).0@ == x));
                }
            }
            b += 1;
        }
        proof {
            assert(shape_ok(declarations@[i as int]));
            assert forall|x: Seq<char>| #[trigger] has_text(bases@, x) <==> declares_base_before(declarations@, i + 1, x) by {
                if declares_base_before(declarations@, i + 1, x) {
                    let (k, c) = choose|k: int, c: int|
                        0 <= k < i + 1 && 0 <= c < declarations@[k].1.dimensions@.len() && (#[trigger] declarations@[k].1.dimensions@[c]).0@ == x;
                    if k < i {
                        assert(declares_base_before(declarations@, i as int, x));
                    } else {
                        assert((dimensions@[c]).0@ == x);
                    }
                }
                if exists|c: int| 0 <= c < b && (#[trigger] dimensions@[c]).0@ == x {
                    let c = choose|c: int| 0 <= c < b && (#[trigger] dimensions@[c]).0@ == x;
                    assert(declarations@[i as int].1.dimensions@[c].0@ == x);
                }
                if declares_base_before(declarations@, i as int, x) {
                    let (k, c) = choose|k: int, c: int|
                        0 <= k < i && 0 <= c < declarations@[k].1.dimensions@.len() && (#[trigger] declarations@[k].1.dimensions@[c]).0@ == x;
                    assert(declarations@[k].1.dimensions@[c].0@ == x);
                }
            }
        }
        i += 1;
    }
    let mut kinds: Vec<KindEntry> = Vec::new();
    let mut i: usize = 0;
    while i < declarations.len()
        invariant
            texts_sorted(kind_names(declarations@)),
            forall|k: int| 0 <= k < declarations@.len() ==> texts_sorted(base_names((#[trigger] declarations@[k]).1.dimensions@)),
            floors@.len() == declarations@.len(),
            forall|k: int| 0 <= k < declarations@.len() ==> shape_ok(#[trigger] declarations@[k]),
            i <= declarations@.len(),
            forall|k: int| 0 <= k < i ==> link_ok(declarations@, floors@, k),
            kinds@.len() == i,
            forall|k: int| 0 <= k < i ==> kind_built(declarations@, floors@, bases@, k, #[trigger] kinds@[k]),
        decreases declarations.len() - i,
    {
        let declaration = &declarations[i];
        let floor = match &declaration.1.floor {
            Some(text) => match &floors[i] {
                Some(value) => Some(value.clone()),
                None => {
                    let error = DeclarationError::InvalidFloor { kind: declaration.0.clone(), value: text.clone() };
                    proof {
                        assert(!link_ok(declarations@, floors@, i as int));
                        assert(link_error(declarations@, floors@, i as int, error));
                    }
                    return Err(error);
                },
            },
            None => None,
        };
        let difference = match &declaration.1.difference {
            Some(name) => {
                let j = find_kind(&declarations, name);
                if j == declarations.len() {
                    let error = DeclarationError::UnknownDifference { kind: declaration.0.clone(), difference: name.clone() };
                    proof {
                        assert(!link_ok(declarations@, floors@, i as int));
                        assert(link_error(declarations@, floors@, i as int, error));
                    }
                    return Err(error);
                }
                proof {
                    assert(names_kind(declarations@, name@));
                    let p = kind_position(declarations@, name@);
                    lemma_unique_name(declarations@, p, j as int);
                }
                if declarations[j].1.difference.is_some() {
                    let error = DeclarationError::DifferenceIsPoint { kind: declaration.0.clone(), difference: name.clone() };
                    proof {
                        assert(!link_ok(declarations@, floors@, i as int));
                        assert(link_error(declarations@, floors@, i as int, error));
                    }
                    return Err(error);
                }
                if !dimensions_match(&declarations[j].1.dimensions, &declaration.1.dimensions) {
                    let error = DeclarationError::DifferenceDimensions { kind: declaration.0.clone(), difference: name.clone() };
                    proof {
                        assert(!link_ok(declarations@, floors@, i as int));
                        assert(link_error(declarations@, floors@, i as int, error));
                    }
                    return Err(error);
                }
                Some(j)
            },
            None => None,
        };
        let mut powers: Vec<i32> = Vec::new();
        let mut b: usize = 0;
        while b < bases.len()
            invariant
                i < declarations@.len(),
                texts_sorted(base_names(declarations@[i as int].1.dimensions@)),
                b <= bases@.len(),
                powers@.len() == b,
                forall|c: int| 0 <= c < b ==> #[trigger] powers@[c] == exponent(declarations@[i as int].1.dimensions@, bases@[c]@),
            decreases bases.len() - b,
        {
            powers.push(exponent_of(&declarations[i].1.dimensions, &bases[b]));
            b += 1;
        }
        let entry = KindEntry { name: declaration.0.clone(), powers, floor, difference };
        proof {
            assert(link_ok(declarations@, floors@, i as int));
            assert(kind_built(declarations@, floors@, bases@, i as int, entry));
        }
        kinds.push(entry);
        proof {
            assert forall|k: int| 0 <= k < i + 1 implies kind_built(declarations@, floors@, bases@, k, #[trigger] kinds@[k]) by {
                if k < i {
                    assert(kinds@[k] == kinds@.drop_last()[k]);
                }
            }
        }
        i += 1;
    }
    Ok(KindTable { bases, kinds })
}

} // verus!
