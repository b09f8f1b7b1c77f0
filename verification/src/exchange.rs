//! Exact exchange constraints: a closed expression language over the named
//! before/after/delta values of an exchange's stock roles, its boundary
//! inputs and its evaluated facts, and equality or upper-bound constraints
//! with exact absolute and relative tolerances.
use crate::format::same_text;
use crate::rational::{abs_real, Rational};
use vstd::prelude::*;

verus! {

/// How the two sides of a constraint are compared.
#[derive(Clone, Copy, Debug, PartialEq, Eq, Structural)]
pub enum Relation {
    /// The sides agree within the tolerance.
    Equal,
    /// The left side exceeds the right by no more than the tolerance.
    LessOrEqual,
}

/// Where two kinds were required to be identical.
#[derive(Clone, Debug, PartialEq, Eq)]
pub enum KindContext {
    /// An exchange leg: the stock bound to a law slot.
    Slot { slot: String, stock: String },
    /// The supplied delta of a slot.
    Delta { slot: String },
    /// A supplied boundary input.
    Boundary { port: String },
    /// A supplied evaluated fact.
    Fact { fact: String },
    /// The terms of a sum.
    Sum,
    /// The two sides of a constraint.
    Constraint { id: String },
}

/// Where a computed quantity's dimensions were compared.
#[derive(Clone, Debug, PartialEq, Eq)]
pub enum DimensionContext {
    /// The terms of a sum.
    Sum,
    /// The two sides of a constraint.
    Constraint { id: String },
    /// A stock's weighted contents against a capacity's maximum.
    Capacity { capacity: String, stock: String },
}

/// A closed expression over the values named in an [`Evaluation`].
#[derive(Debug)]
pub enum Expr {
    /// An exact constant.
    Constant(Rational),
    /// A stock role's amount before the exchange.
    Before(String),
    /// A stock role's amount after the exchange.
    After(String),
    /// A stock role's change.
    Delta(String),
    /// A signed boundary input.
    Boundary(String),
    /// An owner-supplied evaluated fact.
    Fact(String),
    /// The sum of the terms, in order.
    Sum(Vec<Expr>),
    /// The product of two expressions.
    Product(Box<Expr>, Box<Expr>),
    /// The quotient of two expressions.
    Quotient(Box<Expr>, Box<Expr>),
}

/// The named values an expression reads, each table keyed by name.
pub struct Evaluation {
    pub before: Vec<(String, Rational)>,
    pub after: Vec<(String, Rational)>,
    pub deltas: Vec<(String, Rational)>,
    pub boundaries: Vec<(String, Rational)>,
    pub facts: Vec<(String, Rational)>,
}

/// How an exchange fails to be well formed.
#[derive(Clone, Copy, Debug, PartialEq, Eq, Structural)]
pub enum Malformed {
    /// An identifier is empty or whitespace only.
    BlankId,
    /// The bindings do not name exactly the law's roles.
    BindingsMismatch,
    /// One stock is bound to two roles.
    AliasedStock,
    /// A delta names no role of the law.
    UndeclaredDelta,
    /// A boundary input names no boundary of the law.
    UndeclaredBoundary,
    /// A stock is created twice.
    DuplicateCreation,
    /// A created stock is bound to no role.
    CreatedWithoutRole,
    /// A removed stock is bound to no role.
    TopologyWithoutRole,
    /// A stock is both created and removed.
    ConflictingTopology,
    /// A created stock's owner is not registered.
    UndeclaredOwner,
    /// A created stock's weight names no registered capacity.
    UndeclaredCapacity,
    /// A created stock has a negative weight, or weights without a
    /// nonnegative floor.
    InvalidWeight,
    /// A model registers no owner.
    NoOwners,
    /// A capacity's maximum is negative.
    NegativeCapacity,
    /// Two laws share an identity.
    DuplicateLaw,
    /// A fact's owner is not a required participant.
    FactOwnerNotParticipant,
    /// Two constraints of a law share an identity.
    DuplicateConstraint,
    /// A tolerance is negative, or a relative one is not below one.
    InvalidTolerance,
    /// A role or boundary appears in no equality constraint.
    Uncovered,
    /// A participation writes one record key twice.
    DuplicateRecordKey,
    /// A participation has neither writes nor facts.
    EmptyParticipation,
}

/// Why an exchange expression or constraint was refused.
#[derive(Debug)]
pub enum ExchangeError {
    /// The expression names a value that the evaluation does not supply.
    MissingInput { id: String },
    /// A quotient's denominator evaluated to zero.
    DivisionByZero,
    /// The constraint's residual exceeds its tolerance.
    Constraint { exchange: String, id: String, residual: Rational },
    /// The exchange names a law that the model does not hold.
    UnknownLaw { id: String },
    /// A required participant did not contribute.
    MissingParticipant { owner: String },
    /// A contributed fact is undeclared, from the wrong owner, of the wrong
    /// kind, or given twice.
    Fact { owner: String, fact: String },
    /// A declared fact was not contributed.
    MissingFacts,
    /// A created stock's identity is live or retired.
    StockInUse { id: String },
    /// A role or removal names no live stock.
    UnknownStock { id: String },
    /// A role's stock is of another kind than the role.
    Kinds { context: KindContext },
    /// A leg takes its stock below its kind's floor.
    BelowFloor { stock: String, amount: Rational },
    /// A removed stock is not empty.
    NonemptyRemoval { id: String },
    /// A capacity's resulting load exceeds its maximum by `residual`.
    Capacity { id: String, residual: Rational },
    /// The revision counter would overflow.
    RevisionOverflow,
    /// The exchange is not well formed.
    Malformed { reason: Malformed },
    /// A committed exchange's identity is reused with other content.
    Duplicate { id: String },
    /// The preparation was made against another revision.
    Stale,
    /// A preparation of an already committed exchange has no next state.
    NoNextState,
    /// A write removes a record that does not exist.
    MissingRecord { owner: String, key: String },
    /// A replayed history commits one exchange identity twice.
    DuplicateCommit { id: String },
}

/// A table's entries by name and value.
pub open spec fn named_values(table: Seq<(String, Rational)>) -> Seq<(Seq<char>, real)> {
    table.map_values(|p: (String, Rational)| (p.0@, p.1@))
}

/// The named values an expression reads: before, after, delta, boundary and
/// fact tables.
pub type Tables = (
    Seq<(Seq<char>, real)>,
    Seq<(Seq<char>, real)>,
    Seq<(Seq<char>, real)>,
    Seq<(Seq<char>, real)>,
    Seq<(Seq<char>, real)>,
);

impl Evaluation {
    /// The evaluation's tables by name and value.
    pub open spec fn tables(&self) -> Tables {
        (named_values(self.before@), named_values(self.after@), named_values(self.deltas@), named_values(self.boundaries@), named_values(self.facts@))
    }
}

/// The value stored under `key`: the first entry with that name.
pub open spec fn lookup(table: Seq<(Seq<char>, real)>, key: Seq<char>) -> Option<real>
    decreases table.len(),
{
    if table.len() == 0 {
        None
    } else if table[0].0 == key {
        Some(table[0].1)
    } else {
        lookup(table.skip(1), key)
    }
}

/// A value, or the failure of an evaluation: the missing name, or `None` for
/// a division by zero.
pub type Evaluated = Result<real, Option<Seq<char>>>;

/// A table read: the value, or the missing name.
pub open spec fn read(table: Seq<(Seq<char>, real)>, key: Seq<char>) -> Evaluated {
    match lookup(table, key) {
        Some(v) => Ok(v),
        None => Err(Some(key)),
    }
}

/// The exact value of `e`, or the first failure met reading it left to right;
/// a quotient reads its denominator first and refuses a zero one.
pub open spec fn evaluate_spec(e: Expr, input: Tables) -> Evaluated
    decreases e,
{
    match e {
        Expr::Constant(q) => Ok(q@),
        Expr::Before(id) => read(input.0, id@),
        Expr::After(id) => read(input.1, id@),
        Expr::Delta(id) => read(input.2, id@),
        Expr::Boundary(id) => read(input.3, id@),
        Expr::Fact(id) => read(input.4, id@),
        Expr::Sum(terms) => sum_spec(terms@, input),
        Expr::Product(a, b) => match evaluate_spec(*a, input) {
            Err(f) => Err(f),
            Ok(x) => match evaluate_spec(*b, input) {
                Err(f) => Err(f),
                Ok(y) => Ok(x * y),
            },
        },
        Expr::Quotient(a, b) => match evaluate_spec(*b, input) {
            Err(f) => Err(f),
            Ok(y) => if y == 0real {
                Err(None)
            } else {
                match evaluate_spec(*a, input) {
                    Err(f) => Err(f),
                    Ok(x) => Ok(x / y),
                }
            },
        },
    }
}

/// The sum of the terms from zero, left to right, or the first failure.
pub open spec fn sum_spec(terms: Seq<Expr>, input: Tables) -> Evaluated
    decreases terms,
{
    if terms.len() == 0 {
        Ok(0real)
    } else {
        match sum_spec(terms.drop_last(), input) {
            Err(f) => Err(f),
            Ok(s) => match evaluate_spec(terms.last(), input) {
                Err(f) => Err(f),
                Ok(v) => Ok(s + v),
            },
        }
    }
}

/// The failure an error reports, in the terms of [`Evaluated`].
pub open spec fn failure_of(error: ExchangeError) -> Option<Seq<char>> {
    match error {
        ExchangeError::MissingInput { id } => Some(id@),
        _ => None,
    }
}

/// Whether an executable result agrees with an evaluation.
pub open spec fn reports(result: Result<Rational, ExchangeError>, expected: Evaluated) -> bool {
    match result {
        Ok(v) => expected == Ok::<real, Option<Seq<char>>>(v@),
        Err(e) => {
            &&& (e is MissingInput || e is DivisionByZero)
            &&& expected == Err::<real, Option<Seq<char>>>(failure_of(e))
        },
    }
}

/// Reads `key` from a table: a copy of the first entry's value with that name.
fn read_table(table: &Vec<(String, Rational)>, key: &String) -> (result: Result<Rational, ExchangeError>)
    ensures
        reports(result, read(named_values(table@), key@)),
{
    let ghost view = named_values(table@);
    let mut index: usize = 0;
    proof {
        assert(view.skip(0) =~= view);
    }
    while index < table.len()
        invariant
            view == named_values(table@),
            index <= table@.len(),
            lookup(view, key@) == lookup(view.skip(index as int), key@),
        decreases table.len() - index,
    {
        proof {
            assert(view.skip(index as int).skip(1) =~= view.skip(index + 1));
            assert(view.skip(index as int)[0] == view[index as int]);
        }
        if same_text(table[index].0.as_str(), key.as_str()) {
            return Ok(table[index].1.clone());
        }
        index += 1;
    }
    proof {
        assert(view.skip(index as int).len() == 0);
    }
    Err(ExchangeError::MissingInput { id: key.clone() })
}

/// A failure met in a prefix of a sum is the failure of every longer prefix.
proof fn lemma_sum_failure(terms: Seq<Expr>, input: Tables, i: int, j: int)
    requires
        0 <= i <= j <= terms.len(),
        sum_spec(terms.take(i), input) is Err,
    ensures
        sum_spec(terms.take(j), input) == sum_spec(terms.take(i), input),
    decreases j - i,
{
    if i < j {
        lemma_sum_failure(terms, input, i, j - 1);
        assert(terms.take(j).drop_last() =~= terms.take(j - 1));
    }
}

impl Expr {
    /// Evaluates the expression exactly over `input`.
    #[verifier::loop_isolation(false)]
    pub fn evaluate(&self, input: &Evaluation) -> (result: Result<Rational, ExchangeError>)
        ensures
            reports(result, evaluate_spec(*self, input.tables())),
        decreases self,
    {
        match self {
            Expr::Constant(q) => Ok(q.clone()),
            Expr::Before(id) => read_table(&input.before, id),
            Expr::After(id) => read_table(&input.after, id),
            Expr::Delta(id) => read_table(&input.deltas, id),
            Expr::Boundary(id) => read_table(&input.boundaries, id),
            Expr::Fact(id) => read_table(&input.facts, id),
            Expr::Sum(terms) => {
                let mut total = Rational::zero();
                let mut index: usize = 0;
                proof {
                    assert(terms@.take(0) =~= Seq::<Expr>::empty());
                }
                while index < terms.len()
                    invariant
                        index <= terms@.len(),
                        sum_spec(terms@.take(index as int), input.tables()) == Ok::<real, Option<Seq<char>>>(total@),
                    decreases terms.len() - index,
                {
                    proof {
                        assert(terms@.take(index + 1).drop_last() =~= terms@.take(index as int));
                        assert(terms@.take(index + 1).last() == terms@[index as int]);
                        assert(decreases_to!(*self => terms@[index as int]));
                    }
                    match terms[index].evaluate(input) {
                        Ok(v) => {
                            total = total.add(&v);
                        },
                        Err(e) => {
                            proof {
                                lemma_sum_failure(terms@, input.tables(), index + 1, terms@.len() as int);
                                assert(terms@.take(terms@.len() as int) =~= terms@);
                            }
                            return Err(e);
                        },
                    }
                    index += 1;
                }
                proof {
                    assert(terms@.take(terms@.len() as int) =~= terms@);
                }
                Ok(total)
            },
            Expr::Product(a, b) => {
                let x = a.evaluate(input)?;
                let y = b.evaluate(input)?;
                Ok(x.mul(&y))
            },
            Expr::Quotient(a, b) => {
                let y = b.evaluate(input)?;
                if y.is_zero() {
                    return Err(ExchangeError::DivisionByZero);
                }
                let x = a.evaluate(input)?;
                Ok(x.div(&y))
            },
        }
    }
}

impl Expr {
    /// An exact constant.
    pub fn constant(value: Rational) -> (result: Self)
        ensures
            result == Expr::Constant(value),
    {
        Expr::Constant(value)
    }

    /// A stock role's amount before the exchange.
    pub fn before(slot: String) -> (result: Self)
        ensures
            result == Expr::Before(slot),
    {
        Expr::Before(slot)
    }

    /// A stock role's amount after the exchange.
    pub fn after(slot: String) -> (result: Self)
        ensures
            result == Expr::After(slot),
    {
        Expr::After(slot)
    }

    /// A stock role's change.
    pub fn delta(slot: String) -> (result: Self)
        ensures
            result == Expr::Delta(slot),
    {
        Expr::Delta(slot)
    }

    /// A signed boundary input.
    pub fn boundary(port: String) -> (result: Self)
        ensures
            result == Expr::Boundary(port),
    {
        Expr::Boundary(port)
    }

    /// An owner-supplied evaluated fact.
    pub fn fact(name: String) -> (result: Self)
        ensures
            result == Expr::Fact(name),
    {
        Expr::Fact(name)
    }

    /// The sum of the terms.
    pub fn sum(terms: Vec<Expr>) -> (result: Self)
        ensures
            result == Expr::Sum(terms),
    {
        Expr::Sum(terms)
    }

    /// The product of this expression and `other`.
    pub fn product(self, other: Self) -> (result: Self)
        ensures
            result == Expr::Product(Box::new(self), Box::new(other)),
    {
        Expr::Product(Box::new(self), Box::new(other))
    }

    /// The quotient of this expression by `other`.
    pub fn quotient(self, other: Self) -> (result: Self)
        ensures
            result == Expr::Quotient(Box::new(self), Box::new(other)),
    {
        Expr::Quotient(Box::new(self), Box::new(other))
    }
}

/// An equality or upper-bound constraint between two expressions, with an
/// absolute tolerance in the comparison's unit and a relative one.
#[derive(Debug)]
pub struct Constraint {
    pub id: String,
    pub left: Expr,
    pub right: Expr,
    pub relation: Relation,
    pub absolute: Rational,
    pub relative: Rational,
}

/// The larger of two reals.
pub open spec fn max_real(a: real, b: real) -> real {
    if a < b {
        b
    } else {
        a
    }
}

/// The tolerance of a comparison between `left` and `right`:
/// `absolute + relative * max(|left|, |right|)`.
pub open spec fn tolerance_spec(c: Constraint, left: real, right: real) -> real {
    c.absolute@ + c.relative@ * max_real(abs_real(left), abs_real(right))
}

/// Whether a residual `left - right` breaks the relation at this tolerance.
pub open spec fn exceeds(relation: Relation, residual: real, tolerance: real) -> bool {
    match relation {
        Relation::Equal => abs_real(residual) > tolerance,
        Relation::LessOrEqual => residual > tolerance,
    }
}

/// Whether `result` is what checking `c` in exchange `exchange` gives: the
/// first evaluation failure (left side first), else a constraint error with
/// the exact residual exactly when it exceeds the tolerance.
pub open spec fn checked(result: Result<(), ExchangeError>, c: Constraint, exchange: Seq<char>, input: Tables) -> bool {
    match evaluate_spec(c.left, input) {
        Err(f) => result matches Err(e) && (e is MissingInput || e is DivisionByZero) && failure_of(e) == f,
        Ok(l) => match evaluate_spec(c.right, input) {
            Err(f) => result matches Err(e) && (e is MissingInput || e is DivisionByZero) && failure_of(e) == f,
            Ok(r) => if exceeds(c.relation, l - r, tolerance_spec(c, l, r)) {
                result matches Err(e) && e matches ExchangeError::Constraint { exchange: x, id, residual }
                    && x@ == exchange && id@ == c.id@ && residual@ == l - r
            } else {
                result is Ok
            },
        },
    }
}

impl Constraint {
    /// An exact equality: both tolerances zero.
    pub fn equal(id: String, left: Expr, right: Expr) -> (result: Self)
        ensures
            result.id == id,
            result.left == left,
            result.right == right,
            result.relation == Relation::Equal,
            result.absolute@ == 0real,
            result.relative@ == 0real,
    {
        Constraint { id, left, right, relation: Relation::Equal, absolute: Rational::zero(), relative: Rational::zero() }
    }

    /// Evaluates both sides over `input` and compares them within the tolerance.
    pub fn check(&self, exchange: &str, input: &Evaluation) -> (result: Result<(), ExchangeError>)
        ensures
            checked(result, *self, exchange@, input.tables()),
    {
        let left = match self.left.evaluate(input) {
            Ok(v) => v,
            Err(e) => return Err(e),
        };
        let right = match self.right.evaluate(input) {
            Ok(v) => v,
            Err(e) => return Err(e),
        };
        let left_size = left.abs();
        let right_size = right.abs();
        let larger = if left_size.lt(&right_size) {
            right_size
        } else {
            left_size
        };
        let tolerance = self.absolute.add(&self.relative.mul(&larger));
        let residual = left.sub(&right);
        let over = match self.relation {
            Relation::Equal => tolerance.lt(&residual.abs()),
            Relation::LessOrEqual => tolerance.lt(&residual),
        };
        if over {
            return Err(ExchangeError::Constraint { exchange: String::from_str(exchange), id: self.id.clone(), residual });
        }
        Ok(())
    }
}

/// Whether `e` reads the named role's after value or delta (`boundary`
/// false), or the named boundary input (`boundary` true).
pub open spec fn covers_spec(e: Expr, boundary: bool, name: Seq<char>) -> bool
    decreases e,
{
    match e {
        Expr::After(id) => !boundary && id@ == name,
        Expr::Delta(id) => !boundary && id@ == name,
        Expr::Boundary(id) => boundary && id@ == name,
        Expr::Sum(terms) => covers_any(terms@, boundary, name),
        Expr::Product(a, b) => covers_spec(*a, boundary, name) || covers_spec(*b, boundary, name),
        Expr::Quotient(a, b) => covers_spec(*a, boundary, name) || covers_spec(*b, boundary, name),
        _ => false,
    }
}

/// Whether some term covers the name.
pub open spec fn covers_any(terms: Seq<Expr>, boundary: bool, name: Seq<char>) -> bool
    decreases terms,
{
    if terms.len() == 0 {
        false
    } else {
        covers_any(terms.drop_last(), boundary, name) || covers_spec(terms.last(), boundary, name)
    }
}

impl Expr {
    /// Whether the expression reads the named role (or boundary input).
    #[verifier::loop_isolation(false)]
    pub fn covers(&self, boundary: bool, name: &str) -> (result: bool)
        ensures
            result == covers_spec(*self, boundary, name@),
        decreases self,
    {
        match self {
            Expr::After(id) => !boundary && same_text(id.as_str(), name),
            Expr::Delta(id) => !boundary && same_text(id.as_str(), name),
            Expr::Boundary(id) => boundary && same_text(id.as_str(), name),
            Expr::Sum(terms) => {
                let mut found = false;
                let mut index: usize = 0;
                proof {
                    assert(terms@.take(0) =~= Seq::<Expr>::empty());
                }
                while index < terms.len()
                    invariant
                        index <= terms@.len(),
                        found == covers_any(terms@.take(index as int), boundary, name@),
                    decreases terms.len() - index,
                {
                    proof {
                        assert(terms@.take(index + 1).drop_last() =~= terms@.take(index as int));
                        assert(terms@.take(index + 1).last() == terms@[index as int]);
                        assert(decreases_to!(*self => terms@[index as int]));
                    }
                    let here = terms[index].covers(boundary, name);
                    found = found || here;
                    index += 1;
                }
                proof {
                    assert(terms@.take(terms@.len() as int) =~= terms@);
                }
                found
            },
            Expr::Product(a, b) => {
                let left = a.covers(boundary, name);
                let right = b.covers(boundary, name);
                left || right
            },
            Expr::Quotient(a, b) => {
                let left = a.covers(boundary, name);
                let right = b.covers(boundary, name);
                left || right
            },
            _ => false,
        }
    }
}

/// Whether a constraint's tolerances are admissible: absolute at least zero,
/// relative at least zero and below one.
pub open spec fn tolerances_valid(c: Constraint) -> bool {
    &&& c.absolute@ >= 0real
    &&& c.relative@ >= 0real
    &&& c.relative@ < 1real
}

impl Constraint {
    /// Whether the tolerances are admissible.
    pub fn tolerances_admissible(&self) -> (result: bool)
        ensures
            result == tolerances_valid(*self),
    {
        let one = Rational::one();
        !self.absolute.is_negative() && !self.relative.is_negative() && self.relative.lt(&one)
    }

    /// Whether an equality constraint covers the named role (or boundary).
    pub fn covers(&self, boundary: bool, name: &str) -> (result: bool)
        ensures
            result == (self.relation == Relation::Equal && (covers_spec(self.left, boundary, name@) || covers_spec(self.right, boundary, name@))),
    {
        match self.relation {
            Relation::Equal => {
                let left = self.left.covers(boundary, name);
                let right = self.right.covers(boundary, name);
                left || right
            },
            Relation::LessOrEqual => false,
        }
    }
}

/// Some term of the list covers the name exactly when the list does.
proof fn lemma_covers_any_exists(terms: Seq<Expr>, boundary: bool, name: Seq<char>)
    ensures
        covers_any(terms, boundary, name) <==> exists|i: int| 0 <= i < terms.len() && #[trigger] covers_spec(terms[i], boundary, name),
    decreases terms.len(),
{
    if terms.len() > 0 {
        lemma_covers_any_exists(terms.drop_last(), boundary, name);
        if covers_any(terms.drop_last(), boundary, name) {
            let i = choose|i: int| 0 <= i < terms.drop_last().len() && #[trigger] covers_spec(terms.drop_last()[i], boundary, name);
            assert(terms[i] == terms.drop_last()[i]);
            assert(covers_spec(terms[i], boundary, name));
        }
        if covers_spec(terms.last(), boundary, name) {
            assert(covers_spec(terms[terms.len() - 1], boundary, name));
        }
        if exists|i: int| 0 <= i < terms.len() && #[trigger] covers_spec(terms[i], boundary, name) {
            let i = choose|i: int| 0 <= i < terms.len() && #[trigger] covers_spec(terms[i], boundary, name);
            if i < terms.len() - 1 {
                assert(terms.drop_last()[i] == terms[i]);
                assert(covers_spec(terms.drop_last()[i], boundary, name));
            }
        }
    }
}

/// Coverage is structural: a leaf covers exactly the role (or boundary) it
/// names, an after value or delta covering a role and a boundary input
/// covering a boundary, while a before value, a fact or a constant covers
/// nothing; a product, a quotient or a sum covers what one of its operands
/// covers, so an expression read anywhere inside another, on either side,
/// is covered by it.
pub proof fn law_coverage_is_structural(a: Expr, b: Expr, terms: Vec<Expr>, id: String, boundary: bool, name: Seq<char>)
    ensures
        covers_spec(Expr::After(id), boundary, name) == (!boundary && id@ == name),
        covers_spec(Expr::Delta(id), boundary, name) == (!boundary && id@ == name),
        covers_spec(Expr::Boundary(id), boundary, name) == (boundary && id@ == name),
        !covers_spec(Expr::Before(id), boundary, name),
        !covers_spec(Expr::Fact(id), boundary, name),
        covers_spec(a, boundary, name) ==> covers_spec(Expr::Product(Box::new(a), Box::new(b)), boundary, name)
            && covers_spec(Expr::Product(Box::new(b), Box::new(a)), boundary, name)
            && covers_spec(Expr::Quotient(Box::new(a), Box::new(b)), boundary, name)
            && covers_spec(Expr::Quotient(Box::new(b), Box::new(a)), boundary, name),
        covers_spec(Expr::Product(Box::new(a), Box::new(b)), boundary, name) ==> covers_spec(a, boundary, name) || covers_spec(b, boundary, name),
        covers_spec(Expr::Quotient(Box::new(a), Box::new(b)), boundary, name) ==> covers_spec(a, boundary, name) || covers_spec(b, boundary, name),
        covers_spec(Expr::Sum(terms), boundary, name) <==> exists|i: int| 0 <= i < terms@.len() && #[trigger] covers_spec(terms@[i], boundary, name),
{
    lemma_covers_any_exists(terms@, boundary, name);
}

/// A before value reads the before table and nothing else, and likewise an
/// after value the after table, a delta the delta table, a boundary input the
/// boundary table and a fact the fact table: two evaluations whose tables
/// agree on that one table give the same result, and a name present there
/// evaluates to its first value.
pub proof fn law_leaves_read_their_own_table(id: String, v: real, t: Tables, u: Tables)
    ensures
        t.0 == u.0 ==> evaluate_spec(Expr::Before(id), t) == evaluate_spec(Expr::Before(id), u),
        t.1 == u.1 ==> evaluate_spec(Expr::After(id), t) == evaluate_spec(Expr::After(id), u),
        t.2 == u.2 ==> evaluate_spec(Expr::Delta(id), t) == evaluate_spec(Expr::Delta(id), u),
        t.3 == u.3 ==> evaluate_spec(Expr::Boundary(id), t) == evaluate_spec(Expr::Boundary(id), u),
        t.4 == u.4 ==> evaluate_spec(Expr::Fact(id), t) == evaluate_spec(Expr::Fact(id), u),
        lookup(t.0, id@) == Some(v) ==> evaluate_spec(Expr::Before(id), t) == Ok::<real, Option<Seq<char>>>(v),
        lookup(t.1, id@) == Some(v) ==> evaluate_spec(Expr::After(id), t) == Ok::<real, Option<Seq<char>>>(v),
        lookup(t.2, id@) == Some(v) ==> evaluate_spec(Expr::Delta(id), t) == Ok::<real, Option<Seq<char>>>(v),
        lookup(t.3, id@) == Some(v) ==> evaluate_spec(Expr::Boundary(id), t) == Ok::<real, Option<Seq<char>>>(v),
        lookup(t.4, id@) == Some(v) ==> evaluate_spec(Expr::Fact(id), t) == Ok::<real, Option<Seq<char>>>(v),
{
}

/// A checked constraint whose sides evaluate to `l` and `r` passes exactly
/// when its residual `l - r` is within `absolute + relative * max(|l|, |r|)`
/// (in magnitude for an equality, from above for an upper bound), and is
/// otherwise refused with that residual.
pub proof fn law_check_within_tolerance(
    result: Result<(), ExchangeError>,
    c: Constraint,
    exchange: Seq<char>,
    input: Tables,
    l: real,
    r: real,
)
    requires
        checked(result, c, exchange, input),
        evaluate_spec(c.left, input) == Ok::<real, Option<Seq<char>>>(l),
        evaluate_spec(c.right, input) == Ok::<real, Option<Seq<char>>>(r),
    ensures
        c.relation == Relation::Equal ==> ((result is Ok) <==> abs_real(l - r) <= c.absolute@ + c.relative@ * (if abs_real(l) < abs_real(r) {
            abs_real(r)
        } else {
            abs_real(l)
        })),
        c.relation == Relation::LessOrEqual ==> ((result is Ok) <==> l - r <= c.absolute@ + c.relative@ * (if abs_real(l) < abs_real(r) {
            abs_real(r)
        } else {
            abs_real(l)
        })),
        result matches Err(e) ==> (e matches ExchangeError::Constraint { exchange: x, id, residual } && x@ == exchange && id@ == c.id@
            && residual@ == l - r),
{
}

/// A constant is its value; a product, quotient or sum of evaluated operands
/// is their product, quotient (refused for a zero denominator) or sum.
pub proof fn law_compound_values(q: Rational, a: Expr, b: Expr, terms: Vec<Expr>, t: Tables, x: real, y: real)
    requires
        evaluate_spec(a, t) == Ok::<real, Option<Seq<char>>>(x),
        evaluate_spec(b, t) == Ok::<real, Option<Seq<char>>>(y),
    ensures
        evaluate_spec(Expr::Constant(q), t) == Ok::<real, Option<Seq<char>>>(q@),
        evaluate_spec(Expr::Product(Box::new(a), Box::new(b)), t) == Ok::<real, Option<Seq<char>>>(x * y),
        y != 0real ==> evaluate_spec(Expr::Quotient(Box::new(a), Box::new(b)), t) == Ok::<real, Option<Seq<char>>>(x / y),
        y == 0real ==> evaluate_spec(Expr::Quotient(Box::new(a), Box::new(b)), t) is Err,
        terms@ == seq![a, b] ==> evaluate_spec(Expr::Sum(terms), t) == Ok::<real, Option<Seq<char>>>(x + y),
{
    if terms@ == seq![a, b] {
        let one = terms@.drop_last();
        assert(one =~= seq![a]);
        assert(one.drop_last() =~= Seq::<Expr>::empty());
        assert(sum_spec(one.drop_last(), t) == Ok::<real, Option<Seq<char>>>(0real));
        assert(one.last() == a);
        assert(sum_spec(one, t) == Ok::<real, Option<Seq<char>>>(0real + x));
        assert(terms@.last() == b);
        assert(sum_spec(terms@, t) == Ok::<real, Option<Seq<char>>>((0real + x) + y));
    }
}

} // verus!
