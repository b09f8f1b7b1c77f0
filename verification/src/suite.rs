//! Law suites: named sentences of every family, checked together on one trace.
use crate::carrier::StockFlowError;
use crate::certificate::{check_open_balance, open_balance_outcome, OpenBalance, OpenBalanceVerdict};
use crate::evidence::{
    boundary_outcome, check_boundary_correspondence, check_graded_state_law, check_linear_flow_constraint,
    check_transition_equation, flow_outcome, graded_outcome, transition_outcome, BoundaryCorrespondence, BoundaryVerdict,
    FlowConstraintVerdict, GradedStateLaw, LinearFlowConstraint, TransitionEquation, TransitionVerdict,
};
use crate::ident::SentenceId;
use crate::record::TransitionTrace;
use crate::table::{insert_sorted, keys_sorted};
use crate::text::{lemma_text_lt_irreflexive, text_lt};
use crate::trace::LawVerdict;
use vstd::prelude::*;

verus! {

/// A sentence with a stable identifier.
pub trait Sentence: Sized {
    /// The sentence identifier.
    spec fn sentence_id(&self) -> SentenceId;

    /// Returns the sentence identifier.
    fn sentence(&self) -> (result: &SentenceId)
        ensures
            *result == self.sentence_id(),
    ;
}

impl Sentence for LinearFlowConstraint {
    open spec fn sentence_id(&self) -> SentenceId {
        self.id_spec()
    }

    fn sentence(&self) -> (result: &SentenceId) {
        self.id()
    }
}

impl Sentence for BoundaryCorrespondence {
    open spec fn sentence_id(&self) -> SentenceId {
        self.id_spec()
    }

    fn sentence(&self) -> (result: &SentenceId) {
        self.id()
    }
}

impl Sentence for OpenBalance {
    open spec fn sentence_id(&self) -> SentenceId {
        self.id_spec()
    }

    fn sentence(&self) -> (result: &SentenceId) {
        self.id()
    }
}

impl Sentence for GradedStateLaw {
    open spec fn sentence_id(&self) -> SentenceId {
        self.id_spec()
    }

    fn sentence(&self) -> (result: &SentenceId) {
        self.id()
    }
}

/// The texts of identifiers.
pub open spec fn texts(names: Seq<SentenceId>) -> Seq<Seq<char>> {
    names.map_values(|name: SentenceId| name@)
}

/// The identifier texts of sentences, in order.
pub open spec fn sentence_names<T: Sentence>(values: Seq<T>) -> Seq<Seq<char>> {
    values.map_values(|value: T| value.sentence_id()@)
}

/// The identifier text of an optional transition equation.
pub open spec fn transition_names(transition: Option<TransitionEquation>) -> Seq<Seq<char>> {
    match transition {
        Some(sentence) => seq![sentence.id_spec()@],
        None => Seq::empty(),
    }
}

/// No text occurs twice.
pub open spec fn distinct_texts(names: Seq<Seq<char>>) -> bool {
    forall|i: int, j: int| 0 <= i < j < names.len() ==> (#[trigger] names[i]) != (#[trigger] names[j])
}

/// Position `j` holds the first text that repeats an earlier one.
pub open spec fn first_repeat(names: Seq<Seq<char>>, j: int) -> bool {
    &&& 0 <= j < names.len()
    &&& distinct_texts(names.take(j))
    &&& exists|i: int| 0 <= i < j && #[trigger] names[i] == names[j]
}

/// The table keeps `value` under its own identifier.
pub open spec fn has_entry<T: Sentence>(table: Seq<(SentenceId, T)>, value: T) -> bool {
    exists|p: int| 0 <= p < table.len() && (#[trigger] table[p]).1 == value && table[p].0@ == value.sentence_id()@
}

/// The table is in identifier order and keys each sentence by its identifier.
pub open spec fn keyed<T: Sentence>(table: Seq<(SentenceId, T)>) -> bool {
    &&& keys_sorted(table)
    &&& forall|p: int| 0 <= p < table.len() ==> (#[trigger] table[p]).0@ == table[p].1.sentence_id()@
}

/// The table holds exactly the given sentences, each under its identifier.
pub open spec fn holds_all<T: Sentence>(table: Seq<(SentenceId, T)>, values: Seq<T>) -> bool {
    &&& keyed(table)
    &&& table.len() == values.len()
    &&& forall|i: int| 0 <= i < values.len() ==> #[trigger] has_entry(table, values[i])
    &&& forall|p: int| 0 <= p < table.len() ==> values.contains((#[trigger] table[p]).1)
}

/// The all sentence names of a suite's inputs, family after family.
pub open spec fn suite_names(
    transition: Option<TransitionEquation>,
    constraints: Seq<LinearFlowConstraint>,
    boundaries: Seq<BoundaryCorrespondence>,
    open_balances: Seq<OpenBalance>,
    graded: Seq<GradedStateLaw>,
) -> Seq<Seq<char>> {
    transition_names(transition) + sentence_names(constraints) + sentence_names(boundaries) + sentence_names(open_balances)
        + sentence_names(graded)
}

/// A first repeat of a prefix is a first repeat of the whole.
proof fn lemma_first_repeat_extends(a: Seq<Seq<char>>, b: Seq<Seq<char>>, j: int)
    requires
        first_repeat(a, j),
    ensures
        first_repeat(a + b, j),
{
    let whole = a + b;
    assert(whole.take(j) =~= a.take(j));
    let i = choose|i: int| 0 <= i < j && #[trigger] a[i] == a[j];
    assert(whole[i] == a[i]);
    assert(whole[j] == a[j]);
}

/// Appends the sentences' identifiers to `names`, refusing the first one
/// already present, and keys the sentences by identifier.
#[verifier::loop_isolation(false)]
fn collect_named<T: Sentence>(values: Vec<T>, names: &mut Vec<SentenceId>) -> (result: Result<Vec<(SentenceId, T)>, StockFlowError>)
    requires
        distinct_texts(texts(old(names)@)),
    ensures
        match result {
            Ok(table) => {
                &&& texts(final(names)@) == texts(old(names)@) + sentence_names(values@)
                &&& distinct_texts(texts(final(names)@))
                &&& holds_all(table@, values@)
            },
            Err(error) => exists|j: int|
                0 <= j < values@.len() && first_repeat(texts(old(names)@) + sentence_names(values@), texts(old(names)@).len() + j)
                    && #[trigger] values@[j] == values@[j] && (error matches StockFlowError::DuplicateSentence(s) && s@
                    == values@[j].sentence_id()@),
        },
{
    let ghost start = texts(names@);
    let ghost all = start + sentence_names(values@);
    let mut j: usize = 0;
    while j < values.len()
        invariant
            j <= values@.len(),
            start == texts(old(names)@),
            all == start + sentence_names(values@),
            texts(names@) == all.take(start.len() + j),
            distinct_texts(texts(names@)),
        decreases values.len() - j,
    {
        let id = values[j].sentence();
        let mut i: usize = 0;
        while i < names.len()
            invariant
                i <= names@.len(),
                forall|k: int| 0 <= k < i ==> (#[trigger] names@[k])@ != id@,
            decreases names.len() - i,
        {
            if names[i].same(id) {
                proof {
                    let at = start.len() + j;
                    assert(sentence_names(values@)[j as int] == id@);
                    assert(all[at] == id@);
                    assert(all.take(at) == texts(names@));
                    assert(all[i as int] == texts(names@)[i as int]);
                    assert(first_repeat(all, at));
                    assert(values@[j as int] == values@[j as int]);
                }
                return Err(StockFlowError::DuplicateSentence(id.clone()));
            }
            i += 1;
        }
        let ghost before = names@;
        names.push(id.clone());
        proof {
            let at = start.len() + j;
            assert(sentence_names(values@)[j as int] == id@);
            assert(all[at] == id@);
            assert(texts(names@) =~= all.take(at + 1));
            assert forall|a: int, b: int| 0 <= a < b < texts(names@).len() implies (#[trigger] texts(names@)[a]) != (
            #[trigger] texts(names@)[b]) by {
                if b == at {
                    assert(texts(names@)[a] == before[a]@);
                }
            }
        }
        j += 1;
    }
    proof {
        assert(texts(names@) =~= all);
    }
    let ghost original = values@;
    proof {
        assert forall|a: int, b: int| 0 <= a < b < original.len() implies (#[trigger] sentence_names(original)[a]) != (
        #[trigger] sentence_names(original)[b]) by {
            assert(all[start.len() + a] == sentence_names(original)[a]);
            assert(all[start.len() + b] == sentence_names(original)[b]);
        }
    }
    let mut values = values;
    let mut table: Vec<(SentenceId, T)> = Vec::new();
    while values.len() > 0
        invariant
            values@ == original.take(values@.len() as int),
            table@.len() + values@.len() == original.len(),
            keyed(table@),
            distinct_texts(sentence_names(original)),
            forall|i: int| values@.len() <= i < original.len() ==> #[trigger] has_entry(table@, original[i]),
            forall|p: int| 0 <= p < table@.len() ==> exists|i: int| values@.len() <= i < original.len() && (#[trigger] table@[p]).1 == original[i],
        decreases values.len(),
    {
        let ghost cur = values@.len() - 1;
        let value = match values.pop() {
            Some(value) => value,
            None => {
                return Ok(table);
            },
        };
        proof {
            assert(value == original[cur]);
            assert(values@ =~= original.take(cur));
        }
        let key = value.sentence().clone();
        let ghost old_table = table@;
        match insert_sorted(&mut table, key, value) {
            Ok(p) => {
                proof {
                    let entry = table@[p as int];
                    assert(entry.1 == original[cur]);
                    assert forall|q: int| 0 <= q < table@.len() implies (#[trigger] table@[q]).0@ == table@[q].1.sentence_id()@ by {
                        if q < p {
                            assert(table@[q] == old_table[q]);
                        } else if q > p {
                            assert(table@[q] == old_table[q - 1]);
                        }
                    }
                    assert forall|i: int| values@.len() <= i < original.len() implies #[trigger] has_entry(table@, original[i]) by {
                        if i == cur {
                            assert(table@[p as int] == entry);
                        } else {
                            assert(has_entry(old_table, original[i]));
                            let q = choose|q: int| 0 <= q < old_table.len() && (#[trigger] old_table[q]).1 == original[i]
                                && old_table[q].0@ == original[i].sentence_id()@;
                            if q < p {
                                assert(table@[q] == old_table[q]);
                            } else {
                                assert(table@[q + 1] == old_table[q]);
                            }
                        }
                    }
                    assert forall|q: int| 0 <= q < table@.len() implies exists|i: int| values@.len() <= i < original.len() && (
                    #[trigger] table@[q]).1 == original[i] by {
                        if q < p {
                            assert(table@[q] == old_table[q]);
                        } else if q > p {
                            assert(table@[q] == old_table[q - 1]);
                        } else {
                            assert(table@[q].1 == original[cur]);
                        }
                    }
                }
            },
            Err(i) => {
                proof {
                    let m = choose|m: int| cur + 1 <= m < original.len() && (#[trigger] old_table[i as int]).1 == original[m];
                    assert(sentence_names(original)[m] == original[m].sentence_id()@);
                    assert(sentence_names(original)[cur] == original[cur].sentence_id()@);
                    assert(false);
                }
                return Ok(table);
            },
        }
    }
    proof {
        assert(original.len() == table@.len());
        assert(keyed(table@));
        assert(forall|i: int| 0 <= i < original.len() ==> #[trigger] has_entry(table@, original[i]));
        assert(texts(names@) == start + sentence_names(original));
        assert(distinct_texts(texts(names@)));
        assert forall|p: int| 0 <= p < table@.len() implies original.contains((#[trigger] table@[p]).1) by {
            let i = choose|i: int| values@.len() <= i < original.len() && (#[trigger] table@[p]).1 == original[i];
            assert(original[i] == table@[p].1);
        }
        assert(holds_all(table@, original));
    }
    Ok(table)
}


/// Complete typed outcome for one named sentence in a law suite.
#[derive(Debug, PartialEq, Eq)]
pub enum SuiteVerdict {
    /// Transition-equation outcome.
    Transition(TransitionVerdict),
    /// Linear flow-constraint outcome.
    FlowConstraint(FlowConstraintVerdict),
    /// Boundary-correspondence outcome.
    Boundary(BoundaryVerdict),
    /// Certificate-derived direct open-balance outcome.
    OpenBalance(OpenBalanceVerdict),
    /// Graded-state outcome.
    Graded {
        /// Stable sentence identifier retained beside the graded evidence.
        sentence: SentenceId,
        /// Typed graded verdict.
        verdict: LawVerdict,
    },
}

impl SuiteVerdict {
    /// The sentence identifier the outcome carries.
    pub open spec fn id_spec(&self) -> SentenceId {
        match self {
            SuiteVerdict::Transition(TransitionVerdict::Satisfied(witness)) => witness.sentence,
            SuiteVerdict::Transition(TransitionVerdict::Violated(violation)) => violation.sentence,
            SuiteVerdict::FlowConstraint(FlowConstraintVerdict::Satisfied(witness)) => witness.sentence,
            SuiteVerdict::FlowConstraint(FlowConstraintVerdict::Violated(violation)) => violation.sentence,
            SuiteVerdict::Boundary(BoundaryVerdict::Satisfied(witness)) => witness.sentence,
            SuiteVerdict::Boundary(BoundaryVerdict::Violated(violation)) => violation.sentence,
            SuiteVerdict::OpenBalance(OpenBalanceVerdict::Satisfied(witness)) => witness.sentence,
            SuiteVerdict::OpenBalance(OpenBalanceVerdict::Violated(violation)) => violation.sentence,
            SuiteVerdict::Graded { sentence, .. } => *sentence,
        }
    }

    /// Whether the outcome is positive evidence.
    pub open spec fn satisfied_spec(&self) -> bool {
        match self {
            SuiteVerdict::Transition(verdict) => verdict is Satisfied,
            SuiteVerdict::FlowConstraint(verdict) => verdict is Satisfied,
            SuiteVerdict::Boundary(verdict) => verdict is Satisfied,
            SuiteVerdict::OpenBalance(verdict) => verdict is Satisfied,
            SuiteVerdict::Graded { verdict, .. } => verdict is Satisfied,
        }
    }

    /// Stable sentence identifier for this complete typed outcome.
    pub fn id(&self) -> (result: &SentenceId)
        ensures
            *result == self.id_spec(),
    {
        match self {
            SuiteVerdict::Transition(TransitionVerdict::Satisfied(witness)) => &witness.sentence,
            SuiteVerdict::Transition(TransitionVerdict::Violated(violation)) => &violation.sentence,
            SuiteVerdict::FlowConstraint(FlowConstraintVerdict::Satisfied(witness)) => &witness.sentence,
            SuiteVerdict::FlowConstraint(FlowConstraintVerdict::Violated(violation)) => &violation.sentence,
            SuiteVerdict::Boundary(BoundaryVerdict::Satisfied(witness)) => &witness.sentence,
            SuiteVerdict::Boundary(BoundaryVerdict::Violated(violation)) => &violation.sentence,
            SuiteVerdict::OpenBalance(OpenBalanceVerdict::Satisfied(witness)) => &witness.sentence,
            SuiteVerdict::OpenBalance(OpenBalanceVerdict::Violated(violation)) => &violation.sentence,
            SuiteVerdict::Graded { sentence, .. } => sentence,
        }
    }

    /// Returns whether this named typed outcome is satisfied.
    pub fn is_satisfied(&self) -> (result: bool)
        ensures
            result == self.satisfied_spec(),
    {
        match self {
            SuiteVerdict::Transition(verdict) => verdict.is_satisfied(),
            SuiteVerdict::FlowConstraint(verdict) => verdict.is_satisfied(),
            SuiteVerdict::Boundary(verdict) => verdict.is_satisfied(),
            SuiteVerdict::OpenBalance(verdict) => verdict.is_satisfied(),
            SuiteVerdict::Graded { verdict, .. } => match verdict {
                LawVerdict::Satisfied(_) => true,
                LawVerdict::Violated(_) => false,
            },
        }
    }
}

/// No key of one table is a key of the other.
pub open spec fn apart<A: Sentence, B: Sentence>(a: Seq<(SentenceId, A)>, b: Seq<(SentenceId, B)>) -> bool {
    forall|p: int, q: int| 0 <= p < a.len() && 0 <= q < b.len() ==> (#[trigger] a[p]).0@ != (#[trigger] b[q]).0@
}

/// The transition equation's identifier, if any, is no key of the table.
pub open spec fn absent<A: Sentence>(transition: Option<TransitionEquation>, a: Seq<(SentenceId, A)>) -> bool {
    transition matches Some(sentence) ==> forall|p: int| 0 <= p < a.len() ==> (#[trigger] a[p]).0@ != sentence.id_spec()@
}

/// Canonical law suite retaining every named typed verdict.
#[derive(Debug, PartialEq, Eq)]
pub struct StockFlowLawSuite {
    transition: Option<TransitionEquation>,
    constraints: Vec<(SentenceId, LinearFlowConstraint)>,
    boundaries: Vec<(SentenceId, BoundaryCorrespondence)>,
    open_balances: Vec<(SentenceId, OpenBalance)>,
    graded: Vec<(SentenceId, GradedStateLaw)>,
}

impl StockFlowLawSuite {
    /// The transition equation, if any.
    pub closed spec fn transition_spec(&self) -> Option<TransitionEquation> {
        self.transition
    }

    /// The flow constraints, in identifier order.
    pub closed spec fn constraint_table(&self) -> Seq<(SentenceId, LinearFlowConstraint)> {
        self.constraints@
    }

    /// The boundary correspondences, in identifier order.
    pub closed spec fn boundary_table(&self) -> Seq<(SentenceId, BoundaryCorrespondence)> {
        self.boundaries@
    }

    /// The open balances, in identifier order.
    pub closed spec fn open_table(&self) -> Seq<(SentenceId, OpenBalance)> {
        self.open_balances@
    }

    /// The graded state laws, in identifier order.
    pub closed spec fn graded_table(&self) -> Seq<(SentenceId, GradedStateLaw)> {
        self.graded@
    }

    /// The number of sentences.
    pub open spec fn sentence_count(&self) -> nat {
        transition_names(self.transition_spec()).len() + self.constraint_table().len() + self.boundary_table().len()
            + self.open_table().len() + self.graded_table().len()
    }

    /// Every family is keyed by identifier and no identifier names two sentences.
    pub open spec fn consistent(&self) -> bool {
        let t = self.transition_spec();
        &&& keyed(self.constraint_table())
        &&& keyed(self.boundary_table())
        &&& keyed(self.open_table())
        &&& keyed(self.graded_table())
        &&& absent(t, self.constraint_table())
        &&& absent(t, self.boundary_table())
        &&& absent(t, self.open_table())
        &&& absent(t, self.graded_table())
        &&& apart(self.constraint_table(), self.boundary_table())
        &&& apart(self.constraint_table(), self.open_table())
        &&& apart(self.constraint_table(), self.graded_table())
        &&& apart(self.boundary_table(), self.open_table())
        &&& apart(self.boundary_table(), self.graded_table())
        &&& apart(self.open_table(), self.graded_table())
    }

    #[verifier::type_invariant]
    closed spec fn well_keyed(&self) -> bool {
        self.consistent()
    }
}

/// Distinct names keep the sentences of two families under distinct keys.
proof fn lemma_apart<A: Sentence, B: Sentence>(
    names: Seq<Seq<char>>,
    a: Seq<A>,
    a_at: int,
    b: Seq<B>,
    b_at: int,
    ta: Seq<(SentenceId, A)>,
    tb: Seq<(SentenceId, B)>,
)
    requires
        distinct_texts(names),
        0 <= a_at,
        a_at + a.len() <= b_at,
        b_at + b.len() <= names.len(),
        forall|i: int| 0 <= i < a.len() ==> names[a_at + i] == (#[trigger] a[i]).sentence_id()@,
        forall|i: int| 0 <= i < b.len() ==> names[b_at + i] == (#[trigger] b[i]).sentence_id()@,
        holds_all(ta, a),
        holds_all(tb, b),
    ensures
        apart(ta, tb),
{
    assert forall|p: int, q: int| 0 <= p < ta.len() && 0 <= q < tb.len() implies (#[trigger] ta[p]).0@ != (#[trigger] tb[q]).0@ by {
        assert(a.contains(ta[p].1));
        let i = choose|i: int| 0 <= i < a.len() && a[i] == ta[p].1;
        assert(b.contains(tb[q].1));
        let k = choose|k: int| 0 <= k < b.len() && b[k] == tb[q].1;
        assert(names[a_at + i] == a[i].sentence_id()@);
        assert(names[b_at + k] == b[k].sentence_id()@);
        assert(names[a_at + i] != names[b_at + k]);
    }
}

/// Distinct names keep a family's keys apart from the transition equation's identifier.
proof fn lemma_absent<A: Sentence>(names: Seq<Seq<char>>, transition: Option<TransitionEquation>, a: Seq<A>, a_at: int, ta: Seq<(SentenceId, A)>)
    requires
        distinct_texts(names),
        transition_names(transition).len() <= a_at,
        a_at + a.len() <= names.len(),
        names.take(transition_names(transition).len() as int) == transition_names(transition),
        forall|i: int| 0 <= i < a.len() ==> names[a_at + i] == (#[trigger] a[i]).sentence_id()@,
        holds_all(ta, a),
    ensures
        absent(transition, ta),
{
    if let Some(sentence) = transition {
        assert forall|p: int| 0 <= p < ta.len() implies (#[trigger] ta[p]).0@ != sentence.id_spec()@ by {
            assert(a.contains(ta[p].1));
            let i = choose|i: int| 0 <= i < a.len() && a[i] == ta[p].1;
            assert(names[a_at + i] == a[i].sentence_id()@);
            assert(names.take(1)[0] == names[0]);
            assert(names[0] == sentence.id_spec()@);
            assert(names[0] != names[a_at + i]);
        }
    }
}

impl StockFlowLawSuite {
    /// Constructs a suite, refusing the first sentence identifier, in family
    /// order, that repeats an earlier one.
    pub fn new(
        transition: Option<TransitionEquation>,
        constraints: Vec<LinearFlowConstraint>,
        boundaries: Vec<BoundaryCorrespondence>,
        open_balances: Vec<OpenBalance>,
        graded: Vec<GradedStateLaw>,
    ) -> (result: Result<Self, StockFlowError>)
        ensures
            ({
                let names = suite_names(transition, constraints@, boundaries@, open_balances@, graded@);
                &&& result is Ok <==> distinct_texts(names)
                &&& match result {
                    Ok(suite) => {
                        &&& suite.transition_spec() == transition
                        &&& holds_all(suite.constraint_table(), constraints@)
                        &&& holds_all(suite.boundary_table(), boundaries@)
                        &&& holds_all(suite.open_table(), open_balances@)
                        &&& holds_all(suite.graded_table(), graded@)
                        &&& suite.consistent()
                    },
                    Err(error) => exists|j: int| #[trigger] first_repeat(names, j) && (error matches StockFlowError::DuplicateSentence(s)
                        && s@ == names[j]),
                }
            }),
    {
        let ghost names = suite_names(transition, constraints@, boundaries@, open_balances@, graded@);
        let ghost t = transition_names(transition);
        let ghost c = sentence_names(constraints@);
        let ghost b = sentence_names(boundaries@);
        let ghost o = sentence_names(open_balances@);
        let ghost g = sentence_names(graded@);
        let ghost c_in = constraints@;
        let ghost b_in = boundaries@;
        let ghost o_in = open_balances@;
        let ghost g_in = graded@;
        let mut seen: Vec<SentenceId> = Vec::new();
        match &transition {
            Some(sentence) => {
                seen.push(sentence.id().clone());
            },
            None => {},
        }
        proof {
            assert(texts(seen@) =~= t);
        }
        let constraint_table = match collect_named(constraints, &mut seen) {
            Ok(table) => table,
            Err(error) => {
                proof {
                    let j = choose|j: int| 0 <= j < c_in.len() && first_repeat(t + c, t.len() + j) && #[trigger] c_in[j] == c_in[j] && (error matches StockFlowError::DuplicateSentence(s) && s@ == c_in[j].sentence_id()@);
                    lemma_first_repeat_extends(t + c, b + o + g, t.len() + j);
                    assert(t + c + (b + o + g) =~= names);
                    assert(names[t.len() + j] == c[j]);
                }
                return Err(error);
            },
        };
        let boundary_table = match collect_named(boundaries, &mut seen) {
            Ok(table) => table,
            Err(error) => {
                proof {
                    let j = choose|j: int| 0 <= j < b_in.len() && first_repeat(t + c + b, (t + c).len() + j) && #[trigger] b_in[j] == b_in[j] && (error matches StockFlowError::DuplicateSentence(s) && s@ == b_in[j].sentence_id()@);
                    lemma_first_repeat_extends(t + c + b, o + g, (t + c).len() + j);
                    assert(t + c + b + (o + g) =~= names);
                    assert(names[(t + c).len() + j] == b[j]);
                }
                return Err(error);
            },
        };
        let open_table = match collect_named(open_balances, &mut seen) {
            Ok(table) => table,
            Err(error) => {
                proof {
                    let j = choose|j: int| 0 <= j < o_in.len() && first_repeat(t + c + b + o, (t + c + b).len() + j) && #[trigger] o_in[j] == o_in[j] && (error matches StockFlowError::DuplicateSentence(s) && s@ == o_in[j].sentence_id()@);
                    lemma_first_repeat_extends(t + c + b + o, g, (t + c + b).len() + j);
                    assert(names[(t + c + b).len() + j] == o[j]);
                }
                return Err(error);
            },
        };
        let graded_table = match collect_named(graded, &mut seen) {
            Ok(table) => table,
            Err(error) => {
                proof {
                    let j = choose|j: int| 0 <= j < g_in.len() && first_repeat(t + c + b + o + g, (t + c + b + o).len() + j) && #[trigger] g_in[j] == g_in[j] && (error matches StockFlowError::DuplicateSentence(s) && s@ == g_in[j].sentence_id()@);
                    assert(names[(t + c + b + o).len() + j] == g[j]);
                }
                return Err(error);
            },
        };
        proof {
            assert(texts(seen@) == names);
            let c_at = t.len() as int;
            let b_at = c_at + c.len();
            let o_at = b_at + b.len();
            let g_at = o_at + o.len();
            assert forall|i: int| 0 <= i < c_in.len() implies names[c_at + i] == (#[trigger] c_in[i]).sentence_id()@ by {
                assert(names[c_at + i] == c[i]);
            }
            assert forall|i: int| 0 <= i < b_in.len() implies names[b_at + i] == (#[trigger] b_in[i]).sentence_id()@ by {
                assert(names[b_at + i] == b[i]);
            }
            assert forall|i: int| 0 <= i < o_in.len() implies names[o_at + i] == (#[trigger] o_in[i]).sentence_id()@ by {
                assert(names[o_at + i] == o[i]);
            }
            assert forall|i: int| 0 <= i < g_in.len() implies names[g_at + i] == (#[trigger] g_in[i]).sentence_id()@ by {
                assert(names[g_at + i] == g[i]);
            }
            assert(names.take(t.len() as int) =~= t);
            lemma_absent(names, transition, c_in, c_at, constraint_table@);
            lemma_absent(names, transition, b_in, b_at, boundary_table@);
            lemma_absent(names, transition, o_in, o_at, open_table@);
            lemma_absent(names, transition, g_in, g_at, graded_table@);
            lemma_apart(names, c_in, c_at, b_in, b_at, constraint_table@, boundary_table@);
            lemma_apart(names, c_in, c_at, o_in, o_at, constraint_table@, open_table@);
            lemma_apart(names, c_in, c_at, g_in, g_at, constraint_table@, graded_table@);
            lemma_apart(names, b_in, b_at, o_in, o_at, boundary_table@, open_table@);
            lemma_apart(names, b_in, b_at, g_in, g_at, boundary_table@, graded_table@);
            lemma_apart(names, o_in, o_at, g_in, g_at, open_table@, graded_table@);
        }
        Ok(
            StockFlowLawSuite {
                transition,
                constraints: constraint_table,
                boundaries: boundary_table,
                open_balances: open_table,
                graded: graded_table,
            },
        )
    }
}


/// Whether `verdict` is what its sentence's checker reports on `trace`.
pub open spec fn suite_outcome(suite: StockFlowLawSuite, trace: TransitionTrace, verdict: SuiteVerdict) -> bool {
    match verdict {
        SuiteVerdict::Transition(v) => suite.transition_spec() matches Some(sentence) && transition_outcome(sentence, trace, Ok(v)),
        SuiteVerdict::FlowConstraint(v) => exists|p: int|
            0 <= p < suite.constraint_table().len() && #[trigger] flow_outcome(suite.constraint_table()[p].1, trace, Ok(v)),
        SuiteVerdict::Boundary(v) => exists|p: int|
            0 <= p < suite.boundary_table().len() && #[trigger] boundary_outcome(suite.boundary_table()[p].1, trace, Ok(v)),
        SuiteVerdict::OpenBalance(v) => exists|p: int|
            0 <= p < suite.open_table().len() && #[trigger] open_balance_outcome(suite.open_table()[p].1, trace, Ok(v)),
        SuiteVerdict::Graded { sentence, verdict } => exists|p: int|
            0 <= p < suite.graded_table().len() && suite.graded_table()[p].1.id_spec() == sentence && #[trigger] graded_outcome(
                suite.graded_table()[p].1,
                trace,
                Ok(verdict),
            ),
    }
}

/// Whether `error` is what some sentence's checker reports on `trace`.
pub open spec fn suite_failure(suite: StockFlowLawSuite, trace: TransitionTrace, error: StockFlowError) -> bool {
    ||| suite.transition_spec() matches Some(sentence) && transition_outcome(sentence, trace, Err(error))
    ||| exists|p: int|
        0 <= p < suite.constraint_table().len() && #[trigger] flow_outcome(suite.constraint_table()[p].1, trace, Err(error))
    ||| exists|p: int|
        0 <= p < suite.boundary_table().len() && #[trigger] boundary_outcome(suite.boundary_table()[p].1, trace, Err(error))
    ||| exists|p: int|
        0 <= p < suite.open_table().len() && #[trigger] open_balance_outcome(suite.open_table()[p].1, trace, Err(error))
    ||| exists|p: int|
        0 <= p < suite.graded_table().len() && #[trigger] graded_outcome(suite.graded_table()[p].1, trace, Err(error))
}

/// Whether `key` names the transition equation or one of the first `c`, `b`,
/// `o` and `g` sentences of the other families.
pub open spec fn seen(suite: StockFlowLawSuite, key: Seq<char>, c: int, b: int, o: int, g: int) -> bool {
    ||| suite.transition_spec() matches Some(sentence) && sentence.id_spec()@ == key
    ||| exists|q: int| 0 <= q < c && (#[trigger] suite.constraint_table()[q]).0@ == key
    ||| exists|q: int| 0 <= q < b && (#[trigger] suite.boundary_table()[q]).0@ == key
    ||| exists|q: int| 0 <= q < o && (#[trigger] suite.open_table()[q]).0@ == key
    ||| exists|q: int| 0 <= q < g && (#[trigger] suite.graded_table()[q]).0@ == key
}

/// An entry of the verdict table: keyed by its verdict's identifier, and the
/// verdict its sentence's checker reports.
pub open spec fn entry_ok(suite: StockFlowLawSuite, trace: TransitionTrace, entry: (SentenceId, SuiteVerdict)) -> bool {
    entry.0 == entry.1.id_spec() && suite_outcome(suite, trace, entry.1)
}

/// What holds of every element holds of every element after an insertion.
proof fn lemma_insert_all<A>(s: Seq<A>, pos: int, x: A, pred: spec_fn(A) -> bool)
    requires
        0 <= pos <= s.len(),
        forall|p: int| 0 <= p < s.len() ==> pred(#[trigger] s[p]),
        pred(x),
    ensures
        forall|p: int| 0 <= p < s.len() + 1 ==> pred(#[trigger] s.insert(pos, x)[p]),
{
    assert forall|p: int| 0 <= p < s.len() + 1 implies pred(#[trigger] s.insert(pos, x)[p]) by {
        if p < pos {
            assert(s.insert(pos, x)[p] == s[p]);
        } else if p > pos {
            assert(s.insert(pos, x)[p] == s[p - 1]);
        }
    }
}

/// In a sorted table distinct positions hold distinct keys.
proof fn lemma_keys_distinct<A: Sentence>(table: Seq<(SentenceId, A)>, p: int, q: int)
    requires
        keys_sorted(table),
        0 <= p < table.len(),
        0 <= q < table.len(),
        p != q,
    ensures
        table[p].0@ != table[q].0@,
{
    lemma_text_lt_irreflexive(table[p].0@);
    if p < q {
        assert(text_lt(table[p].0@, table[q].0@));
    } else {
        assert(text_lt(table[q].0@, table[p].0@));
        lemma_text_lt_irreflexive(table[q].0@);
    }
}

impl StockFlowLawSuite {
    /// Checks one family of sentences, adding each outcome to the verdict table.
    #[verifier::loop_isolation(false)]
    fn check_constraints(&self, trace: &TransitionTrace, table: &mut Vec<(SentenceId, SuiteVerdict)>) -> (result: Result<(), StockFlowError>)
        requires
            self.consistent(),
            keys_sorted(old(table)@),
            forall|p: int| #![trigger old(table)@[p]] 0 <= p < old(table)@.len() ==> entry_ok(*self, *trace, old(table)@[p]) && seen(*self, old(table)@[p].0@, 0, 0, 0, 0),
        ensures
            match result {
                Ok(()) => {
                    &&& keys_sorted(final(table)@)
                    &&& final(table)@.len() == old(table)@.len() + self.constraints@.len()
                    &&& forall|p: int| #![trigger final(table)@[p]] 0 <= p < final(table)@.len() ==> entry_ok(*self, *trace, final(table)@[p]) && seen(*self, final(table)@[p].0@, self.constraints@.len() as int, 0, 0, 0)
                },
                Err(error) => suite_failure(*self, *trace, error),
            },
    {
        let mut ci: usize = 0;
        while ci < self.constraints.len()
            invariant
                ci <= self.constraints@.len(),
                keys_sorted(table@),
                table@.len() == old(table)@.len() + ci,
                forall|p: int| #![trigger table@[p]] 0 <= p < table@.len() ==> entry_ok(*self, *trace, table@[p]) && seen(*self, table@[p].0@, ci as int, 0, 0, 0),
            decreases self.constraints.len() - ci,
        {
            let sentence = &self.constraints[ci].1;
            let verdict = match check_linear_flow_constraint(sentence, trace) {
                Ok(verdict) => verdict,
                Err(error) => {
                    proof {
                        assert(flow_outcome(self.constraint_table()[ci as int].1, *trace, Err(error)));
                    }
                    return Err(error);
                },
            };
            let key = sentence.id().clone();
            let entry = SuiteVerdict::FlowConstraint(verdict);
            let ghost pair = (key, entry);
            let ghost before = table@;
            proof {
                assert(flow_outcome(self.constraint_table()[ci as int].1, *trace, Ok(verdict)));
                assert(entry_ok(*self, *trace, pair));
                assert forall|p: int| 0 <= p < before.len() implies (#[trigger] before[p]).0@ != key@ by {
                    assert(entry_ok(*self, *trace, before[p]) && seen(*self, before[p].0@, ci as int, 0, 0, 0));
                    if exists|q: int| 0 <= q < ci && (#[trigger] self.constraint_table()[q]).0@ == before[p].0@ {
                        let q = choose|q: int| 0 <= q < ci && (#[trigger] self.constraint_table()[q]).0@ == before[p].0@;
                        lemma_keys_distinct(self.constraint_table(), q, ci as int);
                    }
                }
            }
            match insert_sorted(table, key, entry) {
                Ok(pos) => {
                    proof {
                        let pred = |e: (SentenceId, SuiteVerdict)| entry_ok(*self, *trace, e) && seen(*self, e.0@, ci + 1, 0, 0, 0);
                        assert forall|p: int| 0 <= p < before.len() implies pred(#[trigger] before[p]) by {
                            assert(entry_ok(*self, *trace, before[p]) && seen(*self, before[p].0@, ci as int, 0, 0, 0));
                        }
                        assert(self.constraint_table()[ci as int].0@ == key@);
                        assert(pred(pair));
                        lemma_insert_all(before, pos as int, pair, pred);
                    }
                },
                Err(i) => {
                    proof {
                        assert(before[i as int].0@ == key@);
                    }
                    return Err(StockFlowError::CarrierMismatch);
                },
            }
            ci += 1;
        }
        Ok(())
    }

    /// Checks one family of sentences, adding each outcome to the verdict table.
    #[verifier::loop_isolation(false)]
    fn check_boundaries(&self, trace: &TransitionTrace, table: &mut Vec<(SentenceId, SuiteVerdict)>) -> (result: Result<(), StockFlowError>)
        requires
            self.consistent(),
            keys_sorted(old(table)@),
            forall|p: int| #![trigger old(table)@[p]] 0 <= p < old(table)@.len() ==> entry_ok(*self, *trace, old(table)@[p]) && seen(*self, old(table)@[p].0@, self.constraints@.len() as int, 0, 0, 0),
        ensures
            match result {
                Ok(()) => {
                    &&& keys_sorted(final(table)@)
                    &&& final(table)@.len() == old(table)@.len() + self.boundaries@.len()
                    &&& forall|p: int| #![trigger final(table)@[p]] 0 <= p < final(table)@.len() ==> entry_ok(*self, *trace, final(table)@[p]) && seen(*self, final(table)@[p].0@, self.constraints@.len() as int, self.boundaries@.len() as int, 0, 0)
                },
                Err(error) => suite_failure(*self, *trace, error),
            },
    {
        let mut bi: usize = 0;
        while bi < self.boundaries.len()
            invariant
                bi <= self.boundaries@.len(),
                keys_sorted(table@),
                table@.len() == old(table)@.len() + bi,
                forall|p: int| #![trigger table@[p]] 0 <= p < table@.len() ==> entry_ok(*self, *trace, table@[p]) && seen(
                    *self,
                    table@[p].0@,
                    self.constraints@.len() as int,
                    bi as int,
                    0,
                    0,
                ),
            decreases self.boundaries.len() - bi,
        {
            let sentence = &self.boundaries[bi].1;
            let verdict = match check_boundary_correspondence(sentence, trace) {
                Ok(verdict) => verdict,
                Err(error) => {
                    proof {
                        assert(boundary_outcome(self.boundary_table()[bi as int].1, *trace, Err(error)));
                    }
                    return Err(error);
                },
            };
            let key = sentence.id().clone();
            let entry = SuiteVerdict::Boundary(verdict);
            let ghost pair = (key, entry);
            let ghost before = table@;
            let ghost cn = self.constraints@.len() as int;
            proof {
                assert(boundary_outcome(self.boundary_table()[bi as int].1, *trace, Ok(verdict)));
                assert(entry_ok(*self, *trace, pair));
                assert forall|p: int| 0 <= p < before.len() implies (#[trigger] before[p]).0@ != key@ by {
                    assert(entry_ok(*self, *trace, before[p]) && seen(*self, before[p].0@, cn, bi as int, 0, 0));
                    if exists|q: int| 0 <= q < bi && (#[trigger] self.boundary_table()[q]).0@ == before[p].0@ {
                        let q = choose|q: int| 0 <= q < bi && (#[trigger] self.boundary_table()[q]).0@ == before[p].0@;
                        lemma_keys_distinct(self.boundary_table(), q, bi as int);
                    }
                    if exists|q: int| 0 <= q < cn && (#[trigger] self.constraint_table()[q]).0@ == before[p].0@ {
                        let q = choose|q: int| 0 <= q < cn && (#[trigger] self.constraint_table()[q]).0@ == before[p].0@;
                        assert(self.constraint_table()[q].0@ != self.boundary_table()[bi as int].0@);
                    }
                }
            }
            match insert_sorted(table, key, entry) {
                Ok(pos) => {
                    proof {
                        let pred = |e: (SentenceId, SuiteVerdict)| entry_ok(*self, *trace, e) && seen(*self, e.0@, cn, bi + 1, 0, 0);
                        assert forall|p: int| 0 <= p < before.len() implies pred(#[trigger] before[p]) by {
                            assert(entry_ok(*self, *trace, before[p]) && seen(*self, before[p].0@, cn, bi as int, 0, 0));
                        }
                        assert(self.boundary_table()[bi as int].0@ == key@);
                        assert(pred(pair));
                        lemma_insert_all(before, pos as int, pair, pred);
                    }
                },
                Err(i) => {
                    proof {
                        assert(before[i as int].0@ == key@);
                    }
                    return Err(StockFlowError::CarrierMismatch);
                },
            }
            bi += 1;
        }
        Ok(())
    }

    /// Checks one family of sentences, adding each outcome to the verdict table.
    #[verifier::loop_isolation(false)]
    fn check_open_balances(&self, trace: &TransitionTrace, table: &mut Vec<(SentenceId, SuiteVerdict)>) -> (result: Result<(), StockFlowError>)
        requires
            self.consistent(),
            keys_sorted(old(table)@),
            forall|p: int| #![trigger old(table)@[p]] 0 <= p < old(table)@.len() ==> entry_ok(*self, *trace, old(table)@[p]) && seen(*self, old(table)@[p].0@, self.constraints@.len() as int, self.boundaries@.len() as int, 0, 0),
        ensures
            match result {
                Ok(()) => {
                    &&& keys_sorted(final(table)@)
                    &&& final(table)@.len() == old(table)@.len() + self.open_balances@.len()
                    &&& forall|p: int| #![trigger final(table)@[p]] 0 <= p < final(table)@.len() ==> entry_ok(*self, *trace, final(table)@[p]) && seen(*self, final(table)@[p].0@, self.constraints@.len() as int, self.boundaries@.len() as int, self.open_balances@.len() as int, 0)
                },
                Err(error) => suite_failure(*self, *trace, error),
            },
    {
        let mut oi: usize = 0;
        while oi < self.open_balances.len()
            invariant
                oi <= self.open_balances@.len(),
                keys_sorted(table@),
                table@.len() == old(table)@.len() + oi,
                forall|p: int| #![trigger table@[p]] 0 <= p < table@.len() ==> entry_ok(*self, *trace, table@[p]) && seen(
                    *self,
                    table@[p].0@,
                    self.constraints@.len() as int,
                    self.boundaries@.len() as int,
                    oi as int,
                    0,
                ),
            decreases self.open_balances.len() - oi,
        {
            let sentence = &self.open_balances[oi].1;
            let verdict = match check_open_balance(sentence, trace) {
                Ok(verdict) => verdict,
                Err(error) => {
                    proof {
                        assert(open_balance_outcome(self.open_table()[oi as int].1, *trace, Err(error)));
                    }
                    return Err(error);
                },
            };
            let key = sentence.id().clone();
            let entry = SuiteVerdict::OpenBalance(verdict);
            let ghost pair = (key, entry);
            let ghost before = table@;
            let ghost cn = self.constraints@.len() as int;
            let ghost bn = self.boundaries@.len() as int;
            proof {
                assert(open_balance_outcome(self.open_table()[oi as int].1, *trace, Ok(verdict)));
                assert(entry_ok(*self, *trace, pair));
                assert forall|p: int| 0 <= p < before.len() implies (#[trigger] before[p]).0@ != key@ by {
                    assert(entry_ok(*self, *trace, before[p]) && seen(*self, before[p].0@, cn, bn, oi as int, 0));
                    if exists|q: int| 0 <= q < oi && (#[trigger] self.open_table()[q]).0@ == before[p].0@ {
                        let q = choose|q: int| 0 <= q < oi && (#[trigger] self.open_table()[q]).0@ == before[p].0@;
                        lemma_keys_distinct(self.open_table(), q, oi as int);
                    }
                    if exists|q: int| 0 <= q < cn && (#[trigger] self.constraint_table()[q]).0@ == before[p].0@ {
                        let q = choose|q: int| 0 <= q < cn && (#[trigger] self.constraint_table()[q]).0@ == before[p].0@;
                        assert(self.constraint_table()[q].0@ != self.open_table()[oi as int].0@);
                    }
                    if exists|q: int| 0 <= q < bn && (#[trigger] self.boundary_table()[q]).0@ == before[p].0@ {
                        let q = choose|q: int| 0 <= q < bn && (#[trigger] self.boundary_table()[q]).0@ == before[p].0@;
                        assert(self.boundary_table()[q].0@ != self.open_table()[oi as int].0@);
                    }
                }
            }
            match insert_sorted(table, key, entry) {
                Ok(pos) => {
                    proof {
                        let pred = |e: (SentenceId, SuiteVerdict)| entry_ok(*self, *trace, e) && seen(*self, e.0@, cn, bn, oi + 1, 0);
                        assert forall|p: int| 0 <= p < before.len() implies pred(#[trigger] before[p]) by {
                            assert(entry_ok(*self, *trace, before[p]) && seen(*self, before[p].0@, cn, bn, oi as int, 0));
                        }
                        assert(self.open_table()[oi as int].0@ == key@);
                        assert(pred(pair));
                        lemma_insert_all(before, pos as int, pair, pred);
                    }
                },
                Err(i) => {
                    proof {
                        assert(before[i as int].0@ == key@);
                    }
                    return Err(StockFlowError::CarrierMismatch);
                },
            }
            oi += 1;
        }
        Ok(())
    }

    /// Checks one family of sentences, adding each outcome to the verdict table.
    #[verifier::loop_isolation(false)]
    fn check_graded(&self, trace: &TransitionTrace, table: &mut Vec<(SentenceId, SuiteVerdict)>) -> (result: Result<(), StockFlowError>)
        requires
            self.consistent(),
            keys_sorted(old(table)@),
            forall|p: int| #![trigger old(table)@[p]] 0 <= p < old(table)@.len() ==> entry_ok(*self, *trace, old(table)@[p]) && seen(*self, old(table)@[p].0@, self.constraints@.len() as int, self.boundaries@.len() as int, self.open_balances@.len() as int, 0),
        ensures
            match result {
                Ok(()) => {
                    &&& keys_sorted(final(table)@)
                    &&& final(table)@.len() == old(table)@.len() + self.graded@.len()
                    &&& forall|p: int| #![trigger final(table)@[p]] 0 <= p < final(table)@.len() ==> entry_ok(*self, *trace, final(table)@[p]) && seen(*self, final(table)@[p].0@, self.constraints@.len() as int, self.boundaries@.len() as int, self.open_balances@.len() as int, self.graded@.len() as int)
                },
                Err(error) => suite_failure(*self, *trace, error),
            },
    {
        let mut gi: usize = 0;
        while gi < self.graded.len()
            invariant
                gi <= self.graded@.len(),
                keys_sorted(table@),
                table@.len() == old(table)@.len() + gi,
                forall|p: int| #![trigger table@[p]] 0 <= p < table@.len() ==> entry_ok(*self, *trace, table@[p]) && seen(
                    *self,
                    table@[p].0@,
                    self.constraints@.len() as int,
                    self.boundaries@.len() as int,
                    self.open_balances@.len() as int,
                    gi as int,
                ),
            decreases self.graded.len() - gi,
        {
            let sentence = &self.graded[gi].1;
            let verdict = match check_graded_state_law(sentence, trace) {
                Ok(verdict) => verdict,
                Err(error) => {
                    proof {
                        assert(graded_outcome(self.graded_table()[gi as int].1, *trace, Err(error)));
                    }
                    return Err(error);
                },
            };
            let key = sentence.id().clone();
            let entry = SuiteVerdict::Graded { sentence: sentence.id().clone(), verdict };
            let ghost pair = (key, entry);
            let ghost before = table@;
            let ghost cn = self.constraints@.len() as int;
            let ghost bn = self.boundaries@.len() as int;
            let ghost on = self.open_balances@.len() as int;
            proof {
                assert(graded_outcome(self.graded_table()[gi as int].1, *trace, Ok(verdict)));
                assert(entry_ok(*self, *trace, pair));
                assert forall|p: int| 0 <= p < before.len() implies (#[trigger] before[p]).0@ != key@ by {
                    assert(entry_ok(*self, *trace, before[p]) && seen(*self, before[p].0@, cn, bn, on, gi as int));
                    if exists|q: int| 0 <= q < gi && (#[trigger] self.graded_table()[q]).0@ == before[p].0@ {
                        let q = choose|q: int| 0 <= q < gi && (#[trigger] self.graded_table()[q]).0@ == before[p].0@;
                        lemma_keys_distinct(self.graded_table(), q, gi as int);
                    }
                    if exists|q: int| 0 <= q < cn && (#[trigger] self.constraint_table()[q]).0@ == before[p].0@ {
                        let q = choose|q: int| 0 <= q < cn && (#[trigger] self.constraint_table()[q]).0@ == before[p].0@;
                        assert(self.constraint_table()[q].0@ != self.graded_table()[gi as int].0@);
                    }
                    if exists|q: int| 0 <= q < bn && (#[trigger] self.boundary_table()[q]).0@ == before[p].0@ {
                        let q = choose|q: int| 0 <= q < bn && (#[trigger] self.boundary_table()[q]).0@ == before[p].0@;
                        assert(self.boundary_table()[q].0@ != self.graded_table()[gi as int].0@);
                    }
                    if exists|q: int| 0 <= q < on && (#[trigger] self.open_table()[q]).0@ == before[p].0@ {
                        let q = choose|q: int| 0 <= q < on && (#[trigger] self.open_table()[q]).0@ == before[p].0@;
                        assert(self.open_table()[q].0@ != self.graded_table()[gi as int].0@);
                    }
                }
            }
            match insert_sorted(table, key, entry) {
                Ok(pos) => {
                    proof {
                        let pred = |e: (SentenceId, SuiteVerdict)| entry_ok(*self, *trace, e) && seen(*self, e.0@, cn, bn, on, gi + 1);
                        assert forall|p: int| 0 <= p < before.len() implies pred(#[trigger] before[p]) by {
                            assert(entry_ok(*self, *trace, before[p]) && seen(*self, before[p].0@, cn, bn, on, gi as int));
                        }
                        assert(self.graded_table()[gi as int].0@ == key@);
                        assert(pred(pair));
                        lemma_insert_all(before, pos as int, pair, pred);
                    }
                },
                Err(i) => {
                    proof {
                        assert(before[i as int].0@ == key@);
                    }
                    return Err(StockFlowError::CarrierMismatch);
                },
            }
            gi += 1;
        }
        Ok(())
    }

    /// Checks every sentence and returns every typed outcome in identifier
    /// order; the first checker error, family by family, is returned instead.
    #[verifier::loop_isolation(false)]
    pub fn check(&self, trace: &TransitionTrace) -> (result: Result<Vec<SuiteVerdict>, StockFlowError>)
        ensures
            match result {
                Ok(verdicts) => {
                    &&& verdicts@.len() == self.sentence_count()
                    &&& forall|i: int, j: int| 0 <= i < j < verdicts@.len() ==> text_lt(
                        (#[trigger] verdicts@[i]).id_spec()@,
                        (#[trigger] verdicts@[j]).id_spec()@,
                    )
                    &&& forall|i: int| 0 <= i < verdicts@.len() ==> #[trigger] suite_outcome(*self, *trace, verdicts@[i])
                },
                Err(error) => suite_failure(*self, *trace, error),
            },
    {
        proof {
            use_type_invariant(self);
        }
        let ghost suite = *self;
        let ghost tr = *trace;
        let mut table: Vec<(SentenceId, SuiteVerdict)> = Vec::new();
        match &self.transition {
            Some(sentence) => {
                let verdict = match check_transition_equation(sentence, trace) {
                    Ok(verdict) => verdict,
                    Err(error) => {
                        return Err(error);
                    },
                };
                let key = sentence.id().clone();
                let entry = SuiteVerdict::Transition(verdict);
                let ghost pair = (key, entry);
                match insert_sorted(&mut table, key, entry) {
                    Ok(_) => {
                        proof {
                            assert(table@ =~= seq![pair]);
                            assert(entry_ok(suite, tr, table@[0]));
                            assert(seen(suite, table@[0].0@, 0, 0, 0, 0));
                        }
                    },
                    Err(_) => {
                        proof {
                            assert(false);
                        }
                        return Err(StockFlowError::CarrierMismatch);
                    },
                }
            },
            None => {},
        }
        let ghost base = table@.len();
        proof {
            assert(base == transition_names(suite.transition_spec()).len());
        }
        self.check_constraints(trace, &mut table)?;
        self.check_boundaries(trace, &mut table)?;
        self.check_open_balances(trace, &mut table)?;
        self.check_graded(trace, &mut table)?;
        let ghost all = table@;
        let mut verdicts: Vec<SuiteVerdict> = Vec::new();
        while table.len() > 0
            invariant
                verdicts@.len() + table@.len() == all.len(),
                table@ == all.subrange(verdicts@.len() as int, all.len() as int),
                forall|i: int| 0 <= i < verdicts@.len() ==> #[trigger] verdicts@[i] == all[i].1,
            decreases table.len(),
        {
            let entry = table.remove(0);
            proof {
                assert(entry == all[verdicts@.len() as int]);
            }
            verdicts.push(entry.1);
        }
        proof {
            assert forall|i: int, j: int| 0 <= i < j < verdicts@.len() implies text_lt(
                (#[trigger] verdicts@[i]).id_spec()@,
                (#[trigger] verdicts@[j]).id_spec()@,
            ) by {
                assert(entry_ok(suite, tr, all[i]));
                assert(entry_ok(suite, tr, all[j]));
            }
            assert forall|i: int| 0 <= i < verdicts@.len() implies #[trigger] suite_outcome(*self, *trace, verdicts@[i]) by {
                assert(entry_ok(suite, tr, all[i]));
            }
        }
        Ok(verdicts)
    }
}

} // verus!
