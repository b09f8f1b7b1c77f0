//! Test-only kinds. Fixtures, not physics: floors and dimensions are chosen to keep
//! conservation's tests independent of any external kind catalog.
use crate::format::{decimal, decimal_text, push_text, same_text, text_from_chars};
use crate::rational::Rational;
use crate::text::{lemma_text_lt_transitive, text_lt};
use vstd::prelude::*;

verus! {

/// How a kind's values combine: linear quantities add, points only differ.
#[derive(Clone, Copy, Debug, PartialEq, Eq, Hash, Structural)]
pub enum Affine<K> {
    /// Values of the kind can be added and scaled.
    Linear,
    /// Values of the kind are points; their differences have kind `difference`.
    Point {
        /// The kind of a difference of two points.
        difference: K,
    },
}

/// Variants are declared in name order, so the derived order equals name order.
#[derive(Clone, Copy, Debug, PartialEq, Eq, Hash, PartialOrd, Ord, Structural)]
pub enum TestKind {
    Amount,
    Charge,
    Energy,
    EnergyPerMaterial,
    Enthalpy,
    Entropy,
    Heat,
    Material,
    MaterialBalance,
    MaterialSquared,
    Matter,
    Ratio,
    Reserve,
    Temperature,
    TemperatureDelta,
    Torque,
}

/// Every test kind in declaration order.
pub open spec fn all_test_kinds() -> Seq<TestKind> {
    seq![TestKind::Amount, TestKind::Charge, TestKind::Energy, TestKind::EnergyPerMaterial, TestKind::Enthalpy, TestKind::Entropy, TestKind::Heat, TestKind::Material, TestKind::MaterialBalance, TestKind::MaterialSquared, TestKind::Matter, TestKind::Ratio, TestKind::Reserve, TestKind::Temperature, TestKind::TemperatureDelta, TestKind::Torque]
}

/// The name of a test kind.
pub open spec fn kind_name(kind: TestKind) -> Seq<char> {
    match kind {
        TestKind::Amount => "amount"@,
        TestKind::Charge => "charge"@,
        TestKind::Energy => "energy"@,
        TestKind::EnergyPerMaterial => "energy_per_material"@,
        TestKind::Enthalpy => "enthalpy"@,
        TestKind::Entropy => "entropy"@,
        TestKind::Heat => "heat"@,
        TestKind::Material => "material"@,
        TestKind::MaterialBalance => "material_balance"@,
        TestKind::MaterialSquared => "material_squared"@,
        TestKind::Matter => "matter"@,
        TestKind::Ratio => "ratio"@,
        TestKind::Reserve => "reserve"@,
        TestKind::Temperature => "temperature"@,
        TestKind::TemperatureDelta => "temperature_delta"@,
        TestKind::Torque => "torque"@,
    }
}

/// The base-dimension exponents of a test kind.
pub open spec fn kind_exponents(kind: TestKind) -> Seq<i32> {
    match kind {
        TestKind::Amount => seq![1i32,0,0,0,0,0,0],
        TestKind::Charge => seq![0i32,1,0,0,0,0,0],
        TestKind::Energy => seq![0i32,0,1,0,0,0,0],
        TestKind::EnergyPerMaterial => seq![0i32,0,1,0,-1i32,0,0],
        TestKind::Enthalpy => seq![0i32,0,1,0,0,0,0],
        TestKind::Entropy => seq![0i32,0,0,1,0,0,0],
        TestKind::Heat => seq![0i32,0,1,0,0,0,0],
        TestKind::Material => seq![0i32,0,0,0,1,0,0],
        TestKind::MaterialBalance => seq![0i32,0,0,0,1,0,0],
        TestKind::MaterialSquared => seq![0i32,0,0,0,2,0,0],
        TestKind::Matter => seq![0i32,0,0,0,0,1,0],
        TestKind::Ratio => seq![0i32,0,0,0,0,0,0],
        TestKind::Reserve => seq![1i32,0,0,0,0,0,0],
        TestKind::Temperature => seq![0i32,0,0,0,0,0,1],
        TestKind::TemperatureDelta => seq![0i32,0,0,0,0,0,1],
        TestKind::Torque => seq![0i32,0,1,0,0,0,0],
    }
}

/// The kind of a difference of two values of a test kind.
pub open spec fn kind_difference(kind: TestKind) -> TestKind {
    match kind {
        TestKind::Temperature => TestKind::TemperatureDelta,
        TestKind::Enthalpy => TestKind::Heat,
        _ => kind,
    }
}

/// The floor of a test kind, when it has one.
pub open spec fn kind_floor(kind: TestKind) -> Option<real> {
    match kind {
        TestKind::Amount | TestKind::Energy | TestKind::Material | TestKind::Matter | TestKind::Temperature => Some(0real),
        TestKind::Reserve => Some(10real),
        _ => None,
    }
}

impl TestKind {
    /// Every variant in declaration order.
    pub const ALL: [TestKind; 16] = [TestKind::Amount, TestKind::Charge, TestKind::Energy, TestKind::EnergyPerMaterial, TestKind::Enthalpy, TestKind::Entropy, TestKind::Heat, TestKind::Material, TestKind::MaterialBalance, TestKind::MaterialSquared, TestKind::Matter, TestKind::Ratio, TestKind::Reserve, TestKind::Temperature, TestKind::TemperatureDelta, TestKind::Torque];

    /// The kind's name, e.g. "energy_per_material".
    pub fn name(self) -> (result: &'static str)
        ensures
            result@ == kind_name(self),
    {
        match self {
            TestKind::Amount => "amount",
            TestKind::Charge => "charge",
            TestKind::Energy => "energy",
            TestKind::EnergyPerMaterial => "energy_per_material",
            TestKind::Enthalpy => "enthalpy",
            TestKind::Entropy => "entropy",
            TestKind::Heat => "heat",
            TestKind::Material => "material",
            TestKind::MaterialBalance => "material_balance",
            TestKind::MaterialSquared => "material_squared",
            TestKind::Matter => "matter",
            TestKind::Ratio => "ratio",
            TestKind::Reserve => "reserve",
            TestKind::Temperature => "temperature",
            TestKind::TemperatureDelta => "temperature_delta",
            TestKind::Torque => "torque",
        }
    }

    /// The kind's name as an owned string.
    pub fn to_string(self) -> (result: String)
        ensures
            result@ == kind_name(self),
    {
        self.name().to_owned()
    }

    /// Whether the kind is linear or a point with a difference kind.
    pub fn affine(self) -> (result: Affine<TestKind>)
        ensures
            result == (if kind_difference(self) != self {
                Affine::Point { difference: kind_difference(self) }
            } else {
                Affine::Linear
            }),
    {
        match self {
            TestKind::Temperature => Affine::Point { difference: TestKind::TemperatureDelta },
            TestKind::Enthalpy => Affine::Point { difference: TestKind::Heat },
            _ => Affine::Linear,
        }
    }

    /// The kind of a difference of two values of this kind.
    pub fn difference(self) -> (result: TestKind)
        ensures
            result == kind_difference(self),
    {
        match self.affine() {
            Affine::Point { difference } => difference,
            Affine::Linear => self,
        }
    }

    /// The least admissible stock value, when the kind has one.
    pub fn floor(self) -> (result: Option<Rational>)
        ensures
            match result {
                Some(floor) => kind_floor(self) == Some(floor@),
                None => kind_floor(self) is None,
            },
    {
        match self {
            TestKind::Amount | TestKind::Energy | TestKind::Material | TestKind::Matter | TestKind::Temperature => Some(Rational::zero()),
            TestKind::Reserve => Some(Rational::from_integer(10)),
            _ => None,
        }
    }

    /// The kind's dimensions.
    pub fn dimensions(self) -> (result: TestDimensions)
        ensures
            result.0@ == kind_exponents(self),
    {
        let powers: [i32; 7] = match self {
            TestKind::Amount => [1,0,0,0,0,0,0],
            TestKind::Charge => [0,1,0,0,0,0,0],
            TestKind::Energy => [0,0,1,0,0,0,0],
            TestKind::EnergyPerMaterial => [0,0,1,0,-1,0,0],
            TestKind::Enthalpy => [0,0,1,0,0,0,0],
            TestKind::Entropy => [0,0,0,1,0,0,0],
            TestKind::Heat => [0,0,1,0,0,0,0],
            TestKind::Material => [0,0,0,0,1,0,0],
            TestKind::MaterialBalance => [0,0,0,0,1,0,0],
            TestKind::MaterialSquared => [0,0,0,0,2,0,0],
            TestKind::Matter => [0,0,0,0,0,1,0],
            TestKind::Ratio => [0,0,0,0,0,0,0],
            TestKind::Reserve => [1,0,0,0,0,0,0],
            TestKind::Temperature => [0,0,0,0,0,0,1],
            TestKind::TemperatureDelta => [0,0,0,0,0,0,1],
            TestKind::Torque => [0,0,1,0,0,0,0],
        };
        let result = TestDimensions(powers);
        proof {
            assert(result.0@ =~= kind_exponents(self));
        }
        result
    }

    /// The dimensions of a product, failing when an exponent overflows `i32`.
    pub fn product(left: &TestDimensions, right: &TestDimensions) -> (result: Result<TestDimensions, TestDimensionOverflow>)
        ensures
            match result {
                Ok(dimensions) => forall|i: int| 0 <= i < 7 ==> #[trigger] dimensions.0@[i] == left.0@[i] + right.0@[i],
                Err(_) => exists|i: int| 0 <= i < 7 && !(i32::MIN <= #[trigger] left.0@[i] + right.0@[i] <= i32::MAX),
            },
    {
        TestDimensions::combine(left, right, false)
    }

    /// The dimensions of a quotient, failing when an exponent overflows `i32`.
    pub fn quotient(left: &TestDimensions, right: &TestDimensions) -> (result: Result<TestDimensions, TestDimensionOverflow>)
        ensures
            match result {
                Ok(dimensions) => forall|i: int| 0 <= i < 7 ==> #[trigger] dimensions.0@[i] == left.0@[i] - right.0@[i],
                Err(_) => exists|i: int| 0 <= i < 7 && !(i32::MIN <= #[trigger] left.0@[i] - right.0@[i] <= i32::MAX),
            },
    {
        TestDimensions::combine(left, right, true)
    }
}

/// The base names, in the order of [`TestDimensions`] exponents.
pub open spec fn base_name(index: int) -> Seq<char> {
    if index == 0 {
        "amount"@
    } else if index == 1 {
        "charge"@
    } else if index == 2 {
        "energy"@
    } else if index == 3 {
        "entropy"@
    } else if index == 4 {
        "material"@
    } else if index == 5 {
        "matter"@
    } else if index == 6 {
        "temperature"@
    } else {
        "temperature"@
    }
}

fn base_text(index: usize) -> (result: &'static str)
    requires
        index < 7,
    ensures
        result@ == base_name(index as int),
{
    if index == 0 {
        "amount"
    } else if index == 1 {
        "charge"
    } else if index == 2 {
        "energy"
    } else if index == 3 {
        "entropy"
    } else if index == 4 {
        "material"
    } else if index == 5 {
        "matter"
    } else {
        "temperature"
    }
}

/// The rendering of the exponents from `index` on, after `first` tells
/// whether nothing has been written yet.
pub open spec fn render_from(powers: Seq<i32>, index: int, first: bool) -> Seq<char>
    decreases 7 - index,
{
    if index >= 7 {
        if first { seq!['1'] } else { Seq::empty() }
    } else if powers[index] == 0 {
        render_from(powers, index + 1, first)
    } else {
        (if first { Seq::empty() } else { seq!['·'] }) + base_name(index) + seq!['^'] + decimal(powers[index] as int)
            + render_from(powers, index + 1, false)
    }
}

/// Exponent `index` of a product (`subtract == false`) or quotient of dimensions.
pub open spec fn combined(left: Seq<i32>, right: Seq<i32>, index: int, subtract: bool) -> int {
    if subtract {
        left[index] - right[index]
    } else {
        left[index] + right[index]
    }
}

/// Exponents over the bases [amount, charge, energy, entropy, material, matter, temperature].
#[derive(Clone, Copy, Debug, PartialEq, Eq, Hash)]
pub struct TestDimensions(pub [i32; 7]);

impl TestDimensions {
    fn combine(left: &TestDimensions, right: &TestDimensions, subtract: bool) -> (result: Result<TestDimensions, TestDimensionOverflow>)
        ensures
            match result {
                Ok(dimensions) => forall|i: int| 0 <= i < 7 ==> #[trigger] dimensions.0@[i] == combined(left.0@, right.0@, i, subtract),
                Err(_) => exists|i: int| 0 <= i < 7 && !(i32::MIN <= #[trigger] combined(left.0@, right.0@, i, subtract) <= i32::MAX),
            },
    {
        let mut powers: [i32; 7] = [0; 7];
        let mut index: usize = 0;
        while index < 7
            invariant
                index <= 7,
                powers@.len() == 7,
                forall|i: int| 0 <= i < index ==> #[trigger] powers@[i] == combined(left.0@, right.0@, i, subtract),
            decreases 7 - index,
        {
            let a = left.0[index];
            let b = right.0[index];
            let next = if subtract { a.checked_sub(b) } else { a.checked_add(b) };
            match next {
                Some(value) => {
                    powers[index] = value;
                },
                None => {
                    proof {
                        assert(!(i32::MIN <= combined(left.0@, right.0@, index as int, subtract) <= i32::MAX));
                    }
                    return Err(TestDimensionOverflow);
                },
            }
            index += 1;
        }
        Ok(TestDimensions(powers))
    }

    /// Renders the nonzero exponents as `base^power` joined by `·`, or `1`.
    pub fn to_string(&self) -> (result: String)
        ensures
            result@ == render_from(self.0@, 0, true),
    {
        let mut out: Vec<char> = Vec::new();
        let mut first = true;
        let mut index: usize = 0;
        while index < 7
            invariant
                index <= 7,
                self.0@.len() == 7,
                out@ + render_from(self.0@, index as int, first) == render_from(self.0@, 0, true),
            decreases 7 - index,
        {
            let power = self.0[index];
            if power != 0 {
                let ghost before = out@;
                if !first {
                    out.push('·');
                }
                push_text(&mut out, base_text(index));
                out.push('^');
                let digits = decimal_text(power);
                push_text(&mut out, digits.as_str());
                proof {
                    assert(out@ == before + ((if first { Seq::empty() } else { seq!['·'] }) + base_name(index as int) + seq!['^'] + decimal(power as int)));
                    assert(out@ + render_from(self.0@, index + 1, false) =~= before + render_from(self.0@, index as int, first));
                }
                first = false;
            }
            index += 1;
        }
        if first {
            out.push('1');
        }
        proof {
            assert(out@ =~= render_from(self.0@, 0, true));
        }
        text_from_chars(&out)
    }
}

/// A product or quotient whose exponent does not fit an `i32`.
#[derive(Clone, Copy, Debug, PartialEq, Eq, Structural)]
pub struct TestDimensionOverflow;

/// The registry of every [`TestKind`], resolving each by its name.
pub struct TestKinds;

impl TestKinds {
    /// The test kind with this name, if any.
    pub fn resolve(&self, name: &str) -> (result: Option<TestKind>)
        ensures
            match result {
                Some(kind) => kind_name(kind) == name@,
                None => forall|kind: TestKind| kind_name(kind) != name@,
            },
    {
        let all = TestKind::ALL;
        let mut index: usize = 0;
        while index < 16
            invariant
                index <= 16,
                all@ == all_test_kinds(),
                forall|i: int| 0 <= i < index ==> kind_name(#[trigger] all_test_kinds()[i]) != name@,
            decreases 16 - index,
        {
            let kind = all[index];
            if same_text(kind.name(), name) {
                return Some(kind);
            }
            index += 1;
        }
        proof {
            assert forall|kind: TestKind| kind_name(kind) != name@ by {
                match kind {
                    TestKind::Amount => assert(all_test_kinds()[0] == kind),
                    TestKind::Charge => assert(all_test_kinds()[1] == kind),
                    TestKind::Energy => assert(all_test_kinds()[2] == kind),
                    TestKind::EnergyPerMaterial => assert(all_test_kinds()[3] == kind),
                    TestKind::Enthalpy => assert(all_test_kinds()[4] == kind),
                    TestKind::Entropy => assert(all_test_kinds()[5] == kind),
                    TestKind::Heat => assert(all_test_kinds()[6] == kind),
                    TestKind::Material => assert(all_test_kinds()[7] == kind),
                    TestKind::MaterialBalance => assert(all_test_kinds()[8] == kind),
                    TestKind::MaterialSquared => assert(all_test_kinds()[9] == kind),
                    TestKind::Matter => assert(all_test_kinds()[10] == kind),
                    TestKind::Ratio => assert(all_test_kinds()[11] == kind),
                    TestKind::Reserve => assert(all_test_kinds()[12] == kind),
                    TestKind::Temperature => assert(all_test_kinds()[13] == kind),
                    TestKind::TemperatureDelta => assert(all_test_kinds()[14] == kind),
                    TestKind::Torque => assert(all_test_kinds()[15] == kind),
                }
            }
        }
        None
    }
}

/// Recovers a test kind from its name: lengths, and where they tie, one letter,
/// tell the names apart.
spec fn kind_of_name(name: Seq<char>) -> TestKind {
    if name.len() == 4 {
        TestKind::Heat
    } else if name.len() == 5 {
        TestKind::Ratio
    } else if name.len() == 7 {
        if name[0] == 'e' {
            TestKind::Entropy
        } else {
            TestKind::Reserve
        }
    } else if name.len() == 8 {
        if name[0] == 'e' {
            TestKind::Enthalpy
        } else {
            TestKind::Material
        }
    } else if name.len() == 11 {
        TestKind::Temperature
    } else if name.len() == 17 {
        TestKind::TemperatureDelta
    } else if name.len() == 19 {
        TestKind::EnergyPerMaterial
    } else if name.len() == 16 {
        if name[9] == 'b' {
            TestKind::MaterialBalance
        } else {
            TestKind::MaterialSquared
        }
    } else if name[0] == 'a' {
        TestKind::Amount
    } else if name[0] == 'c' {
        TestKind::Charge
    } else if name[0] == 'e' {
        TestKind::Energy
    } else if name[0] == 'm' {
        TestKind::Matter
    } else {
        TestKind::Torque
    }
}

/// Each test kind is recovered from its name.
proof fn lemma_kind_of_name(kind: TestKind)
    ensures
        kind_of_name(kind_name(kind)) == kind,
{
    match kind {
        TestKind::Amount => reveal_strlit("amount"),
        TestKind::Charge => reveal_strlit("charge"),
        TestKind::Energy => reveal_strlit("energy"),
        TestKind::EnergyPerMaterial => reveal_strlit("energy_per_material"),
        TestKind::Enthalpy => reveal_strlit("enthalpy"),
        TestKind::Entropy => reveal_strlit("entropy"),
        TestKind::Heat => reveal_strlit("heat"),
        TestKind::Material => reveal_strlit("material"),
        TestKind::MaterialBalance => reveal_strlit("material_balance"),
        TestKind::MaterialSquared => reveal_strlit("material_squared"),
        TestKind::Matter => reveal_strlit("matter"),
        TestKind::Ratio => reveal_strlit("ratio"),
        TestKind::Reserve => reveal_strlit("reserve"),
        TestKind::Temperature => reveal_strlit("temperature"),
        TestKind::TemperatureDelta => reveal_strlit("temperature_delta"),
        TestKind::Torque => reveal_strlit("torque"),
    }
}

/// Distinct test kinds have distinct names.
pub proof fn lemma_kind_name_injective(a: TestKind, b: TestKind)
    requires
        kind_name(a) == kind_name(b),
    ensures
        a == b,
{
    lemma_kind_of_name(a);
    lemma_kind_of_name(b);
}


/// Consecutive texts in strict order are all in strict order.
proof fn lemma_chain_ordered(texts: Seq<Seq<char>>, i: int, j: int)
    requires
        forall|k: int| 0 <= k < texts.len() - 1 ==> text_lt(#[trigger] texts[k], texts[k + 1]),
        0 <= i < j < texts.len(),
    ensures
        text_lt(texts[i], texts[j]),
    decreases j - i,
{
    if j > i + 1 {
        lemma_chain_ordered(texts, i, j - 1);
        assert(text_lt(texts[j - 1], texts[j]));
        lemma_text_lt_transitive(texts[i], texts[j - 1], texts[j]);
    }
}

/// The test kinds are declared in strictly increasing name order, so names
/// identify kinds and sorting by name keeps the declaration order.
pub proof fn law_test_kind_names_strictly_ordered()
    ensures
        forall|i: int, j: int|
            0 <= i < j < all_test_kinds().len() ==> text_lt(
                #[trigger] kind_name(all_test_kinds()[i]),
                #[trigger] kind_name(all_test_kinds()[j]),
            ),
{
    reveal_strlit("amount");
    reveal_strlit("charge");
    reveal_strlit("energy");
    reveal_strlit("energy_per_material");
    reveal_strlit("enthalpy");
    reveal_strlit("entropy");
    reveal_strlit("heat");
    reveal_strlit("material");
    reveal_strlit("material_balance");
    reveal_strlit("material_squared");
    reveal_strlit("matter");
    reveal_strlit("ratio");
    reveal_strlit("reserve");
    reveal_strlit("temperature");
    reveal_strlit("temperature_delta");
    reveal_strlit("torque");
    assert(text_lt("amount"@, "charge"@)) by {
        reveal_with_fuel(text_lt, 20);
    }
    assert(text_lt("charge"@, "energy"@)) by {
        reveal_with_fuel(text_lt, 20);
    }
    assert(text_lt("energy"@, "energy_per_material"@)) by {
        reveal_with_fuel(text_lt, 20);
    }
    assert(text_lt("energy_per_material"@, "enthalpy"@)) by {
        reveal_with_fuel(text_lt, 20);
    }
    assert(text_lt("enthalpy"@, "entropy"@)) by {
        reveal_with_fuel(text_lt, 20);
    }
    assert(text_lt("entropy"@, "heat"@)) by {
        reveal_with_fuel(text_lt, 20);
    }
    assert(text_lt("heat"@, "material"@)) by {
        reveal_with_fuel(text_lt, 20);
    }
    assert(text_lt("material"@, "material_balance"@)) by {
        reveal_with_fuel(text_lt, 20);
    }
    assert(text_lt("material_balance"@, "material_squared"@)) by {
        reveal_with_fuel(text_lt, 20);
    }
    assert(text_lt("material_squared"@, "matter"@)) by {
        reveal_with_fuel(text_lt, 20);
    }
    assert(text_lt("matter"@, "ratio"@)) by {
        reveal_with_fuel(text_lt, 20);
    }
    assert(text_lt("ratio"@, "reserve"@)) by {
        reveal_with_fuel(text_lt, 20);
    }
    assert(text_lt("reserve"@, "temperature"@)) by {
        reveal_with_fuel(text_lt, 20);
    }
    assert(text_lt("temperature"@, "temperature_delta"@)) by {
        reveal_with_fuel(text_lt, 20);
    }
    assert(text_lt("temperature_delta"@, "torque"@)) by {
        reveal_with_fuel(text_lt, 20);
    }
    let texts = all_test_kinds().map_values(|kind: TestKind| kind_name(kind));
    assert forall|k: int| 0 <= k < texts.len() - 1 implies text_lt(#[trigger] texts[k], texts[k + 1]) by {
        assert(texts[k] == kind_name(all_test_kinds()[k]));
        assert(texts[k + 1] == kind_name(all_test_kinds()[k + 1]));
    }
    assert forall|i: int, j: int| 0 <= i < j < all_test_kinds().len() implies text_lt(
        #[trigger] kind_name(all_test_kinds()[i]),
        #[trigger] kind_name(all_test_kinds()[j]),
    ) by {
        lemma_chain_ordered(texts, i, j);
    }
}

} // verus!
