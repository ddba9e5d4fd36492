//! Quantities: values with an optional unit, their arithmetic and the groups
//! they are collected in.
//!
//! The numbers inside a quantity are of a type `N` chosen by the user of the
//! library (for recipes, a floating point number that can also be written
//! as a fraction); what the library needs of them is [`Amount`]. Units are
//! resolved by a converter implementing [`UnitConverter`].

use vstd::prelude::*;
use vstd::std_specs::cmp::PartialEqSpec;

use crate::semantic_eq::{
    greedy_pairs, is_pairing, lemma_injective_onto, lemma_unordered_equals_itself,
    lemma_unordered_equals_pairs, lemma_unordered_equals_symmetric, reaches, reflexive, symmetric, unordered_equals, SemanticEq,
};

verus! {

/// Kind of physical quantity a known unit measures
#[derive(Debug, Clone, Copy, PartialEq, Eq, Hash, Structural)]
pub enum PhysicalQuantity {
    Volume,
    Mass,
    Length,
    Temperature,
    Time,
}

impl PhysicalQuantity {
    /// Position of the physical quantity in the declaration order
    pub open spec fn position(self) -> int {
        match self {
            PhysicalQuantity::Volume => 0,
            PhysicalQuantity::Mass => 1,
            PhysicalQuantity::Length => 2,
            PhysicalQuantity::Temperature => 3,
            PhysicalQuantity::Time => 4,
        }
    }

    /// Position of the physical quantity in the declaration order
    pub fn index(self) -> (r: usize)
        ensures
            r == self.position(),
            r < PHYSICAL_QUANTITIES,
    {
        match self {
            PhysicalQuantity::Volume => 0,
            PhysicalQuantity::Mass => 1,
            PhysicalQuantity::Length => 2,
            PhysicalQuantity::Temperature => 3,
            PhysicalQuantity::Time => 4,
        }
    }
}

/// Number of kinds of physical quantity
pub const PHYSICAL_QUANTITIES: usize = 5;

/// The arithmetic quantities need from their numbers
pub trait Amount: Copy {
    /// `self + rhs`
    fn plus(&self, rhs: &Self) -> Self;

    /// `self - rhs`
    fn minus(&self, rhs: &Self) -> Self;

    /// `self <= 0`
    fn at_most_zero(&self) -> bool;

    /// `self < 0`
    fn below_zero(&self) -> bool;

    /// The number zero
    fn zero() -> Self;

    /// `self * factor`
    fn times(&self, factor: &Self) -> Self;
}

/// `r` is a result `N::plus` can give for `a + b`
pub open spec fn sum<N: Amount>(a: N, b: N, r: N) -> bool {
    call_ensures(N::plus, (&a, &b), r)
}

/// `r` is a result `N::minus` can give for `a - b`
pub open spec fn difference<N: Amount>(a: N, b: N, r: N) -> bool {
    call_ensures(N::minus, (&a, &b), r)
}

/// `r` is a result `N::times` can give for `a * b`
pub open spec fn product<N: Amount>(a: N, b: N, r: N) -> bool {
    call_ensures(N::times, (&a, &b), r)
}

/// Scaling the value `v` by `factor` can give `r`: each number multiplied
/// by `factor`, text left as it is
pub open spec fn scaled_value<N: Amount>(v: Value<N>, factor: N, r: Value<N>) -> bool {
    match v {
        Value::Number(n) => r matches Value::Number(m) && product(n, factor, m),
        Value::Range { start, end } => r matches Value::Range { start: s, end: e } && product(
            start,
            factor,
            s,
        ) && product(end, factor, e),
        Value::Text(_) => r == v,
    }
}

/// `r` is what adding `a` and `b` (or subtracting `b` from `a` when
/// `subtract`) can give
pub open spec fn combined<N: Amount>(a: N, b: N, subtract: bool, r: N) -> bool {
    if subtract {
        difference(a, b, r)
    } else {
        sum(a, b, r)
    }
}

/// Base value
#[derive(Debug, Clone, PartialEq)]
pub enum Value<N> {
    /// Numeric
    Number(N),
    /// Range
    Range { start: N, end: N },
    /// Text
    ///
    /// It is not possible to operate with this variant.
    Text(String),
}

impl<N: Copy> Value<N> {
    /// Checks if the value is text
    pub fn is_text(&self) -> (r: bool)
        ensures
            r == (self is Text),
    {
        match self {
            Value::Text(_) => true,
            _ => false,
        }
    }

    /// A copy of the value
    fn copied(&self) -> (r: Self)
        ensures
            r == *self,
    {
        match self {
            Value::Number(n) => Value::Number(*n),
            Value::Range { start, end } => Value::Range { start: *start, end: *end },
            Value::Text(t) => Value::Text(t.clone()),
        }
    }
}

impl<N> From<String> for Value<N> {
    fn from(value: String) -> (r: Self) {
        Value::Text(value)
    }
}

impl<N> vstd::std_specs::convert::FromSpecImpl<String> for Value<N> {
    open spec fn obeys_from_spec() -> bool {
        true
    }

    open spec fn from_spec(value: String) -> Self {
        Value::Text(value)
    }
}

impl<N: Amount> Value<N> {
    /// Scales the numbers of the value by `factor`; text is left as it is
    pub fn scale(&mut self, factor: &N)
        ensures
            scaled_value(*old(self), *factor, *final(self)),
    {
        match self {
            Value::Number(n) => {
                *n = n.times(factor);
            },
            Value::Range { start, end } => {
                *start = start.times(factor);
                *end = end.times(factor);
            },
            Value::Text(_) => {},
        }
    }
}

/// A quantity used in components
#[derive(Debug)]
pub struct Quantity<N> {
    value: Value<N>,
    unit: Option<String>,
    scalable: bool,
}

/// Two values are the same: numbers equal as `N` compares them, or the same
/// text
pub open spec fn same_value<N: PartialEq>(a: Value<N>, b: Value<N>) -> bool {
    match (a, b) {
        (Value::Number(x), Value::Number(y)) => x.eq_spec(&y),
        (Value::Range { start: s1, end: e1 }, Value::Range { start: s2, end: e2 }) => s1.eq_spec(&s2)
            && e1.eq_spec(&e2),
        (Value::Text(x), Value::Text(y)) => x@ == y@,
        _ => false,
    }
}

/// Two optional units are the same text, or both missing
pub open spec fn same_unit(a: Option<String>, b: Option<String>) -> bool {
    match (a, b) {
        (Some(x), Some(y)) => x@ == y@,
        (None, None) => true,
        _ => false,
    }
}

fn value_eq<N: PartialEq>(a: &Value<N>, b: &Value<N>) -> (r: bool)
    ensures
        N::obeys_eq_spec() ==> r == same_value(*a, *b),
{
    match (a, b) {
        (Value::Number(x), Value::Number(y)) => *x == *y,
        (Value::Range { start: s1, end: e1 }, Value::Range { start: s2, end: e2 }) => *s1 == *s2
            && *e1 == *e2,
        (Value::Text(x), Value::Text(y)) => x.eq(y),
        _ => false,
    }
}

/// Quantities are equal when their values and units are: whether they are
/// scalable does not count
impl<N: PartialEq> PartialEq for Quantity<N> {
    fn eq(&self, other: &Self) -> (r: bool) {
        let same_unit = match (&self.unit, &other.unit) {
            (Some(x), Some(y)) => x.eq(y),
            (None, None) => true,
            _ => false,
        };
        same_unit && value_eq(&self.value, &other.value)
    }
}

impl<N: PartialEq> vstd::std_specs::cmp::PartialEqSpecImpl for Quantity<N> {
    open spec fn obeys_eq_spec() -> bool {
        N::obeys_eq_spec()
    }

    open spec fn eq_spec(&self, other: &Self) -> bool {
        same_unit(self.unit_spec(), other.unit_spec()) && same_value(
            self.value_spec(),
            other.value_spec(),
        )
    }
}

impl<N: Copy> Clone for Quantity<N> {
    fn clone(&self) -> (r: Self)
        ensures
            r == *self,
    {
        Quantity {
            value: self.value.copied(),
            unit: match &self.unit {
                Some(u) => Some(u.clone()),
                None => None,
            },
            scalable: self.scalable,
        }
    }
}

impl<N> Quantity<N> {
    /// The value of the quantity
    pub closed spec fn value_spec(self) -> Value<N> {
        self.value
    }

    /// The unit of the quantity
    pub closed spec fn unit_spec(self) -> Option<String> {
        self.unit
    }

    /// Whether the quantity scales with the recipe
    pub closed spec fn scalable_spec(self) -> bool {
        self.scalable
    }

    /// Creates a new quantity
    pub fn new(value: Value<N>, unit: Option<String>) -> (q: Self)
        ensures
            q.value_spec() == value,
            q.unit_spec() == unit,
            !q.scalable_spec(),
    {
        Quantity { value, unit, scalable: false }
    }

    /// Returns `true` if the quantity is scalable
    ///
    /// Two quantities are equal even if one is scalable and the other not
    pub fn scalable(&self) -> (r: bool)
        ensures
            r == self.scalable_spec(),
    {
        self.scalable
    }

    /// Get the unit
    pub fn unit(&self) -> (r: Option<&str>)
        ensures
            match r {
                Some(u) => self.unit_spec() matches Some(s) && u@ == s@,
                None => self.unit_spec() is None,
            },
    {
        match &self.unit {
            Some(u) => Some(u.as_str()),
            None => None,
        }
    }

    /// Get the value
    pub fn value(&self) -> (r: &Value<N>)
        ensures
            *r == self.value_spec(),
    {
        &self.value
    }

    /// Mutable access to the value
    pub fn value_mut(&mut self) -> (r: &mut Value<N>)
        ensures
            *r == old(self).value_spec(),
            final(self).value_spec() == *final(r),
            final(self).unit_spec() == old(self).unit_spec(),
            final(self).scalable_spec() == old(self).scalable_spec(),
    {
        &mut self.value
    }

    /// Sets the unit, as a converter does when it converts the quantity
    pub fn set_unit(&mut self, unit: Option<String>)
        ensures
            final(self).unit_spec() == unit,
            final(self).value_spec() == old(self).value_spec(),
            final(self).scalable_spec() == old(self).scalable_spec(),
    {
        self.unit = unit;
    }

    /// Marks whether the quantity scales with the recipe, as the parser does
    /// for the quantities written to be scaled
    pub fn set_scalable(&mut self, scalable: bool)
        ensures
            final(self).scalable_spec() == scalable,
            final(self).value_spec() == old(self).value_spec(),
            final(self).unit_spec() == old(self).unit_spec(),
    {
        self.scalable = scalable;
    }
}


/// Error when try to operate on a text value
#[derive(Debug, Clone)]
pub struct TextValueError<N>(pub Value<N>);

/// Error that makes quantity units incompatible to be added
#[derive(Debug, Clone, PartialEq)]
#[allow(inconsistent_fields)]
pub enum IncompatibleUnits {
    /// One unit is `found` but the other quantity is missing an unit
    MissingUnit {
        /// Found unit
        found: String,
        /// Where it has been found
        ///
        /// - `true` if it has been found in the _left_ _(self)_.
        /// - `false` if it was in the _right_ _(other)_.
        lhs: bool,
    },
    /// The units measure different physical quantities
    DifferentPhysicalQuantities { a: PhysicalQuantity, b: PhysicalQuantity },
    /// The units are unknown and differ
    UnknownDifferentUnits { a: String, b: String },
}

/// Error during an operation between quantities
#[derive(Debug, Clone)]
pub enum QuantityOpError<N, E> {
    IncompatibleUnits(IncompatibleUnits),
    TextValue(TextValueError<N>),
    Convert(E),
}

/// Adding that may fail
pub trait TryAdd: Sized {
    type Err;

    fn try_add(&self, rhs: &Self) -> Result<Self, Self::Err>;
}

/// Subtracting that may fail
pub trait TrySub: Sized {
    type Err;

    fn try_sub(&self, rhs: &Self) -> Result<Self, Self::Err>;
}

/// The text value an operation between `a` and `b` fails on: `a` if it is
/// text, else `b` if it is
pub open spec fn text_operand<N>(a: Value<N>, b: Value<N>) -> Option<Value<N>> {
    if a is Text {
        Some(a)
    } else if b is Text {
        Some(b)
    } else {
        None
    }
}

/// What adding the values `a` and `b` (or subtracting `b` from `a` when
/// `subtract`) can give: the error of the text operand, or the numbers
/// combined part by part. A number is combined with both ends of a range;
/// ranges subtract as intervals, so the start of the result is the start of
/// `a` minus the end of `b`.
pub open spec fn value_op<N: Amount>(
    a: Value<N>,
    b: Value<N>,
    subtract: bool,
    r: Result<Value<N>, TextValueError<N>>,
) -> bool {
    match text_operand(a, b) {
        Some(t) => r matches Err(e) && e.0 == t,
        None => match (a, b) {
            (Value::Number(x), Value::Number(y)) => r matches Ok(Value::Number(z)) && combined(
                x,
                y,
                subtract,
                z,
            ),
            (Value::Range { start, end }, Value::Number(n)) => r matches Ok(
                Value::Range { start: s, end: e },
            ) && combined(start, n, subtract, s) && combined(end, n, subtract, e),
            (Value::Number(n), Value::Range { start, end }) => r matches Ok(
                Value::Range { start: s, end: e },
            ) && if subtract {
                difference(n, end, s) && difference(n, start, e)
            } else {
                sum(start, n, s) && sum(end, n, e)
            },
            (Value::Range { start: s1, end: e1 }, Value::Range { start: s2, end: e2 }) => r matches Ok(
                Value::Range { start: s, end: e },
            ) && if subtract {
                difference(s1, e2, s) && difference(e1, s2, e)
            } else {
                sum(s1, s2, s) && sum(e1, e2, e)
            },
            _ => false,
        },
    }
}

impl<N: Amount> TryAdd for Value<N> {
    type Err = TextValueError<N>;

    fn try_add(&self, rhs: &Self) -> (r: Result<Value<N>, TextValueError<N>>)
        ensures
            value_op(*self, *rhs, false, r),
    {
        match (self, rhs) {
            (Value::Text(_), _) => Err(TextValueError(self.copied())),
            (_, Value::Text(_)) => Err(TextValueError(rhs.copied())),
            (Value::Number(a), Value::Number(b)) => Ok(Value::Number(a.plus(b))),
            (Value::Number(n), Value::Range { start, end }) => Ok(
                Value::Range { start: start.plus(n), end: end.plus(n) },
            ),
            (Value::Range { start, end }, Value::Number(n)) => Ok(
                Value::Range { start: start.plus(n), end: end.plus(n) },
            ),
            (Value::Range { start: s1, end: e1 }, Value::Range { start: s2, end: e2 }) => Ok(
                Value::Range { start: s1.plus(s2), end: e1.plus(e2) },
            ),
        }
    }
}

impl<N: Amount> TrySub for Value<N> {
    type Err = TextValueError<N>;

    /// Subtracts the ranges as intervals, so the smallest possible result is
    /// the start and the largest the end
    fn try_sub(&self, rhs: &Self) -> (r: Result<Value<N>, TextValueError<N>>)
        ensures
            value_op(*self, *rhs, true, r),
    {
        match (self, rhs) {
            (Value::Text(_), _) => Err(TextValueError(self.copied())),
            (_, Value::Text(_)) => Err(TextValueError(rhs.copied())),
            (Value::Number(a), Value::Number(b)) => Ok(Value::Number(a.minus(b))),
            (Value::Range { start, end }, Value::Number(n)) => Ok(
                Value::Range { start: start.minus(n), end: end.minus(n) },
            ),
            (Value::Number(n), Value::Range { start, end }) => Ok(
                Value::Range { start: n.minus(end), end: n.minus(start) },
            ),
            (Value::Range { start: s1, end: e1 }, Value::Range { start: s2, end: e2 }) => Ok(
                Value::Range { start: s1.minus(e2), end: e1.minus(s2) },
            ),
        }
    }
}


/// What quantities need from a unit converter
pub trait UnitConverter<N> {
    /// Error of a failed conversion
    type Error;

    /// The physical quantity measured by `unit`, `None` when the converter
    /// does not know the unit
    fn physical_quantity(&self, unit: &str) -> Option<PhysicalQuantity>;

    /// `q` converted to `unit`, a known unit of the same physical quantity
    fn convert(&self, q: &Quantity<N>, unit: &str) -> Result<Quantity<N>, Self::Error>;

    /// `q` converted to the unit of its physical quantity its value reads
    /// best in
    fn fit(&self, q: &Quantity<N>) -> Result<Quantity<N>, Self::Error>;
}

/// Whether two units can be operated with, given the physical quantities the
/// converter found for them: the common physical quantity of two known
/// units, `None` for two equal unknown units, or why they can't
pub open spec fn units_compatibility(
    a: String,
    b: String,
    a_kind: Option<PhysicalQuantity>,
    b_kind: Option<PhysicalQuantity>,
) -> Result<Option<PhysicalQuantity>, IncompatibleUnits> {
    match (a_kind, b_kind) {
        (Some(x), Some(y)) => if x != y {
            Err(IncompatibleUnits::DifferentPhysicalQuantities { a: x, b: y })
        } else {
            Ok(Some(x))
        },
        _ => if a@ != b@ {
            Err(IncompatibleUnits::UnknownDifferentUnits { a, b })
        } else {
            Ok(None)
        },
    }
}

/// Whether two quantities with units `a` and `b` can be operated with, when
/// the converter finds the physical quantities `a_kind` and `b_kind` for
/// them
pub open spec fn quantities_compatibility(
    a: Option<String>,
    b: Option<String>,
    a_kind: Option<PhysicalQuantity>,
    b_kind: Option<PhysicalQuantity>,
) -> Result<Option<PhysicalQuantity>, IncompatibleUnits> {
    match (a, b) {
        (None, None) => Ok(None),
        (None, Some(u)) => Err(IncompatibleUnits::MissingUnit { found: u, lhs: false }),
        (Some(u), None) => Err(IncompatibleUnits::MissingUnit { found: u, lhs: true }),
        (Some(x), Some(y)) => units_compatibility(x, y, a_kind, b_kind),
    }
}

/// `k` is an answer the converter can give for the physical quantity of the
/// unit written `unit`
pub open spec fn kind_of<N, C: UnitConverter<N>>(
    converter: &C,
    unit: Seq<char>,
    k: Option<PhysicalQuantity>,
) -> bool {
    exists|u: &str| u@ == unit && #[trigger] call_ensures(C::physical_quantity, (converter, u), k)
}

/// What checking the units `a` and `b` of two quantities can answer: when
/// both have one, the converter is asked the physical quantity of each and
/// [`units_compatibility`] decides; otherwise a missing unit decides alone
pub open spec fn compatibility<N, C: UnitConverter<N>>(
    converter: &C,
    a: Option<String>,
    b: Option<String>,
    r: Result<Option<PhysicalQuantity>, IncompatibleUnits>,
) -> bool {
    match (a, b) {
        (Some(x), Some(y)) => exists|kx: Option<PhysicalQuantity>, ky: Option<PhysicalQuantity>|
            {
                &&& #[trigger] kind_of(converter, x@, kx)
                &&& #[trigger] kind_of(converter, y@, ky)
                &&& r == units_compatibility(x, y, kx, ky)
            },
        _ => r == quantities_compatibility(a, b, None, None),
    }
}

/// The converter answers each unit the same way every time
pub open spec fn consistent<N, C: UnitConverter<N>>(converter: &C) -> bool {
    forall|u: Seq<char>, k1: Option<PhysicalQuantity>, k2: Option<PhysicalQuantity>|
        #[trigger] kind_of(converter, u, k1) && #[trigger] kind_of(converter, u, k2) ==> k1 == k2
}

/// The same incompatibility seen from the other quantity
pub open spec fn mirrored(e: IncompatibleUnits) -> IncompatibleUnits {
    match e {
        IncompatibleUnits::MissingUnit { found, lhs } => IncompatibleUnits::MissingUnit {
            found,
            lhs: !lhs,
        },
        IncompatibleUnits::DifferentPhysicalQuantities { a, b } =>
            IncompatibleUnits::DifferentPhysicalQuantities { a: b, b: a },
        IncompatibleUnits::UnknownDifferentUnits { a, b } => IncompatibleUnits::UnknownDifferentUnits {
            a: b,
            b: a,
        },
    }
}

/// Whether two quantities can be operated with does not depend on their
/// order, when the converter answers each unit the same way every time: one
/// way succeeds with the same physical quantity when the other does, and the
/// errors mirror each other.
pub proof fn lemma_compatible_unit_symmetric<N, C: UnitConverter<N>>(
    converter: &C,
    a: Option<String>,
    b: Option<String>,
    r1: Result<Option<PhysicalQuantity>, IncompatibleUnits>,
    r2: Result<Option<PhysicalQuantity>, IncompatibleUnits>,
)
    requires
        consistent::<N, C>(converter),
        compatibility::<N, C>(converter, a, b, r1),
        compatibility::<N, C>(converter, b, a, r2),
    ensures
        r1 is Ok == r2 is Ok,
        r1 matches Ok(k) ==> r2 == Ok::<Option<PhysicalQuantity>, IncompatibleUnits>(k),
        r1 matches Err(e) ==> r2 == Err::<Option<PhysicalQuantity>, IncompatibleUnits>(mirrored(e)),
{
    match (a, b) {
        (Some(x), Some(y)) => {
            let (kx, ky) = choose|kx: Option<PhysicalQuantity>, ky: Option<PhysicalQuantity>|
                #[trigger] kind_of::<N, C>(converter, x@, kx) && #[trigger] kind_of::<N, C>(
                    converter,
                    y@,
                    ky,
                ) && r1 == units_compatibility(x, y, kx, ky);
            let (ly, lx) = choose|ly: Option<PhysicalQuantity>, lx: Option<PhysicalQuantity>|
                #[trigger] kind_of::<N, C>(converter, y@, ly) && #[trigger] kind_of::<N, C>(
                    converter,
                    x@,
                    lx,
                ) && r2 == units_compatibility(y, x, ly, lx);
            assert(kx == lx);
            assert(ky == ly);
        },
        _ => {},
    }
}

/// Checks if two units can be operated with, knowing the physical quantities
/// the converter found for them
pub fn compatible_units(
    a: &String,
    b: &String,
    a_kind: Option<PhysicalQuantity>,
    b_kind: Option<PhysicalQuantity>,
) -> (r: Result<Option<PhysicalQuantity>, IncompatibleUnits>)
    ensures
        r == units_compatibility(*a, *b, a_kind, b_kind),
{
    match (a_kind, b_kind) {
        (Some(x), Some(y)) => {
            if x != y {
                Err(IncompatibleUnits::DifferentPhysicalQuantities { a: x, b: y })
            } else {
                Ok(Some(x))
            }
        },
        _ => {
            if !a.eq(b) {
                Err(IncompatibleUnits::UnknownDifferentUnits { a: a.clone(), b: b.clone() })
            } else {
                Ok(None)
            }
        },
    }
}

impl<N: Amount> Quantity<N> {
    /// Checks if two quantities can be added and return the physical quantity
    /// of their common unit (if any) or an error if they are not
    ///
    /// Quantities without units can be added; a quantity with a unit can't be
    /// added to one without. Two known units have to measure the same
    /// physical quantity, two unknown units have to be the same text.
    pub fn compatible_unit<C: UnitConverter<N>>(&self, rhs: &Self, converter: &C) -> (r: Result<
        Option<PhysicalQuantity>,
        IncompatibleUnits,
    >)
        ensures
            compatibility::<N, C>(converter, self.unit_spec(), rhs.unit_spec(), r),
    {
        match (&self.unit, &rhs.unit) {
            (None, None) => {
                let r = Ok(None);
                assert(r == quantities_compatibility(self.unit_spec(), rhs.unit_spec(), None, None));
                r
            },
            (None, Some(u)) => {
                let r = Err(IncompatibleUnits::MissingUnit { found: u.clone(), lhs: false });
                assert(r == quantities_compatibility(self.unit_spec(), rhs.unit_spec(), None, None));
                r
            },
            (Some(u), None) => {
                let r = Err(IncompatibleUnits::MissingUnit { found: u.clone(), lhs: true });
                assert(r == quantities_compatibility(self.unit_spec(), rhs.unit_spec(), None, None));
                r
            },
            (Some(a), Some(b)) => {
                let a_unit = a.as_str();
                let a_kind = converter.physical_quantity(a_unit);
                let b_unit = b.as_str();
                let b_kind = converter.physical_quantity(b_unit);
                let r = compatible_units(a, b, a_kind, b_kind);
                assert(kind_of::<N, C>(converter, a@, a_kind));
                assert(kind_of::<N, C>(converter, b@, b_kind));
                r
            },
        }
    }

    /// Scales a scalable quantity by `factor` and fits it to the unit it
    /// reads best in; a quantity that is not scalable is left as it is
    ///
    /// A failure to fit leaves the quantity scaled but unfit.
    pub fn scale<C: UnitConverter<N>>(&mut self, factor: &N, converter: &C)
        ensures
            !old(self).scalable_spec() ==> *final(self) == *old(self),
            old(self).scalable_spec() ==> scaled(converter, *old(self), *factor, *final(self)),
    {
        if self.scalable {
            self.value.scale(factor);
            let ghost scaled = *self;
            let outcome = converter.fit(self);
            assert(fitted(converter, scaled, outcome));
            if let Ok(f) = outcome {
                *self = f;
            }
        }
    }

    fn try_op<C: UnitConverter<N>>(&self, rhs: &Self, converter: &C, subtract: bool) -> (r: Result<
        Self,
        QuantityOpError<N, C::Error>,
    >)
        ensures
            op_outcome(converter, *self, *rhs, subtract, r),
    {
        // 1. Check if the units are compatible and (maybe) get a common unit
        let compat = self.compatible_unit(rhs, converter);
        let ghost checked = compat;
        let convert_to = match compat {
            Ok(convert_to) => convert_to,
            Err(e) => return Err(QuantityOpError::IncompatibleUnits(e)),
        };
        // 2. Convert rhs to the unit of the first one if needed
        let mut rhs = rhs.clone();
        if convert_to.is_some() {
            match &self.unit {
                Some(unit) => {
                    let to = unit.as_str();
                    let out = converter.convert(&rhs, to);
                    assert(converted(converter, rhs, unit@, out));
                    match out {
                        Ok(c) => {
                            rhs = c;
                        },
                        Err(e) => {
                            return Err(QuantityOpError::Convert(e));
                        },
                    }
                },
                None => {},
            }
        }
        // 3. Operate the values
        let value = if subtract {
            self.value.try_sub(&rhs.value)
        } else {
            self.value.try_add(&rhs.value)
        };
        let value = match value {
            Ok(value) => value,
            Err(e) => return Err(QuantityOpError::TextValue(e)),
        };
        // 4. New quantity
        let unit = match &self.unit {
            Some(u) => Some(u.clone()),
            None => None,
        };
        Ok(Quantity::new(value, unit))
    }

    /// Try adding two quantities
    ///
    /// The units have to be compatible, `rhs` is converted to the unit of
    /// `self` and the result keeps the unit of `self`.
    pub fn try_add<C: UnitConverter<N>>(&self, rhs: &Self, converter: &C) -> (r: Result<
        Self,
        QuantityOpError<N, C::Error>,
    >)
        ensures
            op_outcome(converter, *self, *rhs, false, r),
    {
        self.try_op(rhs, converter, false)
    }

    /// Try subtracting two quantities
    ///
    /// Like [`Quantity::try_add`], the units have to be compatible and the
    /// result keeps the unit of `self`, so `1 l` minus `300 ml` is `0.7 l`.
    ///
    /// The result can be negative, callers that don't want that have to check
    /// it. [`GroupedQuantity::try_take`] does.
    pub fn try_sub<C: UnitConverter<N>>(&self, rhs: &Self, converter: &C) -> (r: Result<
        Self,
        QuantityOpError<N, C::Error>,
    >)
        ensures
            op_outcome(converter, *self, *rhs, true, r),
    {
        self.try_op(rhs, converter, true)
    }
}

/// The quantity that combining the value of `a` with the value `converted`
/// (adding, or subtracting when `subtract`) gives: the unit of `a`, not
/// scalable; or the error on a text value
pub open spec fn combine_outcome<N: Amount, E>(
    a: Quantity<N>,
    converted: Value<N>,
    subtract: bool,
    r: Result<Quantity<N>, QuantityOpError<N, E>>,
) -> bool {
    match r {
        Ok(q) => {
            &&& q.unit_spec() == a.unit_spec()
            &&& !q.scalable_spec()
            &&& value_op(a.value_spec(), converted, subtract, Ok::<Value<N>, TextValueError<N>>(q.value_spec()))
        },
        Err(QuantityOpError::TextValue(e)) => value_op(
            a.value_spec(),
            converted,
            subtract,
            Err::<Value<N>, TextValueError<N>>(e),
        ),
        Err(_) => false,
    }
}

/// Scaling the scalable quantity `q` by `factor` can give `r`: its value
/// scaled, keeping its unit, then fitted by the converter, or left unfit when
/// fitting fails
pub open spec fn scaled<N: Amount, C: UnitConverter<N>>(
    converter: &C,
    q: Quantity<N>,
    factor: N,
    r: Quantity<N>,
) -> bool {
    exists|s: Quantity<N>, outcome: Result<Quantity<N>, C::Error>|
        {
            &&& #[trigger] fitted(converter, s, outcome)
            &&& scaled_value(q.value_spec(), factor, s.value_spec())
            &&& s.unit_spec() == q.unit_spec()
            &&& s.scalable_spec()
            &&& r == match outcome {
                Ok(f) => f,
                Err(_) => s,
            }
        }
}

/// What scaling an optional quantity by `factor` can give: a scalable one is
/// scaled, anything else is left as it is
pub open spec fn scaled_option<N: Amount, C: UnitConverter<N>>(
    converter: &C,
    q: Option<Quantity<N>>,
    factor: N,
    r: Option<Quantity<N>>,
) -> bool {
    match q {
        Some(x) => if x.scalable_spec() {
            r matches Some(y) && scaled(converter, x, factor, y)
        } else {
            r == q
        },
        None => r is None,
    }
}

/// Converting `q` to the unit written `unit` with the converter can answer
/// `out`
pub open spec fn converted<N, C: UnitConverter<N>>(
    converter: &C,
    q: Quantity<N>,
    unit: Seq<char>,
    out: Result<Quantity<N>, C::Error>,
) -> bool {
    exists|u: &str| u@ == unit && #[trigger] call_ensures(C::convert, (converter, &q, u), out)
}

/// Fitting `q` with the converter can answer `out`
pub open spec fn fitted<N, C: UnitConverter<N>>(
    converter: &C,
    q: Quantity<N>,
    out: Result<Quantity<N>, C::Error>,
) -> bool {
    call_ensures(C::fit, (converter, &q), out)
}

/// What adding two quantities (or subtracting `b` from `a` when `subtract`)
/// gives:
/// - when the units are incompatible (as the converter tells), that error;
/// - when neither has a unit, or their unknown units are the same text, the
///   values combined as they are;
/// - when both units are known, `b` converted by the converter to the unit
///   of `a`: the conversion error, or the values combined.
///
/// A success keeps the unit of `a` and is not scalable.
pub open spec fn op_outcome<N: Amount, C: UnitConverter<N>>(
    converter: &C,
    a: Quantity<N>,
    b: Quantity<N>,
    subtract: bool,
    r: Result<Quantity<N>, QuantityOpError<N, C::Error>>,
) -> bool {
    exists|compat: Result<Option<PhysicalQuantity>, IncompatibleUnits>|
        {
            &&& #[trigger] compatibility::<N, C>(converter, a.unit_spec(), b.unit_spec(), compat)
            &&& match compat {
                Err(e) => r == Err::<Quantity<N>, QuantityOpError<N, C::Error>>(
                    QuantityOpError::IncompatibleUnits(e),
                ),
                Ok(None) => combine_outcome(a, b.value_spec(), subtract, r),
                Ok(Some(_)) => exists|out: Result<Quantity<N>, C::Error>|
                    {
                        &&& #[trigger] converted(converter, b, a.unit_spec()->0@, out)
                        &&& match out {
                            Err(e) => r == Err::<Quantity<N>, QuantityOpError<N, C::Error>>(
                                QuantityOpError::Convert(e),
                            ),
                            Ok(c) => combine_outcome(a, c.value_spec(), subtract, r),
                        }
                    },
            }
        }
}


/// Error during an operation on a [`GroupedQuantity`]
#[derive(Debug, Clone)]
pub enum GroupedQuantityOpError<N, E> {
    /// No compatible quantity in the group to take from
    NoCompatibleQuantity,
    Op(QuantityOpError<N, E>),
}

/// Where a quantity is stored inside a group
pub enum GroupSlot {
    /// With the quantity of a known unit measuring this
    Known(PhysicalQuantity),
    /// With the quantity of this unknown unit
    Unknown(Seq<char>),
    /// With the quantity without unit
    NoUnit,
}

/// The contents of a [`GroupedQuantity`]
#[verifier::ext_equal]
pub struct GroupState<N> {
    /// Per physical quantity (by position), the total of known units
    pub known: Seq<Option<Quantity<N>>>,
    /// Per unknown unit, the total of that unit
    pub unknown: Seq<(Seq<char>, Quantity<N>)>,
    /// The total of quantities without unit
    pub no_unit: Option<Quantity<N>>,
    /// The quantities that could not be added to others, in order
    pub other: Seq<Quantity<N>>,
}

impl<N> GroupState<N> {
    /// One slot per physical quantity, each unknown unit once and with a
    /// quantity of that unit, and no unit for the quantity without unit; the
    /// quantities of unknown units and without unit are not text
    pub open spec fn wf(self) -> bool {
        &&& self.known.len() == PHYSICAL_QUANTITIES
        &&& forall|i: int, j: int|
            0 <= i < j < self.unknown.len() ==> (#[trigger] self.unknown[i]).0 != (
            #[trigger] self.unknown[j]).0
        &&& forall|i: int|
            0 <= i < self.unknown.len() ==> {
                &&& (#[trigger] self.unknown[i]).1.unit_spec() matches Some(u) && u@ == self.unknown[i].0
                &&& !(self.unknown[i].1.value_spec() is Text)
            }
        &&& self.no_unit matches Some(n) ==> n.unit_spec() is None && !(n.value_spec() is Text)
    }

    /// `i` is the first position of the unknown unit `unit`
    pub open spec fn first_unknown(self, unit: Seq<char>, i: int) -> bool {
        &&& 0 <= i < self.unknown.len()
        &&& self.unknown[i].0 == unit
        &&& forall|j: int| 0 <= j < i ==> (#[trigger] self.unknown[j]).0 != unit
    }

    /// Where the unknown unit `unit` is stored
    pub open spec fn unknown_pos(self, unit: Seq<char>) -> Option<int> {
        if exists|i: int| #[trigger] self.first_unknown(unit, i) {
            Some(choose|i: int| #[trigger] self.first_unknown(unit, i))
        } else {
            None
        }
    }

    /// The quantity stored in `slot`
    pub open spec fn get(self, slot: GroupSlot) -> Option<Quantity<N>> {
        match slot {
            GroupSlot::Known(k) => self.known[k.position()],
            GroupSlot::Unknown(u) => match self.unknown_pos(u) {
                Some(i) => Some(self.unknown[i].1),
                None => None,
            },
            GroupSlot::NoUnit => self.no_unit,
        }
    }

    /// The group with `slot` holding `value`: an unknown unit is appended
    /// when new and removed when emptied
    pub open spec fn put(self, slot: GroupSlot, value: Option<Quantity<N>>) -> Self {
        match slot {
            GroupSlot::Known(k) => GroupState { known: self.known.update(k.position(), value), ..self },
            GroupSlot::Unknown(u) => match (self.unknown_pos(u), value) {
                (Some(i), Some(q)) => GroupState { unknown: self.unknown.update(i, (u, q)), ..self },
                (Some(i), None) => GroupState { unknown: self.unknown.remove(i), ..self },
                (None, Some(q)) => GroupState { unknown: self.unknown.push((u, q)), ..self },
                (None, None) => self,
            },
            GroupSlot::NoUnit => GroupState { no_unit: value, ..self },
        }
    }

    /// All the quantities of the group: the known units by physical quantity,
    /// the unknown units, the ones kept apart and the one without unit
    pub open spec fn items(self) -> Seq<Quantity<N>> {
        present(self.known) + entry_values(self.unknown) + self.other + present(seq![self.no_unit])
    }

    /// The group with `q` kept apart, as one that could not be added
    pub open spec fn push_other(self, q: Quantity<N>) -> Self {
        GroupState { other: self.other.push(q), ..self }
    }
}

/// The group without any quantity
pub open spec fn empty_group<N>() -> GroupState<N> {
    GroupState {
        known: Seq::new(PHYSICAL_QUANTITIES as nat, |i: int| None::<Quantity<N>>),
        unknown: Seq::empty(),
        no_unit: None,
        other: Seq::empty(),
    }
}

/// The slot of the physical quantity at position `i` of `new` holds the
/// quantity of `old` there, fitted with success, or is empty as in `old`
pub open spec fn fitted_slot<N, C: UnitConverter<N>>(
    converter: &C,
    old: GroupState<N>,
    new: GroupState<N>,
    i: int,
) -> bool {
    match old.known[i] {
        None => new.known[i] is None,
        Some(q) => new.known[i] matches Some(f) && fitted(converter, q, Ok(f)),
    }
}

/// Fitting stopped at the position `stop`: fitting the quantity of `old`
/// there failed with `e` and left it as it was; those before are fitted,
/// those after untouched
pub open spec fn fit_stopped_at<N, C: UnitConverter<N>>(
    converter: &C,
    old: GroupState<N>,
    new: GroupState<N>,
    stop: int,
    e: C::Error,
) -> bool {
    &&& 0 <= stop < old.known.len()
    &&& old.known[stop] is Some
    &&& new.known[stop] == old.known[stop]
    &&& fitted(converter, old.known[stop]->0, Err(e))
    &&& forall|i: int| 0 <= i < stop ==> #[trigger] fitted_slot(converter, old, new, i)
    &&& forall|i: int| stop < i < old.known.len() ==> #[trigger] new.known[i] == old.known[i]
}

/// Fitting the quantities of known units of the group `old` one by one, by
/// physical quantity, gives `new` and answers `r`: each becomes what the
/// converter's fit makes of it, until the first error, which is answered;
/// the other quantities of the group do not change
pub open spec fn fit_outcome<N, C: UnitConverter<N>>(
    converter: &C,
    old: GroupState<N>,
    new: GroupState<N>,
    r: Result<(), C::Error>,
) -> bool {
    &&& new.unknown == old.unknown
    &&& new.no_unit == old.no_unit
    &&& new.other == old.other
    &&& new.known.len() == old.known.len()
    &&& match r {
        Ok(_) => forall|i: int|
            0 <= i < old.known.len() ==> #[trigger] fitted_slot(converter, old, new, i),
        Err(e) => exists|stop: int| #[trigger] fit_stopped_at(converter, old, new, stop, e),
    }
}

/// The values present in a sequence of options, in order
pub open spec fn present<T>(s: Seq<Option<T>>) -> Seq<T>
    decreases s.len(),
{
    if s.len() == 0 {
        Seq::empty()
    } else {
        match s.last() {
            Some(x) => present(s.drop_last()).push(x),
            None => present(s.drop_last()),
        }
    }
}

/// The slot a quantity goes to when the converter finds the physical quantity
/// `kind` for its unit; `None` for a text value, which is kept apart
pub open spec fn slot_for<N>(q: Quantity<N>, kind: Option<PhysicalQuantity>) -> Option<GroupSlot> {
    if q.value_spec() is Text {
        None
    } else {
        match q.unit_spec() {
            None => Some(GroupSlot::NoUnit),
            Some(u) => match kind {
                Some(k) => Some(GroupSlot::Known(k)),
                None => Some(GroupSlot::Unknown(u@)),
            },
        }
    }
}

/// Where a quantity goes in a group: text is kept apart, a quantity without
/// unit joins the one without unit, one whose unit the converter knows joins
/// the others of the same physical quantity, whatever their units, and one
/// of an unknown unit joins those written with the same unit.
pub proof fn lemma_slot_by_physical_quantity<N>(q: Quantity<N>, kind: Option<PhysicalQuantity>)
    ensures
        q.value_spec() is Text ==> slot_for(q, kind) is None,
        !(q.value_spec() is Text) && q.unit_spec() is None ==> slot_for(q, kind) == Some(
            GroupSlot::NoUnit,
        ),
        !(q.value_spec() is Text) && q.unit_spec() is Some ==> match kind {
            Some(k) => slot_for(q, kind) == Some(GroupSlot::Known(k)),
            None => slot_for(q, kind) == Some(GroupSlot::Unknown(q.unit_spec()->0@)),
        },
{
}

/// The physical quantity `kind` that chooses the slot of `q`: one the
/// converter answers for its unit when it is not text and has one, none
/// otherwise
pub open spec fn answered_kind<N, C: UnitConverter<N>>(
    converter: &C,
    q: Quantity<N>,
    kind: Option<PhysicalQuantity>,
) -> bool {
    if !(q.value_spec() is Text) && q.unit_spec() is Some {
        kind_of::<N, C>(converter, q.unit_spec()->0@, kind)
    } else {
        kind is None
    }
}

/// Adding `q` to the group `old` through `slot` gives `new`: it is stored in
/// an empty slot, replaced with its sum with the quantity there when adding
/// them succeeds, or kept apart when adding them fails
pub open spec fn add_outcome<N: Amount, C: UnitConverter<N>>(
    converter: &C,
    old: GroupState<N>,
    new: GroupState<N>,
    q: Quantity<N>,
    slot: Option<GroupSlot>,
) -> bool {
    match slot {
        None => new == old.push_other(q),
        Some(s) => match old.get(s) {
            None => new == old.put(s, Some(q)),
            Some(stored) => {
                ||| {
                    &&& new == old.push_other(q)
                    &&& exists|e: QuantityOpError<N, C::Error>|
                        op_outcome(
                            converter,
                            stored,
                            q,
                            false,
                            Err::<Quantity<N>, QuantityOpError<N, C::Error>>(e),
                        )
                }
                ||| exists|sum: Quantity<N>|
                    {
                        &&& new == old.put(s, Some(sum))
                        &&& op_outcome(
                            converter,
                            stored,
                            q,
                            false,
                            Ok::<Quantity<N>, QuantityOpError<N, C::Error>>(sum),
                        )
                    }
            },
        },
    }
}

/// Adding to a group keeps a quantity apart only when adding it to the one
/// already in its slot can fail, whatever the shapes (number or range) of
/// their values: when [`Quantity::try_add`] cannot fail on the two, the slot
/// holds their sum afterwards and nothing is kept apart.
pub proof fn lemma_add_keeps_apart_only_on_failure<N: Amount, C: UnitConverter<N>>(
    converter: &C,
    old: GroupState<N>,
    new: GroupState<N>,
    q: Quantity<N>,
    slot: GroupSlot,
    stored: Quantity<N>,
)
    requires
        add_outcome(converter, old, new, q, Some(slot)),
        old.get(slot) == Some(stored),
    ensures
        new.other != old.other ==> exists|e: QuantityOpError<N, C::Error>|
            op_outcome(
                converter,
                stored,
                q,
                false,
                Err::<Quantity<N>, QuantityOpError<N, C::Error>>(e),
            ),
        (forall|e: QuantityOpError<N, C::Error>|
            !op_outcome(
                converter,
                stored,
                q,
                false,
                Err::<Quantity<N>, QuantityOpError<N, C::Error>>(e),
            )) ==> new.other == old.other && exists|sum: Quantity<N>|
            {
                &&& new == old.put(slot, Some(sum))
                &&& op_outcome(
                    converter,
                    stored,
                    q,
                    false,
                    Ok::<Quantity<N>, QuantityOpError<N, C::Error>>(sum),
                )
            },
{
    if new == old.push_other(q) {
        assert(new.other.len() == old.other.len() + 1);
    }
    if exists|sum: Quantity<N>| new == old.put(slot, Some(sum)) {
        let sum = choose|sum: Quantity<N>| new == old.put(slot, Some(sum));
        assert(old.put(slot, Some(sum)).other == old.other);
    }
}

/// Taking `q` out of the group `old` through `slot` answers `r` and leaves
/// `new`: it fails, leaving the group untouched, on a text value, an empty
/// slot or a failed subtraction; otherwise the slot keeps what remains of
/// the difference [`Quantity::try_sub`] gives, or is emptied when nothing
/// does
pub open spec fn take_outcome<N: Amount, C: UnitConverter<N>>(
    converter: &C,
    old: GroupState<N>,
    new: GroupState<N>,
    q: Quantity<N>,
    slot: Option<GroupSlot>,
    r: Result<(), GroupedQuantityOpError<N, C::Error>>,
) -> bool {
    match slot {
        None => {
            &&& new == old
            &&& r matches Err(GroupedQuantityOpError::Op(QuantityOpError::TextValue(e)))
            &&& e.0 == q.value_spec()
        },
        Some(s) => match old.get(s) {
            None => new == old && r matches Err(GroupedQuantityOpError::NoCompatibleQuantity),
            Some(stored) => match r {
                Err(GroupedQuantityOpError::NoCompatibleQuantity) => false,
                Err(GroupedQuantityOpError::Op(e)) => {
                    &&& new == old
                    &&& op_outcome(
                        converter,
                        stored,
                        q,
                        true,
                        Err::<Quantity<N>, QuantityOpError<N, C::Error>>(e),
                    )
                },
                Ok(()) => exists|diff: Quantity<N>|
                    {
                        &&& op_outcome(
                            converter,
                            stored,
                            q,
                            true,
                            Ok::<Quantity<N>, QuantityOpError<N, C::Error>>(diff),
                        )
                        &&& {
                            ||| new == old.put(s, None) && leftover(diff.value_spec(), None)
                            ||| exists|rest: Quantity<N>|
                                {
                                    &&& new == old.put(s, Some(rest))
                                    &&& rest.unit_spec() == diff.unit_spec()
                                    &&& rest.scalable_spec() == diff.scalable_spec()
                                    &&& leftover(diff.value_spec(), Some(rest.value_spec()))
                                }
                        }
                    },
            },
        },
    }
}

/// Taking a quantity out of the slot of a known physical quantity touches
/// nothing else in the group, leaves the group as it was when it fails, and
/// when it succeeds leaves in that slot what is left, clamped at zero, of the
/// difference [`Quantity::try_sub`] gives, or empties it when nothing above
/// zero is left.
pub proof fn lemma_take_from_known_slot<N: Amount, C: UnitConverter<N>>(
    converter: &C,
    old: GroupState<N>,
    new: GroupState<N>,
    q: Quantity<N>,
    kind: PhysicalQuantity,
    r: Result<(), GroupedQuantityOpError<N, C::Error>>,
)
    requires
        old.wf(),
        take_outcome(converter, old, new, q, Some(GroupSlot::Known(kind)), r),
    ensures
        new.other == old.other,
        new.unknown == old.unknown,
        new.no_unit == old.no_unit,
        new.known.len() == old.known.len(),
        forall|i: int| 0 <= i < old.known.len() && i != kind.position() ==> new.known[i] == old.known[i],
        r is Err ==> new == old,
        old.known[kind.position()] is None ==> r matches Err(GroupedQuantityOpError::NoCompatibleQuantity),
        r is Ok ==> match old.known[kind.position()] {
            None => false,
            Some(stored) => exists|diff: Quantity<N>|
            {
                &&& op_outcome(
                    converter,
                    stored,
                    q,
                    true,
                    Ok::<Quantity<N>, QuantityOpError<N, C::Error>>(diff),
                )
                &&& match new.known[kind.position()] {
                    Some(rest) => rest.unit_spec() == diff.unit_spec() && leftover(
                        diff.value_spec(),
                        Some(rest.value_spec()),
                    ),
                    None => leftover(diff.value_spec(), None),
                }
            },
        },
{
}

/// Adding the quantities `items`, in order, to the group `old` can give
/// `new`
pub open spec fn adds_all<N: Amount, C: UnitConverter<N>>(
    converter: &C,
    old: GroupState<N>,
    items: Seq<Quantity<N>>,
    new: GroupState<N>,
) -> bool
    decreases items.len(),
{
    if items.len() == 0 {
        new == old
    } else {
        exists|mid: GroupState<N>, kind: Option<PhysicalQuantity>|
            {
                &&& adds_all(converter, old, items.drop_last(), mid)
                &&& answered_kind(converter, items.last(), kind)
                &&& add_outcome(converter, mid, new, items.last(), slot_for(items.last(), kind))
            }
    }
}

/// Quantities without unit that are not text always add up to a single total:
/// adding one to a group stores it, or its sum with the quantity there, as
/// the quantity without unit, and changes nothing else.
pub proof fn lemma_unitless_quantities_add_up<N: Amount, C: UnitConverter<N>>(
    converter: &C,
    old: GroupState<N>,
    new: GroupState<N>,
    q: Quantity<N>,
    kind: Option<PhysicalQuantity>,
)
    requires
        old.wf(),
        add_outcome(converter, old, new, q, slot_for(q, kind)),
        q.unit_spec() is None,
        !(q.value_spec() is Text),
    ensures
        new.no_unit is Some,
        new.known == old.known,
        new.unknown == old.unknown,
        new.other == old.other,
{
}

/// Taking the quantities `items`, in order, out of the group `old` can
/// succeed for each and give `new`
pub open spec fn takes_all<N: Amount, C: UnitConverter<N>>(
    converter: &C,
    old: GroupState<N>,
    items: Seq<Quantity<N>>,
    new: GroupState<N>,
) -> bool
    decreases items.len(),
{
    if items.len() == 0 {
        new == old
    } else {
        exists|mid: GroupState<N>, kind: Option<PhysicalQuantity>|
            {
                &&& takes_all(converter, old, items.drop_last(), mid)
                &&& answered_kind(converter, items.last(), kind)
                &&& take_outcome(converter, mid, new, items.last(), slot_for(items.last(), kind), Ok(()))
            }
    }
}

/// Taking the quantities `items`, in order, out of the group `old` succeeds
/// for those before the one at some index, which fails with `e`
pub open spec fn takes_until_error<N: Amount, C: UnitConverter<N>>(
    converter: &C,
    old: GroupState<N>,
    items: Seq<Quantity<N>>,
    e: GroupedQuantityOpError<N, C::Error>,
) -> bool {
    exists|k: int, mid: GroupState<N>|
        {
            &&& 0 <= k < items.len()
            &&& #[trigger] takes_all(converter, old, items.take(k), mid)
            &&& exists|kind: Option<PhysicalQuantity>|
                {
                    &&& #[trigger] answered_kind(converter, items[k], kind)
                    &&& take_outcome(
                        converter,
                        mid,
                        mid,
                        items[k],
                        slot_for(items[k], kind),
                        Err::<(), GroupedQuantityOpError<N, C::Error>>(e),
                    )
                }
        }
}

/// `N::at_most_zero` can answer `r` for `n`
pub open spec fn at_most_zero_answer<N: Amount>(n: N, r: bool) -> bool {
    call_ensures(N::at_most_zero, (&n,), r)
}

/// Clamping `start` at zero can give `s`: `start` itself when it is not below
/// zero, zero otherwise
pub open spec fn clamped<N: Amount>(start: N, s: N) -> bool {
    ||| call_ensures(N::below_zero, (&start,), false) && s == start
    ||| call_ensures(N::below_zero, (&start,), true) && call_ensures(N::zero, (), s)
}

/// What is left of the difference `diff` once it is clamped at zero: nothing
/// (`None`) for a number or a range whose end is not above zero, otherwise
/// the number itself, or the range with its start clamped
pub open spec fn leftover<N: Amount>(diff: Value<N>, left: Option<Value<N>>) -> bool {
    match diff {
        Value::Number(n) => match left {
            None => at_most_zero_answer(n, true),
            Some(v) => v == diff && at_most_zero_answer(n, false),
        },
        Value::Range { start, end } => match left {
            None => at_most_zero_answer(end, true),
            Some(v) => {
                &&& at_most_zero_answer(end, false)
                &&& v matches Value::Range { start: s, end: e }
                &&& e == end
                &&& clamped(start, s)
            },
        },
        Value::Text(_) => false,
    }
}

/// Taking out of a group saturates at zero without touching what is above
/// it: what is left of a number is that number, and what is left of a range
/// keeps its end and keeps its start too, unless that start is below zero,
/// when zero replaces it.
pub proof fn lemma_leftover_clamps_only_negative_starts<N: Amount>(diff: Value<N>, left: Value<N>)
    requires
        leftover(diff, Some(left)),
    ensures
        diff matches Value::Number(n) ==> left == diff && call_ensures(N::at_most_zero, (&n,), false),
        diff matches Value::Range { start, end } ==> left matches Value::Range { start: s, end: e }
            && e == end && call_ensures(N::at_most_zero, (&end,), false) && (s == start || (
        call_ensures(N::below_zero, (&start,), true) && call_ensures(N::zero, (), s))),
{
}

/// Taking out of a group empties a slot only when nothing above zero is left:
/// the difference is a number, or a range whose end, that is not above zero.
pub proof fn lemma_leftover_empties_only_at_zero<N: Amount>(diff: Value<N>)
    requires
        leftover(diff, None),
    ensures
        diff matches Value::Number(n) ==> call_ensures(N::at_most_zero, (&n,), true),
        diff matches Value::Range { end, .. } ==> call_ensures(N::at_most_zero, (&end,), true),
        !(diff is Text),
{
}

/// Clamps a value at zero, returns `true` if nothing is left of it
///
/// A number is left as it is, empty when not above zero. A range is empty
/// when its end is not above zero, otherwise a start below zero is set to
/// zero. Text is never empty.
fn clamp_at_zero<N: Amount>(value: &mut Value<N>) -> (empty: bool)
    ensures
        *old(value) is Text ==> !empty && *final(value) == *old(value),
        !(*old(value) is Text) ==> leftover(
            *old(value),
            if empty {
                None
            } else {
                Some(*final(value))
            },
        ),
{
    match value {
        Value::Number(n) => n.at_most_zero(),
        Value::Range { start, end } => {
            if end.at_most_zero() {
                return true;
            }
            if start.below_zero() {
                *start = N::zero();
            }
            false
        },
        Value::Text(_) => false,
    }
}

/// Group of quantities
///
/// This supports adding new quantities and merging other groups. It is used
/// to create and merge ingredient lists.
///
/// This can hold many quantities to avoid loosing information when not all
/// quantities are compatible. If a single total can be calculated, it will be
/// a single quantity. If the total cannot be calculated because 2 or more
/// units can't be added, it contains all the quantities added where possible.
#[derive(Debug)]
pub struct GroupedQuantity<N> {
    /// known units, per physical quantity
    known: [Option<Quantity<N>>; PHYSICAL_QUANTITIES],
    /// unknown units
    unknown: Vec<(String, Quantity<N>)>,
    /// no units
    no_unit: Option<Quantity<N>>,
    /// could not operate/add to others
    other: Vec<Quantity<N>>,
}

impl<N> View for GroupedQuantity<N> {
    type V = GroupState<N>;

    closed spec fn view(&self) -> GroupState<N> {
        GroupState {
            known: self.known@,
            unknown: self.unknown@.map_values(|e: (String, Quantity<N>)| (e.0@, e.1)),
            no_unit: self.no_unit,
            other: self.other@,
        }
    }
}

impl<N> GroupedQuantity<N> {
    /// Create a new empty group
    pub fn empty() -> (g: Self)
        ensures
            g@.wf(),
            g@ == empty_group::<N>(),
    {
        let known: [Option<Quantity<N>>; PHYSICAL_QUANTITIES] = [None, None, None, None, None];
        let ghost state = GroupState {
            known: known@,
            unknown: Seq::<(Seq<char>, Quantity<N>)>::empty(),
            no_unit: None::<Quantity<N>>,
            other: Seq::<Quantity<N>>::empty(),
        };
        assert(state =~= empty_group::<N>());
        let g = GroupedQuantity { known, unknown: Vec::new(), no_unit: None, other: Vec::new() };
        assert(g@ =~= empty_group::<N>());
        g
    }

    /// Every group is well formed
    #[verifier::type_invariant]
    closed spec fn inv(self) -> bool {
        self@.wf()
    }

    /// Keeps `q` apart, as one that could not be added
    fn keep_apart(&mut self, q: Quantity<N>)
        ensures
            final(self)@ == old(self)@.push_other(q),
    {
        proof {
            use_type_invariant(&*self);
        }
        let mut other: Vec<Quantity<N>> = Vec::new();
        std::mem::swap(&mut other, &mut self.other);
        other.push(q);
        self.other = other;
        assert(self@ =~= old(self)@.push_other(q));
    }

    /// Stores `value` as the quantity of the physical quantity at position
    /// `i`
    fn set_known(&mut self, i: usize, value: Option<Quantity<N>>)
        requires
            i < PHYSICAL_QUANTITIES,
        ensures
            final(self)@ == (GroupState { known: old(self)@.known.update(i as int, value), ..old(self)@ }),
    {
        proof {
            use_type_invariant(&*self);
        }
        let mut known: [Option<Quantity<N>>; PHYSICAL_QUANTITIES] = [None, None, None, None, None];
        std::mem::swap(&mut known, &mut self.known);
        known[i] = value;
        self.known = known;
        assert(self@ =~= (GroupState { known: old(self)@.known.update(i as int, value), ..old(self)@ }));
    }

    /// Replaces the quantity of the unknown unit at `j`
    fn set_unknown(&mut self, j: usize, unit: String, q: Quantity<N>)
        requires
            j < old(self)@.unknown.len(),
            unit@ == old(self)@.unknown[j as int].0,
            q.unit_spec() matches Some(u) && u@ == unit@,
            !(q.value_spec() is Text),
        ensures
            final(self)@ == (GroupState {
                unknown: old(self)@.unknown.update(j as int, (unit@, q)),
                ..old(self)@
            }),
    {
        proof {
            use_type_invariant(&*self);
        }
        let ghost start = self@;
        let mut unknown: Vec<(String, Quantity<N>)> = Vec::new();
        std::mem::swap(&mut unknown, &mut self.unknown);
        unknown.set(j, (unit, q));
        let ghost state = GroupState {
            unknown: unknown@.map_values(|e: (String, Quantity<N>)| (e.0@, e.1)),
            ..start
        };
        assert(state.unknown =~= start.unknown.update(j as int, (unit@, q)));
        assert(state.wf());
        self.unknown = unknown;
        assert(self@ =~= state);
    }

    /// Stores the quantity of an unknown unit the group has none of
    fn push_unknown(&mut self, unit: String, q: Quantity<N>)
        requires
            forall|k: int| 0 <= k < old(self)@.unknown.len() ==> (#[trigger] old(self)@.unknown[k]).0 != unit@,
            q.unit_spec() matches Some(u) && u@ == unit@,
            !(q.value_spec() is Text),
        ensures
            final(self)@ == (GroupState { unknown: old(self)@.unknown.push((unit@, q)), ..old(self)@ }),
    {
        proof {
            use_type_invariant(&*self);
        }
        let ghost start = self@;
        let mut unknown: Vec<(String, Quantity<N>)> = Vec::new();
        std::mem::swap(&mut unknown, &mut self.unknown);
        unknown.push((unit, q));
        let ghost state = GroupState {
            unknown: unknown@.map_values(|e: (String, Quantity<N>)| (e.0@, e.1)),
            ..start
        };
        assert(state.unknown =~= start.unknown.push((unit@, q)));
        assert(state.wf());
        self.unknown = unknown;
        assert(self@ =~= state);
    }

    /// Removes the quantity of the unknown unit at `j`
    fn remove_unknown(&mut self, j: usize)
        requires
            j < old(self)@.unknown.len(),
        ensures
            final(self)@ == (GroupState { unknown: old(self)@.unknown.remove(j as int), ..old(self)@ }),
    {
        proof {
            use_type_invariant(&*self);
        }
        let ghost start = self@;
        let mut unknown: Vec<(String, Quantity<N>)> = Vec::new();
        std::mem::swap(&mut unknown, &mut self.unknown);
        unknown.remove(j);
        let ghost state = GroupState {
            unknown: unknown@.map_values(|e: (String, Quantity<N>)| (e.0@, e.1)),
            ..start
        };
        assert(state.unknown =~= start.unknown.remove(j as int));
        assert(state.wf());
        self.unknown = unknown;
        assert(self@ =~= state);
    }

    fn find_unknown(&self, unit: &str) -> (r: Option<usize>)
        ensures
            match r {
                Some(i) => self@.unknown_pos(unit@) == Some(i as int),
                None => {
                    &&& self@.unknown_pos(unit@) is None
                    &&& forall|j: int| 0 <= j < self@.unknown.len() ==> (#[trigger] self@.unknown[j]).0 != unit@
                },
            },
    {
        let wanted = unit.to_owned();
        let mut i: usize = 0;
        while i < self.unknown.len()
            invariant
                i <= self.unknown@.len(),
                wanted@ == unit@,
                forall|j: int| 0 <= j < i ==> (#[trigger] self@.unknown[j]).0 != unit@,
            decreases self.unknown@.len() - i,
        {
            if self.unknown[i].0 == wanted {
                proof {
                    let st = self@;
                    assert(st.first_unknown(unit@, i as int));
                    let c = choose|c: int| #[trigger] st.first_unknown(unit@, c);
                    if c < i {
                        assert(st.unknown[c].0 != unit@);
                    }
                    if c > i {
                        assert(st.unknown[i as int].0 != unit@);
                    }
                    assert(c == i);
                }
                return Some(i);
            }
            i = i + 1;
        }
        None
    }
}

/// The quantities referenced by a sequence of references
pub open spec fn derefs<N>(s: Seq<&Quantity<N>>) -> Seq<Quantity<N>> {
    s.map_values(|q: &Quantity<N>| *q)
}

/// The quantities of a sequence of unit and quantity pairs
pub open spec fn entry_values<N>(s: Seq<(Seq<char>, Quantity<N>)>) -> Seq<Quantity<N>> {
    s.map_values(|e: (Seq<char>, Quantity<N>)| e.1)
}

proof fn lemma_derefs_push<N>(s: Seq<&Quantity<N>>, q: &Quantity<N>)
    ensures
        derefs(s.push(q)) == derefs(s).push(*q),
{
    assert(derefs(s.push(q)) =~= derefs(s).push(*q));
}

proof fn lemma_entry_values_take<N>(s: Seq<(Seq<char>, Quantity<N>)>, j: int)
    requires
        0 <= j < s.len(),
    ensures
        entry_values(s.take(j + 1)) == entry_values(s.take(j)).push(s[j].1),
{
    assert(entry_values(s.take(j + 1)) =~= entry_values(s.take(j)).push(s[j].1));
}

/// Taking one more item of a sequence of options adds its value, if any
proof fn lemma_present_take<T>(s: Seq<Option<T>>, i: int)
    requires
        0 <= i < s.len(),
    ensures
        present(s.take(i + 1)) == match s[i] {
            Some(x) => present(s.take(i)).push(x),
            None => present(s.take(i)),
        },
{
    assert(s.take(i + 1).drop_last() =~= s.take(i));
}

/// A prefix of a sequence of options has at most as many values present
proof fn lemma_present_prefix<T>(s: Seq<Option<T>>, n: int)
    requires
        0 <= n <= s.len(),
    ensures
        forall|m: int| 0 <= m <= n ==> present(#[trigger] s.take(m)).len() <= present(s.take(n)).len(),
    decreases n,
{
    if n > 0 {
        lemma_present_take(s, n - 1);
        lemma_present_prefix(s, n - 1);
    }
}

/// The values present in a single option
proof fn lemma_present_single<T>(x: Option<T>)
    ensures
        present(seq![x]) == match x {
            Some(v) => seq![v],
            None => Seq::<T>::empty(),
        },
{
    reveal_with_fuel(present, 2);
    assert(seq![x].drop_last() =~= Seq::<Option<T>>::empty());
    assert(seq![x].last() == x);
    assert(present(seq![x]) =~= match x {
        Some(v) => seq![v],
        None => Seq::<T>::empty(),
    });
}

impl<N> GroupedQuantity<N> {
    /// All the quantities of the group
    ///
    /// In order: those of known units by physical quantity, those of unknown
    /// units, those that could not be added to others and the one without
    /// unit.
    pub fn iter(&self) -> (r: Vec<&Quantity<N>>)
        ensures
            derefs(r@) == self@.items(),
    {
        let mut r: Vec<&Quantity<N>> = Vec::new();
        let mut i: usize = 0;
        assert(derefs(r@) =~= present(self.known@.take(0)));
        while i < PHYSICAL_QUANTITIES
            invariant
                i <= PHYSICAL_QUANTITIES,
                derefs(r@) == present(self.known@.take(i as int)),
            decreases PHYSICAL_QUANTITIES - i,
        {
            proof {
                lemma_present_take(self.known@, i as int);
            }
            match &self.known[i] {
                Some(q) => {
                    proof {
                        lemma_derefs_push(r@, q);
                    }
                    r.push(q);
                },
                None => {},
            }
            i = i + 1;
        }
        assert(self.known@.take(i as int) =~= self.known@);
        let ghost done = derefs(r@);
        let mut j: usize = 0;
        assert(entry_values(self@.unknown.take(0)) =~= Seq::<Quantity<N>>::empty());
        assert(done + entry_values(self@.unknown.take(0)) =~= done);
        while j < self.unknown.len()
            invariant
                j <= self.unknown@.len(),
                self@.unknown.len() == self.unknown@.len(),
                derefs(r@) == done + entry_values(self@.unknown.take(j as int)),
            decreases self.unknown@.len() - j,
        {
            proof {
                lemma_entry_values_take(self@.unknown, j as int);
                lemma_derefs_push(r@, &self.unknown@[j as int].1);
                assert(self@.unknown[j as int].1 == self.unknown@[j as int].1);
            }
            r.push(&self.unknown[j].1);
            assert(derefs(r@) =~= done + entry_values(self@.unknown.take(j + 1)));
            j = j + 1;
        }
        assert(self@.unknown.take(j as int) =~= self@.unknown);
        let ghost done = derefs(r@);
        let mut k: usize = 0;
        assert(done + self.other@.take(0) =~= done);
        while k < self.other.len()
            invariant
                k <= self.other@.len(),
                derefs(r@) == done + self.other@.take(k as int),
            decreases self.other@.len() - k,
        {
            proof {
                lemma_derefs_push(r@, &self.other@[k as int]);
            }
            r.push(&self.other[k]);
            assert(derefs(r@) =~= done + self.other@.take(k + 1));
            k = k + 1;
        }
        assert(self.other@.take(k as int) =~= self.other@);
        let ghost done = derefs(r@);
        match &self.no_unit {
            Some(q) => {
                proof {
                    lemma_derefs_push(r@, q);
                }
                r.push(q);
            },
            None => {},
        }
        proof {
            lemma_present_single(self@.no_unit);
            assert(derefs(r@) =~= done + present(seq![self@.no_unit]));
            assert(derefs(r@) =~= self@.items());
        }
        r
    }

    /// Whether the group holds no quantity
    pub fn is_empty(&self) -> (r: bool)
        ensures
            r == (self@.items().len() == 0),
    {
        proof {
            lemma_present_single(self@.no_unit);
            lemma_present_prefix(self.known@, PHYSICAL_QUANTITIES as int);
        }
        assert(self.known@.take(PHYSICAL_QUANTITIES as int) =~= self.known@);
        let mut i: usize = 0;
        while i < PHYSICAL_QUANTITIES
            invariant
                i <= PHYSICAL_QUANTITIES,
                present(self.known@.take(i as int)).len() == 0,
                forall|m: int| 0 <= m <= PHYSICAL_QUANTITIES ==> present(#[trigger] self.known@.take(m)).len() <= present(self.known@).len(),
            decreases PHYSICAL_QUANTITIES - i,
        {
            proof {
                lemma_present_take(self.known@, i as int);
            }
            if self.known[i].is_some() {
                assert(present(self.known@.take(i + 1)).len() > 0);
                return false;
            }
            i = i + 1;
        }
        assert(self.known@.take(i as int) =~= self.known@);
        self.unknown.len() == 0 && self.other.len() == 0 && self.no_unit.is_none()
    }

    /// Number of quantities in the group
    pub fn len(&self) -> (r: usize)
        requires
            self@.items().len() <= usize::MAX,
        ensures
            r == self@.items().len(),
    {
        proof {
            lemma_present_single(self@.no_unit);
            lemma_present_prefix(self.known@, PHYSICAL_QUANTITIES as int);
        }
        assert(self.known@.take(PHYSICAL_QUANTITIES as int) =~= self.known@);
        let mut count: usize = 0;
        let mut i: usize = 0;
        while i < PHYSICAL_QUANTITIES
            invariant
                i <= PHYSICAL_QUANTITIES,
                count == present(self.known@.take(i as int)).len(),
                forall|m: int| 0 <= m <= PHYSICAL_QUANTITIES ==> present(#[trigger] self.known@.take(m)).len() <= present(self.known@).len(),
                present(self.known@).len() <= self@.items().len(),
                self@.items().len() <= usize::MAX,
            decreases PHYSICAL_QUANTITIES - i,
        {
            proof {
                lemma_present_take(self.known@, i as int);
            }
            assert(present(self.known@.take(i + 1)).len() <= present(self.known@).len());
            if self.known[i].is_some() {
                count = count + 1;
            }
            i = i + 1;
        }
        assert(self.known@.take(i as int) =~= self.known@);
        count = count + self.unknown.len();
        count = count + self.other.len();
        if self.no_unit.is_some() {
            count = count + 1;
        }
        count
    }
}

fn clone_option<N: Copy>(q: &Option<Quantity<N>>) -> (r: Option<Quantity<N>>)
    ensures
        r == *q,
{
    match q {
        Some(q) => Some(q.clone()),
        None => None,
    }
}

impl<N: Copy> Clone for GroupedQuantity<N> {
    fn clone(&self) -> (r: Self)
        ensures
            r@ == self@,
    {
        let known: [Option<Quantity<N>>; PHYSICAL_QUANTITIES] = [
            clone_option(&self.known[0]),
            clone_option(&self.known[1]),
            clone_option(&self.known[2]),
            clone_option(&self.known[3]),
            clone_option(&self.known[4]),
        ];
        let mut unknown: Vec<(String, Quantity<N>)> = Vec::new();
        let mut j: usize = 0;
        while j < self.unknown.len()
            invariant
                j <= self.unknown@.len(),
                unknown@ == self.unknown@.take(j as int),
            decreases self.unknown@.len() - j,
        {
            let entry = (self.unknown[j].0.clone(), self.unknown[j].1.clone());
            unknown.push(entry);
            assert(unknown@ =~= self.unknown@.take(j + 1));
            j = j + 1;
        }
        let mut other: Vec<Quantity<N>> = Vec::new();
        let mut k: usize = 0;
        while k < self.other.len()
            invariant
                k <= self.other@.len(),
                other@ == self.other@.take(k as int),
            decreases self.other@.len() - k,
        {
            other.push(self.other[k].clone());
            assert(other@ =~= self.other@.take(k + 1));
            k = k + 1;
        }
        let no_unit = match &self.no_unit {
            Some(q) => Some(q.clone()),
            None => None,
        };
        assert(known@ =~= self.known@);
        assert(unknown@ =~= self.unknown@);
        assert(other@ =~= self.other@);
        proof {
            use_type_invariant(self);
        }
        let r = GroupedQuantity { known, unknown, no_unit, other };
        assert(r@ =~= self@);
        r
    }
}

impl<N: Amount> GroupedQuantity<N> {
    /// Add a new quantity to the group
    ///
    /// A text value is kept apart. Otherwise the quantity goes to the slot of
    /// its unit (by physical quantity for a known unit, by text for an
    /// unknown one, or the one without unit): it is stored there if the slot
    /// is empty, added to the quantity there if it can be, and kept apart
    /// if not.
    pub fn add<C: UnitConverter<N>>(&mut self, q: &Quantity<N>, converter: &C)
        ensures
            final(self)@.wf(),
            exists|kind: Option<PhysicalQuantity>|
                answered_kind(converter, *q, kind) && add_outcome(
                    converter,
                    old(self)@,
                    final(self)@,
                    *q,
                    slot_for(*q, kind),
                ),
    {
        proof {
            use_type_invariant(&*self);
        }
        let ghost start = self@;
        if q.value.is_text() {
            self.keep_apart(q.clone());
            proof {
                assert(answered_kind(converter, *q, None));
                assert(add_outcome(converter, start, self@, *q, slot_for(*q, None)));
                use_type_invariant(&*self);
            }
            return ;
        }
        match &q.unit {
            None => {
                let added = match &self.no_unit {
                    Some(stored) => Some(stored.try_add(q, converter)),
                    None => None,
                };
                match added {
                    None => {
                        self.no_unit = Some(q.clone());
                        assert(self@ =~= start.put(GroupSlot::NoUnit, Some(*q)));
                    },
                    Some(Ok(sum)) => {
                        let ghost g = sum;
                        self.no_unit = Some(sum);
                        assert(self@ =~= start.put(GroupSlot::NoUnit, Some(g)));
                    },
                    Some(Err(_)) => {
                        self.keep_apart(q.clone());
                    },
                }
                proof {
                    assert(answered_kind(converter, *q, None));
                    assert(add_outcome(converter, start, self@, *q, slot_for(*q, None)));
                }
            },
            Some(unit) => {
                let written = unit.as_str();
                let kind = converter.physical_quantity(written);
                assert(answered_kind(converter, *q, kind));
                match kind {
                    Some(k) => {
                        let i = k.index();
                        let added = match &self.known[i] {
                            Some(stored) => Some(stored.try_add(q, converter)),
                            None => None,
                        };
                        match added {
                            None => {
                                self.set_known(i, Some(q.clone()));
                                assert(self@ =~= start.put(GroupSlot::Known(k), Some(*q)));
                            },
                            Some(Ok(sum)) => {
                                let ghost g = sum;
                                self.set_known(i, Some(sum));
                                assert(self@ =~= start.put(GroupSlot::Known(k), Some(g)));
                            },
                            Some(Err(_)) => {
                                self.keep_apart(q.clone());
                            },
                        }
                    },
                    None => {
                        match self.find_unknown(unit.as_str()) {
                            Some(j) => {
                                let added = self.unknown[j].1.try_add(q, converter);
                                match added {
                                    Ok(sum) => {
                                        let ghost g = sum;
                                        self.set_unknown(j, unit.clone(), sum);
                                        assert(self@ =~= start.put(
                                            GroupSlot::Unknown(unit@),
                                            Some(g),
                                        ));
                                    },
                                    Err(_) => {
                                        self.keep_apart(q.clone());
                                    },
                                }
                            },
                            None => {
                                self.push_unknown(unit.clone(), q.clone());
                                assert(self@ =~= start.put(GroupSlot::Unknown(unit@), Some(*q)));
                            },
                        }
                    },
                }
                proof {
                    assert(add_outcome(converter, start, self@, *q, slot_for(*q, kind)));
                }
            },
        }
        proof {
            use_type_invariant(&*self);
        }
    }

    /// Turn the group into a single list, in the order of
    /// [`GroupedQuantity::iter`]
    pub fn into_vec(self) -> (r: Vec<Quantity<N>>)
        ensures
            r@ == self@.items(),
    {
        let refs = self.iter();
        let mut r: Vec<Quantity<N>> = Vec::new();
        let mut i: usize = 0;
        while i < refs.len()
            invariant
                i <= refs@.len(),
                r@ == derefs(refs@).take(i as int),
            decreases refs@.len() - i,
        {
            r.push(refs[i].clone());
            assert(r@ =~= derefs(refs@).take(i + 1));
            i = i + 1;
        }
        assert(derefs(refs@).take(i as int) =~= derefs(refs@));
        r
    }

    /// Merge the group with another one, adding each of its quantities in
    /// the order of [`GroupedQuantity::iter`]
    pub fn merge<C: UnitConverter<N>>(&mut self, other: &Self, converter: &C)
        ensures
            final(self)@.wf(),
            adds_all(converter, old(self)@, other@.items(), final(self)@),
    {
        proof {
            use_type_invariant(&*self);
        }
        let ghost start = self@;
        let items = other.iter();
        let mut i: usize = 0;
        assert(derefs(items@).take(0) =~= Seq::<Quantity<N>>::empty());
        while i < items.len()
            invariant
                i <= items@.len(),
                self@.wf(),
                adds_all(converter, start, derefs(items@).take(i as int), self@),
            decreases items@.len() - i,
        {
            let ghost before = self@;
            self.add(items[i], converter);
            proof {
                let added = derefs(items@).take(i + 1);
                assert(added.drop_last() =~= derefs(items@).take(i as int));
                assert(added.last() == *items@[i as int]);
                let kind = choose|kind: Option<PhysicalQuantity>|
                    add_outcome(converter, before, self@, *items@[i as int], slot_for(*items@[i as int], kind));
                assert(add_outcome(converter, before, self@, added.last(), slot_for(added.last(), kind)));
                assert(adds_all(converter, start, added, self@));
            }
            i = i + 1;
        }
        assert(derefs(items@).take(i as int) =~= other@.items());
    }

    /// Take another group out of this one
    ///
    /// Every quantity of `other` is taken with [`GroupedQuantity::try_take`],
    /// in the order of [`GroupedQuantity::iter`], all of them or none: the
    /// first one that can't be taken returns its error, leaving the group
    /// untouched.
    pub fn try_take_group<C: UnitConverter<N>>(&mut self, other: &Self, converter: &C) -> (r: Result<
        (),
        GroupedQuantityOpError<N, C::Error>,
    >)
        ensures
            final(self)@.wf(),
            r is Ok ==> takes_all(converter, old(self)@, other@.items(), final(self)@),
            r matches Err(e) ==> final(self)@ == old(self)@ && takes_until_error(
                converter,
                old(self)@,
                other@.items(),
                e,
            ),
    {
        proof {
            use_type_invariant(&*self);
        }
        let ghost start = self@;
        let mut taken = self.clone();
        let items = other.iter();
        let mut i: usize = 0;
        assert(derefs(items@).take(0) =~= Seq::<Quantity<N>>::empty());
        while i < items.len()
            invariant
                i <= items@.len(),
                self@ == start,
                start.wf(),
                taken@.wf(),
                derefs(items@) == other@.items(),
                takes_all(converter, start, derefs(items@).take(i as int), taken@),
            decreases items@.len() - i,
        {
            let ghost before = taken@;
            let r = taken.try_take(items[i], converter);
            let ghost kind = choose|kind: Option<PhysicalQuantity>|
                answered_kind(converter, *items@[i as int], kind) && take_outcome(
                    converter,
                    before,
                    taken@,
                    *items@[i as int],
                    slot_for(*items@[i as int], kind),
                    r,
                );
            if let Err(e) = r {
                proof {
                    let all = derefs(items@);
                    assert(all[i as int] == *items@[i as int]);
                    assert(answered_kind(converter, all[i as int], kind));
                    assert(take_outcome(converter, before, before, all[i as int], slot_for(all[i as int], kind), Err::<(), GroupedQuantityOpError<N, C::Error>>(e)));
                    assert(takes_all(converter, start, all.take(i as int), before));
                    assert(derefs(items@) =~= other@.items());
                }
                return Err(e);
            }
            proof {
                let took = derefs(items@).take(i + 1);
                assert(took.drop_last() =~= derefs(items@).take(i as int));
                assert(took.last() == *items@[i as int]);
                assert(answered_kind(converter, took.last(), kind));
                assert(take_outcome(converter, before, taken@, took.last(), slot_for(took.last(), kind), Ok(())));
                assert(takes_all(converter, start, took, taken@));
            }
            i = i + 1;
        }
        assert(derefs(items@).take(i as int) =~= other@.items());
        *self = taken;
        Ok(())
    }

    /// Fits the quantity of each known unit to the unit its value reads best
    /// in, with the converter
    ///
    /// The first error stops fitting and is returned; the quantities fitted
    /// until then stay fitted. Quantities of unknown units, without unit or
    /// kept apart are never fitted.
    pub fn fit<C: UnitConverter<N>>(&mut self, converter: &C) -> (r: Result<(), C::Error>)
        ensures
            final(self)@.wf(),
            fit_outcome(converter, old(self)@, final(self)@, r),
    {
        proof {
            use_type_invariant(&*self);
        }
        let ghost start = self@;
        let mut i: usize = 0;
        while i < PHYSICAL_QUANTITIES
            invariant
                start == old(self)@,
                self@.wf(),
                i <= PHYSICAL_QUANTITIES,
                self@.unknown == start.unknown,
                self@.no_unit == start.no_unit,
                self@.other == start.other,
                self@.known.len() == start.known.len(),
                forall|j: int| 0 <= j < i ==> #[trigger] fitted_slot(converter, start, self@, j),
                forall|j: int| i <= j < PHYSICAL_QUANTITIES ==> #[trigger] self@.known[j] == start.known[j],
            decreases PHYSICAL_QUANTITIES - i,
        {
            let ghost before = self@;
            let fitting = match &self.known[i] {
                Some(q) => {
                    let r = converter.fit(q);
                    assert(fitted(converter, *q, r));
                    Some(r)
                },
                None => None,
            };
            match fitting {
                Some(Ok(q)) => {
                    assert(before.known[i as int] is Some);
                    self.set_known(i, Some(q));
                    assert(self@.known =~= before.known.update(i as int, Some(q)));
                    assert(self@.unknown =~= start.unknown);
                    assert(self@.other =~= start.other);
                    assert forall|j: int| 0 <= j < i implies #[trigger] fitted_slot(converter, start, self@, j) by {
                        assert(fitted_slot(converter, start, before, j));
                    }
                    assert(fitted_slot(converter, start, self@, i as int));
                },
                Some(Err(e)) => {
                    let ghost answer = Err::<(), C::Error>(e);
                    assert(fit_stopped_at(converter, start, self@, i as int, answer->Err_0));
                    assert(fit_outcome(converter, start, self@, answer));
                    return Err(e);
                },
                None => {
                    assert(fitted_slot(converter, start, self@, i as int));
                },
            }
            i = i + 1;
        }
        Ok(())
    }

    /// Take a quantity out of the group
    ///
    /// The quantity is taken from the one it would have been added to by
    /// [`GroupedQuantity::add`], converting units when needed, so taking
    /// `300 ml` out of a group with `1 l` leaves `0.7 l`.
    ///
    /// A group holds an amount needed, so nothing can be taken twice: unlike
    /// [`Quantity::try_sub`], the result saturates at zero and the quantity is
    /// removed from the group instead of going negative. A range is only
    /// removed when its end reaches zero, a negative start is clamped.
    ///
    /// Returns an error, leaving the group untouched, when the group has no
    /// quantity to take from, when `q` is a text value and when the units are
    /// incompatible. Quantities that could not be added to any other are never
    /// taken from.
    pub fn try_take<C: UnitConverter<N>>(&mut self, q: &Quantity<N>, converter: &C) -> (r: Result<
        (),
        GroupedQuantityOpError<N, C::Error>,
    >)
        ensures
            final(self)@.wf(),
            r is Err ==> final(self)@ == old(self)@,
            final(self)@.other == old(self)@.other,
            exists|kind: Option<PhysicalQuantity>|
                answered_kind(converter, *q, kind) && take_outcome(
                    converter,
                    old(self)@,
                    final(self)@,
                    *q,
                    slot_for(*q, kind),
                    r,
                ),
    {
        proof {
            use_type_invariant(&*self);
        }
        let ghost start = self@;
        if q.value.is_text() {
            let r = Err(GroupedQuantityOpError::Op(QuantityOpError::TextValue(TextValueError(q.value.copied()))));
            proof {
                assert(answered_kind(converter, *q, None));
                assert(take_outcome(converter, start, self@, *q, slot_for(*q, None), r));
            }
            return r;
        }
        // where `add` would have put it
        let kind = match &q.unit {
            Some(unit) => {
                let written = unit.as_str();
                converter.physical_quantity(written)
            },
            None => None,
        };
        assert(answered_kind(converter, *q, kind));
        let ghost slot = slot_for(*q, kind)->0;
        let position = match &q.unit {
            Some(unit) => match kind {
                Some(k) => Some(k.index()),
                None => None,
            },
            None => None,
        };
        let unknown_at = match &q.unit {
            Some(unit) => if kind.is_none() {
                self.find_unknown(unit.as_str())
            } else {
                None
            },
            None => None,
        };
        let taken = match &q.unit {
            None => match &self.no_unit {
                Some(stored) => Some(stored.try_sub(q, converter)),
                None => None,
            },
            Some(unit) => match position {
                Some(i) => match &self.known[i] {
                    Some(stored) => Some(stored.try_sub(q, converter)),
                    None => None,
                },
                None => match unknown_at {
                    Some(j) => Some(self.unknown[j].1.try_sub(q, converter)),
                    None => None,
                },
            },
        };
        let mut rest = match taken {
            None => {
                let r = Err(GroupedQuantityOpError::NoCompatibleQuantity);
                proof {
                    assert(take_outcome(converter, start, self@, *q, slot_for(*q, kind), r));
                }
                return r;
            },
            Some(Err(e)) => {
                let r = Err(GroupedQuantityOpError::Op(e));
                proof {
                    assert(take_outcome(converter, start, self@, *q, slot_for(*q, kind), r));
                }
                return r;
            },
            Some(Ok(rest)) => rest,
        };
        let ghost subtracted = rest;
        let empty = clamp_at_zero(rest.value_mut());
        let ghost left = rest;
        match &q.unit {
            None => {
                if empty {
                    self.no_unit = None;
                } else {
                    self.no_unit = Some(rest);
                }
            },
            Some(unit) => match position {
                Some(i) => {
                    if empty {
                        self.set_known(i, None);
                    } else {
                        self.set_known(i, Some(rest));
                    }
                },
                None => match unknown_at {
                    Some(j) => {
                        if empty {
                            self.remove_unknown(j);
                        } else {
                            self.set_unknown(j, unit.clone(), rest);
                        }
                    },
                    None => {
                        proof {
                            assert(false);
                        }
                    },
                },
            },
        }
        proof {
            if empty {
                assert(self@ =~= start.put(slot, None));
            } else {
                assert(self@ =~= start.put(slot, Some(left)));
            }
            assert(take_outcome(converter, start, self@, *q, slot_for(*q, kind), Ok(())));
        }
        Ok(())
    }
}


/// Two groups are equal in meaning when each of their slots is, the
/// quantities of unknown units being looked up by unit, and the quantities
/// that could not be added to others can be paired one to one
pub open spec fn groups_semantically_equal<N, C>(a: GroupState<N>, b: GroupState<N>, converter: &C) -> bool
    where Quantity<N>: SemanticEq<C>,
{
    &&& a.no_unit.semantically_equals(&b.no_unit, converter)
    &&& forall|i: int|
        0 <= i < PHYSICAL_QUANTITIES ==> (#[trigger] a.known[i]).semantically_equals(&b.known[i], converter)
    &&& a.unknown.len() == b.unknown.len()
    &&& forall|i: int|
        0 <= i < a.unknown.len() ==> match b.unknown_pos((#[trigger] a.unknown[i]).0) {
            Some(j) => a.unknown[i].1.semantically_equals(&b.unknown[j].1, converter),
            None => false,
        }
    &&& a.other.len() == b.other.len()
    &&& greedy_pairs(a.other, b.other, converter, a.other.len() as int) is Some
}

/// Groups equal in meaning hold, slot by slot, quantities equal in meaning,
/// and the quantities they keep apart can be paired one to one with
/// quantities equal in meaning: the same number of them, none left over.
pub proof fn lemma_equal_groups_pair_kept_apart<N, C>(a: GroupState<N>, b: GroupState<N>, converter: &C)
    where Quantity<N>: SemanticEq<C>,
    requires
        groups_semantically_equal(a, b, converter),
    ensures
        a.no_unit.semantically_equals(&b.no_unit, converter),
        forall|i: int|
            0 <= i < PHYSICAL_QUANTITIES ==> (#[trigger] a.known[i]).semantically_equals(
                &b.known[i],
                converter,
            ),
        a.unknown.len() == b.unknown.len(),
        forall|i: int|
            0 <= i < a.unknown.len() ==> match b.unknown_pos((#[trigger] a.unknown[i]).0) {
                Some(j) => a.unknown[i].1.semantically_equals(&b.unknown[j].1, converter),
                None => false,
            },
        a.other.len() == b.other.len(),
        exists|p: Seq<int>| is_pairing(a.other, b.other, converter, p),
{
    lemma_unordered_equals_pairs(a.other, b.other, converter);
}

/// In a well formed group, each unknown unit is found where it is stored
proof fn lemma_unknown_pos<N>(g: GroupState<N>, i: int)
    requires
        g.wf(),
        0 <= i < g.unknown.len(),
    ensures
        g.unknown_pos(g.unknown[i].0) == Some(i),
{
    let u = g.unknown[i].0;
    assert(g.first_unknown(u, i));
    let c = choose|c: int| #[trigger] g.first_unknown(u, c);
    if c < i {
        assert(g.unknown[c].0 != g.unknown[i].0);
    }
    if c > i {
        assert(g.unknown[i].0 != u);
    }
}

/// A group is equal in meaning to itself when each quantity is: comparing a
/// group with itself answers `true`.
pub proof fn lemma_group_equals_itself<N, C>(g: GroupState<N>, converter: &C)
    where Quantity<N>: SemanticEq<C>,
    requires
        g.wf(),
        reflexive::<C, Quantity<N>>(converter),
    ensures
        groups_semantically_equal(g, g, converter),
{
    match g.no_unit {
        Some(q) => assert(q.semantically_equals(&q, converter)),
        None => {},
    }
    assert forall|i: int| 0 <= i < PHYSICAL_QUANTITIES implies (#[trigger] g.known[i]).semantically_equals(
        &g.known[i],
        converter,
    ) by {
        match g.known[i] {
            Some(q) => assert(q.semantically_equals(&q, converter)),
            None => {},
        }
    }
    assert forall|i: int| 0 <= i < g.unknown.len() implies match g.unknown_pos(
        (#[trigger] g.unknown[i]).0,
    ) {
        Some(j) => g.unknown[i].1.semantically_equals(&g.unknown[j].1, converter),
        None => false,
    } by {
        lemma_unknown_pos(g, i);
        let q = g.unknown[i].1;
        assert(q.semantically_equals(&q, converter));
    }
    lemma_unordered_equals_itself(g.other, converter);
}

/// Comparing two groups gives the same answer both ways when quantities
/// compare symmetrically.
pub proof fn lemma_group_equals_symmetric<N, C>(a: GroupState<N>, b: GroupState<N>, converter: &C)
    where Quantity<N>: SemanticEq<C>,
    requires
        a.wf(),
        b.wf(),
        symmetric::<C, Quantity<N>>(converter),
        groups_semantically_equal(a, b, converter),
    ensures
        groups_semantically_equal(b, a, converter),
{
    match (a.no_unit, b.no_unit) {
        (Some(x), Some(y)) => assert(x.semantically_equals(&y, converter)),
        _ => {},
    }
    assert forall|i: int| 0 <= i < PHYSICAL_QUANTITIES implies (#[trigger] b.known[i]).semantically_equals(
        &a.known[i],
        converter,
    ) by {
        assert(a.known[i].semantically_equals(&b.known[i], converter));
        match (a.known[i], b.known[i]) {
            (Some(x), Some(y)) => assert(x.semantically_equals(&y, converter)),
            _ => {},
        }
    }
    // each unknown unit of `a` is found in `b`, at distinct places since the
    // units differ, so all of those of `b` are reached
    let n = a.unknown.len() as int;
    let f = |i: int| b.unknown_pos(a.unknown[i].0)->0;
    assert forall|i: int| 0 <= i < n implies 0 <= #[trigger] f(i) < n && b.unknown[f(i)].0
        == a.unknown[i].0 by {
        let u = a.unknown[i].0;
        assert(b.unknown_pos(u) is Some);
        assert(b.first_unknown(u, choose|c: int| #[trigger] b.first_unknown(u, c)));
    }
    assert forall|i: int, j: int| 0 <= i < j < n implies #[trigger] f(i) != #[trigger] f(j) by {
        assert(b.unknown[f(i)].0 == a.unknown[i].0);
        assert(b.unknown[f(j)].0 == a.unknown[j].0);
        assert(a.unknown[i].0 != a.unknown[j].0);
    }
    lemma_injective_onto(f, n);
    assert forall|k: int| 0 <= k < b.unknown.len() implies match a.unknown_pos(
        (#[trigger] b.unknown[k]).0,
    ) {
        Some(i) => b.unknown[k].1.semantically_equals(&a.unknown[i].1, converter),
        None => false,
    } by {
        assert(reaches(f, n, k));
        let i = choose|i: int| 0 <= i < n && #[trigger] f(i) == k;
        assert(b.unknown[k].0 == a.unknown[i].0);
        lemma_unknown_pos(a, i);
        lemma_unknown_pos(b, k);
        assert(a.unknown[i].1.semantically_equals(&b.unknown[k].1, converter));
    }
    lemma_unordered_equals_symmetric(a.other, b.other, converter);
}

impl<N, C> SemanticEq<C> for GroupedQuantity<N> where Quantity<N>: SemanticEq<C> {
    open spec fn semantically_equals(&self, other: &Self, converter: &C) -> bool {
        groups_semantically_equal(self@, other@, converter)
    }

    fn equals(&self, other: &Self, converter: &C) -> (r: bool) {
        if !self.no_unit.equals(&other.no_unit, converter) {
            return false;
        }
        // both always hold a slot per physical quantity
        let mut i: usize = 0;
        while i < PHYSICAL_QUANTITIES
            invariant
                i <= PHYSICAL_QUANTITIES,
                forall|j: int|
                    0 <= j < i ==> (#[trigger] self@.known[j]).semantically_equals(&other@.known[j], converter),
            decreases PHYSICAL_QUANTITIES - i,
        {
            let same = self.known[i].equals(&other.known[i], converter);
            assert(self@.known[i as int] == self.known@[i as int]);
            assert(other@.known[i as int] == other.known@[i as int]);
            if !same {
                assert(!(self@.known[i as int]).semantically_equals(&other@.known[i as int], converter));
                return false;
            }
            i = i + 1;
        }
        assert(self@.unknown.len() == self.unknown@.len());
        assert(other@.unknown.len() == other.unknown@.len());
        if self.unknown.len() != other.unknown.len() {
            return false;
        }
        let mut j: usize = 0;
        while j < self.unknown.len()
            invariant
                j <= self.unknown@.len(),
                self@.unknown.len() == self.unknown@.len(),
                forall|l: int|
                    0 <= l < j ==> match other@.unknown_pos((#[trigger] self@.unknown[l]).0) {
                        Some(k) => self@.unknown[l].1.semantically_equals(&other@.unknown[k].1, converter),
                        None => false,
                    },
            decreases self.unknown@.len() - j,
        {
            let ghost entry = self@.unknown[j as int];
            assert(entry.0 == self.unknown@[j as int].0@);
            assert(entry.1 == self.unknown@[j as int].1);
            match other.find_unknown(self.unknown[j].0.as_str()) {
                Some(k) => {
                    assert(other@.unknown[k as int].1 == other.unknown@[k as int].1);
                    if !self.unknown[j].1.equals(&other.unknown[k].1, converter) {
                        return false;
                    }
                },
                None => {
                    return false;
                },
            }
            j = j + 1;
        }
        // the order of the quantities that could not be added carries no
        // meaning, so they are compared as a set
        unordered_equals(self.other.as_slice(), other.other.as_slice(), converter)
    }
}

impl<N> GroupedQuantity<N> {
    /// Compares two groups quantity by quantity, in meaning
    ///
    /// So groups with the same quantities written with different units, like
    /// `3 dl` and `300 ml`, are equal. The groups are compared as they are,
    /// not as they would be after adding all their quantities together.
    pub fn equals<C>(&self, other: &Self, converter: &C) -> (r: bool)
        where Quantity<N>: SemanticEq<C>,
        ensures
            r == groups_semantically_equal(self@, other@, converter),
            self@.wf(),
            other@.wf(),
    {
        proof {
            use_type_invariant(self);
            use_type_invariant(other);
        }
        SemanticEq::equals(self, other, converter)
    }
}


/// The texts of `parts` separated by `", "`
pub open spec fn comma_joined(parts: Seq<Seq<char>>) -> Seq<char>
    decreases parts.len(),
{
    if parts.len() == 0 {
        Seq::empty()
    } else if parts.len() == 1 {
        parts[0]
    } else {
        comma_joined(parts.drop_last()) + seq![',', ' '] + parts.last()
    }
}

/// The views of a list of texts
pub open spec fn texts(parts: Seq<String>) -> Seq<Seq<char>> {
    parts.map_values(|p: String| p@)
}

/// Joins the displayed items of a list, separated by commas: how a group of
/// quantities is displayed
pub fn display_comma_separated(parts: &Vec<String>) -> (r: String)
    ensures
        r@ == comma_joined(texts(parts@)),
{
    let mut r = String::new();
    let mut i: usize = 0;
    while i < parts.len()
        invariant
            i <= parts@.len(),
            r@ == comma_joined(texts(parts@).take(i as int)),
        decreases parts@.len() - i,
    {
        proof {
            assert(texts(parts@).take(i + 1).drop_last() =~= texts(parts@).take(i as int));
            assert(texts(parts@).take(i + 1).last() == parts@[i as int]@);
        }
        if i > 0 {
            r.append(", ");
            proof {
                reveal_strlit(", ");
            }
        }
        r.append(parts[i].as_str());
        proof {
            if i == 0 {
                assert(texts(parts@).take(1) =~= seq![parts@[0]@]);
            }
        }
        assert(r@ =~= comma_joined(texts(parts@).take(i + 1)));
        i = i + 1;
    }
    assert(texts(parts@).take(i as int) =~= texts(parts@));
    r
}

} // verus!
