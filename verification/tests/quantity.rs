use cooklang::components::{Cookware, Ingredient};
use cooklang::scale::scale_quantities;
use cooklang::model::Timer;
use cooklang::quantity::{
    compatible_units, display_comma_separated, Amount, GroupedQuantity, GroupedQuantityOpError,
    IncompatibleUnits, PhysicalQuantity, Quantity, QuantityOpError, TextValueError, TryAdd,
    TrySub, UnitConverter, Value,
};
use cooklang::semantic_eq::SemanticEq;

/// A plain floating point number
#[derive(Debug, Clone, Copy, PartialEq)]
struct Num(f64);

impl Amount for Num {
    fn plus(&self, rhs: &Self) -> Self {
        Num(self.0 + rhs.0)
    }
    fn minus(&self, rhs: &Self) -> Self {
        Num(self.0 - rhs.0)
    }
    fn at_most_zero(&self) -> bool {
        self.0 <= 0.0
    }
    fn below_zero(&self) -> bool {
        self.0 < 0.0
    }
    fn zero() -> Self {
        Num(0.0)
    }
    fn times(&self, factor: &Self) -> Self {
        Num(self.0 * factor.0)
    }
}

/// A small metric and imperial converter: each unit with its physical
/// quantity and its size in the base unit (ml, g, s)
struct Units;

#[derive(Debug, Clone, PartialEq)]
struct ConvertError(String);

const UNITS: [(&str, PhysicalQuantity, f64); 11] = [
    ("ml", PhysicalQuantity::Volume, 1.0),
    ("dl", PhysicalQuantity::Volume, 100.0),
    ("l", PhysicalQuantity::Volume, 1000.0),
    ("tsp", PhysicalQuantity::Volume, 4.92892159375),
    ("cup", PhysicalQuantity::Volume, 236.588236),
    ("g", PhysicalQuantity::Mass, 1.0),
    ("kg", PhysicalQuantity::Mass, 1000.0),
    ("lb", PhysicalQuantity::Mass, 453.59237),
    ("s", PhysicalQuantity::Time, 1.0),
    ("min", PhysicalQuantity::Time, 60.0),
    ("h", PhysicalQuantity::Time, 3600.0),
];

/// The units a value is fitted to, largest first
const FIT_TO: [&str; 7] = ["l", "ml", "kg", "g", "h", "min", "s"];

fn unit_info(unit: &str) -> Option<(PhysicalQuantity, f64)> {
    UNITS
        .iter()
        .find(|(name, _, _)| *name == unit)
        .map(|(_, kind, size)| (*kind, *size))
}

fn map_value(v: &Value<Num>, f: impl Fn(f64) -> f64) -> Value<Num> {
    match v {
        Value::Number(n) => Value::Number(Num(f(n.0))),
        Value::Range { start, end } => Value::Range {
            start: Num(f(start.0)),
            end: Num(f(end.0)),
        },
        Value::Text(t) => Value::Text(t.clone()),
    }
}

fn largest(v: &Value<Num>) -> f64 {
    match v {
        Value::Number(n) => n.0,
        Value::Range { end, .. } => end.0,
        Value::Text(_) => 0.0,
    }
}

impl UnitConverter<Num> for Units {
    type Error = ConvertError;

    fn physical_quantity(&self, unit: &str) -> Option<PhysicalQuantity> {
        unit_info(unit).map(|(kind, _)| kind)
    }

    fn convert(&self, q: &Quantity<Num>, unit: &str) -> Result<Quantity<Num>, ConvertError> {
        let from = q.unit().and_then(unit_info);
        let to = unit_info(unit);
        match (from, to) {
            (Some((a, from_size)), Some((b, to_size))) if a == b => {
                let mut c = q.clone();
                *c.value_mut() = map_value(q.value(), |x| x * from_size / to_size);
                c.set_unit(Some(unit.to_string()));
                Ok(c)
            }
            _ => Err(ConvertError(unit.to_string())),
        }
    }

    fn fit(&self, q: &Quantity<Num>) -> Result<Quantity<Num>, ConvertError> {
        let (kind, size) = match q.unit().and_then(unit_info) {
            Some(info) => info,
            None => return Err(ConvertError(q.unit().unwrap_or("").to_string())),
        };
        let base = largest(q.value()) * size;
        for unit in FIT_TO {
            let (k, s) = unit_info(unit).unwrap();
            if k == kind && base >= s {
                return self.convert(q, unit);
            }
        }
        Ok(q.clone())
    }
}

fn close(a: f64, b: f64) -> bool {
    (a - b).abs() <= 1e-9 * a.abs().max(b.abs()).max(1.0)
}

fn values_close(a: &Value<Num>, b: &Value<Num>) -> bool {
    match (a, b) {
        (Value::Number(a), Value::Number(b)) => close(a.0, b.0),
        (Value::Range { start: sa, end: ea }, Value::Range { start: sb, end: eb }) => {
            close(sa.0, sb.0) && close(ea.0, eb.0)
        }
        (Value::Text(a), Value::Text(b)) => a == b,
        _ => false,
    }
}

/// Quantities are equal in meaning when they are the same amount in the
/// base unit; those that can't be converted are compared as written
impl SemanticEq<Units> for Quantity<Num> {
    fn equals(&self, other: &Self, converter: &Units) -> bool {
        self.semantically_equals(other, converter)
    }

    fn semantically_equals(&self, other: &Self, converter: &Units) -> bool {
        let base = |q: &Quantity<Num>| {
            let (kind, _) = q.unit().and_then(unit_info)?;
            let base_unit = UNITS.iter().find(|(_, k, s)| *k == kind && *s == 1.0)?.0;
            converter.convert(q, base_unit).ok()
        };
        match (base(self), base(other)) {
            (Some(a), Some(b)) => a.unit() == b.unit() && values_close(a.value(), b.value()),
            _ => self.unit() == other.unit() && values_close(self.value(), other.value()),
        }
    }
}

fn qty(q: &str) -> Quantity<Num> {
    let (value, unit) = match q.split_once("%") {
        Some((value, unit)) => (value, Some(unit.to_string())),
        None => (q, None),
    };

    let number = |s: &str| s.parse::<f64>().ok().map(Num);
    let range = || {
        let (start, end) = value.split_once("-")?;
        Some(Value::Range {
            start: number(start)?,
            end: number(end)?,
        })
    };

    let value = range()
        .or_else(|| number(value).map(Value::Number))
        .unwrap_or_else(|| Value::Text(value.to_string()));

    Quantity::new(value, unit)
}

fn grouped_qty(quantities: &[&str], converter: &Units) -> GroupedQuantity<Num> {
    let mut g = GroupedQuantity::empty();
    for q in quantities {
        g.add(&qty(q), converter);
    }
    g
}

fn number(v: &Value<Num>) -> f64 {
    match v {
        Value::Number(n) => n.0,
        _ => panic!("not a number: {v:?}"),
    }
}

fn range(v: &Value<Num>) -> (f64, f64) {
    match v {
        Value::Range { start, end } => (start.0, end.0),
        _ => panic!("not a range: {v:?}"),
    }
}

#[test]
fn compare_grouped_quantities() {
    let converter = Units;
    let grouped_qty = |quantities: &[&str]| grouped_qty(quantities, &converter);
    let eq = |a: &[&str], b: &[&str]| grouped_qty(a).equals(&grouped_qty(b), &converter);

    assert!(eq(&[], &[]));
    assert!(!eq(&[], &["1%l"]));

    // added together first, then compared with different units
    assert!(eq(&["3%dl", "2%dl"], &["500%ml"]));
    assert!(!eq(&["3%dl", "2%dl"], &["400%ml"]));

    // every kind of quantity has to match
    assert!(eq(
        &["1%kg", "1%l", "2%bunch", "3"],
        &["1000%g", "1000%ml", "2%bunch", "3"]
    ));
    assert!(!eq(&["1%kg", "1%l"], &["1%kg"]));
    assert!(!eq(&["2%bunch"], &["2%clove"]));
    assert!(!eq(&["2%bunch"], &["3%bunch"]));
    assert!(!eq(&["3"], &["4"]));
    // same value, but one has a unit and the other doesn't
    assert!(!eq(&["2"], &["2%l"]));

    assert!(eq(&["some", "a lot"], &["a lot", "some"]));
    assert!(!eq(&["some", "a lot"], &["a lot", "some", "some"]));
}

#[test]
fn subtract_quantities() {
    let converter = Units;
    let eq = |a: Quantity<Num>, b: &str| a.equals(&qty(b), &converter);
    let sub = |a: &str, b: &str| qty(a).try_sub(&qty(b), &converter).unwrap();
    let sub_err = |a: &str, b: &str| qty(a).try_sub(&qty(b), &converter).is_err();

    // rhs is converted, the unit of lhs is kept
    assert!(eq(sub("1%l", "300%ml"), "0.7%l"));
    assert!(eq(sub("1%kg", "500%g"), "500%g"));
    assert!(eq(sub("2%bunch", "1%bunch"), "1%bunch"));

    // the result can be negative
    assert!(eq(sub("2", "3"), "-1"));
    assert!(eq(sub("100%g", "1%kg"), "-900%g"));

    // ranges are subtracted as intervals
    assert!(eq(sub("1-2%l", "500%ml"), "0.5-1.5%l"));
    assert!(eq(sub("1-2%l", "0.5-1%l"), "0-1.5%l"));
    assert!(eq(sub("2%l", "0.5-1%l"), "1-1.5%l"));

    // incompatible like when adding
    assert!(sub_err("1%l", "1%kg"));
    assert!(sub_err("1%l", "1%bunch"));
    assert!(sub_err("1%l", "1"));
    assert!(sub_err("some", "1"));
    assert!(sub_err("1", "some"));
}

#[test]
fn take_from_grouped_quantities() {
    let converter = Units;
    let group = |quantities: &[&str]| grouped_qty(quantities, &converter);
    let take = |mut a: GroupedQuantity<Num>, b: Quantity<Num>| {
        a.try_take(&b, &converter).unwrap();
        a
    };
    let take_err = |mut a: GroupedQuantity<Num>, b: Quantity<Num>| a.try_take(&b, &converter).is_err();
    let eq = |a: GroupedQuantity<Num>, b: GroupedQuantity<Num>| a.equals(&b, &converter);

    // only the compatible quantity of the group changes
    assert!(eq(
        take(group(&["1%l", "1%kg", "2%bunch", "3"]), qty("500%ml")),
        group(&["0.5%l", "1%kg", "2%bunch", "3"])
    ));
    assert!(eq(
        take(group(&["2%bunch"]), qty("1%bunch")),
        group(&["1%bunch"])
    ));
    assert!(eq(take(group(&["3"]), qty("1")), group(&["2"])));

    //// saturates at zero, removing the quantity from the group
    assert!(take(group(&["1%l"]), qty("1000%ml")).is_empty());
    assert!(take(group(&["1%l"]), qty("2%l")).is_empty());
    assert!(eq(
        take(group(&["1%l", "1%kg"]), qty("2%l")),
        group(&["1%kg"])
    ));
    // a range is only removed when its end reaches zero
    assert!(eq(
        take(group(&["1-2%l"]), qty("1.5%l")),
        group(&["0-0.5%l"])
    ));
    assert!(take(group(&["1-2%l"]), qty("2%l")).is_empty());

    //// nothing to take from
    assert!(take_err(group(&[]), qty("1%l")));
    assert!(take_err(group(&["1%l"]), qty("1%kg")));
    assert!(take_err(group(&["1%l"]), qty("1%bunch")));
    assert!(take_err(group(&["1%l"]), qty("1")));
    //// text values are never taken
    assert!(take_err(group(&["some"]), qty("some")));

    {
        //// the group is untouched when it errors
        let mut g = group(&["1%l"]);
        assert!(g.try_take(&qty("1%kg"), &converter).is_err());
        assert!(g.equals(&group(&["1%l"]), &converter));
    }

    {
        //// a whole group is taken at once
        let mut g = group(&["1%l", "2%bunch", "3"]);
        assert!(g
            .try_take_group(&group(&["500%ml", "1%bunch"]), &converter)
            .is_ok());
        assert!(eq(g, group(&["0.5%l", "1%bunch", "3"])));
    }

    {
        //// or not at all, even when some of its quantities could be
        let mut g = group(&["1%l", "2%bunch"]);
        assert!(g
            .try_take_group(&group(&["500%ml", "1%clove"]), &converter)
            .is_err());
        assert!(eq(g, group(&["1%l", "2%bunch"])));
    }
}

#[test]
fn values_add_by_shape() {
    let n = |x: f64| Value::Number(Num(x));
    let r = |a: f64, b: f64| Value::Range {
        start: Num(a),
        end: Num(b),
    };
    assert_eq!(n(1.0).try_add(&n(2.0)).unwrap(), n(3.0));
    assert_eq!(n(1.0).try_add(&r(2.0, 3.0)).unwrap(), r(3.0, 4.0));
    assert_eq!(r(2.0, 3.0).try_add(&n(1.0)).unwrap(), r(3.0, 4.0));
    assert_eq!(r(1.0, 2.0).try_add(&r(3.0, 5.0)).unwrap(), r(4.0, 7.0));
}

#[test]
fn values_subtract_as_intervals() {
    let n = |x: f64| Value::Number(Num(x));
    let r = |a: f64, b: f64| Value::Range {
        start: Num(a),
        end: Num(b),
    };
    assert_eq!(n(5.0).try_sub(&n(2.0)).unwrap(), n(3.0));
    assert_eq!(r(4.0, 6.0).try_sub(&n(1.0)).unwrap(), r(3.0, 5.0));
    assert_eq!(n(10.0).try_sub(&r(1.0, 3.0)).unwrap(), r(7.0, 9.0));
    assert_eq!(r(4.0, 6.0).try_sub(&r(1.0, 2.0)).unwrap(), r(2.0, 5.0));
}

#[test]
fn text_values_can_not_be_operated() {
    let text = Value::<Num>::from("a pinch".to_string());
    assert!(text.is_text());
    let one = Value::Number(Num(1.0));
    let TextValueError(v) = text.try_add(&one).unwrap_err();
    assert_eq!(v, text);
    let TextValueError(v) = one.try_add(&text).unwrap_err();
    assert_eq!(v, text);
    let TextValueError(v) = one.try_sub(&text).unwrap_err();
    assert_eq!(v, text);
    let TextValueError(v) = text.try_sub(&Value::from("more".to_string())).unwrap_err();
    assert_eq!(v, text);
}

#[test]
fn quantity_accessors() {
    let mut q = qty("2%kg");
    assert_eq!(q.unit(), Some("kg"));
    assert_eq!(number(q.value()), 2.0);
    assert!(!q.scalable());
    q.set_scalable(true);
    assert!(q.scalable());
    *q.value_mut() = Value::Number(Num(3.0));
    assert_eq!(number(q.value()), 3.0);
    assert_eq!(q.unit(), Some("kg"));
    q.set_unit(None);
    assert_eq!(q.unit(), None);
    assert!(q.scalable());
    let c = q.clone();
    assert_eq!(c.unit(), None);
    assert_eq!(number(c.value()), 3.0);
    assert!(c.scalable());
}

#[test]
fn adding_converts_to_the_unit_of_the_left_quantity() {
    let sum = qty("1%l").try_add(&qty("300%ml"), &Units).unwrap();
    assert_eq!(sum.unit(), Some("l"));
    assert!(close(number(sum.value()), 1.3));
    assert!(!sum.scalable());

    let sum = qty("2%bunch").try_add(&qty("1%bunch"), &Units).unwrap();
    assert_eq!(sum.unit(), Some("bunch"));
    assert_eq!(number(sum.value()), 3.0);

    let sum = qty("2").try_add(&qty("1-2"), &Units).unwrap();
    assert_eq!(sum.unit(), None);
    assert_eq!(range(sum.value()), (3.0, 4.0));
}

#[test]
fn incompatible_units_are_reported() {
    let err = |a: &str, b: &str| match qty(a).try_add(&qty(b), &Units) {
        Err(QuantityOpError::IncompatibleUnits(e)) => e,
        other => panic!("expected incompatible units, got {other:?}"),
    };
    assert_eq!(
        err("1%l", "1"),
        IncompatibleUnits::MissingUnit {
            found: "l".to_string(),
            lhs: true
        }
    );
    assert_eq!(
        err("1", "1%l"),
        IncompatibleUnits::MissingUnit {
            found: "l".to_string(),
            lhs: false
        }
    );
    assert_eq!(
        err("1%l", "1%kg"),
        IncompatibleUnits::DifferentPhysicalQuantities {
            a: PhysicalQuantity::Volume,
            b: PhysicalQuantity::Mass
        }
    );
    assert_eq!(
        err("1%bunch", "1%clove"),
        IncompatibleUnits::UnknownDifferentUnits {
            a: "bunch".to_string(),
            b: "clove".to_string()
        }
    );
    assert_eq!(
        err("1%l", "1%clove"),
        IncompatibleUnits::UnknownDifferentUnits {
            a: "l".to_string(),
            b: "clove".to_string()
        }
    );
}

#[test]
fn operating_on_text_is_reported() {
    match qty("some").try_add(&qty("1"), &Units) {
        Err(QuantityOpError::TextValue(TextValueError(v))) => {
            assert_eq!(v, Value::Text("some".to_string()))
        }
        other => panic!("expected a text value error, got {other:?}"),
    }
    match qty("1%l").try_sub(&qty("some%l"), &Units) {
        Err(QuantityOpError::TextValue(TextValueError(v))) => {
            assert_eq!(v, Value::Text("some".to_string()))
        }
        other => panic!("expected a text value error, got {other:?}"),
    }
}

#[test]
fn compatible_unit_gives_the_common_physical_quantity() {
    assert_eq!(
        qty("1%l").compatible_unit(&qty("1%ml"), &Units),
        Ok(Some(PhysicalQuantity::Volume))
    );
    assert_eq!(
        qty("1%h").compatible_unit(&qty("1%min"), &Units),
        Ok(Some(PhysicalQuantity::Time))
    );
    assert_eq!(qty("1%bunch").compatible_unit(&qty("2%bunch"), &Units), Ok(None));
    assert_eq!(qty("1").compatible_unit(&qty("2"), &Units), Ok(None));
    assert!(qty("1%g").compatible_unit(&qty("2%ml"), &Units).is_err());
}

#[test]
fn compatible_units_by_physical_quantity() {
    let l = "l".to_string();
    let kg = "kg".to_string();
    let bunch = "bunch".to_string();
    let volume = Some(PhysicalQuantity::Volume);
    let mass = Some(PhysicalQuantity::Mass);
    assert_eq!(compatible_units(&l, &l, volume, volume), Ok(volume));
    assert_eq!(
        compatible_units(&l, &kg, volume, mass),
        Err(IncompatibleUnits::DifferentPhysicalQuantities {
            a: PhysicalQuantity::Volume,
            b: PhysicalQuantity::Mass
        })
    );
    assert_eq!(compatible_units(&bunch, &bunch, None, None), Ok(None));
    // a unit known and the other not counts as unknown
    assert_eq!(
        compatible_units(&l, &bunch, volume, None),
        Err(IncompatibleUnits::UnknownDifferentUnits {
            a: l.clone(),
            b: bunch.clone()
        })
    );
    assert_eq!(compatible_units(&l, &l, volume, None), Ok(None));
}

#[test]
fn scaling_a_value() {
    let mut n = Value::Number(Num(2.0));
    n.scale(&Num(1.5));
    assert_eq!(n, Value::Number(Num(3.0)));
    let mut r = Value::Range {
        start: Num(1.0),
        end: Num(2.0),
    };
    r.scale(&Num(2.0));
    assert_eq!(
        r,
        Value::Range {
            start: Num(2.0),
            end: Num(4.0)
        }
    );
    let mut t = Value::<Num>::Text("to taste".to_string());
    t.scale(&Num(2.0));
    assert_eq!(t, Value::Text("to taste".to_string()));
}

#[test]
fn only_scalable_quantities_scale() {
    let mut fixed = qty("500%ml");
    fixed.scale(&Num(3.0), &Units);
    assert_eq!(number(fixed.value()), 500.0);
    assert_eq!(fixed.unit(), Some("ml"));

    let mut scalable = qty("500%ml");
    scalable.set_scalable(true);
    scalable.scale(&Num(3.0), &Units);
    // scaled, then fitted to the unit it reads best in
    assert_eq!(scalable.unit(), Some("l"));
    assert!(close(number(scalable.value()), 1.5));
    assert!(scalable.scalable());

    // a unit the converter does not know can't be fitted, it stays scaled
    let mut bunch = qty("2%bunch");
    bunch.set_scalable(true);
    bunch.scale(&Num(2.0), &Units);
    assert_eq!(bunch.unit(), Some("bunch"));
    assert_eq!(number(bunch.value()), 4.0);
}

#[test]
fn group_adds_compatible_quantities() {
    let g = grouped_qty(&["1%l", "500%ml", "2%bunch", "1%bunch", "3", "1-2"], &Units);
    let all = g.iter();
    assert_eq!(all.len(), 3);
    assert_eq!(all[0].unit(), Some("l"));
    assert!(close(number(all[0].value()), 1.5));
    assert_eq!(all[1].unit(), Some("bunch"));
    assert_eq!(number(all[1].value()), 3.0);
    assert_eq!(all[2].unit(), None);
    assert_eq!(range(all[2].value()), (4.0, 5.0));
    assert_eq!(g.len(), 3);
    assert!(!g.is_empty());
}

#[test]
fn group_keeps_apart_what_can_not_be_added() {
    let g = grouped_qty(&["some", "1%kg", "a lot"], &Units);
    let all = g.into_vec();
    assert_eq!(all.len(), 3);
    // known units first, then the quantities kept apart, in order
    assert_eq!(all[0].unit(), Some("kg"));
    assert_eq!(all[1].value(), &Value::Text("some".to_string()));
    assert_eq!(all[2].value(), &Value::Text("a lot".to_string()));
}

#[test]
fn group_orders_by_physical_quantity() {
    let g = grouped_qty(&["1%h", "3", "1%clove", "1%g", "1%l"], &Units);
    let units: Vec<Option<&str>> = g.iter().iter().map(|q| q.unit()).collect();
    assert_eq!(
        units,
        vec![Some("l"), Some("g"), Some("h"), Some("clove"), None]
    );
}

#[test]
fn empty_group() {
    let g = GroupedQuantity::<Num>::empty();
    assert!(g.is_empty());
    assert_eq!(g.len(), 0);
    assert!(g.iter().is_empty());
    assert!(g.into_vec().is_empty());
}

#[test]
fn merging_adds_every_quantity() {
    let mut a = grouped_qty(&["1%l", "2%bunch"], &Units);
    let b = grouped_qty(&["250%ml", "1%bunch", "1%kg", "some"], &Units);
    a.merge(&b, &Units);
    let expected = grouped_qty(&["1.25%l", "3%bunch", "1%kg", "some"], &Units);
    assert!(a.equals(&expected, &Units));
    assert_eq!(a.len(), 4);
}

#[test]
fn cloned_group_is_equal() {
    let g = grouped_qty(&["1%l", "2%bunch", "some", "3"], &Units);
    assert!(g.equals(&g, &Units));
    let c = g.clone();
    assert!(c.equals(&g, &Units));
    assert_eq!(c.len(), g.len());
}

#[test]
fn fitting_a_group() {
    let mut g = grouped_qty(&["1500%ml", "200%g", "2%bunch"], &Units);
    assert!(g.fit(&Units).is_ok());
    let all = g.into_vec();
    assert_eq!(all[0].unit(), Some("l"));
    assert!(close(number(all[0].value()), 1.5));
    assert_eq!(all[1].unit(), Some("g"));
    assert_eq!(number(all[1].value()), 200.0);
    // unknown units are never fitted
    assert_eq!(all[2].unit(), Some("bunch"));
}

#[test]
fn taking_errors() {
    let mut g = grouped_qty(&["1%l"], &Units);
    assert!(matches!(
        g.try_take(&qty("1%kg"), &Units),
        Err(GroupedQuantityOpError::NoCompatibleQuantity)
    ));
    assert!(matches!(
        g.try_take(&qty("some"), &Units),
        Err(GroupedQuantityOpError::Op(QuantityOpError::TextValue(_)))
    ));
    let mut with_text = grouped_qty(&["some%l"], &Units);
    assert!(matches!(
        with_text.try_take(&qty("1%l"), &Units),
        Err(GroupedQuantityOpError::NoCompatibleQuantity)
    ));
    assert_eq!(with_text.len(), 1);
}

#[test]
fn taking_clamps_a_range_start_at_zero() {
    let mut g = grouped_qty(&["1-3%l"], &Units);
    g.try_take(&qty("2%l"), &Units).unwrap();
    let all = g.into_vec();
    assert_eq!(all.len(), 1);
    assert_eq!(range(all[0].value()), (0.0, 1.0));
}

#[test]
fn timers_compare_in_meaning() {
    let timer = |name: Option<&str>, q: Option<&str>| Timer {
        name: name.map(str::to_string),
        quantity: q.map(qty),
    };
    assert!(timer(None, Some("1%h")).equals(&timer(None, Some("60%min")), &Units));
    assert!(!timer(None, Some("1%h")).equals(&timer(None, Some("59%min")), &Units));
    assert!(timer(Some("rest"), None).equals(&timer(Some("rest"), None), &Units));
    assert!(!timer(Some("rest"), None).equals(&timer(Some("bake"), None), &Units));
    assert!(!timer(Some("rest"), Some("1%h")).equals(&timer(Some("rest"), None), &Units));
}

#[test]
fn comma_separated_display() {
    assert_eq!(display_comma_separated(&vec![]), "");
    assert_eq!(display_comma_separated(&vec!["1 l".to_string()]), "1 l");
    assert_eq!(
        display_comma_separated(&vec!["1.2 kg".to_string(), "1 bag".to_string()]),
        "1.2 kg, 1 bag"
    );
}

#[test]
fn taking_an_empty_group_succeeds() {
    let mut g = grouped_qty(&["1%l", "2%bunch"], &Units);
    assert!(g
        .try_take_group(&GroupedQuantity::empty(), &Units)
        .is_ok());
    assert!(g.equals(&grouped_qty(&["1%l", "2%bunch"], &Units), &Units));
}

#[test]
fn compatibility_mirrors_when_swapped() {
    let pairs = [("1%l", "1"), ("1%l", "1%kg"), ("1%bunch", "1%clove"), ("1%l", "1%ml")];
    for (a, b) in pairs {
        let one = qty(a).compatible_unit(&qty(b), &Units);
        let other = qty(b).compatible_unit(&qty(a), &Units);
        match (one, other) {
            (Ok(x), Ok(y)) => assert_eq!(x, y),
            (Err(IncompatibleUnits::MissingUnit { found: f1, lhs: l1 }),
             Err(IncompatibleUnits::MissingUnit { found: f2, lhs: l2 })) => {
                assert_eq!(f1, f2);
                assert_eq!(l1, !l2);
            }
            (Err(IncompatibleUnits::DifferentPhysicalQuantities { a: a1, b: b1 }),
             Err(IncompatibleUnits::DifferentPhysicalQuantities { a: a2, b: b2 })) => {
                assert_eq!((a1, b1), (b2, a2));
            }
            (Err(IncompatibleUnits::UnknownDifferentUnits { a: a1, b: b1 }),
             Err(IncompatibleUnits::UnknownDifferentUnits { a: a2, b: b2 })) => {
                assert_eq!((a1, b1), (b2, a2));
            }
            (x, y) => panic!("not mirrored: {x:?} {y:?}"),
        }
    }
}

#[test]
fn quantities_equal_whatever_their_scaling() {
    let mut a = qty("2%kg");
    let b = qty("2%kg");
    a.set_scalable(true);
    assert!(a == b);
    assert!(qty("1-2%l") == qty("1-2%l"));
    assert!(qty("some") == qty("some"));
    assert!(qty("2%kg") != qty("2%g"));
    assert!(qty("2%kg") != qty("2"));
    assert!(qty("2%kg") != qty("3%kg"));
    assert!(qty("2") != qty("2-3"));
}

#[test]
fn scaling_recipe_quantities() {
    let scalable = |s: &str| {
        let mut q = qty(s);
        q.set_scalable(true);
        q
    };
    let mut ingredients: Vec<Ingredient<Num, ()>> = Vec::new();
    let mut cookware: Vec<Cookware<Num, ()>> = Vec::new();
    let mut timers = vec![
        Timer {
            name: Some("boil".to_string()),
            quantity: Some(scalable("90%min")),
        },
        Timer {
            name: Some("rest".to_string()),
            quantity: Some(qty("5%min")),
        },
        Timer {
            name: Some("wait".to_string()),
            quantity: None,
        },
    ];
    scale_quantities(&mut ingredients, &mut cookware, &mut timers, &Num(2.0), &Units);

    assert!(ingredients.is_empty() && cookware.is_empty());
    assert_eq!(timers.len(), 3);
    // 180 min read best in hours
    let boil = timers[0].quantity.as_ref().unwrap();
    assert_eq!(boil.unit(), Some("h"));
    assert!(close(number(boil.value()), 3.0));
    assert_eq!(timers[0].name.as_deref(), Some("boil"));
    // not scalable: as it was
    let rest = timers[1].quantity.as_ref().unwrap();
    assert_eq!(rest.unit(), Some("min"));
    assert_eq!(number(rest.value()), 5.0);
    assert!(timers[2].quantity.is_none());
}
