use cooklang::scale::scale_quantities;
use cooklang::components::{ComponentModifiers, Cookware, Ingredient};
use cooklang::model::{ComponentRelation, IngredientReferenceTarget, IngredientRelation, RecipeReference};
use cooklang::quantity::{Amount, PhysicalQuantity, Quantity, UnitConverter, Value};
use cooklang::semantic_eq::SemanticEq;

/// A plain floating point number
#[derive(Debug, Clone, Copy, PartialEq)]
struct Num(f64);

impl Amount for Num {
    fn plus(&self, rhs: &Self) -> Self {
        Num(self.0 + rhs.0)
    }
    fn minus(&self, rhs: &Self) -> Self {
        Num(self.0 - rhs.0)
    }
    fn at_most_zero(&self) -> bool {
        self.0 <= 0.0
    }
    fn below_zero(&self) -> bool {
        self.0 < 0.0
    }
    fn zero() -> Self {
        Num(0.0)
    }
    fn times(&self, factor: &Self) -> Self {
        Num(self.0 * factor.0)
    }
}

/// Grams and kilograms, millilitres and litres
struct Metric;

fn size(unit: &str) -> Option<(PhysicalQuantity, f64)> {
    match unit {
        "g" => Some((PhysicalQuantity::Mass, 1.0)),
        "kg" => Some((PhysicalQuantity::Mass, 1000.0)),
        "ml" => Some((PhysicalQuantity::Volume, 1.0)),
        "l" => Some((PhysicalQuantity::Volume, 1000.0)),
        _ => None,
    }
}

fn number(v: &Value<Num>) -> f64 {
    match v {
        Value::Number(n) => n.0,
        _ => panic!("not a number: {v:?}"),
    }
}

impl UnitConverter<Num> for Metric {
    type Error = String;

    fn physical_quantity(&self, unit: &str) -> Option<PhysicalQuantity> {
        size(unit).map(|(kind, _)| kind)
    }

    fn convert(&self, q: &Quantity<Num>, unit: &str) -> Result<Quantity<Num>, String> {
        match (q.unit().and_then(size), size(unit)) {
            (Some((a, from)), Some((b, to))) if a == b => {
                let mut c = q.clone();
                *c.value_mut() = Value::Number(Num(number(q.value()) * from / to));
                c.set_unit(Some(unit.to_string()));
                Ok(c)
            }
            _ => Err(unit.to_string()),
        }
    }

    fn fit(&self, q: &Quantity<Num>) -> Result<Quantity<Num>, String> {
        let (kind, from) = q.unit().and_then(size).ok_or_else(|| "unknown".to_string())?;
        let big = if kind == PhysicalQuantity::Mass { "kg" } else { "l" };
        let small = if kind == PhysicalQuantity::Mass { "g" } else { "ml" };
        if number(q.value()) * from >= 1000.0 {
            self.convert(q, big)
        } else {
            self.convert(q, small)
        }
    }
}

impl SemanticEq<Metric> for Quantity<Num> {
    fn equals(&self, other: &Self, converter: &Metric) -> bool {
        self.semantically_equals(other, converter)
    }

    fn semantically_equals(&self, other: &Self, _converter: &Metric) -> bool {
        let base = |q: &Quantity<Num>| match q.unit().and_then(size) {
            Some((kind, s)) => (Some(format!("{kind:?}")), number(q.value()) * s),
            None => (q.unit().map(str::to_string), number(q.value())),
        };
        let (ua, va) = base(self);
        let (ub, vb) = base(other);
        ua == ub && (va - vb).abs() < 1e-9
    }
}

/// Modifiers that only tell whether a component refers to a recipe
#[derive(Debug, Clone, Copy, PartialEq)]
struct Mods {
    recipe: bool,
}

impl ComponentModifiers for Mods {
    fn is_recipe(&self) -> bool {
        self.recipe
    }
}

impl SemanticEq<Metric> for Mods {
    fn equals(&self, other: &Self, converter: &Metric) -> bool {
        self.semantically_equals(other, converter)
    }

    fn semantically_equals(&self, other: &Self, _converter: &Metric) -> bool {
        self == other
    }
}

fn qty(value: f64, unit: &str) -> Quantity<Num> {
    Quantity::new(Value::Number(Num(value)), Some(unit.to_string()))
}

fn ingredient(name: &str, quantity: Option<Quantity<Num>>, relation: IngredientRelation) -> Ingredient<Num, Mods> {
    Ingredient {
        name: name.to_string(),
        alias: None,
        quantity,
        note: None,
        reference: None,
        relation,
        modifiers: Mods { recipe: false },
        source: None,
    }
}

fn cookware(name: &str, quantity: Option<Quantity<Num>>, relation: ComponentRelation) -> Cookware<Num, Mods> {
    Cookware {
        name: name.to_string(),
        alias: None,
        quantity,
        note: None,
        relation,
        modifiers: Mods { recipe: false },
    }
}

fn flour() -> Vec<Ingredient<Num, Mods>> {
    let to_flour = || IngredientRelation::reference(0, IngredientReferenceTarget::Ingredient);
    vec![
        ingredient(
            "flour",
            Some(qty(1000.0, "g")),
            IngredientRelation::definition(vec![1, 2], true),
        ),
        ingredient("flour", Some(qty(200.0, "g")), to_flour()),
        ingredient("flour", Some(qty(1.0, "bag")), to_flour()),
    ]
}

#[test]
fn ingredient_gathers_its_references() {
    let all = flour();
    let quantities = all[0].all_quantities(&all);
    let written: Vec<(f64, Option<&str>)> = quantities
        .iter()
        .map(|q| (number(q.value()), q.unit()))
        .collect();
    assert_eq!(
        written,
        vec![(1000.0, Some("g")), (200.0, Some("g")), (1.0, Some("bag"))]
    );
    // a reference has no references of its own
    assert_eq!(all[1].all_quantities(&all).len(), 1);
}

#[test]
fn ingredient_groups_its_quantities() {
    let all = flour();
    let grouped = all[0].group_quantities(&all, &Metric).into_vec();
    assert_eq!(grouped.len(), 2);
    // added, then fitted to kilograms
    assert_eq!(grouped[0].unit(), Some("kg"));
    assert!((number(grouped[0].value()) - 1.2).abs() < 1e-9);
    // a bag can't be added to kilograms
    assert_eq!(grouped[1].unit(), Some("bag"));
    assert_eq!(number(grouped[1].value()), 1.0);
}

#[test]
fn ingredient_without_quantities_groups_nothing() {
    let all = vec![ingredient("salt", None, IngredientRelation::definition(vec![], true))];
    assert!(all[0].all_quantities(&all).is_empty());
    assert!(all[0].group_quantities(&all, &Metric).is_empty());
}

#[test]
fn ingredient_display_name() {
    let mut salt = ingredient("salt", None, IngredientRelation::definition(vec![], true));
    assert_eq!(salt.display_name(), "salt");
    salt.alias = Some("sea salt".to_string());
    assert_eq!(salt.display_name(), "sea salt");

    let mut sauce = ingredient(
        "./sauces/tomato.cook",
        None,
        IngredientRelation::definition(vec![], true),
    );
    assert_eq!(sauce.display_name(), "./sauces/tomato.cook");
    // a recipe is shown by the stem of its path
    sauce.modifiers = Mods { recipe: true };
    assert_eq!(sauce.display_name(), "tomato");
    assert!(sauce.modifiers().is_recipe());
    sauce.alias = Some("the sauce".to_string());
    assert_eq!(sauce.display_name(), "the sauce");
}

#[test]
fn ingredients_compare_in_meaning() {
    let a = ingredient("flour", Some(qty(1.0, "kg")), IngredientRelation::definition(vec![], true));
    let mut b = ingredient("flour", Some(qty(1000.0, "g")), IngredientRelation::definition(vec![], true));
    assert!(a.equals(&b, &Metric));
    // where it comes from does not matter
    b.source = Some(RecipeReference::from("pasta").unwrap());
    assert!(a.equals(&b, &Metric));

    let mut c = ingredient("flour", Some(qty(1.0, "kg")), IngredientRelation::definition(vec![], true));
    c.note = Some("sifted".to_string());
    assert!(!a.equals(&c, &Metric));
    let mut d = ingredient("flour", Some(qty(1.0, "kg")), IngredientRelation::definition(vec![], true));
    d.modifiers = Mods { recipe: true };
    assert!(!a.equals(&d, &Metric));
    let e = ingredient("flour", Some(qty(900.0, "g")), IngredientRelation::definition(vec![], true));
    assert!(!a.equals(&e, &Metric));
    let f = ingredient("flour", Some(qty(1.0, "kg")), IngredientRelation::definition(vec![], false));
    assert!(!a.equals(&f, &Metric));

    let mut g = ingredient("sauce", None, IngredientRelation::definition(vec![], true));
    let mut h = ingredient("sauce", None, IngredientRelation::definition(vec![], true));
    g.reference = Some(RecipeReference::from("sauces/tomato").unwrap());
    h.reference = Some(RecipeReference::from("./sauces/tomato").unwrap());
    assert!(g.equals(&h, &Metric));
    h.reference = Some(RecipeReference::from("sauces/pesto").unwrap());
    assert!(!g.equals(&h, &Metric));
}

#[test]
fn cookware_display_name() {
    let mut pan = cookware("pan", None, ComponentRelation::Reference { references_to: 0 });
    assert_eq!(pan.display_name(), "pan");
    pan.alias = Some("frying pan".to_string());
    assert_eq!(pan.display_name(), "frying pan");
    assert_eq!(pan.modifiers(), Mods { recipe: false });
}

#[test]
fn cookware_gathers_and_groups() {
    let definition = ComponentRelation::Definition {
        referenced_from: vec![1],
        defined_in_step: true,
    };
    let all = vec![
        cookware("pot", Some(qty(600.0, "ml")), definition),
        cookware("pot", Some(qty(500.0, "ml")), ComponentRelation::Reference { references_to: 0 }),
    ];
    assert_eq!(all[0].all_quantities(&all).len(), 2);
    let grouped = all[0].group_quantities(&all, &Metric).into_vec();
    assert_eq!(grouped.len(), 1);
    assert_eq!(grouped[0].unit(), Some("l"));
    assert!((number(grouped[0].value()) - 1.1).abs() < 1e-9);
}

#[test]
fn cookware_compares_in_meaning() {
    let reference = || ComponentRelation::Reference { references_to: 2 };
    let a = cookware("pot", Some(qty(1.0, "l")), reference());
    let b = cookware("pot", Some(qty(1000.0, "ml")), reference());
    assert!(a.equals(&b, &Metric));
    let c = cookware("pan", Some(qty(1.0, "l")), reference());
    assert!(!a.equals(&c, &Metric));
    let d = cookware("pot", Some(qty(1.0, "l")), ComponentRelation::Reference { references_to: 3 });
    assert!(!a.equals(&d, &Metric));
    let e = cookware("pot", None, reference());
    assert!(!a.equals(&e, &Metric));
}

#[test]
fn scaling_ingredient_and_cookware_quantities() {
    let mut flour = qty(500.0, "g");
    flour.set_scalable(true);
    let mut ingredients = vec![
        ingredient("flour", Some(flour), IngredientRelation::definition(vec![], true)),
        ingredient("salt", Some(qty(5.0, "g")), IngredientRelation::definition(vec![], true)),
        ingredient("pepper", None, IngredientRelation::definition(vec![], true)),
    ];
    let mut pans = qty(1.0, "pan");
    pans.set_scalable(true);
    let mut tools = vec![cookware("pan", Some(pans), ComponentRelation::Definition { referenced_from: vec![], defined_in_step: true })];
    let mut timers = Vec::new();
    scale_quantities(&mut ingredients, &mut tools, &mut timers, &Num(3.0), &Metric);

    // 1500 g fitted to kilograms
    let flour = ingredients[0].quantity.as_ref().unwrap();
    assert_eq!(flour.unit(), Some("kg"));
    assert!((number(flour.value()) - 1.5).abs() < 1e-9);
    assert_eq!(ingredients[0].name, "flour");
    // not scalable
    let salt = ingredients[1].quantity.as_ref().unwrap();
    assert_eq!((salt.unit(), number(salt.value())), (Some("g"), 5.0));
    assert!(ingredients[2].quantity.is_none());
    // an unknown unit can't be fitted: scaled and kept as it is
    let pans = tools[0].quantity.as_ref().unwrap();
    assert_eq!((pans.unit(), number(pans.value())), (Some("pan"), 3.0));
    assert!(timers.is_empty());
}
