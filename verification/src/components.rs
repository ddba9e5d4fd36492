//! The ingredients and cookware of a recipe: the name they are shown with,
//! their comparison in meaning and the quantities gathered from a component
//! and the components referencing it.

use vstd::prelude::*;

use crate::model::{
    same_relation, same_text, text_eq, ComponentRelation, IngredientRelation, RecipeReference,
};
use crate::paths::{self, relative_normalize, relative_path_eq};
use crate::quantity::{
    add_outcome, adds_all, derefs, empty_group, fit_outcome, present, slot_for, Amount,
    GroupState, GroupedQuantity, PhysicalQuantity, Quantity, UnitConverter,
};
use crate::semantic_eq::SemanticEq;

verus! {

/// What the library reads of the modifiers a component is written with,
/// which the parser sets
pub trait ComponentModifiers: Copy {
    /// Whether the component refers to another recipe
    fn is_recipe(&self) -> bool;
}

/// The quantities of a component, `own`, and of the components referencing
/// it, `refs`, looked up in the quantities of all the components,
/// `quantities`: those present, in that order
pub open spec fn gathered<N>(
    own: Option<Quantity<N>>,
    refs: Seq<usize>,
    quantities: Seq<Option<Quantity<N>>>,
) -> Seq<Quantity<N>> {
    present(seq![own] + refs.map_values(|i: usize| quantities[i as int]))
}

/// Adding the quantities `items` to an empty group and fitting it, with the
/// converter, can give `g`
pub open spec fn grouped<N: Amount, C: UnitConverter<N>>(
    converter: &C,
    items: Seq<Quantity<N>>,
    g: GroupState<N>,
) -> bool {
    exists|added: GroupState<N>, r: Result<(), C::Error>|
        #![trigger adds_all(converter, empty_group::<N>(), items, added), fit_outcome(converter, added, g, r)]
        {
            &&& adds_all(converter, empty_group::<N>(), items, added)
            &&& fit_outcome(converter, added, g, r)
        }
}

/// The options a sequence of references to options refers to
pub open spec fn options_of<N>(s: Seq<&Option<Quantity<N>>>) -> Seq<Option<Quantity<N>>> {
    Seq::new(s.len(), |i: int| *s[i])
}

/// The values present in a sequence of options grow by the value of an
/// option pushed at its end
proof fn lemma_present_push<T>(s: Seq<Option<T>>, x: Option<T>)
    ensures
        present(s.push(x)) == match x {
            Some(v) => present(s).push(v),
            None => present(s),
        },
{
    assert(s.push(x).drop_last() =~= s);
}

/// The quantities of `own` and then those of the components at the indices
/// `refs` of `quantities`
fn gather<'a, N>(
    own: &'a Option<Quantity<N>>,
    refs: &[usize],
    quantities: &Vec<&'a Option<Quantity<N>>>,
) -> (r: Vec<&'a Quantity<N>>)
    requires
        forall|k: int| 0 <= k < refs@.len() ==> refs@[k] < quantities@.len(),
    ensures
        derefs(r@) == gathered(*own, refs@, options_of(quantities@)),
{
    let ghost all = options_of(quantities@);
    let ghost options = seq![*own] + refs@.map_values(|i: usize| all[i as int]);
    let mut r: Vec<&Quantity<N>> = Vec::new();
    proof {
        lemma_present_push(Seq::<Option<Quantity<N>>>::empty(), *own);
        assert(options.take(1) =~= Seq::<Option<Quantity<N>>>::empty().push(*own));
        assert(present(Seq::<Option<Quantity<N>>>::empty()) =~= Seq::<Quantity<N>>::empty());
    }
    match own {
        Some(q) => {
            r.push(q);
        },
        None => {},
    }
    assert(derefs(r@) =~= present(options.take(1)));
    let mut k: usize = 0;
    while k < refs.len()
        invariant
            k <= refs@.len(),
            forall|j: int| 0 <= j < refs@.len() ==> refs@[j] < quantities@.len(),
            all == options_of(quantities@),
            options == seq![*own] + refs@.map_values(|i: usize| all[i as int]),
            derefs(r@) == present(options.take(k + 1)),
        decreases refs@.len() - k,
    {
        let i = refs[k];
        let ghost before = r@;
        proof {
            assert(options.take(k + 2) =~= options.take(k + 1).push(*quantities@[i as int]));
            lemma_present_push(options.take(k + 1), *quantities@[i as int]);
        }
        match quantities[i] {
            Some(q) => {
                r.push(q);
                assert(derefs(r@) =~= derefs(before).push(*q));
            },
            None => {},
        }
        k = k + 1;
    }
    assert(options.take(k + 1) =~= options);
    r
}

/// Adds the quantities `items` to an empty group, in order, and fits it
fn group<N: Amount, C: UnitConverter<N>>(items: &Vec<&Quantity<N>>, converter: &C) -> (g:
    GroupedQuantity<N>)
    ensures
        g@.wf(),
        grouped(converter, derefs(items@), g@),
{
    let mut g = GroupedQuantity::empty();
    let mut i: usize = 0;
    assert(derefs(items@).take(0) =~= Seq::<Quantity<N>>::empty());
    while i < items.len()
        invariant
            i <= items@.len(),
            g@.wf(),
            adds_all(converter, empty_group::<N>(), derefs(items@).take(i as int), g@),
        decreases items@.len() - i,
    {
        let ghost before = g@;
        g.add(items[i], converter);
        proof {
            let added = derefs(items@).take(i + 1);
            assert(added.drop_last() =~= derefs(items@).take(i as int));
            assert(added.last() == *items@[i as int]);
            let kind = choose|kind: Option<PhysicalQuantity>|
                add_outcome(converter, before, g@, *items@[i as int], slot_for(*items@[i as int], kind));
            assert(add_outcome(converter, before, g@, added.last(), slot_for(added.last(), kind)));
            assert(adds_all(converter, empty_group::<N>(), added, g@));
        }
        i = i + 1;
    }
    assert(derefs(items@).take(i as int) =~= derefs(items@));
    let ghost added = g@;
    let fit = g.fit(converter);
    assert(fit_outcome(converter, added, g@, fit));
    g
}

/// A recipe cookware item
#[derive(Debug)]
pub struct Cookware<N, M> {
    /// Name
    pub name: String,
    /// Alias
    pub alias: Option<String>,
    /// Amount needed
    ///
    /// Note that this is a value, not a quantity, so it doesn't have units.
    pub quantity: Option<Quantity<N>>,
    /// Note
    pub note: Option<String>,
    /// How the cookware is related to others
    pub relation: ComponentRelation,
    /// The modifiers it is written with
    pub modifiers: M,
}

/// The quantities of a list of cookware items
pub open spec fn cookware_quantities<N, M>(all: Seq<Cookware<N, M>>) -> Seq<Option<Quantity<N>>> {
    all.map_values(|c: Cookware<N, M>| c.quantity)
}

/// Two cookware items are equal in meaning: the same name, alias, note,
/// relation and modifiers, and quantities equal in meaning
pub open spec fn cookware_equal<N, M, C>(a: Cookware<N, M>, b: Cookware<N, M>, converter: &C) -> bool
    where Quantity<N>: SemanticEq<C>, M: SemanticEq<C>,
{
    &&& a.name@ == b.name@
    &&& same_text(a.alias, b.alias)
    &&& same_text(a.note, b.note)
    &&& same_relation(a.relation, b.relation)
    &&& a.modifiers.semantically_equals(&b.modifiers, converter)
    &&& a.quantity.semantically_equals(&b.quantity, converter)
}

impl<N, M> Cookware<N, M> {
    /// Gets the name the cookware item should be displayed with: its alias
    /// if it has one
    pub fn display_name(&self) -> (r: &str)
        ensures
            r@ == match self.alias {
                Some(alias) => alias@,
                None => self.name@,
            },
    {
        match &self.alias {
            Some(alias) => alias.as_str(),
            None => self.name.as_str(),
        }
    }

    /// Access the cookware modifiers
    pub fn modifiers(&self) -> (r: M)
        where M: Copy,
        ensures
            r == self.modifiers,
    {
        self.modifiers
    }

    /// Gets all the quantities of this item and of the items referencing it,
    /// in that order
    ///
    /// The items referencing it are looked up in `all_cookware`.
    pub fn all_quantities<'a>(&'a self, all_cookware: &'a [Self]) -> (r: Vec<&'a Quantity<N>>)
        requires
            forall|k: int|
                0 <= k < self.relation.referenced_from_spec().len() ==> #[trigger] self.relation.referenced_from_spec()[k]
                    < all_cookware@.len(),
        ensures
            derefs(r@) == gathered(
                self.quantity,
                self.relation.referenced_from_spec(),
                cookware_quantities(all_cookware@),
            ),
    {
        let mut quantities: Vec<&Option<Quantity<N>>> = Vec::new();
        let mut i: usize = 0;
        while i < all_cookware.len()
            invariant
                i <= all_cookware@.len(),
                quantities@.len() == i,
                forall|j: int| 0 <= j < i ==> *quantities@[j] == (#[trigger] all_cookware@[j]).quantity,
            decreases all_cookware@.len() - i,
        {
            quantities.push(&all_cookware[i].quantity);
            i = i + 1;
        }
        assert(options_of(quantities@) =~= cookware_quantities(all_cookware@));
        gather(&self.quantity, self.relation.referenced_from(), &quantities)
    }

    /// Groups all the quantities of this item and of the items referencing
    /// it, as [`Cookware::all_quantities`] gives them: each is added to an
    /// empty group, which is then fitted
    pub fn group_quantities<C: UnitConverter<N>>(&self, all_cookware: &[Self], converter: &C) -> (g:
        GroupedQuantity<N>)
        where N: Amount,
        requires
            forall|k: int|
                0 <= k < self.relation.referenced_from_spec().len() ==> #[trigger] self.relation.referenced_from_spec()[k]
                    < all_cookware@.len(),
        ensures
            g@.wf(),
            grouped(
                converter,
                gathered(
                    self.quantity,
                    self.relation.referenced_from_spec(),
                    cookware_quantities(all_cookware@),
                ),
                g@,
            ),
    {
        let quantities = self.all_quantities(all_cookware);
        group(&quantities, converter)
    }

    /// Compares two cookware items in meaning: the quantities are compared
    /// with [`SemanticEq`], so `1 l` equals `1000 ml`
    pub fn equals<C>(&self, other: &Self, converter: &C) -> (r: bool)
        where Quantity<N>: SemanticEq<C>, M: SemanticEq<C>,
        ensures
            r == cookware_equal(*self, *other, converter),
    {
        SemanticEq::equals(self, other, converter)
    }
}

impl<N, M, C> SemanticEq<C> for Cookware<N, M> where Quantity<N>: SemanticEq<C>, M: SemanticEq<C> {
    open spec fn semantically_equals(&self, other: &Self, converter: &C) -> bool {
        cookware_equal(*self, *other, converter)
    }

    fn equals(&self, other: &Self, converter: &C) -> (r: bool) {
        self.name.eq(&other.name) && text_eq(&self.alias, &other.alias) && text_eq(
            &self.note,
            &other.note,
        ) && self.relation == other.relation && self.modifiers.equals(&other.modifiers, converter)
            && self.quantity.equals(&other.quantity, converter)
    }
}

/// A recipe ingredient
#[derive(Debug)]
pub struct Ingredient<N, M> {
    /// Name
    ///
    /// This can have the form of a path if the ingredient references a recipe.
    pub name: String,
    /// Alias
    pub alias: Option<String>,
    /// Quantity
    pub quantity: Option<Quantity<N>>,
    /// Note
    pub note: Option<String>,
    /// Recipe reference
    pub reference: Option<RecipeReference>,
    /// How the ingredient is related to others
    pub relation: IngredientRelation,
    /// The modifiers it is written with
    pub modifiers: M,
    /// The recipe the ingredient comes from
    pub source: Option<RecipeReference>,
}

/// The quantities of a list of ingredients
pub open spec fn ingredient_quantities<N, M>(all: Seq<Ingredient<N, M>>) -> Seq<Option<Quantity<N>>> {
    all.map_values(|i: Ingredient<N, M>| i.quantity)
}

/// Two optional recipe references are equal: both missing, or both there
/// with paths equal once normalized
pub open spec fn same_reference(a: Option<RecipeReference>, b: Option<RecipeReference>) -> bool {
    match (a, b) {
        (Some(x), Some(y)) => relative_path_eq(relative_normalize(x.path()), relative_normalize(y.path())),
        (None, None) => true,
        _ => false,
    }
}

fn reference_eq(a: &Option<RecipeReference>, b: &Option<RecipeReference>) -> (r: bool)
    ensures
        r == same_reference(*a, *b),
{
    match (a, b) {
        (Some(x), Some(y)) => *x == *y,
        (None, None) => true,
        _ => false,
    }
}

/// Two ingredients are equal in meaning: the same name, alias, note,
/// relation, recipe reference and modifiers, and quantities equal in meaning.
/// Where the ingredient comes from is not compared.
pub open spec fn ingredients_equal<N, M, C>(
    a: Ingredient<N, M>,
    b: Ingredient<N, M>,
    converter: &C,
) -> bool
    where Quantity<N>: SemanticEq<C>, M: SemanticEq<C>,
{
    &&& a.name@ == b.name@
    &&& same_text(a.alias, b.alias)
    &&& same_text(a.note, b.note)
    &&& a.relation.target() == b.relation.target()
    &&& same_relation(a.relation.relation(), b.relation.relation())
    &&& same_reference(a.reference, b.reference)
    &&& a.modifiers.semantically_equals(&b.modifiers, converter)
    &&& a.quantity.semantically_equals(&b.quantity, converter)
}

impl<N, M> Ingredient<N, M> {
    /// Gets the name the ingredient should be displayed with
    ///
    /// That is its alias if it has one; otherwise, for an ingredient that
    /// refers to a recipe, the stem of the recipe's path, and its name for
    /// the others.
    pub fn display_name(&self) -> (r: &str)
        where M: ComponentModifiers,
        ensures
            match self.alias {
                Some(alias) => r@ == alias@,
                None => {
                    ||| {
                        &&& r@ == self.name@
                        &&& call_ensures(M::is_recipe, (&self.modifiers,), false)
                            || paths::path_stem(self.name, None)
                    }
                    ||| {
                        &&& call_ensures(M::is_recipe, (&self.modifiers,), true)
                        &&& paths::path_stem(self.name, Some(r))
                    }
                },
            },
    {
        if let Some(alias) = &self.alias {
            return alias.as_str();
        }
        if self.modifiers.is_recipe() {
            if let Some(stem) = paths::stem_of(&self.name) {
                return stem;
            }
        }
        self.name.as_str()
    }

    /// Access the ingredient modifiers
    pub fn modifiers(&self) -> (r: M)
        where M: Copy,
        ensures
            r == self.modifiers,
    {
        self.modifiers
    }

    /// Gets all the quantities of this ingredient and of the ingredients
    /// referencing it, in that order
    ///
    /// The ingredients referencing it are looked up in `all_ingredients`.
    pub fn all_quantities<'a>(&'a self, all_ingredients: &'a [Self]) -> (r: Vec<&'a Quantity<N>>)
        requires
            forall|k: int|
                0 <= k < self.relation.relation().referenced_from_spec().len() ==> #[trigger] self.relation.relation().referenced_from_spec()[k]
                    < all_ingredients@.len(),
        ensures
            derefs(r@) == gathered(
                self.quantity,
                self.relation.relation().referenced_from_spec(),
                ingredient_quantities(all_ingredients@),
            ),
    {
        let mut quantities: Vec<&Option<Quantity<N>>> = Vec::new();
        let mut i: usize = 0;
        while i < all_ingredients.len()
            invariant
                i <= all_ingredients@.len(),
                quantities@.len() == i,
                forall|j: int| 0 <= j < i ==> *quantities@[j] == (#[trigger] all_ingredients@[j]).quantity,
            decreases all_ingredients@.len() - i,
        {
            quantities.push(&all_ingredients[i].quantity);
            i = i + 1;
        }
        assert(options_of(quantities@) =~= ingredient_quantities(all_ingredients@));
        gather(&self.quantity, self.relation.referenced_from(), &quantities)
    }

    /// Groups all the quantities of this ingredient and of the ingredients
    /// referencing it, as [`Ingredient::all_quantities`] gives them: each is
    /// added to an empty group, which is then fitted
    pub fn group_quantities<C: UnitConverter<N>>(&self, all_ingredients: &[Self], converter: &C) -> (g:
        GroupedQuantity<N>)
        where N: Amount,
        requires
            forall|k: int|
                0 <= k < self.relation.relation().referenced_from_spec().len() ==> #[trigger] self.relation.relation().referenced_from_spec()[k]
                    < all_ingredients@.len(),
        ensures
            g@.wf(),
            grouped(
                converter,
                gathered(
                    self.quantity,
                    self.relation.relation().referenced_from_spec(),
                    ingredient_quantities(all_ingredients@),
                ),
                g@,
            ),
    {
        let quantities = self.all_quantities(all_ingredients);
        group(&quantities, converter)
    }

    /// Compares two ingredients in meaning: the quantity is compared with
    /// [`SemanticEq`], so `500 g` equals `0.5 kg`
    ///
    /// Where the ingredients come from is not part of the comparison: it
    /// records which file the ingredient came from, not what it is.
    pub fn equals<C>(&self, other: &Self, converter: &C) -> (r: bool)
        where Quantity<N>: SemanticEq<C>, M: SemanticEq<C>,
        ensures
            r == ingredients_equal(*self, *other, converter),
    {
        SemanticEq::equals(self, other, converter)
    }
}

impl<N, M, C> SemanticEq<C> for Ingredient<N, M> where Quantity<N>: SemanticEq<C>, M: SemanticEq<C> {
    open spec fn semantically_equals(&self, other: &Self, converter: &C) -> bool {
        ingredients_equal(*self, *other, converter)
    }

    fn equals(&self, other: &Self, converter: &C) -> (r: bool) {
        self.name.eq(&other.name) && text_eq(&self.alias, &other.alias) && text_eq(
            &self.note,
            &other.note,
        ) && self.relation == other.relation && reference_eq(&self.reference, &other.reference)
            && self.modifiers.equals(&other.modifiers, converter) && self.quantity.equals(
            &other.quantity,
            converter,
        )
    }
}

/// Ingredients equal in meaning are the same ingredient: the same name,
/// alias, note, relation and recipe reference, with modifiers and quantities
/// equal in meaning. So two ingredients with different names are never
/// equal, whatever their quantities.
pub proof fn lemma_equal_ingredients_agree<N, M, C>(a: Ingredient<N, M>, b: Ingredient<N, M>, converter: &C)
    where Quantity<N>: SemanticEq<C>, M: SemanticEq<C>,
    requires
        ingredients_equal(a, b, converter),
    ensures
        a.name@ == b.name@,
        same_text(a.alias, b.alias),
        same_text(a.note, b.note),
        a.relation.target() == b.relation.target(),
        same_relation(a.relation.relation(), b.relation.relation()),
        same_reference(a.reference, b.reference),
        a.modifiers.semantically_equals(&b.modifiers, converter),
        a.quantity.semantically_equals(&b.quantity, converter),
{
}

/// Cookware items equal in meaning are the same item: the same name, alias,
/// note and relation, with modifiers and quantities equal in meaning. So two
/// items with different names are never equal, whatever their quantities.
pub proof fn lemma_equal_cookware_agree<N, M, C>(a: Cookware<N, M>, b: Cookware<N, M>, converter: &C)
    where Quantity<N>: SemanticEq<C>, M: SemanticEq<C>,
    requires
        cookware_equal(a, b, converter),
    ensures
        a.name@ == b.name@,
        same_text(a.alias, b.alias),
        same_text(a.note, b.note),
        same_relation(a.relation, b.relation),
        a.modifiers.semantically_equals(&b.modifiers, converter),
        a.quantity.semantically_equals(&b.quantity, converter),
{
}

} // verus!
