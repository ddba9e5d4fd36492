//! Recipe representation: sections, steps, items and the relations between
//! the components of a recipe.

use vstd::prelude::*;

use crate::quantity::Quantity;
use crate::semantic_eq::SemanticEq;
use crate::paths::{self, join_spec, relative_file_name, relative_normalize, relative_parent, relative_path_eq, relative_starts_with};

verus! {

/// A section holding steps
#[derive(Debug, Clone, PartialEq)]
pub struct Section {
    /// Name of the section
    pub name: Option<String>,
    /// Content inside
    pub content: Vec<Content>,
}

impl Section {
    /// Creates a section with the given name and no content
    pub fn new(name: Option<String>) -> (s: Section)
        ensures
            s.name == name,
            s.content@.len() == 0,
    {
        Section { name, content: Vec::new() }
    }

    /// Check if the section is empty
    ///
    /// A section is empty when it has no name and no content.
    pub fn is_empty(&self) -> (r: bool)
        ensures
            r == (self.name is None && self.content@.len() == 0),
    {
        self.name.is_none() && self.content.len() == 0
    }
}

/// Each type of content inside a section
#[derive(Debug, Clone, PartialEq)]
pub enum Content {
    /// A step
    Step(Step),
    /// A paragraph of just text, no instructions
    Text(String),
}

impl Content {
    /// Checks if the content is a regular step
    pub fn is_step(&self) -> (r: bool)
        ensures
            r == (self is Step),
    {
        match self {
            Content::Step(_) => true,
            Content::Text(_) => false,
        }
    }

    /// Checks if the content is a text paragraph
    pub fn is_text(&self) -> (r: bool)
        ensures
            r == (self is Text),
    {
        match self {
            Content::Step(_) => false,
            Content::Text(_) => true,
        }
    }

    /// Gets the inner step
    ///
    /// The content has to be a step.
    pub fn unwrap_step(&self) -> (s: &Step)
        requires
            self is Step,
        ensures
            *s == self->Step_0,
    {
        match self {
            Content::Step(s) => s,
            Content::Text(_) => {
                proof {
                    assert(false);
                }
                unreached()
            },
        }
    }

    /// Gets the inner text
    ///
    /// The content has to be a text paragraph.
    pub fn unwrap_text(&self) -> (t: &str)
        requires
            self is Text,
        ensures
            t@ == self->Text_0@,
    {
        match self {
            Content::Step(_) => {
                proof {
                    assert(false);
                }
                unreached()
            },
            Content::Text(t) => t.as_str(),
        }
    }
}

/// A step holding step [`Item`]s
#[derive(Debug, Clone, PartialEq)]
pub struct Step {
    /// [`Item`]s inside
    pub items: Vec<Item>,
    /// Step number
    ///
    /// The step numbers start at 1 in each section and increase with non
    /// text step.
    pub number: u32,
}

/// A step item
///
/// Except for [`Item::Text`], the value is the index where the item is located
/// in its corresponding list of the recipe.
#[derive(Debug, Clone, PartialEq)]
pub enum Item {
    /// Just plain text
    Text { value: String },
    Ingredient { index: usize },
    Cookware { index: usize },
    Timer { index: usize },
    InlineQuantity { index: usize },
}

/// Relation between components
#[derive(Debug, Clone)]
pub enum ComponentRelation {
    /// The component is a definition
    Definition {
        /// List of indices of other components of the same kind referencing
        /// this one
        referenced_from: Vec<usize>,
        /// True if the definition was in a step
        ///
        /// This is only false for components defined in components mode.
        defined_in_step: bool,
    },
    /// The component is a reference
    Reference {
        /// Index of the definition component
        references_to: usize,
    },
}

impl ComponentRelation {
    /// The components referencing this one: empty for a reference
    pub open spec fn referenced_from_spec(&self) -> Seq<usize> {
        match self {
            ComponentRelation::Definition { referenced_from, .. } => referenced_from@,
            ComponentRelation::Reference { .. } => Seq::empty(),
        }
    }

    /// The index this relation references, `None` for a definition
    pub open spec fn references_to_spec(&self) -> Option<usize> {
        match self {
            ComponentRelation::Definition { .. } => None,
            ComponentRelation::Reference { references_to } => Some(*references_to),
        }
    }

    /// Whether a definition was in a step, `None` for a reference
    pub open spec fn defined_in_step_spec(&self) -> Option<bool> {
        match self {
            ComponentRelation::Definition { defined_in_step, .. } => Some(*defined_in_step),
            ComponentRelation::Reference { .. } => None,
        }
    }

    /// Gets a list of the components referencing this one.
    ///
    /// Returns a list of indices to the corresponding list in the recipe.
    pub fn referenced_from(&self) -> (r: &[usize])
        ensures
            r@ == self.referenced_from_spec(),
    {
        match self {
            ComponentRelation::Definition { referenced_from, .. } => referenced_from.as_slice(),
            ComponentRelation::Reference { .. } => &[],
        }
    }

    /// Get the index the relations references to
    pub fn references_to(&self) -> (r: Option<usize>)
        ensures
            r == self.references_to_spec(),
    {
        match self {
            ComponentRelation::Definition { .. } => None,
            ComponentRelation::Reference { references_to } => Some(*references_to),
        }
    }

    /// Check if the relation is a reference
    pub fn is_reference(&self) -> (r: bool)
        ensures
            r == (self is Reference),
    {
        match self {
            ComponentRelation::Definition { .. } => false,
            ComponentRelation::Reference { .. } => true,
        }
    }

    /// Check if the relation is a definition
    pub fn is_definition(&self) -> (r: bool)
        ensures
            r == (self is Definition),
    {
        match self {
            ComponentRelation::Definition { .. } => true,
            ComponentRelation::Reference { .. } => false,
        }
    }

    /// Checks if the definition was in a step
    ///
    /// Returns None for references
    pub fn is_defined_in_step(&self) -> (r: Option<bool>)
        ensures
            r == self.defined_in_step_spec(),
    {
        match self {
            ComponentRelation::Definition { defined_in_step, .. } => Some(*defined_in_step),
            ComponentRelation::Reference { .. } => None,
        }
    }
}

/// Two relations are the same: both definitions with the same components
/// referencing them and defined in the same place, or both references to the
/// same component
pub open spec fn same_relation(a: ComponentRelation, b: ComponentRelation) -> bool {
    match (a, b) {
        (
            ComponentRelation::Definition { referenced_from: x, defined_in_step: d },
            ComponentRelation::Definition { referenced_from: y, defined_in_step: e },
        ) => x@ == y@ && d == e,
        (
            ComponentRelation::Reference { references_to: i },
            ComponentRelation::Reference { references_to: j },
        ) => i == j,
        _ => false,
    }
}

/// Two lists of indices hold the same indices in the same order
fn same_indices(a: &Vec<usize>, b: &Vec<usize>) -> (r: bool)
    ensures
        r == (a@ == b@),
{
    if a.len() != b.len() {
        return false;
    }
    let mut i: usize = 0;
    while i < a.len()
        invariant
            a@.len() == b@.len(),
            i <= a@.len(),
            forall|j: int| 0 <= j < i ==> a@[j] == b@[j],
        decreases a@.len() - i,
    {
        if a[i] != b[i] {
            return false;
        }
        i = i + 1;
    }
    assert(a@ =~= b@);
    true
}

impl PartialEq for ComponentRelation {
    fn eq(&self, other: &Self) -> (r: bool) {
        match (self, other) {
            (
                ComponentRelation::Definition { referenced_from: x, defined_in_step: d },
                ComponentRelation::Definition { referenced_from: y, defined_in_step: e },
            ) => *d == *e && same_indices(x, y),
            (
                ComponentRelation::Reference { references_to: i },
                ComponentRelation::Reference { references_to: j },
            ) => *i == *j,
            _ => false,
        }
    }
}

impl vstd::std_specs::cmp::PartialEqSpecImpl for ComponentRelation {
    open spec fn obeys_eq_spec() -> bool {
        true
    }

    open spec fn eq_spec(&self, other: &Self) -> bool {
        same_relation(*self, *other)
    }
}

/// The components referencing a definition, to change them; `None` for a
/// reference
fn definition_refs_mut(relation: &mut ComponentRelation) -> (r: Option<&mut Vec<usize>>)
    ensures
        match *old(relation) {
            ComponentRelation::Definition { referenced_from, defined_in_step } => {
                &&& r is Some
                &&& *r->0 == referenced_from
                &&& *final(relation) == (ComponentRelation::Definition {
                    referenced_from: *final(r->0),
                    defined_in_step,
                })
            },
            ComponentRelation::Reference { .. } => {
                &&& r is None
                &&& *final(relation) == *old(relation)
            },
        },
    no_unwind
{
    match relation {
        ComponentRelation::Definition { referenced_from, .. } => Some(referenced_from),
        ComponentRelation::Reference { .. } => None,
    }
}

/// Target an ingredient reference references to
///
/// This is obtained from [`IngredientRelation::references_to`]
#[derive(Debug, Clone, Copy, PartialEq, Eq, Hash, Structural)]
pub enum IngredientReferenceTarget {
    /// Ingredient definition
    Ingredient,
    /// Step in the current section
    Step,
    /// Section in the current recipe
    Section,
}

/// Same as [`ComponentRelation`] but with the ability to reference steps and
/// sections apart from other ingredients.
///
/// A reference always knows its target and a definition never has one.
#[derive(Debug)]
pub struct IngredientRelation {
    relation: ComponentRelation,
    reference_target: Option<IngredientReferenceTarget>,
}

impl IngredientRelation {
    /// A reference has a target, a definition has none
    #[verifier::type_invariant]
    closed spec fn wf(self) -> bool {
        (self.relation is Reference) == (self.reference_target is Some)
    }

    /// The relation to the other components
    pub closed spec fn relation(self) -> ComponentRelation {
        self.relation
    }

    /// The target of a reference, `None` for a definition
    pub closed spec fn target(self) -> Option<IngredientReferenceTarget> {
        self.reference_target
    }

    /// Creates the relation of an ingredient definition
    pub fn definition(referenced_from: Vec<usize>, defined_in_step: bool) -> (r: Self)
        ensures
            r.relation() == (ComponentRelation::Definition { referenced_from, defined_in_step }),
            r.target() is None,
    {
        IngredientRelation {
            relation: ComponentRelation::Definition { referenced_from, defined_in_step },
            reference_target: None,
        }
    }

    /// Creates the relation of an ingredient reference
    pub fn reference(references_to: usize, reference_target: IngredientReferenceTarget) -> (r:
        Self)
        ensures
            r.relation() == (ComponentRelation::Reference { references_to }),
            r.target() == Some(reference_target),
    {
        IngredientRelation {
            relation: ComponentRelation::Reference { references_to },
            reference_target: Some(reference_target),
        }
    }

    /// Gets a list of the components referencing this one.
    ///
    /// Returns a list of indices to the corresponding list in the recipe.
    pub fn referenced_from(&self) -> (r: &[usize])
        ensures
            r@ == self.relation().referenced_from_spec(),
    {
        self.relation.referenced_from()
    }

    /// Gives mutable access to the list of components referencing a
    /// definition, `None` for a reference
    pub fn referenced_from_mut(&mut self) -> (r: Option<&mut Vec<usize>>)
        ensures
            match old(self).relation() {
                ComponentRelation::Definition { referenced_from, defined_in_step } => {
                    &&& r is Some
                    &&& *r->0 == referenced_from
                    &&& final(self).relation() == (ComponentRelation::Definition {
                        referenced_from: *final(r->0),
                        defined_in_step,
                    })
                    &&& final(self).target() == old(self).target()
                },
                ComponentRelation::Reference { .. } => {
                    &&& r is None
                    &&& *final(self) == *old(self)
                },
            },
    {
        proof {
            use_type_invariant(&*self);
        }
        definition_refs_mut(&mut self.relation)
    }

    /// The full relation spelled out: index and target of a reference
    pub open spec fn references_to_spec(self) -> Option<(usize, IngredientReferenceTarget)> {
        match self.relation().references_to_spec() {
            Some(index) => Some((index, self.target()->0)),
            None => None,
        }
    }

    /// Get the index the relation refrences to and the target
    ///
    /// The index points into the ingredients of the recipe, the content of
    /// the section this ingredient is in (always a step) or the sections of
    /// the recipe, depending on the target.
    pub fn references_to(&self) -> (r: Option<(usize, IngredientReferenceTarget)>)
        ensures
            r == self.references_to_spec(),
            r is Some == (self.relation() is Reference),
            r is Some ==> self.target() == Some((r->0).1),
    {
        proof {
            use_type_invariant(self);
        }
        match self.relation.references_to() {
            Some(index) => {
                match self.reference_target {
                    Some(target) => Some((index, target)),
                    None => {
                        proof {
                            assert(false);
                        }
                        None
                    },
                }
            },
            None => None,
        }
    }

    /// Checks if the relation is a regular reference to an ingredient
    ///
    /// A reference is either regular or intermediate, never both.
    pub fn is_regular_reference(&self) -> (r: bool)
        ensures
            r == (self.target() == Some(IngredientReferenceTarget::Ingredient)),
            r == (self.relation() is Reference && self.target() == Some(
                IngredientReferenceTarget::Ingredient,
            )),
    {
        proof {
            use_type_invariant(self);
        }
        match self.references_to() {
            Some((_, target)) => target == IngredientReferenceTarget::Ingredient,
            None => false,
        }
    }

    /// Checks if the relation is an intermediate reference to a step or section
    ///
    /// A reference is either regular or intermediate, never both.
    pub fn is_intermediate_reference(&self) -> (r: bool)
        ensures
            r == (self.target() == Some(IngredientReferenceTarget::Step) || self.target() == Some(
                IngredientReferenceTarget::Section,
            )),
            r == (self.relation() is Reference && self.target() != Some(
                IngredientReferenceTarget::Ingredient,
            )),
    {
        proof {
            use_type_invariant(self);
        }
        match self.references_to() {
            Some((_, IngredientReferenceTarget::Step)) => true,
            Some((_, IngredientReferenceTarget::Section)) => true,
            _ => false,
        }
    }

    /// Check if the relation is a definition
    pub fn is_definition(&self) -> (r: bool)
        ensures
            r == (self.relation() is Definition),
    {
        self.relation.is_definition()
    }

    /// Checks if the definition was in a step
    ///
    /// Returns None for references
    pub fn is_defined_in_step(&self) -> (r: Option<bool>)
        ensures
            r == self.relation().defined_in_step_spec(),
    {
        self.relation.is_defined_in_step()
    }
}

impl PartialEq for IngredientRelation {
    fn eq(&self, other: &Self) -> (r: bool) {
        let same_target = match (&self.reference_target, &other.reference_target) {
            (Some(a), Some(b)) => *a == *b,
            (None, None) => true,
            _ => false,
        };
        same_target && self.relation == other.relation
    }
}

impl vstd::std_specs::cmp::PartialEqSpecImpl for IngredientRelation {
    open spec fn obeys_eq_spec() -> bool {
        true
    }

    open spec fn eq_spec(&self, other: &Self) -> bool {
        self.target() == other.target() && same_relation(self.relation(), other.relation())
    }
}

impl Clone for IngredientRelation {
    fn clone(&self) -> (r: Self)
        ensures
            r.relation().referenced_from_spec() == self.relation().referenced_from_spec(),
            r.relation().references_to_spec() == self.relation().references_to_spec(),
            r.relation().defined_in_step_spec() == self.relation().defined_in_step_spec(),
            r.target() == self.target(),
    {
        proof {
            use_type_invariant(self);
        }
        let relation = match &self.relation {
            ComponentRelation::Definition { referenced_from, defined_in_step } => {
                let referenced_from = referenced_from.clone();
                assert(referenced_from@ =~= self.relation.referenced_from_spec());
                ComponentRelation::Definition { referenced_from, defined_in_step: *defined_in_step }
            },
            ComponentRelation::Reference { references_to } => ComponentRelation::Reference {
                references_to: *references_to,
            },
        };
        IngredientRelation { relation, reference_target: self.reference_target }
    }
}

/// Error when creating a [`RecipeReference`]
#[derive(Debug, Clone, PartialEq)]
pub enum ReferenceError {
    /// The path has no file name
    MissingName(String),
}

/// A reference to another recipe, by its path relative to this one
///
/// The path is normalized and always starts with `./` or `../`.
#[derive(Debug)]
pub struct RecipeReference {
    path: String,
}

/// `path` prefixed with `./` unless it already starts with `./` or `../`
pub open spec fn dot_prefixed(path: Seq<char>) -> Seq<char> {
    if relative_starts_with(path, "./"@) || relative_starts_with(path, "../"@) {
        path
    } else {
        join_spec("./"@, path)
    }
}

/// The path a reference stores for `path`: normalized, then prefixed
pub open spec fn reference_path(path: Seq<char>) -> Seq<char> {
    dot_prefixed(relative_normalize(path))
}

impl RecipeReference {
    /// The path of the reference
    pub closed spec fn path(self) -> Seq<char> {
        self.path@
    }

    /// Every reference names a recipe: its path has a file name
    #[verifier::type_invariant]
    closed spec fn has_name(self) -> bool {
        relative_file_name(self.path@) is Some
    }

    fn prefix(path: String) -> (r: String)
        ensures
            r@ == dot_prefixed(path@),
            relative_file_name(path@) is Some ==> relative_file_name(r@) == relative_file_name(path@),
    {
        if paths::starts_with(path.as_str(), "./") || paths::starts_with(path.as_str(), "../") {
            path
        } else {
            paths::join("./", path.as_str())
        }
    }

    fn normalize(path: &str) -> (r: String)
        ensures
            r@ == reference_path(path@),
            relative_file_name(path@) is Some ==> relative_file_name(r@) == relative_file_name(path@),
    {
        Self::prefix(paths::normalize(path))
    }

    /// Creates a reference to the recipe at `path`
    ///
    /// Fails when the path has no file name. The reference keeps the file
    /// name of `path`.
    pub fn from(path: &str) -> (r: Result<Self, ReferenceError>)
        ensures
            r is Ok == relative_file_name(path@) is Some,
            r matches Ok(reference) ==> reference.path() == reference_path(path@),
            r matches Ok(reference) ==> relative_file_name(reference.path()) == relative_file_name(
                path@,
            ),
            r matches Err(ReferenceError::MissingName(p)) ==> p@ == path@,
    {
        match paths::file_name(path) {
            Some(_) => Ok(RecipeReference { path: Self::normalize(path) }),
            None => Err(ReferenceError::MissingName(path.to_string())),
        }
    }

    /// The name of the referenced recipe, the last component of its path
    pub fn name(&self) -> (r: &str)
        ensures
            relative_file_name(self.path()) == Some(r@),
    {
        proof {
            use_type_invariant(self);
        }
        match paths::file_name(self.path.as_str()) {
            Some(name) => name,
            None => {
                proof {
                    assert(false);
                }
                unreached()
            },
        }
    }

    /// Resolves this reference, written in the recipe `other` refers to, to
    /// a reference from where `other` is written
    ///
    /// The path is joined to the directory of `other` and normalized again.
    pub fn relative_to(&self, other: &RecipeReference) -> (r: RecipeReference)
        ensures
            r.path() == reference_path(
                join_spec(
                    if other.path().len() == 0 {
                        Seq::empty()
                    } else {
                        relative_parent(other.path())
                    },
                    self.path(),
                ),
            ),
            relative_file_name(r.path()) == relative_file_name(self.path()),
    {
        proof {
            use_type_invariant(self);
        }
        let base = match paths::parent(other.path.as_str()) {
            Some(base) => base,
            None => "",
        };
        proof {
            reveal_strlit("");
        }
        let joined = paths::join(base, self.path.as_str());
        RecipeReference { path: Self::normalize(joined.as_str()) }
    }

    /// The path of the reference as text
    pub fn to_string(&self) -> (r: String)
        ensures
            r@ == self.path(),
    {
        self.path.clone()
    }
}

impl Clone for RecipeReference {
    fn clone(&self) -> (r: Self)
        ensures
            r.path() == self.path(),
    {
        proof {
            use_type_invariant(self);
        }
        RecipeReference { path: self.path.clone() }
    }
}

impl PartialEq for RecipeReference {
    fn eq(&self, other: &Self) -> (r: bool) {
        paths::path_eq(
            paths::normalize(self.path.as_str()).as_str(),
            paths::normalize(other.path.as_str()).as_str(),
        )
    }
}

impl vstd::std_specs::cmp::PartialEqSpecImpl for RecipeReference {
    open spec fn obeys_eq_spec() -> bool {
        true
    }

    open spec fn eq_spec(&self, other: &Self) -> bool {
        relative_path_eq(relative_normalize(self.path()), relative_normalize(other.path()))
    }
}

/// A reference relation gives back the index and target it was made with,
/// and a definition relation the components referencing it and where it was
/// defined; a relation is a reference or a definition, never both.
pub proof fn lemma_relation_round_trip(
    r: IngredientRelation,
    index: usize,
    target: IngredientReferenceTarget,
    referenced_from: Vec<usize>,
    defined_in_step: bool,
)
    ensures
        (r.relation() == (ComponentRelation::Reference { references_to: index }) && r.target() == Some(
            target,
        )) ==> r.references_to_spec() == Some((index, target)),
        r.relation() == (ComponentRelation::Definition { referenced_from, defined_in_step }) ==> {
            &&& r.references_to_spec() is None
            &&& r.relation().referenced_from_spec() == referenced_from@
            &&& r.relation().defined_in_step_spec() == Some(defined_in_step)
        },
        (r.relation() is Reference) != (r.relation() is Definition),
{
}

/// A recipe timer
///
/// If created from parsing, at least one of the fields is guaranteed to be
/// [`Some`].
#[derive(Debug)]
pub struct Timer<N> {
    /// Name
    pub name: Option<String>,
    /// Time quantity
    pub quantity: Option<Quantity<N>>,
}

/// Two optional texts are the same
pub open spec fn same_text(a: Option<String>, b: Option<String>) -> bool {
    match (a, b) {
        (Some(x), Some(y)) => x@ == y@,
        (None, None) => true,
        _ => false,
    }
}

pub(crate) fn text_eq(a: &Option<String>, b: &Option<String>) -> (r: bool)
    ensures
        r == same_text(*a, *b),
{
    match (a, b) {
        (Some(x), Some(y)) => x.eq(y),
        (None, None) => true,
        _ => false,
    }
}

impl<N, C> SemanticEq<C> for Timer<N> where Quantity<N>: SemanticEq<C> {
    open spec fn semantically_equals(&self, other: &Self, converter: &C) -> bool {
        same_text(self.name, other.name) && self.quantity.semantically_equals(&other.quantity, converter)
    }

    fn equals(&self, other: &Self, converter: &C) -> (r: bool) {
        text_eq(&self.name, &other.name) && self.quantity.equals(&other.quantity, converter)
    }
}

impl<N> Timer<N> {
    /// Compares two timers using unit-aware quantity comparison.
    ///
    /// Unlike `PartialEq`, the quantity is compared in meaning, so `1 h`
    /// equals `60 min`.
    pub fn equals<C>(&self, other: &Self, converter: &C) -> (r: bool)
        where Quantity<N>: SemanticEq<C>,
        ensures
            r == (same_text(self.name, other.name) && self.quantity.semantically_equals(
                &other.quantity,
                converter,
            )),
    {
        SemanticEq::equals(self, other, converter)
    }
}

/// Timers equal in meaning have the same name, or both none, and
/// quantities equal in meaning.
pub proof fn lemma_equal_timers_agree<N, C>(a: Timer<N>, b: Timer<N>, converter: &C)
    where Quantity<N>: SemanticEq<C>,
    requires
        a.semantically_equals(&b, converter),
    ensures
        same_text(a.name, b.name),
        a.quantity.semantically_equals(&b.quantity, converter),
{
}

} // verus!
