//! Support for recipe scaling: the choice of how to scale and the checks
//! that decide whether a recipe can be scaled to a target.

use vstd::prelude::*;

use crate::components::{Cookware, Ingredient};
use crate::model::Timer;
use crate::quantity::{scaled_option, Amount, Quantity, UnitConverter};

verus! {

/// Error type for scaling operations
#[derive(Debug, Clone, PartialEq)]
pub enum ScaleError {
    /// The recipe has no valid numeric servings value
    InvalidServings,
    /// The recipe has no valid yield metadata
    InvalidYield,
    /// The units don't match between target and current yield
    UnitMismatch { expected: String, got: String },
}

/// How a recipe is scaled to a target value
#[derive(Debug, Clone, PartialEq)]
pub enum ScaleTarget {
    /// The target is a number of servings
    Servings,
    /// The target is a yield in this unit
    Yield(String),
    /// The target is the scaling factor itself
    Factor,
}

/// The unit that asks for scaling by servings
pub open spec fn is_servings_unit(unit: Seq<char>) -> bool {
    unit == "servings"@
}

/// Chooses how to scale to a target value with an optional unit:
/// - `servings` scales by servings,
/// - another unit scales by yield with that unit,
/// - no unit applies the target value as a direct scaling factor.
pub fn scale_target(target_unit: Option<&str>) -> (r: ScaleTarget)
    ensures
        match target_unit {
            None => r == ScaleTarget::Factor,
            Some(unit) => if is_servings_unit(unit@) {
                r == ScaleTarget::Servings
            } else {
                r matches ScaleTarget::Yield(u) && u@ == unit@
            },
        },
{
    match target_unit {
        None => ScaleTarget::Factor,
        Some(unit) => {
            let unit = unit.to_owned();
            let servings = "servings".to_owned();
            if unit.eq(&servings) {
                ScaleTarget::Servings
            } else {
                ScaleTarget::Yield(unit)
            }
        },
    }
}

/// Checks that the current yield, written with `current_unit` (or none),
/// can be scaled to a target written in `target_unit`: both have to be the
/// same text, a missing unit counting as the empty one
pub fn check_yield_unit(current_unit: Option<&str>, target_unit: &str) -> (r: Result<(), ScaleError>)
    ensures
        ({
            let got = match current_unit {
                Some(u) => u@,
                None => Seq::<char>::empty(),
            };
            if got == target_unit@ {
                r is Ok
            } else {
                r matches Err(ScaleError::UnitMismatch { expected, got: g }) && expected@ == target_unit@
                    && g@ == got
            }
        }),
{
    let current = match current_unit {
        Some(u) => u.to_owned(),
        None => String::new(),
    };
    let target = target_unit.to_owned();
    if !current.eq(&target) {
        return Err(ScaleError::UnitMismatch { expected: target, got: current });
    }
    Ok(())
}

/// Scales an optional quantity by `factor`: a scalable one is scaled and
/// fitted, anything else is left as it is
pub fn scale_option<N: Amount, C: UnitConverter<N>>(
    q: &mut Option<Quantity<N>>,
    factor: &N,
    converter: &C,
)
    ensures
        scaled_option(converter, *old(q), *factor, *final(q)),
{
    match q {
        Some(x) => {
            x.scale(factor, converter);
        },
        None => {},
    }
}

/// Scales the quantities of a recipe's ingredients, cookware and timers by
/// `factor`: each scalable quantity is scaled and fitted to the unit it reads
/// best in, the rest stays as it is
pub fn scale_quantities<N: Amount, M, C: UnitConverter<N>>(
    ingredients: &mut Vec<Ingredient<N, M>>,
    cookware: &mut Vec<Cookware<N, M>>,
    timers: &mut Vec<Timer<N>>,
    factor: &N,
    converter: &C,
)
    ensures
        final(ingredients)@.len() == old(ingredients)@.len(),
        forall|i: int|
            0 <= i < old(ingredients)@.len() ==> {
                let (a, b) = (old(ingredients)@[i], #[trigger] final(ingredients)@[i]);
                &&& b == (Ingredient { quantity: b.quantity, ..a })
                &&& scaled_option(converter, a.quantity, *factor, b.quantity)
            },
        final(cookware)@.len() == old(cookware)@.len(),
        forall|i: int|
            0 <= i < old(cookware)@.len() ==> {
                let (a, b) = (old(cookware)@[i], #[trigger] final(cookware)@[i]);
                &&& b == (Cookware { quantity: b.quantity, ..a })
                &&& scaled_option(converter, a.quantity, *factor, b.quantity)
            },
        final(timers)@.len() == old(timers)@.len(),
        forall|i: int|
            0 <= i < old(timers)@.len() ==> {
                let (a, b) = (old(timers)@[i], #[trigger] final(timers)@[i]);
                &&& b == (Timer { quantity: b.quantity, ..a })
                &&& scaled_option(converter, a.quantity, *factor, b.quantity)
            },
{
    let mut i: usize = 0;
    while i < ingredients.len()
        invariant
            ingredients@.len() == old(ingredients)@.len(),
            0 <= i <= ingredients@.len(),
            forall|j: int|
                0 <= j < i ==> {
                    let (a, b) = (old(ingredients)@[j], #[trigger] ingredients@[j]);
                    &&& b == (Ingredient { quantity: b.quantity, ..a })
                    &&& scaled_option(converter, a.quantity, *factor, b.quantity)
                },
            forall|j: int| i <= j < ingredients@.len() ==> #[trigger] ingredients@[j] == old(ingredients)@[j],
        decreases ingredients@.len() - i,
    {
        scale_option(&mut ingredients[i].quantity, factor, converter);
        i = i + 1;
    }
    let mut i: usize = 0;
    while i < cookware.len()
        invariant
            cookware@.len() == old(cookware)@.len(),
            0 <= i <= cookware@.len(),
            forall|j: int|
                0 <= j < i ==> {
                    let (a, b) = (old(cookware)@[j], #[trigger] cookware@[j]);
                    &&& b == (Cookware { quantity: b.quantity, ..a })
                    &&& scaled_option(converter, a.quantity, *factor, b.quantity)
                },
            forall|j: int| i <= j < cookware@.len() ==> #[trigger] cookware@[j] == old(cookware)@[j],
        decreases cookware@.len() - i,
    {
        scale_option(&mut cookware[i].quantity, factor, converter);
        i = i + 1;
    }
    let mut i: usize = 0;
    while i < timers.len()
        invariant
            timers@.len() == old(timers)@.len(),
            0 <= i <= timers@.len(),
            forall|j: int|
                0 <= j < i ==> {
                    let (a, b) = (old(timers)@[j], #[trigger] timers@[j]);
                    &&& b == (Timer { quantity: b.quantity, ..a })
                    &&& scaled_option(converter, a.quantity, *factor, b.quantity)
                },
            forall|j: int| i <= j < timers@.len() ==> #[trigger] timers@[j] == old(timers)@[j],
        decreases timers@.len() - i,
    {
        scale_option(&mut timers[i].quantity, factor, converter);
        i = i + 1;
    }
}

} // verus!
