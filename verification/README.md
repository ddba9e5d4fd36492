# cooklang

The recipe model of the Cooklang recipe language, verified with Verus.

## Layout

- `src/` is the verified library:
  - `model.rs`: sections, steps and their items, the relations between the
    components of a recipe, references to other recipes and timers;
  - `components.rs`: ingredients and cookware, the names they are shown
    with, their comparison and the grouping of their quantities with those
    of the components referencing them;
  - `paths.rs`: the relative paths of recipe references, handled by the
    `relative-path` crate behind wrappers with contracts;
  - `quantity.rs`: values, quantities, their arithmetic and unit
    compatibility, and groups of quantities that add, merge, take and
    compare;
  - `semantic_eq.rs`: comparison in meaning (`500 g` is `0.5 kg`) through
    options, lists and unordered lists;
  - `fraction.rs`: the table of common fractions and the search for the
    nearest one;
  - `scale.rs`: how a recipe is scaled to a target, when its yield can be,
    and the scaling of the quantities of its ingredients, cookware and
    timers.
- `tests/` runs the library on concrete values.
- `app/` holds what works on floating point numbers (the `Number` type of
  quantities, its display and its fraction approximation) and the copies of
  the library's types that carry `serde` and `thiserror` derives.

The numbers of quantities are a type parameter of the library, with the
arithmetic it needs given by the `Amount` trait, and units are resolved by an
implementation of `UnitConverter`. The modifiers of ingredients and cookware
are a type parameter too, set by the parser; the library reads them through
`ComponentModifiers`.
