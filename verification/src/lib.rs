//! Recipe model of the Cooklang recipe language, with its relations,
//! references, quantity groups and semantic comparison, verified with Verus.

pub mod components;
pub mod fraction;
pub mod model;
pub mod paths;
pub mod quantity;
pub mod scale;
pub mod semantic_eq;
