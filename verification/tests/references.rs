use cooklang::model::{RecipeReference, ReferenceError};

fn rel(reference: &str, other: &str) -> String {
    rref(reference).relative_to(&rref(other)).to_string()
}

fn rref(p: &str) -> RecipeReference {
    RecipeReference::from(p).unwrap()
}

#[test]
fn sibling_in_same_directory() {
    assert_eq!(
        rel("./tomato", "recipes/pasta/spaghetti"),
        "./recipes/pasta/tomato"
    );
}

#[test]
fn parent_directory_reference() {
    assert_eq!(
        rel("../sauces/tomato", "recipes/pasta/spaghetti"),
        "./recipes/sauces/tomato"
    );
}

#[test]
fn multiple_parent_directory_references() {
    assert_eq!(
        rel("../../sauces/tomato", "recipes/italian/pasta/spaghetti"),
        "./recipes/sauces/tomato"
    );
}

#[test]
fn other_at_root_has_no_parent() {
    // "spaghetti" has no directory component, so the base is the root.
    assert_eq!(rel("./sauce", "spaghetti"), "./sauce");
}

#[test]
fn reference_without_dot_prefix_is_treated_as_relative() {
    // A bare relative path behaves the same as one with a "./" prefix.
    assert_eq!(
        rel("sauces/tomato", "recipes/pasta/spaghetti"),
        "./recipes/pasta/sauces/tomato"
    );
}

#[test]
fn relative_to_self_resolves_to_own_path() {
    assert_eq!(rel("./spaghetti", "spaghetti"), "./spaghetti");
}

#[test]
fn can_escape_above_the_other_reference_root() {
    // Going up more levels than "other" has just walks above the root;
    // relative_to does not clamp this.
    assert_eq!(rel("../tomato", "spaghetti"), "../tomato");
}

#[test]
fn preserves_name_of_the_resolved_reference() {
    assert_eq!(
        rref("../sauces/tomato")
            .relative_to(&rref("./recipes/pasta/spaghetti"))
            .name(),
        "tomato"
    );
}

#[test]
fn bare_path_is_prefixed_with_dot_slash() {
    assert_eq!(rref("spaghetti").to_string(), "./spaghetti");
    assert_eq!(rref("pasta/spaghetti").to_string(), "./pasta/spaghetti");
}

#[test]
fn already_prefixed_path_is_left_unchanged() {
    assert_eq!(rref("./spaghetti").to_string(), "./spaghetti");
    assert_eq!(rref("../spaghetti").to_string(), "../spaghetti");
}

#[test]
fn path_without_name_is_refused() {
    assert_eq!(
        RecipeReference::from("").unwrap_err(),
        ReferenceError::MissingName(String::new())
    );
    assert_eq!(
        RecipeReference::from("pasta/..").unwrap_err(),
        ReferenceError::MissingName("pasta/..".to_string())
    );
}

#[test]
fn reference_is_normalized_when_created() {
    assert_eq!(rref("pasta/./spaghetti").to_string(), "./pasta/spaghetti");
    assert_eq!(rref("pasta/../spaghetti").to_string(), "./spaghetti");
    assert_eq!(rref("./pasta//spaghetti").to_string(), "./pasta/spaghetti");
}

#[test]
fn name_is_the_last_component() {
    assert_eq!(rref("recipes/pasta/spaghetti").name(), "spaghetti");
    assert_eq!(rref("recipes/pasta/spaghetti").clone().name(), "spaghetti");
    assert_eq!(rref("../spaghetti").name(), "spaghetti");
}

#[test]
fn references_to_the_same_path_are_equal() {
    assert_eq!(rref("spaghetti"), rref("./spaghetti"));
    assert_eq!(rref("pasta/../spaghetti"), rref("spaghetti"));
    assert_ne!(rref("spaghetti"), rref("../spaghetti"));
    assert_ne!(rref("spaghetti"), rref("tomato"));
}
