use meta::errors::MetaError;
use meta::registry::load_managers;

const APT: &str = "add = \"apt install <items>\"\nremove = \"apt remove <items>\"\nlist = \"apt list --installed\"\n";
const BREW: &str = "add = \"brew install <item>\"\nremove = \"brew uninstall <item>\"\nlist = \"brew list -1\"\nupgrade = \"brew upgrade\"\nremove_then_add = true\nitems_separator = \",\"\n";

fn files(entries: &[(&str, &str)]) -> Vec<(String, String)> {
    entries.iter().map(|(n, t)| (n.to_string(), t.to_string())).collect()
}

#[test]
fn loads_a_manager_with_defaults() {
    let ms = load_managers(&files(&[("apt", APT)]), "apt\n", &None, false).unwrap();
    assert_eq!(ms.len(), 1);
    let m = &ms[0];
    assert_eq!(m.name, "apt");
    assert_eq!(m.add, "apt install <items>");
    assert_eq!(m.remove, "apt remove <items>");
    assert_eq!(m.list, "apt list --installed");
    assert!(m.upgrade.is_none());
    assert!(!m.remove_then_add);
    assert!(m.items_separator.is_none());
    assert!(m.items.is_empty());
    assert!(m.items_to_add.is_empty());
    assert!(m.items_to_remove.is_empty());
}

#[test]
fn loads_optional_fields() {
    let ms = load_managers(&files(&[("brew", BREW)]), "brew\n", &None, false).unwrap();
    let m = &ms[0];
    assert_eq!(m.upgrade.as_deref(), Some("brew upgrade"));
    assert!(m.remove_then_add);
    assert_eq!(m.items_separator.as_deref(), Some(","));
}

#[test]
fn managers_come_out_in_order_file_order() {
    let fs = files(&[("apt", APT), ("brew", BREW)]);
    let ms = load_managers(&fs, "brew\napt\n", &None, false).unwrap();
    let names: Vec<&str> = ms.iter().map(|m| m.name.as_str()).collect();
    assert_eq!(names, vec!["brew", "apt"]);
}

#[test]
fn order_lines_for_unknown_managers_are_ignored() {
    let fs = files(&[("apt", APT)]);
    let ms = load_managers(&fs, "zsh\napt\n", &None, false).unwrap();
    assert_eq!(ms.len(), 1);
    assert_eq!(ms[0].name, "apt");
}

#[test]
fn manager_absent_from_order_file_is_an_ordering_error() {
    let fs = files(&[("apt", APT), ("brew", BREW)]);
    let err = load_managers(&fs, "apt\n", &None, false).unwrap_err();
    assert!(matches!(err, MetaError::OrderingError { ref manager } if manager == "brew"));
}

#[test]
fn selection_keeps_only_listed_managers() {
    let fs = files(&[("apt", APT), ("brew", BREW)]);
    let sel = Some(vec!["brew".to_string()]);
    let ms = load_managers(&fs, "brew\napt\n", &sel, false).unwrap();
    assert_eq!(ms.len(), 1);
    assert_eq!(ms[0].name, "brew");
}

#[test]
fn inverted_selection_keeps_the_others() {
    let fs = files(&[("apt", APT), ("brew", BREW)]);
    let sel = Some(vec!["brew".to_string()]);
    let ms = load_managers(&fs, "brew\napt\n", &sel, true).unwrap();
    assert_eq!(ms.len(), 1);
    assert_eq!(ms[0].name, "apt");
}

#[test]
fn requesting_an_unknown_manager_is_a_selection_error() {
    let fs = files(&[("apt", APT)]);
    let sel = Some(vec!["apt".to_string(), "nix".to_string()]);
    let err = load_managers(&fs, "apt\n", &sel, false).unwrap_err();
    assert!(matches!(err, MetaError::SelectionError { ref manager } if manager == "nix"));
}

#[test]
fn inverted_selection_never_raises_a_selection_error() {
    let fs = files(&[("apt", APT)]);
    let sel = Some(vec!["nix".to_string()]);
    let ms = load_managers(&fs, "apt\n", &sel, true).unwrap();
    assert_eq!(ms.len(), 1);
}

#[test]
fn unknown_field_is_a_schema_error() {
    let text = "add = \"a <items>\"\nremove = \"r <items>\"\nlist = \"l\"\ncheck = \"c\"\n";
    let err = load_managers(&files(&[("apt", text)]), "apt\n", &None, false).unwrap_err();
    assert!(matches!(err, MetaError::SchemaError { ref field, .. } if field == "check"));
}

#[test]
fn missing_required_field_is_a_schema_error() {
    let text = "add = \"a <items>\"\nlist = \"l\"\n";
    let err = load_managers(&files(&[("apt", text)]), "apt\n", &None, false).unwrap_err();
    assert!(matches!(err, MetaError::SchemaError { ref field, .. } if field == "remove"));
}

#[test]
fn wrongly_typed_field_is_a_schema_error() {
    let text = "add = \"a <items>\"\nremove = \"r <items>\"\nlist = \"l\"\nremove_then_add = \"yes\"\n";
    let err = load_managers(&files(&[("apt", text)]), "apt\n", &None, false).unwrap_err();
    assert!(matches!(err, MetaError::SchemaError { ref field, .. } if field == "remove_then_add"));
}

#[test]
fn unparsable_definition_is_a_load_error() {
    let err = load_managers(&files(&[("apt", "not toml [")]), "apt\n", &None, false).unwrap_err();
    assert!(matches!(err, MetaError::LoadError { ref path, .. } if path == "apt"));
}
