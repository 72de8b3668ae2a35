use meta::errors::MetaError;
use meta::manager::Manager;
use meta::resolve::{load_configs, machine_fragment_path};

fn bare_manager(name: &str) -> Manager {
    Manager {
        name: name.to_string(),
        add: "add <items>".to_string(),
        remove: "remove <items>".to_string(),
        list: "list".to_string(),
        upgrade: None,
        remove_then_add: false,
        items_separator: None,
        items: Vec::new(),
        items_to_add: Vec::new(),
        items_to_remove: Vec::new(),
    }
}

fn store(entries: &[(&str, &str)]) -> Vec<(String, String)> {
    entries.iter().map(|(p, t)| (p.to_string(), t.to_string())).collect()
}

fn sorted(mut v: Vec<String>) -> Vec<String> {
    v.sort();
    v
}

#[test]
fn machine_fragment_path_is_root_relative() {
    assert_eq!(machine_fragment_path("host"), "../machines/host");
}

#[test]
fn machine_fragment_feeds_declared_items() {
    let mut managers = vec![bare_manager("apt")];
    let frags = store(&[("../machines/host", "apt = [\"git\", \"vim\"]")]);
    load_configs(&mut managers, "host", &frags).unwrap();
    assert_eq!(sorted(managers[0].items.clone()), vec!["git".to_string(), "vim".to_string()]);
}

#[test]
fn single_string_value_counts_as_one_item() {
    let mut managers = vec![bare_manager("apt")];
    let frags = store(&[("../machines/host", "apt = \"git\"")]);
    load_configs(&mut managers, "host", &frags).unwrap();
    assert_eq!(managers[0].items, vec!["git".to_string()]);
}

#[test]
fn imports_are_followed() {
    let mut managers = vec![bare_manager("apt")];
    let frags = store(&[
        ("../machines/host", "imports = [\"common\"]"),
        ("common", "apt = [\"git\"]"),
    ]);
    load_configs(&mut managers, "host", &frags).unwrap();
    assert_eq!(managers[0].items, vec!["git".to_string()]);
}

#[test]
fn import_cycle_terminates_and_merges_each_fragment_once() {
    let mut managers = vec![bare_manager("apt")];
    let frags = store(&[
        ("../machines/host", "imports = \"a\""),
        ("a", "imports = \"b\"\napt = [\"one\"]"),
        ("b", "imports = \"a\"\napt = [\"two\"]"),
    ]);
    load_configs(&mut managers, "host", &frags).unwrap();
    assert_eq!(sorted(managers[0].items.clone()), vec!["one".to_string(), "two".to_string()]);
}

#[test]
fn duplicate_declarations_are_merged_without_duplicates() {
    let mut managers = vec![bare_manager("apt")];
    let frags = store(&[
        ("../machines/host", "imports = [\"a\", \"b\"]"),
        ("a", "apt = [\"git\", \"vim\"]"),
        ("b", "apt = [\"git\"]"),
    ]);
    load_configs(&mut managers, "host", &frags).unwrap();
    assert_eq!(sorted(managers[0].items.clone()), vec!["git".to_string(), "vim".to_string()]);
}

#[test]
fn final_items_do_not_depend_on_import_order() {
    let frags_one = store(&[
        ("../machines/host", "imports = [\"a\", \"b\"]"),
        ("a", "apt = [\"one\"]"),
        ("b", "apt = [\"two\"]"),
    ]);
    let frags_two = store(&[
        ("../machines/host", "imports = [\"b\", \"a\"]"),
        ("a", "apt = [\"one\"]"),
        ("b", "apt = [\"two\"]"),
    ]);
    let mut ms_one = vec![bare_manager("apt")];
    let mut ms_two = vec![bare_manager("apt")];
    load_configs(&mut ms_one, "host", &frags_one).unwrap();
    load_configs(&mut ms_two, "host", &frags_two).unwrap();
    assert_eq!(sorted(ms_one[0].items.clone()), sorted(ms_two[0].items.clone()));
}

#[test]
fn unknown_manager_names_are_silently_ignored() {
    let mut managers = vec![bare_manager("apt")];
    let frags = store(&[("../machines/host", "brew = [\"fzf\"]\napt = [\"git\"]")]);
    load_configs(&mut managers, "host", &frags).unwrap();
    assert_eq!(managers[0].items, vec!["git".to_string()]);
}

#[test]
fn fragment_for_unknown_managers_only_changes_nothing() {
    let mut managers = vec![bare_manager("apt")];
    let frags = store(&[("../machines/host", "brew = [\"fzf\"]")]);
    load_configs(&mut managers, "host", &frags).unwrap();
    assert!(managers[0].items.is_empty());
}

#[test]
fn missing_fragment_is_a_resolve_error() {
    let mut managers = vec![bare_manager("apt")];
    let frags = store(&[("../machines/host", "imports = [\"absent\"]")]);
    let err = load_configs(&mut managers, "host", &frags).unwrap_err();
    assert!(matches!(err, MetaError::ResolveError { ref path } if path == "absent"));
}

#[test]
fn missing_machine_fragment_is_a_resolve_error() {
    let mut managers = vec![bare_manager("apt")];
    let err = load_configs(&mut managers, "host", &Vec::new()).unwrap_err();
    assert!(matches!(err, MetaError::ResolveError { ref path } if path == "../machines/host"));
}

#[test]
fn unparsable_fragment_is_a_load_error() {
    let mut managers = vec![bare_manager("apt")];
    let frags = store(&[("../machines/host", "this is not toml [")]);
    let err = load_configs(&mut managers, "host", &frags).unwrap_err();
    assert!(matches!(err, MetaError::LoadError { ref path, .. } if path == "../machines/host"));
}

#[test]
fn non_string_item_value_is_a_schema_error() {
    let mut managers = vec![bare_manager("apt")];
    let frags = store(&[("../machines/host", "apt = 3")]);
    let err = load_configs(&mut managers, "host", &frags).unwrap_err();
    assert!(matches!(err, MetaError::SchemaError { ref field, .. } if field == "apt"));
}

#[test]
fn non_string_element_in_list_is_a_schema_error() {
    let mut managers = vec![bare_manager("apt")];
    let frags = store(&[("../machines/host", "apt = [\"git\", 3]")]);
    let err = load_configs(&mut managers, "host", &frags).unwrap_err();
    assert!(matches!(err, MetaError::SchemaError { ref field, .. } if field == "apt"));
}
