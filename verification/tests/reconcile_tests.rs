use meta::manager::Manager;
use meta::reconcile::{compute_add_remove, parse_installed};

fn manager_with_items(items: &[&str]) -> Manager {
    Manager {
        name: "apt".to_string(),
        add: "apt install <items>".to_string(),
        remove: "apt remove <items>".to_string(),
        list: "apt list --installed".to_string(),
        upgrade: None,
        remove_then_add: false,
        items_separator: None,
        items: items.iter().map(|x| x.to_string()).collect(),
        items_to_add: Vec::new(),
        items_to_remove: Vec::new(),
    }
}

fn strings(xs: &[&str]) -> Vec<String> {
    xs.iter().map(|x| x.to_string()).collect()
}

#[test]
fn deltas_are_exact_set_differences() {
    let mut m = manager_with_items(&["git", "vim"]);
    compute_add_remove(&mut m, &strings(&["git\ncurl\n"]));
    assert_eq!(m.items_to_add, strings(&["vim"]));
    assert_eq!(m.items_to_remove, strings(&["curl"]));
}

#[test]
fn deltas_are_disjoint() {
    let mut m = manager_with_items(&["a", "b", "c"]);
    compute_add_remove(&mut m, &strings(&["b\nd\ne\n"]));
    for it in &m.items_to_add {
        assert!(!m.items_to_remove.contains(it));
    }
    assert_eq!(m.items_to_add, strings(&["a", "c"]));
    assert_eq!(m.items_to_remove, strings(&["d", "e"]));
}

#[test]
fn converged_manager_yields_empty_deltas() {
    let mut m = manager_with_items(&["git", "vim"]);
    compute_add_remove(&mut m, &strings(&["vim\ngit\n"]));
    assert!(m.items_to_add.is_empty());
    assert!(m.items_to_remove.is_empty());
}

#[test]
fn reconciliation_leaves_other_fields_alone() {
    let mut m = manager_with_items(&["x"]);
    compute_add_remove(&mut m, &strings(&[""]));
    assert_eq!(m.name, "apt");
    assert_eq!(m.add, "apt install <items>");
    assert_eq!(m.items, strings(&["x"]));
    assert_eq!(m.items_to_add, strings(&["x"]));
    assert!(m.items_to_remove.is_empty());
}

#[test]
fn installed_output_tolerates_duplicates_and_blanks() {
    let mut m = manager_with_items(&["a"]);
    compute_add_remove(&mut m, &strings(&["\n\nb\nb\n\na\n", "b"]));
    assert!(m.items_to_add.is_empty());
    assert_eq!(m.items_to_remove, strings(&["b"]));
}

#[test]
fn parse_installed_splits_and_drops_empty_tokens() {
    let toks = parse_installed(&strings(&["a\n\nb", "", "c\n"]));
    assert_eq!(toks, strings(&["a", "b", "c"]));
}

#[test]
fn parse_installed_joins_output_boundaries_like_newlines() {
    let toks = parse_installed(&strings(&["x", "y"]));
    assert_eq!(toks, strings(&["x", "y"]));
}
