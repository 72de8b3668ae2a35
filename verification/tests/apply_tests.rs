use meta::apply::{add_remove_items, nothing_to_do, upgrade};
use meta::errors::MetaError;
use meta::manager::{Config, Manager};

fn strings(xs: &[&str]) -> Vec<String> {
    xs.iter().map(|x| x.to_string()).collect()
}

fn manager(name: &str) -> Manager {
    Manager {
        name: name.to_string(),
        add: format!("{name} add <items>"),
        remove: format!("{name} remove <items>"),
        list: format!("{name} list"),
        upgrade: None,
        remove_then_add: false,
        items_separator: None,
        items: Vec::new(),
        items_to_add: Vec::new(),
        items_to_remove: Vec::new(),
    }
}

#[test]
fn add_comes_before_remove_by_default() {
    let mut m = manager("apt");
    m.items_to_add = strings(&["vim"]);
    m.items_to_remove = strings(&["curl"]);
    let cmds = add_remove_items(&vec![m]).unwrap();
    assert_eq!(cmds, strings(&["apt add vim", "apt remove curl"]));
}

#[test]
fn remove_then_add_reverses_the_pair() {
    let mut m = manager("apt");
    m.remove_then_add = true;
    m.items_to_add = strings(&["vim"]);
    m.items_to_remove = strings(&["curl"]);
    let cmds = add_remove_items(&vec![m]).unwrap();
    assert_eq!(cmds, strings(&["apt remove curl", "apt add vim"]));
}

#[test]
fn empty_operations_issue_no_commands() {
    let mut m = manager("apt");
    m.items_to_remove = strings(&["curl"]);
    let cmds = add_remove_items(&vec![m]).unwrap();
    assert_eq!(cmds, strings(&["apt remove curl"]));
}

#[test]
fn converged_managers_plan_zero_commands() {
    let ms = vec![manager("apt"), manager("brew")];
    assert!(nothing_to_do(&ms));
    let cmds = add_remove_items(&ms).unwrap();
    assert!(cmds.is_empty());
}

#[test]
fn managers_apply_in_the_given_order() {
    let mut a = manager("first");
    a.items_to_add = strings(&["x"]);
    let mut b = manager("second");
    b.items_to_add = strings(&["y"]);
    let cmds = add_remove_items(&vec![a, b]).unwrap();
    assert_eq!(cmds, strings(&["first add x", "second add y"]));
}

#[test]
fn per_item_templates_expand_in_the_apply_plan() {
    let mut m = manager("pipx");
    m.add = "pipx install <item>".to_string();
    m.items_to_add = strings(&["black", "ruff"]);
    let cmds = add_remove_items(&vec![m]).unwrap();
    assert_eq!(cmds, strings(&["pipx install black", "pipx install ruff"]));
}

#[test]
fn broken_template_fails_the_plan() {
    let mut m = manager("apt");
    m.add = "apt add".to_string();
    m.items_to_add = strings(&["vim"]);
    let err = add_remove_items(&vec![m]).unwrap_err();
    assert!(matches!(err, MetaError::TemplateError { .. }));
}

#[test]
fn nothing_to_do_sees_pending_changes() {
    let mut m = manager("apt");
    m.items_to_remove = strings(&["curl"]);
    assert!(!nothing_to_do(&vec![m]));
}

#[test]
fn upgrade_runs_only_managers_with_a_template() {
    let mut a = manager("apt");
    a.upgrade = Some("apt full-upgrade".to_string());
    let b = manager("brew");
    let mut c = manager("nix");
    c.upgrade = Some("nix upgrade".to_string());
    let cmds = upgrade(&vec![a, b, c]).unwrap();
    assert_eq!(cmds, strings(&["apt full-upgrade", "nix upgrade"]));
}

#[test]
fn per_item_upgrade_template_with_no_desired_items_issues_nothing() {
    let mut m = manager("pipx");
    m.upgrade = Some("pipx upgrade <item>".to_string());
    let cmds = upgrade(&vec![m]).unwrap();
    assert!(cmds.is_empty());
}

#[test]
fn config_load_items_leaves_managers_unchanged() {
    let mut config = Config { managers: vec![manager("apt")] };
    config.load_items();
    assert_eq!(config.managers.len(), 1);
    assert_eq!(config.managers[0].name, "apt");
}
