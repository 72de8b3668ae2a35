//! The end-to-end build workflow, with the external command execution
//! simulated: load the registry, resolve the configuration, reconcile
//! against a captured list output, and plan the apply phase.

use meta::apply::{add_remove_items, nothing_to_do};
use meta::cli::{Cli, Commands};
use meta::reconcile::compute_add_remove;
use meta::registry::load_managers;
use meta::resolve::load_configs;
use meta::template::fmt_command;

#[test]
fn build_workflow_plans_the_expected_commands() {
    let files = vec![(
        "apt".to_string(),
        "add = \"apt install <items>\"\nremove = \"apt remove <items>\"\nlist = \"apt list --installed\"\n"
            .to_string(),
    )];
    let mut managers = load_managers(&files, "apt\n", &None, false).unwrap();

    let fragments = vec![("../machines/host".to_string(), "apt = [\"git\", \"vim\"]".to_string())];
    load_configs(&mut managers, "host", &fragments).unwrap();

    // Render the list command; it carries no placeholder, so it passes
    // through verbatim.
    let list_cmds = fmt_command(
        managers[0].list.as_str(),
        &managers[0].items,
        managers[0].separator(),
        true,
    )
    .unwrap();
    assert_eq!(list_cmds, vec!["apt list --installed".to_string()]);

    // Simulate running the list command.
    let outputs = vec!["git\ncurl\n".to_string()];
    compute_add_remove(&mut managers[0], &outputs);

    assert_eq!(managers[0].items_to_add, vec!["vim".to_string()]);
    assert_eq!(managers[0].items_to_remove, vec!["curl".to_string()]);
    assert!(!nothing_to_do(&managers));

    // Add before remove: remove_then_add defaults to false.
    let plan = add_remove_items(&managers).unwrap();
    assert_eq!(plan, vec!["apt install vim".to_string(), "apt remove curl".to_string()]);
}

#[test]
fn rebuilding_a_converged_system_performs_no_commands() {
    let files = vec![(
        "apt".to_string(),
        "add = \"apt install <items>\"\nremove = \"apt remove <items>\"\nlist = \"apt list --installed\"\n"
            .to_string(),
    )];
    let mut managers = load_managers(&files, "apt\n", &None, false).unwrap();
    let fragments = vec![("../machines/host".to_string(), "apt = [\"git\", \"vim\"]".to_string())];
    load_configs(&mut managers, "host", &fragments).unwrap();

    let outputs = vec!["git\nvim\n".to_string()];
    compute_add_remove(&mut managers[0], &outputs);

    assert!(nothing_to_do(&managers));
    let plan = add_remove_items(&managers).unwrap();
    assert!(plan.is_empty());
}

#[test]
fn cli_surface_carries_the_selection_and_workflow() {
    let cli = Cli {
        managers: Some(vec!["apt".to_string()]),
        non_specified: false,
        command: Commands::Diff,
    };
    assert_eq!(cli.command, Commands::Diff);
    assert_ne!(cli.command, Commands::Build);
    assert_eq!(cli.managers.as_deref(), Some(&["apt".to_string()][..]));
    assert!(!cli.non_specified);
}
