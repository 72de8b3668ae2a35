use meta::errors::MetaError;
use meta::template::fmt_command;

fn items(xs: &[&str]) -> Vec<String> {
    xs.iter().map(|x| x.to_string()).collect()
}

#[test]
fn per_item_template_renders_once_per_item() {
    let cmds = fmt_command("pipx install <item>", &items(&["black", "ruff"]), " ", false).unwrap();
    assert_eq!(cmds, vec!["pipx install black".to_string(), "pipx install ruff".to_string()]);
}

#[test]
fn per_item_template_leaves_no_token_behind() {
    let cmds = fmt_command("use <item> now", &items(&["a", "b", "c"]), " ", false).unwrap();
    assert_eq!(cmds.len(), 3);
    for cmd in &cmds {
        assert!(!cmd.contains("<item>"));
    }
}

#[test]
fn batch_template_renders_single_joined_command() {
    let cmds = fmt_command("apt install <items>", &items(&["git", "vim"]), " ", false).unwrap();
    assert_eq!(cmds, vec!["apt install git vim".to_string()]);
}

#[test]
fn batch_template_uses_custom_separator() {
    let cmds = fmt_command("pacman -S <items>", &items(&["a", "b", "c"]), ",", false).unwrap();
    assert_eq!(cmds, vec!["pacman -S a,b,c".to_string()]);
}

#[test]
fn batch_template_with_no_items_joins_nothing() {
    let cmds = fmt_command("brew list <items>", &items(&[]), " ", false).unwrap();
    assert_eq!(cmds, vec!["brew list ".to_string()]);
}

#[test]
fn template_with_both_tokens_is_ambiguous() {
    let err = fmt_command("do <item> <items>", &items(&["x"]), " ", false).unwrap_err();
    assert!(matches!(err, MetaError::TemplateError { ambiguous: true, .. }));
}

#[test]
fn template_without_token_fails_when_one_is_required() {
    let err = fmt_command("apt upgrade", &items(&["x"]), " ", false).unwrap_err();
    assert!(matches!(err, MetaError::TemplateError { ambiguous: false, .. }));
}

#[test]
fn template_without_token_passes_verbatim_when_allowed() {
    let cmds = fmt_command("apt upgrade", &items(&["x"]), " ", true).unwrap();
    assert_eq!(cmds, vec!["apt upgrade".to_string()]);
}

#[test]
fn per_item_template_with_no_items_renders_nothing() {
    let cmds = fmt_command("add <item>", &items(&[]), " ", false).unwrap();
    assert!(cmds.is_empty());
}
