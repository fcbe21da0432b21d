use argvtype::stdlib::{all_commands, lookup_command, CommandEffect, Destructiveness};

#[test]
fn lookup_rm() {
    let cmd = lookup_command("rm").expect("rm should be known");
    assert_eq!(cmd.destructiveness, Destructiveness::Destructive);
}

#[test]
fn lookup_unknown() {
    assert!(lookup_command("some_custom_tool").is_none());
}

#[test]
fn lookup_cat() {
    let cmd = lookup_command("cat").expect("cat should be known");
    assert_eq!(cmd.destructiveness, Destructiveness::ReadOnly);
}

#[test]
fn all_commands_populated() {
    assert!(all_commands().len() >= 15);
}

#[test]
fn destructiveness_ordering() {
    assert!(Destructiveness::ReadOnly < Destructiveness::Destructive);
    assert!(Destructiveness::Modifying < Destructiveness::SystemAltering);
}

#[test]
fn rm_has_recursive_flag() {
    let cmd = lookup_command("rm").unwrap();
    assert!(cmd.known_flags.iter().any(|f| f.short == Some("-r")), "rm should have -r flag");
}

#[test]
fn lookup_kubectl() {
    let cmd = lookup_command("kubectl").expect("kubectl should be known");
    assert_eq!(cmd.destructiveness, Destructiveness::SystemAltering);
}

// Every command of the table is found by its name, with its own entry.
#[test]
fn every_command_looked_up() {
    let all = all_commands();
    assert_eq!(all.len(), 16);
    for c in &all {
        let found = lookup_command(c.name).unwrap();
        assert_eq!(found.name, c.name);
        assert_eq!(found.destructiveness, c.destructiveness);
        assert_eq!(found.effects, c.effects);
    }
}

#[test]
fn git_effects_and_rank() {
    let git = lookup_command("git").unwrap();
    assert_eq!(
        git.effects,
        vec![CommandEffect::ReadsFs, CommandEffect::WritesFs, CommandEffect::Network, CommandEffect::MayExec]
    );
    assert_eq!(Destructiveness::SystemAltering.rank(), 3);
    assert!(Destructiveness::Destructive.at_least(&Destructiveness::Modifying));
    assert!(!Destructiveness::ReadOnly.at_least(&Destructiveness::Modifying));
    assert!(lookup_command("").is_none());
    assert!(lookup_command("RM").is_none());
}
