use cmd::ops::cmd_remove;
use cmd::registry::Cmd;
use cmd::registry::CmdGroup;
use cmd::registry::JsonCmd;
use cmd::registry::find_command;
use cmd::registry::get_group_mut;
use cmd::scope::Scope;
use cmd::scope::ScopeKind;

fn scope(kind: ScopeKind, path: &str) -> Scope {
    Scope { kind, path: path.to_string() }
}

fn group(kind: ScopeKind, path: &str) -> CmdGroup {
    CmdGroup { commands: Vec::new(), scope: scope(kind, path) }
}

fn entry(alias: &str, scope: &Scope) -> Cmd {
    Cmd::new(
        &alias.to_string(),
        &format!("./.cmd/scripts/{}.sh", alias),
        &String::new(),
        scope,
    )
}

#[test]
fn to_cmd_derives_absolute_path() {
    let s = scope(ScopeKind::LOCAL, "/tmp/proj");
    let j = JsonCmd {
        alias: "build".to_string(),
        rel_path: "./.cmd/scripts/build.sh".to_string(),
        description: "compile".to_string(),
    };
    let c = j.to_cmd(&s);
    assert_eq!(c.alias, "build");
    assert_eq!(c.rel_path, "./.cmd/scripts/build.sh");
    assert_eq!(c.description, "compile");
    assert_eq!(c.abs_path, "/tmp/proj/./.cmd/scripts/build.sh");
    assert_eq!(c.scope.path, "/tmp/proj");
}

#[test]
fn add_then_find_succeeds() {
    let mut g = group(ScopeKind::LOCAL, "/tmp/proj");
    let s = g.scope.dup();
    assert!(g.add(entry("build", &s)));
    let found = g.find_by_alias(&"build".to_string());
    assert!(found.is_some());
    assert_eq!(found.unwrap().alias, "build");
}

#[test]
fn add_duplicate_fails_without_mutating() {
    let mut g = group(ScopeKind::LOCAL, "/tmp/proj");
    let s = g.scope.dup();
    assert!(g.add(entry("build", &s)));
    assert!(!g.add(entry("build", &s)));
    assert_eq!(g.commands.len(), 1);
}

#[test]
fn alias_set_is_adds_not_removed() {
    let mut g = group(ScopeKind::LOCAL, "/tmp/proj");
    let s = g.scope.dup();
    assert!(g.add(entry("one", &s)));
    assert!(g.add(entry("two", &s)));
    assert!(g.add(entry("three", &s)));
    assert!(g.remove(&"two".to_string()));
    assert!(g.add(entry("four", &s)));
    let aliases: Vec<&str> = g.commands.iter().map(|c| c.alias.as_str()).collect();
    assert_eq!(aliases, ["one", "three", "four"]);
    assert!(g.find_by_alias(&"two".to_string()).is_none());
}

#[test]
fn remove_absent_is_a_failing_no_op() {
    let mut g = group(ScopeKind::LOCAL, "/tmp/proj");
    let s = g.scope.dup();
    assert!(g.add(entry("build", &s)));
    assert!(!g.remove(&"missing".to_string()));
    assert_eq!(g.commands.len(), 1);
}

#[test]
fn remove_on_groups_reports_no_write_for_unknown_alias() {
    let mut groups = vec![group(ScopeKind::GLOBAL, "/usr/local/bin")];
    let plan = cmd_remove(&"missing".to_string(), &mut groups);
    assert!(plan.is_none());
}

#[test]
fn find_command_first_loaded_group_wins() {
    let mut first = group(ScopeKind::GLOBAL, "/g");
    let mut second = group(ScopeKind::LOCAL, "/l");
    let gs = first.scope.dup();
    let ls = second.scope.dup();
    assert!(first.add(entry("x", &gs)));
    assert!(second.add(entry("x", &ls)));
    let groups = vec![first, second];
    let c = find_command(&"x".to_string(), &groups).unwrap();
    assert_eq!(c.scope.path, "/g");
}

#[test]
fn find_command_falls_through_to_later_group() {
    let first = group(ScopeKind::GLOBAL, "/g");
    let mut second = group(ScopeKind::LOCAL, "/l");
    let ls = second.scope.dup();
    assert!(second.add(entry("y", &ls)));
    let groups = vec![first, second];
    let c = find_command(&"y".to_string(), &groups).unwrap();
    assert_eq!(c.scope.path, "/l");
    assert!(find_command(&"z".to_string(), &groups).is_none());
}

#[test]
fn get_group_mut_picks_the_matching_scope() {
    let groups_vec = vec![group(ScopeKind::GLOBAL, "/g"), group(ScopeKind::LOCAL, "/l")];
    let mut groups = groups_vec;
    let picked = get_group_mut(&ScopeKind::LOCAL, &mut groups).unwrap();
    assert_eq!(picked.scope.path, "/l");
    assert!(get_group_mut(&ScopeKind::GLOBAL, &mut groups).is_some());
    let mut only_global = vec![group(ScopeKind::GLOBAL, "/g")];
    assert!(get_group_mut(&ScopeKind::LOCAL, &mut only_global).is_none());
}

#[test]
fn json_cmd_from_cmd_keeps_the_triple() {
    let s = scope(ScopeKind::LOCAL, "/tmp/proj");
    let c = Cmd::new(
        &"build".to_string(),
        &"./.cmd/scripts/build.sh".to_string(),
        &"compile".to_string(),
        &s,
    );
    let j = JsonCmd::from(&c);
    assert_eq!(j.alias, "build");
    assert_eq!(j.rel_path, "./.cmd/scripts/build.sh");
    assert_eq!(j.description, "compile");
}
