use cmd::codec::parse_index;
use cmd::ops::AddError;
use cmd::ops::EditPlan;
use cmd::ops::InvokePlan;
use cmd::ops::cmd_add;
use cmd::ops::cmd_edit;
use cmd::ops::cmd_remove;
use cmd::ops::plan_invoke;
use cmd::registry::CmdGroup;
use cmd::registry::find_command;
use cmd::scope::Scope;
use cmd::scope::ScopeKind;

fn local_scope() -> Scope {
    Scope { kind: ScopeKind::LOCAL, path: "/tmp/proj".to_string() }
}

fn empty_group(kind: ScopeKind, path: &str) -> CmdGroup {
    CmdGroup { commands: Vec::new(), scope: Scope { kind, path: path.to_string() } }
}

#[test]
fn add_then_invoke_spawns_the_registered_script() {
    let scope = local_scope();
    let mut groups = vec![empty_group(ScopeKind::LOCAL, "/tmp/proj")];
    let plan = cmd_add(&"build".to_string(), &"compile".to_string(), &scope, &mut groups)
        .expect("add should succeed");
    assert_eq!(plan.script_path, "/tmp/proj/./.cmd/scripts/build.sh");
    assert_eq!(plan.index_path, "/tmp/proj/.cmd/index.json");
    assert_eq!(plan.script_template, "#!/usr/bin/env sh\n\necho \"Hello world\"\n");

    let command = find_command(&"build".to_string(), &groups).expect("alias resolves");
    assert_eq!(command.description, "compile");
    match plan_invoke(&command, vec!["-v".to_string()], true) {
        InvokePlan::Run { program, args, cwd } => {
            assert_eq!(program, "/tmp/proj/./.cmd/scripts/build.sh");
            assert_eq!(args, ["-v"]);
            assert_eq!(cwd, "/tmp/proj");
        },
        InvokePlan::Dangling { .. } => panic!("script exists; nothing dangles"),
    }
}

#[test]
fn add_writes_an_index_that_loads_back() {
    let scope = local_scope();
    let mut groups = vec![empty_group(ScopeKind::LOCAL, "/tmp/proj")];
    let plan = cmd_add(&"build".to_string(), &"compile".to_string(), &scope, &mut groups)
        .expect("add should succeed");
    let entries = parse_index(&plan.index_text).expect("the planned text parses");
    assert_eq!(entries.len(), 1);
    assert_eq!(entries[0].alias, "build");
    assert_eq!(entries[0].rel_path, "./.cmd/scripts/build.sh");
    assert_eq!(entries[0].description, "compile");
}

#[test]
fn add_refuses_a_duplicate_and_a_missing_scope() {
    let scope = local_scope();
    let mut groups = vec![empty_group(ScopeKind::LOCAL, "/tmp/proj")];
    cmd_add(&"build".to_string(), &String::new(), &scope, &mut groups).unwrap();
    let again = cmd_add(&"build".to_string(), &String::new(), &scope, &mut groups);
    assert_eq!(again.unwrap_err(), AddError::AlreadyExists);
    assert_eq!(groups[0].commands.len(), 1);

    let mut no_local = vec![empty_group(ScopeKind::GLOBAL, "/usr/local/bin")];
    let missing = cmd_add(&"build".to_string(), &String::new(), &scope, &mut no_local);
    assert_eq!(missing.unwrap_err(), AddError::ScopeNotLoaded);
}

#[test]
fn duplicate_alias_in_the_other_scope_is_allowed() {
    let scope = local_scope();
    let mut groups = vec![
        empty_group(ScopeKind::GLOBAL, "/usr/local/bin"),
        empty_group(ScopeKind::LOCAL, "/tmp/proj"),
    ];
    let global_scope = Scope { kind: ScopeKind::GLOBAL, path: "/usr/local/bin".to_string() };
    cmd_add(&"x".to_string(), &String::new(), &global_scope, &mut groups).unwrap();
    cmd_add(&"x".to_string(), &String::new(), &scope, &mut groups).unwrap();
    assert_eq!(groups[0].commands.len(), 1);
    assert_eq!(groups[1].commands.len(), 1);
}

#[test]
fn remove_rewrites_only_the_owning_index() {
    let scope = local_scope();
    let mut groups = vec![empty_group(ScopeKind::LOCAL, "/tmp/proj")];
    cmd_add(&"one".to_string(), &String::new(), &scope, &mut groups).unwrap();
    cmd_add(&"two".to_string(), &String::new(), &scope, &mut groups).unwrap();
    let plan = cmd_remove(&"one".to_string(), &mut groups).expect("known alias");
    assert_eq!(plan.index_path, "/tmp/proj/.cmd/index.json");
    let entries = parse_index(&plan.index_text).unwrap();
    assert_eq!(entries.len(), 1);
    assert_eq!(entries[0].alias, "two");
    assert!(find_command(&"one".to_string(), &groups).is_none());
}

#[test]
fn edit_without_alias_opens_the_index_itself() {
    let scope = local_scope();
    let groups = vec![empty_group(ScopeKind::LOCAL, "/tmp/proj")];
    match cmd_edit(None, &scope, &groups) {
        EditPlan::EditIndex(p) => assert_eq!(p, "/tmp/proj/.cmd/index.json"),
        _ => panic!("edit with no alias opens the index file"),
    }
}

#[test]
fn edit_with_alias_opens_its_script_or_reports_unknown() {
    let scope = local_scope();
    let mut groups = vec![empty_group(ScopeKind::LOCAL, "/tmp/proj")];
    cmd_add(&"build".to_string(), &String::new(), &scope, &mut groups).unwrap();
    match cmd_edit(Some(&"build".to_string()), &scope, &groups) {
        EditPlan::EditScript(p) => assert_eq!(p, "/tmp/proj/./.cmd/scripts/build.sh"),
        _ => panic!("known alias opens its script"),
    }
    match cmd_edit(Some(&"nope".to_string()), &scope, &groups) {
        EditPlan::UnknownAlias => {},
        _ => panic!("unknown alias opens nothing"),
    }
}

#[test]
fn dangling_alias_reports_and_spawns_nothing() {
    let scope = local_scope();
    let mut groups = vec![empty_group(ScopeKind::LOCAL, "/tmp/proj")];
    cmd_add(&"gone".to_string(), &String::new(), &scope, &mut groups).unwrap();
    let command = find_command(&"gone".to_string(), &groups).unwrap();
    match plan_invoke(&command, Vec::new(), false) {
        InvokePlan::Dangling { alias, rel_path } => {
            assert_eq!(alias, "gone");
            assert_eq!(rel_path, "./.cmd/scripts/gone.sh");
        },
        InvokePlan::Run { .. } => panic!("a missing script must not run"),
    }
}
