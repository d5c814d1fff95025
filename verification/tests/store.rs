use cmd::registry::Cmd;
use cmd::registry::CmdGroup;
use cmd::scope::Scope;
use cmd::scope::ScopeKind;
use cmd::store::save_to_string;

fn local_scope() -> Scope {
    Scope { kind: ScopeKind::LOCAL, path: "/tmp/proj".to_string() }
}

#[test]
fn loading_binds_every_entry_to_the_scope() {
    let text = "[\n  {\n    \"alias\": \"build\",\n    \"rel_path\": \"./.cmd/scripts/build.sh\",\n    \"description\": \"compile\"\n  }\n]";
    let g = CmdGroup::new(&local_scope(), text).expect("well-formed index");
    assert_eq!(g.scope.path, "/tmp/proj");
    assert_eq!(g.commands.len(), 1);
    assert_eq!(g.commands[0].alias, "build");
    assert_eq!(g.commands[0].abs_path, "/tmp/proj/./.cmd/scripts/build.sh");
}

#[test]
fn loading_an_empty_index_gives_an_empty_registry() {
    let g = CmdGroup::new(&local_scope(), "[]").expect("empty index");
    assert_eq!(g.commands.len(), 0);
}

#[test]
fn a_malformed_index_is_an_error_not_an_empty_registry() {
    assert!(CmdGroup::new(&local_scope(), "[{\"alias\"").is_err());
    assert!(CmdGroup::new(&local_scope(), "").is_err());
}

#[test]
fn saving_then_loading_keeps_every_triple() {
    let scope = local_scope();
    let mut g = CmdGroup { commands: Vec::new(), scope: scope.dup() };
    let entries = [("build", "compile it"), ("run", ""), ("spaced alias", "with \"quotes\"")];
    for (alias, description) in entries {
        let c = Cmd::new(
            &alias.to_string(),
            &format!("./.cmd/scripts/{}.sh", alias),
            &description.to_string(),
            &scope,
        );
        assert!(g.add(c));
    }
    let text = save_to_string(&g);
    let back = CmdGroup::new(&scope, &text).expect("own output loads");
    assert_eq!(back.commands.len(), g.commands.len());
    for (ours, theirs) in g.commands.iter().zip(back.commands.iter()) {
        assert_eq!(ours.alias, theirs.alias);
        assert_eq!(ours.rel_path, theirs.rel_path);
        assert_eq!(ours.description, theirs.description);
        assert_eq!(ours.abs_path, theirs.abs_path);
    }
}
