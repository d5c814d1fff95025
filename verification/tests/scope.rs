use cmd::paths::cmd_dir_path;
use cmd::paths::index_file_path;
use cmd::paths::join_path;
use cmd::paths::parent_dir;
use cmd::paths::script_rel_path;
use cmd::paths::scripts_dir_path;
use cmd::scope::LocalSearch;
use cmd::scope::Scope;
use cmd::scope::ScopeError;
use cmd::scope::ScopeKind;
use cmd::scope::choose_scope;
use cmd::scope::find_local_step;

fn global() -> Scope {
    Scope { kind: ScopeKind::GLOBAL, path: "/usr/local/bin".to_string() }
}

fn local() -> Scope {
    Scope { kind: ScopeKind::LOCAL, path: "/tmp/proj".to_string() }
}

#[test]
fn no_local_root_and_no_flags_resolves_global() {
    let r = choose_scope(false, false, global(), None).unwrap();
    assert_eq!(r.kind, ScopeKind::GLOBAL);
    assert_eq!(r.path, "/usr/local/bin");
}

#[test]
fn local_root_and_no_flags_resolves_local() {
    let r = choose_scope(false, false, global(), Some(local())).unwrap();
    assert_eq!(r.kind, ScopeKind::LOCAL);
    assert_eq!(r.path, "/tmp/proj");
}

#[test]
fn forced_local_without_local_root_is_fatal() {
    let r = choose_scope(false, true, global(), None);
    assert_eq!(r.unwrap_err(), ScopeError::LocalForcedButMissing);
}

#[test]
fn forced_global_wins_regardless_of_local_root() {
    let r = choose_scope(true, false, global(), Some(local())).unwrap();
    assert_eq!(r.kind, ScopeKind::GLOBAL);
    let r = choose_scope(true, true, global(), None).unwrap();
    assert_eq!(r.kind, ScopeKind::GLOBAL);
}

#[test]
fn local_walk_stops_where_the_marker_is() {
    match find_local_step(&"/tmp/proj/sub".to_string(), true) {
        LocalSearch::Found(d) => assert_eq!(d, "/tmp/proj/sub"),
        _ => panic!("expected the directory itself"),
    }
}

#[test]
fn local_walk_climbs_to_each_ancestor_and_ends_at_the_root() {
    match find_local_step(&"/tmp/proj/sub".to_string(), false) {
        LocalSearch::Ascend(p) => assert_eq!(p, "/tmp/proj"),
        _ => panic!("expected an ascent"),
    }
    match find_local_step(&"/tmp".to_string(), false) {
        LocalSearch::Ascend(p) => assert_eq!(p, "/"),
        _ => panic!("expected an ascent to the root"),
    }
    match find_local_step(&"/".to_string(), false) {
        LocalSearch::Absent => {},
        _ => panic!("expected the walk to end"),
    }
}

#[test]
fn parent_dir_walks_absolute_paths() {
    assert_eq!(parent_dir("/a/b/c").unwrap(), "/a/b");
    assert_eq!(parent_dir("/a").unwrap(), "/");
    assert_eq!(parent_dir("/"), None);
    assert_eq!(parent_dir("plain"), None);
}

#[test]
fn os_paths_convert_to_their_own_characters() {
    let p = std::path::PathBuf::from("/tmp/proj/sub");
    assert_eq!(cmd::paths::path_to_str(&p), "/tmp/proj/sub");
}

#[test]
fn fixed_locations_hang_off_the_scope_root() {
    assert_eq!(join_path("/tmp/proj", "x"), "/tmp/proj/x");
    assert_eq!(cmd_dir_path("/tmp/proj"), "/tmp/proj/.cmd");
    assert_eq!(scripts_dir_path("/tmp/proj"), "/tmp/proj/.cmd/scripts");
    assert_eq!(index_file_path("/tmp/proj"), "/tmp/proj/.cmd/index.json");
    assert_eq!(script_rel_path("build"), "./.cmd/scripts/build.sh");
}
